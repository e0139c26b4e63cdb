use keyset_pagination::keys::OrderKey;
use keyset_pagination::keys::Row;
use keyset_pagination::page::next_page;

fn user(id: i64, slug: &str) -> Row {
    Row { id, key: vec![OrderKey::Text(slug.as_bytes().to_vec()), OrderKey::Int(id)] }
}

fn users() -> Vec<Row> {
    vec![user(1, "a"), user(2, "ab"), user(3, "abc"), user(4, "abcd"), user(5, "abdce")]
}

fn firstnames(page: &[Row]) -> Vec<&'static str> {
    let names = ["one", "two", "three", "four", "five"];
    page.iter().map(|r| names[(r.id - 1) as usize]).collect()
}

fn ids(page: &[Row]) -> Vec<i64> {
    page.iter().map(|r| r.id).collect()
}

#[test]
fn test_it() {
    let rows = users();
    let page = next_page(&rows, &rows, 2, 2);
    assert_eq!(firstnames(&page), vec!["three", "four"]);
}

#[test]
fn test_advanced_query() {
    // the base query joins follows to users and filters on the follow
    // columns; the fresh user has no follows, so its result set is empty,
    // while the anchor relation (users) still holds the anchor row
    let base: Vec<Row> = Vec::new();
    let user_row = Row {
        id: 1,
        key: vec![OrderKey::Text(b"Bob 1".to_vec()), OrderKey::Text(b"Larsen 1".to_vec())],
    };
    let anchor = vec![user_row];
    let page = next_page(&base, &anchor, 1, 20);
    assert!(page.is_empty());
}

#[test]
fn test_pages_cover_all() {
    let rows = users();
    let mut cursor: i64 = 2;
    let mut collected: Vec<i64> = Vec::new();
    loop {
        let page = next_page(&rows, &rows, cursor, 2);
        for r in &page {
            collected.push(r.id);
        }
        if page.len() < 2 {
            break;
        }
        cursor = page[page.len() - 1].id;
    }
    assert_eq!(collected, vec![3, 4, 5]);
}

#[test]
fn test_page_size_bound() {
    let rows = users();
    let first = next_page(&rows, &rows, 1, 3);
    assert_eq!(ids(&first), vec![2, 3, 4]);
    let second = next_page(&rows, &rows, first[2].id, 3);
    assert_eq!(ids(&second), vec![5]);
    let third = next_page(&rows, &rows, second[0].id, 3);
    assert!(third.is_empty());
}

#[test]
fn test_anchor_excluded() {
    let rows = users();
    let page = next_page(&rows, &rows, 3, 5);
    assert!(page.iter().all(|r| r.id != 3));
    assert_eq!(ids(&page), vec![4, 5]);
}

#[test]
fn test_empty_anchor() {
    let rows = users();
    let page = next_page(&rows, &rows, 42, 2);
    assert!(page.is_empty());
}

#[test]
fn test_filter_preserved() {
    let rows = users();
    let filtered = vec![user(1, "a"), user(3, "abc"), user(5, "abdce")];
    // the filter drops the anchor row (id 2) from the base result set, but
    // the cursor still resolves against the anchor relation
    let page = next_page(&filtered, &rows, 2, 2);
    assert_eq!(ids(&page), vec![3, 5]);
}

#[test]
fn test_multi_column_tie_break() {
    let a1 = Row {
        id: 1,
        key: vec![OrderKey::Text(b"larsen".to_vec()), OrderKey::Text(b"anna".to_vec())],
    };
    let a2 = Row {
        id: 2,
        key: vec![OrderKey::Text(b"larsen".to_vec()), OrderKey::Text(b"bob".to_vec())],
    };
    let b1 = Row {
        id: 3,
        key: vec![OrderKey::Text(b"meyer".to_vec()), OrderKey::Text(b"anna".to_vec())],
    };
    let rows = vec![b1, a2, a1];
    let page = next_page(&rows, &rows, 1, 10);
    assert_eq!(ids(&page), vec![2, 3]);
}

#[test]
fn test_full_last_page_boundary() {
    // exactly page_size rows remain after the anchor: the last page is full
    let rows = users();
    let page = next_page(&rows, &rows, 4, 1);
    assert_eq!(ids(&page), vec![5]);
    let next = next_page(&rows, &rows, 5, 1);
    assert!(next.is_empty());
}
