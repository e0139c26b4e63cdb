//! Meaning of a keyset-paginated query over a modelled result set: the page
//! of rows strictly after the anchor row in the key order, and the laws that
//! make keyset pagination sound — pages are sorted, bounded, exclude the
//! anchor, and repeated cursoring walks the whole result set with no row
//! skipped or repeated.

use vstd::prelude::*;

use crate::keys::copy_key;
use crate::keys::key_lt;
use crate::keys::key_lt_exec;
use crate::keys::key_view;
use crate::keys::lemma_key_lt_asymm;
use crate::keys::lemma_key_lt_connected;
use crate::keys::lemma_key_lt_irrefl;
use crate::keys::lemma_key_lt_trans;
use crate::keys::KeyVal;
use crate::keys::Row;
use crate::keys::RowV;

verus! {

/// Values of a sequence of rows.
pub open spec fn rows_view(rows: Seq<Row>) -> Seq<RowV> {
    rows.map_values(|r: Row| r@)
}

/// No two rows share an ordering key: the order expression is a total order
/// over the result set.
pub open spec fn distinct_keys(rows: Seq<RowV>) -> bool {
    forall|i: int, j: int|
        0 <= i < rows.len() && 0 <= j < rows.len() && i != j ==> rows[i].key != rows[j].key
}

/// What it means for `p` to be the page of size at most `n` of `rows`
/// strictly after the key `k`: every page row is a result row past `k`, the
/// page is strictly sorted by key, and it holds the least such rows — a row
/// past `k` is either on the page or, when the page is full, past the
/// page's last row.
pub open spec fn is_page(rows: Seq<RowV>, k: Seq<KeyVal>, n: nat, p: Seq<RowV>) -> bool {
    &&& p.len() <= n
    &&& forall|i: int| 0 <= i < p.len() ==> rows.contains(#[trigger] p[i]) && key_lt(k, p[i].key)
    &&& forall|i: int, j: int|
        0 <= i < j < p.len() ==> key_lt(#[trigger] p[i].key, #[trigger] p[j].key)
    &&& forall|r: RowV|
        #[trigger] rows.contains(r) && key_lt(k, r.key) ==> p.contains(r) || (p.len() == n
            && key_lt(p.last().key, r.key))
}

/// The first row whose identifying column equals `id`, if any.
pub open spec fn find_by_id(rows: Seq<RowV>, id: int) -> Option<RowV>
    decreases rows.len(),
{
    if rows.len() == 0 {
        None
    } else if rows[0].id == id {
        Some(rows[0])
    } else {
        find_by_id(rows.drop_first(), id)
    }
}

proof fn lemma_find_skip(rows: Seq<RowV>, id: int, i: int)
    requires
        0 <= i <= rows.len(),
        forall|j: int| 0 <= j < i ==> rows[j].id != id,
    ensures
        find_by_id(rows, id) == find_by_id(rows.skip(i), id),
    decreases i,
{
    if i > 0 {
        assert(rows.drop_first().skip(i - 1) =~= rows.skip(i));
        assert forall|j: int| 0 <= j < i - 1 implies rows.drop_first()[j].id != id by {
            assert(rows[j + 1].id != id);
        }
        lemma_find_skip(rows.drop_first(), id, i - 1);
    } else {
        assert(rows.skip(0) =~= rows);
    }
}

/// Looks up the anchor row by its identifying column.
fn find_anchor(rows: &Vec<Row>, id: i64) -> (r: Option<usize>)
    ensures
        (match r {
            Some(i) => i < rows@.len() && find_by_id(rows_view(rows@), id as int) == Some(
                rows@[i as int]@,
            ),
            None => find_by_id(rows_view(rows@), id as int) is None,
        }),
{
    let ghost rv = rows_view(rows@);
    let mut i: usize = 0;
    loop
        invariant
            i <= rows@.len(),
            rv == rows_view(rows@),
            forall|j: int| 0 <= j < i ==> rv[j].id != id,
        decreases rows@.len() - i,
    {
        proof {
            lemma_find_skip(rv, id as int, i as int);
        }
        if i >= rows.len() {
            assert(rv.skip(i as int).len() == 0);
            return None;
        }
        proof {
            assert(rv.skip(i as int)[0] == rv[i as int]);
        }
        if rows[i].id == id {
            return Some(i);
        }
        i += 1;
    }
}

/// Computes the next page: the at most `page_size` rows of `rows` that come
/// first in the key order strictly after the anchor row, the row of
/// `anchor_rows` whose identifying column equals `cursor_id`.
///
/// The anchor is looked up in `anchor_rows` — the anchor relation, which
/// the emitted SQL re-derives from the cursor specification — while the
/// page is drawn from `rows`, the (possibly joined and filtered) result set
/// of the base query.  If no anchor row matches, the page is empty.
pub fn next_page(rows: &Vec<Row>, anchor_rows: &Vec<Row>, cursor_id: i64, page_size: usize) -> (page:
    Vec<Row>)
    requires
        page_size >= 1,
        distinct_keys(rows_view(rows@)),
    ensures
        (match find_by_id(rows_view(anchor_rows@), cursor_id as int) {
            Some(a) => is_page(rows_view(rows@), a.key, page_size as nat, rows_view(page@)),
            None => page@.len() == 0,
        }),
{
    let ghost rv = rows_view(rows@);
    let anchor_idx = match find_anchor(anchor_rows, cursor_id) {
        Some(i) => i,
        None => {
            return Vec::new();
        },
    };
    let ghost k0 = anchor_rows@[anchor_idx as int]@.key;
    let mut cur: Vec<crate::keys::OrderKey> = copy_key(&anchor_rows[anchor_idx].key);
    let mut page: Vec<Row> = Vec::new();
    proof {
        assert(key_view(cur@) == k0);
    }
    loop
        invariant
            rv == rows_view(rows@),
            distinct_keys(rv),
            page_size >= 1,
            page@.len() <= page_size,
            key_view(cur@) == (if page@.len() == 0 {
                k0
            } else {
                rows_view(page@).last().key
            }),
            forall|i: int|
                0 <= i < page@.len() ==> rv.contains(#[trigger] rows_view(page@)[i]) && key_lt(
                    k0,
                    rows_view(page@)[i].key,
                ),
            forall|i: int, j: int|
                0 <= i < j < page@.len() ==> key_lt(
                    #[trigger] rows_view(page@)[i].key,
                    #[trigger] rows_view(page@)[j].key,
                ),
            forall|r: RowV|
                #[trigger] rv.contains(r) && key_lt(k0, r.key) ==> rows_view(page@).contains(r)
                    || key_lt(key_view(cur@), r.key),
        ensures
            is_page(rv, k0, page_size as nat, rows_view(page@)),
        decreases page_size - page@.len(),
    {
        let ghost pv = rows_view(page@);
        let ghost kcur = key_view(cur@);
        if page.len() >= page_size {
            proof {
                assert(pv.len() == page_size);
                assert(kcur == pv.last().key);
            }
            break ;
        }
        // scan for the least row of the result set strictly after `cur`
        let mut best: Option<usize> = None;
        let mut i: usize = 0;
        while i < rows.len()
            invariant
                i <= rows@.len(),
                rv == rows_view(rows@),
                kcur == key_view(cur@),
                (match best {
                    Some(b) => b < rows@.len() && key_lt(kcur, rv[b as int].key) && forall|j: int|
                        0 <= j < i && key_lt(kcur, #[trigger] rv[j].key) ==> !key_lt(
                            rv[j].key,
                            rv[b as int].key,
                        ),
                    None => forall|j: int| 0 <= j < i ==> !key_lt(kcur, #[trigger] rv[j].key),
                }),
            decreases rows@.len() - i,
        {
            proof {
                assert(rv[i as int] == rows@[i as int]@);
                lemma_key_lt_irrefl(rv[i as int].key);
            }
            if key_lt_exec(&cur, &rows[i].key) {
                match best {
                    None => {
                        best = Some(i);
                    },
                    Some(b) => {
                        proof {
                            assert(rv[b as int] == rows@[b as int]@);
                        }
                        if key_lt_exec(&rows[i].key, &rows[b].key) {
                            proof {
                                assert forall|j: int|
                                    0 <= j < i && key_lt(kcur, #[trigger] rv[j].key) implies !key_lt(
                                    rv[j].key,
                                    rv[i as int].key,
                                ) by {
                                    if key_lt(rv[j].key, rv[i as int].key) {
                                        lemma_key_lt_trans(
                                            rv[j].key,
                                            rv[i as int].key,
                                            rv[b as int].key,
                                        );
                                    }
                                }
                            }
                            best = Some(i);
                        }
                    },
                }
            }
            i += 1;
        }
        let b = match best {
            Some(b) => b,
            None => {
                // nothing of the result set is past `cur`: the page is complete
                proof {
                    assert forall|r: RowV|
                        #[trigger] rv.contains(r) && key_lt(k0, r.key) implies pv.contains(r) by {
                        let ridx = choose|ridx: int| 0 <= ridx < rv.len() && rv[ridx] == r;
                        assert(!key_lt(kcur, rv[ridx].key));
                    }
                }
                break ;
            },
        };
        let picked = rows[b].clone();
        proof {
            assert(rv[b as int] == picked@);
            assert(rv.contains(rv[b as int]));
            // the picked row is past the anchor key
            if pv.len() > 0 {
                lemma_key_lt_trans(k0, kcur, picked@.key);
            }
            // every unpaged row past the anchor is past the picked row
            assert forall|r: RowV|
                #[trigger] rv.contains(r) && key_lt(k0, r.key) && !pv.push(picked@).contains(
                    r,
                ) implies key_lt(picked@.key, r.key) by {
                let ridx = choose|ridx: int| 0 <= ridx < rv.len() && rv[ridx] == r;
                if pv.contains(r) {
                    let m = choose|m: int| 0 <= m < pv.len() && pv[m] == r;
                    assert(pv.push(picked@)[m] == r);
                    assert(pv.push(picked@).contains(r));
                }
                assert(key_lt(kcur, r.key));
                lemma_key_lt_connected(r.key, picked@.key);
                if r.key == picked@.key {
                    assert(rv[ridx].key == rv[b as int].key);
                    assert(ridx == b as int);
                    assert(pv.push(picked@)[pv.len() as int] == picked@);
                    assert(pv.push(picked@).contains(r));
                } else if key_lt(r.key, picked@.key) {
                    assert(!key_lt(rv[ridx].key, rv[b as int].key));
                    assert(false);
                }
            }
        }
        page.push(picked);
        cur = copy_key(&rows[b].key);
        proof {
            assert(rows_view(page@) =~= pv.push(rv[b as int]));
            assert(rows_view(page@).last() == rv[b as int]);
            // the page stays strictly sorted: older rows are below the old
            // frontier, which is below the picked row
            assert forall|x: int, y: int|
                0 <= x < y < rows_view(page@).len() implies key_lt(
                #[trigger] rows_view(page@)[x].key,
                #[trigger] rows_view(page@)[y].key,
            ) by {
                if y == rows_view(page@).len() - 1 && pv.len() > 0 && x < pv.len() - 1 {
                    lemma_key_lt_trans(pv[x].key, kcur, rv[b as int].key);
                }
            }
        }
    }
    page
}

/// Strictly key-sorted rows are pairwise distinct.
proof fn lemma_sorted_no_dup(s: Seq<RowV>)
    requires
        forall|i: int, j: int| 0 <= i < j < s.len() ==> key_lt(#[trigger] s[i].key, #[trigger] s[j].key),
    ensures
        s.no_duplicates(),
{
    assert forall|i: int, j: int|
        0 <= i < s.len() && 0 <= j < s.len() && i != j implies s[i] != s[j] by {
        if i < j {
            if s[i] == s[j] {
                lemma_key_lt_irrefl(s[i].key);
            }
        } else {
            if s[i] == s[j] {
                lemma_key_lt_irrefl(s[i].key);
            }
        }
    }
}

/// A chain of pages produced by repeatedly cursoring forward from key `k`:
/// each page is the page of its cursor, each next cursor is the last row of
/// the page before it, and the chain ends exactly when a page is not full.
pub open spec fn chain_ok(rows: Seq<RowV>, k: Seq<KeyVal>, n: nat, pages: Seq<Seq<RowV>>) -> bool
    decreases pages.len(),
{
    if pages.len() == 0 {
        false
    } else {
        &&& is_page(rows, k, n, pages.first())
        &&& if pages.first().len() == n {
            chain_ok(rows, pages.first().last().key, n, pages.drop_first())
        } else {
            pages.len() == 1
        }
    }
}

/// The ordering invariant of keyset pagination: the concatenation of a full
/// chain of pages after key `k` is strictly sorted by the key order and
/// holds exactly the rows of the result set past `k` — no row is repeated
/// and none is left out.
pub proof fn lemma_chain_exhaustive(rows: Seq<RowV>, k: Seq<KeyVal>, n: nat, pages: Seq<Seq<RowV>>)
    requires
        n >= 1,
        distinct_keys(rows),
        chain_ok(rows, k, n, pages),
    ensures
        forall|i: int, j: int|
            0 <= i < j < pages.flatten().len() ==> key_lt(
                #[trigger] pages.flatten()[i].key,
                #[trigger] pages.flatten()[j].key,
            ),
        forall|r: RowV|
            #[trigger] pages.flatten().contains(r) <==> (rows.contains(r) && key_lt(k, r.key)),
        pages.flatten().no_duplicates(),
    decreases pages.len(),
{
    let p = pages.first();
    let rest = pages.drop_first();
    let fl = pages.flatten();
    assert(fl == p + rest.flatten());
    if p.len() < n {
        assert(rest.len() == 0);
        assert(rest.flatten() =~= Seq::<RowV>::empty());
        assert(fl =~= p);
        assert forall|r: RowV| #[trigger] fl.contains(r) implies rows.contains(r) && key_lt(
            k,
            r.key,
        ) by {
            let i = choose|i: int| 0 <= i < fl.len() && fl[i] == r;
            assert(rows.contains(p[i]));
        }
        lemma_sorted_no_dup(fl);
    } else {
        let k2 = p.last().key;
        lemma_chain_exhaustive(rows, k2, n, rest);
        let rfl = rest.flatten();
        // the cursor row itself is past `k`
        assert(rows.contains(p[p.len() - 1]));
        assert(key_lt(k, k2));
        // membership, both ways
        assert forall|r: RowV| #[trigger] fl.contains(r) implies rows.contains(r) && key_lt(
            k,
            r.key,
        ) by {
            let i = choose|i: int| 0 <= i < fl.len() && fl[i] == r;
            if i < p.len() {
                assert(rows.contains(p[i]));
            } else {
                assert(rfl[i - p.len()] == r);
                assert(rfl.contains(r));
                lemma_key_lt_trans(k, k2, r.key);
            }
        }
        assert forall|r: RowV| rows.contains(r) && key_lt(k, r.key) implies #[trigger] fl.contains(
            r,
        ) by {
            if p.contains(r) {
                let i = choose|i: int| 0 <= i < p.len() && p[i] == r;
                assert(fl[i] == r);
            } else {
                assert(key_lt(k2, r.key));
                assert(rfl.contains(r));
                let i = choose|i: int| 0 <= i < rfl.len() && rfl[i] == r;
                assert(fl[p.len() + i] == r);
            }
        }
        // sortedness across the seam: rows of later pages are past the
        // cursor row, which closes this page
        assert forall|i: int, j: int| 0 <= i < j < fl.len() implies key_lt(
            #[trigger] fl[i].key,
            #[trigger] fl[j].key,
        ) by {
            if i < p.len() && j >= p.len() {
                let rj = rfl[j - p.len()];
                assert(rfl.contains(rj));
                assert(key_lt(k2, rj.key));
                if i < p.len() - 1 {
                    lemma_key_lt_trans(p[i].key, k2, rj.key);
                }
            }
        }
        lemma_sorted_no_dup(fl);
    }
}

/// No two rows share an identifying column value.
pub open spec fn distinct_ids(rows: Seq<RowV>) -> bool {
    forall|i: int, j: int|
        0 <= i < rows.len() && 0 <= j < rows.len() && i != j ==> rows[i].id != rows[j].id
}

/// With unique identifiers, cursoring by a row's identifying column — as a
/// caller does with the last row of the page before — anchors at exactly
/// that row.
pub proof fn lemma_find_unique_id(rows: Seq<RowV>, r: RowV)
    requires
        distinct_ids(rows),
        rows.contains(r),
    ensures
        find_by_id(rows, r.id) == Some(r),
    decreases rows.len(),
{
    let m = choose|m: int| 0 <= m < rows.len() && rows[m] == r;
    if rows[0].id == r.id {
        if m > 0 {
            assert(rows[0].id == rows[m].id);
            assert(false);
        }
    } else {
        assert(m > 0);
        assert(rows.drop_first()[m - 1] == r);
        assert(rows.drop_first().contains(r));
        assert forall|i: int, j: int|
            0 <= i < rows.drop_first().len() && 0 <= j < rows.drop_first().len() && i != j implies
            rows.drop_first()[i].id != rows.drop_first()[j].id by {
            assert(rows[i + 1].id != rows[j + 1].id);
        }
        lemma_find_unique_id(rows.drop_first(), r);
    }
}

/// The head of a nonempty page is least among the rows past `k`.
proof fn lemma_page_head_least(rows: Seq<RowV>, k: Seq<KeyVal>, n: nat, p: Seq<RowV>, r: RowV)
    requires
        is_page(rows, k, n, p),
        p.len() > 0,
        rows.contains(r),
        key_lt(k, r.key),
    ensures
        p[0].key == r.key || key_lt(p[0].key, r.key),
{
    if p.contains(r) {
        let i = choose|i: int| 0 <= i < p.len() && p[i] == r;
        if i > 0 {
            assert(key_lt(p[0].key, p[i].key));
        }
    } else {
        assert(p.len() == n && key_lt(p.last().key, r.key));
        if p.len() > 1 {
            assert(key_lt(p[0].key, p.last().key));
            lemma_key_lt_trans(p[0].key, p.last().key, r.key);
        }
    }
}

/// Dropping the head of a page leaves the page after the head's key, one
/// row shorter.
proof fn lemma_page_tail(rows: Seq<RowV>, k: Seq<KeyVal>, n: nat, p: Seq<RowV>)
    requires
        n >= 2,
        is_page(rows, k, n, p),
        p.len() > 0,
    ensures
        is_page(rows, p[0].key, (n - 1) as nat, p.drop_first()),
{
    let p2 = p.drop_first();
    let k2 = p[0].key;
    assert forall|i: int| 0 <= i < p2.len() implies rows.contains(#[trigger] p2[i]) && key_lt(
        k2,
        p2[i].key,
    ) by {
        assert(p2[i] == p[i + 1]);
        assert(rows.contains(p[i + 1]));
        assert(key_lt(p[0].key, p[i + 1].key));
    }
    assert forall|r: RowV| #[trigger] rows.contains(r) && key_lt(k2, r.key) implies p2.contains(r)
        || (p2.len() == n - 1 && key_lt(p2.last().key, r.key)) by {
        assert(key_lt(k, p[0].key));
        lemma_key_lt_trans(k, k2, r.key);
        if p.contains(r) {
            let i = choose|i: int| 0 <= i < p.len() && p[i] == r;
            if i == 0 {
                lemma_key_lt_irrefl(k2);
            } else {
                assert(p2[i - 1] == r);
                assert(p2.contains(r));
            }
        } else {
            assert(p.len() == n && key_lt(p.last().key, r.key));
            assert(p2.last() == p.last());
        }
    }
}

/// The page predicate pins the page: two pages of the same rows, cursor
/// key and size are the same sequence.
pub proof fn lemma_page_unique(
    rows: Seq<RowV>,
    k: Seq<KeyVal>,
    n: nat,
    p: Seq<RowV>,
    q: Seq<RowV>,
)
    requires
        n >= 1,
        distinct_keys(rows),
        is_page(rows, k, n, p),
        is_page(rows, k, n, q),
    ensures
        p == q,
    decreases p.len(),
{
    if p.len() == 0 {
        if q.len() > 0 {
            assert(rows.contains(q[0]) && key_lt(k, q[0].key));
            assert(false);
        }
        assert(p =~= q);
    } else if q.len() == 0 {
        assert(rows.contains(p[0]) && key_lt(k, p[0].key));
        assert(false);
    } else {
        lemma_page_head_least(rows, k, n, p, q[0]);
        lemma_page_head_least(rows, k, n, q, p[0]);
        if p[0].key != q[0].key {
            lemma_key_lt_asymm(p[0].key, q[0].key);
            assert(false);
        }
        let i1 = choose|i1: int| 0 <= i1 < rows.len() && rows[i1] == p[0];
        let i2 = choose|i2: int| 0 <= i2 < rows.len() && rows[i2] == q[0];
        assert(rows[i1].key == rows[i2].key);
        assert(i1 == i2);
        assert(p[0] == q[0]);
        if n == 1 {
            assert(p =~= q);
        } else {
            lemma_page_tail(rows, k, n, p);
            lemma_page_tail(rows, k, n, q);
            lemma_page_unique(rows, p[0].key, (n - 1) as nat, p.drop_first(), q.drop_first());
            assert forall|i: int| 0 <= i < p.len() implies p[i] == q[i] by {
                if i > 0 {
                    assert(p.drop_first()[i - 1] == p[i]);
                    assert(q.drop_first()[i - 1] == q[i]);
                }
            }
            assert(p =~= q);
        }
    }
}

/// A page never repeats the anchor row: pagination is strictly *after* the
/// cursor.
pub proof fn lemma_anchor_excluded(rows: Seq<RowV>, anchor: RowV, n: nat, p: Seq<RowV>)
    requires
        is_page(rows, anchor.key, n, p),
    ensures
        !p.contains(anchor),
{
    if p.contains(anchor) {
        let i = choose|i: int| 0 <= i < p.len() && p[i] == anchor;
        assert(key_lt(anchor.key, p[i].key));
        lemma_key_lt_irrefl(anchor.key);
    }
}

/// A page that is not full is the last one: it already holds every row of
/// the result set past `k`.  The converse holds unless the rows past `k`
/// number exactly `n`, when the last page happens to be full.
pub proof fn lemma_short_page_is_last(rows: Seq<RowV>, k: Seq<KeyVal>, n: nat, p: Seq<RowV>)
    requires
        n >= 1,
        is_page(rows, k, n, p),
        p.len() == n ==> exists|r: RowV|
            #[trigger] rows.contains(r) && key_lt(k, r.key) && !p.contains(r),
    ensures
        (p.len() < n) <==> (forall|r: RowV|
            #[trigger] rows.contains(r) && key_lt(k, r.key) ==> p.contains(r)),
{
}

/// A page only ever holds rows of the base result set, however that set was
/// joined or filtered; in particular an empty result set gives an empty
/// page, whatever the cursor.
pub proof fn lemma_page_from_base(rows: Seq<RowV>, k: Seq<KeyVal>, n: nat, p: Seq<RowV>)
    requires
        is_page(rows, k, n, p),
    ensures
        forall|i: int| 0 <= i < p.len() ==> rows.contains(#[trigger] p[i]),
        rows.len() == 0 ==> p.len() == 0,
{
    if rows.len() == 0 && p.len() > 0 {
        assert(rows.contains(p[0]));
    }
}

} // verus!
