//! Ordering keys: the values of the order expression's columns for one row,
//! and the lexicographic (tuple) order over them that keyset pagination
//! cursors through.

use vstd::prelude::*;

verus! {

/// One component of a row's ordering key: the value of one ordered column.
/// Text is kept as raw bytes and compared bytewise (binary collation).
pub enum OrderKey {
    Int(i64),
    Text(Vec<u8>),
}

/// Mathematical value of an [`OrderKey`].
pub enum KeyVal {
    Int(int),
    Text(Seq<u8>),
}

impl View for OrderKey {
    type V = KeyVal;

    open spec fn view(&self) -> KeyVal {
        match self {
            OrderKey::Int(i) => KeyVal::Int(*i as int),
            OrderKey::Text(v) => KeyVal::Text(v@),
        }
    }
}

/// A row of a query's result set, reduced to what keyset pagination reads:
/// an identifying column and the ordering key.
pub struct Row {
    pub id: i64,
    pub key: Vec<OrderKey>,
}

/// Mathematical value of a [`Row`].
pub struct RowV {
    pub id: int,
    pub key: Seq<KeyVal>,
}

impl View for Row {
    type V = RowV;

    open spec fn view(&self) -> RowV {
        RowV { id: self.id as int, key: self.key@.map_values(|k: OrderKey| k@) }
    }
}

/// Strict bytewise lexicographic order; a proper prefix sorts first.
pub open spec fn bytes_lt(a: Seq<u8>, b: Seq<u8>) -> bool
    decreases a.len(),
{
    if b.len() == 0 {
        false
    } else if a.len() == 0 {
        true
    } else if a[0] < b[0] {
        true
    } else if a[0] == b[0] {
        bytes_lt(a.drop_first(), b.drop_first())
    } else {
        false
    }
}

/// Strict order on single key components.  Components of different kinds
/// never arise from one column, but the order is total anyway: integers
/// sort before text.
pub open spec fn val_lt(a: KeyVal, b: KeyVal) -> bool {
    match (a, b) {
        (KeyVal::Int(x), KeyVal::Int(y)) => x < y,
        (KeyVal::Int(_), KeyVal::Text(_)) => true,
        (KeyVal::Text(_), KeyVal::Int(_)) => false,
        (KeyVal::Text(x), KeyVal::Text(y)) => bytes_lt(x, y),
    }
}

/// Strict lexicographic order on whole ordering keys, component by
/// component; a proper prefix sorts first.  This is the tuple comparison
/// `(c1, c2, ...) < (d1, d2, ...)` of the emitted SQL.
pub open spec fn key_lt(a: Seq<KeyVal>, b: Seq<KeyVal>) -> bool
    decreases a.len(),
{
    if b.len() == 0 {
        false
    } else if a.len() == 0 {
        true
    } else if val_lt(a[0], b[0]) {
        true
    } else if a[0] == b[0] {
        key_lt(a.drop_first(), b.drop_first())
    } else {
        false
    }
}

/// View of a vector of key components.
pub open spec fn key_view(k: Seq<OrderKey>) -> Seq<KeyVal> {
    k.map_values(|x: OrderKey| x@)
}

pub proof fn lemma_bytes_lt_irrefl(a: Seq<u8>)
    ensures
        !bytes_lt(a, a),
    decreases a.len(),
{
    if a.len() > 0 {
        lemma_bytes_lt_irrefl(a.drop_first());
    }
}

pub proof fn lemma_bytes_lt_connected(a: Seq<u8>, b: Seq<u8>)
    ensures
        bytes_lt(a, b) || bytes_lt(b, a) || a == b,
    decreases a.len(),
{
    if a.len() == 0 && b.len() == 0 {
        assert(a =~= b);
    } else if a.len() > 0 && b.len() > 0 && a[0] == b[0] {
        lemma_bytes_lt_connected(a.drop_first(), b.drop_first());
        if a.drop_first() == b.drop_first() {
            assert forall|j: int| 0 <= j < a.len() implies a[j] == b[j] by {
                if j >= 1 {
                    assert(a.drop_first()[j - 1] == a[j]);
                    assert(b.drop_first()[j - 1] == b[j]);
                }
            }
            assert(a =~= b);
        }
    }
}

pub proof fn lemma_bytes_lt_trans(a: Seq<u8>, b: Seq<u8>, c: Seq<u8>)
    requires
        bytes_lt(a, b),
        bytes_lt(b, c),
    ensures
        bytes_lt(a, c),
    decreases a.len(),
{
    if a.len() > 0 && b.len() > 0 && c.len() > 0 && a[0] == b[0] && b[0] == c[0] {
        lemma_bytes_lt_trans(a.drop_first(), b.drop_first(), c.drop_first());
    }
}

pub proof fn lemma_val_lt_irrefl(a: KeyVal)
    ensures
        !val_lt(a, a),
{
    match a {
        KeyVal::Int(_) => {},
        KeyVal::Text(v) => lemma_bytes_lt_irrefl(v),
    }
}

pub proof fn lemma_val_lt_connected(a: KeyVal, b: KeyVal)
    ensures
        val_lt(a, b) || val_lt(b, a) || a == b,
{
    match (a, b) {
        (KeyVal::Text(x), KeyVal::Text(y)) => lemma_bytes_lt_connected(x, y),
        _ => {},
    }
}

pub proof fn lemma_val_lt_trans(a: KeyVal, b: KeyVal, c: KeyVal)
    requires
        val_lt(a, b),
        val_lt(b, c),
    ensures
        val_lt(a, c),
{
    match (a, b, c) {
        (KeyVal::Text(x), KeyVal::Text(y), KeyVal::Text(z)) => lemma_bytes_lt_trans(x, y, z),
        _ => {},
    }
}

pub proof fn lemma_key_lt_irrefl(a: Seq<KeyVal>)
    ensures
        !key_lt(a, a),
    decreases a.len(),
{
    if a.len() > 0 {
        lemma_val_lt_irrefl(a[0]);
        lemma_key_lt_irrefl(a.drop_first());
    }
}

/// The key order is total: any two keys are ordered or equal.
pub proof fn lemma_key_lt_connected(a: Seq<KeyVal>, b: Seq<KeyVal>)
    ensures
        key_lt(a, b) || key_lt(b, a) || a == b,
    decreases a.len(),
{
    if a.len() == 0 && b.len() == 0 {
        assert(a =~= b);
    } else if a.len() > 0 && b.len() > 0 {
        lemma_val_lt_connected(a[0], b[0]);
        if a[0] == b[0] {
            lemma_key_lt_connected(a.drop_first(), b.drop_first());
            if a.drop_first() == b.drop_first() {
                assert forall|j: int| 0 <= j < a.len() implies a[j] == b[j] by {
                    if j >= 1 {
                        assert(a.drop_first()[j - 1] == a[j]);
                        assert(b.drop_first()[j - 1] == b[j]);
                    }
                }
                assert(a =~= b);
            }
        }
    }
}

pub proof fn lemma_key_lt_trans(a: Seq<KeyVal>, b: Seq<KeyVal>, c: Seq<KeyVal>)
    requires
        key_lt(a, b),
        key_lt(b, c),
    ensures
        key_lt(a, c),
    decreases a.len(),
{
    if a.len() > 0 && b.len() > 0 && c.len() > 0 {
        lemma_val_lt_irrefl(a[0]);
        lemma_val_lt_irrefl(b[0]);
        if a[0] == b[0] && b[0] == c[0] {
            lemma_key_lt_trans(a.drop_first(), b.drop_first(), c.drop_first());
        } else if val_lt(a[0], b[0]) && val_lt(b[0], c[0]) {
            lemma_val_lt_trans(a[0], b[0], c[0]);
        }
    }
}

/// The key order is asymmetric: two keys are never each below the other.
pub proof fn lemma_key_lt_asymm(a: Seq<KeyVal>, b: Seq<KeyVal>)
    ensures
        !(key_lt(a, b) && key_lt(b, a)),
{
    if key_lt(a, b) && key_lt(b, a) {
        lemma_key_lt_trans(a, b, a);
        lemma_key_lt_irrefl(a);
    }
}

proof fn lemma_bytes_lt_skip(a: Seq<u8>, b: Seq<u8>, i: int)
    requires
        0 <= i <= a.len(),
        i <= b.len(),
        forall|j: int| 0 <= j < i ==> a[j] == b[j],
    ensures
        bytes_lt(a, b) == bytes_lt(a.skip(i), b.skip(i)),
    decreases i,
{
    if i > 0 {
        assert(a.drop_first().skip(i - 1) =~= a.skip(i));
        assert(b.drop_first().skip(i - 1) =~= b.skip(i));
        lemma_bytes_lt_skip(a.drop_first(), b.drop_first(), i - 1);
    } else {
        assert(a.skip(0) =~= a);
        assert(b.skip(0) =~= b);
    }
}

proof fn lemma_key_lt_skip(a: Seq<KeyVal>, b: Seq<KeyVal>, i: int)
    requires
        0 <= i <= a.len(),
        i <= b.len(),
        forall|j: int| 0 <= j < i ==> a[j] == b[j],
    ensures
        key_lt(a, b) == key_lt(a.skip(i), b.skip(i)),
    decreases i,
{
    if i > 0 {
        lemma_val_lt_irrefl(a[0]);
        assert(a.drop_first().skip(i - 1) =~= a.skip(i));
        assert(b.drop_first().skip(i - 1) =~= b.skip(i));
        assert forall|j: int| 0 <= j < i - 1 implies a.drop_first()[j] == b.drop_first()[j] by {
            assert(a[j + 1] == b[j + 1]);
        }
        lemma_key_lt_skip(a.drop_first(), b.drop_first(), i - 1);
    } else {
        assert(a.skip(0) =~= a);
        assert(b.skip(0) =~= b);
    }
}

/// Decides `bytes_lt` on byte vectors.
pub fn bytes_lt_exec(a: &Vec<u8>, b: &Vec<u8>) -> (r: bool)
    ensures
        r == bytes_lt(a@, b@),
{
    let mut i: usize = 0;
    loop
        invariant
            i <= a.len(),
            i <= b.len(),
            forall|j: int| 0 <= j < i ==> a@[j] == b@[j],
        decreases a.len() - i,
    {
        proof {
            lemma_bytes_lt_skip(a@, b@, i as int);
        }
        if i >= b.len() {
            assert(b@.skip(i as int).len() == 0);
            return false;
        }
        if i >= a.len() {
            assert(a@.skip(i as int).len() == 0);
            return true;
        }
        let x = a[i];
        let y = b[i];
        proof {
            assert(a@.skip(i as int)[0] == a@[i as int]);
            assert(b@.skip(i as int)[0] == b@[i as int]);
        }
        if x < y {
            return true;
        } else if x > y {
            return false;
        }
        i += 1;
    }
}

/// Decides equality of byte vectors.
pub fn bytes_eq_exec(a: &Vec<u8>, b: &Vec<u8>) -> (r: bool)
    ensures
        r == (a@ == b@),
{
    if a.len() != b.len() {
        return false;
    }
    let mut i: usize = 0;
    while i < a.len()
        invariant
            i <= a.len(),
            a.len() == b.len(),
            forall|j: int| 0 <= j < i ==> a@[j] == b@[j],
        decreases a.len() - i,
    {
        if a[i] != b[i] {
            return false;
        }
        i += 1;
    }
    proof {
        assert(a@ =~= b@);
    }
    true
}

/// Decides `val_lt` on key components.
pub fn val_lt_exec(a: &OrderKey, b: &OrderKey) -> (r: bool)
    ensures
        r == val_lt(a@, b@),
{
    match (a, b) {
        (OrderKey::Int(x), OrderKey::Int(y)) => *x < *y,
        (OrderKey::Int(_), OrderKey::Text(_)) => true,
        (OrderKey::Text(_), OrderKey::Int(_)) => false,
        (OrderKey::Text(x), OrderKey::Text(y)) => bytes_lt_exec(x, y),
    }
}

/// Decides equality of key components (as key values).
pub fn val_eq_exec(a: &OrderKey, b: &OrderKey) -> (r: bool)
    ensures
        r == (a@ == b@),
{
    match (a, b) {
        (OrderKey::Int(x), OrderKey::Int(y)) => *x == *y,
        (OrderKey::Int(_), OrderKey::Text(_)) => false,
        (OrderKey::Text(_), OrderKey::Int(_)) => false,
        (OrderKey::Text(x), OrderKey::Text(y)) => bytes_eq_exec(x, y),
    }
}

/// Decides `key_lt` on whole ordering keys.
pub fn key_lt_exec(a: &Vec<OrderKey>, b: &Vec<OrderKey>) -> (r: bool)
    ensures
        r == key_lt(key_view(a@), key_view(b@)),
{
    let mut i: usize = 0;
    loop
        invariant
            i <= a.len(),
            i <= b.len(),
            forall|j: int| 0 <= j < i ==> key_view(a@)[j] == key_view(b@)[j],
        decreases a.len() - i,
    {
        proof {
            lemma_key_lt_skip(key_view(a@), key_view(b@), i as int);
        }
        if i >= b.len() {
            assert(key_view(b@).skip(i as int).len() == 0);
            return false;
        }
        if i >= a.len() {
            assert(key_view(a@).skip(i as int).len() == 0);
            return true;
        }
        proof {
            assert(key_view(a@).skip(i as int)[0] == key_view(a@)[i as int]);
            assert(key_view(b@).skip(i as int)[0] == key_view(b@)[i as int]);
        }
        if val_lt_exec(&a[i], &b[i]) {
            return true;
        }
        if !val_eq_exec(&a[i], &b[i]) {
            return false;
        }
        i += 1;
    }
}

/// Copies a byte vector.
pub fn copy_bytes(v: &Vec<u8>) -> (r: Vec<u8>)
    ensures
        r@ == v@,
{
    let mut r: Vec<u8> = Vec::new();
    let mut i: usize = 0;
    while i < v.len()
        invariant
            i <= v.len(),
            r@ =~= v@.take(i as int),
        decreases v.len() - i,
    {
        r.push(v[i]);
        i += 1;
        proof {
            assert(r@ =~= v@.take(i as int));
        }
    }
    proof {
        assert(v@.take(v@.len() as int) =~= v@);
    }
    r
}

impl Clone for OrderKey {
    /// A cloned key component has the same value.
    fn clone(&self) -> (r: Self)
        ensures
            r@ == self@,
    {
        match self {
            OrderKey::Int(i) => OrderKey::Int(*i),
            OrderKey::Text(v) => OrderKey::Text(copy_bytes(v)),
        }
    }
}

/// Copies an ordering key.
pub fn copy_key(k: &Vec<OrderKey>) -> (r: Vec<OrderKey>)
    ensures
        key_view(r@) == key_view(k@),
{
    let mut r: Vec<OrderKey> = Vec::new();
    let mut i: usize = 0;
    while i < k.len()
        invariant
            i <= k.len(),
            r@.len() == i,
            forall|j: int| 0 <= j < i ==> r@[j]@ == k@[j]@,
        decreases k.len() - i,
    {
        let c = k[i].clone();
        r.push(c);
        i += 1;
    }
    proof {
        assert(key_view(r@) =~= key_view(k@));
    }
    r
}

impl Clone for Row {
    /// A cloned row has the same value.
    fn clone(&self) -> (r: Self)
        ensures
            r@ == self@,
    {
        let r = Row { id: self.id, key: copy_key(&self.key) };
        proof {
            assert(r@ == self@);
        }
        r
    }
}

} // verus!
