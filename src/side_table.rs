//! One side of the book: price levels, each an insertion-ordered bucket of
//! resting orders, kept in a vector sorted by price.

use vstd::prelude::*;
use crate::order::{Order, Side};

verus! {

/// The mathematical value of a side table: price to bucket.
pub type Table = Map<u32, Seq<Order>>;

/// The bucket at `p`, empty where there is none.
pub open spec fn bucket(m: Table, p: u32) -> Seq<Order> {
    if m.contains_key(p) {
        m[p]
    } else {
        Seq::empty()
    }
}

/// The sum of the quantities in a bucket.
pub open spec fn total_qty(s: Seq<Order>) -> int
    decreases s.len(),
{
    if s.len() == 0 {
        0
    } else {
        total_qty(s.drop_last()) + s.last().qty
    }
}

pub open spec fn has_levels(m: Table) -> bool {
    exists|p: u32| m.contains_key(p)
}

pub open spec fn is_max_key(m: Table, k: u32) -> bool {
    m.contains_key(k) && forall|p: u32| m.contains_key(p) ==> p <= k
}

pub open spec fn is_min_key(m: Table, k: u32) -> bool {
    m.contains_key(k) && forall|p: u32| m.contains_key(p) ==> k <= p
}

/// The highest price of a table, 0 when it is empty.
pub open spec fn max_key(m: Table) -> u32 {
    if exists|k: u32| is_max_key(m, k) {
        choose|k: u32| is_max_key(m, k)
    } else {
        0
    }
}

/// The lowest price of a table, 0 when it is empty.
pub open spec fn min_key(m: Table) -> u32 {
    if exists|k: u32| is_min_key(m, k) {
        choose|k: u32| is_min_key(m, k)
    } else {
        0
    }
}

/// The best price of a side's table: the highest bid or the lowest ask.
pub open spec fn best_key(m: Table, side: Side) -> u32 {
    match side {
        Side::Buy => max_key(m),
        Side::Sell => min_key(m),
    }
}

pub open spec fn has_qty(q: u32) -> spec_fn(Order) -> bool {
    |o: Order| o.qty == q
}

pub open spec fn has_id(user_id: u32, order_id: u32) -> spec_fn(Order) -> bool {
    |o: Order| o.user_id == user_id && o.order_id == order_id
}

/// Some order of `s` satisfies `f`.
pub open spec fn holds(s: Seq<Order>, f: spec_fn(Order) -> bool) -> bool {
    exists|k: int| 0 <= k < s.len() && f(s[k])
}

pub open spec fn is_first(s: Seq<Order>, f: spec_fn(Order) -> bool, k: int) -> bool {
    0 <= k < s.len() && f(s[k]) && forall|j: int| 0 <= j < k ==> !f(s[j])
}

/// The position of the first order of `s` that satisfies `f`.
pub open spec fn first_index(s: Seq<Order>, f: spec_fn(Order) -> bool) -> Option<int> {
    if exists|k: int| is_first(s, f, k) {
        Some(choose|k: int| is_first(s, f, k))
    } else {
        None
    }
}

pub open spec fn is_first_level(m: Table, f: spec_fn(Order) -> bool, p: u32) -> bool {
    m.contains_key(p) && holds(m[p], f) && forall|q: u32|
        m.contains_key(q) && q < p ==> !holds(#[trigger] m[q], f)
}

/// The lowest price whose bucket holds an order that satisfies `f`.
pub open spec fn first_level(m: Table, f: spec_fn(Order) -> bool) -> Option<u32> {
    if exists|p: u32| is_first_level(m, f, p) {
        Some(choose|p: u32| is_first_level(m, f, p))
    } else {
        None
    }
}

/// `m` with `o` appended to the bucket at its price.
pub open spec fn add_order(m: Table, o: Order) -> Table {
    m.insert(o.price, bucket(m, o.price).push(o))
}

/// `m` without the order at position `k` of the bucket at `p`; a bucket
/// left empty is dropped.
pub open spec fn remove_at(m: Table, p: u32, k: int) -> Table {
    if m[p].len() == 1 {
        m.remove(p)
    } else {
        m.insert(p, m[p].remove(k))
    }
}

/// A well-formed table: finitely many levels, no empty bucket, each order
/// resting at the level of its own price.
pub open spec fn table_wf(m: Table) -> bool {
    &&& m.dom().finite()
    &&& forall|p: u32| #[trigger] m.contains_key(p) ==> m[p].len() > 0
    &&& forall|p: u32, i: int|
        m.contains_key(p) && 0 <= i < m[p].len() ==> (#[trigger] m[p][i]).price == p
}

/// Every bucket's total quantity fits in a `u32`.
pub open spec fn totals_fit(m: Table) -> bool {
    forall|p: u32| #[trigger] m.contains_key(p) ==> total_qty(m[p]) <= u32::MAX
}

pub proof fn lemma_total_prefix(s: Seq<Order>, j: int)
    requires
        0 <= j <= s.len(),
    ensures
        0 <= total_qty(s.subrange(0, j)) <= total_qty(s),
    decreases s.len(),
{
    if s.len() > 0 {
        if j == s.len() {
            assert(s.subrange(0, j) =~= s);
            lemma_total_prefix(s.drop_last(), j - 1);
            assert(s.drop_last().subrange(0, j - 1) =~= s.drop_last());
        } else {
            lemma_total_prefix(s.drop_last(), j);
            assert(s.drop_last().subrange(0, j) =~= s.subrange(0, j));
        }
    }
}

pub proof fn lemma_total_push(s: Seq<Order>, o: Order)
    ensures
        total_qty(s.push(o)) == total_qty(s) + o.qty,
{
    assert(s.push(o).drop_last() =~= s);
}

/// Removing one order takes its quantity off the bucket's total.
pub proof fn lemma_total_remove(s: Seq<Order>, k: int)
    requires
        0 <= k < s.len(),
    ensures
        total_qty(s.remove(k)) == total_qty(s) - s[k].qty,
    decreases s.len(),
{
    if k < s.len() - 1 {
        lemma_total_remove(s.drop_last(), k);
        assert(s.remove(k).drop_last() =~= s.drop_last().remove(k));
        assert(s.remove(k).last() == s.last());
    } else {
        assert(s.remove(k) =~= s.drop_last());
    }
}

pub proof fn lemma_first_unique(s: Seq<Order>, f: spec_fn(Order) -> bool, k: int)
    requires
        is_first(s, f, k),
    ensures
        first_index(s, f) == Some(k),
{
    let c = choose|c: int| is_first(s, f, c);
    assert(is_first(s, f, c));
    if c < k {
        assert(!f(s[c]));
    } else if k < c {
        assert(!f(s[k]));
    }
}

/// Where some order satisfies `f`, a first one does.
pub proof fn lemma_first_exists(s: Seq<Order>, f: spec_fn(Order) -> bool)
    requires
        holds(s, f),
    ensures
        first_index(s, f) is Some,
        is_first(s, f, first_index(s, f)->0),
    decreases s.len(),
{
    let i = choose|i: int| 0 <= i < s.len() && f(s[i]);
    if exists|j: int| 0 <= j < i && f(s[j]) {
        let j = choose|j: int| 0 <= j < i && f(s[j]);
        let t = s.subrange(0, i);
        assert(t[j] == s[j]);
        lemma_first_exists(t, f);
        let k = first_index(t, f)->0;
        assert(is_first(s, f, k)) by {
            assert forall|x: int| 0 <= x < k implies !f(s[x]) by {
                assert(t[x] == s[x]);
            }
            assert(t[k] == s[k]);
        }
    } else {
        assert(is_first(s, f, i));
    }
}

pub proof fn lemma_first_none(s: Seq<Order>, f: spec_fn(Order) -> bool)
    requires
        !holds(s, f),
    ensures
        first_index(s, f) is None,
{
    if exists|k: int| is_first(s, f, k) {
        let c = choose|c: int| is_first(s, f, c);
        assert(f(s[c]));
    }
}

pub proof fn lemma_max_unique(m: Table, k: u32)
    requires
        is_max_key(m, k),
    ensures
        max_key(m) == k,
{
    let c = choose|c: u32| is_max_key(m, c);
    assert(is_max_key(m, c));
    assert(c <= k && k <= c);
}

pub proof fn lemma_min_unique(m: Table, k: u32)
    requires
        is_min_key(m, k),
    ensures
        min_key(m) == k,
{
    let c = choose|c: u32| is_min_key(m, c);
    assert(is_min_key(m, c));
    assert(c <= k && k <= c);
}

/// A finite table with a level has a highest and a lowest price.
pub proof fn lemma_extremes_exist(m: Table)
    requires
        m.dom().finite(),
        has_levels(m),
    ensures
        is_max_key(m, max_key(m)),
        is_min_key(m, min_key(m)),
    decreases m.dom().len(),
{
    let p = choose|p: u32| m.contains_key(p);
    let rest = m.remove(p);
    assert(rest.dom() =~= m.dom().remove(p));
    if has_levels(rest) {
        lemma_extremes_exist(rest);
        let hi = max_key(rest);
        let lo = min_key(rest);
        if hi < p {
            lemma_max_unique(m, p);
        } else {
            lemma_max_unique(m, hi);
        }
        if p < lo {
            lemma_min_unique(m, p);
        } else {
            lemma_min_unique(m, lo);
        }
    } else {
        assert forall|q: u32| m.contains_key(q) implies q == p by {
            if q != p {
                assert(rest.contains_key(q));
            }
        }
        lemma_max_unique(m, p);
        lemma_min_unique(m, p);
    }
}

/// An empty table has best price 0 on either side.
pub proof fn lemma_extremes_empty(m: Table)
    requires
        !has_levels(m),
    ensures
        max_key(m) == 0,
        min_key(m) == 0,
{
}

pub proof fn lemma_first_level_unique(m: Table, f: spec_fn(Order) -> bool, p: u32)
    requires
        is_first_level(m, f, p),
    ensures
        first_level(m, f) == Some(p),
{
    let c = choose|c: u32| is_first_level(m, f, c);
    assert(is_first_level(m, f, c));
    if c < p {
        assert(!holds(m[c], f));
    } else if p < c {
        assert(!holds(m[p], f));
    }
}


/// A level of a side table in its mathematical form: price and bucket.
pub type Entry = (u32, Seq<Order>);

pub open spec fn sorted(es: Seq<Entry>) -> bool {
    forall|i: int, j: int| 0 <= i < j < es.len() ==> (#[trigger] es[i]).0 < (#[trigger] es[j]).0
}

pub open spec fn entry_index(es: Seq<Entry>, p: u32) -> int {
    choose|i: int| 0 <= i < es.len() && (#[trigger] es[i]).0 == p
}

/// The table that a sorted list of levels stands for.
pub open spec fn to_map(es: Seq<Entry>) -> Table {
    Map::new(
        |p: u32| exists|i: int| 0 <= i < es.len() && (#[trigger] es[i]).0 == p,
        |p: u32| es[entry_index(es, p)].1,
    )
}

pub proof fn lemma_entry(es: Seq<Entry>, i: int)
    requires
        sorted(es),
        0 <= i < es.len(),
    ensures
        to_map(es).contains_key(es[i].0),
        to_map(es)[es[i].0] == es[i].1,
{
    let p = es[i].0;
    assert(exists|j: int| 0 <= j < es.len() && (#[trigger] es[j]).0 == p);
    let c = entry_index(es, p);
    assert(0 <= c < es.len() && es[c].0 == p);
    if c < i {
        assert(es[c].0 < es[i].0);
    } else if i < c {
        assert(es[i].0 < es[c].0);
    }
}

/// A table that has exactly the levels of `es`, with their buckets, is the one `es` stands for.
pub proof fn lemma_to_map_eq(es: Seq<Entry>, m: Table)
    requires
        sorted(es),
        forall|p: u32| m.contains_key(p) ==> exists|i: int| 0 <= i < es.len() && (#[trigger] es[i]).0 == p,
        forall|i: int| 0 <= i < es.len() ==> #[trigger] m.contains_key(es[i].0) && m[es[i].0] == es[i].1,
    ensures
        to_map(es) == m,
{
    assert forall|p: u32| #[trigger] to_map(es).contains_key(p) <==> m.contains_key(p) by {
        if to_map(es).contains_key(p) {
            let i = choose|i: int| 0 <= i < es.len() && (#[trigger] es[i]).0 == p;
            assert(m.contains_key(es[i].0));
        }
    }
    assert forall|p: u32| #[trigger] to_map(es).contains_key(p) implies to_map(es)[p] == m[p] by {
        let i = choose|i: int| 0 <= i < es.len() && (#[trigger] es[i]).0 == p;
        lemma_entry(es, i);
    }
    assert(to_map(es) =~= m);
}

pub proof fn lemma_to_map_finite(es: Seq<Entry>)
    requires
        sorted(es),
    ensures
        to_map(es).dom().finite(),
        to_map(es).dom().len() == es.len(),
{
    let ks = es.map_values(|e: Entry| e.0);
    assert forall|p: u32| #[trigger] to_map(es).dom().contains(p) <==> ks.to_set().contains(p) by {
        if to_map(es).dom().contains(p) {
            let i = choose|i: int| 0 <= i < es.len() && (#[trigger] es[i]).0 == p;
            assert(ks[i] == p);
        }
        if ks.to_set().contains(p) {
            let i = choose|i: int| 0 <= i < ks.len() && ks[i] == p;
            assert(es[i].0 == p);
        }
    }
    assert(to_map(es).dom() =~= ks.to_set());
    assert(ks.no_duplicates()) by {
        assert forall|i: int, j: int| 0 <= i < ks.len() && 0 <= j < ks.len() && i != j implies ks[i]
            != ks[j] by {
            if i < j {
                assert(es[i].0 < es[j].0);
            } else {
                assert(es[j].0 < es[i].0);
            }
        }
    }
    ks.unique_seq_to_set();
}

pub proof fn lemma_update_entry(es: Seq<Entry>, i: int, b: Seq<Order>)
    requires
        sorted(es),
        0 <= i < es.len(),
    ensures
        sorted(es.update(i, (es[i].0, b))),
        to_map(es.update(i, (es[i].0, b))) == to_map(es).insert(es[i].0, b),
{
    let es2 = es.update(i, (es[i].0, b));
    let m = to_map(es).insert(es[i].0, b);
    assert(sorted(es2)) by {
        assert forall|a: int, c: int| 0 <= a < c < es2.len() implies (#[trigger] es2[a]).0 < (
        #[trigger] es2[c]).0 by {
            assert(es[a].0 < es[c].0);
        }
    }
    assert forall|p: u32| m.contains_key(p) implies exists|j: int|
        0 <= j < es2.len() && (#[trigger] es2[j]).0 == p by {
        if p == es[i].0 {
            assert(es2[i].0 == p);
        } else {
            let j = choose|j: int| 0 <= j < es.len() && (#[trigger] es[j]).0 == p;
            assert(es2[j].0 == p);
        }
    }
    assert forall|j: int| 0 <= j < es2.len() implies #[trigger] m.contains_key(es2[j].0) && m[es2[j].0]
        == es2[j].1 by {
        lemma_entry(es, j);
        if j != i {
            if j < i {
                assert(es[j].0 < es[i].0);
            } else {
                assert(es[i].0 < es[j].0);
            }
        }
    }
    lemma_to_map_eq(es2, m);
}

pub proof fn lemma_insert_entry(es: Seq<Entry>, i: int, p: u32, b: Seq<Order>)
    requires
        sorted(es),
        0 <= i <= es.len(),
        forall|j: int| 0 <= j < i ==> (#[trigger] es[j]).0 < p,
        forall|j: int| i <= j < es.len() ==> p < (#[trigger] es[j]).0,
    ensures
        sorted(es.insert(i, (p, b))),
        to_map(es.insert(i, (p, b))) == to_map(es).insert(p, b),
{
    let es2 = es.insert(i, (p, b));
    let m = to_map(es).insert(p, b);
    assert(sorted(es2)) by {
        assert forall|a: int, c: int| 0 <= a < c < es2.len() implies (#[trigger] es2[a]).0 < (
        #[trigger] es2[c]).0 by {
            if a < i && c < i {
                assert(es[a].0 < es[c].0);
            } else if a < i && c == i {
            } else if a < i {
                assert(es[a].0 < es[c - 1].0);
            } else if a == i {
                assert(p < es[c - 1].0);
            } else {
                assert(es[a - 1].0 < es[c - 1].0);
            }
        }
    }
    assert forall|q: u32| m.contains_key(q) implies exists|j: int|
        0 <= j < es2.len() && (#[trigger] es2[j]).0 == q by {
        if q == p {
            assert(es2[i].0 == q);
        } else {
            let j = choose|j: int| 0 <= j < es.len() && (#[trigger] es[j]).0 == q;
            if j < i {
                assert(es2[j].0 == q);
            } else {
                assert(es2[j + 1].0 == q);
            }
        }
    }
    assert forall|j: int| 0 <= j < es2.len() implies #[trigger] m.contains_key(es2[j].0) && m[es2[j].0]
        == es2[j].1 by {
        if j < i {
            lemma_entry(es, j);
        } else if j > i {
            lemma_entry(es, j - 1);
        }
    }
    lemma_to_map_eq(es2, m);
}

pub proof fn lemma_remove_entry(es: Seq<Entry>, i: int)
    requires
        sorted(es),
        0 <= i < es.len(),
    ensures
        sorted(es.remove(i)),
        to_map(es.remove(i)) == to_map(es).remove(es[i].0),
{
    let es2 = es.remove(i);
    let m = to_map(es).remove(es[i].0);
    assert(sorted(es2)) by {
        assert forall|a: int, c: int| 0 <= a < c < es2.len() implies (#[trigger] es2[a]).0 < (
        #[trigger] es2[c]).0 by {
            if c < i {
                assert(es[a].0 < es[c].0);
            } else if a < i {
                assert(es[a].0 < es[c + 1].0);
            } else {
                assert(es[a + 1].0 < es[c + 1].0);
            }
        }
    }
    assert forall|q: u32| m.contains_key(q) implies exists|j: int|
        0 <= j < es2.len() && (#[trigger] es2[j]).0 == q by {
        let j = choose|j: int| 0 <= j < es.len() && (#[trigger] es[j]).0 == q;
        if j < i {
            assert(es2[j].0 == q);
        } else {
            assert(j != i);
            assert(es2[j - 1].0 == q);
        }
    }
    assert forall|j: int| 0 <= j < es2.len() implies #[trigger] m.contains_key(es2[j].0) && m[es2[j].0]
        == es2[j].1 by {
        if j < i {
            lemma_entry(es, j);
            assert(es[j].0 < es[i].0);
        } else {
            lemma_entry(es, j + 1);
            assert(es[i].0 < es[j + 1].0);
        }
    }
    lemma_to_map_eq(es2, m);
}

/// The position of the first order of `orders` with quantity `q`.
fn first_with_qty(orders: &Vec<Order>, q: u32) -> (r: Option<usize>)
    ensures
        match r {
            Some(k) => first_index(orders@, has_qty(q)) == Some(k as int),
            None => first_index(orders@, has_qty(q)) is None,
        },
{
    let mut k: usize = 0;
    while k < orders.len()
        invariant
            k <= orders@.len(),
            forall|j: int| 0 <= j < k ==> !has_qty(q)(#[trigger] orders@[j]),
        decreases orders@.len() - k,
    {
        if orders[k].qty == q {
            proof {
                lemma_first_unique(orders@, has_qty(q), k as int);
            }
            return Some(k);
        }
        k = k + 1;
    }
    proof {
        lemma_first_none(orders@, has_qty(q));
    }
    None
}

/// The position of the first order of `orders` with these identifiers.
fn first_with_id(orders: &Vec<Order>, user_id: u32, order_id: u32) -> (r: Option<usize>)
    ensures
        match r {
            Some(k) => is_first(orders@, has_id(user_id, order_id), k as int),
            None => !holds(orders@, has_id(user_id, order_id)),
        },
{
    let mut k: usize = 0;
    while k < orders.len()
        invariant
            k <= orders@.len(),
            forall|j: int| 0 <= j < k ==> !has_id(user_id, order_id)(#[trigger] orders@[j]),
        decreases orders@.len() - k,
    {
        if orders[k].user_id == user_id && orders[k].order_id == order_id {
            proof {
                lemma_first_unique(orders@, has_id(user_id, order_id), k as int);
            }
            return Some(k);
        }
        k = k + 1;
    }
    None
}

/// A price level.
pub struct Level {
    price: u32,
    orders: Vec<Order>,
}

/// One side of the book: levels sorted by strictly increasing price, none empty.
pub struct SideTable {
    levels: Vec<Level>,
}

impl View for SideTable {
    type V = Table;

    closed spec fn view(&self) -> Table {
        to_map(self.entries())
    }
}

impl SideTable {
    pub closed spec fn entries(&self) -> Seq<Entry> {
        self.levels@.map_values(|l: Level| (l.price, l.orders@))
    }

    pub closed spec fn wf(&self) -> bool {
        let es = self.entries();
        &&& sorted(es)
        &&& forall|i: int| 0 <= i < es.len() ==> (#[trigger] es[i]).1.len() > 0
        &&& forall|i: int, j: int|
            0 <= i < es.len() && 0 <= j < es[i].1.len() ==> (#[trigger] es[i].1[j]).price
                == es[i].0
    }

    /// The view of a well-formed table is a well-formed table.
    pub proof fn lemma_view_wf(&self)
        requires
            self.wf(),
        ensures
            table_wf(self@),
    {
        let es = self.entries();
        lemma_to_map_finite(es);
        assert forall|p: u32| #[trigger] self@.contains_key(p) implies self@[p].len() > 0 && (
        forall|k: int| 0 <= k < self@[p].len() ==> (#[trigger] self@[p][k]).price == p) by {
            let i = choose|i: int| 0 <= i < es.len() && (#[trigger] es[i]).0 == p;
            lemma_entry(es, i);
            assert forall|k: int| 0 <= k < self@[p].len() implies (#[trigger] self@[p][k]).price
                == p by {
                assert(es[i].1[k].price == es[i].0);
            }
        }
    }

    pub fn new() -> (r: SideTable)
        ensures
            r.wf(),
            r@ == Map::<u32, Seq<Order>>::empty(),
    {
        let r = SideTable { levels: Vec::new() };
        assert(r.entries() =~= Seq::<Entry>::empty());
        assert(r@ =~= Map::<u32, Seq<Order>>::empty());
        r
    }

    /// The number of price levels.
    pub fn len(&self) -> (r: usize)
        requires
            self.wf(),
        ensures
            r == self@.dom().len(),
    {
        proof {
            lemma_to_map_finite(self.entries());
        }
        self.levels.len()
    }

    pub fn is_empty(&self) -> (r: bool)
        requires
            self.wf(),
        ensures
            r == !has_levels(self@),
    {
        let es = Ghost(self.entries());
        if self.levels.len() == 0 {
            proof {
                if has_levels(self@) {
                    let p = choose|p: u32| self@.contains_key(p);
                    assert(exists|i: int| 0 <= i < es@.len() && (#[trigger] es@[i]).0 == p);
                }
            }
            true
        } else {
            proof {
                lemma_entry(es@, 0);
            }
            false
        }
    }

    /// The highest price, 0 when the table is empty.
    pub fn max_price(&self) -> (r: u32)
        requires
            self.wf(),
        ensures
            r == max_key(self@),
    {
        let es = Ghost(self.entries());
        let n = self.levels.len();
        if n == 0 {
            proof {
                if has_levels(self@) {
                    let p = choose|p: u32| self@.contains_key(p);
                    assert(exists|i: int| 0 <= i < es@.len() && (#[trigger] es@[i]).0 == p);
                }
            }
            0
        } else {
            let p = self.levels[n - 1].price;
            proof {
                lemma_entry(es@, n - 1);
                assert forall|q: u32| #[trigger] self@.contains_key(q) implies q <= p by {
                    let i = choose|i: int| 0 <= i < es@.len() && (#[trigger] es@[i]).0 == q;
                    if i < n - 1 {
                        assert(es@[i].0 < es@[n - 1].0);
                    }
                }
                lemma_max_unique(self@, p);
            }
            p
        }
    }

    /// The lowest price, 0 when the table is empty.
    pub fn min_price(&self) -> (r: u32)
        requires
            self.wf(),
        ensures
            r == min_key(self@),
    {
        let es = Ghost(self.entries());
        let n = self.levels.len();
        if n == 0 {
            proof {
                if has_levels(self@) {
                    let p = choose|p: u32| self@.contains_key(p);
                    assert(exists|i: int| 0 <= i < es@.len() && (#[trigger] es@[i]).0 == p);
                }
            }
            0
        } else {
            let p = self.levels[0].price;
            proof {
                lemma_entry(es@, 0);
                assert forall|q: u32| #[trigger] self@.contains_key(q) implies p <= q by {
                    let i = choose|i: int| 0 <= i < es@.len() && (#[trigger] es@[i]).0 == q;
                    if 0 < i {
                        assert(es@[0].0 < es@[i].0);
                    }
                }
                lemma_min_unique(self@, p);
            }
            p
        }
    }

    /// The first level whose price is at least `p`.
    fn search(&self, p: u32) -> (r: usize)
        requires
            self.wf(),
        ensures
            r <= self.entries().len(),
            forall|j: int| 0 <= j < r ==> (#[trigger] self.entries()[j]).0 < p,
            r < self.entries().len() ==> p <= self.entries()[r as int].0,
    {
        let mut i: usize = 0;
        while i < self.levels.len() && self.levels[i].price < p
            invariant
                i <= self.entries().len(),
                self.entries().len() == self.levels@.len(),
                forall|j: int| 0 <= j < i ==> (#[trigger] self.entries()[j]).0 < p,
            decreases self.levels@.len() - i,
        {
            i = i + 1;
        }
        i
    }

    /// Appends `o` to the bucket at its price, creating the level if needed.
    pub fn add(&mut self, o: Order)
        requires
            old(self).wf(),
        ensures
            final(self).wf(),
            final(self)@ == add_order(old(self)@, o),
    {
        let ghost es = self.entries();
        let i = self.search(o.price);
        if i < self.levels.len() && self.levels[i].price == o.price {
            self.levels[i].orders.push(o);
            proof {
                lemma_entry(es, i as int);
                assert(self.entries() =~= es.update(i as int, (o.price, es[i as int].1.push(o))));
                lemma_update_entry(es, i as int, es[i as int].1.push(o));
            }
        } else {
            let mut orders = Vec::new();
            orders.push(o);
            self.levels.insert(i, Level { price: o.price, orders });
            proof {
                assert forall|j: int| i <= j < es.len() implies o.price < (#[trigger] es[j]).0 by {
                    if j > i {
                        assert(es[i as int].0 < es[j].0);
                    }
                }
                assert(self.entries() =~= es.insert(i as int, (o.price, seq![o])));
                lemma_insert_entry(es, i as int, o.price, seq![o]);
                assert(!to_map(es).contains_key(o.price)) by {
                    if to_map(es).contains_key(o.price) {
                        let j = choose|j: int| 0 <= j < es.len() && (#[trigger] es[j]).0 == o.price;
                        if j < i {
                        } else {
                            assert(j == i || es[i as int].0 < es[j].0);
                        }
                    }
                }
                assert(bucket(to_map(es), o.price).push(o) =~= seq![o]);
            }
        }
        proof {
            assert(self.wf()) by {
                let es2 = self.entries();
                assert forall|a: int, b: int|
                    0 <= a < es2.len() && 0 <= b < es2[a].1.len() implies (#[trigger] es2[a].1[b]).price
                    == es2[a].0 by {
                    if a < i {
                        assert(es2[a] == es[a]);
                    } else if a == i {
                    } else if es2.len() == es.len() {
                        assert(es2[a] == es[a]);
                    } else {
                        assert(es2[a] == es[a - 1]);
                    }
                }
                assert forall|a: int| 0 <= a < es2.len() implies (#[trigger] es2[a]).1.len() > 0 by {
                    if a < i {
                        assert(es2[a] == es[a]);
                    } else if a == i {
                    } else if es2.len() == es.len() {
                        assert(es2[a] == es[a]);
                    } else {
                        assert(es2[a] == es[a - 1]);
                    }
                }
            }
        }
    }

    /// The total quantity resting at `p`.
    pub fn total_at(&self, p: u32) -> (r: u32)
        requires
            self.wf(),
            total_qty(bucket(self@, p)) <= u32::MAX,
        ensures
            r == total_qty(bucket(self@, p)),
    {
        let ghost es = self.entries();
        let i = self.search(p);
        if i < self.levels.len() && self.levels[i].price == p {
            proof {
                lemma_entry(es, i as int);
            }
            let orders = &self.levels[i].orders;
            let mut sum: u32 = 0;
            let mut k: usize = 0;
            while k < orders.len()
                invariant
                    k <= orders@.len(),
                    orders@ == bucket(self@, p),
                    total_qty(orders@) <= u32::MAX,
                    sum == total_qty(orders@.subrange(0, k as int)),
                decreases orders@.len() - k,
            {
                proof {
                    lemma_total_prefix(orders@, k + 1);
                    assert(orders@.subrange(0, k + 1).drop_last() =~= orders@.subrange(0, k as int));
                }
                sum = sum + orders[k].qty;
                k = k + 1;
            }
            proof {
                assert(orders@.subrange(0, k as int) =~= orders@);
            }
            sum
        } else {
            proof {
                if self@.contains_key(p) {
                    let j = choose|j: int| 0 <= j < es.len() && (#[trigger] es[j]).0 == p;
                    if j >= i {
                        assert(j == i || es[i as int].0 < es[j].0);
                    }
                }
            }
            0
        }
    }

    /// Takes out the order at position `k` of level `i`, dropping the level if it empties.
    fn remove_order(&mut self, i: usize, k: usize) -> (r: Order)
        requires
            old(self).wf(),
            i < old(self).entries().len(),
            k < old(self).entries()[i as int].1.len(),
        ensures
            final(self).wf(),
            r == old(self).entries()[i as int].1[k as int],
            final(self)@ == remove_at(old(self)@, old(self).entries()[i as int].0, k as int),
    {
        let ghost es = self.entries();
        proof {
            lemma_entry(es, i as int);
        }
        let o = self.levels[i].orders[k];
        if self.levels[i].orders.len() == 1 {
            self.levels.remove(i);
            proof {
                assert(self.entries() =~= es.remove(i as int));
                lemma_remove_entry(es, i as int);
            }
        } else {
            self.levels[i].orders.remove(k);
            proof {
                assert(self.entries() =~= es.update(i as int, (es[i as int].0, es[i as int].1.remove(k as int))));
                lemma_update_entry(es, i as int, es[i as int].1.remove(k as int));
            }
        }
        proof {
            assert(self.wf()) by {
                let es2 = self.entries();
                assert forall|a: int, b: int|
                    0 <= a < es2.len() && 0 <= b < es2[a].1.len() implies (#[trigger] es2[a].1[b]).price
                    == es2[a].0 by {
                    if a < i {
                        assert(es2[a] == es[a]);
                    } else if es2.len() == es.len() {
                        if a == i {
                            assert(es2[a].1[b] == es[a].1[if b < k { b } else { b + 1 }]);
                        } else {
                            assert(es2[a] == es[a]);
                        }
                    } else {
                        assert(es2[a] == es[a + 1]);
                    }
                }
                assert forall|a: int| 0 <= a < es2.len() implies (#[trigger] es2[a]).1.len() > 0 by {
                    if a < i {
                        assert(es2[a] == es[a]);
                    } else if es2.len() == es.len() {
                        if a != i {
                            assert(es2[a] == es[a]);
                        }
                    } else {
                        assert(es2[a] == es[a + 1]);
                    }
                }
            }
        }
        o
    }

    /// Takes out the first order at price `p` whose quantity is `q`.
    pub fn take_qty(&mut self, p: u32, q: u32) -> (r: Option<Order>)
        requires
            old(self).wf(),
        ensures
            final(self).wf(),
            match first_index(bucket(old(self)@, p), has_qty(q)) {
                Some(k) => r == Some(old(self)@[p][k]) && final(self)@ == remove_at(old(self)@, p, k),
                None => r is None && final(self)@ == old(self)@,
            },
    {
        let ghost es = self.entries();
        let i = self.search(p);
        if i < self.levels.len() && self.levels[i].price == p {
            proof {
                lemma_entry(es, i as int);
            }
            match first_with_qty(&self.levels[i].orders, q) {
                Some(k) => Some(self.remove_order(i, k)),
                None => None,
            }
        } else {
            proof {
                if self@.contains_key(p) {
                    let j = choose|j: int| 0 <= j < es.len() && (#[trigger] es[j]).0 == p;
                    if j >= i {
                        assert(j == i || es[i as int].0 < es[j].0);
                    }
                }
                lemma_first_none(bucket(self@, p), has_qty(q));
            }
            None
        }
    }

    /// Takes out the order with these identifiers: the first one in the bucket
    /// of the lowest price that holds one.
    pub fn take_id(&mut self, user_id: u32, order_id: u32) -> (r: Option<Order>)
        requires
            old(self).wf(),
        ensures
            final(self).wf(),
            match first_level(old(self)@, has_id(user_id, order_id)) {
                Some(p) => {
                    let k = first_index(old(self)@[p], has_id(user_id, order_id))->0;
                    &&& r == Some(old(self)@[p][k])
                    &&& final(self)@ == remove_at(old(self)@, p, k)
                },
                None => r is None && final(self)@ == old(self)@,
            },
    {
        let ghost es = self.entries();
        let ghost f = has_id(user_id, order_id);
        let mut i: usize = 0;
        while i < self.levels.len()
            invariant
                self.wf(),
                self.entries() == es,
                old(self).entries() == es,
                f == has_id(user_id, order_id),
                i <= es.len(),
                forall|j: int| 0 <= j < i ==> !holds((#[trigger] es[j]).1, f),
            decreases es.len() - i,
        {
            match first_with_id(&self.levels[i].orders, user_id, order_id) {
                Some(k) => {
                    proof {
                        lemma_entry(es, i as int);
                        let p = es[i as int].0;
                        let kk = k as int;
                        assert(es[i as int].1 == self.levels@[i as int].orders@);
                        assert(is_first(es[i as int].1, f, kk));
                        lemma_first_unique(es[i as int].1, f, kk);
                        assert(holds(self@[p], f));
                        assert forall|q: u32| self@.contains_key(q) && q < p implies !holds(
                            #[trigger] self@[q],
                            f,
                        ) by {
                            let j = choose|j: int| 0 <= j < es.len() && (#[trigger] es[j]).0 == q;
                            lemma_entry(es, j);
                            if j >= i {
                                assert(j == i || es[i as int].0 < es[j].0);
                            }
                        }
                        lemma_first_level_unique(self@, f, p);
                    }
                    return Some(self.remove_order(i, k));
                },
                None => {},
            }
            i = i + 1;
        }
        proof {
            if exists|p: u32| is_first_level(self@, f, p) {
                let p = choose|p: u32| is_first_level(self@, f, p);
                let j = choose|j: int| 0 <= j < es.len() && (#[trigger] es[j]).0 == p;
                lemma_entry(es, j);
                assert(!holds(es[j].1, f));
            }
        }
        None
    }

    /// Whether a level exists at `p`.
    pub fn contains(&self, p: u32) -> (r: bool)
        requires
            self.wf(),
        ensures
            r == self@.contains_key(p),
    {
        let ghost es = self.entries();
        let i = self.search(p);
        if i < self.levels.len() && self.levels[i].price == p {
            proof {
                lemma_entry(es, i as int);
            }
            true
        } else {
            proof {
                if self@.contains_key(p) {
                    let j = choose|j: int| 0 <= j < es.len() && (#[trigger] es[j]).0 == p;
                    if j >= i {
                        assert(j == i || es[i as int].0 < es[j].0);
                    }
                }
            }
            false
        }
    }

    /// Removes every level.
    pub fn clear(&mut self)
        ensures
            final(self).wf(),
            final(self)@ == Map::<u32, Seq<Order>>::empty(),
    {
        self.levels.clear();
        proof {
            assert(self.entries() =~= Seq::<Entry>::empty());
            assert(self@ =~= Map::<u32, Seq<Order>>::empty());
        }
    }
}

} // verus!
