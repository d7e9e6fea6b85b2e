//! Properties of the book that hold of every action and every run.

use vstd::prelude::*;
use crate::order::{
    Order, Side, ResponseView, ResponsesView, UserActionView, side_of, reject_view, ack_view,
};
use crate::side_table::{
    Table, has_levels, is_max_key, is_min_key, has_id, holds, first_level, first_index, is_first,
    is_first_level, has_qty, bucket, min_key, lemma_first_exists, add_order, remove_at, lemma_extremes_exist, lemma_first_unique,
    lemma_first_level_unique,
};
use crate::model::{
    BookView, step, new_order_step, cancel_step, cancel_at, order_of, lemma_step_wf,
};

verus! {

/// After any admitted action on a well-formed book, no price level of either
/// side is empty.
pub proof fn lemma_no_empty_levels(b: BookView, a: UserActionView)
    requires
        b.wf(),
        b.admits(a),
    ensures
        forall|p: u32| #[trigger] step(b, a).0.bids.contains_key(p) ==> step(b, a).0.bids[p].len() > 0,
        forall|p: u32| #[trigger] step(b, a).0.asks.contains_key(p) ==> step(b, a).0.asks[p].len() > 0,
{
    lemma_step_wf(b, a);
}

/// After any admitted action on a well-formed book, the cached best bid is the
/// highest bid price, or 0 with no bids, and the cached best ask is the lowest
/// ask price, or 0 with no asks.
pub proof fn lemma_cached_bests(b: BookView, a: UserActionView)
    requires
        b.wf(),
        b.admits(a),
    ensures
        has_levels(step(b, a).0.bids) ==> is_max_key(step(b, a).0.bids, step(b, a).0.max_bid),
        !has_levels(step(b, a).0.bids) ==> step(b, a).0.max_bid == 0,
        has_levels(step(b, a).0.asks) ==> is_min_key(step(b, a).0.asks, step(b, a).0.min_ask),
        !has_levels(step(b, a).0.asks) ==> step(b, a).0.min_ask == 0,
{
    lemma_step_wf(b, a);
    let b2 = step(b, a).0;
    if has_levels(b2.bids) {
        lemma_extremes_exist(b2.bids);
    }
    if has_levels(b2.asks) {
        lemma_extremes_exist(b2.asks);
    }
}

/// After any admitted action on a well-formed book, where both sides hold
/// orders the best bid is below the best ask.
pub proof fn lemma_never_crossed(b: BookView, a: UserActionView)
    requires
        b.wf(),
        b.admits(a),
    ensures
        has_levels(step(b, a).0.bids) && has_levels(step(b, a).0.asks) ==> step(b, a).0.max_bid
            < step(b, a).0.min_ask,
{
    lemma_step_wf(b, a);
}

/// The state and the responses after applying `actions` in turn.
pub open spec fn run(b: BookView, actions: Seq<UserActionView>) -> (BookView, Seq<ResponsesView>)
    decreases actions.len(),
{
    if actions.len() == 0 {
        (b, Seq::empty())
    } else {
        let before = run(b, actions.drop_last());
        let (b2, r) = step(before.0, actions.last());
        (b2, before.1.push(r))
    }
}

/// The number of responses that carry a primary response.
pub open spec fn primary_count(rs: Seq<ResponsesView>) -> nat
    decreases rs.len(),
{
    if rs.len() == 0 {
        0
    } else {
        primary_count(rs.drop_last()) + if rs.last().0 is Some {
            1nat
        } else {
            0nat
        }
    }
}

/// The number of actions other than a flush.
pub open spec fn non_flush_count(actions: Seq<UserActionView>) -> nat
    decreases actions.len(),
{
    if actions.len() == 0 {
        0
    } else {
        non_flush_count(actions.drop_last()) + if actions.last() is Flush {
            0nat
        } else {
            1nat
        }
    }
}

/// In the responses to any sequence of actions, there are as many primary
/// responses as actions other than a flush.
pub proof fn lemma_primary_per_action(b: BookView, actions: Seq<UserActionView>)
    ensures
        run(b, actions).1.len() == actions.len(),
        primary_count(run(b, actions).1) == non_flush_count(actions),
    decreases actions.len(),
{
    if actions.len() > 0 {
        lemma_primary_per_action(b, actions.drop_last());
        let before = run(b, actions.drop_last());
        assert(run(b, actions).1.drop_last() =~= before.1);
    }
}

/// A flush leaves both sides empty, both cached bests 0, the ticker empty, and
/// answers nothing.
pub proof fn lemma_flush_resets(b: BookView)
    ensures
        !has_levels(step(b, UserActionView::Flush).0.bids),
        !has_levels(step(b, UserActionView::Flush).0.asks),
        step(b, UserActionView::Flush).0.max_bid == 0,
        step(b, UserActionView::Flush).0.min_ask == 0,
        step(b, UserActionView::Flush).0.ticker == Seq::<char>::empty(),
        step(b, UserActionView::Flush).1 == (None::<ResponseView>, None::<ResponseView>),
{
}

/// No resting order of `b` carries these identifiers.
pub open spec fn id_absent(b: BookView, user_id: u32, order_id: u32) -> bool {
    &&& forall|p: u32| #[trigger] b.bids.contains_key(p) ==> !holds(b.bids[p], has_id(user_id, order_id))
    &&& forall|p: u32| #[trigger] b.asks.contains_key(p) ==> !holds(b.asks[p], has_id(user_id, order_id))
}

pub proof fn lemma_absent_no_level(m: Table, user_id: u32, order_id: u32)
    requires
        forall|p: u32| #[trigger] m.contains_key(p) ==> !holds(m[p], has_id(user_id, order_id)),
    ensures
        first_level(m, has_id(user_id, order_id)) is None,
{
    if exists|p: u32| is_first_level(m, has_id(user_id, order_id), p) {
        let p = choose|p: u32| is_first_level(m, has_id(user_id, order_id), p);
        assert(m.contains_key(p));
    }
}

/// Cancelling identifiers that no resting order carries (never inserted, or
/// already cancelled or traded) is rejected and leaves the book as it was.
pub proof fn lemma_cancel_unknown(b: BookView, user_id: u32, order_id: u32)
    requires
        id_absent(b, user_id, order_id),
    ensures
        step(b, UserActionView::CancelOrder { user_id, order_id }).1 == (
            Some(reject_view(user_id, order_id)),
            None::<ResponseView>,
        ),
        step(b, UserActionView::CancelOrder { user_id, order_id }).0 == b,
{
    lemma_absent_no_level(b.asks, user_id, order_id);
    lemma_absent_no_level(b.bids, user_id, order_id);
}


/// Taking out an order keeps absent identifiers absent.
pub proof fn lemma_absent_remove_at(m: Table, p: u32, k: int, user_id: u32, order_id: u32)
    requires
        m.contains_key(p),
        0 <= k < m[p].len(),
        forall|q: u32| #[trigger] m.contains_key(q) ==> !holds(m[q], has_id(user_id, order_id)),
    ensures
        forall|q: u32| #[trigger] remove_at(m, p, k).contains_key(q) ==> !holds(
            remove_at(m, p, k)[q],
            has_id(user_id, order_id),
        ),
{
    let f = has_id(user_id, order_id);
    let m2 = remove_at(m, p, k);
    assert forall|q: u32| #[trigger] m2.contains_key(q) implies !holds(m2[q], f) by {
        if q == p && m[p].len() > 1 {
            assert forall|i: int| 0 <= i < m2[q].len() implies !f(#[trigger] m2[q][i]) by {
                assert(m2[q][i] == m[p][if i < k { i } else { i + 1 }]);
            }
        }
    }
}

/// Where an order rests on `side` of a book that held no order with its
/// identifiers, cancelling them takes out exactly that order.
proof fn lemma_cancel_undoes_rest(b: BookView, s: Side, o: Order)
    requires
        b.wf(),
        id_absent(b, o.user_id, o.order_id),
        b.rests(s, o),
        o.price > 0,
    ensures
        cancel_step(new_order_step(b, s, o).0, o.user_id, o.order_id).0 == b,
{
    let f = has_id(o.user_id, o.order_id);
    let own = b.table(s);
    let p = o.price;
    let b1 = new_order_step(b, s, o).0;
    let own1 = add_order(own, o);
    let n = bucket(own, p).len() as int;
    assert(b1.table(s) == own1);
    assert(own1[p] == bucket(own, p).push(o));
    assert(is_first(own1[p], f, n)) by {
        assert forall|j: int| 0 <= j < n implies !f(#[trigger] own1[p][j]) by {
            assert(own1[p][j] == own[p][j]);
            assert(!holds(own[p], f));
        }
    }
    assert(is_first_level(own1, f, p)) by {
        assert forall|q: u32| own1.contains_key(q) && q < p implies !holds(#[trigger] own1[q], f) by {
            assert(own.contains_key(q));
        }
    }
    lemma_first_level_unique(own1, f, p);
    lemma_first_unique(own1[p], f, n);
    if s == Side::Buy {
        assert(b1.asks == b.asks);
        lemma_absent_no_level(b.asks, o.user_id, o.order_id);
    }
    let b2 = cancel_step(b1, o.user_id, o.order_id).0;
    assert(b2 == cancel_at(b1, s, p, n, o.user_id, o.order_id).0);
    let own2 = remove_at(own1, p, n);
    assert(own2 =~= own) by {
        if own1[p].len() == 1 {
            assert(!own.contains_key(p));
        } else {
            assert(own1[p].remove(n) =~= own[p]);
        }
    }
    if own.contains_key(p) {
        lemma_extremes_exist(own);
    }
    assert(b2.table(s) == own);
    assert(b2.best(s) == b.best(s));
    assert(b2 == b);
}

/// Placing an order, cancelling it, and placing it again answers as placing
/// it the first time: where the cancel is accepted, it restores the book.
/// Identifiers are taken to be unique among resting orders.
pub proof fn lemma_reinsert_after_cancel(
    b: BookView,
    user_id: u32,
    symbol: Seq<char>,
    price: u32,
    qty: u32,
    side: Seq<char>,
    order_id: u32,
)
    requires
        b.wf(),
        b.admits(UserActionView::NewOrder { user_id, symbol, price, qty, side, order_id }),
        id_absent(b, user_id, order_id),
        step(
            step(b, UserActionView::NewOrder { user_id, symbol, price, qty, side, order_id }).0,
            UserActionView::CancelOrder { user_id, order_id },
        ).1.0 == Some(ack_view(user_id, order_id)),
    ensures
        ({
            let a = UserActionView::NewOrder { user_id, symbol, price, qty, side, order_id };
            let b2 = step(step(b, a).0, UserActionView::CancelOrder { user_id, order_id }).0;
            &&& b2 == b
            &&& step(b2, a) == step(b, a)
        }),
{
    let s = side_of(side);
    let o = order_of(user_id, price, qty, order_id);
    let b1 = new_order_step(b, s, o).0;
    if !b.rests(s, o) {
        let opp_side = s.opposite();
        let opp = b.table(opp_side);
        if b.trade_active {
            match first_index(bucket(opp, o.price), has_qty(o.qty)) {
                None => {},
                Some(k) => {
                    assert(opp.contains_key(o.price));
                    lemma_absent_remove_at(opp, o.price, k, user_id, order_id);
                    assert(b1.table(opp_side) == remove_at(opp, o.price, k));
                    assert(b1.table(s) == b.table(s));
                },
            }
        }
        assert(id_absent(b1, user_id, order_id));
        lemma_cancel_unknown(b1, user_id, order_id);
    } else {
        lemma_cancel_undoes_rest(b, s, o);
    }
}


/// Where some level holds an order that satisfies `f`, a lowest such level exists.
pub proof fn lemma_first_level_exists(m: Table, f: spec_fn(Order) -> bool, p: u32)
    requires
        m.dom().finite(),
        m.contains_key(p),
        holds(m[p], f),
    ensures
        first_level(m, f) is Some,
{
    let s = m.dom().filter(|q: u32| holds(m[q], f));
    let m2 = m.restrict(s);
    assert(m2.dom() =~= s);
    assert(m2.contains_key(p));
    lemma_extremes_exist(m2);
    let lo = min_key(m2);
    assert(is_first_level(m, f, lo)) by {
        assert forall|q: u32| m.contains_key(q) && q < lo implies !holds(#[trigger] m[q], f) by {
            if holds(m[q], f) {
                assert(m2.contains_key(q));
            }
        }
    }
}

/// The order at position `i` of the bucket at `p` satisfies `f`.
pub open spec fn located(m: Table, p: u32, i: int, f: spec_fn(Order) -> bool) -> bool {
    m.contains_key(p) && 0 <= i < m[p].len() && f(m[p][i])
}

/// At most one resting order of `b` carries these identifiers.
pub open spec fn id_unique(b: BookView, user_id: u32, order_id: u32) -> bool {
    let f = has_id(user_id, order_id);
    &&& forall|p1: u32, i1: int, p2: u32, i2: int|
        #![trigger located(b.bids, p1, i1, f), located(b.bids, p2, i2, f)]
        located(b.bids, p1, i1, f) && located(b.bids, p2, i2, f) ==> p1 == p2 && i1 == i2
    &&& forall|p1: u32, i1: int, p2: u32, i2: int|
        #![trigger located(b.asks, p1, i1, f), located(b.asks, p2, i2, f)]
        located(b.asks, p1, i1, f) && located(b.asks, p2, i2, f) ==> p1 == p2 && i1 == i2
    &&& forall|p1: u32, i1: int, p2: u32, i2: int|
        #![trigger located(b.bids, p1, i1, f), located(b.asks, p2, i2, f)]
        !(located(b.bids, p1, i1, f) && located(b.asks, p2, i2, f))
}

proof fn lemma_only_one_removed(m: Table, p: u32, k: int, f: spec_fn(Order) -> bool)
    requires
        located(m, p, k, f),
        forall|q: u32, i: int| #[trigger] located(m, q, i, f) ==> q == p && i == k,
    ensures
        forall|q: u32| #[trigger] remove_at(m, p, k).contains_key(q) ==> !holds(remove_at(m, p, k)[q], f),
{
    let m2 = remove_at(m, p, k);
    assert forall|q: u32| #[trigger] m2.contains_key(q) implies !holds(m2[q], f) by {
        if holds(m2[q], f) {
            let i = choose|i: int| 0 <= i < m2[q].len() && f(m2[q][i]);
            if q == p {
                let j = if i < k { i } else { i + 1 };
                assert(m2[q][i] == m[p][j]);
                assert(located(m, p, j, f));
            } else {
                assert(located(m, q, i, f));
            }
        }
    }
}

/// A cancel that is accepted takes its identifiers out of the book: where
/// they were unique, cancelling them again is rejected.
pub proof fn lemma_cancel_forgets(b: BookView, user_id: u32, order_id: u32)
    requires
        b.wf(),
        id_unique(b, user_id, order_id),
    ensures
        id_absent(cancel_step(b, user_id, order_id).0, user_id, order_id),
{
    let f = has_id(user_id, order_id);
    let b2 = cancel_step(b, user_id, order_id).0;
    match first_level(b.asks, f) {
        Some(p) => {
            lemma_first_exists(b.asks[p], f);
            let k = first_index(b.asks[p], f)->0;
            assert(located(b.asks, p, k, f));
            lemma_only_one_removed(b.asks, p, k, f);
            assert(b2.asks == remove_at(b.asks, p, k));
            assert(b2.bids == b.bids);
            assert forall|q: u32| #[trigger] b.bids.contains_key(q) implies !holds(b.bids[q], f) by {
                if holds(b.bids[q], f) {
                    let i = choose|i: int| 0 <= i < b.bids[q].len() && f(b.bids[q][i]);
                    assert(located(b.bids, q, i, f));
                }
            }
        },
        None => {
            assert forall|q: u32| #[trigger] b.asks.contains_key(q) implies !holds(b.asks[q], f) by {
                if holds(b.asks[q], f) {
                    lemma_first_level_exists(b.asks, f, q);
                }
            }
            match first_level(b.bids, f) {
                Some(p) => {
                    lemma_first_exists(b.bids[p], f);
                    let k = first_index(b.bids[p], f)->0;
                    assert(located(b.bids, p, k, f));
                    lemma_only_one_removed(b.bids, p, k, f);
                    assert(b2.bids == remove_at(b.bids, p, k));
                    assert(b2.asks == b.asks);
                },
                None => {
                    assert forall|q: u32| #[trigger] b.bids.contains_key(q) implies !holds(
                        b.bids[q],
                        f,
                    ) by {
                        if holds(b.bids[q], f) {
                            lemma_first_level_exists(b.bids, f, q);
                        }
                    }
                },
            }
        },
    }
}

/// The action places a resting order with these identifiers.
pub open spec fn places(b: BookView, a: UserActionView, user_id: u32, order_id: u32) -> bool {
    match a {
        UserActionView::NewOrder { user_id: u, price, qty, side, order_id: o, .. } => u == user_id
            && o == order_id && b.rests(side_of(side), order_of(u, price, qty, o)),
        _ => false,
    }
}

/// Identifiers that no resting order carries stay absent through any action
/// that does not rest an order under them: an order that was never placed,
/// or that was rejected or traded on arrival, cannot be cancelled later.
pub proof fn lemma_absent_stays(b: BookView, a: UserActionView, user_id: u32, order_id: u32)
    requires
        b.wf(),
        b.admits(a),
        id_absent(b, user_id, order_id),
        !places(b, a, user_id, order_id),
    ensures
        id_absent(step(b, a).0, user_id, order_id),
{
    let f = has_id(user_id, order_id);
    let b2 = step(b, a).0;
    match a {
        UserActionView::NewOrder { user_id: u, price, qty, side, order_id: oid, .. } => {
            let s = side_of(side);
            let o = order_of(u, price, qty, oid);
            let opp_side = s.opposite();
            let opp = b.table(opp_side);
            if !b.rests(s, o) {
                if b.trade_active {
                    match first_index(bucket(opp, o.price), has_qty(o.qty)) {
                        None => {},
                        Some(k) => {
                            assert(opp.contains_key(o.price));
                            lemma_absent_remove_at(opp, o.price, k, user_id, order_id);
                            assert(b2.table(opp_side) == remove_at(opp, o.price, k));
                            assert(b2.table(s) == b.table(s));
                        },
                    }
                }
            } else {
                let own = b.table(s);
                let own2 = add_order(own, o);
                assert(b2.table(s) == own2);
                assert(b2.table(opp_side) == opp);
                assert forall|q: u32| #[trigger] own2.contains_key(q) implies !holds(own2[q], f) by {
                    if q == o.price {
                        assert forall|i: int| 0 <= i < own2[q].len() implies !f(#[trigger] own2[q][i]) by {
                            if i < own2[q].len() - 1 {
                                assert(own2[q][i] == own[q][i]);
                            }
                        }
                    }
                }
            }
        },
        UserActionView::CancelOrder { user_id: u, order_id: oid } => {
            let g = has_id(u, oid);
            match first_level(b.asks, g) {
                Some(p) => {
                    let k = first_index(b.asks[p], g)->0;
                    lemma_first_exists(b.asks[p], g);
                    lemma_absent_remove_at(b.asks, p, k, user_id, order_id);
                },
                None => match first_level(b.bids, g) {
                    Some(p) => {
                        let k = first_index(b.bids[p], g)->0;
                        lemma_first_exists(b.bids[p], g);
                        lemma_absent_remove_at(b.bids, p, k, user_id, order_id);
                    },
                    None => {},
                },
            }
        },
        UserActionView::Flush => {},
    }
}

} // verus!
