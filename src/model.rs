//! The book as a mathematical state machine: its state, what is well formed,
//! and the effect of each action on the state and the responses it produces.

use vstd::prelude::*;
use crate::order::{
    Order, Side, Trade, ResponsesView, UserActionView, side_of, ack_view, reject_view, best_view,
    trade_view,
};
use crate::side_table::{
    Table, bucket, total_qty, has_levels, max_key, min_key, best_key, has_qty, has_id, first_index,
    first_level, add_order, remove_at, table_wf, totals_fit, is_max_key, is_min_key,
    lemma_extremes_exist, lemma_extremes_empty, lemma_max_unique, lemma_min_unique,
    lemma_total_push, lemma_total_remove, lemma_first_exists,
};

verus! {

/// The state of a book.
pub struct BookView {
    pub ticker: Seq<char>,
    pub bids: Table,
    pub asks: Table,
    pub max_bid: u32,
    pub min_ask: u32,
    pub trades: Seq<Trade>,
    pub trade_active: bool,
}

/// An empty book for `ticker`.
pub open spec fn empty_book(ticker: Seq<char>, trade_active: bool) -> BookView {
    BookView {
        ticker,
        bids: Map::empty(),
        asks: Map::empty(),
        max_bid: 0,
        min_ask: 0,
        trades: Seq::empty(),
        trade_active,
    }
}

/// An order at price `p` on `side` reaches the opposite best `opp_best`.
pub open spec fn crosses(side: Side, p: u32, opp_best: u32) -> bool {
    match side {
        Side::Buy => p >= opp_best,
        Side::Sell => p <= opp_best,
    }
}

/// An order at price `p` on `side` would be at or better than the side's best.
pub open spec fn improves(side: Side, p: u32, own_best: u32) -> bool {
    own_best == 0 || match side {
        Side::Buy => p >= own_best,
        Side::Sell => p <= own_best,
    }
}

/// The trade of `incoming` on `side` against `resting`: the buyer is the buy
/// side of the pair, at the incoming order's price and quantity.
pub open spec fn trade_between(side: Side, incoming: Order, resting: Order) -> Trade {
    match side {
        Side::Buy => Trade {
            buyer_id: incoming.user_id,
            buyer_order_id: incoming.order_id,
            seller_id: resting.user_id,
            seller_order_id: resting.order_id,
            price: incoming.price,
            qty: incoming.qty,
        },
        Side::Sell => Trade {
            buyer_id: resting.user_id,
            buyer_order_id: resting.order_id,
            seller_id: incoming.user_id,
            seller_order_id: incoming.order_id,
            price: incoming.price,
            qty: incoming.qty,
        },
    }
}

/// The order that a new-order action describes.
pub open spec fn order_of(user_id: u32, price: u32, qty: u32, order_id: u32) -> Order {
    Order { user_id, order_id, price, qty }
}

impl BookView {
    pub open spec fn table(self, side: Side) -> Table {
        match side {
            Side::Buy => self.bids,
            Side::Sell => self.asks,
        }
    }

    pub open spec fn best(self, side: Side) -> u32 {
        match side {
            Side::Buy => self.max_bid,
            Side::Sell => self.min_ask,
        }
    }

    /// This book with the table and cached best of `side` replaced.
    pub open spec fn with_side(self, side: Side, m: Table, best: u32) -> BookView {
        match side {
            Side::Buy => BookView {
                ticker: self.ticker,
                bids: m,
                asks: self.asks,
                max_bid: best,
                min_ask: self.min_ask,
                trades: self.trades,
                trade_active: self.trade_active,
            },
            Side::Sell => BookView {
                ticker: self.ticker,
                bids: self.bids,
                asks: m,
                max_bid: self.max_bid,
                min_ask: best,
                trades: self.trades,
                trade_active: self.trade_active,
            },
        }
    }

    pub open spec fn with_trade(self, t: Trade) -> BookView {
        BookView {
            ticker: self.ticker,
            bids: self.bids,
            asks: self.asks,
            max_bid: self.max_bid,
            min_ask: self.min_ask,
            trades: self.trades.push(t),
            trade_active: self.trade_active,
        }
    }

    /// The invariants of a book: well-formed tables with positive prices and
    /// bucket totals that fit in a `u32`, correct cached bests, and no cross.
    pub open spec fn wf(self) -> bool {
        &&& table_wf(self.bids)
        &&& table_wf(self.asks)
        &&& forall|p: u32| #[trigger] self.bids.contains_key(p) ==> p > 0
        &&& forall|p: u32| #[trigger] self.asks.contains_key(p) ==> p > 0
        &&& totals_fit(self.bids)
        &&& totals_fit(self.asks)
        &&& self.max_bid == max_key(self.bids)
        &&& self.min_ask == min_key(self.asks)
        &&& has_levels(self.bids) && has_levels(self.asks) ==> self.max_bid < self.min_ask
    }

    /// A new order on `side` would rest in the book rather than meet the other side.
    pub open spec fn rests(self, side: Side, o: Order) -> bool {
        !(has_levels(self.table(side.opposite())) && crosses(
            side,
            o.price,
            self.best(side.opposite()),
        ))
    }

    /// The book can take this order: its price is positive, and where it rests,
    /// the total of its bucket still fits in a `u32`.
    pub open spec fn admits_order(self, side: Side, o: Order) -> bool {
        &&& o.price > 0
        &&& self.rests(side, o) ==> total_qty(bucket(self.table(side), o.price)) + o.qty
            <= u32::MAX
    }

    pub open spec fn admits(self, a: UserActionView) -> bool {
        match a {
            UserActionView::NewOrder { user_id, price, qty, side, order_id, .. } => self.admits_order(
                side_of(side),
                order_of(user_id, price, qty, order_id),
            ),
            _ => true,
        }
    }
}

/// A new order on `side`: rejected or traded where it crosses the other side,
/// else rested, reporting the new top of book where it is at or better than the best.
pub open spec fn new_order_step(b: BookView, side: Side, o: Order) -> (BookView, ResponsesView) {
    let opp_side = side.opposite();
    let opp = b.table(opp_side);
    let ack = Some(ack_view(o.user_id, o.order_id));
    let reject = (b, (Some(reject_view(o.user_id, o.order_id)), None));
    if !b.rests(side, o) {
        if !b.trade_active {
            reject
        } else {
            match first_index(bucket(opp, o.price), has_qty(o.qty)) {
                None => reject,
                Some(k) => {
                    let opp2 = remove_at(opp, o.price, k);
                    let t = trade_between(side, o, opp[o.price][k]);
                    (
                        b.with_side(opp_side, opp2, best_key(opp2, opp_side)).with_trade(t),
                        (ack, Some(trade_view(t))),
                    )
                },
            }
        }
    } else {
        let own2 = add_order(b.table(side), o);
        if improves(side, o.price, b.best(side)) {
            (
                b.with_side(side, own2, o.price),
                (ack, Some(best_view(side, o.price, total_qty(own2[o.price]) as u32))),
            )
        } else {
            (b.with_side(side, own2, b.best(side)), (ack, None))
        }
    }
}

/// Cancels the order at position `k` of the bucket at `p` on `side`.
pub open spec fn cancel_at(
    b: BookView,
    side: Side,
    p: u32,
    k: int,
    user_id: u32,
    order_id: u32,
) -> (BookView, ResponsesView) {
    let own = b.table(side);
    let own2 = remove_at(own, p, k);
    let ack = Some(ack_view(user_id, order_id));
    if p != b.best(side) {
        (b.with_side(side, own2, b.best(side)), (ack, None))
    } else if own[p].len() > 1 {
        (b.with_side(side, own2, p), (ack, Some(best_view(side, p, total_qty(own2[p]) as u32))))
    } else {
        let nb = best_key(own2, side);
        (
            b.with_side(side, own2, nb),
            (ack, Some(best_view(side, nb, total_qty(bucket(own2, nb)) as u32))),
        )
    }
}

/// Cancels the order with these identifiers, searching the asks first, then the bids.
pub open spec fn cancel_step(b: BookView, user_id: u32, order_id: u32) -> (
    BookView,
    ResponsesView,
) {
    let f = has_id(user_id, order_id);
    match first_level(b.asks, f) {
        Some(p) => cancel_at(b, Side::Sell, p, first_index(b.asks[p], f)->0, user_id, order_id),
        None => match first_level(b.bids, f) {
            Some(p) => cancel_at(b, Side::Buy, p, first_index(b.bids[p], f)->0, user_id, order_id),
            None => (b, (Some(reject_view(user_id, order_id)), None)),
        },
    }
}

/// Empties both tables and the ticker; the trade log stays.
pub open spec fn flush_step(b: BookView) -> BookView {
    BookView {
        ticker: Seq::empty(),
        bids: Map::empty(),
        asks: Map::empty(),
        max_bid: 0,
        min_ask: 0,
        trades: b.trades,
        trade_active: b.trade_active,
    }
}

/// The effect of one action: the next state and the pair of responses.
pub open spec fn step(b: BookView, a: UserActionView) -> (BookView, ResponsesView) {
    match a {
        UserActionView::NewOrder { user_id, price, qty, side, order_id, .. } => new_order_step(
            b,
            side_of(side),
            order_of(user_id, price, qty, order_id),
        ),
        UserActionView::CancelOrder { user_id, order_id } => cancel_step(b, user_id, order_id),
        UserActionView::Flush => (flush_step(b), (None, None)),
    }
}


/// What removing one order does to a well-formed table.
pub proof fn lemma_remove_at(m: Table, p: u32, k: int)
    requires
        table_wf(m),
        totals_fit(m),
        m.contains_key(p),
        0 <= k < m[p].len(),
    ensures
        table_wf(remove_at(m, p, k)),
        totals_fit(remove_at(m, p, k)),
        forall|q: u32| #[trigger] remove_at(m, p, k).contains_key(q) ==> m.contains_key(q),
        forall|q: u32| q != p ==> (#[trigger] remove_at(m, p, k).contains_key(q) == m.contains_key(q)),
        remove_at(m, p, k).contains_key(p) == (m[p].len() > 1),
        m[p].len() > 1 ==> remove_at(m, p, k)[p] == m[p].remove(k),
{
    let m2 = remove_at(m, p, k);
    if m[p].len() > 1 {
        lemma_total_remove(m[p], k);
        assert forall|q: u32, i: int| m2.contains_key(q) && 0 <= i < m2[q].len() implies (
        #[trigger] m2[q][i]).price == q by {
            if q == p {
                assert(m2[q][i] == m[p][if i < k { i } else { i + 1 }]);
            }
        }
    }
}

/// What appending an order to its bucket does to a well-formed table.
pub proof fn lemma_add_order(m: Table, o: Order)
    requires
        table_wf(m),
    ensures
        table_wf(add_order(m, o)),
        forall|q: u32| #[trigger] add_order(m, o).contains_key(q) == (m.contains_key(q) || q == o.price),
        forall|q: u32| q != o.price ==> #[trigger] add_order(m, o)[q] == m[q],
        total_qty(add_order(m, o)[o.price]) == total_qty(bucket(m, o.price)) + o.qty,
{
    lemma_total_push(bucket(m, o.price), o);
    let m2 = add_order(m, o);
    assert forall|q: u32, i: int| m2.contains_key(q) && 0 <= i < m2[q].len() implies (
    #[trigger] m2[q][i]).price == q by {
        if q == o.price && i < m2[q].len() - 1 {
            assert(m2[q][i] == m[q][i]);
        }
    }
}

/// A table with fewer levels has a best price no better than before.
pub proof fn lemma_best_of_fewer(m: Table, m2: Table)
    requires
        table_wf(m),
        table_wf(m2),
        forall|q: u32| #[trigger] m2.contains_key(q) ==> m.contains_key(q),
        has_levels(m2),
    ensures
        max_key(m2) <= max_key(m),
        min_key(m2) >= min_key(m),
        m2.contains_key(max_key(m2)),
        m2.contains_key(min_key(m2)),
{
    lemma_extremes_exist(m2);
    let q = choose|q: u32| m2.contains_key(q);
    assert(m.contains_key(q));
    lemma_extremes_exist(m);
    assert(m.contains_key(max_key(m2)));
    assert(m.contains_key(min_key(m2)));
}

/// A new order keeps the book's invariants.
pub proof fn lemma_new_order_wf(b: BookView, side: Side, o: Order)
    requires
        b.wf(),
        b.admits_order(side, o),
    ensures
        new_order_step(b, side, o).0.wf(),
{
    let opp_side = side.opposite();
    let opp = b.table(opp_side);
    let own = b.table(side);
    let b2 = new_order_step(b, side, o).0;
    if has_levels(b.bids) {
        lemma_extremes_exist(b.bids);
    }
    if has_levels(b.asks) {
        lemma_extremes_exist(b.asks);
    }
    if !b.rests(side, o) {
        if b.trade_active {
            match first_index(bucket(opp, o.price), has_qty(o.qty)) {
                None => {},
                Some(k) => {
                    assert(opp.contains_key(o.price));
                    lemma_remove_at(opp, o.price, k);
                    let opp2 = remove_at(opp, o.price, k);
                    if has_levels(opp2) {
                        lemma_best_of_fewer(opp, opp2);
                    } else {
                        lemma_extremes_empty(opp2);
                    }
                    assert(b2.table(opp_side) == opp2);
                    assert(b2.table(side) == own);
                },
            }
        }
    } else {
        lemma_add_order(own, o);
        let own2 = add_order(own, o);
        assert(b2.table(side) == own2);
        assert(b2.table(opp_side) == opp);
        assert(totals_fit(own2)) by {
            assert forall|q: u32| #[trigger] own2.contains_key(q) implies total_qty(own2[q]) <= u32::MAX by {
                if q != o.price {
                    assert(own.contains_key(q));
                }
            }
        }
        if improves(side, o.price, b.best(side)) {
            if has_levels(own) {
                let q = choose|q: u32| own.contains_key(q);
                assert(q > 0);
            }
            match side {
                Side::Buy => {
                    assert(is_max_key(own2, o.price));
                    lemma_max_unique(own2, o.price);
                },
                Side::Sell => {
                    assert(is_min_key(own2, o.price));
                    lemma_min_unique(own2, o.price);
                },
            }
        } else {
            match side {
                Side::Buy => {
                    assert(is_max_key(own2, b.max_bid));
                    lemma_max_unique(own2, b.max_bid);
                },
                Side::Sell => {
                    assert(is_min_key(own2, b.min_ask));
                    lemma_min_unique(own2, b.min_ask);
                },
            }
        }
    }
}


/// Cancelling a resting order keeps the book's invariants.
pub proof fn lemma_cancel_at_wf(b: BookView, side: Side, p: u32, k: int, user_id: u32, order_id: u32)
    requires
        b.wf(),
        b.table(side).contains_key(p),
        0 <= k < b.table(side)[p].len(),
    ensures
        cancel_at(b, side, p, k, user_id, order_id).0.wf(),
{
    let own = b.table(side);
    let opp_side = side.opposite();
    let b2 = cancel_at(b, side, p, k, user_id, order_id).0;
    lemma_remove_at(own, p, k);
    let own2 = remove_at(own, p, k);
    assert(b2.table(side) == own2);
    assert(b2.table(opp_side) == b.table(opp_side));
    lemma_extremes_exist(own);
    if has_levels(b.table(opp_side)) {
        lemma_extremes_exist(b.table(opp_side));
    }
    if has_levels(own2) {
        lemma_best_of_fewer(own, own2);
    } else {
        lemma_extremes_empty(own2);
    }
    if p != b.best(side) || own[p].len() > 1 {
        match side {
            Side::Buy => {
                assert(is_max_key(own2, b.max_bid));
                lemma_max_unique(own2, b.max_bid);
            },
            Side::Sell => {
                assert(is_min_key(own2, b.min_ask));
                lemma_min_unique(own2, b.min_ask);
            },
        }
    }
}

/// Cancelling by identifiers keeps the book's invariants.
pub proof fn lemma_cancel_wf(b: BookView, user_id: u32, order_id: u32)
    requires
        b.wf(),
    ensures
        cancel_step(b, user_id, order_id).0.wf(),
{
    let f = has_id(user_id, order_id);
    match first_level(b.asks, f) {
        Some(p) => {
            let s = b.asks[p];
            lemma_first_exists(s, f);
            lemma_cancel_at_wf(b, Side::Sell, p, first_index(s, f)->0, user_id, order_id);
        },
        None => match first_level(b.bids, f) {
            Some(p) => {
                let s = b.bids[p];
                lemma_first_exists(s, f);
                lemma_cancel_at_wf(b, Side::Buy, p, first_index(s, f)->0, user_id, order_id);
            },
            None => {},
        },
    }
}

/// Every action that the book admits keeps its invariants.
pub proof fn lemma_step_wf(b: BookView, a: UserActionView)
    requires
        b.wf(),
        b.admits(a),
    ensures
        step(b, a).0.wf(),
{
    match a {
        UserActionView::NewOrder { user_id, price, qty, side, order_id, .. } => {
            lemma_new_order_wf(b, side_of(side), order_of(user_id, price, qty, order_id));
        },
        UserActionView::CancelOrder { user_id, order_id } => {
            lemma_cancel_wf(b, user_id, order_id);
        },
        UserActionView::Flush => {
            let b2 = flush_step(b);
            lemma_extremes_empty(b2.bids);
            lemma_extremes_empty(b2.asks);
        },
    }
}

} // verus!
