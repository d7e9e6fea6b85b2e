//! The order book: two side tables, their cached best prices, a trade log,
//! and the entry point that applies a user action.

use vstd::prelude::*;
use crate::order::{
    Order, Side, Trade, Response, Responses, UserAction, UserActionView, responses_view,
    best_response,
};
use crate::side_table::{
    SideTable, add_order, remove_at, has_id, first_level, first_index, lemma_first_exists,
    lemma_extremes_empty,
};
use crate::model::{
    BookView, empty_book, new_order_step, cancel_step, flush_step, step, cancel_at, lemma_step_wf,
    lemma_new_order_wf, lemma_cancel_wf, lemma_cancel_at_wf, lemma_remove_at, lemma_add_order,
};

verus! {

/// A limit order book for one symbol.
pub struct OrderBook {
    max_bid: u32,
    min_ask: u32,
    ticker: String,
    asks: SideTable,
    bids: SideTable,
    trades: Vec<Trade>,
    trade_active: bool,
}

impl View for OrderBook {
    type V = BookView;

    closed spec fn view(&self) -> BookView {
        BookView {
            ticker: self.ticker@,
            bids: self.bids@,
            asks: self.asks@,
            max_bid: self.max_bid,
            min_ask: self.min_ask,
            trades: self.trades@,
            trade_active: self.trade_active,
        }
    }
}

fn opposite(side: Side) -> (r: Side)
    ensures
        r == side.opposite(),
{
    match side {
        Side::Buy => Side::Sell,
        Side::Sell => Side::Buy,
    }
}

impl OrderBook {
    closed spec fn tables_wf(&self) -> bool {
        self.bids.wf() && self.asks.wf()
    }

    /// The book's invariants hold.
    pub closed spec fn wf(&self) -> bool {
        self.tables_wf() && self@.wf()
    }

    /// The state of a well-formed book meets the invariants of [`BookView::wf`],
    /// so the laws stated over [`BookView`] hold of it.
    pub proof fn lemma_view_wf(&self)
        requires
            self.wf(),
        ensures
            self@.wf(),
    {
    }

    /// An empty book for `ticker`; trades happen only where `trade_active` is set.
    pub fn new(ticker: &str, trade_active: bool) -> (r: OrderBook)
        ensures
            r.wf(),
            r@ == empty_book(ticker@, trade_active),
    {
        let r = OrderBook {
            max_bid: 0,
            min_ask: 0,
            ticker: String::from_str(ticker),
            asks: SideTable::new(),
            bids: SideTable::new(),
            trades: Vec::new(),
            trade_active,
        };
        proof {
            lemma_extremes_empty(r.bids@);
            lemma_extremes_empty(r.asks@);
            r.bids.lemma_view_wf();
            r.asks.lemma_view_wf();
            assert(r@.trades =~= Seq::<Trade>::empty());
        }
        r
    }

    pub fn ticker(&self) -> (r: &str)
        ensures
            r@ == self@.ticker,
    {
        self.ticker.as_str()
    }

    /// The number of bid price levels.
    pub fn bids(&self) -> (r: usize)
        requires
            self.wf(),
        ensures
            r == self@.bids.dom().len(),
    {
        self.bids.len()
    }

    /// The number of ask price levels.
    pub fn asks(&self) -> (r: usize)
        requires
            self.wf(),
        ensures
            r == self@.asks.dom().len(),
    {
        self.asks.len()
    }

    fn table(&self, side: Side) -> (r: &SideTable)
        ensures
            r@ == self@.table(side),
            r.wf() == match side {
                Side::Buy => self.bids.wf(),
                Side::Sell => self.asks.wf(),
            },
    {
        match side {
            Side::Buy => &self.bids,
            Side::Sell => &self.asks,
        }
    }

    fn best(&self, side: Side) -> (r: u32)
        ensures
            r == self@.best(side),
    {
        match side {
            Side::Buy => self.max_bid,
            Side::Sell => self.min_ask,
        }
    }

    fn set_best(&mut self, side: Side, p: u32)
        ensures
            final(self)@ == old(self)@.with_side(side, old(self)@.table(side), p),
            final(self).bids == old(self).bids,
            final(self).asks == old(self).asks,
    {
        match side {
            Side::Buy => self.max_bid = p,
            Side::Sell => self.min_ask = p,
        }
    }

    fn add_to(&mut self, side: Side, o: Order)
        requires
            old(self).tables_wf(),
        ensures
            final(self).tables_wf(),
            final(self)@ == old(self)@.with_side(
                side,
                add_order(old(self)@.table(side), o),
                old(self)@.best(side),
            ),
    {
        match side {
            Side::Buy => self.bids.add(o),
            Side::Sell => self.asks.add(o),
        }
    }

    /// Whether a new order on `side` would rest rather than meet the other side.
    fn rests(&self, side: Side, o: &Order) -> (r: bool)
        requires
            self.tables_wf(),
        ensures
            r == self@.rests(side, *o),
    {
        let opp_side = opposite(side);
        let opp_best = self.best(opp_side);
        let crossing = match side {
            Side::Buy => o.price >= opp_best,
            Side::Sell => o.price <= opp_best,
        };
        !(!self.table(opp_side).is_empty() && crossing)
    }

    /// Whether the book can take `action`: a new order needs a positive price,
    /// and where it rests, its bucket's total must still fit in a `u32`.
    pub fn admits(&self, action: &UserAction) -> (r: bool)
        requires
            self.wf(),
        ensures
            r == self@.admits(action@),
    {
        match action {
            UserAction::NewOrder { user_id, price, qty, side, order_id, .. } => {
                let side = Side::new(side.clone());
                let o = Order::new(*user_id, *price, *qty, *order_id);
                if *price == 0 {
                    return false;
                }
                if !self.rests(side, &o) {
                    return true;
                }
                let total = self.table(side).total_at(*price);
                total as u64 + *qty as u64 <= u32::MAX as u64
            },
            _ => true,
        }
    }

    /// Applies a new order on `side`.
    fn new_order(&mut self, side: Side, order: Order) -> (r: Responses)
        requires
            old(self).wf(),
            old(self)@.admits_order(side, order),
        ensures
            final(self).wf(),
            (final(self)@, responses_view(r)) == new_order_step(old(self)@, side, order),
    {
        let ghost b = self@;
        proof {
            lemma_new_order_wf(b, side, order);
            self.bids.lemma_view_wf();
            self.asks.lemma_view_wf();
        }
        let opp_side = opposite(side);
        if !self.rests(side, &order) {
            if !self.trade_active {
                return (Some(order.reject()), None);
            }
            let taken = match opp_side {
                Side::Buy => self.bids.take_qty(order.price, order.qty),
                Side::Sell => self.asks.take_qty(order.price, order.qty),
            };
            match taken {
                Some(resting) => {
                    let trade = match side {
                        Side::Buy => Trade::new(order, resting),
                        Side::Sell => Trade::new(resting, order),
                    };
                    let resp = trade.get_trade_response();
                    self.trades.push(trade);
                    let nb = match opp_side {
                        Side::Buy => self.bids.max_price(),
                        Side::Sell => self.asks.min_price(),
                    };
                    self.set_best(opp_side, nb);
                    (Some(order.ack()), Some(resp))
                },
                None => (Some(order.reject()), None),
            }
        } else {
            let improves = match side {
                Side::Buy => self.max_bid == 0 || order.price >= self.max_bid,
                Side::Sell => self.min_ask == 0 || order.price <= self.min_ask,
            };
            self.add_to(side, order);
            if improves {
                self.set_best(side, order.price);
                proof {
                    self.bids.lemma_view_wf();
                    self.asks.lemma_view_wf();
                    lemma_add_order(b.table(side), order);
                }
                let total = self.table(side).total_at(order.price);
                (Some(order.ack()), Some(best_response(side, order.price, total)))
            } else {
                (Some(order.ack()), None)
            }
        }
    }

    /// Reports a cancellation of the order at position `k` of the bucket at `p`
    /// on `side` of `b`, which this book is `b` without that order.
    fn settle_cancel(
        &mut self,
        side: Side,
        p: u32,
        user_id: u32,
        order_id: u32,
        Ghost(b): Ghost<BookView>,
        Ghost(k): Ghost<int>,
    ) -> (r: Responses)
        requires
            old(self).tables_wf(),
            b.wf(),
            b.table(side).contains_key(p),
            0 <= k < b.table(side)[p].len(),
            old(self)@ == b.with_side(side, remove_at(b.table(side), p, k), b.best(side)),
        ensures
            final(self).wf(),
            (final(self)@, responses_view(r)) == cancel_at(b, side, p, k, user_id, order_id),
    {
        proof {
            lemma_cancel_at_wf(b, side, p, k, user_id, order_id);
            lemma_remove_at(b.table(side), p, k);
        }
        let ack = Response::Acknowledge { user_id, order_id };
        if p != self.best(side) {
            return (Some(ack), None);
        }
        if self.table(side).contains(p) {
            proof {
                self.bids.lemma_view_wf();
                self.asks.lemma_view_wf();
            }
            let total = self.table(side).total_at(p);
            (Some(ack), Some(best_response(side, p, total)))
        } else {
            let nb = match side {
                Side::Buy => self.bids.max_price(),
                Side::Sell => self.asks.min_price(),
            };
            self.set_best(side, nb);
            let total = self.table(side).total_at(nb);
            (Some(ack), Some(best_response(side, nb, total)))
        }
    }

    /// Cancels the order with these identifiers, looking among the asks first.
    fn cancel_order(&mut self, user_id: u32, order_id: u32) -> (r: Responses)
        requires
            old(self).wf(),
        ensures
            final(self).wf(),
            (final(self)@, responses_view(r)) == cancel_step(old(self)@, user_id, order_id),
    {
        let ghost b = self@;
        let ghost f = has_id(user_id, order_id);
        proof {
            lemma_cancel_wf(b, user_id, order_id);
            self.bids.lemma_view_wf();
            self.asks.lemma_view_wf();
        }
        match self.asks.take_id(user_id, order_id) {
            Some(o) => {
                let ghost p = first_level(b.asks, f)->0;
                let ghost k = first_index(b.asks[p], f)->0;
                proof {
                    lemma_first_exists(b.asks[p], f);
                }
                return self.settle_cancel(Side::Sell, o.price, user_id, order_id, Ghost(b), Ghost(k));
            },
            None => {},
        }
        match self.bids.take_id(user_id, order_id) {
            Some(o) => {
                let ghost p = first_level(b.bids, f)->0;
                let ghost k = first_index(b.bids[p], f)->0;
                proof {
                    lemma_first_exists(b.bids[p], f);
                }
                self.settle_cancel(Side::Buy, o.price, user_id, order_id, Ghost(b), Ghost(k))
            },
            None => (Some(Response::Reject { user_id, order_id }), None),
        }
    }

    /// Empties both tables and the ticker.
    fn flush(&mut self)
        requires
            old(self).wf(),
        ensures
            final(self).wf(),
            final(self)@ == flush_step(old(self)@),
    {
        self.max_bid = 0;
        self.min_ask = 0;
        self.ticker = String::new();
        self.asks.clear();
        self.bids.clear();
        proof {
            lemma_step_wf(old(self)@, UserActionView::Flush);
        }
    }

    /// Applies one action and returns its responses.
    pub fn new_user_action(&mut self, action: UserAction) -> (r: Responses)
        requires
            old(self).wf(),
            old(self)@.admits(action@),
        ensures
            final(self).wf(),
            (final(self)@, responses_view(r)) == step(old(self)@, action@),
    {
        match action {
            UserAction::NewOrder { user_id, symbol: _, price, qty, side, order_id } => {
                self.new_order(Side::new(side), Order::new(user_id, price, qty, order_id))
            },
            UserAction::CancelOrder { user_id, order_id } => self.cancel_order(user_id, order_id),
            UserAction::Flush => {
                self.flush();
                (None, None)
            },
        }
    }
}

} // verus!
