//! Orders, trades, user actions and responses, with their mathematical views.

use vstd::prelude::*;

verus! {

/// The direction of an order.
#[derive(Clone, Copy, Debug, PartialEq, Eq, Structural)]
pub enum Side {
    Buy,
    Sell,
}

/// A side tag read from text: anything that starts with `B` is a buy, the rest sells.
pub open spec fn side_of(s: Seq<char>) -> Side {
    if s.len() > 0 && s[0] == 'B' {
        Side::Buy
    } else {
        Side::Sell
    }
}

/// The one-letter tag of a side, as it appears in a top-of-book response.
pub open spec fn side_letter(side: Side) -> Seq<char> {
    match side {
        Side::Buy => seq!['B'],
        Side::Sell => seq!['S'],
    }
}

impl Side {
    pub open spec fn opposite(self) -> Side {
        match self {
            Side::Buy => Side::Sell,
            Side::Sell => Side::Buy,
        }
    }

    /// Reads a side tag.
    pub fn new(s: String) -> (r: Side)
        ensures
            r == side_of(s@),
    {
        let t = s.as_str();
        if t.unicode_len() > 0 && t.get_char(0) == 'B' {
            Side::Buy
        } else {
            Side::Sell
        }
    }
}

/// A resting limit order. The side is implied by the table that holds it.
#[derive(Clone, Copy, Debug, PartialEq, Eq, Structural)]
pub struct Order {
    pub user_id: u32,
    pub order_id: u32,
    pub price: u32,
    pub qty: u32,
}

/// A matched pair of orders.
#[derive(Clone, Copy, Debug, PartialEq, Eq, Structural)]
pub struct Trade {
    pub buyer_id: u32,
    pub buyer_order_id: u32,
    pub seller_id: u32,
    pub seller_order_id: u32,
    pub price: u32,
    pub qty: u32,
}

/// What the book answers to an action.
#[derive(Debug, PartialEq, Eq)]
pub enum Response {
    /// The action was accepted.
    Acknowledge { user_id: u32, order_id: u32 },
    /// The top of book of one side changed: its price and the total quantity resting
    /// there (both 0 when the side became empty).
    Best { side: String, price: u32, qty: u32 },
    /// The action was refused.
    Reject { user_id: u32, order_id: u32 },
    /// An incoming order matched a resting one.
    Trade {
        buyer_id: u32,
        buyer_order_id: u32,
        seller_id: u32,
        seller_order_id: u32,
        price: u32,
        qty: u32,
    },
}

/// The mathematical value of a [`Response`].
pub enum ResponseView {
    Acknowledge { user_id: u32, order_id: u32 },
    Best { side: Seq<char>, price: u32, qty: u32 },
    Reject { user_id: u32, order_id: u32 },
    Trade {
        buyer_id: u32,
        buyer_order_id: u32,
        seller_id: u32,
        seller_order_id: u32,
        price: u32,
        qty: u32,
    },
}

impl View for Response {
    type V = ResponseView;

    open spec fn view(&self) -> ResponseView {
        match self {
            Response::Acknowledge { user_id, order_id } => ResponseView::Acknowledge {
                user_id: *user_id,
                order_id: *order_id,
            },
            Response::Best { side, price, qty } => ResponseView::Best {
                side: side@,
                price: *price,
                qty: *qty,
            },
            Response::Reject { user_id, order_id } => ResponseView::Reject {
                user_id: *user_id,
                order_id: *order_id,
            },
            Response::Trade {
                buyer_id,
                buyer_order_id,
                seller_id,
                seller_order_id,
                price,
                qty,
            } => ResponseView::Trade {
                buyer_id: *buyer_id,
                buyer_order_id: *buyer_order_id,
                seller_id: *seller_id,
                seller_order_id: *seller_order_id,
                price: *price,
                qty: *qty,
            },
        }
    }
}

/// The pair of responses to one action: acknowledgement or rejection first,
/// then a top-of-book or trade report.
pub type Responses = (Option<Response>, Option<Response>);

pub type ResponsesView = (Option<ResponseView>, Option<ResponseView>);

pub open spec fn opt_view(r: Option<Response>) -> Option<ResponseView> {
    match r {
        Some(x) => Some(x@),
        None => None,
    }
}

pub open spec fn responses_view(r: Responses) -> ResponsesView {
    (opt_view(r.0), opt_view(r.1))
}

/// An action on the book.
pub enum UserAction {
    /// A new day limit order; `side` is a tag read by [`Side::new`].
    NewOrder { user_id: u32, symbol: String, price: u32, qty: u32, side: String, order_id: u32 },
    /// Cancel the resting order with these identifiers.
    CancelOrder { user_id: u32, order_id: u32 },
    /// Empty the book.
    Flush,
}

/// The mathematical value of a [`UserAction`].
pub enum UserActionView {
    NewOrder {
        user_id: u32,
        symbol: Seq<char>,
        price: u32,
        qty: u32,
        side: Seq<char>,
        order_id: u32,
    },
    CancelOrder { user_id: u32, order_id: u32 },
    Flush,
}

impl View for UserAction {
    type V = UserActionView;

    open spec fn view(&self) -> UserActionView {
        match self {
            UserAction::NewOrder { user_id, symbol, price, qty, side, order_id } =>
                UserActionView::NewOrder {
                user_id: *user_id,
                symbol: symbol@,
                price: *price,
                qty: *qty,
                side: side@,
                order_id: *order_id,
            },
            UserAction::CancelOrder { user_id, order_id } => UserActionView::CancelOrder {
                user_id: *user_id,
                order_id: *order_id,
            },
            UserAction::Flush => UserActionView::Flush,
        }
    }
}

pub open spec fn ack_view(user_id: u32, order_id: u32) -> ResponseView {
    ResponseView::Acknowledge { user_id, order_id }
}

pub open spec fn reject_view(user_id: u32, order_id: u32) -> ResponseView {
    ResponseView::Reject { user_id, order_id }
}

pub open spec fn best_view(side: Side, price: u32, qty: u32) -> ResponseView {
    ResponseView::Best { side: side_letter(side), price, qty }
}

pub open spec fn trade_view(t: Trade) -> ResponseView {
    ResponseView::Trade {
        buyer_id: t.buyer_id,
        buyer_order_id: t.buyer_order_id,
        seller_id: t.seller_id,
        seller_order_id: t.seller_order_id,
        price: t.price,
        qty: t.qty,
    }
}

impl Order {
    pub fn new(user_id: u32, price: u32, qty: u32, order_id: u32) -> (r: Order)
        ensures
            r == (Order { user_id, order_id, price, qty }),
    {
        Order { user_id, order_id, price, qty }
    }

    pub fn price(&self) -> (r: u32)
        ensures
            r == self.price,
    {
        self.price
    }

    pub fn qty(&self) -> (r: u32)
        ensures
            r == self.qty,
    {
        self.qty
    }

    /// The acknowledgement of this order.
    pub fn ack(&self) -> (r: Response)
        ensures
            r@ == ack_view(self.user_id, self.order_id),
    {
        Response::Acknowledge { user_id: self.user_id, order_id: self.order_id }
    }

    /// The rejection of this order.
    pub fn reject(&self) -> (r: Response)
        ensures
            r@ == reject_view(self.user_id, self.order_id),
    {
        Response::Reject { user_id: self.user_id, order_id: self.order_id }
    }
}

/// A top-of-book response for `side`.
pub fn best_response(side: Side, price: u32, qty: u32) -> (r: Response)
    ensures
        r@ == best_view(side, price, qty),
{
    let letter = match side {
        Side::Buy => {
            proof {
                reveal_strlit("B");
            }
            String::from_str("B")
        },
        Side::Sell => {
            proof {
                reveal_strlit("S");
            }
            String::from_str("S")
        },
    };
    assert(letter@ =~= side_letter(side));
    Response::Best { side: letter, price, qty }
}

impl Trade {
    /// The trade between a buy order `o1` and a sell order `o2`, at the buy
    /// order's price and quantity.
    pub fn new(o1: Order, o2: Order) -> (r: Trade)
        ensures
            r == (Trade {
                buyer_id: o1.user_id,
                buyer_order_id: o1.order_id,
                seller_id: o2.user_id,
                seller_order_id: o2.order_id,
                price: o1.price,
                qty: o1.qty,
            }),
    {
        Trade {
            buyer_id: o1.user_id,
            buyer_order_id: o1.order_id,
            seller_id: o2.user_id,
            seller_order_id: o2.order_id,
            price: o1.price,
            qty: o1.qty,
        }
    }

    /// The response that reports this trade.
    pub fn get_trade_response(&self) -> (r: Response)
        ensures
            r@ == trade_view(*self),
    {
        Response::Trade {
            buyer_id: self.buyer_id,
            buyer_order_id: self.buyer_order_id,
            seller_id: self.seller_id,
            seller_order_id: self.seller_order_id,
            price: self.price,
            qty: self.qty,
        }
    }
}

} // verus!
