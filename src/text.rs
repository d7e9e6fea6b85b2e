//! The text form of responses: one line each.

use vstd::prelude::*;
use crate::order::{Response, ResponseView};

verus! {

pub open spec fn digit_char(d: nat) -> char {
    if d == 0 {
        '0'
    } else if d == 1 {
        '1'
    } else if d == 2 {
        '2'
    } else if d == 3 {
        '3'
    } else if d == 4 {
        '4'
    } else if d == 5 {
        '5'
    } else if d == 6 {
        '6'
    } else if d == 7 {
        '7'
    } else if d == 8 {
        '8'
    } else {
        '9'
    }
}

/// The decimal digits of `n`, without leading zeros.
pub open spec fn decimal(n: nat) -> Seq<char>
    decreases n,
{
    if n < 10 {
        seq![digit_char(n)]
    } else {
        decimal(n / 10).push(digit_char(n % 10))
    }
}

/// A price or a quantity in a top-of-book line: `-` stands for 0.
pub open spec fn level_field(n: u32) -> Seq<char> {
    if n == 0 {
        seq!['-']
    } else {
        decimal(n as nat)
    }
}

pub open spec fn sep() -> Seq<char> {
    seq![',', ' ']
}

/// The line that renders a response.
pub open spec fn response_line(r: ResponseView) -> Seq<char> {
    match r {
        ResponseView::Acknowledge { user_id, order_id } => seq!['A'] + sep() + decimal(
            user_id as nat,
        ) + sep() + decimal(order_id as nat),
        ResponseView::Best { side, price, qty } => seq!['B'] + sep() + side + sep() + level_field(
            price,
        ) + sep() + level_field(qty),
        ResponseView::Reject { user_id, order_id } => seq!['R'] + sep() + decimal(user_id as nat)
            + sep() + decimal(order_id as nat),
        ResponseView::Trade {
            buyer_id,
            buyer_order_id,
            seller_id,
            seller_order_id,
            price,
            qty,
        } => seq!['T'] + sep() + decimal(buyer_id as nat) + sep() + decimal(buyer_order_id as nat)
            + sep() + decimal(seller_id as nat) + sep() + decimal(seller_order_id as nat) + sep()
            + decimal(price as nat) + sep() + decimal(qty as nat),
    }
}

fn digit_str(d: u32) -> (r: &'static str)
    requires
        d < 10,
    ensures
        r@ == seq![digit_char(d as nat)],
{
    if d == 0 {
        proof { reveal_strlit("0"); }
        "0"
    } else if d == 1 {
        proof { reveal_strlit("1"); }
        "1"
    } else if d == 2 {
        proof { reveal_strlit("2"); }
        "2"
    } else if d == 3 {
        proof { reveal_strlit("3"); }
        "3"
    } else if d == 4 {
        proof { reveal_strlit("4"); }
        "4"
    } else if d == 5 {
        proof { reveal_strlit("5"); }
        "5"
    } else if d == 6 {
        proof { reveal_strlit("6"); }
        "6"
    } else if d == 7 {
        proof { reveal_strlit("7"); }
        "7"
    } else if d == 8 {
        proof { reveal_strlit("8"); }
        "8"
    } else {
        proof { reveal_strlit("9"); }
        "9"
    }
}

/// Appends the decimal digits of `n`.
fn push_decimal(out: &mut String, n: u32)
    ensures
        final(out)@ == old(out)@ + decimal(n as nat),
    decreases n,
{
    if n >= 10 {
        push_decimal(out, n / 10);
    }
    out.append(digit_str(n % 10));
    proof {
        assert(final(out)@ =~= old(out)@ + decimal(n as nat));
    }
}

fn push_level_field(out: &mut String, n: u32)
    ensures
        final(out)@ == old(out)@ + level_field(n),
{
    if n == 0 {
        proof { reveal_strlit("-"); }
        out.append("-");
        proof {
            assert(final(out)@ =~= old(out)@ + level_field(n));
        }
    } else {
        push_decimal(out, n);
    }
}

fn push_sep(out: &mut String)
    ensures
        final(out)@ == old(out)@ + sep(),
{
    proof { reveal_strlit(", "); }
    out.append(", ");
    proof {
        assert(final(out)@ =~= old(out)@ + sep());
    }
}

impl Response {
    /// The line that reports this response, such as `A, 1, 2` or `B, S, -, -`.
    pub fn render(&self) -> (r: String)
        ensures
            r@ == response_line(self@),
    {
        let mut out = String::new();
        match self {
            Response::Acknowledge { user_id, order_id } => {
                proof { reveal_strlit("A"); }
                out.append("A");
                push_sep(&mut out);
                push_decimal(&mut out, *user_id);
                push_sep(&mut out);
                push_decimal(&mut out, *order_id);
            },
            Response::Best { side, price, qty } => {
                proof { reveal_strlit("B"); }
                out.append("B");
                push_sep(&mut out);
                out.append(side.as_str());
                push_sep(&mut out);
                push_level_field(&mut out, *price);
                push_sep(&mut out);
                push_level_field(&mut out, *qty);
            },
            Response::Reject { user_id, order_id } => {
                proof { reveal_strlit("R"); }
                out.append("R");
                push_sep(&mut out);
                push_decimal(&mut out, *user_id);
                push_sep(&mut out);
                push_decimal(&mut out, *order_id);
            },
            Response::Trade {
                buyer_id,
                buyer_order_id,
                seller_id,
                seller_order_id,
                price,
                qty,
            } => {
                proof { reveal_strlit("T"); }
                out.append("T");
                push_sep(&mut out);
                push_decimal(&mut out, *buyer_id);
                push_sep(&mut out);
                push_decimal(&mut out, *buyer_order_id);
                push_sep(&mut out);
                push_decimal(&mut out, *seller_id);
                push_sep(&mut out);
                push_decimal(&mut out, *seller_order_id);
                push_sep(&mut out);
                push_decimal(&mut out, *price);
                push_sep(&mut out);
                push_decimal(&mut out, *qty);
            },
        }
        proof {
            assert(out@ =~= response_line(self@));
        }
        out
    }
}

} // verus!
