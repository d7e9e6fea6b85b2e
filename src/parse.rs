//! Reading actions from input lines.
//!
//! A line is `N, <user>, <symbol>, <price>, <qty>, <B|S>, <order>`,
//! `C, <user>, <order>` or `F`; any other line stands for no action.

use vstd::prelude::*;
use crate::order::{UserAction, UserActionView};

verus! {

/// The text of each group of the leftmost match of a regular expression in a
/// text, the whole match first; None where the expression does not compile or
/// does not match.
pub uninterp spec fn regex_groups(pattern: Seq<char>, text: Seq<char>) -> Option<Seq<Seq<char>>>;

/// Relies on `regex::Regex::new` to compile `pattern` and on
/// `regex::Regex::captures` for the groups of its leftmost match in `text`
/// (a group that took no part reads as empty).
#[verifier::external_body]
fn capture_groups(pattern: &str, text: &str) -> (r: Option<Vec<String>>)
    ensures
        r is None ==> regex_groups(pattern@, text@) is None,
        r is Some ==> regex_groups(pattern@, text@) == Some(r->0.deep_view()),
{
    let re = regex::Regex::new(pattern).ok()?;
    let caps = re.captures(text)?;
    Some(caps.iter().map(|m| m.map_or(String::new(), |m| m.as_str().to_string())).collect())
}

pub open spec fn is_digit(c: char) -> bool {
    '0' <= c && c <= '9'
}

/// The number that a string of decimal digits spells.
pub open spec fn digits_value(s: Seq<char>) -> nat
    decreases s.len(),
{
    if s.len() == 0 {
        0
    } else {
        digits_value(s.drop_last()) * 10 + (s.last() as nat - '0' as nat) as nat
    }
}

/// A non-empty string of decimal digits whose value fits in a `u32`.
pub open spec fn decimal_u32(s: Seq<char>) -> Option<u32> {
    if s.len() > 0 && (forall|i: int| 0 <= i < s.len() ==> is_digit(#[trigger] s[i]))
        && digits_value(s) <= u32::MAX {
        Some(digits_value(s) as u32)
    } else {
        None
    }
}

pub open spec fn new_order_pattern() -> Seq<char> {
    "^N, ([0-9]+), ([[:alpha:]]+), ([0-9]+), ([0-9]+), ([BS]), ([0-9]+)"@
}

pub open spec fn cancel_pattern() -> Seq<char> {
    "^C, ([0-9]+), ([0-9]+)"@
}

/// The new order that the groups of a match of [`new_order_pattern`] describe.
pub open spec fn new_order_from(g: Seq<Seq<char>>) -> Option<UserActionView> {
    if g.len() == 7 && decimal_u32(g[1]) is Some && decimal_u32(g[3]) is Some && decimal_u32(
        g[4],
    ) is Some && decimal_u32(g[6]) is Some {
        Some(
            UserActionView::NewOrder {
                user_id: decimal_u32(g[1])->0,
                symbol: g[2],
                price: decimal_u32(g[3])->0,
                qty: decimal_u32(g[4])->0,
                side: g[5],
                order_id: decimal_u32(g[6])->0,
            },
        )
    } else {
        None
    }
}

/// The cancel that the groups of a match of [`cancel_pattern`] describe.
pub open spec fn cancel_from(g: Seq<Seq<char>>) -> Option<UserActionView> {
    if g.len() == 3 && decimal_u32(g[1]) is Some && decimal_u32(g[2]) is Some {
        Some(
            UserActionView::CancelOrder {
                user_id: decimal_u32(g[1])->0,
                order_id: decimal_u32(g[2])->0,
            },
        )
    } else {
        None
    }
}

/// The action of a line, by its first character.
pub open spec fn line_action(line: Seq<char>) -> Option<UserActionView> {
    if line.len() > 0 && line[0] == 'N' {
        match regex_groups(new_order_pattern(), line) {
            Some(g) => new_order_from(g),
            None => None,
        }
    } else if line.len() > 0 && line[0] == 'C' {
        match regex_groups(cancel_pattern(), line) {
            Some(g) => cancel_from(g),
            None => None,
        }
    } else if line.len() > 0 && line[0] == 'F' {
        Some(UserActionView::Flush)
    } else {
        None
    }
}

pub open spec fn action_view(a: Option<UserAction>) -> Option<UserActionView> {
    match a {
        Some(x) => Some(x@),
        None => None,
    }
}

proof fn lemma_digits_grow(s: Seq<char>, i: int)
    requires
        0 <= i <= s.len(),
    ensures
        digits_value(s.subrange(0, i)) <= digits_value(s),
    decreases s.len() - i,
{
    if i < s.len() {
        lemma_digits_grow(s, i + 1);
        assert(s.subrange(0, i + 1).drop_last() =~= s.subrange(0, i));
    } else {
        assert(s.subrange(0, i) =~= s);
    }
}

/// Reads a decimal `u32`.
pub fn parse_decimal(s: &str) -> (r: Option<u32>)
    ensures
        r == decimal_u32(s@),
{
    let n = s.unicode_len();
    if n == 0 {
        return None;
    }
    let mut v: u32 = 0;
    let mut i: usize = 0;
    while i < n
        invariant
            n == s@.len(),
            i <= n,
            v == digits_value(s@.subrange(0, i as int)),
            forall|j: int| 0 <= j < i ==> is_digit(#[trigger] s@[j]),
        decreases n - i,
    {
        let c = s.get_char(i);
        if !('0' <= c && c <= '9') {
            return None;
        }
        let d = (c as u32 - '0' as u32) as u64;
        let next = v as u64 * 10 + d;
        proof {
            assert(s@.subrange(0, i + 1).drop_last() =~= s@.subrange(0, i as int));
            lemma_digits_grow(s@, i + 1);
        }
        if next > u32::MAX as u64 {
            return None;
        }
        v = next as u32;
        i = i + 1;
    }
    proof {
        assert(s@.subrange(0, n as int) =~= s@);
    }
    Some(v)
}

/// The new order that the groups of a match of [`new_order_pattern`] describe,
/// None where a number does not fit in a `u32`.
pub fn new_order_from_groups(g: &Vec<String>) -> (r: Option<UserAction>)
    ensures
        action_view(r) == new_order_from(g.deep_view()),
{
    if g.len() != 7 {
        return None;
    }
    let user_id = parse_decimal(g[1].as_str());
    let price = parse_decimal(g[3].as_str());
    let qty = parse_decimal(g[4].as_str());
    let order_id = parse_decimal(g[6].as_str());
    match (user_id, price, qty, order_id) {
        (Some(user_id), Some(price), Some(qty), Some(order_id)) => Some(
            UserAction::NewOrder {
                user_id,
                symbol: g[2].clone(),
                price,
                qty,
                side: g[5].clone(),
                order_id,
            },
        ),
        _ => None,
    }
}

/// The cancel that the groups of a match of [`cancel_pattern`] describe, None
/// where a number does not fit in a `u32`.
pub fn cancel_from_groups(g: &Vec<String>) -> (r: Option<UserAction>)
    ensures
        action_view(r) == cancel_from(g.deep_view()),
{
    if g.len() != 3 {
        return None;
    }
    let user_id = parse_decimal(g[1].as_str());
    let order_id = parse_decimal(g[2].as_str());
    match (user_id, order_id) {
        (Some(user_id), Some(order_id)) => Some(UserAction::CancelOrder { user_id, order_id }),
        _ => None,
    }
}

/// The action that an input line describes, if any.
pub fn parse_line(line: &str) -> (r: Option<UserAction>)
    ensures
        action_view(r) == line_action(line@),
{
    let n = line.unicode_len();
    if n == 0 {
        return None;
    }
    let first = line.get_char(0);
    if first == 'N' {
        match capture_groups("^N, ([0-9]+), ([[:alpha:]]+), ([0-9]+), ([0-9]+), ([BS]), ([0-9]+)", line) {
            Some(g) => new_order_from_groups(&g),
            None => None,
        }
    } else if first == 'C' {
        match capture_groups("^C, ([0-9]+), ([0-9]+)", line) {
            Some(g) => cancel_from_groups(&g),
            None => None,
        }
    } else if first == 'F' {
        Some(UserAction::Flush)
    } else {
        None
    }
}

} // verus!
