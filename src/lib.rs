//! A single-symbol limit order book: resting bids and asks indexed by price,
//! an acceptance policy for new orders, cancellation, flush, and the
//! acknowledgement / top-of-book / trade responses that each action produces.
//! Every executable item is verified against a mathematical model of the book.

pub mod order;
pub mod side_table;
pub mod model;
pub mod book;
pub mod laws;
pub mod parse;
pub mod text;

pub use book::OrderBook;
pub use order::{Response, Responses, Side, UserAction};
pub use parse::parse_line;
