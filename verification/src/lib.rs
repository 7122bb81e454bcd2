//! A limit order book that matches by price and time.
//!
//! Prices and amounts are IEEE 754 binary64 numbers, held by their bit
//! patterns (`binary64`). `side` keeps one side of the book, `matching` trades
//! an incoming order with it, `book` is the book itself, `laws` states what it
//! keeps over several calls, and `session` decides what a client connection
//! does next.

pub mod binary64;
pub mod book;
pub mod laws;
pub mod matching;
pub mod order;
pub mod session;
pub mod side;
