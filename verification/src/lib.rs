//! A lightweight markup to HTML converter: a recursive-descent,
//! backtracking-free parser turns a byte buffer into a document tree, and a
//! pure post-order walk serializes that tree into HTML.

pub mod arena;
pub mod cursor;
pub mod doc;
pub mod grammar;
pub mod html;
pub mod laws;
pub mod parser;
pub mod sink;
