//! A gap buffer for UTF-8 text, with an index from character counts to byte
//! counts.
//!
//! The buffer stores its text in one byte array with a movable gap at the
//! point of editing. Beside it stands a balanced tree of `(bytes, chars)` sums
//! over chunks of the text, which turns a character offset into a byte offset
//! without scanning the text from its start.
//!
//! Beside the buffer stand a few pieces of the editor that uses it: format
//! strings, regular expressions in the Lisp style, and strings of single
//! bytes.
pub mod buffer;
pub mod character;
pub mod chunks;
pub mod edit;
mod eq;
mod from;
pub mod index;
pub mod message;
pub mod metric;
pub mod search;
pub mod text;
mod wrappers;
