//! A text buffer built on a piece table, with a reversible change log and a
//! branching undo/redo history.
//!
//! Every position, length and offset in this crate counts extended grapheme
//! clusters, never bytes or code points.
//!
//! - [`piece_table`]: the document as spans over two append-only buffers, its
//!   edits and the changes they produce, its lines and the matches of a
//!   pattern in it.
//! - [`history`]: a tree of recorded steps with one current position.
//! - [`text`]: a document together with the history of its changes.
//! - [`buffer`]: a text with cursors and a file.

pub mod buffer;
pub mod history;
pub mod piece_table;
pub mod text;
