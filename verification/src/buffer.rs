//! An open buffer: a document with its history, its cursors and its file.

use crate::piece_table::graphemes::grapheme_clusters;
use crate::piece_table::model::TableView;
use crate::text::{root_change, Text};
use vstd::prelude::*;

verus! {

/// A selection: `length` clusters from `position` on. A bare cursor has
/// length 0.
pub struct Cursor {
    pub position: usize,
    pub length: usize,
}

/// A document with its history, the cursors that edit it, and the file it
/// belongs to, if any.
pub struct Buffer {
    file_path: Option<String>,
    cursors: Vec<Cursor>,
    text: Text,
}

impl Buffer {
    /// The document and its history.
    pub closed spec fn content(&self) -> Text {
        self.text
    }

    /// The cursors, in order.
    pub closed spec fn cursors(&self) -> Seq<Cursor> {
        self.cursors@
    }

    /// The path of the file that the buffer belongs to, if it has one.
    pub closed spec fn file_path(&self) -> Option<String> {
        self.file_path
    }

    /// Whether document and history are well formed and in step.
    pub open spec fn wf(&self) -> bool {
        self.content().wf()
    }

    /// A buffer over `content` that belongs to no file, with one cursor at
    /// the start and a history that holds nothing but the root: a change that
    /// changes nothing.
    pub fn new(content: &str) -> (buffer: Self)
        ensures
            buffer.wf(),
            buffer.file_path() is None,
            buffer.cursors() == seq![Cursor { position: 0, length: 0 }],
            buffer.content().table() == TableView::initial(grapheme_clusters(content@)),
            buffer.content().table().text() == content@,
            buffer.content().table().len() <= content@.len(),
            buffer.content().changes().nodes.len() == 1,
            buffer.content().changes().current == 0,
            buffer.content().changes().nodes[0].payload@ == root_change(buffer.content().table()),
    {
        let cursor = Cursor { position: 0, length: 0 };
        let mut cursors = Vec::new();
        cursors.push(cursor);
        Buffer { file_path: None, cursors, text: Text::new(content) }
    }

    /// The document and its history.
    pub fn text(&self) -> (text: &Text)
        ensures
            *text == self.content(),
    {
        &self.text
    }

    /// The cursors, in order.
    pub fn cursor_list(&self) -> (cursors: &Vec<Cursor>)
        ensures
            cursors@ == self.cursors(),
    {
        &self.cursors
    }

    /// Whether the buffer belongs to a file.
    pub fn has_file(&self) -> (found: bool)
        ensures
            found == self.file_path() is Some,
    {
        self.file_path.is_some()
    }
}

} // verus!
