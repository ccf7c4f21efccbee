//! Piece table: the document as an ordered run of spans over two append-only
//! content buffers.

pub mod content;
pub mod graphemes;
pub mod laws;
pub mod lemmas;
pub mod line_iter;
pub mod match_iter;
pub mod model;
pub mod span;

use self::content::{read_bounds, Content, Source};
use self::graphemes::{
    all_nonempty, grapheme_clusters, is_line_break, is_line_break_cluster, lemma_units_count,
    split_graphemes, texts,
};
use self::lemmas::{
    lemma_address, lemma_change_shape, lemma_edit_addresses, lemma_index_unique,
    lemma_initial, lemma_read_bounds, lemma_replaced, lemma_total_concat, lemma_total_take,
    lemma_total_take_next, lemma_units_within,
};
use self::line_iter::LineIter;
use self::match_iter::{MatchIter, SearchView};
use self::model::{is_edit_of, spliced, total_length, ChangeView, Reading, TableView};
use self::span::{clone_span_range, clone_spans, span_views, Span};
use regex::Regex;
use vstd::prelude::*;
use vstd::seq_lib::lemma_flatten_concat;

verus! {

/// A place in the document: a span of the sequence and an offset inside it.
/// Addresses are computed from a position on every call and never stored in
/// the table.
#[derive(Clone, Copy, Debug, PartialEq, Eq, Structural)]
pub struct SpanAddress {
    pub index: usize,
    pub offset: usize,
}

/// A reversible edit of the span sequence: applying it puts the spans `new`
/// in place of the spans `old` at `index`, reverting it does the opposite.
#[derive(Debug, PartialEq)]
pub struct Change {
    pub index: usize,
    pub new: Vec<Span>,
    pub old: Vec<Span>,
}

impl View for Change {
    type V = ChangeView;

    open spec fn view(&self) -> ChangeView {
        ChangeView { index: self.index, new: span_views(self.new@), old: span_views(self.old@) }
    }
}

impl Clone for Change {
    fn clone(&self) -> (copy: Self)
        ensures
            copy@ == self@,
    {
        Change { index: self.index, new: clone_spans(&self.new), old: clone_spans(&self.old) }
    }
}

/// An editable document.
pub struct PieceTable {
    original: Content,
    added: Content,
    spans: Vec<Span>,
    extend_spans: bool,
}

impl View for PieceTable {
    type V = TableView;

    closed spec fn view(&self) -> TableView {
        TableView {
            original: self.original.units(),
            added: self.added.units(),
            spans: span_views(self.spans@),
            extend_spans: self.extend_spans,
        }
    }
}

impl PieceTable {
    /// Whether each buffer carries its own tag.
    pub closed spec fn tagged(&self) -> bool {
        self.original.source == Source::Original && self.added.source == Source::Added
    }

    /// Well-formedness: the table's content is well formed (see
    /// [`TableView::wf`]), every span has an address, and the buffers are
    /// tagged.
    pub open spec fn wf(&self) -> bool {
        self@.wf() && self@.indexable() && self.tagged()
    }

    /// A table over `clusters`, each string taken as one cluster, with span
    /// extension off.
    pub fn from_clusters(clusters: Vec<String>) -> (table: Self)
        ensures
            table.wf(),
            table@ == TableView::initial(texts(clusters@)),
            table@.units() == texts(clusters@),
            table@.len() == clusters@.len(),
    {
        let ghost stored = texts(clusters@);
        let mut original_buffer = Content::new(Source::Original);
        let original_span = original_buffer.append_clusters(clusters);
        let added_buffer = Content::new(Source::Added);
        let sentinel_span = Span::new_sentinel();
        let mut spans = Vec::new();
        spans.push(original_span);
        spans.push(sentinel_span);
        let table = PieceTable {
            original: original_buffer,
            added: added_buffer,
            spans,
            extend_spans: false,
        };
        proof {
            assert(table@.original =~= stored);
            assert(stored.len() == table.original.buffer.len());
            assert(table@.spans =~= TableView::initial(stored).spans);
            lemma_initial(stored);
        }
        table
    }

    /// A table over `content`, with span extension off.
    pub fn new(content: String) -> (table: Self)
        ensures
            table.wf(),
            table@ == TableView::initial(grapheme_clusters(content@)),
            table@.units() == grapheme_clusters(content@),
            table@.text() == content@,
            table@.len() <= content@.len(),
    {
        let clusters = split_graphemes(content.as_str());
        proof {
            lemma_units_count(grapheme_clusters(content@));
        }
        Self::from_clusters(clusters)
    }

    /// Switches span extension on or off. With extension on, text inserted
    /// right behind the span that ends the added buffer grows that span
    /// instead of adding one; the document is the same either way.
    pub fn set_extend_spans(&mut self, enabled: bool)
        requires
            old(self).wf(),
        ensures
            final(self).wf(),
            final(self)@ == old(self)@.with_extension(enabled),
            final(self)@.units() == old(self)@.units(),
    {
        self.extend_spans = enabled;
        proof {
            self::lemmas::lemma_units_same_buffers(self@, old(self)@, self@.spans);
        }
    }

    /// The span sequence, sentinel included.
    pub fn spans(&self) -> (spans: &Vec<Span>)
        ensures
            span_views(spans@) == self@.spans,
    {
        &self.spans
    }

    /// The length of the document in clusters.
    pub fn len(&self) -> (length: usize)
        requires
            self.wf(),
        ensures
            length == self@.len(),
    {
        let mut length: usize = 0;
        let mut index: usize = 0;
        proof {
            assert(self@.spans.take(0) =~= Seq::empty());
        }
        while index < self.spans.len()
            invariant
                self.wf(),
                index <= self.spans.len(),
                length == total_length(self@.spans.take(index as int)),
            decreases self.spans.len() - index,
        {
            proof {
                lemma_total_take_next(self@.spans, index as int);
                lemma_total_take(self@.spans, index + 1, self@.spans.len() as int);
            }
            length = length + self.spans[index].length;
            index += 1;
        }
        proof {
            assert(self@.spans.take(index as int) =~= self@.spans);
        }
        length
    }

    /// The text of the part of `span` that starts `offset` clusters into it
    /// and holds at most `limit` clusters, read from the buffer that the
    /// span names.
    pub fn span_as_str(&self, span: &Span, offset: usize, limit: usize) -> (text: String)
        requires
            self.tagged(),
        ensures
            ({
                let stored = self@.content(span.source);
                let (start, end) = read_bounds(span@, offset, limit, stored.len());
                text@ == stored.subrange(start, end).flatten()
            }),
    {
        self.span_content(span).content_for_span(span, offset, limit)
    }

    /// The buffer that `span` points into.
    fn span_content(&self, span: &Span) -> (content: &Content)
        requires
            self.tagged(),
        ensures
            content.units() == self@.content(span.source),
            content.source == span.source,
    {
        match span.source {
            Source::Original => &self.original,
            Source::Added => &self.added,
        }
    }

    /// The address of `position`: the span that holds it and the offset
    /// inside that span. A position at or beyond the end resolves to the
    /// sentinel with offset 0.
    pub fn span_address(&self, position: usize) -> (address: SpanAddress)
        requires
            self.wf(),
        ensures
            address == self@.address(position as int),
    {
        let mut start_span_position: usize = 0;
        let mut index: usize = 0;
        proof {
            assert(self@.spans.take(0) =~= Seq::empty());
        }
        while index < self.spans.len()
            invariant
                self.wf(),
                index <= self.spans.len(),
                start_span_position == total_length(self@.spans.take(index as int)),
                start_span_position <= position,
            decreases self.spans.len() - index,
        {
            proof {
                lemma_total_take_next(self@.spans, index as int);
                lemma_total_take(self@.spans, index + 1, self@.spans.len() as int);
            }
            let end_span_position = start_span_position + self.spans[index].length;
            if position < end_span_position {
                proof {
                    lemma_index_unique(self@.spans, position as int, index as int);
                }
                return SpanAddress { index, offset: position - start_span_position };
            }
            start_span_position = end_span_position;
            index += 1;
        }
        proof {
            assert(self@.spans.take(index as int) =~= self@.spans);
        }
        SpanAddress { index: self.spans.len() - 1, offset: 0 }
    }

    /// The fast path of an edit: when [`TableView::extends`] holds, stores
    /// `clusters` and returns the change that grows the preceding span by
    /// them; otherwise does nothing and hands `clusters` back.
    fn extend_span(
        &mut self,
        start_address: &SpanAddress,
        end_address: &SpanAddress,
        clusters: Vec<String>,
    ) -> (change: Result<Change, Vec<String>>)
        requires
            old(self).wf(),
            old(self)@.holds(*start_address),
        ensures
            final(self).tagged(),
            change is Ok <==> old(self)@.extends(*start_address, *end_address),
            change is Err ==> final(self)@ == old(self)@ && change->Err_0 == clusters,
            change is Ok ==> {
                let previous = old(self)@.spans[start_address.index - 1];
                &&& final(self)@ == old(self)@.grown(texts(clusters@))
                &&& final(self)@.bounded()
                &&& change->Ok_0@ == (ChangeView {
                    index: (start_address.index - 1) as usize,
                    new: seq![
                        previous.extended(
                            self::content::appended_span(
                                Source::Added,
                                old(self)@.added.len() as usize,
                                texts(clusters@),
                            ),
                        ),
                    ],
                    old: seq![previous],
                })
            },
    {
        if self.extend_spans && start_address.index > 0 && start_address.offset == 0
            && start_address.index == end_address.index && start_address.offset
            == end_address.offset {
            let previous = &self.spans[start_address.index - 1];
            proof {
                assert(self@.valid_span(self@.spans[start_address.index - 1]));
            }
            if previous.source == Source::Added && previous.position + previous.length
                == self.added.buffer.len() {
                let previous_span = previous.clone();
                let ghost stored = texts(clusters@);
                let fresh = self.added.append_clusters(clusters);
                proof {
                    assert(self.added.units().len() == self.added.buffer.len());
                    assert(self.added.buffer.len() == old(self)@.added.len() + stored.len());
                    self::lemmas::lemma_break_offsets(stored);
                    assert(fresh@.breaks() == self::graphemes::break_offsets(stored));
                }
                let new_span = previous_span.extended(&fresh);
                let mut new = Vec::new();
                new.push(new_span);
                let mut old = Vec::new();
                old.push(previous_span);
                let change = Change { index: start_address.index - 1, new, old };
                proof {
                    assert(change@.new =~= seq![new_span@]);
                    assert(change@.old =~= seq![previous_span@]);
                }
                return Ok(change);
            }
        }
        Err(clusters)
    }

    /// Plans the edit that replaces `length` clusters from `position` by
    /// `clusters`: stores `clusters` in the added buffer and returns the
    /// change to apply, without touching the span sequence. An edit that
    /// replaces nothing by nothing touches nothing and gets a change without
    /// spans.
    fn change(&mut self, position: usize, length: usize, clusters: Vec<String>) -> (change: Change)
        requires
            old(self).wf(),
        ensures
            final(self).tagged(),
            final(self)@.bounded(),
            final(self)@ == old(self)@.grown(texts(clusters@)),
            change@ == old(self)@.change_for(position, length, texts(clusters@)),
    {
        let start_address = self.span_address(position);
        let end_address = if length == 0 {
            start_address
        } else if length > usize::MAX - position {
            self.span_address(usize::MAX)
        } else {
            self.span_address(position + length)
        };
        proof {
            lemma_edit_addresses(self@, position, length);
            lemma_address(self@, usize::MAX as int);
            lemma_address(self@, position + length);
            assert(end_address == self@.end_address(position, length));
        }
        let ghost stored = texts(clusters@);
        if length == 0 && clusters.len() == 0 {
            let change = Change { index: start_address.index, new: Vec::new(), old: Vec::new() };
            proof {
                assert(stored =~= Seq::empty());
                assert(self@.added + stored =~= self@.added);
                assert(change@.new =~= Seq::empty());
                assert(change@.old =~= Seq::empty());
            }
            return change;
        }
        let clusters = match self.extend_span(&start_address, &end_address, clusters) {
            Ok(change) => {
                return change;
            },
            Err(clusters) => clusters,
        };
        let fresh = self.added.append_clusters(clusters);
        let mut inserted_spans: Vec<Span> = Vec::new();
        proof {
            assert(self.added.units().len() == self.added.buffer.len());
            assert(self.added.buffer.len() == old(self)@.added.len() + stored.len());
        }
        let ghost head = old(self)@.head_kept(start_address);
        let ghost middle = old(self)@.fresh_span(stored);
        let ghost tail = old(self)@.tail_kept(end_address);
        if start_address.offset > 0 {
            inserted_spans.push(self.spans[start_address.index].head(start_address.offset));
        }
        proof {
            assert(span_views(inserted_spans@) =~= head);
        }
        if fresh.length > 0 {
            inserted_spans.push(fresh);
        }
        proof {
            assert(span_views(inserted_spans@) =~= head + middle);
        }
        if end_address.offset > 0 {
            proof {
                assert(old(self)@.valid_span(old(self)@.spans[end_address.index as int]));
            }
            inserted_spans.push(self.spans[end_address.index].tail(end_address.offset));
        }
        proof {
            assert(span_views(inserted_spans@) =~= head + middle + tail);
        }
        let stop = if end_address.offset > 0 {
            end_address.index + 1
        } else {
            end_address.index
        };
        let removed_spans = clone_span_range(&self.spans, start_address.index, stop);
        Change { index: start_address.index, new: inserted_spans, old: removed_spans }
    }

    /// Puts copies of `inserted` in place of the `removed` spans from `index`
    /// on.
    fn splice(&mut self, index: usize, removed: usize, inserted: &Vec<Span>)
        requires
            index + removed <= old(self)@.spans.len(),
        ensures
            final(self).tagged() == old(self).tagged(),
            final(self)@ == old(self)@.with_spans(
                spliced(old(self)@.spans, index as int, removed as int, span_views(inserted@)),
            ),
    {
        let count = self.spans.len();
        proof {
            assert(self@.spans.len() == count);
        }
        let mut spans = clone_span_range(&self.spans, 0, index);
        let mut middle = clone_spans(inserted);
        let mut rest = clone_span_range(&self.spans, index + removed, count);
        let ghost first = spans@;
        let ghost second = middle@;
        let ghost third = rest@;
        spans.append(&mut middle);
        spans.append(&mut rest);
        proof {
            assert(span_views(first + second + third) =~= span_views(first) + span_views(second)
                + span_views(third));
        }
        self.spans = spans;
    }

    /// Decides [`TableView::valid_span`]: whether `span` lies inside its
    /// buffer and records only line terminators that are there, in ascending
    /// order, with no empty record.
    pub fn is_valid_span(&self, span: &Span) -> (valid: bool)
        requires
            self.tagged(),
        ensures
            valid == self@.valid_span(span@),
    {
        let content = self.span_content(span);
        let stored = content.buffer.len();
        proof {
            assert(content.units().len() == content.buffer@.len());
        }
        if span.position > stored || span.length > stored - span.position {
            return false;
        }
        let ghost units = self@.span_units(span@);
        match &span.line_breaks {
            None => true,
            Some(list) => {
                if list.len() == 0 {
                    return false;
                }
                let mut index: usize = 0;
                while index < list.len()
                    invariant
                        index <= list.len(),
                        span@.line_breaks == Some(list@),
                        span.position + span.length <= stored,
                        stored == content.buffer@.len(),
                        content.units() == self@.content(span.source),
                        units == self@.span_units(span@),
                        forall|i: int|
                            0 <= i < index ==> (#[trigger] list@[i] as int) < units.len()
                                && is_line_break(units[list@[i] as int]),
                        forall|i: int, j: int|
                            0 <= i < j < index ==> #[trigger] list@[i] < #[trigger] list@[j],
                    decreases list.len() - index,
                {
                    let offset = list[index];
                    if offset >= span.length {
                        return false;
                    }
                    if index > 0 && list[index - 1] >= offset {
                        proof {
                            assert(!(list@[index - 1] < list@[index as int]));
                        }
                        return false;
                    }
                    let found = is_line_break_cluster(
                        content.buffer[span.position + offset].as_str(),
                    );
                    proof {
                        assert(units[offset as int] == content.buffer@[span.position + offset]@);
                    }
                    if !found {
                        return false;
                    }
                    proof {
                        assert forall|i: int, j: int| 0 <= i < j < index + 1 implies
                            #[trigger] list@[i] < #[trigger] list@[j] by {
                            if j == index && i < index - 1 {
                                assert(list@[i] < list@[index - 1]);
                            }
                        }
                    }
                    index += 1;
                }
                true
            },
        }
    }

    /// Decides whether copies of `inserted` can take the place of the
    /// `removed` spans from `index` on: whether those spans exist and the
    /// result is a valid span sequence over the table's buffers.
    fn can_splice(&self, index: usize, removed: usize, inserted: &Vec<Span>) -> (ok: bool)
        requires
            self.wf(),
        ensures
            ok == (index + removed <= self@.spans.len() && self@.valid_spans(
                spliced(self@.spans, index as int, removed as int, span_views(inserted@)),
            )),
    {
        let count = self.spans.len();
        if index > count || removed > count - index {
            return false;
        }
        let ghost spans = self@.spans;
        let ghost put = span_views(inserted@);
        let ghost result = spliced(spans, index as int, removed as int, put);
        let ghost kept = spans.take(index as int);
        let ghost rest = spans.skip(index + removed);
        proof {
            lemma_total_concat(kept + put, rest);
            lemma_total_concat(kept, put);
            lemma_total_take(spans, index as int, index + removed);
            lemma_total_take(spans, index + removed, count as int);
            assert(spans.subrange(index + removed, count as int) =~= rest);
            assert(put.len() == inserted@.len());
        }
        let ends_empty = if index + removed < count {
            proof {
                assert(result.last() == spans.last());
            }
            true
        } else if inserted.len() > 0 {
            proof {
                assert(result.last() == put.last());
            }
            inserted[inserted.len() - 1].length == 0
        } else if index > 0 {
            proof {
                assert(result.last() == spans[index - 1]);
            }
            self.spans[index - 1].length == 0
        } else {
            proof {
                assert(result.len() == 0);
            }
            false
        };
        if !ends_empty {
            return false;
        }
        let mut length: usize = 0;
        let mut position: usize = 0;
        proof {
            assert(spans.take(0) =~= Seq::empty());
        }
        while position < index
            invariant
                self.wf(),
                spans == self@.spans,
                position <= index <= spans.len(),
                length == total_length(spans.take(position as int)),
            decreases index - position,
        {
            proof {
                lemma_total_take_next(spans, position as int);
                lemma_total_take(spans, position + 1, spans.len() as int);
            }
            length = length + self.spans[position].length;
            position += 1;
        }
        let mut position: usize = index + removed;
        let ghost tail_from = position;
        proof {
            assert(spans.subrange(index + removed, index + removed) =~= Seq::empty());
        }
        while position < count
            invariant
                self.wf(),
                spans == self@.spans,
                count == spans.len(),
                tail_from == index + removed,
                index + removed <= position <= count,
                length == total_length(spans.take(index as int)) + total_length(
                    spans.subrange(tail_from as int, position as int),
                ),
                total_length(spans.take(index as int)) + total_length(
                    spans.subrange(tail_from as int, count as int),
                ) <= usize::MAX,
            decreases count - position,
        {
            proof {
                let done = spans.subrange(tail_from as int, position as int);
                let next = spans.subrange(tail_from as int, position + 1);
                assert(next.drop_last() =~= done);
                let left = spans.subrange(position + 1, count as int);
                assert(spans.subrange(tail_from as int, count as int) =~= next + left);
                lemma_total_concat(next, left);
            }
            length = length + self.spans[position].length;
            position += 1;
        }
        let mut position: usize = 0;
        proof {
            assert(put.take(0) =~= Seq::empty());
        }
        while position < inserted.len()
            invariant
                self.wf(),
                put == span_views(inserted@),
                put.len() == inserted@.len(),
                position <= inserted.len(),
                length == total_length(kept) + total_length(rest) + total_length(
                    put.take(position as int),
                ),
                forall|k: int| 0 <= k < position ==> self@.valid_span(#[trigger] put[k]),
                result == kept + put + rest,
                kept == self@.spans.take(index as int),
                rest == self@.spans.skip(index + removed),
                index + removed <= self@.spans.len(),
                total_length(result) == total_length(kept) + total_length(put) + total_length(rest),
            decreases inserted.len() - position,
        {
            let span = &inserted[position];
            proof {
                assert(span@ == put[position as int]);
                lemma_total_take_next(put, position as int);
                lemma_total_take(put, position + 1, put.len() as int);
            }
            if !self.is_valid_span(span) {
                proof {
                    assert(result[index + position] == put[position as int]);
                }
                return false;
            }
            if span.length > usize::MAX - length {
                return false;
            }
            length = length + span.length;
            position += 1;
        }
        proof {
            assert(put.take(position as int) =~= put);
            assert forall|k: int| 0 <= k < result.len() implies self@.valid_span(
                #[trigger] result[k],
            ) by {
                if k < index {
                    assert(result[k] == spans[k]);
                } else if k < index + put.len() {
                    assert(result[k] == put[k - index]);
                } else {
                    assert(result[k] == spans[k - put.len() + removed]);
                }
            }
        }
        true
    }

    /// Decides [`TableView::admits`]: whether `change` can be applied.
    pub fn admits(&self, change: &Change) -> (ok: bool)
        requires
            self.wf(),
        ensures
            ok == self@.admits(change@),
    {
        proof {
            assert(change@.old.len() == change.old@.len());
        }
        self.can_splice(change.index, change.old.len(), &change.new)
    }

    /// Decides [`TableView::admits_reverse`]: whether `change` can be
    /// reverted.
    pub fn admits_reverse(&self, change: &Change) -> (ok: bool)
        requires
            self.wf(),
        ensures
            ok == self@.admits_reverse(change@),
    {
        proof {
            assert(change@.new.len() == change.new@.len());
        }
        self.can_splice(change.index, change.new.len(), &change.old)
    }

    /// Applies `change`: its `old` spans give way to its `new` ones. Nothing
    /// else is touched.
    pub fn apply_change(&mut self, change: &Change)
        requires
            old(self).wf(),
            old(self)@.admits(change@),
        ensures
            final(self).wf(),
            final(self)@ == old(self)@.applied(change@),
    {
        self.splice(change.index, change.old.len(), &change.new);
        proof {
            assert(self@.spans.len() == self.spans.len());
        }
    }

    /// Reverts `change`: its `new` spans give way to its `old` ones. Nothing
    /// else is touched.
    pub fn revert_change(&mut self, change: &Change)
        requires
            old(self).wf(),
            old(self)@.admits_reverse(change@),
        ensures
            final(self).wf(),
            final(self)@ == old(self)@.reverted(change@),
    {
        self.splice(change.index, change.new.len(), &change.old);
        proof {
            assert(self@.spans.len() == self.spans.len());
        }
    }

    /// Replaces `length` clusters from `position` by `clusters`, each string
    /// taken as one cluster, and returns the change made. A position beyond
    /// the end is the end; a range that passes the end stops there.
    pub fn replace_clusters(
        &mut self,
        position: usize,
        length: usize,
        clusters: Vec<String>,
    ) -> (change: Change)
        requires
            old(self).wf(),
            old(self)@.len() + clusters@.len() <= usize::MAX,
        ensures
            final(self).wf(),
            change@ == old(self)@.change_for(position, length, texts(clusters@)),
            final(self)@ == old(self)@.replaced(position, length, texts(clusters@)),
            is_edit_of(final(self)@, old(self)@, position, length, texts(clusters@)),
            final(self)@.undoes_to(old(self)@, change@),
    {
        let ghost stored = texts(clusters@);
        let change = self.change(position, length, clusters);
        proof {
            let before = old(self)@;
            lemma_replaced(before, position, length, stored);
            lemma_change_shape(before, position, length, stored);
            self::laws::lemma_revert_restores(before, position, length, stored);
        }
        self.apply_change(&change);
        change
    }

    /// Replaces `length` clusters from `position` by `content` and returns
    /// the change made. A position beyond the end is the end; a range that
    /// passes the end stops there.
    pub fn replace(&mut self, position: usize, length: usize, content: &str) -> (change: Change)
        requires
            old(self).wf(),
            old(self)@.len() + content@.len() <= usize::MAX,
        ensures
            final(self).wf(),
            change@ == old(self)@.change_for(position, length, grapheme_clusters(content@)),
            final(self)@ == old(self)@.replaced(position, length, grapheme_clusters(content@)),
            is_edit_of(
                final(self)@,
                old(self)@,
                position,
                length,
                grapheme_clusters(content@),
            ),
            final(self)@.text() == old(self)@.units().take(
                old(self)@.clamped(position as int),
            ).flatten() + content@ + old(self)@.units().skip(
                old(self)@.clamped(position + length),
            ).flatten(),
            final(self)@.undoes_to(old(self)@, change@),
            grapheme_clusters(content@).flatten() == content@,
            all_nonempty(grapheme_clusters(content@)),
            final(self)@.len() <= old(self)@.len() + content@.len(),
    {
        let clusters = split_graphemes(content);
        proof {
            let stored = grapheme_clusters(content@);
            let before = old(self)@;
            lemma_units_count(stored);
            let kept = before.units().take(before.clamped(position as int));
            let rest = before.units().skip(before.clamped(position + length));
            lemma_flatten_concat(kept + stored, rest);
            lemma_flatten_concat(kept, stored);
        }
        self.replace_clusters(position, length, clusters)
    }

    /// Replaces as [`PieceTable::replace`] does where the document stays
    /// within what a machine integer counts; where it would not, nothing is
    /// touched and `None` is returned.
    pub fn try_replace(
        &mut self,
        position: usize,
        length: usize,
        content: &str,
    ) -> (change: Option<Change>)
        requires
            old(self).wf(),
        ensures
            final(self).wf(),
            change is Some <==> old(self)@.len() + grapheme_clusters(content@).len() <= usize::MAX,
            change is None ==> final(self)@ == old(self)@,
            change is Some ==> {
                &&& change->0@ == old(self)@.change_for(
                    position,
                    length,
                    grapheme_clusters(content@),
                )
                &&& final(self)@ == old(self)@.replaced(
                    position,
                    length,
                    grapheme_clusters(content@),
                )
                &&& is_edit_of(
                    final(self)@,
                    old(self)@,
                    position,
                    length,
                    grapheme_clusters(content@),
                )
                &&& final(self)@.undoes_to(old(self)@, change->0@)
            },
            grapheme_clusters(content@).flatten() == content@,
            all_nonempty(grapheme_clusters(content@)),
    {
        let clusters = split_graphemes(content);
        if clusters.len() > usize::MAX - self.len() {
            None
        } else {
            Some(self.replace_clusters(position, length, clusters))
        }
    }

    /// Adds `content` at the end of the document. With span extension on,
    /// text added behind the span that ends the added buffer grows that span;
    /// in every other case text that is not empty gets one new span.
    pub fn append(&mut self, content: &str) -> (change: Change)
        requires
            old(self).wf(),
            old(self)@.len() + content@.len() <= usize::MAX,
        ensures
            final(self).wf(),
            change@ == old(self)@.change_for(
                old(self)@.len() as usize,
                0,
                grapheme_clusters(content@),
            ),
            final(self)@ == old(self)@.replaced(
                old(self)@.len() as usize,
                0,
                grapheme_clusters(content@),
            ),
            final(self)@.units() == old(self)@.units() + grapheme_clusters(content@),
            final(self)@.text() == old(self)@.text() + content@,
            final(self)@.undoes_to(old(self)@, change@),
            final(self)@.len() == old(self)@.len() + grapheme_clusters(content@).len(),
            final(self)@.len() <= old(self)@.len() + content@.len(),
            old(self)@.grows_into(final(self)@, grapheme_clusters(content@)),
            grapheme_clusters(content@).flatten() == content@,
            all_nonempty(grapheme_clusters(content@)),
    {
        let position = self.len();
        let change = self.replace(position, 0, content);
        proof {
            let units = old(self)@.units();
            lemma_units_count(grapheme_clusters(content@));
            self::laws::lemma_append_step(old(self)@, grapheme_clusters(content@));
            self::lemmas::lemma_units_len(old(self)@, old(self)@.spans);
            assert(units.take(units.len() as int) =~= units);
            assert(units.skip(units.len() as int) =~= Seq::empty());
            assert(old(self)@.text() + content@ + Seq::<Seq<char>>::empty().flatten()
                =~= old(self)@.text() + content@);
            assert(units + grapheme_clusters(content@) + Seq::<Seq<char>>::empty() =~= units
                + grapheme_clusters(content@));
        }
        change
    }

    /// Inserts `content` in front of the cluster at `position`.
    pub fn insert(&mut self, position: usize, content: &str) -> (change: Change)
        requires
            old(self).wf(),
            old(self)@.len() + content@.len() <= usize::MAX,
        ensures
            final(self).wf(),
            change@ == old(self)@.change_for(position, 0, grapheme_clusters(content@)),
            final(self)@ == old(self)@.replaced(position, 0, grapheme_clusters(content@)),
            is_edit_of(final(self)@, old(self)@, position, 0, grapheme_clusters(content@)),
            final(self)@.text() == old(self)@.units().take(
                old(self)@.clamped(position as int),
            ).flatten() + content@ + old(self)@.units().skip(
                old(self)@.clamped(position as int),
            ).flatten(),
            final(self)@.undoes_to(old(self)@, change@),
            final(self)@.len() <= old(self)@.len() + content@.len(),
    {
        self.replace(position, 0, content)
    }

    /// Removes `length` clusters from `position` on.
    pub fn remove(&mut self, position: usize, length: usize) -> (change: Change)
        requires
            old(self).wf(),
        ensures
            final(self).wf(),
            change@ == old(self)@.change_for(position, length, Seq::empty()),
            final(self)@ == old(self)@.replaced(position, length, Seq::empty()),
            is_edit_of(final(self)@, old(self)@, position, length, Seq::empty()),
            final(self)@.units() == old(self)@.units().take(old(self)@.clamped(position as int))
                + old(self)@.units().skip(old(self)@.clamped(position + length)),
            final(self)@.undoes_to(old(self)@, change@),
            final(self)@.len() <= old(self)@.len(),
    {
        let content = "";
        proof {
            reveal_strlit("");
            assert(content@ =~= Seq::empty());
        }
        let change = self.replace(position, length, content);
        proof {
            let clusters = grapheme_clusters(content@);
            lemma_units_count(clusters);
            assert(clusters =~= Seq::empty());
            let kept = old(self)@.units().take(old(self)@.clamped(position as int));
            assert(kept + Seq::<Seq<char>>::empty() =~= kept);
        }
        change
    }

    /// The text of the `length` clusters from `position` on, both clamped to
    /// the document. The table is only read.
    pub fn range_as_string(&self, position: usize, length: usize) -> (text: String)
        requires
            self.wf(),
        ensures
            text@ == self@.units().subrange(
                self@.clamped(position as int),
                self@.clamped(position + length),
            ).flatten(),
    {
        let start = self.span_address(position);
        let end = if length > usize::MAX - position {
            self.span_address(usize::MAX)
        } else {
            self.span_address(position + length)
        };
        let ghost table = self@;
        let ghost units = table.units();
        let ghost from = table.clamped(position as int);
        let ghost to = table.clamped(position + length);
        proof {
            lemma_address(table, position as int);
            lemma_address(table, usize::MAX as int);
            lemma_address(table, position + length);
            self::lemmas::lemma_address_order(table, position as int, position + length);
            assert(end == table.address(position + length));
            self::lemmas::lemma_units_len(table, table.spans);
            assert(units.subrange(from, from) =~= Seq::empty());
        }
        let mut text = String::new();
        let mut index = start.index;
        let ghost mut cursor = from;
        while index <= end.index
            invariant
                self.wf(),
                table == self@,
                units == table.units(),
                table.holds(start),
                table.holds(end),
                table.position_of(start) == from,
                table.position_of(end) == to,
                start.index <= end.index,
                start.index == end.index ==> start.offset <= end.offset,
                start.index <= index <= end.index + 1,
                from <= cursor <= to <= units.len(),
                index == start.index ==> cursor == from,
                start.index < index <= end.index ==> cursor == total_length(
                    table.spans.take(index as int),
                ),
                index == end.index + 1 ==> cursor == to,
                text@ == units.subrange(from, cursor).flatten(),
            decreases end.index + 1 - index,
        {
            let span = &self.spans[index];
            let offset = if index == start.index {
                start.offset
            } else {
                0
            };
            proof {
                lemma_total_take(table.spans, index as int, end.index as int);
                lemma_total_take_next(table.spans, index as int);
                if index < end.index {
                    lemma_total_take(table.spans, index + 1, end.index as int);
                }
                assert(table.valid_span(table.spans[index as int]));
            }
            let limit = if index == end.index {
                end.offset - offset
            } else {
                span.length - offset
            };
            let part = self.span_as_str(span, offset, limit);
            proof {
                let base = total_length(table.spans.take(index as int));
                lemma_read_bounds(table, span@, offset, limit);
                lemma_units_within(table, index as int, offset as int, offset + limit);
                let next = base + offset + limit;
                assert(cursor == base + offset);
                assert(units.subrange(from, next) =~= units.subrange(from, cursor)
                    + units.subrange(cursor, next));
                lemma_flatten_concat(units.subrange(from, cursor), units.subrange(cursor, next));
                cursor = next;
            }
            text.append(part.as_str());
            index += 1;
        }
        text
    }

    /// The whole document as text. The table is only read.
    pub fn to_string(&self) -> (text: String)
        requires
            self.wf(),
        ensures
            text@ == self@.text(),
    {
        let text = self.range_as_string(0, usize::MAX);
        proof {
            let units = self@.units();
            self::lemmas::lemma_units_len(self@, self@.spans);
            assert(units.subrange(0, units.len() as int) =~= units);
        }
        text
    }

    /// A reader of the document's lines, standing at its start.
    pub fn lines(&self) -> (lines: LineIter<'_>)
        requires
            self.wf(),
        ensures
            lines.wf(),
            lines.table() == self@,
            lines.reading() == (Reading { position: 0, finished: false }),
    {
        LineIter::new(self)
    }

    /// A search for `regex` through the document's text as it is now,
    /// starting at the cluster at `position`; a position beyond the end is
    /// the end. The matches found are counted in clusters from the start of
    /// the document.
    pub fn find_matches(&self, position: usize, regex: Regex) -> (matches: MatchIter)
        requires
            self.wf(),
        ensures
            matches.regex() == regex,
            matches@ == (SearchView {
                before: self@.units().take(self@.clamped(position as int)).flatten(),
                after: self@.units().skip(self@.clamped(position as int)).flatten(),
                finished: false,
            }),
            matches@.before + matches@.after == self@.text(),
    {
        let before = self.range_as_string(0, position);
        let after = self.range_as_string(position, usize::MAX);
        proof {
            let units = self@.units();
            let from = self@.clamped(position as int);
            self::lemmas::lemma_units_len(self@, self@.spans);
            assert(units.subrange(0, from) =~= units.take(from));
            assert(units.subrange(from, units.len() as int) =~= units.skip(from));
            assert(units.take(from) + units.skip(from) =~= units);
            lemma_flatten_concat(units.take(from), units.skip(from));
        }
        MatchIter::new(before, after, regex)
    }
}

impl<'a> From<&'a str> for PieceTable {
    /// A table over `item`, with span extension off.
    fn from(item: &'a str) -> (table: Self)
        ensures
            table.wf(),
            table@ == TableView::initial(grapheme_clusters(item@)),
            table@.units() == grapheme_clusters(item@),
            table@.text() == item@,
            table@.len() <= item@.len(),
    {
        PieceTable::new(item.to_owned())
    }
}

/// A table is more than its content, so no function of the text alone names
/// the table that `from` returns: `from` is specified by its own contract.
impl<'a> vstd::std_specs::convert::FromSpecImpl<&'a str> for PieceTable {
    open spec fn obeys_from_spec() -> bool {
        false
    }

    open spec fn from_spec(item: &'a str) -> Self {
        arbitrary()
    }
}

impl From<String> for PieceTable {
    /// A table over `item`, with span extension off.
    fn from(item: String) -> (table: Self)
        ensures
            table.wf(),
            table@ == TableView::initial(grapheme_clusters(item@)),
            table@.units() == grapheme_clusters(item@),
            table@.text() == item@,
            table@.len() <= item@.len(),
    {
        PieceTable::new(item)
    }
}

/// As for `&str`: `from` is specified by its own contract.
impl vstd::std_specs::convert::FromSpecImpl<String> for PieceTable {
    open spec fn obeys_from_spec() -> bool {
        false
    }

    open spec fn from_spec(item: String) -> Self {
        arbitrary()
    }
}

} // verus!
