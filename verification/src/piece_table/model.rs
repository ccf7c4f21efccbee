//! The piece table as a mathematical object: two sequences of grapheme
//! clusters, a sequence of spans over them, and edits as functions from one
//! table to the next.

use super::content::{appended_span, Source};
use super::graphemes::marks_breaks;
use super::span::SpanView;
use super::SpanAddress;
use vstd::prelude::*;

verus! {

/// The mathematical content of a change: at `index`, the spans `old` give way
/// to the spans `new`.
pub ghost struct ChangeView {
    pub index: usize,
    pub new: Seq<SpanView>,
    pub old: Seq<SpanView>,
}

/// One edit: `length` clusters from `position` on give way to `clusters`.
pub ghost struct Edit {
    pub position: usize,
    pub length: usize,
    pub clusters: Seq<Seq<char>>,
}

/// What an edit makes of a plain sequence of clusters: position and end of
/// the replaced range are clamped to the sequence, what lies between them
/// gives way to the edit's clusters.
pub open spec fn plainly_edited(units: Seq<Seq<char>>, edit: Edit) -> Seq<Seq<char>> {
    let from = if edit.position < units.len() {
        edit.position as int
    } else {
        units.len() as int
    };
    let to = if edit.position + edit.length < units.len() {
        edit.position + edit.length
    } else {
        units.len() as int
    };
    units.take(from) + edit.clusters + units.skip(to)
}

/// What a run of edits, in order, makes of a plain sequence of clusters.
pub open spec fn plainly_edited_all(units: Seq<Seq<char>>, edits: Seq<Edit>) -> Seq<Seq<char>>
    decreases edits.len(),
{
    if edits.len() == 0 {
        units
    } else {
        plainly_edited_all(plainly_edited(units, edits.first()), edits.drop_first())
    }
}

/// The number of clusters that a run of edits puts in.
pub open spec fn clusters_put_in(edits: Seq<Edit>) -> nat
    decreases edits.len(),
{
    if edits.len() == 0 {
        0
    } else {
        edits.first().clusters.len() + clusters_put_in(edits.drop_first())
    }
}

/// Where a reader of lines stands: at a document position, or at the end
/// with the last line behind it.
pub ghost struct Reading {
    pub position: int,
    pub finished: bool,
}

/// The mathematical content of a piece table.
pub ghost struct TableView {
    pub original: Seq<Seq<char>>,
    pub added: Seq<Seq<char>>,
    pub spans: Seq<SpanView>,
    pub extend_spans: bool,
}

/// The number of clusters that `spans` denote together.
pub open spec fn total_length(spans: Seq<SpanView>) -> nat
    decreases spans.len(),
{
    if spans.len() == 0 {
        0
    } else {
        (total_length(spans.drop_last()) + spans.last().length) as nat
    }
}

/// The index of the first span that reaches beyond `position`, or the number
/// of spans when none does.
pub open spec fn span_index_at(spans: Seq<SpanView>, position: int) -> int
    decreases spans.len(),
{
    if spans.len() == 0 {
        0
    } else if position < total_length(spans.drop_last()) {
        span_index_at(spans.drop_last(), position)
    } else if position < total_length(spans) {
        spans.len() - 1
    } else {
        spans.len() as int
    }
}

/// `spans` with the `removed` spans from `index` on replaced by `inserted`.
pub open spec fn spliced(
    spans: Seq<SpanView>,
    index: int,
    removed: int,
    inserted: Seq<SpanView>,
) -> Seq<SpanView> {
    spans.take(index) + inserted + spans.skip(index + removed)
}

/// Whether `after` is what an edit that replaces `length` clusters from
/// `position` by `clusters` makes of `table`: the clusters before the clamped
/// position stay, the new clusters follow, and the clusters from the clamped
/// end of the replaced range on stay behind them.
pub open spec fn is_edit_of(
    after: TableView,
    table: TableView,
    position: usize,
    length: usize,
    clusters: Seq<Seq<char>>,
) -> bool {
    &&& after.wf()
    &&& after.units() == table.units().take(table.clamped(position as int)) + clusters
        + table.units().skip(table.clamped(position + length))
    &&& after.len() == table.clamped(position as int) + clusters.len() + table.len()
        - table.clamped(position + length)
}

impl TableView {
    /// The table that a document is opened with: its clusters in the original
    /// buffer, one span over all of them, and the sentinel.
    pub open spec fn initial(clusters: Seq<Seq<char>>) -> TableView {
        TableView {
            original: clusters,
            added: Seq::empty(),
            spans: seq![appended_span(Source::Original, 0, clusters), SpanView::sentinel()],
            extend_spans: false,
        }
    }

    /// The buffer that `source` names.
    pub open spec fn content(self, source: Source) -> Seq<Seq<char>> {
        match source {
            Source::Original => self.original,
            Source::Added => self.added,
        }
    }

    /// The clusters that `span` denotes.
    pub open spec fn span_units(self, span: SpanView) -> Seq<Seq<char>> {
        self.content(span.source).subrange(
            span.position as int,
            span.position + span.length,
        )
    }

    /// Whether `span` lies inside its buffer and records only line
    /// terminators that are there, in ascending order, with no empty record.
    pub open spec fn valid_span(self, span: SpanView) -> bool {
        &&& span.position + span.length <= self.content(span.source).len()
        &&& match span.line_breaks {
            Some(list) => list.len() > 0 && marks_breaks(self.span_units(span), list),
            None => true,
        }
    }

    /// Whether every one of `spans` is valid, the last of them is empty (the
    /// sentinel that positions at or beyond the end resolve to), and their
    /// total length is a machine integer.
    pub open spec fn valid_spans(self, spans: Seq<SpanView>) -> bool {
        &&& 0 < spans.len()
        &&& spans.last().length == 0
        &&& forall|i: int| 0 <= i < spans.len() ==> self.valid_span(#[trigger] spans[i])
        &&& total_length(spans) <= usize::MAX
    }

    /// Whether the cluster counts of both buffers are machine integers.
    pub open spec fn bounded(self) -> bool {
        self.original.len() <= usize::MAX && self.added.len() <= usize::MAX
    }

    /// Whether the number of spans is a machine integer, so that every span
    /// has an address.
    pub open spec fn indexable(self) -> bool {
        self.spans.len() <= usize::MAX
    }

    /// Well-formedness of a table.
    pub open spec fn wf(self) -> bool {
        self.bounded() && self.valid_spans(self.spans)
    }

    /// The clusters that `spans` denote, one span after the other.
    pub open spec fn units_of(self, spans: Seq<SpanView>) -> Seq<Seq<char>>
        decreases spans.len(),
    {
        if spans.len() == 0 {
            Seq::empty()
        } else {
            self.units_of(spans.drop_last()) + self.span_units(spans.last())
        }
    }

    /// The document, cluster by cluster.
    pub open spec fn units(self) -> Seq<Seq<char>> {
        self.units_of(self.spans)
    }

    /// The document as text.
    pub open spec fn text(self) -> Seq<char> {
        self.units().flatten()
    }

    /// The length of the document in clusters.
    pub open spec fn len(self) -> nat {
        total_length(self.spans)
    }

    /// `position` clamped to the document.
    pub open spec fn clamped(self, position: int) -> int {
        if position < self.len() {
            position
        } else {
            self.len() as int
        }
    }

    /// The address of `position`: the first span that reaches beyond it and
    /// the offset inside that span; the sentinel with offset 0 for a position
    /// at or beyond the end.
    pub open spec fn address(self, position: int) -> SpanAddress {
        if position < self.len() {
            let index = span_index_at(self.spans, position);
            SpanAddress {
                index: index as usize,
                offset: (position - total_length(self.spans.take(index))) as usize,
            }
        } else {
            SpanAddress { index: (self.spans.len() - 1) as usize, offset: 0 }
        }
    }

    /// The document position that an address stands for.
    pub open spec fn position_of(self, address: SpanAddress) -> int {
        total_length(self.spans.take(address.index as int)) + address.offset
    }

    /// Whether `address` names a place in this table: a span of the sequence
    /// and an offset inside it, or offset 0.
    pub open spec fn holds(self, address: SpanAddress) -> bool {
        &&& (address.index as int) < self.spans.len()
        &&& address.offset == 0 || address.offset < self.spans[address.index as int].length
    }

    /// The address at which an edit of `length` clusters from `position`
    /// ends.
    pub open spec fn end_address(self, position: usize, length: usize) -> SpanAddress {
        if length == 0 {
            self.address(position as int)
        } else {
            self.address(position + length)
        }
    }

    /// Whether an edit between `start` and `end` grows the preceding span in
    /// place: extension is enabled, the edit is a pure insertion at the start
    /// of a span, and the span before it is the one that ends the added
    /// buffer.
    pub open spec fn extends(self, start: SpanAddress, end: SpanAddress) -> bool {
        &&& self.extend_spans
        &&& start.index > 0
        &&& start.offset == 0
        &&& start == end
        &&& self.spans[start.index - 1].source == Source::Added
        &&& self.spans[start.index - 1].position + self.spans[start.index - 1].length
            == self.added.len()
    }

    /// What is kept of the span at `start` in front of an edit: its head up to
    /// the offset, if the edit starts inside it.
    pub open spec fn head_kept(self, start: SpanAddress) -> Seq<SpanView> {
        if start.offset > 0 {
            seq![self.spans[start.index as int].head(start.offset)]
        } else {
            Seq::empty()
        }
    }

    /// The span for the clusters that an edit puts in, stored at the end of
    /// the added buffer, if there are any.
    pub open spec fn fresh_span(self, clusters: Seq<Seq<char>>) -> Seq<SpanView> {
        if clusters.len() > 0 {
            seq![appended_span(Source::Added, self.added.len() as usize, clusters)]
        } else {
            Seq::empty()
        }
    }

    /// What is kept of the span at `end` behind an edit: its tail from the
    /// offset on, if the edit ends inside it.
    pub open spec fn tail_kept(self, end: SpanAddress) -> Seq<SpanView> {
        if end.offset > 0 {
            seq![self.spans[end.index as int].tail(end.offset)]
        } else {
            Seq::empty()
        }
    }

    /// The index behind the last span that an edit ending at `end` replaces:
    /// the span at `end` goes only if the edit ends inside it.
    pub open spec fn stop_index(self, end: SpanAddress) -> int {
        if end.offset > 0 {
            end.index + 1
        } else {
            end.index as int
        }
    }

    /// The change of an edit that grows the span in front of `start` by
    /// `clusters`.
    pub open spec fn growing_change(self, start: SpanAddress, clusters: Seq<Seq<char>>)
        -> ChangeView {
        let previous = self.spans[start.index - 1];
        ChangeView {
            index: (start.index - 1) as usize,
            new: seq![
                previous.extended(
                    appended_span(Source::Added, self.added.len() as usize, clusters),
                ),
            ],
            old: seq![previous],
        }
    }

    /// The change of an edit that splits the spans at its ends and puts
    /// `clusters` between what is kept of them.
    pub open spec fn splitting_change(
        self,
        start: SpanAddress,
        end: SpanAddress,
        clusters: Seq<Seq<char>>,
    ) -> ChangeView {
        ChangeView {
            index: start.index,
            new: self.head_kept(start) + self.fresh_span(clusters) + self.tail_kept(end),
            old: self.spans.subrange(start.index as int, self.stop_index(end)),
        }
    }

    /// The change that replaces `length` clusters from `position` by
    /// `clusters`, which are stored at the end of the added buffer. An edit
    /// that replaces nothing by nothing changes nothing, wherever it stands:
    /// its change holds no spans.
    pub open spec fn change_for(self, position: usize, length: usize, clusters: Seq<Seq<char>>)
        -> ChangeView {
        let start = self.address(position as int);
        let end = self.end_address(position, length);
        if length == 0 && clusters.len() == 0 {
            ChangeView { index: start.index, new: Seq::empty(), old: Seq::empty() }
        } else if self.extends(start, end) {
            self.growing_change(start, clusters)
        } else {
            self.splitting_change(start, end, clusters)
        }
    }

    /// The table with `clusters` stored at the end of the added buffer.
    pub open spec fn grown(self, clusters: Seq<Seq<char>>) -> TableView {
        TableView {
            original: self.original,
            added: self.added + clusters,
            spans: self.spans,
            extend_spans: self.extend_spans,
        }
    }

    /// The table with span extension switched on or off.
    pub open spec fn with_extension(self, enabled: bool) -> TableView {
        TableView {
            original: self.original,
            added: self.added,
            spans: self.spans,
            extend_spans: enabled,
        }
    }

    /// The table with other spans over the same buffers.
    pub open spec fn with_spans(self, spans: Seq<SpanView>) -> TableView {
        TableView {
            original: self.original,
            added: self.added,
            spans,
            extend_spans: self.extend_spans,
        }
    }

    /// The table after `change` is applied: its `old` spans give way to its
    /// `new` ones.
    pub open spec fn applied(self, change: ChangeView) -> TableView {
        self.with_spans(
            spliced(self.spans, change.index as int, change.old.len() as int, change.new),
        )
    }

    /// The table after `change` is reverted: its `new` spans give way to its
    /// `old` ones.
    pub open spec fn reverted(self, change: ChangeView) -> TableView {
        self.with_spans(
            spliced(self.spans, change.index as int, change.new.len() as int, change.old),
        )
    }

    /// Whether `change` can be applied: the spans it removes exist and the
    /// result is a valid span sequence over the table's buffers.
    pub open spec fn admits(self, change: ChangeView) -> bool {
        &&& change.index + change.old.len() <= self.spans.len()
        &&& self.valid_spans(self.applied(change).spans)
    }

    /// Whether `change` can be reverted: the spans it put in place can be
    /// taken out and the result is a valid span sequence over the table's
    /// buffers.
    pub open spec fn admits_reverse(self, change: ChangeView) -> bool {
        &&& change.index + change.new.len() <= self.spans.len()
        &&& self.valid_spans(self.reverted(change).spans)
    }

    /// Whether `change` leads back from this table to the document of
    /// `before` and forth again: it can be reverted, which restores the
    /// document of `before`, and then be applied, which restores this table.
    pub open spec fn undoes_to(self, before: TableView, change: ChangeView) -> bool {
        &&& self.admits_reverse(change)
        &&& self.reverted(change).units() == before.units()
        &&& self.reverted(change).admits(change)
        &&& self.reverted(change).applied(change) == self
    }

    /// The table after `length` clusters from `position` are replaced by
    /// `clusters`.
    pub open spec fn replaced(self, position: usize, length: usize, clusters: Seq<Seq<char>>)
        -> TableView {
        self.grown(clusters).applied(self.change_for(position, length, clusters))
    }

    /// The table after a run of edits, in order.
    pub open spec fn edited_all(self, edits: Seq<Edit>) -> TableView
        decreases edits.len(),
    {
        if edits.len() == 0 {
            self
        } else {
            self.replaced(
                edits.first().position,
                edits.first().length,
                edits.first().clusters,
            ).edited_all(edits.drop_first())
        }
    }

    /// The table after `clusters` are added at the end of the document.
    pub open spec fn appended(self, clusters: Seq<Seq<char>>) -> TableView {
        self.replaced(self.len() as usize, 0, clusters)
    }

    /// The table after each of `texts`, in order, is added at the end of the
    /// document.
    pub open spec fn appended_all(self, texts: Seq<Seq<Seq<char>>>) -> TableView
        decreases texts.len(),
    {
        if texts.len() == 0 {
            self
        } else {
            self.appended(texts.first()).appended_all(texts.drop_first())
        }
    }

    /// Whether the span in front of the sentinel is the one that ends the
    /// added buffer, so that text added at the end of the document can grow
    /// it.
    pub open spec fn ends_in_added(self) -> bool {
        &&& self.spans.len() >= 2
        &&& self.spans[self.spans.len() - 2].source == Source::Added
        &&& self.spans[self.spans.len() - 2].position + self.spans[self.spans.len() - 2].length
            == self.added.len()
    }

    /// Whether `after` is what adding `clusters` at the end of the document
    /// makes of this table's spans. No clusters change nothing. With
    /// extension on and the span in front of the sentinel ending the added
    /// buffer, that span grows by the clusters and no span is added. In every
    /// other case the clusters get one new span in front of the sentinel.
    /// Where clusters were added, the span in front of the sentinel ends the
    /// added buffer afterwards.
    pub open spec fn grows_into(self, after: TableView, clusters: Seq<Seq<char>>) -> bool {
        let fresh = appended_span(Source::Added, self.added.len() as usize, clusters);
        if clusters.len() == 0 {
            after == self
        } else if self.extend_spans && self.ends_in_added() {
            let last = self.spans.len() - 2;
            &&& after.ends_in_added()
            &&& after.spans == self.spans.update(last, self.spans[last].extended(fresh))
        } else {
            &&& after.ends_in_added()
            &&& after.spans == self.spans.drop_last().push(fresh).push(self.spans.last())
        }
    }

    /// Whether span `index` records a line terminator at document position
    /// `position`.
    pub open spec fn recorded_in(self, index: int, position: int) -> bool {
        let offset = position - total_length(self.spans.take(index));
        &&& 0 <= offset < self.spans[index].length
        &&& self.spans[index].breaks().contains(offset as usize)
    }

    /// Whether some span records a line terminator at document position
    /// `position`.
    pub open spec fn recorded_break(self, position: int) -> bool {
        exists|index: int|
            0 <= index < self.spans.len() && #[trigger] self.recorded_in(index, position)
    }

    /// Whether `found` is the first recorded line terminator at or behind
    /// `position`.
    pub open spec fn is_break_from(self, position: int, found: int) -> bool {
        &&& position <= found
        &&& self.recorded_break(found)
        &&& forall|between: int|
            position <= between < found ==> !#[trigger] self.recorded_break(between)
    }

    /// The first recorded line terminator at or behind `position`, if there
    /// is one.
    pub open spec fn break_from(self, position: int) -> Option<int> {
        if exists|found: int| #[trigger] self.is_break_from(position, found) {
            Some(choose|found: int| #[trigger] self.is_break_from(position, found))
        } else {
            None
        }
    }

    /// The line that starts at `position`: the text up to the next recorded
    /// terminator, the terminator left out, or the rest of the document
    /// where no recorded terminator follows. The rest may be empty: it is so
    /// when the document ends at a terminator, and when it is empty.
    pub open spec fn line_at(self, position: int) -> Seq<char> {
        match self.break_from(position) {
            Some(found) => self.units().subrange(position, found).flatten(),
            None => self.units().subrange(position, self.len() as int).flatten(),
        }
    }

    /// The line that a reader yields next: none once reading is finished,
    /// else the line that starts where it stands.
    pub open spec fn next_line(self, reading: Reading) -> Option<Seq<char>> {
        if reading.finished {
            None
        } else {
            Some(self.line_at(reading.position))
        }
    }

    /// Where a reader stands once its next line is passed: behind the line's
    /// terminator; or, where no recorded terminator follows, at the end of
    /// the document with reading finished, for that line was the last.
    pub open spec fn after_line(self, reading: Reading) -> Reading {
        if reading.finished {
            reading
        } else {
            match self.break_from(reading.position) {
                Some(found) => Reading { position: found + 1, finished: false },
                None => Reading { position: self.len() as int, finished: true },
            }
        }
    }

    /// Where a reader stands once `count` lines are passed.
    pub open spec fn skip_lines(self, reading: Reading, count: nat) -> Reading
        decreases count,
    {
        if count == 0 {
            reading
        } else {
            self.skip_lines(self.after_line(reading), (count - 1) as nat)
        }
    }
}

} // verus!
