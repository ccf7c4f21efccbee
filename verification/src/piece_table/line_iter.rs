//! Lines: the document read line by line.
//!
//! A line ends at a line terminator that a span records; what follows the
//! last of them is the last line, which is empty where the document ends at
//! a terminator and where it is empty. The reader walks the spans and, inside
//! each, its record of terminators, so that lines can be skipped without
//! their text being put together.

use super::graphemes::is_line_break;
use super::lemmas::{
    lemma_break_offsets, lemma_break_offsets_complete, lemma_index_unique, lemma_initial,
    lemma_read_bounds, lemma_total_take, lemma_total_take_next, lemma_units_len,
    lemma_units_within,
};
use super::model::{total_length, Reading, TableView};
use super::span::span_views;
use super::{PieceTable, SpanAddress};
use vstd::prelude::*;
use vstd::seq_lib::lemma_flatten_concat;

verus! {

/// A forward-only reader of the lines of one piece table.
pub struct LineIter<'pt> {
    piece_table: &'pt PieceTable,
    span_address: SpanAddress,
    line_break_index: usize,
    finished: bool,
}

/// The text of an optional string.
pub open spec fn line_view(line: Option<String>) -> Option<Seq<char>> {
    match line {
        Some(text) => Some(text@),
        None => None,
    }
}

/// A terminator that span `index` records at offset number `entry` of its
/// record is a recorded terminator of the document.
pub proof fn lemma_recorded_here(table: TableView, index: int, entry: int)
    requires
        table.wf(),
        0 <= index < table.spans.len(),
        0 <= entry < table.spans[index].breaks().len(),
    ensures
        table.recorded_break(
            total_length(table.spans.take(index)) + table.spans[index].breaks()[entry],
        ),
        (table.spans[index].breaks()[entry] as int) < table.spans[index].length,
{
    let span = table.spans[index];
    assert(table.valid_span(span));
    let position = total_length(table.spans.take(index)) + span.breaks()[entry];
    assert(span.breaks().contains(span.breaks()[entry]));
    assert(table.recorded_in(index, position));
}

/// A recorded terminator inside the range of span `index` is in that span's
/// record.
pub proof fn lemma_recorded_in_span(table: TableView, index: int, position: int)
    requires
        table.wf(),
        0 <= index < table.spans.len(),
        table.recorded_break(position),
        total_length(table.spans.take(index)) <= position < total_length(
            table.spans.take(index + 1),
        ),
    ensures
        table.spans[index].breaks().contains(
            (position - total_length(table.spans.take(index))) as usize,
        ),
{
    let other = choose|other: int|
        0 <= other < table.spans.len() && #[trigger] table.recorded_in(other, position);
    lemma_total_take_next(table.spans, other);
    lemma_index_unique(table.spans, position, other);
    lemma_index_unique(table.spans, position, index);
}

/// No terminator is recorded at or beyond the end of the document.
pub proof fn lemma_no_break_beyond(table: TableView, position: int)
    requires
        table.wf(),
        table.len() <= position,
    ensures
        !table.recorded_break(position),
{
    if table.recorded_break(position) {
        let index = choose|index: int|
            0 <= index < table.spans.len() && #[trigger] table.recorded_in(index, position);
        lemma_total_take_next(table.spans, index);
        lemma_total_take(table.spans, index + 1, table.spans.len() as int);
    }
}

/// A freshly opened table records every line terminator of its document and
/// nothing else.
pub proof fn lemma_initial_records_all(clusters: Seq<Seq<char>>, position: int)
    requires
        clusters.len() <= usize::MAX,
    ensures
        TableView::initial(clusters).recorded_break(position) <==> 0 <= position < clusters.len()
            && is_line_break(clusters[position]),
{
    let table = TableView::initial(clusters);
    lemma_initial(clusters);
    lemma_break_offsets(clusters);
    assert(table.spans.take(0) =~= Seq::empty());
    assert(table.spans.take(1) =~= seq![table.spans[0]]);
    assert(table.spans.take(1).drop_last() =~= Seq::empty());
    assert(total_length(table.spans.take(1)) == clusters.len());
    if 0 <= position < clusters.len() && is_line_break(clusters[position]) {
        lemma_break_offsets_complete(clusters, position);
        assert(table.recorded_in(0, position));
    }
    if table.recorded_break(position) {
        let index = choose|index: int|
            0 <= index < table.spans.len() && #[trigger] table.recorded_in(index, position);
        if index == 0 {
            let list = table.spans[0].breaks();
            let entry = choose|entry: int|
                0 <= entry < list.len() && list[entry] == position as usize;
            assert(is_line_break(clusters[list[entry] as int]));
        }
    }
}

/// The first recorded terminator from a position on is unique.
pub proof fn lemma_break_from_is(table: TableView, position: int, found: int)
    requires
        table.is_break_from(position, found),
    ensures
        table.break_from(position) == Some(found),
{
    let chosen = choose|chosen: int| #[trigger] table.is_break_from(position, chosen);
    if chosen < found {
        assert(!table.recorded_break(chosen));
    } else if found < chosen {
        assert(!table.recorded_break(found));
    }
}

/// Without a recorded terminator from a position on, none is found.
pub proof fn lemma_break_from_none(table: TableView, position: int)
    requires
        forall|found: int| position <= found ==> !#[trigger] table.recorded_break(found),
    ensures
        table.break_from(position) is None,
{
}

impl<'pt> LineIter<'pt> {
    /// The table that is read.
    pub closed spec fn table(&self) -> TableView {
        self.piece_table@
    }

    /// The document position that reading stands at.
    pub closed spec fn position(&self) -> int {
        total_length(self.table().spans.take(self.span_address.index as int))
            + self.span_address.offset
    }

    /// Whether the last line has been yielded or passed.
    pub closed spec fn finished(&self) -> bool {
        self.finished
    }

    /// Where reading stands.
    pub open spec fn reading(&self) -> Reading {
        Reading { position: self.position(), finished: self.finished() }
    }

    /// Whether the reader stands at a place of a well-formed table, with its
    /// count of passed terminators in step with its offset, and at the end
    /// once reading is finished.
    pub closed spec fn wf(&self) -> bool {
        let spans = self.table().spans;
        let index = self.span_address.index as int;
        let offset = self.span_address.offset;
        let passed = self.line_break_index as int;
        &&& self.piece_table.wf()
        &&& index <= spans.len()
        &&& self.finished ==> index == spans.len()
        &&& index == spans.len() ==> offset == 0 && passed == 0
        &&& index < spans.len() ==> {
            &&& offset <= spans[index].length
            &&& passed <= spans[index].breaks().len()
            &&& forall|entry: int|
                0 <= entry < passed ==> #[trigger] spans[index].breaks()[entry] < offset
            &&& forall|entry: int|
                passed <= entry < spans[index].breaks().len() ==> offset
                    <= #[trigger] spans[index].breaks()[entry]
        }
    }

    /// A reader that stands at the start of `piece_table`.
    pub fn new(piece_table: &'pt PieceTable) -> (lines: Self)
        requires
            piece_table.wf(),
        ensures
            lines.wf(),
            lines.table() == piece_table@,
            lines.reading() == (Reading { position: 0, finished: false }),
    {
        let lines = LineIter {
            piece_table,
            span_address: SpanAddress { index: 0, offset: 0 },
            line_break_index: 0,
            finished: false,
        };
        proof {
            assert(piece_table@.spans.take(0) =~= Seq::empty());
        }
        lines
    }

    /// What well-formedness means to the outside: the table read is well
    /// formed, and the reader stands inside the document, at its end once
    /// reading is finished.
    pub proof fn lemma_position(&self)
        requires
            self.wf(),
        ensures
            self.table().wf(),
            self.table().indexable(),
            0 <= self.position() <= self.table().len(),
            self.finished() ==> self.position() == self.table().len(),
    {
        let spans = self.table().spans;
        let index = self.span_address.index as int;
        if index < spans.len() {
            lemma_total_take_next(spans, index);
            lemma_total_take(spans, index + 1, spans.len() as int);
        } else {
            lemma_total_take(spans, index, spans.len() as int);
        }
    }

    /// Passes one line: moves behind the next recorded terminator, or, when
    /// none follows, to the end of the document, where reading is finished;
    /// says which. With `keep`, the text of the line is returned as well.
    fn advance(&mut self, keep: bool) -> (result: (bool, String))
        requires
            old(self).wf(),
            !old(self).finished(),
        ensures
            final(self).wf(),
            final(self).table() == old(self).table(),
            result.0 == (old(self).table().break_from(old(self).position()) is Some),
            final(self).reading() == old(self).table().after_line(old(self).reading()),
            old(self).position() <= final(self).position() <= old(self).table().len(),
            result.0 ==> old(self).position() < final(self).position(),
            keep ==> result.1@ == old(self).table().line_at(old(self).position()),
    {
        let mut buffer = String::new();
        let spans = self.piece_table.spans();
        let ghost table = self.table();
        let ghost units = table.units();
        let ghost from = self.position();
        proof {
            self.lemma_position();
            lemma_units_len(table, table.spans);
            assert(units.subrange(from, from) =~= Seq::empty());
        }
        while self.span_address.index < spans.len()
            invariant
                self.wf(),
                !self.finished,
                !old(self).finished,
                self.table() == table,
                table == old(self).table(),
                units == table.units(),
                span_views(spans@) == table.spans,
                spans@.len() == table.spans.len(),
                from == old(self).position(),
                from <= self.position() <= table.len(),
                units.len() == table.len(),
                forall|between: int|
                    from <= between < self.position() ==> !#[trigger] table.recorded_break(
                        between,
                    ),
                keep ==> buffer@ == units.subrange(from, self.position()).flatten(),
            decreases spans.len() - self.span_address.index,
        {
            let index = self.span_address.index;
            let offset = self.span_address.offset;
            let span = &spans[index];
            let ghost base = total_length(table.spans.take(index as int)) as int;
            let ghost here = base + offset;
            proof {
                assert(span@ == table.spans[index as int]);
                assert(table.valid_span(span@));
                lemma_total_take_next(table.spans, index as int);
                lemma_total_take(table.spans, index + 1, table.spans.len() as int);
            }
            let upcoming = match &span.line_breaks {
                Some(line_breaks) => {
                    if self.line_break_index < line_breaks.len() {
                        Some(line_breaks[self.line_break_index])
                    } else {
                        None
                    }
                },
                None => None,
            };
            match upcoming {
                Some(line_break_position) => {
                    proof {
                        lemma_recorded_here(table, index as int, self.line_break_index as int);
                    }
                    if keep {
                        let part = self.piece_table.span_as_str(
                            span,
                            offset,
                            line_break_position - offset,
                        );
                        proof {
                            lemma_read_bounds(
                                table,
                                span@,
                                offset,
                                (line_break_position - offset) as usize,
                            );
                            lemma_units_within(
                                table,
                                index as int,
                                offset as int,
                                line_break_position as int,
                            );
                            let found = base + line_break_position;
                            assert(units.subrange(from, found) =~= units.subrange(from, here)
                                + units.subrange(here, found));
                            lemma_flatten_concat(
                                units.subrange(from, here),
                                units.subrange(here, found),
                            );
                        }
                        buffer.append(part.as_str());
                    }
                    proof {
                        let found = base + line_break_position;
                        let passed = self.line_break_index as int;
                        assert forall|between: int| from <= between < found implies
                            !#[trigger] table.recorded_break(between) by {
                            if here <= between && table.recorded_break(between) {
                                lemma_recorded_in_span(table, index as int, between);
                                let entry = choose|entry: int|
                                    0 <= entry < span@.breaks().len() && span@.breaks()[entry] == (
                                    between - base) as usize;
                                if entry > passed {
                                    assert(span@.breaks()[passed] < span@.breaks()[entry]);
                                }
                            }
                        }
                        assert(table.is_break_from(from, found));
                        lemma_break_from_is(table, from, found);
                    }
                    self.span_address.offset = line_break_position + 1;
                    self.line_break_index = self.line_break_index + 1;
                    proof {
                        let passed = self.line_break_index as int;
                        assert forall|entry: int| 0 <= entry < passed implies
                            #[trigger] span@.breaks()[entry] < self.span_address.offset by {
                            if entry < passed - 1 {
                                assert(span@.breaks()[entry] < span@.breaks()[passed - 1]);
                            }
                        }
                        assert forall|entry: int|
                            passed <= entry < span@.breaks().len() implies self.span_address.offset
                            <= #[trigger] span@.breaks()[entry] by {
                            assert(span@.breaks()[passed - 1] < span@.breaks()[entry]);
                        }
                    }
                    return (true, buffer);
                },
                None => {
                    if keep {
                        let part = self.piece_table.span_as_str(span, offset, span.length - offset);
                        proof {
                            lemma_read_bounds(
                                table,
                                span@,
                                offset,
                                (span.length - offset) as usize,
                            );
                            lemma_units_within(
                                table,
                                index as int,
                                offset as int,
                                span.length as int,
                            );
                            let next = base + span.length;
                            assert(units.subrange(from, next) =~= units.subrange(from, here)
                                + units.subrange(here, next));
                            lemma_flatten_concat(
                                units.subrange(from, here),
                                units.subrange(here, next),
                            );
                        }
                        buffer.append(part.as_str());
                    }
                    proof {
                        let next = base + span.length;
                        assert forall|between: int| from <= between < next implies
                            !#[trigger] table.recorded_break(between) by {
                            if here <= between && table.recorded_break(between) {
                                lemma_recorded_in_span(table, index as int, between);
                                let entry = choose|entry: int|
                                    0 <= entry < span@.breaks().len() && span@.breaks()[entry] == (
                                    between - base) as usize;
                                assert(span@.breaks()[entry] < offset);
                            }
                        }
                    }
                    self.span_address.index = index + 1;
                    self.span_address.offset = 0;
                    self.line_break_index = 0;
                },
            }
        }
        proof {
            assert(self.position() == table.len()) by {
                lemma_total_take(table.spans, table.spans.len() as int, table.spans.len() as int);
            }
            assert forall|found: int| from <= found implies !#[trigger] table.recorded_break(
                found,
            ) by {
                if table.len() <= found {
                    lemma_no_break_beyond(table, found);
                }
            }
            lemma_break_from_none(table, from);
        }
        self.finished = true;
        (false, buffer)
    }

    /// The next line, if there is one: the text from where reading stands up
    /// to the next recorded terminator, which is left out and passed. Behind
    /// the last recorded terminator, what is left of the document is the last
    /// line, empty if the document ends at a terminator or is empty; after it
    /// reading is finished and no line is left.
    pub fn next(&mut self) -> (line: Option<String>)
        requires
            old(self).wf(),
        ensures
            final(self).wf(),
            final(self).table() == old(self).table(),
            line_view(line) == old(self).table().next_line(old(self).reading()),
            final(self).reading() == old(self).table().after_line(old(self).reading()),
            line is Some <==> !old(self).finished(),
    {
        if self.finished {
            return None;
        }
        let (_, text) = self.advance(true);
        Some(text)
    }

    /// Passes `count` lines without putting their text together.
    fn skip_ahead(&mut self, count: usize)
        requires
            old(self).wf(),
        ensures
            final(self).wf(),
            final(self).table() == old(self).table(),
            final(self).reading() == old(self).table().skip_lines(
                old(self).reading(),
                count as nat,
            ),
    {
        let mut skipped: usize = 0;
        let ghost table = self.table();
        let ghost from = self.reading();
        while skipped < count && !self.finished
            invariant
                self.wf(),
                self.table() == table,
                table == old(self).table(),
                from == old(self).reading(),
                skipped <= count,
                table.skip_lines(from, count as nat) == table.skip_lines(
                    self.reading(),
                    (count - skipped) as nat,
                ),
            decreases count - skipped,
        {
            self.advance(false);
            skipped += 1;
        }
        proof {
            if self.finished {
                lemma_skip_finished(table, self.reading(), (count - skipped) as nat);
            }
        }
    }

    /// The line that follows the next `n` lines, which are passed unread.
    pub fn nth(&mut self, n: usize) -> (line: Option<String>)
        requires
            old(self).wf(),
        ensures
            final(self).wf(),
            final(self).table() == old(self).table(),
            line_view(line) == old(self).table().next_line(
                old(self).table().skip_lines(old(self).reading(), n as nat),
            ),
            final(self).reading() == old(self).table().after_line(
                old(self).table().skip_lines(old(self).reading(), n as nat),
            ),
    {
        self.skip_ahead(n);
        self.next()
    }

    /// The reader moved on by `n` lines, which are passed unread.
    pub fn skip(self, n: usize) -> (lines: Self)
        requires
            self.wf(),
        ensures
            lines.wf(),
            lines.table() == self.table(),
            lines.reading() == self.table().skip_lines(self.reading(), n as nat),
    {
        let mut lines = self;
        lines.skip_ahead(n);
        lines
    }

    /// All lines that are left, in order: line number `i` of the result is
    /// the line found after `i` lines are passed, and after all of them no
    /// line is left.
    pub fn collect(self) -> (lines: Vec<String>)
        requires
            self.wf(),
        ensures
            forall|i: int|
                0 <= i < lines@.len() ==> Some((#[trigger] lines@[i])@)
                    == self.table().next_line(self.table().skip_lines(self.reading(), i as nat)),
            self.table().next_line(self.table().skip_lines(self.reading(), lines@.len()))
                is None,
    {
        let mut reader = self;
        let mut lines: Vec<String> = Vec::new();
        let ghost table = self.table();
        let ghost from = self.reading();
        proof {
            self.lemma_position();
        }
        loop
            invariant
                reader.wf(),
                reader.table() == table,
                table == self.table(),
                from == self.reading(),
                reader.position() <= table.len(),
                reader.reading() == table.skip_lines(from, lines@.len()),
                forall|i: int|
                    0 <= i < lines@.len() ==> Some((#[trigger] lines@[i])@) == table.next_line(
                        table.skip_lines(from, i as nat),
                    ),
            decreases
                    table.len() - reader.position() + if reader.finished() {
                        0int
                    } else {
                        1int
                    },
        {
            let ghost count = lines@.len();
            proof {
                reader.lemma_position();
                lemma_skip_one_more(table, from, count);
                if !reader.finished() {
                    lemma_line_passed(table, reader.reading());
                }
            }
            match reader.next() {
                Some(line) => {
                    lines.push(line);
                },
                None => {
                    return lines;
                },
            }
        }
    }
}

/// Passing a line moves reading on or finishes it: it stays inside the
/// document if it was there, and either the position grows or reading is
/// finished.
pub proof fn lemma_line_passed(table: TableView, reading: Reading)
    requires
        table.wf(),
        !reading.finished,
        0 <= reading.position <= table.len(),
    ensures
        reading.position <= table.after_line(reading).position <= table.len(),
        table.after_line(reading).finished || reading.position < table.after_line(
            reading,
        ).position,
{
    if table.break_from(reading.position) is Some {
        let found = table.break_from(reading.position)->0;
        assert(table.is_break_from(reading.position, found));
        if table.len() <= found {
            lemma_no_break_beyond(table, found);
        }
    }
}

/// Once reading is finished, passing lines changes nothing.
pub proof fn lemma_skip_finished(table: TableView, reading: Reading, count: nat)
    requires
        reading.finished,
    ensures
        table.skip_lines(reading, count) == reading,
    decreases count,
{
    if count > 0 {
        lemma_skip_finished(table, reading, (count - 1) as nat);
    }
}

/// Passing one line more leads to where the line behind the passed ones
/// ends.
pub proof fn lemma_skip_one_more(table: TableView, reading: Reading, count: nat)
    ensures
        table.skip_lines(reading, count + 1) == table.after_line(
            table.skip_lines(reading, count),
        ),
    decreases count,
{
    reveal_with_fuel(TableView::skip_lines, 2);
    if count > 0 {
        lemma_skip_one_more(table, table.after_line(reading), (count - 1) as nat);
    }
}

} // verus!
