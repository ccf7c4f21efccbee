//! Facts about the model that the edits' contracts rest on.

use super::content::{appended_span, read_bounds, Source};
use super::graphemes::{
    break_offsets, breaks_after, breaks_before, breaks_shifted, is_line_break, marks_breaks,
};
use super::model::{is_edit_of, span_index_at, spliced, total_length, ChangeView, TableView};
use super::SpanAddress;
use super::span::SpanView;
use vstd::prelude::*;

verus! {

/// Lengths add up over concatenation.
pub proof fn lemma_total_concat(a: Seq<SpanView>, b: Seq<SpanView>)
    ensures
        total_length(a + b) == total_length(a) + total_length(b),
    decreases b.len(),
{
    if b.len() == 0 {
        assert(a + b =~= a);
    } else {
        assert((a + b).drop_last() =~= a + b.drop_last());
        lemma_total_concat(a, b.drop_last());
    }
}

/// A longer prefix is at least as long.
pub proof fn lemma_total_take(spans: Seq<SpanView>, i: int, j: int)
    requires
        0 <= i <= j <= spans.len(),
    ensures
        total_length(spans.take(j)) == total_length(spans.take(i)) + total_length(
            spans.subrange(i, j),
        ),
        total_length(spans.take(i)) <= total_length(spans.take(j)),
        total_length(spans.take(spans.len() as int)) == total_length(spans),
{
    assert(spans.take(j) =~= spans.take(i) + spans.subrange(i, j));
    lemma_total_concat(spans.take(i), spans.subrange(i, j));
    assert(spans.take(spans.len() as int) =~= spans);
}

/// One more span adds its length.
pub proof fn lemma_total_take_next(spans: Seq<SpanView>, i: int)
    requires
        0 <= i < spans.len(),
    ensures
        total_length(spans.take(i + 1)) == total_length(spans.take(i)) + spans[i].length,
{
    assert(spans.take(i + 1).drop_last() =~= spans.take(i));
}

/// Below the total length, [`span_index_at`] is the span whose range holds
/// the position.
pub proof fn lemma_index_at(spans: Seq<SpanView>, position: int)
    requires
        0 <= position < total_length(spans),
    ensures
        0 <= span_index_at(spans, position) < spans.len(),
        total_length(spans.take(span_index_at(spans, position))) <= position,
        position < total_length(spans.take(span_index_at(spans, position) + 1)),
    decreases spans.len(),
{
    if spans.len() == 0 {
    } else if position < total_length(spans.drop_last()) {
        lemma_index_at(spans.drop_last(), position);
        let i = span_index_at(spans.drop_last(), position);
        assert(spans.drop_last().take(i) =~= spans.take(i));
        assert(spans.drop_last().take(i + 1) =~= spans.take(i + 1));
    } else {
        let i = spans.len() - 1;
        assert(spans.take(i) =~= spans.drop_last());
        assert(spans.take(i + 1) =~= spans);
    }
}

/// Only one span's range holds a position.
pub proof fn lemma_index_unique(spans: Seq<SpanView>, position: int, i: int)
    requires
        0 <= i < spans.len(),
        total_length(spans.take(i)) <= position < total_length(spans.take(i + 1)),
    ensures
        span_index_at(spans, position) == i,
        position < total_length(spans),
    decreases spans.len(),
{
    lemma_total_take(spans, i + 1, spans.len() as int);
    if i == spans.len() - 1 {
        assert(spans.take(i) =~= spans.drop_last());
        assert(spans.take(i + 1) =~= spans);
    } else {
        lemma_total_take(spans, i + 1, spans.len() - 1);
        assert(spans.take(spans.len() - 1) =~= spans.drop_last());
        assert(spans.drop_last().take(i) =~= spans.take(i));
        assert(spans.drop_last().take(i + 1) =~= spans.take(i + 1));
        lemma_index_unique(spans.drop_last(), position, i);
    }
}

/// What [`TableView::address`] returns: a place in the table that stands for
/// the clamped position.
pub proof fn lemma_address(table: TableView, position: int)
    requires
        table.wf(),
        table.indexable(),
        0 <= position,
    ensures
        table.holds(table.address(position)),
        table.position_of(table.address(position)) == table.clamped(position),
        position < table.len() ==> (table.address(position).offset as int)
            < table.spans[table.address(position).index as int].length,
        position >= table.len() ==> table.address(position) == (SpanAddress {
            index: (table.spans.len() - 1) as usize,
            offset: 0,
        }),
{
    let spans = table.spans;
    if position < table.len() {
        lemma_index_at(spans, position);
        let i = span_index_at(spans, position);
        lemma_total_take_next(spans, i);
    } else {
        let last = spans.len() - 1;
        lemma_total_take_next(spans, last);
        lemma_total_take(spans, last + 1, spans.len() as int);
    }
}

/// Addresses keep the order of positions.
pub proof fn lemma_address_order(table: TableView, first: int, second: int)
    requires
        table.wf(),
        table.indexable(),
        0 <= first <= second,
    ensures
        table.address(first).index <= table.address(second).index,
        table.address(first).index == table.address(second).index ==> table.address(
            first,
        ).offset <= table.address(second).offset,
{
    lemma_address(table, first);
    lemma_address(table, second);
    let a = table.address(first);
    let b = table.address(second);
    if a.index > b.index {
        lemma_total_take(table.spans, b.index + 1, a.index as int);
        lemma_total_take_next(table.spans, b.index as int);
    }
}

/// Texts add up over concatenation.
pub proof fn lemma_units_concat(table: TableView, a: Seq<SpanView>, b: Seq<SpanView>)
    ensures
        table.units_of(a + b) == table.units_of(a) + table.units_of(b),
    decreases b.len(),
{
    if b.len() == 0 {
        assert(a + b =~= a);
        assert(table.units_of(a) + table.units_of(b) =~= table.units_of(a));
    } else {
        assert((a + b).drop_last() =~= a + b.drop_last());
        lemma_units_concat(table, a, b.drop_last());
        assert(table.units_of(a + b) =~= table.units_of(a) + table.units_of(b));
    }
}

/// The text of a single span.
pub proof fn lemma_units_single(table: TableView, span: SpanView)
    ensures
        table.units_of(seq![span]) == table.span_units(span),
{
    assert(seq![span].drop_last() =~= Seq::empty());
    assert(table.units_of(seq![span].drop_last()) =~= Seq::empty());
    assert(table.units_of(seq![span]) =~= table.span_units(span));
}

/// Spans that lie inside their buffers denote as many clusters as their
/// lengths say.
pub proof fn lemma_units_len(table: TableView, spans: Seq<SpanView>)
    requires
        forall|i: int| 0 <= i < spans.len() ==> table.valid_span(#[trigger] spans[i]),
    ensures
        table.units_of(spans).len() == total_length(spans),
    decreases spans.len(),
{
    if spans.len() > 0 {
        assert forall|i: int| 0 <= i < spans.drop_last().len() implies table.valid_span(
            #[trigger] spans.drop_last()[i],
        ) by {
            assert(spans.drop_last()[i] == spans[i]);
        }
        lemma_units_len(table, spans.drop_last());
        assert(table.valid_span(spans[spans.len() - 1]));
    }
}

/// The document splits at an address: what lies before it is the text of the
/// spans before plus the head of the addressed span, what lies after it is
/// the tail of that span plus the text of the spans behind.
pub proof fn lemma_units_at(table: TableView, address: SpanAddress)
    requires
        table.wf(),
        table.holds(address),
    ensures
        table.units().len() == table.len(),
        0 <= table.position_of(address) <= table.len(),
        table.units().take(table.position_of(address)) == table.units_of(
            table.spans.take(address.index as int),
        ) + table.span_units(table.spans[address.index as int]).take(address.offset as int),
        table.units().skip(table.position_of(address)) == table.span_units(
            table.spans[address.index as int],
        ).skip(address.offset as int) + table.units_of(table.spans.skip(address.index + 1)),
{
    let spans = table.spans;
    let i = address.index as int;
    let before = spans.take(i);
    let after = spans.skip(i + 1);
    assert(spans =~= before + seq![spans[i]] + after);
    lemma_units_concat(table, before + seq![spans[i]], after);
    lemma_units_concat(table, before, seq![spans[i]]);
    lemma_units_single(table, spans[i]);
    lemma_units_len(table, spans);
    assert forall|k: int| 0 <= k < before.len() implies table.valid_span(#[trigger] before[k]) by {
        assert(before[k] == spans[k]);
    }
    lemma_units_len(table, before);
    lemma_total_take_next(spans, i);
    lemma_total_take(spans, i + 1, spans.len() as int);
    assert(table.valid_span(spans[i]));
    let mid = table.span_units(spans[i]);
    let cut = table.position_of(address);
    assert(table.units() =~= table.units_of(before) + mid + table.units_of(after));
    assert(table.units().take(cut) =~= table.units_of(before) + mid.take(address.offset as int));
    assert(table.units().skip(cut) =~= mid.skip(address.offset as int) + table.units_of(after));
}

/// Whether `list` is strictly ascending.
pub open spec fn ascending(list: Seq<usize>) -> bool {
    forall|i: int, j: int| 0 <= i < j < list.len() ==> #[trigger] list[i] < #[trigger] list[j]
}

/// [`break_offsets`] lists line terminators only, in ascending order.
pub proof fn lemma_break_offsets(units: Seq<Seq<char>>)
    requires
        units.len() <= usize::MAX,
    ensures
        marks_breaks(units, break_offsets(units)),
    decreases units.len(),
{
    if units.len() > 0 {
        lemma_break_offsets(units.drop_last());
        let rest = break_offsets(units.drop_last());
        let list = break_offsets(units);
        assert forall|i: int| 0 <= i < list.len() implies (#[trigger] list[i] as int) < units.len()
            && is_line_break(units[list[i] as int]) by {
            if i < rest.len() {
                assert(list[i] == rest[i]);
                assert(units.drop_last()[rest[i] as int] == units[rest[i] as int]);
            }
        }
        assert forall|i: int, j: int| 0 <= i < j < list.len() implies #[trigger] list[i]
            < #[trigger] list[j] by {
            assert(list[i] == rest[i]);
            if j < rest.len() {
                assert(list[j] == rest[j]);
            }
        }
    }
}

/// [`break_offsets`] lists every line terminator.
pub proof fn lemma_break_offsets_complete(units: Seq<Seq<char>>, offset: int)
    requires
        0 <= offset < units.len() <= usize::MAX,
        is_line_break(units[offset]),
    ensures
        break_offsets(units).contains(offset as usize),
    decreases units.len(),
{
    let list = break_offsets(units);
    if offset == units.len() - 1 {
        assert(list[list.len() - 1] == offset as usize);
    } else {
        let shorter = units.drop_last();
        assert(shorter[offset] == units[offset]);
        lemma_break_offsets_complete(shorter, offset);
        let rest = break_offsets(shorter);
        let found = choose|found: int| 0 <= found < rest.len() && rest[found] == offset as usize;
        assert(list[found] == offset as usize);
    }
}

/// What [`breaks_before`] keeps comes from the list, lies below the cut and
/// stays in order.
pub proof fn lemma_breaks_before(list: Seq<usize>, cut: usize)
    ensures
        forall|k: int|
            0 <= k < breaks_before(list, cut).len() ==> list.contains(
                #[trigger] breaks_before(list, cut)[k],
            ) && breaks_before(list, cut)[k] < cut,
        ascending(list) ==> ascending(breaks_before(list, cut)),
    decreases list.len(),
{
    if list.len() > 0 {
        let shorter = list.drop_last();
        lemma_breaks_before(shorter, cut);
        let rest = breaks_before(shorter, cut);
        let kept = breaks_before(list, cut);
        assert forall|k: int| 0 <= k < kept.len() implies list.contains(#[trigger] kept[k])
            && kept[k] < cut by {
            if k < rest.len() {
                assert(kept[k] == rest[k]);
                let j = choose|j: int| 0 <= j < shorter.len() && shorter[j] == rest[k];
                assert(list[j] == rest[k]);
            } else {
                assert(list[list.len() - 1] == kept[k]);
            }
        }
        if ascending(list) {
            assert forall|i: int, j: int| 0 <= i < j < shorter.len() implies #[trigger] shorter[i]
                < #[trigger] shorter[j] by {
                assert(shorter[i] == list[i] && shorter[j] == list[j]);
            }
            assert forall|i: int, j: int| 0 <= i < j < kept.len() implies #[trigger] kept[i]
                < #[trigger] kept[j] by {
                assert(kept[i] == rest[i]);
                if j < rest.len() {
                    assert(kept[j] == rest[j]);
                } else {
                    let m = choose|m: int| 0 <= m < shorter.len() && shorter[m] == rest[i];
                    assert(list[m] < list[list.len() - 1]);
                }
            }
        }
    }
}

/// What [`breaks_after`] keeps comes from the list, from beyond the cut,
/// counted from the cut, and stays in order.
pub proof fn lemma_breaks_after(list: Seq<usize>, cut: usize)
    ensures
        forall|k: int|
            0 <= k < breaks_after(list, cut).len() ==> list.contains(
                (#[trigger] breaks_after(list, cut)[k] + cut) as usize,
            ) && breaks_after(list, cut)[k] + cut <= usize::MAX,
        ascending(list) ==> ascending(breaks_after(list, cut)),
    decreases list.len(),
{
    if list.len() > 0 {
        let shorter = list.drop_last();
        lemma_breaks_after(shorter, cut);
        let rest = breaks_after(shorter, cut);
        let kept = breaks_after(list, cut);
        assert forall|k: int| 0 <= k < kept.len() implies list.contains(
            (#[trigger] kept[k] + cut) as usize,
        ) && kept[k] + cut <= usize::MAX by {
            if k < rest.len() {
                assert(kept[k] == rest[k]);
                let j = choose|j: int|
                    0 <= j < shorter.len() && shorter[j] == (rest[k] + cut) as usize;
                assert(list[j] == (rest[k] + cut) as usize);
            } else {
                assert(list[list.len() - 1] == (kept[k] + cut) as usize);
            }
        }
        if ascending(list) {
            assert forall|i: int, j: int| 0 <= i < j < shorter.len() implies #[trigger] shorter[i]
                < #[trigger] shorter[j] by {
                assert(shorter[i] == list[i] && shorter[j] == list[j]);
            }
            assert forall|i: int, j: int| 0 <= i < j < kept.len() implies #[trigger] kept[i]
                < #[trigger] kept[j] by {
                assert(kept[i] == rest[i]);
                if j < rest.len() {
                    assert(kept[j] == rest[j]);
                } else {
                    let m = choose|m: int|
                        0 <= m < shorter.len() && shorter[m] == (rest[i] + cut) as usize;
                    assert(list[m] < list[list.len() - 1]);
                }
            }
        }
    }
}

/// Cutting a valid span in two gives two valid spans that denote the two
/// parts of its text.
pub proof fn lemma_head_tail(table: TableView, span: SpanView, cut: usize)
    requires
        table.bounded(),
        table.valid_span(span),
        cut <= span.length,
    ensures
        table.valid_span(span.head(cut)),
        table.valid_span(span.tail(cut)),
        table.span_units(span.head(cut)) == table.span_units(span).take(cut as int),
        table.span_units(span.tail(cut)) == table.span_units(span).skip(cut as int),
        span.head(cut).length + span.tail(cut).length == span.length,
{
    let units = table.span_units(span);
    assert(table.span_units(span.head(cut)) =~= units.take(cut as int));
    assert(table.span_units(span.tail(cut)) =~= units.skip(cut as int));
    if span.line_breaks is Some {
        let list = span.line_breaks->0;
        lemma_breaks_before(list, cut);
        lemma_breaks_after(list, cut);
        let before = breaks_before(list, cut);
        let after = breaks_after(list, cut);
        assert forall|i: int| 0 <= i < before.len() implies (#[trigger] before[i] as int)
            < units.take(cut as int).len() && is_line_break(
            units.take(cut as int)[before[i] as int],
        ) by {
            let j = choose|j: int| 0 <= j < list.len() && list[j] == before[i];
            assert(is_line_break(units[list[j] as int]));
        }
        assert forall|i: int| 0 <= i < after.len() implies (#[trigger] after[i] as int)
            < units.skip(cut as int).len() && is_line_break(
            units.skip(cut as int)[after[i] as int],
        ) by {
            let j = choose|j: int| 0 <= j < list.len() && list[j] == (after[i] + cut) as usize;
            assert(is_line_break(units[list[j] as int]));
        }
    }
}

/// Storing more text keeps every valid span valid and its text unchanged.
pub proof fn lemma_grown_span(table: TableView, clusters: Seq<Seq<char>>, span: SpanView)
    requires
        table.valid_span(span),
    ensures
        table.grown(clusters).valid_span(span),
        table.grown(clusters).span_units(span) == table.span_units(span),
{
    assert(table.grown(clusters).span_units(span) =~= table.span_units(span));
}

/// Storing more text keeps the text of valid spans unchanged.
pub proof fn lemma_grown_units(table: TableView, clusters: Seq<Seq<char>>, spans: Seq<SpanView>)
    requires
        forall|i: int| 0 <= i < spans.len() ==> table.valid_span(#[trigger] spans[i]),
    ensures
        forall|i: int|
            0 <= i < spans.len() ==> table.grown(clusters).valid_span(#[trigger] spans[i]),
        table.grown(clusters).units_of(spans) == table.units_of(spans),
    decreases spans.len(),
{
    assert forall|i: int| 0 <= i < spans.len() implies table.grown(clusters).valid_span(
        #[trigger] spans[i],
    ) by {
        lemma_grown_span(table, clusters, spans[i]);
    }
    if spans.len() > 0 {
        assert forall|i: int| 0 <= i < spans.drop_last().len() implies table.valid_span(
            #[trigger] spans.drop_last()[i],
        ) by {
            assert(spans.drop_last()[i] == spans[i]);
        }
        lemma_grown_units(table, clusters, spans.drop_last());
        lemma_grown_span(table, clusters, spans[spans.len() - 1]);
    }
}

/// The span handed out for freshly stored text is valid and denotes that
/// text.
pub proof fn lemma_fresh_span(table: TableView, clusters: Seq<Seq<char>>)
    requires
        table.added.len() + clusters.len() <= usize::MAX,
    ensures
        table.grown(clusters).valid_span(
            appended_span(Source::Added, table.added.len() as usize, clusters),
        ),
        table.grown(clusters).span_units(
            appended_span(Source::Added, table.added.len() as usize, clusters),
        ) == clusters,
{
    let fresh = appended_span(Source::Added, table.added.len() as usize, clusters);
    assert(table.grown(clusters).span_units(fresh) =~= clusters);
    lemma_break_offsets(clusters);
}

/// Growing the span that ends the added buffer by freshly stored text gives
/// a valid span that denotes the old text followed by the new.
pub proof fn lemma_extended_span(table: TableView, clusters: Seq<Seq<char>>, previous: SpanView)
    requires
        table.valid_span(previous),
        previous.source == Source::Added,
        previous.position + previous.length == table.added.len(),
        table.added.len() + clusters.len() <= usize::MAX,
    ensures
        table.grown(clusters).valid_span(
            previous.extended(appended_span(Source::Added, table.added.len() as usize, clusters)),
        ),
        table.grown(clusters).span_units(
            previous.extended(appended_span(Source::Added, table.added.len() as usize, clusters)),
        ) == table.span_units(previous) + clusters,
{
    let fresh = appended_span(Source::Added, table.added.len() as usize, clusters);
    let grown = table.grown(clusters);
    let joined = previous.extended(fresh);
    let units = grown.span_units(joined);
    assert(units =~= table.span_units(previous) + clusters);
    lemma_break_offsets(clusters);
    let first = previous.breaks();
    let second = breaks_shifted(fresh.breaks(), previous.length);
    let list = first + second;
    assert forall|i: int| 0 <= i < list.len() implies (#[trigger] list[i] as int) < units.len()
        && is_line_break(units[list[i] as int]) by {
        if i < first.len() {
            assert(list[i] == first[i]);
            assert(units[first[i] as int] == table.span_units(previous)[first[i] as int]);
        } else {
            let k = i - first.len();
            assert(list[i] == second[k]);
            assert(units[second[k] as int] == clusters[fresh.breaks()[k] as int]);
        }
    }
    assert forall|i: int, j: int| 0 <= i < j < list.len() implies #[trigger] list[i]
        < #[trigger] list[j] by {
        if j < first.len() {
            assert(list[i] == first[i] && list[j] == first[j]);
        } else if i < first.len() {
            assert(list[i] == first[i]);
            assert(list[j] == second[j - first.len()]);
        } else {
            assert(list[i] == second[i - first.len()]);
            assert(list[j] == second[j - first.len()]);
        }
    }
}

/// What spans denote depends on the buffers only.
pub proof fn lemma_units_same_buffers(first: TableView, second: TableView, spans: Seq<SpanView>)
    requires
        first.original == second.original,
        first.added == second.added,
    ensures
        first.units_of(spans) == second.units_of(spans),
    decreases spans.len(),
{
    if spans.len() > 0 {
        lemma_units_same_buffers(first, second, spans.drop_last());
    }
}

/// The text of a splice: what the spans before denote, then the inserted
/// spans, then the spans behind.
pub proof fn lemma_spliced_units(
    table: TableView,
    spans: Seq<SpanView>,
    index: int,
    removed: int,
    inserted: Seq<SpanView>,
)
    requires
        0 <= index,
        0 <= removed,
        index + removed <= spans.len(),
    ensures
        table.units_of(spliced(spans, index, removed, inserted)) == table.units_of(
            spans.take(index),
        ) + table.units_of(inserted) + table.units_of(spans.skip(index + removed)),
{
    lemma_units_concat(table, spans.take(index) + inserted, spans.skip(index + removed));
    lemma_units_concat(table, spans.take(index), inserted);
}

/// A splice of valid spans into valid spans that leaves the last span alone
/// gives valid spans with the same last span.
pub proof fn lemma_spliced_valid(
    table: TableView,
    spans: Seq<SpanView>,
    index: int,
    removed: int,
    inserted: Seq<SpanView>,
)
    requires
        0 <= index,
        0 <= removed,
        index + removed < spans.len(),
        forall|i: int| 0 <= i < spans.len() ==> table.valid_span(#[trigger] spans[i]),
        forall|i: int| 0 <= i < inserted.len() ==> table.valid_span(#[trigger] inserted[i]),
    ensures
        forall|i: int|
            0 <= i < spliced(spans, index, removed, inserted).len() ==> table.valid_span(
                #[trigger] spliced(spans, index, removed, inserted)[i],
            ),
        spliced(spans, index, removed, inserted).len() == spans.len() - removed + inserted.len(),
        spliced(spans, index, removed, inserted).last() == spans.last(),
{
    let result = spliced(spans, index, removed, inserted);
    assert forall|i: int| 0 <= i < result.len() implies table.valid_span(#[trigger] result[i]) by {
        if i < index {
            assert(result[i] == spans[i]);
        } else if i < index + inserted.len() {
            assert(result[i] == inserted[i - index]);
        } else {
            assert(result[i] == spans[i - inserted.len() + removed]);
        }
    }
}

/// The two addresses of an edit are places in the table, in order, and stand
/// for the clamped ends of the replaced range.
pub proof fn lemma_edit_addresses(table: TableView, position: usize, length: usize)
    requires
        table.wf(),
        table.indexable(),
    ensures
        table.holds(table.address(position as int)),
        table.holds(table.end_address(position, length)),
        table.position_of(table.address(position as int)) == table.clamped(position as int),
        table.position_of(table.end_address(position, length)) == table.clamped(
            position + length,
        ),
        table.address(position as int).index <= table.end_address(position, length).index,
        table.end_address(position, length).offset > 0 ==> table.end_address(
            position,
            length,
        ).index + 1 < table.spans.len(),
        table.clamped(position as int) <= table.clamped(position + length),
{
    lemma_address(table, position as int);
    lemma_address(table, position + length);
    lemma_address_order(table, position as int, position + length);
}

/// The edit theorem for an edit that grows the preceding span in place.
proof fn lemma_replaced_extending(
    table: TableView,
    position: usize,
    length: usize,
    clusters: Seq<Seq<char>>,
)
    requires
        table.wf(),
        table.indexable(),
        table.len() + clusters.len() <= usize::MAX,
        table.added.len() + clusters.len() <= usize::MAX,
        length > 0 || clusters.len() > 0,
        table.extends(table.address(position as int), table.end_address(position, length)),
    ensures
        is_edit_of(table.replaced(position, length, clusters), table, position, length, clusters),
{
    let spans = table.spans;
    let start = table.address(position as int);
    let grown = table.grown(clusters);
    let after = table.replaced(position, length, clusters);
    let fresh = appended_span(Source::Added, table.added.len() as usize, clusters);
    let units = table.units();
    let p = table.clamped(position as int);
    let i = start.index as int;
    let previous = spans[i - 1];
    let joined = previous.extended(fresh);
    let inserted = seq![joined];
    lemma_edit_addresses(table, position, length);
    lemma_units_at(table, start);
    assert(after.spans == spliced(spans, i - 1, 1, inserted));
    assert(grown.valid_span(joined) && grown.span_units(joined) == table.span_units(previous)
        + clusters) by {
        lemma_extended_span(table, clusters, previous);
    }
    assert(forall|k: int| 0 <= k < spans.len() ==> grown.valid_span(#[trigger] spans[k])) by {
        lemma_grown_units(table, clusters, spans);
    }
    lemma_spliced_valid(grown, spans, i - 1, 1, inserted);
    assert(grown.units_of(after.spans) == table.units_of(spans.take(i - 1)) + (table.span_units(
        previous,
    ) + clusters) + table.units_of(spans.skip(i))) by {
        lemma_spliced_units(grown, spans, i - 1, 1, inserted);
        lemma_units_single(grown, joined);
        lemma_grown_units(table, clusters, spans.take(i - 1));
        lemma_grown_units(table, clusters, spans.skip(i));
    }
    assert(units.take(p) == table.units_of(spans.take(i - 1)) + table.span_units(previous)) by {
        assert(spans.take(i) =~= spans.take(i - 1) + seq![previous]);
        lemma_units_concat(table, spans.take(i - 1), seq![previous]);
        lemma_units_single(table, previous);
        assert(table.span_units(spans[i]).take(0) =~= Seq::empty());
        assert(table.units_of(spans.take(i)) + Seq::<Seq<char>>::empty() =~= table.units_of(
            spans.take(i),
        ));
    }
    assert(units.skip(p) == table.units_of(spans.skip(i))) by {
        assert(spans.skip(i) =~= seq![spans[i]] + spans.skip(i + 1));
        lemma_units_concat(table, seq![spans[i]], spans.skip(i + 1));
        lemma_units_single(table, spans[i]);
        assert(table.span_units(spans[i]).skip(0) =~= table.span_units(spans[i]));
    }
    lemma_units_same_buffers(after, grown, after.spans);
    assert(after.units() =~= units.take(p) + clusters + units.skip(p));
    lemma_units_len(after, after.spans);
}

/// The head kept in front of an edit is valid and, with the spans before
/// it, denotes what the document holds in front of the edit.
proof fn lemma_head_kept(table: TableView, clusters: Seq<Seq<char>>, start: SpanAddress)
    requires
        table.wf(),
        table.holds(start),
        table.added.len() + clusters.len() <= usize::MAX,
    ensures
        table.units_of(table.spans.take(start.index as int)) + table.grown(clusters).units_of(
            table.head_kept(start),
        ) == table.units().take(table.position_of(start)),
        forall|k: int|
            0 <= k < table.head_kept(start).len() ==> table.grown(clusters).valid_span(
                #[trigger] table.head_kept(start)[k],
            ),
{
    let grown = table.grown(clusters);
    let span = table.spans[start.index as int];
    assert(table.valid_span(span));
    lemma_units_at(table, start);
    lemma_grown_span(table, clusters, span);
    lemma_head_tail(grown, span, start.offset);
    lemma_units_single(grown, span.head(start.offset));
    assert(table.span_units(span).take(0) =~= Seq::empty());
}

/// The span for the clusters put in is valid and denotes them.
proof fn lemma_fresh_kept(table: TableView, clusters: Seq<Seq<char>>)
    requires
        table.added.len() + clusters.len() <= usize::MAX,
    ensures
        table.grown(clusters).units_of(table.fresh_span(clusters)) == clusters,
        forall|k: int|
            0 <= k < table.fresh_span(clusters).len() ==> table.grown(clusters).valid_span(
                #[trigger] table.fresh_span(clusters)[k],
            ),
{
    let grown = table.grown(clusters);
    lemma_fresh_span(table, clusters);
    lemma_units_single(
        grown,
        appended_span(Source::Added, table.added.len() as usize, clusters),
    );
    if clusters.len() == 0 {
        assert(clusters =~= Seq::empty());
    }
}

/// The tail kept behind an edit is valid and, with the spans behind it,
/// denotes what the document holds behind the edit.
proof fn lemma_tail_kept(table: TableView, clusters: Seq<Seq<char>>, end: SpanAddress)
    requires
        table.wf(),
        table.holds(end),
        table.added.len() + clusters.len() <= usize::MAX,
    ensures
        table.grown(clusters).units_of(table.tail_kept(end)) + table.units_of(
            table.spans.skip(table.stop_index(end)),
        ) == table.units().skip(table.position_of(end)),
        forall|k: int|
            0 <= k < table.tail_kept(end).len() ==> table.grown(clusters).valid_span(
                #[trigger] table.tail_kept(end)[k],
            ),
{
    let grown = table.grown(clusters);
    let spans = table.spans;
    let j = end.index as int;
    let span = spans[j];
    assert(table.valid_span(span));
    lemma_units_at(table, end);
    lemma_grown_span(table, clusters, span);
    lemma_head_tail(grown, span, end.offset);
    lemma_units_single(grown, span.tail(end.offset));
    if end.offset == 0 {
        assert(spans.skip(j) =~= seq![span] + spans.skip(j + 1));
        lemma_units_concat(table, seq![span], spans.skip(j + 1));
        lemma_units_single(table, span);
        assert(table.span_units(span).skip(0) =~= table.span_units(span));
        assert(Seq::<Seq<char>>::empty() + table.units_of(spans.skip(j)) =~= table.units_of(
            spans.skip(j),
        ));
    }
}

/// The spans that a splitting edit leaves are valid over the grown buffers
/// and end in the sentinel they ended in.
proof fn lemma_splitting_valid(
    table: TableView,
    position: usize,
    length: usize,
    clusters: Seq<Seq<char>>,
)
    requires
        table.wf(),
        table.indexable(),
        table.added.len() + clusters.len() <= usize::MAX,
    ensures
        ({
            let start = table.address(position as int);
            let end = table.end_address(position, length);
            let change = table.splitting_change(start, end, clusters);
            let result = spliced(
                table.spans,
                change.index as int,
                change.old.len() as int,
                change.new,
            );
            &&& change.old.len() == table.stop_index(end) - start.index
            &&& start.index <= table.stop_index(end) < table.spans.len()
            &&& result.last() == table.spans.last()
            &&& forall|k: int|
                0 <= k < result.len() ==> table.grown(clusters).valid_span(#[trigger] result[k])
        }),
{
    let spans = table.spans;
    let start = table.address(position as int);
    let end = table.end_address(position, length);
    let grown = table.grown(clusters);
    let head = table.head_kept(start);
    let middle = table.fresh_span(clusters);
    let tail = table.tail_kept(end);
    let inserted = head + middle + tail;
    let i = start.index as int;
    let stop = table.stop_index(end);
    lemma_edit_addresses(table, position, length);
    lemma_head_kept(table, clusters, start);
    lemma_fresh_kept(table, clusters);
    lemma_tail_kept(table, clusters, end);
    assert(forall|k: int| 0 <= k < spans.len() ==> grown.valid_span(#[trigger] spans[k])) by {
        lemma_grown_units(table, clusters, spans);
    }
    assert forall|k: int| 0 <= k < inserted.len() implies grown.valid_span(
        #[trigger] inserted[k],
    ) by {
        if k < head.len() {
            assert(inserted[k] == head[k]);
        } else if k < head.len() + middle.len() {
            assert(inserted[k] == middle[k - head.len()]);
        } else {
            assert(inserted[k] == tail[k - head.len() - middle.len()]);
        }
    }
    lemma_spliced_valid(grown, spans, i, stop - i, inserted);
}

/// The spans that a splitting edit leaves denote the document with the
/// replaced range given way to the new clusters.
#[verifier::rlimit(40)]
proof fn lemma_splitting_units(
    table: TableView,
    position: usize,
    length: usize,
    clusters: Seq<Seq<char>>,
)
    requires
        table.wf(),
        table.indexable(),
        table.added.len() + clusters.len() <= usize::MAX,
    ensures
        ({
            let start = table.address(position as int);
            let end = table.end_address(position, length);
            let change = table.splitting_change(start, end, clusters);
            table.grown(clusters).units_of(
                spliced(table.spans, change.index as int, change.old.len() as int, change.new),
            ) == table.units().take(table.clamped(position as int)) + clusters
                + table.units().skip(table.clamped(position + length))
        }),
{
    let spans = table.spans;
    let start = table.address(position as int);
    let end = table.end_address(position, length);
    let grown = table.grown(clusters);
    let units = table.units();
    let p = table.clamped(position as int);
    let e = table.clamped(position + length);
    let i = start.index as int;
    let stop = table.stop_index(end);
    let head = table.head_kept(start);
    let middle = table.fresh_span(clusters);
    let tail = table.tail_kept(end);
    let inserted = head + middle + tail;
    lemma_edit_addresses(table, position, length);
    let result = spliced(spans, i, stop - i, inserted);
    let before = table.units_of(spans.take(i));
    let behind = table.units_of(spans.skip(stop));
    assert(grown.units_of(result) == before + (grown.units_of(head) + grown.units_of(middle)
        + grown.units_of(tail)) + behind) by {
        lemma_spliced_units(grown, spans, i, stop - i, inserted);
        lemma_units_concat(grown, head + middle, tail);
        lemma_units_concat(grown, head, middle);
        lemma_grown_units(table, clusters, spans.take(i));
        lemma_grown_units(table, clusters, spans.skip(stop));
    }
    assert(before + grown.units_of(head) == units.take(p)) by {
        lemma_head_kept(table, clusters, start);
    }
    assert(grown.units_of(middle) == clusters) by {
        lemma_fresh_kept(table, clusters);
    }
    assert(grown.units_of(tail) + behind == units.skip(e)) by {
        lemma_tail_kept(table, clusters, end);
    }
    assert(before + (grown.units_of(head) + grown.units_of(middle) + grown.units_of(tail))
        + behind =~= (before + grown.units_of(head)) + grown.units_of(middle) + (grown.units_of(
        tail,
    ) + behind));
}

/// The edit theorem for an edit that splits and replaces spans.
proof fn lemma_replaced_general(
    table: TableView,
    position: usize,
    length: usize,
    clusters: Seq<Seq<char>>,
)
    requires
        table.wf(),
        table.indexable(),
        table.len() + clusters.len() <= usize::MAX,
        table.added.len() + clusters.len() <= usize::MAX,
        length > 0 || clusters.len() > 0,
        !table.extends(table.address(position as int), table.end_address(position, length)),
    ensures
        is_edit_of(table.replaced(position, length, clusters), table, position, length, clusters),
{
    let start = table.address(position as int);
    let end = table.end_address(position, length);
    let change = table.splitting_change(start, end, clusters);
    let after = table.replaced(position, length, clusters);
    let grown = table.grown(clusters);
    assert(table.change_for(position, length, clusters) == change);
    lemma_edit_addresses(table, position, length);
    lemma_units_len(table, table.spans);
    lemma_splitting_valid(table, position, length, clusters);
    lemma_splitting_units(table, position, length, clusters);
    lemma_units_same_buffers(after, grown, after.spans);
    lemma_units_len(after, after.spans);
}

/// What an edit does to the document: the clusters before the clamped
/// position stay, the new clusters follow, and the clusters from the clamped
/// end of the replaced range on stay behind them. The table stays well
/// formed.
pub proof fn lemma_replaced(
    table: TableView,
    position: usize,
    length: usize,
    clusters: Seq<Seq<char>>,
)
    requires
        table.wf(),
        table.indexable(),
        table.len() + clusters.len() <= usize::MAX,
        table.added.len() + clusters.len() <= usize::MAX,
    ensures
        is_edit_of(table.replaced(position, length, clusters), table, position, length, clusters),
{
    if length == 0 && clusters.len() == 0 {
        lemma_empty_edit(table, position);
        assert(clusters =~= Seq::empty());
        lemma_address(table, position as int);
        lemma_units_len(table, table.spans);
        let units = table.units();
        let at = table.clamped(position as int);
        assert(units.take(at) + clusters + units.skip(at) =~= units);
    } else if table.extends(table.address(position as int), table.end_address(position, length)) {
        lemma_replaced_extending(table, position, length, clusters);
    } else {
        lemma_replaced_general(table, position, length, clusters);
    }
}

/// The change that an edit produces removes exactly the spans it names, none
/// of them the sentinel, and puts at most three in their place, at most two
/// more than it removes.
pub proof fn lemma_change_shape(
    table: TableView,
    position: usize,
    length: usize,
    clusters: Seq<Seq<char>>,
)
    requires
        table.wf(),
        table.indexable(),
    ensures
        ({
            let change = table.change_for(position, length, clusters);
            &&& change.index + change.old.len() < table.spans.len()
            &&& change.old == table.spans.subrange(
                change.index as int,
                change.index + change.old.len(),
            )
            &&& change.new.len() <= 3
            &&& change.new.len() <= change.old.len() + 2
            &&& table.replaced(position, length, clusters).spans.len() == table.spans.len()
                - change.old.len() + change.new.len()
        }),
{
    lemma_edit_addresses(table, position, length);
    let start = table.address(position as int);
    let end = table.end_address(position, length);
    let change = table.change_for(position, length, clusters);
    if length == 0 && clusters.len() == 0 {
        assert(change.old =~= table.spans.subrange(start.index as int, start.index as int));
    } else if table.extends(start, end) {
        assert(change.old =~= table.spans.subrange(start.index - 1, start.index as int));
    }
}

/// A freshly opened table is well formed and its document is the text it was
/// opened with.
pub proof fn lemma_initial(clusters: Seq<Seq<char>>)
    requires
        clusters.len() <= usize::MAX,
    ensures
        TableView::initial(clusters).wf(),
        TableView::initial(clusters).indexable(),
        TableView::initial(clusters).units() == clusters,
        TableView::initial(clusters).len() == clusters.len(),
{
    let table = TableView::initial(clusters);
    let first = appended_span(Source::Original, 0, clusters);
    lemma_break_offsets(clusters);
    assert(table.span_units(first) =~= clusters);
    assert(table.span_units(SpanView::sentinel()) =~= Seq::empty());
    assert(table.spans =~= seq![first] + seq![SpanView::sentinel()]);
    lemma_units_concat(table, seq![first], seq![SpanView::sentinel()]);
    lemma_units_single(table, first);
    lemma_units_single(table, SpanView::sentinel());
    assert(table.units() =~= clusters);
    lemma_units_len(table, table.spans);
}

/// Inside span `index`, document positions and offsets into the span's text
/// correspond.
pub proof fn lemma_units_within(table: TableView, index: int, from: int, to: int)
    requires
        table.wf(),
        table.indexable(),
        0 <= index < table.spans.len(),
        0 <= from <= to <= table.spans[index].length,
    ensures
        table.units().subrange(
            total_length(table.spans.take(index)) + from,
            total_length(table.spans.take(index)) + to,
        ) == table.span_units(table.spans[index]).subrange(from, to),
        total_length(table.spans.take(index)) + table.spans[index].length <= table.len(),
        table.units().len() == table.len(),
{
    let address = SpanAddress { index: index as usize, offset: 0 };
    lemma_units_at(table, address);
    let base = total_length(table.spans.take(index)) as int;
    let units = table.units();
    let inner = table.span_units(table.spans[index]);
    lemma_total_take_next(table.spans, index);
    lemma_total_take(table.spans, index + 1, table.spans.len() as int);
    assert(inner.skip(0) =~= inner);
    assert(units.skip(base).subrange(from, to) =~= inner.subrange(from, to));
    assert(units.skip(base).subrange(from, to) =~= units.subrange(base + from, base + to));
}

/// For a valid span, a read stays inside the span's text.
pub proof fn lemma_read_bounds(table: TableView, span: SpanView, offset: usize, limit: usize)
    requires
        table.valid_span(span),
        offset <= span.length,
        offset + limit <= span.length,
    ensures
        ({
            let stored = table.content(span.source);
            let (start, end) = read_bounds(span, offset, limit, stored.len());
            stored.subrange(start, end) == table.span_units(span).subrange(
                offset as int,
                offset + limit,
            )
        }),
{
    let stored = table.content(span.source);
    let (start, end) = read_bounds(span, offset, limit, stored.len());
    assert(stored.subrange(start, end) =~= table.span_units(span).subrange(
        offset as int,
        offset + limit,
    ));
}

/// An edit that replaces nothing by nothing changes nothing, wherever it
/// stands and whether spans are extended or not: its change holds no spans
/// and leaves the table, buffers included, as it is.
pub proof fn lemma_empty_edit(table: TableView, position: usize)
    requires
        table.wf(),
        table.indexable(),
    ensures
        table.change_for(position, 0, Seq::empty()) == (ChangeView {
            index: table.address(position as int).index,
            new: Seq::empty(),
            old: Seq::empty(),
        }),
        table.replaced(position, 0, Seq::empty()) == table,
{
    let index = table.address(position as int).index as int;
    lemma_address(table, position as int);
    assert(table.added + Seq::<Seq<char>>::empty() =~= table.added);
    assert(spliced(table.spans, index, 0, Seq::empty()) =~= table.spans);
}

} // verus!
