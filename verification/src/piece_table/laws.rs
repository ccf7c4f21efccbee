//! Laws of the piece table: what holds of edits taken together.

use super::content::{appended_span, Source};
use super::lemmas::{
    lemma_address, lemma_change_shape, lemma_empty_edit, lemma_grown_units, lemma_replaced,
    lemma_units_len,
};
use super::model::{clusters_put_in, plainly_edited, plainly_edited_all, spliced, Edit, TableView};
use super::span::SpanView;
use vstd::prelude::*;
use vstd::seq_lib::lemma_flatten_concat;

verus! {

/// Splicing back what a splice took out restores the sequence.
pub proof fn lemma_splice_inverse(
    spans: Seq<SpanView>,
    index: int,
    removed: Seq<SpanView>,
    inserted: Seq<SpanView>,
)
    requires
        0 <= index,
        index + removed.len() <= spans.len(),
        removed == spans.subrange(index, index + removed.len()),
    ensures
        spliced(
            spliced(spans, index, removed.len() as int, inserted),
            index,
            inserted.len() as int,
            removed,
        ) == spans,
{
    let forth = spliced(spans, index, removed.len() as int, inserted);
    let back = spliced(forth, index, inserted.len() as int, removed);
    assert(back =~= spans);
}

/// Reversibility: the change of an edit can be reverted right after the
/// edit, which restores the span sequence, and with it the document, that
/// the edit started from; it can then be applied again, which restores what
/// the edit made.
pub proof fn lemma_revert_restores(
    table: TableView,
    position: usize,
    length: usize,
    clusters: Seq<Seq<char>>,
)
    requires
        table.wf(),
        table.indexable(),
        table.len() + clusters.len() <= usize::MAX,
        table.added.len() + clusters.len() <= usize::MAX,
    ensures
        ({
            let change = table.change_for(position, length, clusters);
            let after = table.replaced(position, length, clusters);
            &&& after.admits_reverse(change)
            &&& after.reverted(change) == table.grown(clusters)
            &&& after.reverted(change).units() == table.units()
            &&& after.reverted(change).text() == table.text()
            &&& after.reverted(change).admits(change)
            &&& after.reverted(change).applied(change) == after
        }),
{
    let change = table.change_for(position, length, clusters);
    let after = table.replaced(position, length, clusters);
    let grown = table.grown(clusters);
    lemma_change_shape(table, position, length, clusters);
    lemma_replaced(table, position, length, clusters);
    lemma_splice_inverse(table.spans, change.index as int, change.old, change.new);
    lemma_grown_units(table, clusters, table.spans);
    assert(after.reverted(change).spans == table.spans);
    assert(after.reverted(change) == grown);
    assert(grown.valid_spans(table.spans));
}

/// What adding text at the end of the document does. The text is added to
/// the document and to the added buffer, and the spans change as
/// [`TableView::grows_into`] says: with extension on, a span that can grow
/// takes the text in; otherwise the text gets one new span in front of the
/// sentinel, which the next addition can grow.
pub proof fn lemma_append_step(table: TableView, clusters: Seq<Seq<char>>)
    requires
        table.wf(),
        table.indexable(),
        table.len() + clusters.len() <= usize::MAX,
        table.added.len() + clusters.len() <= usize::MAX,
    ensures
        table.appended(clusters).wf(),
        table.appended(clusters).extend_spans == table.extend_spans,
        table.appended(clusters).original == table.original,
        table.appended(clusters).added == table.added + clusters,
        table.appended(clusters).len() == table.len() + clusters.len(),
        table.appended(clusters).units() == table.units() + clusters,
        table.grows_into(table.appended(clusters), clusters),
{
    let position = table.len() as usize;
    let after = table.appended(clusters);
    let fresh = appended_span(Source::Added, table.added.len() as usize, clusters);
    let count = table.spans.len() as int;
    lemma_address(table, position as int);
    lemma_replaced(table, position, 0, clusters);
    lemma_units_len(table, table.spans);
    let units = table.units();
    assert(units.take(units.len() as int) =~= units);
    assert(units.skip(units.len() as int) =~= Seq::empty());
    assert(units + clusters + Seq::<Seq<char>>::empty() =~= units + clusters);
    let start = table.address(position as int);
    assert(start.index == count - 1 && start.offset == 0);
    if clusters.len() == 0 {
        lemma_empty_edit(table, position);
        assert(clusters =~= Seq::empty());
    } else if table.extends(start, start) {
        assert(after.spans =~= table.spans.update(
            count - 2,
            table.spans[count - 2].extended(fresh),
        ));
    } else {
        assert(after.spans =~= table.spans.drop_last().push(fresh).push(table.spans.last()));
    }
}

/// Span extension: with extension on, any number of additions at the end of
/// the document make at most one span, however many they are. A table that
/// ends in a span that can grow keeps its number of spans, and that span
/// grows by all the clusters added. Any other table gets one new added span
/// in front of the sentinel, as long as all the clusters added, if any text
/// was added at all. The document grows by the texts in order.
pub proof fn lemma_appends_make_one_span(table: TableView, texts: Seq<Seq<Seq<char>>>)
    requires
        table.wf(),
        table.indexable(),
        table.ends_in_added() || table.spans.len() < usize::MAX,
        table.extend_spans,
        table.len() + texts.flatten().len() <= usize::MAX,
        table.added.len() + texts.flatten().len() <= usize::MAX,
    ensures
        table.appended_all(texts).wf(),
        table.appended_all(texts).units() == table.units() + texts.flatten(),
        table.ends_in_added() ==> {
            let last = table.spans.len() - 2;
            let after = table.appended_all(texts);
            &&& after.spans.len() == table.spans.len()
            &&& after.spans[last].source == Source::Added
            &&& after.spans[last].position == table.spans[last].position
            &&& after.spans[last].length == table.spans[last].length + texts.flatten().len()
        },
        !table.ends_in_added() && texts.flatten().len() > 0 ==> {
            let last = table.spans.len() - 1;
            let after = table.appended_all(texts);
            &&& after.spans.len() == table.spans.len() + 1
            &&& after.spans[last].source == Source::Added
            &&& after.spans[last].position == table.added.len()
            &&& after.spans[last].length == texts.flatten().len()
        },
        !table.ends_in_added() && texts.flatten().len() == 0 ==> table.appended_all(texts).spans
            == table.spans,
    decreases texts.len(),
{
    if texts.len() == 0 {
        assert(table.units() + texts.flatten() =~= table.units());
    } else {
        let first = texts.first();
        let rest = texts.drop_first();
        let next = table.appended(first);
        assert(texts =~= seq![first] + rest);
        lemma_flatten_concat(seq![first], rest);
        seq![first].lemma_flatten_one_element();
        assert(texts.flatten() == first + rest.flatten());
        lemma_append_step(table, first);
        lemma_appends_make_one_span(next, rest);
        assert(table.units() + first + rest.flatten() =~= table.units() + texts.flatten());
    }
}

/// Round trip: after any run of edits the document is what the same edits
/// make of a plain sequence of clusters, and its text is that sequence put
/// together. The run must fit the machine: the clusters it puts in, added to
/// the document and to the added buffer, and two spans for each edit, added
/// to the spans, must stay machine integers.
pub proof fn lemma_round_trip(table: TableView, edits: Seq<Edit>)
    requires
        table.wf(),
        table.len() + clusters_put_in(edits) <= usize::MAX,
        table.added.len() + clusters_put_in(edits) <= usize::MAX,
        table.spans.len() + 2 * edits.len() <= usize::MAX,
    ensures
        table.edited_all(edits).wf(),
        table.edited_all(edits).units() == plainly_edited_all(table.units(), edits),
        table.edited_all(edits).text() == plainly_edited_all(table.units(), edits).flatten(),
    decreases edits.len(),
{
    if edits.len() > 0 {
        let edit = edits.first();
        let next = table.replaced(edit.position, edit.length, edit.clusters);
        lemma_replaced(table, edit.position, edit.length, edit.clusters);
        lemma_change_shape(table, edit.position, edit.length, edit.clusters);
        lemma_units_len(table, table.spans);
        assert(next.units() == plainly_edited(table.units(), edit));
        lemma_round_trip(next, edits.drop_first());
    }
}

} // verus!
