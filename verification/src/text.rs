//! A document together with the history of its changes.
//!
//! Every edit is recorded in the history as it is made, an undo reverts the
//! change of the step it leaves, and a redo applies the change of the step it
//! enters. The document that belongs to a step of the history is therefore
//! the same whenever navigation stands on that step.

use crate::history::{HistoryTree, HistoryView};
use crate::piece_table::graphemes::{all_nonempty, grapheme_clusters, lemma_units_count};
use crate::piece_table::laws::lemma_splice_inverse;
use crate::piece_table::lemmas::{
    lemma_change_shape, lemma_empty_edit, lemma_grown_units, lemma_initial,
    lemma_units_same_buffers,
};
use crate::piece_table::model::{is_edit_of, spliced, ChangeView, TableView};
use crate::piece_table::span::SpanView;
use crate::piece_table::{Change, PieceTable};
use vstd::prelude::*;

verus! {

/// One piece table and the tree of the changes made to it.
pub struct Text {
    history: HistoryTree<Change>,
    piece_table: PieceTable,
    states: Ghost<Seq<Seq<SpanView>>>,
}

/// The change that stands at the root of every history: at the start of the
/// document, nothing gives way to nothing.
pub open spec fn root_change(table: TableView) -> ChangeView {
    ChangeView { index: table.address(0).index, new: Seq::empty(), old: Seq::empty() }
}

/// Whether `change` leads from the span sequence `before` to the span
/// sequence `after`: it removes spans that are there and puts its new ones
/// in their place.
pub open spec fn leads(before: Seq<SpanView>, change: ChangeView, after: Seq<SpanView>) -> bool {
    &&& change.index + change.old.len() <= before.len()
    &&& change.old == before.subrange(change.index as int, change.index + change.old.len())
    &&& after == spliced(before, change.index as int, change.old.len() as int, change.new)
}

/// Whether `states` holds, for every step of the history `changes`, the span
/// sequence of the document at that step: valid over the buffers of `table`,
/// reached from the parent's by the step's change, and at the current step
/// the one that `table` has.
pub open spec fn in_step(
    table: TableView,
    changes: HistoryView<Change>,
    states: Seq<Seq<SpanView>>,
) -> bool {
    &&& states.len() == changes.nodes.len()
    &&& states[changes.current as int] == table.spans
    &&& forall|node: int|
        0 <= node < states.len() ==> table.valid_spans(#[trigger] states[node])
            && states[node].len() <= usize::MAX
    &&& forall|node: int|
        0 < node < states.len() ==> leads(
            states[changes.nodes[node].parent->0 as int],
            changes.nodes[node].payload@,
            #[trigger] states[node],
        )
}

impl Text {
    /// The content of the document.
    pub closed spec fn table(&self) -> TableView {
        self.piece_table@
    }

    /// The content of the history.
    pub closed spec fn changes(&self) -> HistoryView<Change> {
        self.history@
    }

    /// The span sequence of the document at every step of the history.
    pub closed spec fn states(&self) -> Seq<Seq<SpanView>> {
        self.states@
    }

    /// The document at step `node` of the history, cluster by cluster.
    pub open spec fn units_at(&self, node: int) -> Seq<Seq<char>> {
        self.table().units_of(self.states()[node])
    }

    /// Whether document and history are well formed and in step.
    pub closed spec fn wf(&self) -> bool {
        &&& self.piece_table.wf()
        &&& self.history.wf()
        &&& in_step(self.table(), self.changes(), self.states())
    }

    /// What well-formedness means to the outside: document and history are
    /// well formed and in step, and the document at the current step is the
    /// one at hand.
    pub proof fn lemma_wf(&self)
        requires
            self.wf(),
        ensures
            self.table().wf(),
            self.changes().wf(),
            in_step(self.table(), self.changes(), self.states()),
            self.units_at(self.changes().current as int) == self.table().units(),
            self.table().units().len() == self.table().len(),
    {
        crate::piece_table::lemmas::lemma_units_len(self.table(), self.table().spans);
    }

    /// A document over `content` whose history holds nothing but the root: a
    /// change that changes nothing.
    pub fn new(content: &str) -> (text: Self)
        ensures
            text.wf(),
            text.table() == TableView::initial(grapheme_clusters(content@)),
            text.table().text() == content@,
            text.table().len() <= content@.len(),
            text.changes().nodes.len() == 1,
            text.changes().current == 0,
            text.changes().nodes[0].parent is None,
            text.changes().nodes[0].branches.len() == 0,
            text.changes().nodes[0].payload@ == root_change(text.table()),
            text.states() == seq![text.table().spans],
    {
        let mut piece_table = PieceTable::new(content.to_owned());
        proof {
            reveal_strlit("");
            lemma_empty_edit(piece_table@, 0);
            lemma_initial(grapheme_clusters(content@));
        }
        let change = piece_table.replace(0, 0, "");
        proof {
            lemma_units_count(grapheme_clusters(""@));
            assert(grapheme_clusters(""@) =~= Seq::empty());
        }
        let ghost first = Seq::empty().push(piece_table@.spans);
        let states = Ghost(first);
        proof {
            assert(first =~= seq![piece_table@.spans]);
        }
        Text { history: HistoryTree::new(change), piece_table, states }
    }

    /// The document.
    pub fn piece_table(&self) -> (piece_table: &PieceTable)
        requires
            self.wf(),
        ensures
            piece_table.wf(),
            piece_table@ == self.table(),
    {
        &self.piece_table
    }

    /// The history of changes.
    pub fn history(&self) -> (history: &HistoryTree<Change>)
        requires
            self.wf(),
        ensures
            history.wf(),
            history@ == self.changes(),
    {
        &self.history
    }

    /// Records `change`, which the document has just gone through from
    /// `before`, as a new step of the history, a branch of the step it was
    /// made from.
    fn record(
        &mut self,
        change: &Change,
        Ghost(before): Ghost<TableView>,
        Ghost(clusters): Ghost<Seq<Seq<char>>>,
    )
        requires
            old(self).piece_table.wf(),
            old(self).history.wf(),
            before.wf(),
            before.indexable(),
            before.len() + clusters.len() <= usize::MAX,
            before.added.len() + clusters.len() <= usize::MAX,
            in_step(before, old(self).changes(), old(self).states()),
            exists|position: usize, length: usize|
                change@ == before.change_for(position, length, clusters) && old(self).table()
                    == #[trigger] before.replaced(position, length, clusters),
        ensures
            final(self).wf(),
            final(self).table() == old(self).table(),
            final(self).changes() == old(self).changes().pushed(
                final(self).changes().current_node().payload,
            ),
            final(self).changes().current_node().payload@ == change@,
            final(self).states() == old(self).states().push(final(self).table().spans),
            forall|node: int|
                0 <= node < old(self).states().len() ==> final(self).units_at(node)
                    == #[trigger] before.units_of(old(self).states()[node]),
    {
        let recorded = change.clone();
        self.history.push(recorded);
        proof {
            let after = self.table();
            let earlier = old(self).states();
            self.states@ = earlier.push(after.spans);
            let history = old(self).changes();
            let (position, length) = choose|position: usize, length: usize|
                change@ == before.change_for(position, length, clusters) && old(self).table()
                    == #[trigger] before.replaced(position, length, clusters);
            lemma_change_shape(before, position, length, clusters);
            assert(self.changes().nodes.len() == history.nodes.len() + 1);
            assert forall|node: int| 0 <= node < self.states().len() implies after.valid_spans(
                #[trigger] self.states()[node],
            ) && self.states()[node].len() <= usize::MAX by {
                if node < earlier.len() {
                    lemma_grown_units(before, clusters, earlier[node]);
                }
            }
            assert forall|node: int| 0 < node < self.states().len() implies leads(
                self.states()[self.changes().nodes[node].parent->0 as int],
                self.changes().nodes[node].payload@,
                #[trigger] self.states()[node],
            ) by {
                if node < earlier.len() {
                    assert(earlier[node] == self.states()[node]);
                    assert(leads(
                        earlier[history.nodes[node].parent->0 as int],
                        history.nodes[node].payload@,
                        earlier[node],
                    ));
                }
            }
            assert forall|node: int| 0 <= node < earlier.len() implies self.units_at(node)
                == #[trigger] before.units_of(earlier[node]) by {
                lemma_grown_units(before, clusters, earlier[node]);
                lemma_units_same_buffers(after, before.grown(clusters), earlier[node]);
            }
        }
    }

    /// Replaces `length` clusters from `position` by `content`, as
    /// [`PieceTable::replace`] does, and records the change as a new step of
    /// the history, a branch of the step it was made from. The documents of
    /// the earlier steps stay what they were.
    pub fn replace(&mut self, position: usize, length: usize, content: &str) -> (change: Change)
        requires
            old(self).wf(),
            old(self).table().len() + content@.len() <= usize::MAX,
        ensures
            final(self).wf(),
            change@ == old(self).table().change_for(
                position,
                length,
                grapheme_clusters(content@),
            ),
            final(self).table() == old(self).table().replaced(
                position,
                length,
                grapheme_clusters(content@),
            ),
            is_edit_of(
                final(self).table(),
                old(self).table(),
                position,
                length,
                grapheme_clusters(content@),
            ),
            grapheme_clusters(content@).flatten() == content@,
            all_nonempty(grapheme_clusters(content@)),
            final(self).table().len() <= old(self).table().len() + content@.len(),
            final(self).changes() == old(self).changes().pushed(
                final(self).changes().current_node().payload,
            ),
            final(self).changes().current_node().payload@ == change@,
            final(self).states() == old(self).states().push(final(self).table().spans),
            forall|node: int|
                0 <= node < old(self).states().len() ==> final(self).units_at(node)
                    == #[trigger] old(self).units_at(node),
    {
        let ghost before = self.table();
        let change = self.piece_table.replace(position, length, content);
        proof {
            lemma_units_count(grapheme_clusters(content@));
        }
        self.record(&change, Ghost(before), Ghost(grapheme_clusters(content@)));
        change
    }

    /// Replaces and records as [`Text::replace`] does where the document
    /// stays within what a machine integer counts; where it would not,
    /// nothing is touched and `None` is returned.
    pub fn try_replace(
        &mut self,
        position: usize,
        length: usize,
        content: &str,
    ) -> (change: Option<Change>)
        requires
            old(self).wf(),
        ensures
            final(self).wf(),
            change is Some <==> old(self).table().len() + grapheme_clusters(content@).len()
                <= usize::MAX,
            change is None ==> final(self).table() == old(self).table() && final(self).changes()
                == old(self).changes() && final(self).states() == old(self).states(),
            change is Some ==> {
                &&& change->0@ == old(self).table().change_for(
                    position,
                    length,
                    grapheme_clusters(content@),
                )
                &&& final(self).table() == old(self).table().replaced(
                    position,
                    length,
                    grapheme_clusters(content@),
                )
                &&& is_edit_of(
                    final(self).table(),
                    old(self).table(),
                    position,
                    length,
                    grapheme_clusters(content@),
                )
                &&& final(self).changes() == old(self).changes().pushed(
                    final(self).changes().current_node().payload,
                )
                &&& final(self).changes().current_node().payload@ == change->0@
                &&& final(self).states() == old(self).states().push(final(self).table().spans)
            },
            forall|node: int|
                0 <= node < old(self).states().len() ==> final(self).units_at(node)
                    == #[trigger] old(self).units_at(node),
    {
        let ghost before = self.table();
        match self.piece_table.try_replace(position, length, content) {
            Some(change) => {
                self.record(&change, Ghost(before), Ghost(grapheme_clusters(content@)));
                Some(change)
            },
            None => None,
        }
    }

    /// Undo: reverts the change of the current step and moves onto its
    /// parent, whose document is thereby restored; returns the change. At the
    /// root there is nothing to undo: `None`, and nothing is touched.
    pub fn undo(&mut self) -> (change: Option<Change>)
        requires
            old(self).wf(),
        ensures
            final(self).wf(),
            final(self).states() == old(self).states(),
            forall|node: int| final(self).units_at(node) == #[trigger] old(self).units_at(node),
            old(self).changes().can_go_back() <==> change is Some,
            change is None ==> final(self).table() == old(self).table() && final(self).changes()
                == old(self).changes(),
            change is Some ==> {
                &&& change->0@ == old(self).changes().current_node().payload@
                &&& final(self).changes() == old(self).changes().undone()
                &&& final(self).table() == old(self).table().reverted(change->0@)
                &&& final(self).table().units() == old(self).units_at(
                    old(self).changes().current_node().parent->0 as int,
                )
            },
    {
        match self.history.back() {
            Some(change) => {
                proof {
                    let history = old(self).changes();
                    let current = history.current as int;
                    let parent = history.nodes[current].parent->0 as int;
                    let states = self.states();
                    assert(current > 0);
                    assert(leads(states[parent], history.nodes[current].payload@, states[current]));
                    lemma_splice_inverse(
                        states[parent],
                        change@.index as int,
                        change@.old,
                        change@.new,
                    );
                    assert(self.table().valid_spans(states[parent]));
                }
                self.piece_table.revert_change(&change);
                proof {
                    lemma_units_same_buffers(self.table(), old(self).table(), self.table().spans);
                    assert forall|node: int| self.units_at(node) == #[trigger] old(self).units_at(
                        node,
                    ) by {
                        lemma_units_same_buffers(
                            self.table(),
                            old(self).table(),
                            self.states()[node],
                        );
                    }
                }
                Some(change)
            },
            None => None,
        }
    }

    /// Redo: moves onto the most recently made branch of the current step
    /// and applies its change, which restores that step's document; returns
    /// the change. On a step without branches there is nothing to redo:
    /// `None`, and nothing is touched.
    pub fn redo(&mut self) -> (change: Option<Change>)
        requires
            old(self).wf(),
        ensures
            final(self).wf(),
            final(self).states() == old(self).states(),
            forall|node: int| final(self).units_at(node) == #[trigger] old(self).units_at(node),
            old(self).changes().can_go_forward() <==> change is Some,
            change is None ==> final(self).table() == old(self).table() && final(self).changes()
                == old(self).changes(),
            change is Some ==> {
                &&& change->0@ == old(self).changes().nodes[old(
                    self,
                ).changes().latest_branch() as int].payload@
                &&& final(self).changes() == old(self).changes().redone()
                &&& final(self).table() == old(self).table().applied(change->0@)
                &&& final(self).table().units() == old(self).units_at(
                    old(self).changes().latest_branch() as int,
                )
            },
    {
        match self.history.forward() {
            Some(change) => {
                proof {
                    let history = old(self).changes();
                    let branch = history.latest_branch() as int;
                    let states = self.states();
                    assert(history.current_node().branches[history.current_node().branches.len()
                        - 1] == history.latest_branch());
                    assert(leads(
                        states[history.current as int],
                        history.nodes[branch].payload@,
                        states[branch],
                    ));
                    assert(self.table().valid_spans(states[branch]));
                }
                self.piece_table.apply_change(&change);
                proof {
                    lemma_units_same_buffers(self.table(), old(self).table(), self.table().spans);
                    assert forall|node: int| self.units_at(node) == #[trigger] old(self).units_at(
                        node,
                    ) by {
                        lemma_units_same_buffers(
                            self.table(),
                            old(self).table(),
                            self.states()[node],
                        );
                    }
                }
                Some(change)
            },
            None => None,
        }
    }

    /// Redo along a chosen branch: like [`Text::redo`], but onto the branch
    /// `branch_id` of the current step. When the current step has no such
    /// branch: `None`, and nothing is touched.
    pub fn redo_branch(&mut self, branch_id: usize) -> (change: Option<Change>)
        requires
            old(self).wf(),
        ensures
            final(self).wf(),
            final(self).states() == old(self).states(),
            forall|node: int| final(self).units_at(node) == #[trigger] old(self).units_at(node),
            old(self).changes().current_node().branches.contains(branch_id) <==> change is Some,
            change is None ==> final(self).table() == old(self).table() && final(self).changes()
                == old(self).changes(),
            change is Some ==> {
                &&& change->0@ == old(self).changes().nodes[branch_id as int].payload@
                &&& final(self).changes() == old(self).changes().moved_to(branch_id)
                &&& final(self).table() == old(self).table().applied(change->0@)
                &&& final(self).table().units() == old(self).units_at(branch_id as int)
            },
    {
        match self.history.forward_branch(branch_id) {
            Some(change) => {
                proof {
                    let history = old(self).changes();
                    let states = self.states();
                    let place = choose|place: int|
                        0 <= place < history.current_node().branches.len()
                            && history.current_node().branches[place] == branch_id;
                    assert(history.current_node().branches[place] == branch_id);
                    assert(leads(
                        states[history.current as int],
                        history.nodes[branch_id as int].payload@,
                        states[branch_id as int],
                    ));
                    assert(self.table().valid_spans(states[branch_id as int]));
                }
                self.piece_table.apply_change(&change);
                proof {
                    lemma_units_same_buffers(self.table(), old(self).table(), self.table().spans);
                    assert forall|node: int| self.units_at(node) == #[trigger] old(self).units_at(
                        node,
                    ) by {
                        lemma_units_same_buffers(
                            self.table(),
                            old(self).table(),
                            self.states()[node],
                        );
                    }
                }
                Some(change)
            },
            None => None,
        }
    }
}

} // verus!
