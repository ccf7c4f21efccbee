//! Branching undo/redo history.
//!
//! Nodes live in a flat, append-only store and refer to each other by index.
//! Undoing never discards anything: editing after an undo adds a sibling
//! branch, and every older future stays reachable by its identifier.

use vstd::prelude::*;

verus! {

/// One recorded step: its parent, its children in creation order, its payload.
struct Node<P: Clone> {
    parent_id: Option<usize>,
    branch_ids: Vec<usize>,
    payload: P,
}

/// The mathematical content of a [`Node`].
pub ghost struct NodeView<P> {
    pub parent: Option<usize>,
    pub branches: Seq<usize>,
    pub payload: P,
}

/// The mathematical content of a [`HistoryTree`].
pub ghost struct HistoryView<P> {
    pub nodes: Seq<NodeView<P>>,
    pub current: usize,
}

impl<P: Clone> View for Node<P> {
    type V = NodeView<P>;

    closed spec fn view(&self) -> NodeView<P> {
        NodeView { parent: self.parent_id, branches: self.branch_ids@, payload: self.payload }
    }
}

impl<P> HistoryView<P> {
    /// The tree shape: a root without parent at index 0, every other node
    /// created after its parent and listed among that parent's branches, every
    /// branch list in creation order, and a current node that exists. The
    /// number of nodes is a machine integer.
    pub open spec fn wf(self) -> bool {
        &&& 0 < self.nodes.len() <= usize::MAX
        &&& (self.current as int) < self.nodes.len()
        &&& self.nodes[0].parent is None
        &&& forall|i: int|
            0 < i < self.nodes.len() ==> {
                &&& (#[trigger] self.nodes[i]).parent is Some
                &&& (self.nodes[i].parent->0 as int) < i
                &&& self.nodes[self.nodes[i].parent->0 as int].branches.contains(i as usize)
            }
        &&& forall|i: int, k: int|
            0 <= i < self.nodes.len() && 0 <= k < self.nodes[i].branches.len() ==> {
                &&& i < (#[trigger] self.nodes[i].branches[k]) as int
                &&& (self.nodes[i].branches[k] as int) < self.nodes.len()
                &&& self.nodes[self.nodes[i].branches[k] as int].parent == Some(i as usize)
            }
        &&& forall|i: int, k: int, l: int|
            0 <= i < self.nodes.len() && 0 <= k < l < self.nodes[i].branches.len()
                ==> (#[trigger] self.nodes[i].branches[k]) < (#[trigger] self.nodes[i].branches[l])
    }

    /// The node that navigation currently stands on.
    pub open spec fn current_node(self) -> NodeView<P> {
        self.nodes[self.current as int]
    }

    /// The one-node tree holding `payload`.
    pub open spec fn initial(payload: P) -> Self {
        HistoryView {
            nodes: seq![NodeView { parent: None, branches: Seq::empty(), payload }],
            current: 0,
        }
    }

    /// The tree after recording `payload` as a new, latest branch of the
    /// current node and moving onto it.
    pub open spec fn pushed(self, payload: P) -> Self {
        let id = self.nodes.len() as usize;
        let parent = NodeView {
            parent: self.current_node().parent,
            branches: self.current_node().branches.push(id),
            payload: self.current_node().payload,
        };
        HistoryView {
            nodes: self.nodes.update(self.current as int, parent).push(
                NodeView { parent: Some(self.current), branches: Seq::empty(), payload },
            ),
            current: id,
        }
    }

    /// The same tree with navigation standing on node `id`.
    pub open spec fn moved_to(self, id: usize) -> Self {
        HistoryView { nodes: self.nodes, current: id }
    }

    /// Whether an undo is possible: the current node is not the root.
    pub open spec fn can_go_back(self) -> bool {
        self.current_node().parent is Some
    }

    /// Whether a redo is possible: the current node has a branch.
    pub open spec fn can_go_forward(self) -> bool {
        self.current_node().branches.len() > 0
    }

    /// The branch that a plain redo follows: the most recently created one.
    pub open spec fn latest_branch(self) -> usize {
        self.current_node().branches.last()
    }

    /// The tree after an undo: navigation stands on the parent.
    pub open spec fn undone(self) -> Self {
        self.moved_to(self.current_node().parent->0)
    }

    /// The tree after a plain redo: navigation stands on the latest branch.
    pub open spec fn redone(self) -> Self {
        self.moved_to(self.latest_branch())
    }
}

/// A tree of payloads with one current position.
pub struct HistoryTree<P: Clone> {
    nodes: Vec<Node<P>>,
    current_node_id: usize,
}

impl<P: Clone> View for HistoryTree<P> {
    type V = HistoryView<P>;

    closed spec fn view(&self) -> HistoryView<P> {
        HistoryView {
            nodes: self.nodes@.map_values(|n: Node<P>| n@),
            current: self.current_node_id,
        }
    }
}

impl<P: Clone> HistoryTree<P> {
    /// Well-formedness of the stored tree; see [`HistoryView::wf`].
    pub open spec fn wf(&self) -> bool {
        self@.wf()
    }

    /// A tree with a single root holding `payload`, which is also current.
    pub fn new(payload: P) -> (tree: Self)
        ensures
            tree.wf(),
            tree@ == HistoryView::initial(payload),
    {
        let mut nodes = Vec::new();
        nodes.push(Node { parent_id: None, branch_ids: Vec::new(), payload });
        let tree = HistoryTree { nodes, current_node_id: 0 };
        proof {
            assert(tree@.nodes =~= HistoryView::initial(payload).nodes);
        }
        tree
    }

    fn current_node(&self) -> (node: &Node<P>)
        requires
            self.wf(),
        ensures
            node@ == self@.current_node(),
    {
        &self.nodes[self.current_node_id]
    }

    /// A clone of the current node's payload.
    pub fn current_payload(&self) -> (payload: P)
        requires
            self.wf(),
        ensures
            cloned(self@.current_node().payload, payload),
    {
        let current_node = self.current_node();
        current_node.payload.clone()
    }

    /// A clone of the payload of node `branch_id`, wherever navigation stands;
    /// `None` when no such node exists.
    pub fn branch_payload(&self, branch_id: usize) -> (payload: Option<P>)
        requires
            self.wf(),
        ensures
            (branch_id as int) < self@.nodes.len() <==> payload is Some,
            payload is Some ==> cloned(self@.nodes[branch_id as int].payload, payload->0),
    {
        if branch_id < self.nodes.len() {
            let node = &self.nodes[branch_id];
            Some(node.payload.clone())
        } else {
            None
        }
    }

    /// The identifiers of the current node's branches, in creation order.
    pub fn branch_ids(&self) -> (ids: Vec<usize>)
        requires
            self.wf(),
        ensures
            ids@ == self@.current_node().branches,
    {
        let source = &self.current_node().branch_ids;
        let mut ids: Vec<usize> = Vec::new();
        let mut i: usize = 0;
        while i < source.len()
            invariant
                i <= source.len(),
                ids@ == source@.subrange(0, i as int),
            decreases source.len() - i,
        {
            ids.push(source[i]);
            proof {
                assert(ids@ =~= source@.subrange(0, i + 1));
            }
            i += 1;
        }
        proof {
            assert(source@.subrange(0, source@.len() as int) =~= source@);
        }
        ids
    }

    /// Records `payload` as a new branch of the current node and moves onto
    /// it. Branches that already exist are kept.
    pub fn push(&mut self, payload: P)
        requires
            old(self).wf(),
        ensures
            final(self).wf(),
            final(self)@ == old(self)@.pushed(payload),
    {
        let next_node_id = self.nodes.len();
        let current = self.current_node_id;
        self.nodes[current].branch_ids.push(next_node_id);
        self.nodes.push(Node { parent_id: Some(current), branch_ids: Vec::new(), payload });
        self.current_node_id = next_node_id;
        proof {
            assert(self.nodes.len() == old(self)@.nodes.len() + 1);
            assert(self@.nodes =~= old(self)@.pushed(payload).nodes);
            lemma_pushed_wf(old(self)@, payload);
        }
    }

    /// Moves onto the branch `branch_id` of the current node and returns a
    /// clone of its payload; `None`, with nothing moved, when the current node
    /// has no such branch.
    pub fn forward_branch(&mut self, branch_id: usize) -> (payload: Option<P>)
        requires
            old(self).wf(),
        ensures
            final(self).wf(),
            old(self)@.current_node().branches.contains(branch_id) <==> payload is Some,
            payload is Some ==> final(self)@ == old(self)@.moved_to(branch_id) && cloned(
                old(self)@.nodes[branch_id as int].payload,
                payload->0,
            ),
            payload is None ==> final(self)@ == old(self)@,
    {
        let found = self.current_has_branch(branch_id);
        if found {
            self.current_node_id = branch_id;
            Some(self.current_node().payload.clone())
        } else {
            None
        }
    }

    fn current_has_branch(&self, branch_id: usize) -> (found: bool)
        requires
            self.wf(),
        ensures
            found == self@.current_node().branches.contains(branch_id),
    {
        let ids = &self.current_node().branch_ids;
        let mut i: usize = 0;
        while i < ids.len()
            invariant
                i <= ids.len(),
                ids@ == self@.current_node().branches,
                forall|k: int| 0 <= k < i ==> ids@[k] != branch_id,
            decreases ids.len() - i,
        {
            if ids[i] == branch_id {
                proof {
                    assert(ids@[i as int] == branch_id);
                }
                return true;
            }
            i += 1;
        }
        false
    }

    /// Redo: moves onto the most recently created branch of the current node
    /// and returns a clone of its payload; `None`, with nothing moved, on a
    /// leaf.
    pub fn forward(&mut self) -> (payload: Option<P>)
        requires
            old(self).wf(),
        ensures
            final(self).wf(),
            old(self)@.can_go_forward() <==> payload is Some,
            payload is Some ==> final(self)@ == old(self)@.redone() && cloned(
                old(self)@.nodes[old(self)@.latest_branch() as int].payload,
                payload->0,
            ),
            payload is None ==> final(self)@ == old(self)@,
    {
        let count = self.current_node().branch_ids.len();
        if count > 0 {
            let latest_branch_id = self.current_node().branch_ids[count - 1];
            self.current_node_id = latest_branch_id;
            Some(self.current_node().payload.clone())
        } else {
            None
        }
    }

    /// Undo: returns a clone of the current node's own payload and moves onto
    /// its parent; `None`, with nothing moved, at the root.
    pub fn back(&mut self) -> (payload: Option<P>)
        requires
            old(self).wf(),
        ensures
            final(self).wf(),
            old(self)@.can_go_back() <==> payload is Some,
            payload is Some ==> final(self)@ == old(self)@.undone() && cloned(
                old(self)@.current_node().payload,
                payload->0,
            ),
            payload is None ==> final(self)@ == old(self)@,
    {
        let current_node = &self.nodes[self.current_node_id];
        match current_node.parent_id {
            Some(parent_id) => {
                let payload = current_node.payload.clone();
                self.current_node_id = parent_id;
                Some(payload)
            },
            None => None,
        }
    }
}

/// Recording a payload keeps the tree well formed.
pub proof fn lemma_pushed_wf<P>(tree: HistoryView<P>, payload: P)
    requires
        tree.wf(),
        tree.nodes.len() < usize::MAX,
    ensures
        tree.pushed(payload).wf(),
{
    let after = tree.pushed(payload);
    let id = tree.nodes.len() as usize;
    let cur = tree.current as int;
    assert(after.nodes[cur].branches.last() == id);
    assert forall|i: int| 0 < i < after.nodes.len() implies {
        &&& (#[trigger] after.nodes[i]).parent is Some
        &&& (after.nodes[i].parent->0 as int) < i
        &&& after.nodes[after.nodes[i].parent->0 as int].branches.contains(i as usize)
    } by {
        if i < tree.nodes.len() {
            let p = tree.nodes[i].parent->0 as int;
            let k = choose|k: int|
                0 <= k < tree.nodes[p].branches.len() && tree.nodes[p].branches[k] == i as usize;
            assert(after.nodes[p].branches[k] == i as usize);
        } else {
            assert(after.nodes[cur].branches[tree.nodes[cur].branches.len() as int] == id);
        }
    }
    assert forall|i: int, k: int|
        0 <= i < after.nodes.len() && 0 <= k < after.nodes[i].branches.len() implies {
        &&& i < (#[trigger] after.nodes[i].branches[k]) as int
        &&& (after.nodes[i].branches[k] as int) < after.nodes.len()
        &&& after.nodes[after.nodes[i].branches[k] as int].parent == Some(i as usize)
    } by {
        if i == cur && k == tree.nodes[cur].branches.len() {
        } else {
            assert(after.nodes[i].branches[k] == tree.nodes[i].branches[k]);
        }
    }
    assert forall|i: int, k: int, l: int|
        0 <= i < after.nodes.len() && 0 <= k < l < after.nodes[i].branches.len() implies (
    #[trigger] after.nodes[i].branches[k]) < (#[trigger] after.nodes[i].branches[l]) by {
        if i == cur && l == tree.nodes[cur].branches.len() {
            assert(after.nodes[i].branches[k] == tree.nodes[i].branches[k]);
        } else {
            assert(after.nodes[i].branches[k] == tree.nodes[i].branches[k]);
            assert(after.nodes[i].branches[l] == tree.nodes[i].branches[l]);
        }
    }
}

/// Undoing a freshly recorded step leads back to where it was recorded, and
/// the step stays on record as the latest branch there, so a redo returns to
/// it.
pub proof fn lemma_push_then_undo<P>(tree: HistoryView<P>, payload: P)
    requires
        tree.wf(),
        tree.nodes.len() < usize::MAX,
    ensures
        tree.pushed(payload).current_node().payload == payload,
        tree.pushed(payload).can_go_back(),
        tree.pushed(payload).undone().current == tree.current,
        tree.pushed(payload).undone().can_go_forward(),
        tree.pushed(payload).undone().redone() == tree.pushed(payload),
{
}

/// Editing after an undo branches instead of overwriting: when `first` is
/// recorded, undone, and `second` is recorded from the same node, that node
/// keeps its earlier branches and ends with the two new ones in creation
/// order. A plain redo from it follows `second`; `first` is still reached by
/// its identifier.
pub proof fn lemma_edit_after_undo_branches<P>(tree: HistoryView<P>, first: P, second: P)
    requires
        tree.wf(),
        tree.nodes.len() + 1 < usize::MAX,
    ensures
        ({
            let first_id = tree.nodes.len() as usize;
            let second_id = (tree.nodes.len() + 1) as usize;
            let branched = tree.pushed(first).undone().pushed(second);
            let fork = branched.undone();
            &&& branched.wf()
            &&& fork.current == tree.current
            &&& fork.current_node().branches == tree.current_node().branches.push(first_id).push(
                second_id,
            )
            &&& fork.latest_branch() == second_id
            &&& fork.redone().current_node().payload == second
            &&& fork.current_node().branches.contains(first_id)
            &&& fork.moved_to(first_id).current_node().payload == first
        }),
{
    let first_id = tree.nodes.len() as usize;
    let second_id = (tree.nodes.len() + 1) as usize;
    lemma_pushed_wf(tree, first);
    let back = tree.pushed(first).undone();
    assert(back.wf());
    lemma_pushed_wf(back, second);
    let fork = back.pushed(second).undone();
    let branches = tree.current_node().branches.push(first_id).push(second_id);
    assert(fork.current_node().branches =~= branches);
    assert(branches[branches.len() - 2] == first_id);
}

} // verus!
