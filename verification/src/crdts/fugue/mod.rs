//! A list CRDT in the style of Fugue: every element is a node of a tree,
//! attached as a left or right child of another element (or of the root), and
//! the list is the in-order traversal of that tree. Siblings are ordered by
//! element id (`List::sorted`, which every operation keeps), so two runs of
//! new elements under elements of the document, inserted in either order,
//! leave the same document (`laws::law_inserts_converge`).
//!
//! Two views are tracked: the effect view (every applied element that has not
//! been deleted) and the prepare view (elements whose insert was advanced and
//! that no advanced delete has removed).

pub mod seqs;
mod tree;
mod counts;
mod basic;
mod states;
mod insert;
mod walk;
mod ops;
mod siblings;
mod mirror;
mod graft;
mod converge;
mod apply;
mod read;
pub mod laws;

use vstd::prelude::*;
use crate::crdts::id::{ElementId, element_id_less, element_id_lt};
use crate::crdts::walker::{self, CountableOp};
use crate::crdts::fugue::seqs::{flat, lemma_flat_concat, lemma_flat_single, lemma_flat_split,
    lemma_flat_contains, lemma_flat_member_len, lemma_flat_frame};

verus! {

/// An edit expressed against positions of a view.
pub enum LogicalOp<T> {
    Insert { offset: u64, content: Vec<T> },
    Delete { offset: u64, count: u64 },
}

/// An edit expressed against element ids, as it travels between replicas.
pub enum Op<T> {
    Insert(Insert<T>),
    Delete(Vec<Delete>),
}

/// Inserts `content` as a run: the first element under `parent`, each further
/// element as the right child of the one before it.
pub struct Insert<T> {
    pub parent: Parent,
    pub right_origin: Option<ElementId>,
    pub content: Vec<T>,
}

/// Deletes `count` elements with consecutive ids starting at `id`.
#[derive(Debug, Clone, Copy, PartialEq, Eq, Structural)]
pub struct Delete {
    pub id: ElementId,
    pub count: u64,
}

/// What the prepare view has to advance or retract for an applied op.
pub enum PrepareOp {
    Insert { id: ElementId, count: u64 },
    Delete(Vec<Delete>),
}

/// The side of its parent an element hangs on.
#[derive(Debug, Clone, Copy, PartialEq, Eq, Structural)]
pub enum Side {
    Left,
    Right,
}

/// Where an element hangs in the tree.
#[derive(Debug, Clone, Copy, PartialEq, Eq, Structural)]
pub enum Parent {
    Root,
    Node { id: ElementId, side: Side },
}

/// An op referred to an element the list does not hold.
#[derive(Debug, Clone, Copy, PartialEq, Eq, Structural)]
pub enum EffectError {
    NodeNotFound,
}

/// A prepare step referred to a missing element or found it in the wrong state.
#[derive(Debug, Clone, Copy, PartialEq, Eq, Structural)]
pub enum PrepareError {
    NodeNotFound,
    InvalidState,
}

/// A position was past the end of the view.
#[derive(Debug, Clone, Copy, PartialEq, Eq, Structural)]
pub enum LogicalOpError {
    OutOfRange,
}

/// The prepare-view state of an element: not advanced yet, advanced, or
/// removed by this many advanced deletes.
#[derive(Debug, Clone, Copy, PartialEq, Eq, Structural)]
pub enum PrepareState {
    UnInserted,
    Inserted,
    Deleted(usize),
}

/// The right children of a node (or of the root) and the sizes of its subtree
/// in each view.
pub struct NodeBase {
    pub(crate) right_children: Vec<usize>,
    pub(crate) effect_size: usize,
    pub(crate) prepare_size: usize,
}

/// One element of the list.
pub struct Node<T> {
    pub(crate) id: ElementId,
    pub(crate) parent: Parent,
    pub(crate) parent_index: Option<usize>,
    pub(crate) left_children: Vec<usize>,
    pub(crate) content: T,
    pub(crate) base: NodeBase,
    pub(crate) effect_deleted: bool,
    pub(crate) prepare_state: PrepareState,
}

/// The list: the root's children, every node, the nodes whose parent has not
/// arrived yet, and the ids deleted before their element arrived.
pub struct List<T> {
    pub(crate) root: NodeBase,
    pub(crate) nodes: Vec<Node<T>>,
    pub(crate) pending_parent: Vec<usize>,
    pub(crate) pending_delete: Vec<ElementId>,
    /// For each node, the in-order sequence of the node indices of its subtree.
    pub(crate) spans: Ghost<Seq<Seq<usize>>>,
}

// ---------------------------------------------------------------------------
// The model
// ---------------------------------------------------------------------------

pub(crate) open spec fn visible<T>(n: Node<T>, v: walker::View) -> bool {
    match v {
        walker::View::Effect => !n.effect_deleted,
        walker::View::Prepare => n.prepare_state == PrepareState::Inserted,
    }
}

/// Whether a node is in the reach of view `v`: every node is, for the
/// effect view; the prepare view does not reach nodes not advanced yet.
pub(crate) open spec fn not_uninserted<T>(n: Node<T>, v: walker::View) -> bool {
    match v {
        walker::View::Effect => true,
        walker::View::Prepare => n.prepare_state != PrepareState::UnInserted,
    }
}

/// The number of visible nodes in `s`.
pub(crate) open spec fn cnt<T>(nodes: Seq<Node<T>>, s: Seq<usize>, v: walker::View) -> nat
    decreases s.len(),
{
    if s.len() == 0 {
        0
    } else {
        cnt(nodes, s.drop_last(), v) + if visible(nodes[s.last() as int], v) { 1nat } else { 0nat }
    }
}

/// The contents of the visible nodes of `s`, in order.
pub(crate) open spec fn docs<T>(nodes: Seq<Node<T>>, s: Seq<usize>, v: walker::View) -> Seq<T>
    decreases s.len(),
{
    if s.len() == 0 {
        Seq::empty()
    } else {
        docs(nodes, s.drop_last(), v) + if visible(nodes[s.last() as int], v) {
            seq![nodes[s.last() as int].content]
        } else {
            Seq::empty()
        }
    }
}

/// The ids of the visible nodes of `s`, in order.
pub(crate) open spec fn ids_shown<T>(nodes: Seq<Node<T>>, s: Seq<usize>, v: walker::View) -> Seq<ElementId>
    decreases s.len(),
{
    if s.len() == 0 {
        Seq::empty()
    } else {
        let sub = ids_shown(nodes, s.drop_last(), v);
        if visible(nodes[s.last() as int], v) {
            sub.push(nodes[s.last() as int].id)
        } else {
            sub
        }
    }
}

pub(crate) open spec fn left_of<T>(nodes: Seq<Node<T>>, i: int) -> Seq<usize> {
    nodes[i].left_children@
}

pub(crate) open spec fn right_of<T>(nodes: Seq<Node<T>>, i: int) -> Seq<usize> {
    nodes[i].base.right_children@
}

pub(crate) open spec fn children_of<T>(nodes: Seq<Node<T>>, i: int, side: Side) -> Seq<usize> {
    match side {
        Side::Left => left_of(nodes, i),
        Side::Right => right_of(nodes, i),
    }
}

pub(crate) open spec fn span_def<T>(nodes: Seq<Node<T>>, spans: Seq<Seq<usize>>, i: int) -> Seq<usize> {
    flat(spans, left_of(nodes, i)) + seq![i as usize] + flat(spans, right_of(nodes, i))
}

pub(crate) open spec fn child_link<T>(nodes: Seq<Node<T>>, p: int, c: usize, side: Side) -> bool {
    &&& c < nodes.len()
    &&& nodes[c as int].parent_index == Some(p as usize)
    &&& nodes[c as int].parent == (Parent::Node { id: nodes[p].id, side })
}

pub(crate) open spec fn node_links_ok<T>(nodes: Seq<Node<T>>, i: int) -> bool {
    &&& forall|k: int| 0 <= k < left_of(nodes, i).len() ==> #[trigger] child_link(nodes, i, left_of(nodes, i)[k], Side::Left)
    &&& forall|k: int| 0 <= k < right_of(nodes, i).len() ==> #[trigger] child_link(nodes, i, right_of(nodes, i)[k], Side::Right)
    &&& left_of(nodes, i).no_duplicates()
    &&& right_of(nodes, i).no_duplicates()
    &&& match nodes[i].parent_index {
        Some(p) => {
            &&& p < nodes.len()
            &&& match nodes[i].parent {
                Parent::Root => false,
                Parent::Node { id, side } => id == nodes[p as int].id && children_of(nodes, p as int, side).contains(i as usize),
            }
        },
        None => true,
    }
}

/// The shape of the tree: links agree in both directions, every span is the
/// in-order sequence of its subtree, and ids are unique.
#[verifier::opaque]
pub(crate) open spec fn tree_ok<T>(nodes: Seq<Node<T>>, spans: Seq<Seq<usize>>) -> bool {
    &&& spans.len() == nodes.len()
    &&& forall|i: int| 0 <= i < nodes.len() ==> #[trigger] node_links_ok(nodes, i)
    &&& forall|i: int| 0 <= i < nodes.len() ==> #[trigger] spans[i] == span_def(nodes, spans, i)
    &&& forall|i: int, k: int| 0 <= i < nodes.len() && 0 <= k < spans[i].len() ==> #[trigger] spans[i][k] < nodes.len()
    &&& forall|i: int, j: int| 0 <= i < nodes.len() && 0 <= j < nodes.len() && i != j ==> #[trigger] nodes[i].id != #[trigger] nodes[j].id
}

/// The root's children are nodes whose parent is the root and that hang on
/// no other node.
pub(crate) open spec fn root_core<T>(nodes: Seq<Node<T>>, rc: Seq<usize>) -> bool {
    &&& rc.no_duplicates()
    &&& forall|k: int| 0 <= k < rc.len() ==> #[trigger] rc[k] < nodes.len() && nodes[rc[k] as int].parent == Parent::Root
        && nodes[rc[k] as int].parent_index is None
}

/// The root's children are exactly the nodes whose parent is the root, but
/// for node `e`, which may be missing from them.
pub(crate) open spec fn root_ok_but<T>(nodes: Seq<Node<T>>, rc: Seq<usize>, e: int) -> bool {
    &&& root_core(nodes, rc)
    &&& forall|i: int| 0 <= i < nodes.len() && i != e && #[trigger] nodes[i].parent == Parent::Root ==> rc.contains(i as usize)
    &&& forall|i: int| 0 <= i < nodes.len() && #[trigger] nodes[i].parent == Parent::Root ==> nodes[i].parent_index is None
}

/// The root's children are exactly the nodes whose parent is the root.
pub(crate) open spec fn root_ok<T>(nodes: Seq<Node<T>>, rc: Seq<usize>) -> bool {
    root_ok_but(nodes, rc, -1)
}

/// The pending list holds exactly the nodes whose parent has not arrived, but
/// for node `e`, which it does not hold.
pub(crate) open spec fn pending_ok_but<T>(nodes: Seq<Node<T>>, pending: Seq<usize>, e: int) -> bool {
    &&& pending.no_duplicates()
    &&& forall|k: int| 0 <= k < pending.len() ==> #[trigger] pending[k] < nodes.len() && pending[k] != e
    &&& forall|i: int| 0 <= i < nodes.len() && i != e ==> ((nodes[i].parent !is Root && nodes[i].parent_index is None) <==> #[trigger] pending.contains(i as usize))
}

/// The pending list holds exactly the nodes whose parent has not arrived.
pub(crate) open spec fn pending_ok<T>(nodes: Seq<Node<T>>, pending: Seq<usize>) -> bool {
    pending_ok_but(nodes, pending, -1)
}

pub(crate) open spec fn sizes_ok<T>(nodes: Seq<Node<T>>, spans: Seq<Seq<usize>>) -> bool {
    forall|i: int| 0 <= i < nodes.len() ==> {
        &&& (#[trigger] nodes[i]).base.effect_size == cnt(nodes, spans[i], walker::View::Effect)
        &&& nodes[i].base.prepare_size == cnt(nodes, spans[i], walker::View::Prepare)
        &&& nodes[i].prepare_state matches PrepareState::Deleted(n) ==> n >= 1
    }
}

/// The parent of the `k`-th element of a run that starts at `id` under
/// `parent`: the first hangs under `parent`, each further one right of the
/// one before.
pub open spec fn run_parent(parent: Parent, id: ElementId, k: int) -> Parent {
    if k == 0 {
        parent
    } else {
        Parent::Node { id: run_id(id, k - 1), side: Side::Right }
    }
}

/// Whether an element under `parent` waits for the element `id`.
pub open spec fn waits_for(parent: Parent, id: ElementId) -> bool {
    parent matches Parent::Node { id: pid, .. } && pid == id
}

/// Every element that names an element of the run `id`, `id + 1`, ... of
/// `len` elements as its parent is in the document, on its side of that
/// parent: after it on the right, before it on the left.
pub open spec fn waiters_placed<T>(l: List<T>, id: ElementId, len: int) -> bool {
    forall|c: ElementId| match #[trigger] l.parent_of(c) {
        Some(Parent::Node { id: p, side }) => run_ids(id, len as nat).contains(p) ==> l.in_doc(c)
            && (side == Side::Right ==> l.before(p, c)) && (side == Side::Left ==> l.before(c, p)),
        _ => true,
    }
}

/// What a run insert guarantees of placement when the run's ids are new to
/// the list and its parent is in the document: every element of the run is
/// in the document and nothing waits for it any longer, so the elements that
/// waited for one of them hang under it.
pub open spec fn run_placed<T>(l0: List<T>, l: List<T>, id: ElementId, len: int, parent: Parent) -> bool {
    l0.places(parent) && (forall|j: int| 0 <= j < len ==> !l0.has_id(#[trigger] run_id(id, j)))
        ==> forall|j: int| 0 <= j < len ==> l.in_doc(#[trigger] run_id(id, j)) && !l.is_awaited(run_id(id, j))
}

/// What a run insert keeps of the ids `id`, `id + 1`, ... once `k` of its
/// `len` elements went in: those held (and no other new one), the elements
/// held before kept with their states, each new one
/// deleted in the effect view exactly when its delete waited for it and not
/// yet inserted in the prepare view, the waiting deletes of those it brought
/// consumed, and the rest untouched.
#[verifier::opaque]
pub open spec fn run_progress<T>(l0: List<T>, l: List<T>, id: ElementId, parent: Parent, k: int, len: int) -> bool {
    &&& forall|j: int| 0 <= j < k ==> l.has_id(#[trigger] run_id(id, j))
    &&& forall|j: int| 0 <= j < k && !l0.has_id(#[trigger] run_id(id, j)) ==> l.effect_deleted_id(run_id(id, j))
        == l0.pending_deletes().contains(run_id(id, j)) && l.prepare_state_of(run_id(id, j)) == Some(PrepareState::UnInserted)
        && l.parent_of(run_id(id, j)) == Some(run_parent(parent, id, j))
    &&& forall|j: int| k <= j < len ==> l.has_id(#[trigger] run_id(id, j)) == l0.has_id(run_id(id, j))
    &&& forall|e: ElementId| #[trigger] l.has_id(e) ==> l0.has_id(e) || run_ids(id, k as nat).contains(e)
    &&& forall|e: ElementId| #[trigger] l0.has_id(e) ==> l.has_id(e) && l.effect_deleted_id(e) == l0.effect_deleted_id(e)
        && l.prepare_state_of(e) == l0.prepare_state_of(e) && l.parent_of(e) == l0.parent_of(e)
    &&& forall|e: ElementId| #[trigger] l.pending_deletes().contains(e) <==> l0.pending_deletes().contains(e)
        && !(run_ids(id, k as nat).contains(e) && !l0.has_id(e))
}

/// The node indices `start`, `start + 1`, ... of `n` nodes added in turn.
pub open spec fn run_nodes(start: nat, n: nat) -> Seq<usize> {
    Seq::new(n, |k: int| (start + k) as usize)
}

/// The state a prepare step moves `s` to, if it applies: the step advances
/// or retracts (`advance`) an insert or a delete (`insert`).
pub open spec fn step_spec(advance: bool, insert: bool, s: PrepareState) -> Option<PrepareState> {
    if advance && insert {
        prepare_insert_step(s)
    } else if !advance && insert {
        prepare_uninsert_step(s)
    } else if advance {
        prepare_delete_step(s)
    } else {
        prepare_undelete_step(s)
    }
}

/// The outcome of moving, in turn, the prepare state of each id of `ids` by
/// one step, from the states `st`: the error that stopped the run, if any,
/// and the states reached.
pub open spec fn run_moves(st: spec_fn(ElementId) -> Option<PrepareState>, ids: Seq<ElementId>, advance: bool, insert: bool)
    -> (Option<PrepareError>, spec_fn(ElementId) -> Option<PrepareState>)
    decreases ids.len(),
{
    if ids.len() == 0 {
        (None, st)
    } else {
        let prev = run_moves(st, ids.drop_last(), advance, insert);
        if prev.0 is Some {
            prev
        } else {
            let e = ids.last();
            match (prev.1)(e) {
                None => (Some(PrepareError::NodeNotFound), prev.1),
                Some(s) => match step_spec(advance, insert, s) {
                    None => (Some(PrepareError::InvalidState), prev.1),
                    Some(s2) => (None, |x: ElementId| if x == e { Some(s2) } else { (prev.1)(x) }),
                },
            }
        }
    }
}

/// The id of the `k`-th element created by a run that starts at `id`.
pub open spec fn run_id(id: ElementId, k: int) -> ElementId {
    ElementId { op_id: id.op_id, index: (id.index + k) as u64 }
}

/// The ids of the `n` elements of a run that starts at `id`.
pub open spec fn run_ids(id: ElementId, n: nat) -> Seq<ElementId> {
    Seq::new(n, |k: int| run_id(id, k))
}

/// The ids a list of deletes names, in order.
pub open spec fn deletes_ids(ds: Seq<Delete>) -> Seq<ElementId>
    decreases ds.len(),
{
    if ds.len() == 0 {
        Seq::empty()
    } else {
        deletes_ids(ds.drop_last()) + run_ids(ds.last().id, ds.last().count as nat)
    }
}

/// The ids a prepare op moves, in order.
pub open spec fn prepare_op_ids(op: PrepareOp) -> Seq<ElementId> {
    match op {
        PrepareOp::Insert { id, count } => run_ids(id, count as nat),
        PrepareOp::Delete(ds) => deletes_ids(ds@),
    }
}

/// The prepare state an advanced insert moves `s` to, if it applies.
pub open spec fn prepare_insert_step(s: PrepareState) -> Option<PrepareState> {
    match s {
        PrepareState::UnInserted => Some(PrepareState::Inserted),
        _ => None,
    }
}

/// The prepare state a retracted insert moves `s` to, if it applies.
pub open spec fn prepare_uninsert_step(s: PrepareState) -> Option<PrepareState> {
    match s {
        PrepareState::Inserted => Some(PrepareState::UnInserted),
        _ => None,
    }
}

/// The prepare state an advanced delete moves `s` to, if it applies.
pub open spec fn prepare_delete_step(s: PrepareState) -> Option<PrepareState> {
    match s {
        PrepareState::Inserted => Some(PrepareState::Deleted(1)),
        PrepareState::Deleted(n) => if n < usize::MAX { Some(PrepareState::Deleted((n + 1) as usize)) } else { None },
        PrepareState::UnInserted => None,
    }
}

/// The prepare state a retracted delete moves `s` to, if it applies.
pub open spec fn prepare_undelete_step(s: PrepareState) -> Option<PrepareState> {
    match s {
        PrepareState::Deleted(n) => if n == 1 { Some(PrepareState::Inserted) } else if n > 1 { Some(PrepareState::Deleted((n - 1) as usize)) } else { None },
        _ => None,
    }
}

impl NodeBase {
    pub(crate) open spec fn size_in(self, v: walker::View) -> usize {
        match v {
            walker::View::Effect => self.effect_size,
            walker::View::Prepare => self.prepare_size,
        }
    }
}

impl<T> List<T> {
    /// The node indices of the list in document order.
    pub closed spec fn order(&self) -> Seq<usize> {
        flat(self.spans@, self.root.right_children@)
    }

    /// The elements of the list in view `v`, in order.
    pub closed spec fn doc(&self, v: walker::View) -> Seq<T> {
        docs(self.nodes@, self.order(), v)
    }

    /// The number of elements the list holds in view `v`.
    pub closed spec fn len_in(&self, v: walker::View) -> nat {
        cnt(self.nodes@, self.order(), v)
    }

    /// The ids of the elements the list shows in view `v`, in order.
    pub closed spec fn ids_in(&self, v: walker::View) -> Seq<ElementId> {
        ids_shown(self.nodes@, self.order(), v)
    }

    /// The index of the node with id `id`, if there is one.
    pub closed spec fn index_of(&self, id: ElementId) -> Option<int> {
        if exists|i: int| 0 <= i < self.nodes@.len() && self.nodes@[i].id == id {
            Some(choose|i: int| 0 <= i < self.nodes@.len() && self.nodes@[i].id == id)
        } else {
            None
        }
    }

    /// Whether the list holds an element with id `id`.
    pub closed spec fn has_id(&self, id: ElementId) -> bool {
        self.index_of(id) is Some
    }

    /// The prepare state of the element with id `id`.
    pub closed spec fn prepare_state_of(&self, id: ElementId) -> Option<PrepareState> {
        match self.index_of(id) {
            Some(i) => Some(self.nodes@[i].prepare_state),
            None => None,
        }
    }

    /// The prepare state of every id (`None` for ids the list does not hold).
    pub open spec fn prepare_states(&self) -> spec_fn(ElementId) -> Option<PrepareState> {
        |e: ElementId| self.prepare_state_of(e)
    }

    /// Whether the list's prepare states are those of `f`.
    pub open spec fn states_are(&self, f: spec_fn(ElementId) -> Option<PrepareState>) -> bool {
        forall|e: ElementId| #[trigger] self.prepare_state_of(e) == f(e)
    }

    /// Whether `other` has the structure, the contents and the effect view of
    /// this list: only prepare states may differ.
    pub closed spec fn same_but_prepare(&self, other: &Self) -> bool {
        &&& other.order() == self.order()
        &&& other.pending_delete == self.pending_delete
        &&& other.nodes@.len() == self.nodes@.len()
        &&& forall|x: int| 0 <= x < self.nodes@.len() ==> {
            &&& (#[trigger] other.nodes@[x]).id == self.nodes@[x].id
            &&& other.nodes@[x].parent == self.nodes@[x].parent
            &&& other.nodes@[x].content == self.nodes@[x].content
            &&& other.nodes@[x].effect_deleted == self.nodes@[x].effect_deleted
        }
    }

    /// Whether the `n` ids of the run that starts at `id` are new to the list:
    /// it holds none of them, no node waits for one, and none was deleted
    /// before it arrived.
    pub open spec fn fresh_run(&self, id: ElementId, n: nat) -> bool {
        forall|k: int| 0 <= k < n ==> !self.has_id(#[trigger] run_id(id, k)) && !self.is_awaited(run_id(id, k))
            && !self.pending_deletes().contains(run_id(id, k))
    }

    /// The node at the place `i` of the document order holds `id`,
    /// `content`, and the visibility `deleted`, with parent `parent`.
    pub closed spec fn node_is(&self, i: int, id: ElementId, parent: Parent, content: T, deleted: bool) -> bool {
        &&& 0 <= i < self.nodes@.len()
        &&& self.nodes@[i].id == id
        &&& self.nodes@[i].parent == parent
        &&& self.nodes@[i].content == content
        &&& self.nodes@[i].effect_deleted == deleted
        &&& self.nodes@[i].prepare_state == PrepareState::UnInserted
    }

    /// Where an insert under `parent` lands at place `q` of the document
    /// order: right after its parent, if it goes to the right of a parent
    /// without right children, and right before it, if it goes to the left of
    /// a parent without left children.
    pub closed spec fn anchored(&self, parent: Parent, q: int) -> bool {
        match parent {
            Parent::Root => true,
            Parent::Node { id, side } => match self.index_of(id) {
                None => true,
                Some(p) => match side {
                    Side::Right => right_of(self.nodes@, p).len() == 0 ==> walk::anchor_ok(self.order(), q, Some((true, p as usize))),
                    Side::Left => left_of(self.nodes@, p).len() == 0 ==> walk::anchor_ok(self.order(), q, Some((false, p as usize))),
                },
            },
        }
    }

    /// `other` holds every element of this list at the same place, with the
    /// same id, parent, content and states.
    pub closed spec fn keeps(&self, other: &Self) -> bool {
        &&& other.nodes@.len() >= self.nodes@.len()
        &&& forall|x: int| 0 <= x < self.nodes@.len() ==> {
            &&& (#[trigger] other.nodes@[x]).id == self.nodes@[x].id
            &&& other.nodes@[x].parent == self.nodes@[x].parent
            &&& other.nodes@[x].content == self.nodes@[x].content
            &&& other.nodes@[x].effect_deleted == self.nodes@[x].effect_deleted
            &&& other.nodes@[x].prepare_state == self.nodes@[x].prepare_state
        }
    }

    /// The number of elements the list holds, deleted ones included.
    pub closed spec fn node_count(&self) -> nat {
        self.nodes@.len()
    }

    /// `other` is this list with the elements whose ids are in `ids` deleted
    /// in the effect view, and nothing else changed but the ids remembered as
    /// deleted before their element arrived.
    pub closed spec fn with_deleted(&self, other: &Self, ids: Seq<ElementId>) -> bool {
        &&& other.order() == self.order()
        &&& other.nodes@.len() == self.nodes@.len()
        &&& forall|x: int| 0 <= x < self.nodes@.len() ==> {
            &&& (#[trigger] other.nodes@[x]).id == self.nodes@[x].id
            &&& other.nodes@[x].parent == self.nodes@[x].parent
            &&& other.nodes@[x].content == self.nodes@[x].content
            &&& other.nodes@[x].prepare_state == self.nodes@[x].prepare_state
            &&& other.nodes@[x].effect_deleted == (self.nodes@[x].effect_deleted || ids.contains(self.nodes@[x].id))
        }
    }

    /// Node `i` holds the `offset`-th element (counting from 1) of view `v`,
    /// at place `pos` of the document order.
    pub closed spec fn holds_rank(&self, i: int, pos: int, v: walker::View, offset: int) -> bool {
        &&& 0 <= pos < self.order().len()
        &&& self.order()[pos] == i
        &&& visible(self.nodes@[i], v)
        &&& cnt(self.nodes@, self.order().take(pos + 1), v) == offset
    }

    /// Node `i` holds the `offset`-th element (counting from 1) of view `v`.
    pub closed spec fn at_rank(&self, i: int, v: walker::View, offset: int) -> bool {
        exists|pos: int| #[trigger] self.holds_rank(i, pos, v, offset)
    }

    /// The right children of `left`, or of the root for none.
    pub closed spec fn sibs_of(&self, left: Option<int>) -> Seq<usize> {
        match left {
            None => self.root.right_children@,
            Some(i) => right_of(self.nodes@, i),
        }
    }

    /// The element `id` is the `offset`-th element (counting from 1) of view `v`.
    pub closed spec fn id_at_rank(&self, id: ElementId, v: walker::View, offset: int) -> bool {
        exists|i: int| #[trigger] self.at_rank(i, v, offset) && self.nodes@[i].id == id
    }

    /// `lpos` is the place of `left` in the document order, or -1 for none.
    pub closed spec fn left_place(&self, left: Option<int>, lpos: int) -> bool {
        match left {
            None => lpos == -1,
            Some(i) => 0 <= lpos < self.order().len() && self.order()[lpos] == i,
        }
    }

    /// The parent and right origin of an insert right after `left` (at place
    /// `lpos` of the order), in view `v`: to the right of `left` if no right
    /// child of it is in the view's reach, else to the left of the node that
    /// follows `left`; the right origin is the node that follows `left`.
    pub closed spec fn insert_choice(&self, v: walker::View, left: Option<int>, lpos: int, parent: Parent, right_origin: Option<ElementId>) -> bool {
        let o = self.order();
        let next: Option<int> = if 0 <= lpos + 1 < o.len() { Some(o[lpos + 1] as int) } else { None };
        let sibs = self.sibs_of(left);
        let reach = exists|k: int| 0 <= k < sibs.len() && #[trigger] not_uninserted(self.nodes@[sibs[k] as int], v);
        if !reach {
            &&& parent == (match left {
                None => Parent::Root,
                Some(i) => Parent::Node { id: self.nodes@[i].id, side: Side::Right },
            })
            &&& right_origin == (match next {
                None => None,
                Some(x) => Some(self.nodes@[x].id),
            })
        } else {
            &&& next is Some
            &&& parent == (Parent::Node { id: self.nodes@[next->0].id, side: Side::Left })
            &&& right_origin is None
        }
    }

    /// `parent` and `right_origin` are where a local insert at position
    /// `offset` of view `v` goes: right after the node before that position.
    pub closed spec fn insert_position(&self, v: walker::View, offset: int, parent: Parent, right_origin: Option<ElementId>) -> bool {
        exists|left: Option<int>, lpos: int| #[trigger] self.left_place(left, lpos)
            && (match left { None => offset == 0, Some(i) => self.at_rank(i, v, offset) })
            && self.insert_choice(v, left, lpos, parent, right_origin)
    }

    /// Whether a node that hangs nowhere yet waits for the element `id` as
    /// its parent.
    pub closed spec fn is_awaited(&self, id: ElementId) -> bool {
        exists|i: int| 0 <= i < self.nodes@.len() && #[trigger] self.nodes@[i].parent_index is None
            && (self.nodes@[i].parent matches Parent::Node { id: pid, .. } && pid == id)
    }

    /// Whether an element with parent `parent` would be placed in the
    /// document: under the root, or under an element of the document.
    pub closed spec fn places(&self, parent: Parent) -> bool {
        match parent {
            Parent::Root => true,
            Parent::Node { id, .. } => match self.index_of(id) {
                Some(p) => self.order().contains(p as usize),
                None => false,
            },
        }
    }

    /// Whether every element the list holds has an id whose index is below the
    /// largest, so that a delete of one element names a run that fits.
    pub open spec fn ids_fit(&self) -> bool {
        forall|e: ElementId| #[trigger] self.has_id(e) ==> e.index < u64::MAX
    }

    /// Whether the element `id` is in the document: the list holds it and it
    /// hangs, through its ancestors, from the root.
    pub closed spec fn in_doc(&self, id: ElementId) -> bool {
        match self.index_of(id) {
            Some(x) => self.order().contains(x as usize),
            None => false,
        }
    }

    /// Whether the element `a` comes before the element `b` in the document.
    pub closed spec fn before(&self, a: ElementId, b: ElementId) -> bool {
        exists|i: int, j: int|
            0 <= i < j < self.order().len() && #[trigger] self.index_of(a) == Some(self.order()[i] as int)
                && #[trigger] self.index_of(b) == Some(self.order()[j] as int)
    }

    /// The parent the element `id` names, if the list holds it.
    pub closed spec fn parent_of(&self, id: ElementId) -> Option<Parent> {
        match self.index_of(id) {
            Some(x) => Some(self.nodes@[x].parent),
            None => None,
        }
    }

    /// Whether the list holds the element `id`, deleted in the effect view.
    pub closed spec fn effect_deleted_id(&self, id: ElementId) -> bool {
        match self.index_of(id) {
            Some(x) => self.nodes@[x].effect_deleted,
            None => false,
        }
    }

    /// The ids deleted before their element arrived.
    pub closed spec fn pending_deletes(&self) -> Seq<ElementId> {
        self.pending_delete@
    }

    /// With unique ids, the node with id `id` is the one at `i`.
    pub(crate) proof fn lemma_index_of(&self, id: ElementId, i: int)
        requires
            tree_ok(self.nodes@, self.spans@),
            0 <= i < self.nodes@.len(),
            self.nodes@[i].id == id,
        ensures
            self.index_of(id) == Some(i),
            self.has_id(id),
    {
        let j = choose|j: int| 0 <= j < self.nodes@.len() && self.nodes@[j].id == id;
        if j != i {
            tree::lemma_tree_ids(self.nodes@, self.spans@, i, j);
        }
    }

    /// Without a node with id `id`, the list does not hold it.
    pub(crate) proof fn lemma_index_of_none(&self, id: ElementId)
        requires
            forall|i: int| 0 <= i < self.nodes@.len() ==> self.nodes@[i].id != id,
        ensures
            self.index_of(id) is None,
            !self.has_id(id),
    {
    }

    /// A node that hangs nowhere and names `id` as its parent waits for `id`.
    pub(crate) proof fn lemma_awaited(&self, id: ElementId, i: int)
        requires
            0 <= i < self.nodes@.len(),
            self.nodes@[i].parent_index is None,
            self.nodes@[i].parent matches Parent::Node { id: pid, .. } && pid == id,
        ensures
            self.is_awaited(id),
    {
        assert(self.nodes@[i].parent_index is None);
    }

    /// Two lists with the same ids at the same places find every id at the
    /// same place.
    pub(crate) proof fn lemma_same_ids(&self, other: &Self, id: ElementId)
        requires
            tree_ok(self.nodes@, self.spans@),
            tree_ok(other.nodes@, other.spans@),
            self.nodes@.len() == other.nodes@.len(),
            forall|i: int| 0 <= i < self.nodes@.len() ==> (#[trigger] self.nodes@[i]).id == other.nodes@[i].id,
        ensures
            self.index_of(id) == other.index_of(id),
    {
        if self.has_id(id) {
            let i = self.index_of(id)->0;
            assert(self.nodes@[i].id == id);
            other.lemma_index_of(id, i);
            self.lemma_index_of(id, i);
        } else {
            assert forall|i: int| 0 <= i < other.nodes@.len() implies other.nodes@[i].id != id by {
                if other.nodes@[i].id == id {
                    assert(self.nodes@[i].id == id);
                }
            }
            other.lemma_index_of_none(id);
        }
    }

    /// No element of a valid list is deleted zero times.
    pub(crate) proof fn lemma_no_deleted_zero(&self)
        requires
            self.wf(),
        ensures
            forall|e: ElementId| #[trigger] self.prepare_state_of(e) != Some(PrepareState::Deleted(0)),
    {
        assert forall|e: ElementId| #[trigger] self.prepare_state_of(e) != Some(PrepareState::Deleted(0)) by {
            if self.index_of(e) is Some {
                let i = self.index_of(e)->0;
                assert(self.nodes@[i].prepare_state matches PrepareState::Deleted(n) ==> n >= 1);
            }
        }
    }

    /// What `places` means, spelled out.
    pub(crate) proof fn lemma_places(&self, parent: Parent)
        ensures
            self.places(parent) == match parent {
                Parent::Root => true,
                Parent::Node { id, .. } => self.index_of(id) matches Some(p) && self.order().contains(p as usize),
            },
    {
    }

    /// The well-formedness of the list while node `e` is being inserted: it may
    /// hang nowhere yet.
    pub(crate) open spec fn wf_but(&self, e: int) -> bool {
        &&& tree_ok(self.nodes@, self.spans@)
        &&& root_ok_but(self.nodes@, self.root.right_children@, e)
        &&& pending_ok_but(self.nodes@, self.pending_parent@, e)
        &&& sizes_ok(self.nodes@, self.spans@)
        &&& self.root.effect_size == cnt(self.nodes@, self.order(), walker::View::Effect)
        &&& self.root.prepare_size == cnt(self.nodes@, self.order(), walker::View::Prepare)
        &&& 0 <= e < self.nodes@.len()
        &&& !self.root.right_children@.contains(e as usize)
        &&& self.nodes@[e].parent_index is None
    }

    /// Every sibling list of the list (the root's and each element's left
    /// and right children) runs by increasing element id.
    #[verifier::opaque]
    pub closed spec fn sorted(&self) -> bool {
        siblings::siblings_sorted(self.nodes@, self.root.right_children@)
    }

    /// The well-formedness of the list.
    pub closed spec fn wf(&self) -> bool {
        &&& tree_ok(self.nodes@, self.spans@)
        &&& root_ok(self.nodes@, self.root.right_children@)
        &&& pending_ok(self.nodes@, self.pending_parent@)
        &&& sizes_ok(self.nodes@, self.spans@)
        &&& self.root.effect_size == cnt(self.nodes@, self.order(), walker::View::Effect)
        &&& self.root.prepare_size == cnt(self.nodes@, self.order(), walker::View::Prepare)
    }
}

} // verus!
