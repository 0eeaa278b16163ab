//! Scene-graph nodes.
//!
//! A [`Node`] owns its children outright — the child list is a `Vec` of
//! nodes, so a node can sit under at most one parent by construction, and
//! the parent/child relation is a tree with no back-references to manage.
//! Everything the renderer reads (identity, transform, dirty flags, the
//! optional GPU-resource proxy) lives directly on the node.
//!
//! Specifications work over [`NodeView`], a ghost mirror of the node tree
//! whose child list is a `Seq`, so that contracts can describe whole
//! modified trees.

use vstd::prelude::*;
use crate::math::Mat4;
use crate::primitive::{MeshPrimitive, PrimitiveView};

verus! {

/// Hands out process-unique node identifiers, one allocator per scene
/// construction context. Identifiers increase monotonically and are never
/// reused.
pub struct IdAllocator {
    next: u32,
}

impl IdAllocator {
    /// The next identifier this allocator will hand out.
    pub closed spec fn counter(&self) -> u32 {
        self.next
    }

    /// An allocator whose first identifier is 0.
    pub fn new() -> (ids: IdAllocator)
        ensures
            ids.counter() == 0,
    {
        IdAllocator { next: 0 }
    }
}

/// Returns a fresh object identifier and advances the allocator.
pub fn next_object_id(ids: &mut IdAllocator) -> (id: u32)
    requires
        old(ids).counter() < u32::MAX,
    ensures
        id == old(ids).counter(),
        final(ids).counter() == old(ids).counter() + 1,
{
    let id = ids.next;
    ids.next = ids.next + 1;
    id
}

/// One scene-graph entity: a group, mesh, or line.
pub struct Node {
    /// Process-unique identity, from [`next_object_id`].
    pub id: u32,
    /// Set when this node's own data changed and has not been synchronized.
    pub is_self_dirty: bool,
    /// Set when some strict descendant is dirty.
    pub is_child_dirty: bool,
    /// Local transform.
    pub position: Mat4,
    /// GPU-resource proxy, present on renderable nodes (meshes).
    pub primitive: Option<MeshPrimitive>,
    /// Owned children; insertion order is traversal order.
    pub children: Vec<Node>,
}

/// Ghost mirror of [`Node`].
pub struct NodeView {
    pub id: u32,
    pub is_self_dirty: bool,
    pub is_child_dirty: bool,
    pub position: Mat4,
    pub primitive: Option<PrimitiveView>,
    pub children: Seq<NodeView>,
}

/// The ghost mirror of a node, children included.
pub open spec fn node_view(n: Node) -> NodeView
    decreases n,
{
    NodeView {
        id: n.id,
        is_self_dirty: n.is_self_dirty,
        is_child_dirty: n.is_child_dirty,
        position: n.position,
        primitive: match n.primitive {
            Some(p) => Some(p@),
            None => None,
        },
        children: nodes_view(n.children@),
    }
}

/// The ghost mirrors of a sequence of nodes, in order.
pub open spec fn nodes_view(s: Seq<Node>) -> Seq<NodeView>
    decreases s,
{
    if s.len() == 0 {
        Seq::empty()
    } else {
        seq![node_view(s[0])] + nodes_view(s.drop_first())
    }
}

/// `nodes_view` keeps the length and maps `node_view` element by element.
pub proof fn lemma_nodes_view(s: Seq<Node>)
    ensures
        nodes_view(s).len() == s.len(),
        forall|i: int| 0 <= i < s.len() ==> #[trigger] nodes_view(s)[i] == node_view(s[i]),
    decreases s,
{
    if s.len() > 0 {
        lemma_nodes_view(s.drop_first());
    }
}

impl View for Node {
    type V = NodeView;

    open spec fn view(&self) -> NodeView {
        node_view(*self)
    }
}

impl NodeView {
    /// Every identifier in this subtree, the node's own included.
    pub open spec fn subtree_ids(self) -> Set<u32>
        decreases self,
    {
        seq_subtree_ids(self.children).insert(self.id)
    }

    /// Whether `id` names this node or any descendant.
    pub open spec fn contains_id(self, id: u32) -> bool
        decreases self,
    {
        self.id == id || seq_contains_id(self.children, id)
    }

    /// The number of nodes in this subtree (at least 1).
    pub open spec fn size(self) -> nat
        decreases self,
    {
        1 + seq_size(self.children)
    }

    /// Identifiers are unique across this subtree: sibling subtrees are
    /// pairwise disjoint and no node repeats an ancestor's identifier.
    pub open spec fn wf(self) -> bool
        decreases self,
    {
        &&& seq_wf(self.children)
        &&& !seq_subtree_ids(self.children).contains(self.id)
    }

    /// Whether a direct child carries `id`.
    pub open spec fn has_child_id(self, id: u32) -> bool {
        seq_first_index_of_id(self.children, id) >= 0
    }

    /// This node with `c` appended to its children.
    pub open spec fn with_child(self, c: NodeView) -> NodeView {
        NodeView { children: self.children.push(c), ..self }
    }

    /// The result of marking the node carrying `id` dirty: `is_self_dirty`
    /// is set on that node alone, and `is_child_dirty` is set on every
    /// strict ancestor of it along the way. A tree that does not contain
    /// `id` is left as it is.
    pub open spec fn mark_dirty(self, id: u32) -> NodeView
        decreases self,
    {
        if self.id == id {
            NodeView { is_self_dirty: true, ..self }
        } else if seq_contains_id(self.children, id) {
            NodeView { is_child_dirty: true, children: seq_mark_dirty(self.children, id), ..self }
        } else {
            self
        }
    }

    /// The first node carrying `id` in this subtree, searching depth-first
    /// in child order.
    pub open spec fn find_node(self, id: u32) -> Option<NodeView>
        decreases self,
    {
        if self.id == id {
            Some(self)
        } else {
            seq_find_node(self.children, id)
        }
    }

    /// This tree with the primitive slot of the node carrying `id` (the
    /// first carrier, in depth-first child order) replaced by `p`; a tree
    /// that does not contain `id` is left as it is.
    pub open spec fn with_primitive_at(self, id: u32, p: Option<PrimitiveView>) -> NodeView
        decreases self,
    {
        if self.id == id {
            NodeView { primitive: p, ..self }
        } else if seq_contains_id(self.children, id) {
            NodeView { children: seq_with_primitive_at(self.children, id, p), ..self }
        } else {
            self
        }
    }

    /// The tree after inserting `c` as the last child of the node carrying
    /// `parent_id` (the first such node, in depth-first child order). The
    /// insertion is refused — leaving the tree as it is — when that node
    /// already has a direct child with `c`'s identifier, and does nothing
    /// when no node carries `parent_id`.
    pub open spec fn insert_under(self, parent_id: u32, c: NodeView) -> NodeView
        decreases self,
    {
        if self.id == parent_id {
            if self.has_child_id(c.id) {
                self
            } else {
                self.with_child(c)
            }
        } else if seq_contains_id(self.children, parent_id) {
            let k = seq_first_index_containing(self.children, parent_id);
            proof {
                lemma_seq_first_index_containing(self.children, parent_id);
                assert(decreases_to!(self => self.children));
                assert(decreases_to!(self.children => self.children[k]));
                assert(decreases_to!(self => self.children[k]));
            }
            NodeView {
                children: self.children.update(k, self.children[k].insert_under(parent_id, c)),
                ..self
            }
        } else {
            self
        }
    }

    /// Whether inserting a node with identifier `c_id` under `parent_id`
    /// succeeds: the parent exists and has no direct child carrying `c_id`.
    pub open spec fn insert_accepted(self, parent_id: u32, c_id: u32) -> bool {
        self.contains_id(parent_id) && !self.find_node(parent_id)->Some_0.has_child_id(c_id)
    }

    /// Whether some node in this subtree carries `p` and has a direct
    /// child carrying `c`.
    pub open spec fn has_edge(self, p: u32, c: u32) -> bool
        decreases self,
    {
        (self.id == p && self.has_child_id(c)) || seq_has_edge(self.children, p, c)
    }

    /// Whether the node carrying `a` is a strict ancestor of the node
    /// carrying `d` within this tree: `d` sits somewhere below `a`.
    pub open spec fn is_strict_ancestor_of(self, a: u32, d: u32) -> bool {
        a != d && match self.find_node(a) {
            Some(n) => n.contains_id(d),
            None => false,
        }
    }

    /// This node with the direct child at `i` removed.
    pub open spec fn without_child_at(self, i: int) -> NodeView {
        NodeView { children: self.children.remove(i), ..self }
    }
}

/// Union of the subtree identifiers of every node in `s`.
pub open spec fn seq_subtree_ids(s: Seq<NodeView>) -> Set<u32>
    decreases s,
{
    if s.len() == 0 {
        Set::empty()
    } else {
        s[0].subtree_ids().union(seq_subtree_ids(s.drop_first()))
    }
}

/// Whether any node in `s` contains `id` in its subtree.
pub open spec fn seq_contains_id(s: Seq<NodeView>, id: u32) -> bool
    decreases s,
{
    s.len() > 0 && (s[0].contains_id(id) || seq_contains_id(s.drop_first(), id))
}

/// Total number of nodes across the subtrees in `s`.
pub open spec fn seq_size(s: Seq<NodeView>) -> nat
    decreases s,
{
    if s.len() == 0 {
        0
    } else {
        s[0].size() + seq_size(s.drop_first())
    }
}

/// The nodes in `s` are well formed with pairwise disjoint subtree
/// identifiers.
pub open spec fn seq_wf(s: Seq<NodeView>) -> bool
    decreases s,
{
    if s.len() == 0 {
        true
    } else {
        &&& s[0].wf()
        &&& seq_wf(s.drop_first())
        &&& s[0].subtree_ids().disjoint(seq_subtree_ids(s.drop_first()))
    }
}

/// Marks `id` dirty inside the first subtree of `s` that contains it; the
/// other subtrees are untouched.
pub open spec fn seq_mark_dirty(s: Seq<NodeView>, id: u32) -> Seq<NodeView>
    decreases s,
{
    if s.len() == 0 {
        s
    } else if s[0].contains_id(id) {
        seq![s[0].mark_dirty(id)] + s.drop_first()
    } else {
        seq![s[0]] + seq_mark_dirty(s.drop_first(), id)
    }
}

/// The first node carrying `id` across the subtrees of `s`.
pub open spec fn seq_find_node(s: Seq<NodeView>, id: u32) -> Option<NodeView>
    decreases s,
{
    if s.len() == 0 {
        None
    } else if s[0].contains_id(id) {
        s[0].find_node(id)
    } else {
        seq_find_node(s.drop_first(), id)
    }
}

/// Replaces the primitive slot of `id`'s node inside the first subtree of
/// `s` that contains it; the other subtrees are untouched.
pub open spec fn seq_with_primitive_at(
    s: Seq<NodeView>,
    id: u32,
    p: Option<PrimitiveView>,
) -> Seq<NodeView>
    decreases s,
{
    if s.len() == 0 {
        s
    } else if s[0].contains_id(id) {
        seq![s[0].with_primitive_at(id, p)] + s.drop_first()
    } else {
        seq![s[0]] + seq_with_primitive_at(s.drop_first(), id, p)
    }
}

/// What `seq_with_primitive_at` does, element by element: the first
/// subtree containing `id` is rewritten, all others are left alone.
pub proof fn lemma_seq_with_primitive_at_pointwise(
    s: Seq<NodeView>,
    id: u32,
    p: Option<PrimitiveView>,
)
    ensures
        seq_with_primitive_at(s, id, p).len() == s.len(),
        seq_first_index_containing(s, id) == -1 ==> seq_with_primitive_at(s, id, p) == s,
        forall|j: int|
            0 <= j < s.len() && j != seq_first_index_containing(s, id)
                ==> #[trigger] seq_with_primitive_at(s, id, p)[j] == s[j],
        seq_first_index_containing(s, id) >= 0 ==> seq_with_primitive_at(s, id, p)[
            seq_first_index_containing(s, id)] == s[seq_first_index_containing(
            s,
            id,
        )].with_primitive_at(id, p),
    decreases s,
{
    lemma_seq_first_index_containing(s, id);
    if s.len() > 0 {
        lemma_seq_with_primitive_at_pointwise(s.drop_first(), id, p);
        if s[0].contains_id(id) {
            assert(seq_with_primitive_at(s, id, p) =~= s.update(0, s[0].with_primitive_at(id, p)));
        } else {
            lemma_seq_first_index_containing(s.drop_first(), id);
            let rest = seq_first_index_containing(s.drop_first(), id);
            assert forall|j: int|
                0 <= j < s.len() && j != seq_first_index_containing(s, id)
                    implies #[trigger] seq_with_primitive_at(s, id, p)[j] == s[j] by {
                if j > 0 {
                    assert(seq_with_primitive_at(s, id, p)[j] == seq_with_primitive_at(
                        s.drop_first(),
                        id,
                        p,
                    )[j - 1]);
                    assert(s[j] == s.drop_first()[j - 1]);
                }
            }
            if rest == -1 {
                assert(seq_with_primitive_at(s, id, p) =~= s);
            } else {
                assert(seq_with_primitive_at(s, id, p)[rest + 1] == seq_with_primitive_at(
                    s.drop_first(),
                    id,
                    p,
                )[rest]);
                assert(s[rest + 1] == s.drop_first()[rest]);
            }
        }
    }
}

/// Rewriting a primitive slot changes no node's identity or shape: the
/// subtree's identifier set, its well-formedness, its size, and its child
/// counts all survive.
pub proof fn lemma_with_primitive_at_preserves(v: NodeView, id: u32, p: Option<PrimitiveView>)
    ensures
        v.with_primitive_at(id, p).id == v.id,
        v.with_primitive_at(id, p).is_self_dirty == v.is_self_dirty,
        v.with_primitive_at(id, p).is_child_dirty == v.is_child_dirty,
        v.with_primitive_at(id, p).position == v.position,
        v.with_primitive_at(id, p).subtree_ids() == v.subtree_ids(),
        v.with_primitive_at(id, p).children.len() == v.children.len(),
        v.with_primitive_at(id, p).size() == v.size(),
        v.wf() ==> v.with_primitive_at(id, p).wf(),
    decreases v,
{
    if v.id == id {
    } else if seq_contains_id(v.children, id) {
        lemma_seq_with_primitive_at_preserves(v.children, id, p);
    }
}

/// Sequence version of [`lemma_with_primitive_at_preserves`].
pub proof fn lemma_seq_with_primitive_at_preserves(
    s: Seq<NodeView>,
    id: u32,
    p: Option<PrimitiveView>,
)
    ensures
        seq_with_primitive_at(s, id, p).len() == s.len(),
        seq_subtree_ids(seq_with_primitive_at(s, id, p)) == seq_subtree_ids(s),
        seq_size(seq_with_primitive_at(s, id, p)) == seq_size(s),
        seq_wf(s) ==> seq_wf(seq_with_primitive_at(s, id, p)),
    decreases s,
{
    if s.len() > 0 {
        if s[0].contains_id(id) {
            lemma_with_primitive_at_preserves(s[0], id, p);
            let r = seq![s[0].with_primitive_at(id, p)] + s.drop_first();
            assert(r[0] == s[0].with_primitive_at(id, p));
            assert(r.drop_first() =~= s.drop_first());
            assert(seq_subtree_ids(r) =~= seq_subtree_ids(s));
        } else {
            lemma_seq_with_primitive_at_preserves(s.drop_first(), id, p);
            let r = seq![s[0]] + seq_with_primitive_at(s.drop_first(), id, p);
            assert(r[0] == s[0]);
            assert(r.drop_first() =~= seq_with_primitive_at(s.drop_first(), id, p));
            assert(seq_subtree_ids(r) =~= seq_subtree_ids(s));
        }
    }
}

/// Rewriting the primitive slot of `id`'s node changes exactly that slot
/// and nothing else: read through `find_node(x)` for any identifier `x` in
/// the tree, every node keeps its identity, flags, and transform, the node
/// carrying `id` gets the new primitive, and every other node keeps its
/// own.
pub proof fn lemma_with_primitive_at_exact(
    v: NodeView,
    id: u32,
    p: Option<PrimitiveView>,
    x: u32,
)
    requires
        v.wf(),
        v.contains_id(id),
        v.contains_id(x),
    ensures
        v.with_primitive_at(id, p).find_node(x) is Some,
        v.find_node(x) is Some,
        ({
            let n = v.find_node(x)->Some_0;
            let m = v.with_primitive_at(id, p).find_node(x)->Some_0;
            &&& m.id == n.id
            &&& m.position == n.position
            &&& m.is_self_dirty == n.is_self_dirty
            &&& m.is_child_dirty == n.is_child_dirty
            &&& m.primitive == (if x == id {
                p
            } else {
                n.primitive
            })
        }),
    decreases v,
{
    lemma_find_node_some(v, x);
    lemma_with_primitive_at_preserves(v, id, p);
    lemma_contains_iff_subtree_ids(v, x);
    lemma_contains_iff_subtree_ids(v.with_primitive_at(id, p), x);
    lemma_find_node_some(v.with_primitive_at(id, p), x);
    let w = v.with_primitive_at(id, p);
    if v.id == id {
        if x == id {
        } else {
            assert(w.children == v.children);
            assert(w.find_node(x) == v.find_node(x));
        }
    } else {
        lemma_seq_first_index_containing(v.children, id);
        let k = seq_first_index_containing(v.children, id);
        lemma_seq_with_primitive_at_pointwise(v.children, id, p);
        if x == v.id {
            assert(v.find_node(x) == Some(v));
            assert(w.id == x);
            assert(w.find_node(x) == Some(w));
        } else {
            lemma_seq_first_index_containing(v.children, x);
            let j = seq_first_index_containing(v.children, x);
            lemma_seq_find_node(v.children, x);
            lemma_seq_find_node(w.children, x);
            lemma_with_primitive_at_preserves(v.children[j], id, p);
            lemma_contains_iff_subtree_ids(v.children[j], x);
            lemma_seq_with_primitive_at_preserves(v.children, id, p);
            if j == k {
                lemma_contains_iff_subtree_ids(v.children[k].with_primitive_at(id, p), x);
                lemma_seq_wf_unique_container(w.children, x, k);
                assert(w.children[k] == v.children[k].with_primitive_at(id, p));
                assert(seq_first_index_containing(w.children, x) == k);
                lemma_seq_wf_element(v.children, k);
                lemma_with_primitive_at_exact(v.children[k], id, p, x);
                assert(v.find_node(x) == v.children[k].find_node(x));
                assert(w.find_node(x) == v.children[k].with_primitive_at(id, p).find_node(x));
                if x == id {
                } else {
                }
            } else {
                // `x` sits outside the rewritten subtree: nothing about it
                // changes — and `x` cannot be `id`, whose node is at `k`.
                lemma_contains_iff_subtree_ids(v.children[j], id);
                lemma_contains_iff_subtree_ids(v.children[k], id);
                lemma_seq_wf_unique_container(v.children, id, k);
                lemma_seq_wf_unique_container(w.children, x, j);
                assert(w.children[j] == v.children[j]);
                assert(seq_first_index_containing(w.children, x) == j);
                assert(w.find_node(x) == v.children[j].find_node(x));
                assert(v.find_node(x) == v.children[j].find_node(x));
                assert(x != id) by {
                    if x == id {
                        assert(v.children[j].contains_id(id));
                    }
                }
            }
        }
    }
}

/// Whether some node across the subtrees of `s` carries `p` and has a
/// direct child carrying `c`.
pub open spec fn seq_has_edge(s: Seq<NodeView>, p: u32, c: u32) -> bool
    decreases s,
{
    s.len() > 0 && (s[0].has_edge(p, c) || seq_has_edge(s.drop_first(), p, c))
}

/// Index of the first node in `s` whose subtree contains `id`, or -1 if no
/// subtree does.
pub open spec fn seq_first_index_containing(s: Seq<NodeView>, id: u32) -> int
    decreases s,
{
    if s.len() == 0 {
        -1
    } else if s[0].contains_id(id) {
        0
    } else {
        let rest = seq_first_index_containing(s.drop_first(), id);
        if rest == -1 {
            -1
        } else {
            rest + 1
        }
    }
}

/// What `seq_first_index_containing` finds, and that it decides
/// `seq_contains_id`.
pub proof fn lemma_seq_first_index_containing(s: Seq<NodeView>, id: u32)
    ensures
        seq_first_index_containing(s, id) >= -1,
        seq_contains_id(s, id) == (seq_first_index_containing(s, id) >= 0),
        seq_first_index_containing(s, id) == -1 ==> forall|j: int|
            0 <= j < s.len() ==> !(#[trigger] s[j]).contains_id(id),
        seq_first_index_containing(s, id) >= 0 ==> {
            let i = seq_first_index_containing(s, id);
            &&& i < s.len()
            &&& s[i].contains_id(id)
            &&& forall|j: int| 0 <= j < i ==> !(#[trigger] s[j]).contains_id(id)
        },
    decreases s,
{
    if s.len() > 0 && !s[0].contains_id(id) {
        lemma_seq_first_index_containing(s.drop_first(), id);
        let rest = seq_first_index_containing(s.drop_first(), id);
        if rest >= 0 {
            assert(s[rest + 1] == s.drop_first()[rest]);
            assert forall|j: int| 0 <= j < rest + 1 implies !(#[trigger] s[j]).contains_id(id) by {
                if j > 0 {
                    assert(s[j] == s.drop_first()[j - 1]);
                }
            }
        } else {
            assert forall|j: int| 0 <= j < s.len() implies !(#[trigger] s[j]).contains_id(id) by {
                if j > 0 {
                    assert(s[j] == s.drop_first()[j - 1]);
                }
            }
        }
    }
}

/// What `seq_mark_dirty` does, element by element: the first subtree
/// containing `id` is marked, all others are left alone.
pub proof fn lemma_seq_mark_dirty_pointwise(s: Seq<NodeView>, id: u32)
    ensures
        seq_mark_dirty(s, id).len() == s.len(),
        seq_first_index_containing(s, id) == -1 ==> seq_mark_dirty(s, id) == s,
        forall|j: int|
            0 <= j < s.len() && j != seq_first_index_containing(s, id)
                ==> #[trigger] seq_mark_dirty(s, id)[j] == s[j],
        seq_first_index_containing(s, id) >= 0 ==> seq_mark_dirty(s, id)[seq_first_index_containing(
            s,
            id,
        )] == s[seq_first_index_containing(s, id)].mark_dirty(id),
    decreases s,
{
    lemma_seq_first_index_containing(s, id);
    if s.len() > 0 {
        lemma_seq_mark_dirty_pointwise(s.drop_first(), id);
        if s[0].contains_id(id) {
            assert(seq_mark_dirty(s, id) =~= s.update(0, s[0].mark_dirty(id)));
        } else {
            lemma_seq_first_index_containing(s.drop_first(), id);
            let rest = seq_first_index_containing(s.drop_first(), id);
            assert forall|j: int|
                0 <= j < s.len() && j != seq_first_index_containing(s, id)
                    implies #[trigger] seq_mark_dirty(s, id)[j] == s[j] by {
                if j > 0 {
                    assert(seq_mark_dirty(s, id)[j] == seq_mark_dirty(s.drop_first(), id)[j - 1]);
                    assert(s[j] == s.drop_first()[j - 1]);
                }
            }
            if rest == -1 {
                assert(seq_mark_dirty(s, id) =~= s);
            } else {
                assert(seq_mark_dirty(s, id)[rest + 1] == seq_mark_dirty(s.drop_first(), id)[rest]);
                assert(s[rest + 1] == s.drop_first()[rest]);
            }
        }
    }
}

/// `contains_id` and membership in `subtree_ids` agree.
pub proof fn lemma_contains_iff_subtree_ids(v: NodeView, x: u32)
    ensures
        v.contains_id(x) == v.subtree_ids().contains(x),
    decreases v,
{
    lemma_seq_contains_iff_subtree_ids(v.children, x);
}

/// `seq_contains_id` and membership in `seq_subtree_ids` agree.
pub proof fn lemma_seq_contains_iff_subtree_ids(s: Seq<NodeView>, x: u32)
    ensures
        seq_contains_id(s, x) == seq_subtree_ids(s).contains(x),
    decreases s,
{
    if s.len() > 0 {
        lemma_contains_iff_subtree_ids(s[0], x);
        lemma_seq_contains_iff_subtree_ids(s.drop_first(), x);
    }
}

/// `seq_find_node` looks inside the first subtree that contains the
/// identifier.
pub proof fn lemma_seq_find_node(s: Seq<NodeView>, x: u32)
    ensures
        seq_find_node(s, x) == (if seq_first_index_containing(s, x) >= 0 {
            s[seq_first_index_containing(s, x)].find_node(x)
        } else {
            None
        }),
    decreases s,
{
    lemma_seq_first_index_containing(s, x);
    if s.len() > 0 && !s[0].contains_id(x) {
        lemma_seq_find_node(s.drop_first(), x);
        let rest = seq_first_index_containing(s.drop_first(), x);
        if rest >= 0 {
            lemma_seq_first_index_containing(s.drop_first(), x);
            assert(s[rest + 1] == s.drop_first()[rest]);
        }
    }
}

/// A contained identifier is found, the node found carries it, and the
/// found subtree's identifiers all belong to the searched subtree.
pub proof fn lemma_find_node_some(v: NodeView, x: u32)
    requires
        v.contains_id(x),
    ensures
        v.find_node(x) is Some,
        v.find_node(x)->Some_0.id == x,
        v.find_node(x)->Some_0.subtree_ids().subset_of(v.subtree_ids()),
        forall|y: u32| (#[trigger] v.find_node(x)->Some_0.contains_id(y)) ==> v.contains_id(y),
    decreases v,
{
    lemma_contains_iff_subtree_ids(v, x);
    if v.id == x {
        assert forall|y: u32| (#[trigger] v.find_node(x)->Some_0.contains_id(y))
            implies v.contains_id(y) by {}
    } else {
        lemma_seq_first_index_containing(v.children, x);
        lemma_seq_find_node(v.children, x);
        let k = seq_first_index_containing(v.children, x);
        lemma_find_node_some(v.children[k], x);
        lemma_seq_subtree_ids_element(v.children, k);
        assert forall|y: u32| (#[trigger] v.find_node(x)->Some_0.contains_id(y))
            implies v.contains_id(y) by {
            lemma_find_node_some(v.children[k], x);
            lemma_contains_iff_subtree_ids(v.find_node(x)->Some_0, y);
            lemma_contains_iff_subtree_ids(v, y);
        }
    }
}

/// Each subtree's identifiers are included in the whole sequence's.
pub proof fn lemma_seq_subtree_ids_element(s: Seq<NodeView>, i: int)
    requires
        0 <= i < s.len(),
    ensures
        s[i].subtree_ids().subset_of(seq_subtree_ids(s)),
    decreases s,
{
    if i > 0 {
        lemma_seq_subtree_ids_element(s.drop_first(), i - 1);
        assert(s[i] == s.drop_first()[i - 1]);
    }
}

/// Under disjoint siblings, only the first containing subtree contains the
/// identifier at all.
pub proof fn lemma_seq_wf_unique_container(s: Seq<NodeView>, x: u32, j: int)
    requires
        seq_wf(s),
        0 <= j < s.len(),
        s[j].contains_id(x),
    ensures
        seq_first_index_containing(s, x) == j,
    decreases s,
{
    lemma_seq_first_index_containing(s, x);
    lemma_contains_iff_subtree_ids(s[j], x);
    if j == 0 {
    } else {
        if s[0].contains_id(x) {
            // x would sit in two disjoint sibling subtrees.
            lemma_contains_iff_subtree_ids(s[0], x);
            lemma_seq_subtree_ids_element(s.drop_first(), j - 1);
            assert(s.drop_first()[j - 1] == s[j]);
            assert(seq_subtree_ids(s.drop_first()).contains(x));
            assert(false);
        } else {
            lemma_seq_wf_unique_container(s.drop_first(), x, j - 1);
            assert(s.drop_first()[j - 1] == s[j]);
        }
    }
}

/// Marking an identifier dirty changes no node's identity or shape: the
/// subtree's identifier set, its well-formedness, and its size survive.
pub proof fn lemma_mark_dirty_preserves(v: NodeView, id: u32)
    ensures
        v.mark_dirty(id).id == v.id,
        v.mark_dirty(id).subtree_ids() == v.subtree_ids(),
        v.mark_dirty(id).children.len() == v.children.len(),
        v.wf() ==> v.mark_dirty(id).wf(),
    decreases v,
{
    if v.id == id {
    } else if seq_contains_id(v.children, id) {
        lemma_seq_mark_dirty_preserves(v.children, id);
    }
}

/// Sequence version of [`lemma_mark_dirty_preserves`].
pub proof fn lemma_seq_mark_dirty_preserves(s: Seq<NodeView>, id: u32)
    ensures
        seq_mark_dirty(s, id).len() == s.len(),
        seq_subtree_ids(seq_mark_dirty(s, id)) == seq_subtree_ids(s),
        seq_wf(s) ==> seq_wf(seq_mark_dirty(s, id)),
    decreases s,
{
    if s.len() > 0 {
        if s[0].contains_id(id) {
            lemma_mark_dirty_preserves(s[0], id);
            let r = seq![s[0].mark_dirty(id)] + s.drop_first();
            assert(r[0] == s[0].mark_dirty(id));
            assert(r.drop_first() =~= s.drop_first());
            assert(seq_subtree_ids(r) =~= seq_subtree_ids(s));
        } else {
            lemma_seq_mark_dirty_preserves(s.drop_first(), id);
            let r = seq![s[0]] + seq_mark_dirty(s.drop_first(), id);
            assert(r[0] == s[0]);
            assert(r.drop_first() =~= seq_mark_dirty(s.drop_first(), id));
            assert(seq_subtree_ids(r) =~= seq_subtree_ids(s));
        }
    }
}

/// Marking `id` dirty changes exactly the flags the contract names, and
/// nothing else: on the node carrying `id`, `is_self_dirty` is switched on;
/// on each of its strict ancestors, `is_child_dirty` is switched on; every
/// other node — siblings of ancestors included — keeps its flags, and every
/// node keeps its identity, transform, and primitive.
///
/// The claim is read through `find_node(x)` for an arbitrary identifier `x`
/// in the tree, which names each node exactly once since identifiers are
/// unique.
pub proof fn lemma_mark_dirty_exact(v: NodeView, id: u32, x: u32)
    requires
        v.wf(),
        v.contains_id(id),
        v.contains_id(x),
    ensures
        v.mark_dirty(id).find_node(x) is Some,
        v.find_node(x) is Some,
        ({
            let n = v.find_node(x)->Some_0;
            let m = v.mark_dirty(id).find_node(x)->Some_0;
            &&& m.id == n.id
            &&& m.position == n.position
            &&& m.primitive == n.primitive
            &&& m.is_self_dirty == (n.is_self_dirty || x == id)
            &&& m.is_child_dirty == (n.is_child_dirty || v.is_strict_ancestor_of(x, id))
        }),
    decreases v,
{
    lemma_find_node_some(v, x);
    lemma_mark_dirty_preserves(v, id);
    lemma_contains_iff_subtree_ids(v, x);
    lemma_contains_iff_subtree_ids(v.mark_dirty(id), x);
    lemma_find_node_some(v.mark_dirty(id), x);
    let w = v.mark_dirty(id);
    if v.id == id {
        // Only the root's own flag changes; the children are untouched.
        if x == id {
        } else {
            // find_node descends into the unchanged children on both sides.
            assert(w.children == v.children);
            assert(w.find_node(x) == v.find_node(x));
            let n = v.find_node(x)->Some_0;
            // `n` lives inside a child subtree, and the root's identifier
            // is not there, so `x` is no ancestor of `id`.
            lemma_seq_first_index_containing(v.children, x);
            let j = seq_first_index_containing(v.children, x);
            lemma_seq_find_node(v.children, x);
            lemma_find_node_some(v.children[j], x);
            lemma_seq_subtree_ids_element(v.children, j);
            lemma_contains_iff_subtree_ids(n, id);
            assert(!n.subtree_ids().contains(id));
            assert(!v.is_strict_ancestor_of(x, id));
        }
    } else {
        lemma_seq_first_index_containing(v.children, id);
        let k = seq_first_index_containing(v.children, id);
        lemma_seq_mark_dirty_pointwise(v.children, id);
        if x == v.id {
            // The root is a strict ancestor of `id`, and its child flag is set.
            assert(v.find_node(x) == Some(v));
            assert(w.id == x);
            assert(w.find_node(x) == Some(w));
            assert(v.is_strict_ancestor_of(x, id));
        } else {
            lemma_seq_first_index_containing(v.children, x);
            let j = seq_first_index_containing(v.children, x);
            lemma_seq_find_node(v.children, x);
            lemma_seq_find_node(w.children, x);
            // In the marked tree, `x`'s subtree is still the one at `j`.
            lemma_mark_dirty_preserves(v.children[j], id);
            lemma_contains_iff_subtree_ids(v.children[j], x);
            lemma_seq_mark_dirty_preserves(v.children, id);
            if j == k {
                lemma_contains_iff_subtree_ids(v.children[k].mark_dirty(id), x);
                lemma_seq_wf_unique_container(w.children, x, k);
                assert(w.children[k] == v.children[k].mark_dirty(id));
                assert(seq_first_index_containing(w.children, x) == k);
                lemma_seq_wf_element(v.children, k);
                lemma_mark_dirty_exact(v.children[k], id, x);
                // The ancestor relation restricts to the containing child.
                assert(v.find_node(x) == v.children[k].find_node(x));
                assert(w.find_node(x) == v.children[k].mark_dirty(id).find_node(x));
                lemma_find_node_some(v.children[k], x);
                assert(v.is_strict_ancestor_of(x, id) == v.children[k].is_strict_ancestor_of(
                    x,
                    id,
                ));
            } else {
                // `x` sits outside the marked subtree: nothing about it changes.
                lemma_contains_iff_subtree_ids(v.children[j], id);
                lemma_contains_iff_subtree_ids(v.children[k], id);
                lemma_seq_wf_unique_container(v.children, id, k);
                lemma_seq_wf_unique_container(w.children, x, j);
                assert(w.children[j] == v.children[j]);
                assert(seq_first_index_containing(w.children, x) == j);
                assert(w.find_node(x) == v.children[j].find_node(x));
                assert(v.find_node(x) == v.children[j].find_node(x));
                let n = v.find_node(x)->Some_0;
                // `id` is not in `x`'s sibling subtree, so `x` is no ancestor.
                lemma_find_node_some(v.children[j], x);
                lemma_contains_iff_subtree_ids(n, id);
                lemma_seq_subtree_ids_disjoint(v.children, j, k);
                assert(!n.contains_id(id)) by {
                    if n.contains_id(id) {
                        assert(v.children[j].contains_id(id));
                    }
                }
                assert(!v.is_strict_ancestor_of(x, id));
            }
        }
    }
}

/// Appending a node whose identifier is fresh puts it at the end, where a
/// search by that identifier finds it first.
pub proof fn lemma_seq_first_index_of_id_push(s: Seq<NodeView>, c: NodeView)
    requires
        forall|j: int| 0 <= j < s.len() ==> (#[trigger] s[j]).id != c.id,
    ensures
        seq_first_index_of_id(s.push(c), c.id) == s.len(),
    decreases s,
{
    if s.len() == 0 {
        assert(s.push(c)[0] == c);
    } else {
        assert(s.push(c)[0] == s[0]);
        assert(s.push(c).drop_first() =~= s.drop_first().push(c));
        assert forall|j: int| 0 <= j < s.drop_first().len() implies (#[trigger] s.drop_first()[j]).id
            != c.id by {
            assert(s.drop_first()[j] == s[j + 1]);
        }
        lemma_seq_first_index_of_id_push(s.drop_first(), c);
    }
}

/// Adding a child under a parent and then removing that child's identifier
/// restores the parent's child list exactly; the node that leaves is the
/// node that was added, intact, with its subtree and no parent.
pub proof fn lemma_add_then_remove_child(p: NodeView, c: NodeView)
    requires
        !p.has_child_id(c.id),
    ensures
        ({
            let q = p.with_child(c);
            let i = seq_first_index_of_id(q.children, c.id);
            &&& i == p.children.len()
            &&& q.children[i] == c
            &&& q.without_child_at(i) == p
        }),
{
    lemma_seq_first_index_of_id(p.children, c.id);
    lemma_seq_first_index_of_id_push(p.children, c);
    let q = p.with_child(c);
    let i = seq_first_index_of_id(q.children, c.id);
    assert(q.children[i] == c);
    assert(q.children.remove(i) =~= p.children);
    assert(q.without_child_at(i) == p);
}

/// Each node of a well-formed sequence is well formed.
pub proof fn lemma_seq_wf_element(s: Seq<NodeView>, i: int)
    requires
        seq_wf(s),
        0 <= i < s.len(),
    ensures
        s[i].wf(),
    decreases s,
{
    if i > 0 {
        lemma_seq_wf_element(s.drop_first(), i - 1);
        assert(s.drop_first()[i - 1] == s[i]);
    }
}

/// Distinct siblings have disjoint identifier sets.
pub proof fn lemma_seq_subtree_ids_disjoint(s: Seq<NodeView>, i: int, j: int)
    requires
        seq_wf(s),
        0 <= i < s.len(),
        0 <= j < s.len(),
        i != j,
    ensures
        s[i].subtree_ids().disjoint(s[j].subtree_ids()),
    decreases s,
{
    if i > 0 && j > 0 {
        lemma_seq_subtree_ids_disjoint(s.drop_first(), i - 1, j - 1);
        assert(s.drop_first()[i - 1] == s[i]);
        assert(s.drop_first()[j - 1] == s[j]);
    } else if i == 0 {
        lemma_seq_subtree_ids_element(s.drop_first(), j - 1);
        assert(s.drop_first()[j - 1] == s[j]);
    } else {
        lemma_seq_subtree_ids_element(s.drop_first(), i - 1);
        assert(s.drop_first()[i - 1] == s[i]);
    }
}

/// `seq_size` adds up over concatenation.
pub proof fn lemma_seq_size_concat(a: Seq<NodeView>, b: Seq<NodeView>)
    ensures
        seq_size(a + b) == seq_size(a) + seq_size(b),
    decreases a.len(),
{
    if a.len() == 0 {
        assert(a + b =~= b);
    } else {
        assert((a + b)[0] == a[0]);
        assert((a + b).drop_first() =~= a.drop_first() + b);
        lemma_seq_size_concat(a.drop_first(), b);
    }
}

/// An identifier is contained in a concatenation exactly when it is
/// contained in one of the halves.
pub proof fn lemma_seq_contains_id_concat(a: Seq<NodeView>, b: Seq<NodeView>, x: u32)
    ensures
        seq_contains_id(a + b, x) == (seq_contains_id(a, x) || seq_contains_id(b, x)),
    decreases a.len(),
{
    if a.len() == 0 {
        assert(a + b =~= b);
    } else {
        assert((a + b)[0] == a[0]);
        assert((a + b).drop_first() =~= a.drop_first() + b);
        lemma_seq_contains_id_concat(a.drop_first(), b, x);
    }
}

/// An edge lives in a concatenation exactly when it lives in one of the
/// halves.
pub proof fn lemma_seq_has_edge_concat(a: Seq<NodeView>, b: Seq<NodeView>, p: u32, c: u32)
    ensures
        seq_has_edge(a + b, p, c) == (seq_has_edge(a, p, c) || seq_has_edge(b, p, c)),
    decreases a.len(),
{
    if a.len() == 0 {
        assert(a + b =~= b);
    } else {
        assert((a + b)[0] == a[0]);
        assert((a + b).drop_first() =~= a.drop_first() + b);
        lemma_seq_has_edge_concat(a.drop_first(), b, p, c);
    }
}

/// `seq_contains_id` holds exactly when some member subtree contains the
/// identifier.
pub proof fn lemma_seq_contains_id_exists(s: Seq<NodeView>, x: u32)
    ensures
        seq_contains_id(s, x) == exists|k: int|
            0 <= k < s.len() && (#[trigger] s[k]).contains_id(x),
    decreases s,
{
    if s.len() > 0 {
        lemma_seq_contains_id_exists(s.drop_first(), x);
        if s[0].contains_id(x) {
        } else if seq_contains_id(s.drop_first(), x) {
            let k = choose|k: int|
                0 <= k < s.drop_first().len() && (#[trigger] s.drop_first()[k]).contains_id(x);
            assert(s[k + 1] == s.drop_first()[k]);
            assert(s[k + 1].contains_id(x));
        } else {
            assert forall|k: int| 0 <= k < s.len() implies !(#[trigger] s[k]).contains_id(x) by {
                if k > 0 {
                    assert(s[k] == s.drop_first()[k - 1]);
                }
            }
        }
    }
}

/// `seq_wf` is exactly: every member is well formed, and distinct members
/// have disjoint identifier sets.
pub proof fn lemma_seq_wf_characterize(s: Seq<NodeView>)
    ensures
        seq_wf(s) == ((forall|i: int| 0 <= i < s.len() ==> (#[trigger] s[i]).wf()) && (forall|
            i: int,
            j: int,
        |
            0 <= i < s.len() && 0 <= j < s.len() && i != j ==> (#[trigger] s[i]).subtree_ids().disjoint(
                #[trigger] s[j].subtree_ids(),
            ))),
    decreases s,
{
    if s.len() == 0 {
    } else if seq_wf(s) {
        assert forall|i: int| 0 <= i < s.len() implies (#[trigger] s[i]).wf() by {
            lemma_seq_wf_element(s, i);
        }
        assert forall|i: int, j: int|
            0 <= i < s.len() && 0 <= j < s.len() && i != j implies (#[trigger] s[i]).subtree_ids().disjoint(
            #[trigger] s[j].subtree_ids(),
        ) by {
            lemma_seq_subtree_ids_disjoint(s, i, j);
        }
    } else {
        lemma_seq_wf_characterize(s.drop_first());
        // Push the element-wise facts down to the tail and rebuild.
        if (forall|i: int| 0 <= i < s.len() ==> (#[trigger] s[i]).wf()) && (forall|i: int, j: int|
            0 <= i < s.len() && 0 <= j < s.len() && i != j ==> (#[trigger] s[i]).subtree_ids().disjoint(
                #[trigger] s[j].subtree_ids(),
            )) {
            assert forall|i: int| 0 <= i < s.drop_first().len() implies (#[trigger] s.drop_first()[
                i
            ]).wf() by {
                assert(s.drop_first()[i] == s[i + 1]);
            }
            assert forall|i: int, j: int|
                0 <= i < s.drop_first().len() && 0 <= j < s.drop_first().len() && i != j implies (
            #[trigger] s.drop_first()[i]).subtree_ids().disjoint(
                #[trigger] s.drop_first()[j].subtree_ids(),
            ) by {
                assert(s.drop_first()[i] == s[i + 1]);
                assert(s.drop_first()[j] == s[j + 1]);
            }
            assert(seq_wf(s.drop_first()));
            assert(s[0].subtree_ids().disjoint(seq_subtree_ids(s.drop_first()))) by {
                assert forall|x: u32| s[0].subtree_ids().contains(x) implies !seq_subtree_ids(
                    s.drop_first(),
                ).contains(x) by {
                    lemma_seq_contains_iff_subtree_ids(s.drop_first(), x);
                    lemma_seq_contains_id_exists(s.drop_first(), x);
                    if seq_subtree_ids(s.drop_first()).contains(x) {
                        let k = choose|k: int|
                            0 <= k < s.drop_first().len() && (#[trigger] s.drop_first()[
                                k
                            ]).contains_id(x);
                        assert(s.drop_first()[k] == s[k + 1]);
                        lemma_contains_iff_subtree_ids(s[k + 1], x);
                        assert(s[0].subtree_ids().disjoint(s[k + 1].subtree_ids()));
                    }
                }
                assert(s[0].subtree_ids().disjoint(seq_subtree_ids(s.drop_first())));
            }
            assert(seq_wf(s));
        }
    }
}

/// Each subtree in `s` counts toward the total size.
pub proof fn lemma_seq_size_element(s: Seq<NodeView>, i: int)
    requires
        0 <= i < s.len(),
    ensures
        s[i].size() <= seq_size(s),
    decreases s,
{
    if i > 0 {
        lemma_seq_size_element(s.drop_first(), i - 1);
        assert(s[i] == s.drop_first()[i - 1]);
    }
}

/// Index of the first node in `s` whose own identifier is `id`, or -1 if
/// there is none.
pub open spec fn seq_first_index_of_id(s: Seq<NodeView>, id: u32) -> int
    decreases s,
{
    if s.len() == 0 {
        -1
    } else if s[0].id == id {
        0
    } else {
        let rest = seq_first_index_of_id(s.drop_first(), id);
        if rest == -1 {
            -1
        } else {
            rest + 1
        }
    }
}

/// What `seq_first_index_of_id` finds: the first matching position, or a
/// guarantee that no position matches.
pub proof fn lemma_seq_first_index_of_id(s: Seq<NodeView>, id: u32)
    ensures
        seq_first_index_of_id(s, id) >= -1,
        seq_first_index_of_id(s, id) == -1 ==> forall|j: int|
            0 <= j < s.len() ==> s[j].id != id,
        seq_first_index_of_id(s, id) >= 0 ==> {
            let i = seq_first_index_of_id(s, id);
            &&& i < s.len()
            &&& s[i].id == id
            &&& forall|j: int| 0 <= j < i ==> s[j].id != id
        },
    decreases s,
{
    if s.len() > 0 && s[0].id != id {
        lemma_seq_first_index_of_id(s.drop_first(), id);
        let rest = seq_first_index_of_id(s.drop_first(), id);
        if rest >= 0 {
            assert(s[rest + 1] == s.drop_first()[rest]);
            assert forall|j: int| 0 <= j < rest + 1 implies s[j].id != id by {
                if j > 0 {
                    assert(s[j] == s.drop_first()[j - 1]);
                }
            }
        } else {
            assert forall|j: int| 0 <= j < s.len() implies s[j].id != id by {
                if j > 0 {
                    assert(s[j] == s.drop_first()[j - 1]);
                }
            }
        }
    }
}

impl Node {
    /// Whether a direct child carries `child_id`.
    pub fn has_child(&self, child_id: u32) -> (r: bool)
        ensures
            r == self@.has_child_id(child_id),
    {
        proof {
            lemma_nodes_view(self.children@);
            lemma_seq_first_index_of_id(self@.children, child_id);
        }
        let mut i: usize = 0;
        while i < self.children.len()
            invariant
                i <= self.children.len(),
                self@.children == nodes_view(self.children@),
                self@.children.len() == self.children.len(),
                forall|j: int| 0 <= j < self@.children.len() ==> #[trigger] self@.children[j]
                    == node_view(self.children@[j]),
                forall|j: int| 0 <= j < i ==> self@.children[j].id != child_id,
                seq_first_index_of_id(self@.children, child_id) >= -1,
                seq_first_index_of_id(self@.children, child_id) == -1 ==> forall|j: int|
                    0 <= j < self@.children.len() ==> self@.children[j].id != child_id,
                seq_first_index_of_id(self@.children, child_id) >= 0 ==> {
                    let k = seq_first_index_of_id(self@.children, child_id);
                    &&& k < self@.children.len()
                    &&& self@.children[k].id == child_id
                },
            decreases self.children.len() - i,
        {
            if self.children[i].id == child_id {
                proof {
                    assert(self@.children[i as int] == node_view(self.children@[i as int]));
                    assert(self@.children[i as int].id == child_id);
                }
                return true;
            }
            i = i + 1;
        }
        false
    }

    /// Adds `child` as the last child of this node.
    ///
    /// Fails — returning `false` and changing nothing — when a direct child
    /// already carries `child.id`. A child cannot end up under two parents,
    /// or twice under one: it is moved into the tree, so no other copy of
    /// it exists to add again.
    pub fn add_child(&mut self, child: Node) -> (added: bool)
        ensures
            added == !old(self)@.has_child_id(child@.id),
            added ==> final(self)@ == old(self)@.with_child(child@),
            !added ==> final(self)@ == old(self)@,
    {
        if self.has_child(child.id) {
            return false;
        }
        let ghost old_children = self.children@;
        let ghost old_view = self@;
        let ghost child_view = child@;
        self.children.push(child);
        proof {
            lemma_nodes_view(old_children);
            lemma_nodes_view(self.children@);
            assert(self@.children =~= old_view.children.push(child_view));
            assert(self@ == old_view.with_child(child_view));
        }
        true
    }

    /// Detaches and returns the direct child carrying `child_id`, or returns
    /// `None` and changes nothing. Removal is shallow: deeper descendants
    /// are not searched. The returned node leaves with its whole subtree and
    /// no parent.
    pub fn take_child(&mut self, child_id: u32) -> (taken: Option<Node>)
        ensures
            ({
                let i = seq_first_index_of_id(old(self)@.children, child_id);
                &&& i == -1 ==> taken is None && *final(self) == *old(self)
                &&& i >= 0 ==> {
                    &&& taken matches Some(c) && c@ == old(self)@.children[i]
                    &&& final(self)@ == old(self)@.without_child_at(i)
                }
            }),
    {
        proof {
            lemma_nodes_view(self.children@);
            lemma_seq_first_index_of_id(self@.children, child_id);
        }
        let ghost old_view = self@;
        let mut i: usize = 0;
        while i < self.children.len()
            invariant
                i <= self.children.len(),
                *self == *old(self),
                old_view == self@,
                old_view.children.len() == self.children.len(),
                forall|j: int| 0 <= j < old_view.children.len() ==> #[trigger] old_view.children[j]
                    == node_view(self.children@[j]),
                forall|j: int| 0 <= j < i ==> old_view.children[j].id != child_id,
                seq_first_index_of_id(old_view.children, child_id) >= -1,
                seq_first_index_of_id(old_view.children, child_id) == -1 ==> forall|j: int|
                    0 <= j < old_view.children.len() ==> old_view.children[j].id != child_id,
                seq_first_index_of_id(old_view.children, child_id) >= 0 ==> {
                    let k = seq_first_index_of_id(old_view.children, child_id);
                    &&& k < old_view.children.len()
                    &&& old_view.children[k].id == child_id
                    &&& forall|j: int| 0 <= j < k ==> old_view.children[j].id != child_id
                },
            decreases self.children.len() - i,
        {
            if self.children[i].id == child_id {
                proof {
                    assert(old_view.children[i as int] == node_view(self.children@[i as int]));
                    assert(old_view.children[i as int].id == child_id);
                    assert(seq_first_index_of_id(old_view.children, child_id) == i);
                }
                let ghost old_children = self.children@;
                let c = self.children.remove(i);
                proof {
                    lemma_nodes_view(old_children);
                    lemma_nodes_view(self.children@);
                    assert(self@.children =~= old_view.children.remove(i as int));
                    assert(self@ == old_view.without_child_at(i as int));
                }
                return Some(c);
            }
            i = i + 1;
        }
        None
    }

    /// Marks the node carrying `id` as dirty and flags the path to it:
    /// `is_self_dirty` is set on that node alone, and `is_child_dirty` on
    /// every strict ancestor of it within this subtree. Returns whether the
    /// subtree contains `id`; when it does not, nothing changes.
    pub fn mark_dirty(&mut self, id: u32) -> (found: bool)
        ensures
            found == old(self)@.contains_id(id),
            final(self)@ == old(self)@.mark_dirty(id),
        decreases old(self)@.size(),
    {
        let ghost old_view = self@;
        if self.id == id {
            self.is_self_dirty = true;
            proof {
                assert(self@ == old_view.mark_dirty(id));
            }
            return true;
        }
        proof {
            lemma_nodes_view(self.children@);
            lemma_seq_first_index_containing(old_view.children, id);
        }
        let mut i: usize = 0;
        while i < self.children.len()
            invariant
                i <= self.children.len(),
                old_view == old(self)@,
                self.id == old_view.id,
                id != old_view.id,
                self.is_self_dirty == old_view.is_self_dirty,
                self.is_child_dirty == old_view.is_child_dirty,
                self.position == old_view.position,
                self@.primitive == old_view.primitive,
                self.children.len() == old_view.children.len(),
                self@.children =~= old_view.children,
                old_view.size() == 1 + seq_size(old_view.children),
                forall|j: int| 0 <= j < i ==> !(#[trigger] old_view.children[j]).contains_id(id),
                seq_first_index_containing(old_view.children, id) >= -1,
                seq_contains_id(old_view.children, id) == (seq_first_index_containing(
                    old_view.children,
                    id,
                ) >= 0),
                seq_first_index_containing(old_view.children, id) == -1 ==> forall|j: int|
                    0 <= j < old_view.children.len() ==> !(#[trigger] old_view.children[j]).contains_id(
                        id,
                    ),
                seq_first_index_containing(old_view.children, id) >= 0 ==> {
                    let k = seq_first_index_containing(old_view.children, id);
                    &&& k < old_view.children.len()
                    &&& old_view.children[k].contains_id(id)
                },
            decreases self.children.len() - i,
        {
            let ghost pre_children = self.children@;
            proof {
                lemma_nodes_view(pre_children);
                lemma_seq_size_element(old_view.children, i as int);
            }
            let mut c = self.children.remove(i);
            proof {
                assert(c@ == old_view.children[i as int]);
                assert(c@.size() < old(self)@.size());
            }
            let found = c.mark_dirty(id);
            let ghost c_after = c@;
            let ghost mid_children = self.children@;
            self.children.insert(i, c);
            proof {
                lemma_nodes_view(mid_children);
                lemma_nodes_view(self.children@);
                assert(self@.children =~= old_view.children.update(i as int, c_after));
            }
            if found {
                self.is_child_dirty = true;
                proof {
                    assert(old_view.children[i as int].contains_id(id));
                    assert(seq_first_index_containing(old_view.children, id) == i) by {
                        lemma_seq_first_index_containing(old_view.children, id);
                    }
                    assert(seq_contains_id(old_view.children, id));
                    lemma_seq_mark_dirty_pointwise(old_view.children, id);
                    assert(self@.children =~= seq_mark_dirty(old_view.children, id));
                    assert(self@ == old_view.mark_dirty(id));
                }
                return true;
            }
            proof {
                assert(c_after == old_view.children[i as int].mark_dirty(id));
                assert(c_after == old_view.children[i as int]);
                assert(self@.children =~= old_view.children);
            }
            i = i + 1;
        }
        proof {
            assert(seq_first_index_containing(old_view.children, id) == -1);
            assert(!seq_contains_id(old_view.children, id));
            assert(self@ == old_view);
            assert(old_view.mark_dirty(id) == old_view);
        }
        false
    }

    /// Inserts `child` as the last child of the node carrying `parent_id`,
    /// searching this whole subtree (the first carrier, in depth-first
    /// child order). Returns whether the child was added — the carrier
    /// refuses it when a direct child of its already has `child.id` — and,
    /// when no node carries `parent_id`, hands the untouched child back.
    pub fn insert_under(&mut self, parent_id: u32, child: Node) -> (r: (bool, Option<Node>))
        ensures
            final(self)@ == old(self)@.insert_under(parent_id, child@),
            r.0 == old(self)@.insert_accepted(parent_id, child@.id),
            (r.1 is Some) == !old(self)@.contains_id(parent_id),
            r.1 matches Some(ch) ==> ch == child,
        decreases old(self)@.size(),
    {
        let ghost old_view = self@;
        let ghost cv = child@;
        if self.id == parent_id {
            let added = self.add_child(child);
            proof {
                assert(self@ == old_view.insert_under(parent_id, cv));
            }
            return (added, None);
        }
        proof {
            lemma_nodes_view(self.children@);
            lemma_seq_first_index_containing(old_view.children, parent_id);
        }
        let ghost child0 = child;
        let mut pending = child;
        let mut i: usize = 0;
        while i < self.children.len()
            invariant
                i <= self.children.len(),
                old_view == old(self)@,
                child0 == child,
                cv == child0@,
                pending == child0,
                old_view.id != parent_id,
                self.id == old_view.id,
                self.is_self_dirty == old_view.is_self_dirty,
                self.is_child_dirty == old_view.is_child_dirty,
                self.position == old_view.position,
                self@.primitive == old_view.primitive,
                self.children.len() == old_view.children.len(),
                self@.children =~= old_view.children,
                old_view.size() == 1 + seq_size(old_view.children),
                forall|j: int| 0 <= j < i ==> !(#[trigger] old_view.children[j]).contains_id(
                    parent_id,
                ),
                seq_first_index_containing(old_view.children, parent_id) >= -1,
                seq_contains_id(old_view.children, parent_id) == (seq_first_index_containing(
                    old_view.children,
                    parent_id,
                ) >= 0),
                seq_first_index_containing(old_view.children, parent_id) == -1 ==> forall|j: int|
                    0 <= j < old_view.children.len() ==> !(#[trigger] old_view.children[j]).contains_id(
                        parent_id,
                    ),
                seq_first_index_containing(old_view.children, parent_id) >= 0 ==> {
                    let k = seq_first_index_containing(old_view.children, parent_id);
                    &&& k < old_view.children.len()
                    &&& old_view.children[k].contains_id(parent_id)
                },
            decreases self.children.len() - i,
        {
            let ghost pre_children = self.children@;
            proof {
                lemma_nodes_view(pre_children);
                lemma_seq_size_element(old_view.children, i as int);
            }
            let mut c = self.children.remove(i);
            proof {
                assert(c@ == old_view.children[i as int]);
                assert(c@.size() < old(self)@.size());
            }
            let (added, back) = c.insert_under(parent_id, pending);
            let ghost c_after = c@;
            let ghost mid_children = self.children@;
            self.children.insert(i, c);
            proof {
                lemma_nodes_view(mid_children);
                lemma_nodes_view(self.children@);
                assert(self@.children =~= old_view.children.update(i as int, c_after));
            }
            match back {
                None => {
                    proof {
                        assert(old_view.children[i as int].contains_id(parent_id));
                        assert(seq_first_index_containing(old_view.children, parent_id) == i) by {
                            lemma_seq_first_index_containing(old_view.children, parent_id);
                        }
                        assert(seq_contains_id(old_view.children, parent_id));
                        assert(c_after == old_view.children[i as int].insert_under(parent_id, cv));
                        assert(self@ == old_view.insert_under(parent_id, cv));
                        lemma_seq_find_node(old_view.children, parent_id);
                        assert(old_view.find_node(parent_id) == old_view.children[
                            i as int
                        ].find_node(parent_id));
                    }
                    return (added, None);
                },
                Some(ch) => {
                    proof {
                        assert(!old_view.children[i as int].contains_id(parent_id));
                        assert(c_after == old_view.children[i as int]);
                        assert(self@.children =~= old_view.children);
                    }
                    pending = ch;
                    i = i + 1;
                },
            }
        }
        proof {
            assert(seq_first_index_containing(old_view.children, parent_id) == -1);
            assert(!seq_contains_id(old_view.children, parent_id));
            assert(self@ == old_view);
            assert(old_view.insert_under(parent_id, cv) == old_view);
        }
        (false, Some(pending))
    }

    /// Removes the direct child carrying `child_id`, dropping its subtree.
    /// Returns whether a child was removed; deeper descendants are not
    /// searched.
    pub fn remove_child(&mut self, child_id: u32) -> (removed: bool)
        ensures
            removed == old(self)@.has_child_id(child_id),
            ({
                let i = seq_first_index_of_id(old(self)@.children, child_id);
                &&& !removed ==> *final(self) == *old(self)
                &&& removed ==> final(self)@ == old(self)@.without_child_at(i)
            }),
    {
        proof {
            lemma_seq_first_index_of_id(self@.children, child_id);
        }
        match self.take_child(child_id) {
            Some(_) => true,
            None => false,
        }
    }
}

} // verus!
