//! The object tree: one root group owning every attached node.

use vstd::prelude::*;
use crate::math::Mat4;
use crate::object::{
    lemma_contains_iff_subtree_ids, lemma_nodes_view, lemma_seq_contains_id_concat,
    lemma_seq_contains_id_exists, lemma_seq_contains_iff_subtree_ids, lemma_seq_has_edge_concat,
    lemma_seq_first_index_of_id, lemma_seq_size_concat, lemma_seq_subtree_ids_element,
    lemma_seq_wf_characterize, node_view, seq_contains_id, seq_first_index_of_id, seq_has_edge,
    seq_size, seq_subtree_ids, seq_wf, IdAllocator, Node, NodeView,
};
use crate::objects::Group;

verus! {

/// The identifiers of a breadth-first walk over a queue of subtrees: the
/// head's identifier first, then the walk of the rest of the queue with
/// the head's children appended to its tail.
pub open spec fn bfs_order(q: Seq<NodeView>) -> Seq<u32>
    decreases seq_size(q),
    via bfs_order_decreases
{
    if q.len() == 0 {
        Seq::empty()
    } else {
        seq![q[0].id] + bfs_order(q.drop_first() + q[0].children)
    }
}

#[via_fn]
proof fn bfs_order_decreases(q: Seq<NodeView>) {
    if q.len() > 0 {
        lemma_seq_size_concat(q.drop_first(), q[0].children);
        assert(seq_size(q) == q[0].size() + seq_size(q.drop_first()));
        assert(q[0].size() == 1 + seq_size(q[0].children));
    }
}

/// A breadth-first walk emits exactly one identifier per node.
pub proof fn lemma_bfs_len(q: Seq<NodeView>)
    ensures
        bfs_order(q).len() == seq_size(q),
    decreases seq_size(q),
{
    if q.len() > 0 {
        lemma_seq_size_concat(q.drop_first(), q[0].children);
        assert(seq_size(q) == q[0].size() + seq_size(q.drop_first()));
        assert(q[0].size() == 1 + seq_size(q[0].children));
        lemma_bfs_len(q.drop_first() + q[0].children);
    }
}

/// A breadth-first walk emits an identifier exactly when some queued
/// subtree contains it.
pub proof fn lemma_bfs_membership(q: Seq<NodeView>, x: u32)
    ensures
        bfs_order(q).contains(x) == seq_contains_id(q, x),
    decreases seq_size(q),
{
    if q.len() > 0 {
        let rest = q.drop_first() + q[0].children;
        lemma_seq_size_concat(q.drop_first(), q[0].children);
        assert(seq_size(q) == q[0].size() + seq_size(q.drop_first()));
        assert(q[0].size() == 1 + seq_size(q[0].children));
        lemma_bfs_membership(rest, x);
        lemma_seq_contains_id_concat(q.drop_first(), q[0].children, x);
        let o = bfs_order(q);
        assert(o[0] == q[0].id);
        if seq_contains_id(q, x) {
            assert(q[0].contains_id(x) || seq_contains_id(q.drop_first(), x));
            assert(q[0].id == x || seq_contains_id(q[0].children, x) || seq_contains_id(
                q.drop_first(),
                x,
            ));
            if q[0].id == x {
                assert(o.contains(x)) by {
                    assert(o[0] == x);
                }
            } else {
                assert(seq_contains_id(rest, x));
                assert(bfs_order(rest).contains(x));
                let j = choose|j: int| 0 <= j < bfs_order(rest).len() && bfs_order(rest)[j] == x;
                assert(o.contains(x)) by {
                    assert(o[j + 1] == x);
                }
            }
        } else {
            if o.contains(x) {
                let j = choose|j: int| 0 <= j < o.len() && o[j] == x;
                if j == 0 {
                    assert(x == q[0].id);
                    assert(q[0].contains_id(x));
                    assert(seq_contains_id(q, x));
                } else {
                    assert(bfs_order(rest)[j - 1] == x);
                    assert(bfs_order(rest).contains(x));
                    assert(seq_contains_id(rest, x));
                    assert(q[0].contains_id(x) || seq_contains_id(q.drop_first(), x));
                    assert(seq_contains_id(q, x));
                }
                assert(false);
            }
        }
    }
}

/// Taking the head off the queue and appending its children keeps the
/// queue well formed: every member well formed, members pairwise disjoint.
pub proof fn lemma_seq_wf_step(q: Seq<NodeView>)
    requires
        seq_wf(q),
        q.len() > 0,
    ensures
        seq_wf(q.drop_first() + q[0].children),
{
    let rest = q.drop_first() + q[0].children;
    lemma_seq_wf_characterize(q);
    lemma_seq_wf_characterize(q[0].children);
    assert(q[0].wf());
    lemma_seq_wf_characterize(rest);
    let d = q.drop_first().len() as int;
    assert forall|i: int| 0 <= i < rest.len() implies (#[trigger] rest[i]).wf() by {
        if i < d {
            assert(rest[i] == q[i + 1]);
        } else {
            assert(rest[i] == q[0].children[i - d]);
        }
    }
    assert forall|i: int, j: int|
        0 <= i < rest.len() && 0 <= j < rest.len() && i != j implies (#[trigger] rest[i]).subtree_ids().disjoint(
        #[trigger] rest[j].subtree_ids(),
    ) by {
        if i < d && j < d {
            assert(rest[i] == q[i + 1]);
            assert(rest[j] == q[j + 1]);
        } else if i >= d && j >= d {
            assert(rest[i] == q[0].children[i - d]);
            assert(rest[j] == q[0].children[j - d]);
        } else {
            let (qi, ci) = if i < d {
                (i, j)
            } else {
                (j, i)
            };
            // One side sits in the old tail, the other inside the head's
            // children; the head's whole subtree is disjoint from the tail.
            assert(rest[qi] == q[qi + 1]);
            assert(rest[ci] == q[0].children[ci - d]);
            lemma_seq_subtree_ids_element(q[0].children, ci - d);
            assert(q[0].subtree_ids().disjoint(q[qi + 1].subtree_ids()));
            assert(seq_subtree_ids(q[0].children).subset_of(q[0].subtree_ids()));
            assert forall|x: u32|
                rest[ci].subtree_ids().contains(x) implies !rest[qi].subtree_ids().contains(
                x,
            ) by {
                assert(q[0].subtree_ids().contains(x));
            }
            assert(rest[i].subtree_ids().disjoint(rest[j].subtree_ids()));
        }
    }
}

/// Over a well-formed queue the walk never emits an identifier twice.
pub proof fn lemma_bfs_distinct(q: Seq<NodeView>)
    requires
        seq_wf(q),
    ensures
        forall|i: int, j: int|
            0 <= i < j < bfs_order(q).len() ==> bfs_order(q)[i] != bfs_order(q)[j],
    decreases seq_size(q),
{
    if q.len() > 0 {
        let rest = q.drop_first() + q[0].children;
        let o = bfs_order(q);
        lemma_seq_size_concat(q.drop_first(), q[0].children);
        assert(seq_size(q) == q[0].size() + seq_size(q.drop_first()));
        assert(q[0].size() == 1 + seq_size(q[0].children));
        lemma_seq_wf_step(q);
        lemma_seq_wf_characterize(q);
        assert(q[0].wf());
        assert(!seq_subtree_ids(q[0].children).contains(q[0].id));
        lemma_bfs_distinct(rest);
        lemma_bfs_membership(rest, q[0].id);
        lemma_seq_contains_id_concat(q.drop_first(), q[0].children, q[0].id);
        // The head's identifier does not recur: not in its own children's
        // subtrees (well-formedness), not in the tail (disjointness).
        assert(!seq_contains_id(q[0].children, q[0].id)) by {
            lemma_seq_contains_iff_subtree_ids(q[0].children, q[0].id);
        }
        assert(!seq_contains_id(q.drop_first(), q[0].id)) by {
            lemma_seq_contains_iff_subtree_ids(q.drop_first(), q[0].id);
            lemma_seq_wf_characterize(q);
            lemma_seq_contains_id_exists(q.drop_first(), q[0].id);
            if seq_subtree_ids(q.drop_first()).contains(q[0].id) {
                let k = choose|k: int|
                    0 <= k < q.drop_first().len() && (#[trigger] q.drop_first()[k]).contains_id(
                        q[0].id,
                    );
                assert(q.drop_first()[k] == q[k + 1]);
                lemma_contains_iff_subtree_ids(q[k + 1], q[0].id);
                assert(q[0].subtree_ids().disjoint(q[k + 1].subtree_ids()));
                assert(q[0].subtree_ids().contains(q[0].id));
                assert(false);
            }
        }
        assert(!bfs_order(rest).contains(q[0].id));
        assert forall|i: int, j: int| 0 <= i < j < o.len() implies o[i] != o[j] by {
            if i == 0 {
                assert(o[j] == bfs_order(rest)[j - 1]);
                if o[j] == q[0].id {
                    assert(bfs_order(rest).contains(q[0].id));
                }
            } else {
                assert(o[i] == bfs_order(rest)[i - 1]);
                assert(o[j] == bfs_order(rest)[j - 1]);
            }
        }
    }
}

/// Whenever the queue holds an edge from `p` to `c`, the walk emits `p`
/// before `c`.
pub proof fn lemma_bfs_parent_first(q: Seq<NodeView>, p: u32, c: u32)
    requires
        seq_has_edge(q, p, c),
    ensures
        exists|i: int, j: int|
            0 <= i < j < bfs_order(q).len() && bfs_order(q)[i] == p && bfs_order(q)[j] == c,
    decreases seq_size(q),
{
    let rest = q.drop_first() + q[0].children;
    let o = bfs_order(q);
    lemma_seq_size_concat(q.drop_first(), q[0].children);
    assert(seq_size(q) == q[0].size() + seq_size(q.drop_first()));
    assert(q[0].size() == 1 + seq_size(q[0].children));
    lemma_bfs_len(q);
    if q[0].id == p && q[0].has_child_id(c) {
        // The head is the parent: it is emitted at position 0, and the
        // child, sitting in the new queue, is emitted somewhere after.
        lemma_seq_first_index_of_id(q[0].children, c);
        let m = seq_first_index_of_id(q[0].children, c);
        assert(q[0].children[m].contains_id(c));
        lemma_seq_contains_id_exists(q[0].children, c);
        lemma_seq_contains_id_concat(q.drop_first(), q[0].children, c);
        lemma_bfs_membership(rest, c);
        assert(bfs_order(rest).contains(c));
        let j = choose|j: int| 0 <= j < bfs_order(rest).len() && bfs_order(rest)[j] == c;
        assert(o[0] == p);
        assert(o[j + 1] == c);
        assert(0 < j + 1 < o.len());
    } else {
        // The edge lives deeper: inside the head's children or further
        // down the queue — either way, inside the new queue.
        assert(q[0].has_edge(p, c) || seq_has_edge(q.drop_first(), p, c));
        assert(seq_has_edge(q[0].children, p, c) || seq_has_edge(q.drop_first(), p, c));
        lemma_seq_has_edge_concat(q.drop_first(), q[0].children, p, c);
        assert(seq_has_edge(rest, p, c));
        lemma_bfs_parent_first(rest, p, c);
        let (i, j) = choose|i: int, j: int|
            0 <= i < j < bfs_order(rest).len() && bfs_order(rest)[i] == p && bfs_order(rest)[j]
                == c;
        assert(o[i + 1] == p);
        assert(o[j + 1] == c);
    }
}

/// The ghost views of a sequence of node references.
pub open spec fn refs_view(s: Seq<&Node>) -> Seq<NodeView> {
    Seq::new(s.len(), |i: int| s[i]@)
}

/// A restartable breadth-first enumeration of a tree's node identifiers.
/// Each call of [`ObjectTree::into_iter`] builds a fresh one from scratch.
pub struct TreeIterator {
    ids: Vec<u32>,
    pos: usize,
}

impl TreeIterator {
    /// The complete traversal order this iterator walks.
    pub closed spec fn order(&self) -> Seq<u32> {
        self.ids@
    }

    /// How many identifiers have been handed out already.
    pub closed spec fn position(&self) -> int {
        self.pos as int
    }

    /// The next identifier in breadth-first order, or `None` once the
    /// traversal is exhausted.
    pub fn next(&mut self) -> (r: Option<u32>)
        ensures
            old(self).position() < old(self).order().len() ==> {
                &&& r == Some(old(self).order()[old(self).position()])
                &&& final(self).position() == old(self).position() + 1
                &&& final(self).order() == old(self).order()
            },
            old(self).position() >= old(self).order().len() ==> r is None && *final(self) == *old(
                self,
            ),
    {
        if self.pos < self.ids.len() {
            let id = self.ids[self.pos];
            self.pos = self.pos + 1;
            Some(id)
        } else {
            None
        }
    }
}

impl ObjectTree {
    /// Enumerates the whole tree breadth first: the root first, then each
    /// visited node's children in insertion order. The iterator is built
    /// from scratch on every call.
    pub fn into_iter(&self) -> (it: TreeIterator)
        ensures
            it.order() == bfs_order(seq![self.root@]),
            it.position() == 0,
    {
        let mut ids: Vec<u32> = Vec::new();
        let mut queue: Vec<&Node> = Vec::new();
        queue.push(&self.root);
        let mut head: usize = 0;
        proof {
            assert(refs_view(queue@).subrange(0, queue@.len() as int) =~= seq![self.root@]);
        }
        while head < queue.len()
            invariant
                head <= queue.len(),
                bfs_order(seq![self.root@]) == ids@ + bfs_order(
                    refs_view(queue@).subrange(head as int, queue@.len() as int),
                ),
            decreases seq_size(refs_view(queue@).subrange(head as int, queue@.len() as int)),
        {
            let cur: &Node = queue[head];
            let ghost rem = refs_view(queue@).subrange(head as int, queue@.len() as int);
            let ghost pre_ids = ids@;
            proof {
                assert(rem[0] == cur@);
            }
            ids.push(cur.id);
            let ghost pre_q = queue@;
            let mut j: usize = 0;
            while j < cur.children.len()
                invariant
                    j <= cur.children.len(),
                    refs_view(queue@) == refs_view(pre_q) + cur@.children.subrange(0, j as int),
                decreases cur.children.len() - j,
            {
                let ghost before = queue@;
                queue.push(&cur.children[j]);
                proof {
                    lemma_nodes_view(cur.children@);
                    assert(cur@.children[j as int] == node_view(cur.children@[j as int]));
                    assert(refs_view(queue@) =~= refs_view(before).push(cur@.children[j as int]));
                    assert(refs_view(queue@) =~= refs_view(pre_q) + cur@.children.subrange(
                        0,
                        j + 1,
                    ));
                }
                j = j + 1;
            }
            proof {
                lemma_nodes_view(cur.children@);
                assert(cur@.children.subrange(0, cur.children.len() as int) =~= cur@.children);
                assert(refs_view(queue@) =~= refs_view(pre_q) + cur@.children);
                let rem2 = refs_view(queue@).subrange(head + 1, queue@.len() as int);
                assert(rem2 =~= rem.drop_first() + cur@.children);
                assert(bfs_order(rem) == seq![rem[0].id] + bfs_order(
                    rem.drop_first() + rem[0].children,
                ));
                assert(ids@ =~= pre_ids.push(cur@.id));
                assert(pre_ids + bfs_order(rem) =~= ids@ + bfs_order(rem2));
                lemma_seq_size_concat(rem.drop_first(), cur@.children);
                assert(seq_size(rem) == rem[0].size() + seq_size(rem.drop_first()));
                assert(rem[0].size() == 1 + seq_size(rem[0].children));
            }
            head = head + 1;
        }
        proof {
            assert(refs_view(queue@).subrange(head as int, queue@.len() as int)
                =~= Seq::<NodeView>::empty());
            assert(bfs_order(Seq::<NodeView>::empty()) =~= Seq::<u32>::empty());
            assert(ids@ =~= bfs_order(seq![self.root@]));
        }
        TreeIterator { ids, pos: 0 }
    }
}

/// Breadth-first traversal of a well-formed tree visits each node exactly
/// once: the walk is as long as the tree, lists exactly the tree's
/// identifiers, repeats none of them, and starts at the root.
pub proof fn lemma_traversal_each_node_once(root: NodeView)
    requires
        root.wf(),
    ensures
        bfs_order(seq![root]).len() == root.size(),
        forall|x: u32| #[trigger] bfs_order(seq![root]).contains(x) == root.contains_id(x),
        forall|i: int, j: int|
            0 <= i < j < bfs_order(seq![root]).len() ==> bfs_order(seq![root])[i] != bfs_order(
                seq![root],
            )[j],
        bfs_order(seq![root])[0] == root.id,
{
    let q = seq![root];
    assert(q.len() == 1);
    assert(q[0] == root);
    assert(q.drop_first() =~= Seq::<NodeView>::empty());
    assert(seq_wf(q.drop_first()));
    assert(seq_subtree_ids(q.drop_first()) =~= Set::empty());
    assert(seq_wf(q));
    assert(seq_size(q.drop_first()) == 0);
    assert(seq_size(q) == root.size());
    lemma_bfs_len(q);
    lemma_bfs_distinct(q);
    assert forall|x: u32| #[trigger] bfs_order(q).contains(x) == root.contains_id(x) by {
        lemma_bfs_membership(q, x);
        assert(!seq_contains_id(q.drop_first(), x));
        assert(seq_contains_id(q, x) == root.contains_id(x));
    }
    assert(bfs_order(q)[0] == root.id);
}

/// Breadth-first traversal emits every node strictly after its parent.
pub proof fn lemma_traversal_parent_before_child(root: NodeView, p: u32, c: u32)
    requires
        root.has_edge(p, c),
    ensures
        exists|i: int, j: int|
            0 <= i < j < bfs_order(seq![root]).len() && bfs_order(seq![root])[i] == p && bfs_order(
                seq![root],
            )[j] == c,
{
    let q = seq![root];
    assert(seq_has_edge(q, p, c));
    lemma_bfs_parent_first(q, p, c);
}

/// Owns the root of a scene's node tree. The root is a plain group with no
/// parent; every node reachable from it belongs to the tree.
pub struct ObjectTree {
    pub root: Node,
}

impl ObjectTree {
    /// A tree holding a single fresh root group.
    pub fn new(ids: &mut IdAllocator) -> (t: ObjectTree)
        requires
            old(ids).counter() < u32::MAX,
        ensures
            t.root@ == (NodeView {
                id: old(ids).counter(),
                is_self_dirty: false,
                is_child_dirty: false,
                position: Mat4::spec_identity(),
                primitive: None,
                children: Seq::empty(),
            }),
            final(ids).counter() == old(ids).counter() + 1,
    {
        ObjectTree { root: Group::new(ids).to_object() }
    }

    /// Adds `child` as the last direct child of the root. Fails — returning
    /// `false` and changing nothing — when a direct child of the root
    /// already carries `child.id`.
    pub fn add_child(&mut self, child: Node) -> (added: bool)
        ensures
            added == !old(self).root@.has_child_id(child@.id),
            added ==> final(self).root@ == old(self).root@.with_child(child@),
            !added ==> final(self).root@ == old(self).root@,
    {
        self.root.add_child(child)
    }

    /// Removes the direct child of the root carrying `child_id`, dropping
    /// its subtree. Removal is shallow: deeper descendants are not
    /// searched.
    pub fn remove_child(&mut self, child_id: u32) -> (removed: bool)
        ensures
            removed == old(self).root@.has_child_id(child_id),
            ({
                let i = seq_first_index_of_id(old(self).root@.children, child_id);
                &&& !removed ==> *final(self) == *old(self)
                &&& removed ==> final(self).root@ == old(self).root@.without_child_at(i)
            }),
    {
        self.root.remove_child(child_id)
    }

    /// Detaches and returns the direct child of the root carrying
    /// `child_id`, with its whole subtree, or returns `None` and changes
    /// nothing.
    pub fn take_child(&mut self, child_id: u32) -> (taken: Option<Node>)
        ensures
            ({
                let i = seq_first_index_of_id(old(self).root@.children, child_id);
                &&& i == -1 ==> taken is None && *final(self) == *old(self)
                &&& i >= 0 ==> {
                    &&& taken matches Some(c) && c@ == old(self).root@.children[i]
                    &&& final(self).root@ == old(self).root@.without_child_at(i)
                }
            }),
    {
        self.root.take_child(child_id)
    }

    /// Adds `child` as the last child of the node carrying `parent_id`,
    /// anywhere in the tree. Returns whether it was added: `false` when no
    /// node carries `parent_id`, or when the carrier already has a direct
    /// child with `child.id` — the tree is then left unchanged.
    pub fn add_child_at(&mut self, parent_id: u32, child: Node) -> (added: bool)
        ensures
            final(self).root@ == old(self).root@.insert_under(parent_id, child@),
            added == old(self).root@.insert_accepted(parent_id, child@.id),
    {
        let (added, _unplaced) = self.root.insert_under(parent_id, child);
        added
    }

    /// Empties the tree: every child of the root is dropped; the root
    /// itself stays.
    pub fn clear(&mut self)
        ensures
            final(self).root@ == (NodeView { children: Seq::empty(), ..old(self).root@ }),
    {
        self.root.children = Vec::new();
    }

    /// Marks the node carrying `id` dirty and flags `is_child_dirty` on
    /// every strict ancestor of it, the root included. Returns whether the
    /// tree contains `id`; when it does not, nothing changes.
    pub fn mark_dirty(&mut self, id: u32) -> (found: bool)
        ensures
            found == old(self).root@.contains_id(id),
            final(self).root@ == old(self).root@.mark_dirty(id),
    {
        self.root.mark_dirty(id)
    }
}

} // verus!
