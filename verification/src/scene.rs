//! A scene: one object tree plus the background clear color. The scene is
//! the unit handed to the renderer each frame.

use vstd::prelude::*;
use crate::color::Color;
use crate::object::{seq_first_index_of_id, IdAllocator, Node, NodeView};
use crate::tree::ObjectTree;

verus! {

/// One renderable scene.
pub struct Scene {
    /// The object tree; the renderer walks it every frame.
    pub tree: ObjectTree,
    /// What the background pass clears the target to.
    pub background_color: Color,
}

impl Scene {
    /// An empty scene: a lone root group and a white background.
    pub fn new(ids: &mut IdAllocator) -> (s: Scene)
        requires
            old(ids).counter() < u32::MAX,
        ensures
            s.background_color == (Color {
                r: crate::color::CHANNEL_ONE,
                g: crate::color::CHANNEL_ONE,
                b: crate::color::CHANNEL_ONE,
                a: crate::color::CHANNEL_ONE,
            }),
            s.tree.root@.id == old(ids).counter(),
            s.tree.root@.children == Seq::<NodeView>::empty(),
            s.tree.root@.primitive is None,
            !s.tree.root@.is_self_dirty,
            !s.tree.root@.is_child_dirty,
            final(ids).counter() == old(ids).counter() + 1,
    {
        Scene { tree: ObjectTree::new(ids), background_color: Color::white() }
    }

    /// Sets the background clear color.
    pub fn set_clear_color(&mut self, color: Color)
        ensures
            final(self).background_color == color,
            final(self).tree == old(self).tree,
    {
        self.background_color = color;
    }

    /// Adds `obj` as a direct child of the root. Fails — returning
    /// `false` and changing nothing — when a direct child of the root
    /// already carries `obj.id`.
    pub fn add(&mut self, obj: Node) -> (added: bool)
        ensures
            added == !old(self).tree.root@.has_child_id(obj@.id),
            added ==> final(self).tree.root@ == old(self).tree.root@.with_child(obj@),
            !added ==> final(self).tree.root@ == old(self).tree.root@,
            final(self).background_color == old(self).background_color,
    {
        self.tree.add_child(obj)
    }

    /// Detaches and returns the direct child of the root carrying
    /// `obj_id`, with its whole subtree, so the caller can release its
    /// GPU resources; returns `None` and changes nothing when no direct
    /// child carries `obj_id`.
    pub fn remove(&mut self, obj_id: u32) -> (taken: Option<Node>)
        ensures
            final(self).background_color == old(self).background_color,
            ({
                let i = seq_first_index_of_id(old(self).tree.root@.children, obj_id);
                &&& i == -1 ==> taken is None && *final(self) == *old(self)
                &&& i >= 0 ==> {
                    &&& taken matches Some(c) && c@ == old(self).tree.root@.children[i]
                    &&& final(self).tree.root@ == old(self).tree.root@.without_child_at(i)
                }
            }),
    {
        self.tree.take_child(obj_id)
    }
}

} // verus!
