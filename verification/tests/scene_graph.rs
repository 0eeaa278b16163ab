use r_three::math::Mat4;
use r_three::object::{next_object_id, IdAllocator, Node};
use r_three::objects::{Group, Mesh};
use r_three::scene::Scene;
use r_three::tree::ObjectTree;
use r_three::materials::MeshBasicMaterial;
use r_three::color::Color;
use r_three::vertex::Vertex;

fn triangle_vertices() -> Vec<Vertex> {
    let p = |x: f32, y: f32| Vertex { x: x.to_bits(), y: y.to_bits(), z: 0f32.to_bits() };
    vec![p(0.0, 0.5), p(-0.5, 0.0), p(0.5, 0.0)]
}

fn new_mesh(ids: &mut IdAllocator) -> Node {
    Mesh::new(
        ids,
        triangle_vertices(),
        vec![0, 1, 2],
        MeshBasicMaterial { color: Color::red() },
    )
    .to_object()
}

#[test]
fn it_works() {}

#[test]
fn object_ids_are_monotonic() {
    let mut ids = IdAllocator::new();
    assert_eq!(next_object_id(&mut ids), 0);
    assert_eq!(next_object_id(&mut ids), 1);
    assert_eq!(next_object_id(&mut ids), 2);
}

#[test]
fn new_group_node_is_clean() {
    let mut ids = IdAllocator::new();
    let g = Group::new(&mut ids).to_object();
    assert_eq!(g.id, 0);
    assert!(!g.is_self_dirty);
    assert!(!g.is_child_dirty);
    assert_eq!(g.position, Mat4::identity());
    assert!(g.primitive.is_none());
    assert!(g.children.is_empty());
}

#[test]
fn add_then_remove_restores_parent() {
    // Adding a child and removing it by id brings the parent's child list
    // back to what it was, and the detached node is intact and parentless.
    let mut ids = IdAllocator::new();
    let mut parent = Group::new(&mut ids).to_object();
    let before: Vec<u32> = parent.children.iter().map(|c| c.id).collect();
    let child = new_mesh(&mut ids);
    let child_id = child.id;

    assert!(parent.add_child(child));
    assert_eq!(parent.children.len(), 1);

    let detached = parent.take_child(child_id).expect("child is present");
    let after: Vec<u32> = parent.children.iter().map(|c| c.id).collect();
    assert_eq!(before, after);
    assert_eq!(detached.id, child_id);
    assert!(detached.primitive.is_some());
}

#[test]
fn duplicate_child_id_is_rejected() {
    // Two allocators hand out colliding ids; the second insertion under
    // the same parent must fail and leave the tree unmodified.
    let mut ids_a = IdAllocator::new();
    let mut ids_b = IdAllocator::new();
    let mut parent = Group::new(&mut ids_a).to_object();
    let first = Group::new(&mut ids_b).to_object();
    let mut ids_c = IdAllocator::new();
    let second = Group::new(&mut ids_c).to_object();
    assert_eq!(first.id, second.id);

    assert!(parent.add_child(first));
    assert!(!parent.add_child(second));
    assert_eq!(parent.children.len(), 1);
}

#[test]
fn remove_child_is_shallow() {
    // remove_child only scans direct children; a grandchild's id is not
    // found.
    let mut ids = IdAllocator::new();
    let mut tree = ObjectTree::new(&mut ids);
    let mut a = Group::new(&mut ids).to_object();
    let b = Group::new(&mut ids).to_object();
    let b_id = b.id;
    assert!(a.add_child(b));
    assert!(tree.add_child(a));

    assert!(!tree.remove_child(b_id));
    assert_eq!(tree.root.children.len(), 1);
    assert_eq!(tree.root.children[0].children.len(), 1);
}

#[test]
fn mark_dirty_flags_leaf_and_ancestors() {
    // root -> a -> b, plus sibling c under root. Marking b dirty sets
    // self_dirty on b alone and child_dirty on a and root; c is untouched.
    let mut ids = IdAllocator::new();
    let mut tree = ObjectTree::new(&mut ids);
    let mut a = Group::new(&mut ids).to_object();
    let b = Group::new(&mut ids).to_object();
    let b_id = b.id;
    assert!(a.add_child(b));
    assert!(tree.add_child(a));
    let c = Group::new(&mut ids).to_object();
    assert!(tree.add_child(c));

    assert!(tree.mark_dirty(b_id));

    let root = &tree.root;
    assert!(!root.is_self_dirty);
    assert!(root.is_child_dirty);
    let a_ref = &root.children[0];
    assert!(!a_ref.is_self_dirty);
    assert!(a_ref.is_child_dirty);
    let b_ref = &a_ref.children[0];
    assert!(b_ref.is_self_dirty);
    assert!(!b_ref.is_child_dirty);
    let c_ref = &root.children[1];
    assert!(!c_ref.is_self_dirty);
    assert!(!c_ref.is_child_dirty);
}

#[test]
fn mark_dirty_unknown_id_changes_nothing() {
    let mut ids = IdAllocator::new();
    let mut tree = ObjectTree::new(&mut ids);
    let a = Group::new(&mut ids).to_object();
    assert!(tree.add_child(a));
    assert!(!tree.mark_dirty(999));
    assert!(!tree.root.is_child_dirty);
    assert!(!tree.root.children[0].is_self_dirty);
}

#[test]
fn traversal_is_breadth_first() {
    // The end-to-end scenario: group A under root, mesh B under A, mesh C
    // under root after A. Breadth-first order is [root, A, C, B]; removing
    // A detaches its subtree, leaving [root, C].
    let mut ids = IdAllocator::new();
    let mut scene = Scene::new(&mut ids);
    let root_id = scene.tree.root.id;

    let a = Group::new(&mut ids).to_object();
    let a_id = a.id;
    assert!(scene.add(a));

    let b = new_mesh(&mut ids);
    let b_id = b.id;
    assert!(scene.tree.add_child_at(a_id, b));

    let c = new_mesh(&mut ids);
    let c_id = c.id;
    assert!(scene.add(c));

    let mut it = scene.tree.into_iter();
    let mut order = Vec::new();
    while let Some(id) = it.next() {
        order.push(id);
    }
    assert_eq!(order, vec![root_id, a_id, c_id, b_id]);

    assert!(scene.tree.remove_child(a_id));
    let remaining: Vec<u32> = scene.tree.root.children.iter().map(|c| c.id).collect();
    assert_eq!(remaining, vec![c_id]);

    let mut it2 = scene.tree.into_iter();
    let mut order2 = Vec::new();
    while let Some(id) = it2.next() {
        order2.push(id);
    }
    assert_eq!(order2, vec![root_id, c_id]);
}

#[test]
fn traversal_visits_each_node_once_parent_first() {
    let mut ids = IdAllocator::new();
    let mut tree = ObjectTree::new(&mut ids);
    let mut a = Group::new(&mut ids).to_object();
    let mut b = Group::new(&mut ids).to_object();
    let d = Group::new(&mut ids).to_object();
    let e = Group::new(&mut ids).to_object();
    assert!(b.add_child(d));
    assert!(a.add_child(b));
    assert!(a.add_child(e));
    assert!(tree.add_child(a));

    let mut it = tree.into_iter();
    let mut order = Vec::new();
    while let Some(id) = it.next() {
        order.push(id);
    }
    assert_eq!(order.len(), 5);
    let mut sorted = order.clone();
    sorted.sort();
    sorted.dedup();
    assert_eq!(sorted.len(), 5, "every node exactly once");
    // every child appears strictly after its parent
    let pos = |id: u32| order.iter().position(|&x| x == id).unwrap();
    assert!(pos(tree.root.id) == 0);
    for child in &tree.root.children {
        assert!(pos(child.id) > 0);
        for grand in &child.children {
            assert!(pos(grand.id) > pos(child.id));
            for great in &grand.children {
                assert!(pos(great.id) > pos(grand.id));
            }
        }
    }
}

#[test]
fn iterator_is_rebuilt_each_call() {
    let mut ids = IdAllocator::new();
    let mut tree = ObjectTree::new(&mut ids);
    let a = Group::new(&mut ids).to_object();
    assert!(tree.add_child(a));

    let mut first = tree.into_iter();
    while first.next().is_some() {}
    assert!(first.next().is_none());

    let mut second = tree.into_iter();
    assert!(second.next().is_some());
}

#[test]
fn add_child_at_missing_parent_fails() {
    let mut ids = IdAllocator::new();
    let mut tree = ObjectTree::new(&mut ids);
    let orphan = Group::new(&mut ids).to_object();
    assert!(!tree.add_child_at(4242, orphan));
    assert!(tree.root.children.is_empty());
}

#[test]
fn clear_empties_the_tree() {
    let mut ids = IdAllocator::new();
    let mut tree = ObjectTree::new(&mut ids);
    let a = Group::new(&mut ids).to_object();
    let b = Group::new(&mut ids).to_object();
    assert!(tree.add_child(a));
    assert!(tree.add_child(b));
    tree.clear();
    assert!(tree.root.children.is_empty());
}

#[test]
fn scene_remove_returns_the_subtree() {
    let mut ids = IdAllocator::new();
    let mut scene = Scene::new(&mut ids);
    let mut a = Group::new(&mut ids).to_object();
    let b = new_mesh(&mut ids);
    let a_id = a.id;
    let b_id = b.id;
    assert!(a.add_child(b));
    assert!(scene.add(a));

    let taken = scene.remove(a_id).expect("a is a child of the root");
    assert_eq!(taken.id, a_id);
    assert_eq!(taken.children[0].id, b_id);
    assert!(scene.remove(a_id).is_none());
}
