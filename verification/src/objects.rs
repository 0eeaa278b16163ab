//! The node kinds an application builds scenes from.
//!
//! Each kind is a node header plus whatever data the kind carries, and
//! converts into a plain scene-graph [`Node`] with `to_object`. Geometry
//! arrives already generated: producing vertex and index arrays from shape
//! parameters is floating-point work that belongs to the caller, not to
//! this crate.

use vstd::prelude::*;
use crate::buffer_geometry::BufferGeometry;
use crate::materials::{LineBasicMaterial, MeshBasicMaterial};
use crate::math::Mat4;
use crate::object::{next_object_id, IdAllocator, Node, NodeView};
use crate::primitive::MeshPrimitive;
use crate::vertex::Vertex;

verus! {

/// A pure grouping node: no geometry of its own, just children.
pub struct Group {
    pub id: u32,
    pub is_self_dirty: bool,
    pub is_child_dirty: bool,
    pub position: Mat4,
}

impl Group {
    /// A fresh group with a new identifier, clean flags, and an identity
    /// transform.
    pub fn new(ids: &mut IdAllocator) -> (g: Group)
        requires
            old(ids).counter() < u32::MAX,
        ensures
            g.id == old(ids).counter(),
            final(ids).counter() == old(ids).counter() + 1,
            !g.is_self_dirty,
            !g.is_child_dirty,
            g.position == Mat4::spec_identity(),
    {
        Group {
            id: next_object_id(ids),
            is_self_dirty: false,
            is_child_dirty: false,
            position: Mat4::identity(),
        }
    }

    /// Turns the group into a childless scene-graph node without a
    /// primitive.
    pub fn to_object(self) -> (n: Node)
        ensures
            n@ == (NodeView {
                id: self.id,
                is_self_dirty: self.is_self_dirty,
                is_child_dirty: self.is_child_dirty,
                position: self.position,
                primitive: None,
                children: Seq::empty(),
            }),
    {
        Node {
            id: self.id,
            is_self_dirty: self.is_self_dirty,
            is_child_dirty: self.is_child_dirty,
            position: self.position,
            primitive: None,
            children: Vec::new(),
        }
    }
}

/// A renderable triangle mesh: a header, the material it was built with,
/// and a primitive holding the generated geometry, pending upload.
pub struct Mesh {
    pub id: u32,
    pub is_self_dirty: bool,
    pub is_child_dirty: bool,
    pub position: Mat4,
    pub material: MeshBasicMaterial,
    pub primitive: MeshPrimitive,
}

impl Mesh {
    /// A fresh mesh over already-generated geometry. The vertex and index
    /// arrays are staged on the mesh's primitive, to be uploaded by the
    /// first render pass that sees the node.
    pub fn new(
        ids: &mut IdAllocator,
        vertices: Vec<Vertex>,
        indices: Vec<u32>,
        material: MeshBasicMaterial,
    ) -> (m: Mesh)
        requires
            old(ids).counter() < u32::MAX,
        ensures
            m.id == old(ids).counter(),
            final(ids).counter() == old(ids).counter() + 1,
            !m.is_self_dirty,
            !m.is_child_dirty,
            m.position == Mat4::spec_identity(),
            m.material == material,
            m.primitive@.dirty_data == Some(
                crate::primitive::MeshDataView { vertices: vertices@, indices: indices@ },
            ),
            m.primitive@.data_id is None,
    {
        let mut primitive = MeshPrimitive::default();
        primitive.fill_data(vertices, indices);
        Mesh {
            id: next_object_id(ids),
            is_self_dirty: false,
            is_child_dirty: false,
            position: Mat4::identity(),
            material,
            primitive,
        }
    }

    /// Turns the mesh into a childless scene-graph node carrying its
    /// primitive.
    pub fn to_object(self) -> (n: Node)
        ensures
            n@ == (NodeView {
                id: self.id,
                is_self_dirty: self.is_self_dirty,
                is_child_dirty: self.is_child_dirty,
                position: self.position,
                primitive: Some(self.primitive@),
                children: Seq::empty(),
            }),
    {
        Node {
            id: self.id,
            is_self_dirty: self.is_self_dirty,
            is_child_dirty: self.is_child_dirty,
            position: self.position,
            primitive: Some(self.primitive),
            children: Vec::new(),
        }
    }
}

/// A polyline object: a header, the point list and line style it was built
/// with, and a primitive holding the tessellated strip geometry.
pub struct Line {
    pub id: u32,
    pub is_self_dirty: bool,
    pub is_child_dirty: bool,
    pub position: Mat4,
    pub geometry: BufferGeometry,
    pub material: LineBasicMaterial,
    pub primitive: MeshPrimitive,
}

impl Line {
    /// A fresh line object. `vertices` and `indices` are the triangle
    /// strip tessellated from `geometry` under `material`'s width and join
    /// styles — that tessellation is floating-point work done by the
    /// caller. They are staged on the line's primitive for upload.
    pub fn new(
        ids: &mut IdAllocator,
        geometry: BufferGeometry,
        material: LineBasicMaterial,
        vertices: Vec<Vertex>,
        indices: Vec<u32>,
    ) -> (l: Line)
        requires
            old(ids).counter() < u32::MAX,
        ensures
            l.id == old(ids).counter(),
            final(ids).counter() == old(ids).counter() + 1,
            !l.is_self_dirty,
            !l.is_child_dirty,
            l.position == Mat4::spec_identity(),
            l.geometry.position == geometry.position,
            l.material == material,
            l.primitive@.dirty_data == Some(
                crate::primitive::MeshDataView { vertices: vertices@, indices: indices@ },
            ),
            l.primitive@.data_id is None,
    {
        let mut primitive = MeshPrimitive::default();
        primitive.fill_data(vertices, indices);
        Line {
            id: next_object_id(ids),
            is_self_dirty: false,
            is_child_dirty: false,
            position: Mat4::identity(),
            geometry,
            material,
            primitive,
        }
    }

    /// Turns the line into a childless scene-graph node carrying its
    /// primitive.
    pub fn to_object(self) -> (n: Node)
        ensures
            n@ == (NodeView {
                id: self.id,
                is_self_dirty: self.is_self_dirty,
                is_child_dirty: self.is_child_dirty,
                position: self.position,
                primitive: Some(self.primitive@),
                children: Seq::empty(),
            }),
    {
        Node {
            id: self.id,
            is_self_dirty: self.is_self_dirty,
            is_child_dirty: self.is_child_dirty,
            position: self.position,
            primitive: Some(self.primitive),
            children: Vec::new(),
        }
    }
}

} // verus!
