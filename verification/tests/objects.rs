use r_three::buffer_attribute::BufferAttribute;
use r_three::buffer_geometry::BufferGeometry;
use r_three::color::Color;
use r_three::materials::{LineBasicMaterial, MeshBasicMaterial};
use r_three::object::IdAllocator;
use r_three::objects::{Line, Mesh};
use r_three::primitive::MeshPrimitive;
use r_three::vertex::Vertex;

fn v(x: f32, y: f32, z: f32) -> Vertex {
    Vertex { x: x.to_bits(), y: y.to_bits(), z: z.to_bits() }
}

#[test]
fn buffer_attribute_wraps_data() {
    let attr = BufferAttribute::new(vec![1u16, 2, 3]);
    assert_eq!(attr.data, vec![1, 2, 3]);
    assert!(!attr.normalized);
}

#[test]
fn buffer_geometry_replaces_points() {
    let mut geo = BufferGeometry::new();
    assert!(geo.position.is_empty());
    geo.set_from_points(vec![v(0.0, 0.0, 0.0), v(1.0, 1.0, 0.0)]);
    assert_eq!(geo.position.len(), 2);
    assert_eq!(geo.position[1], v(1.0, 1.0, 0.0));
}

#[test]
fn mesh_stages_its_geometry() {
    let mut ids = IdAllocator::new();
    let mesh = Mesh::new(
        &mut ids,
        vec![v(0.0, 0.5, 0.0), v(-0.5, 0.0, 0.0), v(0.5, 0.0, 0.0)],
        vec![0, 1, 2],
        MeshBasicMaterial { color: Color::red() },
    );
    let staged = mesh.primitive.dirty_data.as_ref().unwrap();
    assert_eq!(staged.vertices.len(), 3);
    assert_eq!(staged.indices, vec![0, 1, 2]);
    assert!(mesh.primitive.data_id.is_none());
}

#[test]
fn line_keeps_geometry_and_stages_tessellation() {
    let mut ids = IdAllocator::new();
    let mut geo = BufferGeometry::new();
    geo.set_from_points(vec![v(0.0, 0.0, 0.0), v(1.0, 1.0, 0.0)]);
    let material = LineBasicMaterial {
        color: Color::white(),
        line_width: 1.0f32.to_bits(),
        linecap: "round".to_string(),
        linejoin: "round".to_string(),
        alpha: 1.0f32.to_bits(),
    };
    // the strip for one segment: four corners, two triangles
    let strip = vec![
        v(0.0, 0.1, 0.0),
        v(0.0, -0.1, 0.0),
        v(1.0, 1.1, 0.0),
        v(1.0, 0.9, 0.0),
    ];
    let line = Line::new(&mut ids, geo, material, strip, vec![0, 1, 2, 2, 1, 3]);
    assert_eq!(line.geometry.position.len(), 2);
    let staged = line.primitive.dirty_data.as_ref().unwrap();
    assert_eq!(staged.vertices.len(), 4);
    assert_eq!(staged.indices.len(), 6);
    let node = line.to_object();
    assert!(node.primitive.is_some());
}

#[test]
fn fill_data_replaces_pending_and_keeps_handle() {
    let mut prim = MeshPrimitive::default();
    assert!(prim.dirty_data.is_none());
    prim.fill_data(vec![v(0.0, 0.0, 0.0)], vec![0]);
    prim.fill_data(vec![v(1.0, 0.0, 0.0), v(0.0, 1.0, 0.0)], vec![0, 1]);
    let staged = prim.dirty_data.as_ref().unwrap();
    assert_eq!(staged.vertices.len(), 2);
    assert!(prim.data_id.is_none());
}
