use r_three::color::{Color, CHANNEL_ONE, CHANNEL_ZERO};
use r_three::gpu::{BufferIdAllocator, GpuCommand};
use r_three::materials::MeshBasicMaterial;
use r_three::math::Mat4;
use r_three::object::IdAllocator;
use r_three::objects::Mesh;
use r_three::pipeline::{MeshPipeline, RenderError};
use r_three::pipeline_storage::{Pipeline, PipelineKind, PipelineStorage};
use r_three::primitive::{MeshData, MeshPrimitive};
use r_three::renderer::Renderer;
use r_three::scene::Scene;
use r_three::vertex::Vertex;

fn bits(v: f32) -> u32 {
    v.to_bits()
}

/// The eight corners and twelve triangles of a unit box.
fn unit_box() -> (Vec<Vertex>, Vec<u32>) {
    let corner = |x: f32, y: f32, z: f32| Vertex { x: bits(x), y: bits(y), z: bits(z) };
    let h = 0.5f32;
    let vertices = vec![
        corner(-h, -h, -h),
        corner(h, -h, -h),
        corner(h, h, -h),
        corner(-h, h, -h),
        corner(-h, -h, h),
        corner(h, -h, h),
        corner(h, h, h),
        corner(-h, h, h),
    ];
    let indices = vec![
        0, 1, 2, 2, 3, 0, 1, 5, 6, 6, 2, 1, 5, 4, 7, 7, 6, 5, 4, 0, 3, 3, 7, 4, 3, 2, 6, 6, 7,
        3, 4, 5, 1, 1, 0, 4,
    ];
    (vertices, indices)
}

fn mesh_data() -> MeshData {
    let (vertices, indices) = unit_box();
    MeshData { vertices, indices }
}

fn storage_with_mesh() -> (PipelineStorage, BufferIdAllocator, Vec<GpuCommand>) {
    let mut cmds = Vec::new();
    let mut buffers = BufferIdAllocator::new();
    let mut storage = PipelineStorage::default();
    let mesh = MeshPipeline::new(&mut buffers, &mut cmds);
    storage.store(Pipeline::Mesh(mesh));
    (storage, buffers, cmds)
}

fn mesh_of(storage: &PipelineStorage) -> &MeshPipeline {
    match storage.get(PipelineKind::Mesh).expect("mesh pipeline registered") {
        Pipeline::Mesh(m) => m,
    }
}

#[test]
fn colors_carry_f64_bits() {
    assert_eq!(CHANNEL_ONE, 1.0f64.to_bits());
    assert_eq!(CHANNEL_ZERO, 0.0f64.to_bits());
    let w = Color::white();
    assert_eq!(f64::from_bits(w.r), 1.0);
    assert_eq!(f64::from_bits(w.a), 1.0);
    let b = Color::blue();
    assert_eq!(f64::from_bits(b.r), 0.0);
    assert_eq!(f64::from_bits(b.b), 1.0);
}

#[test]
fn identity_matrix_carries_f32_bits() {
    let m = Mat4::identity();
    assert_eq!(f32::from_bits(m.m00), 1.0);
    assert_eq!(f32::from_bits(m.m11), 1.0);
    assert_eq!(f32::from_bits(m.m22), 1.0);
    assert_eq!(f32::from_bits(m.m33), 1.0);
    assert_eq!(f32::from_bits(m.m01), 0.0);
    assert_eq!(f32::from_bits(m.m30), 0.0);
}

#[test]
fn keys_lists_kinds_in_registration_order() {
    let (storage, _, _) = storage_with_mesh();
    assert_eq!(storage.keys(), vec![PipelineKind::Mesh]);
}

#[test]
fn storage_is_single_instance_per_kind() {
    // Empty storage answers nothing; storing returns the instance; a
    // second store of the same kind replaces the first.
    let mut cmds = Vec::new();
    let mut buffers = BufferIdAllocator::new();
    let mut storage = PipelineStorage::default();
    assert!(!storage.has(PipelineKind::Mesh));
    assert!(storage.get(PipelineKind::Mesh).is_none());

    let first = MeshPipeline::new(&mut buffers, &mut cmds);
    let first_cam = first.camera_buffer();
    storage.store(Pipeline::Mesh(first));
    assert!(storage.has(PipelineKind::Mesh));
    assert_eq!(mesh_of(&storage).camera_buffer(), first_cam);

    let second = MeshPipeline::new(&mut buffers, &mut cmds);
    let second_cam = second.camera_buffer();
    assert_ne!(first_cam, second_cam);
    storage.store(Pipeline::Mesh(second));
    assert_eq!(storage.keys().len(), 1);
    assert_eq!(mesh_of(&storage).camera_buffer(), second_cam);
}

#[test]
fn add_mesh_data_returns_distinct_live_handles() {
    let mut cmds = Vec::new();
    let mut buffers = BufferIdAllocator::new();
    let mut pipeline = MeshPipeline::new(&mut buffers, &mut cmds);

    let h1 = pipeline.add_mesh_data(mesh_data(), &mut buffers, &mut cmds).unwrap();
    let h2 = pipeline.add_mesh_data(mesh_data(), &mut buffers, &mut cmds).unwrap();
    assert_ne!(h1, h2);
    assert!(pipeline.contains_handle(h1));
    assert!(pipeline.contains_handle(h2));
    assert_eq!(pipeline.num_entries(), 2);

    pipeline.remove_mesh_data(h1, &mut cmds);
    assert!(!pipeline.contains_handle(h1));
    assert!(pipeline.contains_handle(h2));
    assert_eq!(pipeline.num_entries(), 1);

    // removing an absent handle is a no-op
    pipeline.remove_mesh_data(h1, &mut cmds);
    assert_eq!(pipeline.num_entries(), 1);
}

#[test]
fn add_mesh_data_fails_on_exhausted_backend() {
    let mut cmds = Vec::new();
    let mut buffers = BufferIdAllocator::starting_at(u64::MAX);
    let mut pipeline = {
        let mut init_buffers = BufferIdAllocator::new();
        MeshPipeline::new(&mut init_buffers, &mut cmds)
    };
    let before = cmds.len();
    let r = pipeline.add_mesh_data(mesh_data(), &mut buffers, &mut cmds);
    assert_eq!(r, Err(RenderError::BufferAllocation));
    assert_eq!(pipeline.num_entries(), 0);
    assert_eq!(cmds.len(), before);
}

#[test]
fn upload_commands_carry_the_geometry() {
    let mut cmds = Vec::new();
    let mut buffers = BufferIdAllocator::new();
    let mut pipeline = MeshPipeline::new(&mut buffers, &mut cmds);
    cmds.clear();

    let (vertices, indices) = unit_box();
    let data = MeshData { vertices: vertices.clone(), indices: indices.clone() };
    pipeline.add_mesh_data(data, &mut buffers, &mut cmds).unwrap();

    assert_eq!(cmds.len(), 2);
    assert_eq!(cmds[0], GpuCommand::CreateVertexBuffer { buffer: 1, vertices });
    assert_eq!(cmds[1], GpuCommand::CreateIndexBuffer { buffer: 2, indices });
}

#[test]
fn draw_is_a_no_op_on_an_empty_table() {
    let mut cmds = Vec::new();
    let mut buffers = BufferIdAllocator::new();
    let pipeline = MeshPipeline::new(&mut buffers, &mut cmds);
    let before = cmds.len();
    pipeline.draw(&mut cmds);
    assert_eq!(cmds.len(), before);
}

#[test]
fn draw_binds_once_and_draws_every_entry() {
    let mut cmds = Vec::new();
    let mut buffers = BufferIdAllocator::new();
    let mut pipeline = MeshPipeline::new(&mut buffers, &mut cmds);
    let cam = pipeline.camera_buffer();
    pipeline.add_mesh_data(mesh_data(), &mut buffers, &mut cmds).unwrap();
    pipeline.add_mesh_data(mesh_data(), &mut buffers, &mut cmds).unwrap();

    cmds.clear();
    pipeline.update(Mat4::identity(), &mut cmds);
    pipeline.draw(&mut cmds);

    assert_eq!(
        cmds[0],
        GpuCommand::WriteUniform { buffer: cam, view_proj: Mat4::identity() }
    );
    assert_eq!(cmds[1], GpuCommand::BeginLoadPass);
    assert_eq!(cmds[2], GpuCommand::SetPipeline { kind: PipelineKind::Mesh });
    assert_eq!(cmds[3], GpuCommand::BindUniform { buffer: cam });
    // two entries, three commands each, then the pass ends
    assert_eq!(cmds.len(), 4 + 2 * 3 + 1);
    assert_eq!(cmds[cmds.len() - 1], GpuCommand::EndPass);
    let draws = cmds
        .iter()
        .filter(|c| matches!(c, GpuCommand::DrawIndexed { .. }))
        .count();
    assert_eq!(draws, 2);
    assert_eq!(cmds[6], GpuCommand::DrawIndexed { index_count: 36 });
}

#[test]
fn destroy_frees_every_buffer() {
    let mut cmds = Vec::new();
    let mut buffers = BufferIdAllocator::new();
    let mut pipeline = MeshPipeline::new(&mut buffers, &mut cmds);
    let cam = pipeline.camera_buffer();
    pipeline.add_mesh_data(mesh_data(), &mut buffers, &mut cmds).unwrap();

    cmds.clear();
    pipeline.destroy(&mut cmds);
    assert_eq!(
        cmds,
        vec![
            GpuCommand::FreeBuffer { buffer: 1 },
            GpuCommand::FreeBuffer { buffer: 2 },
            GpuCommand::FreeBuffer { buffer: cam },
        ]
    );
    assert_eq!(pipeline.num_entries(), 0);
}

#[test]
fn render_twice_keeps_exactly_one_entry() {
    // Two uploads in a row: afterwards the table holds exactly the second
    // handle; the first entry was freed after the new upload landed.
    let (mut storage, mut buffers, mut cmds) = storage_with_mesh();
    let mut prim = MeshPrimitive::default();

    let d1 = mesh_data();
    prim.fill_data(d1.vertices, d1.indices);
    prim.render(&mut storage, &mut buffers, &mut cmds).unwrap();
    let h1 = prim.data_id.expect("first upload installed a handle");
    assert!(prim.dirty_data.is_none());

    let d2 = mesh_data();
    prim.fill_data(d2.vertices, d2.indices);
    prim.render(&mut storage, &mut buffers, &mut cmds).unwrap();
    let h2 = prim.data_id.expect("second upload installed a handle");

    assert_ne!(h1, h2);
    let mesh = mesh_of(&storage);
    assert!(!mesh.contains_handle(h1));
    assert!(mesh.contains_handle(h2));
    assert_eq!(mesh.num_entries(), 1);
}

#[test]
fn render_with_nothing_pending_is_a_no_op() {
    let (mut storage, mut buffers, mut cmds) = storage_with_mesh();
    let mut prim = MeshPrimitive::default();
    let before = cmds.len();
    prim.render(&mut storage, &mut buffers, &mut cmds).unwrap();
    assert!(prim.data_id.is_none());
    assert_eq!(cmds.len(), before);
}

#[test]
fn failed_upload_leaves_the_old_entry_resident() {
    let (mut storage, mut buffers, mut cmds) = storage_with_mesh();
    let mut prim = MeshPrimitive::default();
    let d1 = mesh_data();
    prim.fill_data(d1.vertices, d1.indices);
    prim.render(&mut storage, &mut buffers, &mut cmds).unwrap();
    let h1 = prim.data_id.unwrap();

    let mut broke = BufferIdAllocator::starting_at(u64::MAX);
    let d2 = mesh_data();
    prim.fill_data(d2.vertices, d2.indices);
    let r = prim.render(&mut storage, &mut broke, &mut cmds);
    assert_eq!(r, Err(RenderError::BufferAllocation));
    // the pending data stays staged, the prior handle stays valid
    assert!(prim.dirty_data.is_some());
    assert_eq!(prim.data_id, Some(h1));
    assert!(mesh_of(&storage).contains_handle(h1));
}

#[test]
fn frame_uploads_then_draws_then_presents() {
    // The end-to-end scenario: a mesh node built from a unit box and a
    // basic material has pending data and no handle; after one frame the
    // data is uploaded and the handle installed; removing the node and
    // destroying its primitive empties the table.
    let mut ids = IdAllocator::new();
    let mut scene = Scene::new(&mut ids);
    scene.set_clear_color(Color::black());

    let (vertices, indices) = unit_box();
    let mesh = Mesh::new(
        &mut ids,
        vertices,
        indices,
        MeshBasicMaterial { color: Color::green() },
    );
    let mesh_id = mesh.id;
    let node = mesh.to_object();
    assert!(node.primitive.as_ref().unwrap().dirty_data.is_some());
    assert!(node.primitive.as_ref().unwrap().data_id.is_none());
    assert!(scene.add(node));

    let (mut renderer, init_cmds) = Renderer::new(800, 600);
    assert_eq!(
        init_cmds,
        vec![GpuCommand::CreateUniformBuffer { buffer: 0, size: 64 }]
    );

    let cmds = renderer.render(&mut scene, Mat4::identity());

    // the stream: clear pass, uploads, uniform write, draw pass, submit, present
    assert_eq!(cmds[0], GpuCommand::BeginClearPass { color: Color::black() });
    assert_eq!(cmds[1], GpuCommand::EndPass);
    assert!(matches!(cmds[2], GpuCommand::CreateVertexBuffer { .. }));
    assert!(matches!(cmds[3], GpuCommand::CreateIndexBuffer { .. }));
    assert_eq!(cmds[cmds.len() - 2], GpuCommand::Submit);
    assert_eq!(cmds[cmds.len() - 1], GpuCommand::Present);
    assert!(cmds.iter().any(|c| matches!(c, GpuCommand::DrawIndexed { index_count: 36 })));

    let prim_ref = scene.tree.root.children[0].primitive.as_ref().unwrap();
    assert!(prim_ref.dirty_data.is_none());
    let handle = prim_ref.data_id.expect("the frame installed a handle");
    assert!(mesh_of(&renderer.pipelines).contains_handle(handle));

    // a second frame has nothing left to upload
    let cmds2 = renderer.render(&mut scene, Mat4::identity());
    assert!(!cmds2.iter().any(|c| matches!(c, GpuCommand::CreateVertexBuffer { .. })));

    // removal plus destroy releases the table entry
    let mut removed = scene.remove(mesh_id).expect("mesh is a child of the root");
    let mut prim = removed.primitive.take().unwrap();
    let mut cmds3 = Vec::new();
    prim.destroy(&mut renderer.pipelines, &mut cmds3);
    assert!(prim.data_id.is_none());
    assert!(!mesh_of(&renderer.pipelines).contains_handle(handle));
    assert_eq!(
        cmds3.iter().filter(|c| matches!(c, GpuCommand::FreeBuffer { .. })).count(),
        2
    );
}

#[test]
fn frame_uploads_in_breadth_first_order() {
    // Group A under root holds mesh B; mesh C sits under root after A.
    // The traversal is [root, A, C, B], so the frame uploads C before B:
    // C's vertex buffer gets the earlier device name.
    let mut ids = IdAllocator::new();
    let mut scene = Scene::new(&mut ids);

    let a = r_three::objects::Group::new(&mut ids).to_object();
    let a_id = a.id;
    assert!(scene.add(a));

    let (vb, ib) = unit_box();
    let b = Mesh::new(&mut ids, vb, ib, MeshBasicMaterial { color: Color::red() });
    let b_id = b.id;
    assert!(scene.tree.add_child_at(a_id, b.to_object()));

    let (vc, ic) = unit_box();
    let c = Mesh::new(&mut ids, vc, ic, MeshBasicMaterial { color: Color::blue() });
    let c_id = c.id;
    assert!(scene.add(c.to_object()));

    let (mut renderer, _) = Renderer::new(640, 480);
    let cmds = renderer.render(&mut scene, Mat4::identity());

    // two uploads, in traversal order: C first (depth 1), then B (depth 2)
    let created: Vec<u64> = cmds
        .iter()
        .filter_map(|cmd| match cmd {
            GpuCommand::CreateVertexBuffer { buffer, .. } => Some(*buffer),
            _ => None,
        })
        .collect();
    assert_eq!(created.len(), 2);
    assert!(created[0] < created[1]);

    let c_node = &scene.tree.root.children[1];
    assert_eq!(c_node.id, c_id);
    let b_node = &scene.tree.root.children[0].children[0];
    assert_eq!(b_node.id, b_id);
    let hc = c_node.primitive.as_ref().unwrap().data_id.unwrap();
    let hb = b_node.primitive.as_ref().unwrap().data_id.unwrap();
    let mesh = mesh_of(&renderer.pipelines);
    assert!(mesh.contains_handle(hc));
    assert!(mesh.contains_handle(hb));
    assert_eq!(mesh.num_entries(), 2);
    // C was visited first: its vertex buffer got device name 1 (0 is the
    // camera uniform), B's came later as 3.
    assert_eq!(created[0], 1);
    assert_eq!(created[1], 3);
}

#[test]
fn zero_area_viewport_skips_the_frame() {
    let mut ids = IdAllocator::new();
    let mut scene = Scene::new(&mut ids);
    let (vertices, indices) = unit_box();
    let mesh = Mesh::new(
        &mut ids,
        vertices,
        indices,
        MeshBasicMaterial { color: Color::red() },
    );
    assert!(scene.add(mesh.to_object()));

    let (mut renderer, _) = Renderer::new(0, 600);
    let cmds = renderer.render(&mut scene, Mat4::identity());
    assert!(cmds.is_empty());
    // the skipped frame left the upload pending; it is retried after a resize
    assert!(scene.tree.root.children[0].primitive.as_ref().unwrap().dirty_data.is_some());

    renderer.resize(640, 480);
    let cmds2 = renderer.render(&mut scene, Mat4::identity());
    assert!(!cmds2.is_empty());
    assert!(scene.tree.root.children[0].primitive.as_ref().unwrap().dirty_data.is_none());
}

#[test]
fn resize_ignores_zero_sizes() {
    let (mut renderer, _) = Renderer::new(800, 600);
    renderer.resize(0, 400);
    assert_eq!(renderer.width, 800);
    assert_eq!(renderer.height, 600);
    renderer.resize(1024, 768);
    assert_eq!(renderer.width, 1024);
    assert_eq!(renderer.height, 768);
}
