//! The frame orchestrator.
//!
//! Once per frame the renderer clears the target, visits every scene
//! node in the breadth-first traversal order synchronizing dirty
//! primitives into the mesh pipeline, flushes the pipeline (camera
//! uniform, then the draw pass), and submits and presents — all as one
//! ordered command stream for the backend executor. A zero-area viewport
//! skips the frame entirely.

use vstd::prelude::*;
use crate::color::Color;
use crate::gpu::{BufferIdAllocator, GpuCommand};
use crate::math::Mat4;
use crate::object::{
    lemma_contains_iff_subtree_ids, lemma_find_node_some, lemma_nodes_view,
    lemma_seq_find_node, lemma_seq_first_index_containing, lemma_seq_size_element,
    lemma_seq_wf_element, lemma_seq_wf_unique_container, lemma_with_primitive_at_exact,
    lemma_with_primitive_at_preserves, lemma_seq_with_primitive_at_pointwise,
    lemma_seq_contains_id_exists, seq_contains_id, seq_first_index_containing, seq_subtree_ids,
    seq_wf, seq_with_primitive_at, Node, NodeView,
};
use crate::primitive::{MeshDataView, PrimitiveView};
use crate::tree::{bfs_order, lemma_bfs_distinct, lemma_bfs_membership};
use crate::pipeline::{draw_commands, MeshEntry, MeshPipeline};
use crate::pipeline_storage::{mesh_pipeline_of, Pipeline, PipelineKind, PipelineStorage};
use crate::scene::Scene;

verus! {

/// The pipeline registry is sound and hosts a well-formed mesh pipeline.
pub open spec fn mesh_ok(storage: PipelineStorage) -> bool {
    &&& storage.wf()
    &&& storage@.contains_key(PipelineKind::Mesh)
    &&& mesh_pipeline_of(storage@[PipelineKind::Mesh]).wf()
}

/// The registered mesh pipeline.
pub open spec fn mesh_of(storage: PipelineStorage) -> MeshPipeline {
    mesh_pipeline_of(storage@[PipelineKind::Mesh])
}

/// The resource handle resident on a node's own primitive, if any.
pub open spec fn own_handle(n: NodeView) -> Set<u32> {
    match n.primitive {
        Some(p) => match p.data_id {
            Some(h) => Set::empty().insert(h),
            None => Set::empty(),
        },
        None => Set::empty(),
    }
}

/// Every resource handle resident in a subtree.
pub open spec fn node_prim_handles(n: NodeView) -> Set<u32>
    decreases n,
{
    own_handle(n).union(seq_prim_handles(n.children))
}

/// Every resource handle resident across a sequence of subtrees.
pub open spec fn seq_prim_handles(s: Seq<NodeView>) -> Set<u32>
    decreases s,
{
    if s.len() == 0 {
        Set::empty()
    } else {
        node_prim_handles(s[0]).union(seq_prim_handles(s.drop_first()))
    }
}

/// Distinct nodes hold distinct resource handles.
pub open spec fn node_handles_wf(n: NodeView) -> bool
    decreases n,
{
    &&& seq_handles_wf(n.children)
    &&& own_handle(n).disjoint(seq_prim_handles(n.children))
}

/// Sequence form of [`node_handles_wf`]: each subtree sound, subtrees
/// pairwise disjoint.
pub open spec fn seq_handles_wf(s: Seq<NodeView>) -> bool
    decreases s,
{
    if s.len() == 0 {
        true
    } else {
        &&& node_handles_wf(s[0])
        &&& seq_handles_wf(s.drop_first())
        &&& node_prim_handles(s[0]).disjoint(seq_prim_handles(s.drop_first()))
    }
}

/// Every pending index list in the subtree fits the backend's 32-bit draw
/// count.
pub open spec fn node_pending_ok(n: NodeView) -> bool
    decreases n,
{
    &&& match n.primitive {
        Some(p) => p.dirty_data matches Some(d) ==> d.indices.len() <= u32::MAX,
        None => true,
    }
    &&& seq_pending_ok(n.children)
}

/// Sequence form of [`node_pending_ok`].
pub open spec fn seq_pending_ok(s: Seq<NodeView>) -> bool
    decreases s,
{
    if s.len() == 0 {
        true
    } else {
        node_pending_ok(s[0]) && seq_pending_ok(s.drop_first())
    }
}

/// How many primitives in the subtree hold pending geometry.
pub open spec fn node_dirty_count(n: NodeView) -> nat
    decreases n,
{
    (match n.primitive {
        Some(p) => if p.dirty_data is Some {
            1nat
        } else {
            0nat
        },
        None => 0nat,
    }) + seq_dirty_count(n.children)
}

/// Sequence form of [`node_dirty_count`].
pub open spec fn seq_dirty_count(s: Seq<NodeView>) -> nat
    decreases s,
{
    if s.len() == 0 {
        0
    } else {
        node_dirty_count(s[0]) + seq_dirty_count(s.drop_first())
    }
}

/// No primitive in the subtree holds pending geometry.
pub open spec fn node_all_synced(n: NodeView) -> bool
    decreases n,
{
    &&& match n.primitive {
        Some(p) => p.dirty_data is None,
        None => true,
    }
    &&& seq_all_synced(n.children)
}

/// Sequence form of [`node_all_synced`].
pub open spec fn seq_all_synced(s: Seq<NodeView>) -> bool
    decreases s,
{
    if s.len() == 0 {
        true
    } else {
        node_all_synced(s[0]) && seq_all_synced(s.drop_first())
    }
}

/// Same identity, flags, transform, primitive presence, and tree shape.
pub open spec fn node_same_shape(a: NodeView, b: NodeView) -> bool
    decreases a,
{
    &&& a.id == b.id
    &&& a.is_self_dirty == b.is_self_dirty
    &&& a.is_child_dirty == b.is_child_dirty
    &&& a.position == b.position
    &&& (a.primitive is Some) == (b.primitive is Some)
    &&& a.children.len() == b.children.len()
    &&& seq_same_shape(a.children, b.children)
}

/// Sequence form of [`node_same_shape`].
pub open spec fn seq_same_shape(a: Seq<NodeView>, b: Seq<NodeView>) -> bool
    decreases a,
{
    if a.len() != b.len() {
        false
    } else if a.len() == 0 {
        true
    } else {
        node_same_shape(a[0], b[0]) && seq_same_shape(a.drop_first(), b.drop_first())
    }
}

/// The sequence predicates, element by element.
pub proof fn lemma_seq_sync_pointwise(s: Seq<NodeView>)
    ensures
        seq_pending_ok(s) == (forall|i: int| 0 <= i < s.len() ==> node_pending_ok(#[trigger] s[i])),
        seq_all_synced(s) == (forall|i: int| 0 <= i < s.len() ==> node_all_synced(#[trigger] s[i])),
        forall|i: int| 0 <= i < s.len() ==> (#[trigger] node_prim_handles(s[i])).subset_of(
            seq_prim_handles(s),
        ),
    decreases s,
{
    if s.len() > 0 {
        lemma_seq_sync_pointwise(s.drop_first());
        assert forall|i: int| 0 <= i < s.len() implies (#[trigger] node_prim_handles(
            s[i],
        )).subset_of(seq_prim_handles(s)) by {
            if i > 0 {
                assert(s.drop_first()[i - 1] == s[i]);
            }
        }
        if seq_pending_ok(s) {
            assert forall|i: int| 0 <= i < s.len() implies node_pending_ok(#[trigger] s[i]) by {
                if i > 0 {
                    assert(s.drop_first()[i - 1] == s[i]);
                }
            }
        }
        if forall|i: int| 0 <= i < s.len() ==> node_pending_ok(#[trigger] s[i]) {
            assert(node_pending_ok(s[0]));
            assert forall|i: int| 0 <= i < s.drop_first().len() implies node_pending_ok(
                #[trigger] s.drop_first()[i],
            ) by {
                assert(s.drop_first()[i] == s[i + 1]);
            }
        }
        if seq_all_synced(s) {
            assert forall|i: int| 0 <= i < s.len() implies node_all_synced(#[trigger] s[i]) by {
                if i > 0 {
                    assert(s.drop_first()[i - 1] == s[i]);
                }
            }
        }
        if forall|i: int| 0 <= i < s.len() ==> node_all_synced(#[trigger] s[i]) {
            assert(node_all_synced(s[0]));
            assert forall|i: int| 0 <= i < s.drop_first().len() implies node_all_synced(
                #[trigger] s.drop_first()[i],
            ) by {
                assert(s.drop_first()[i] == s[i + 1]);
            }
        }
    }
}

/// Membership in a sequence's handle set comes from some member subtree.
pub proof fn lemma_seq_prim_handles_exists(s: Seq<NodeView>, h: u32)
    ensures
        seq_prim_handles(s).contains(h) == exists|i: int|
            0 <= i < s.len() && (#[trigger] node_prim_handles(s[i])).contains(h),
    decreases s,
{
    if s.len() > 0 {
        lemma_seq_prim_handles_exists(s.drop_first(), h);
        if seq_prim_handles(s).contains(h) {
            if node_prim_handles(s[0]).contains(h) {
            } else {
                let i = choose|i: int|
                    0 <= i < s.drop_first().len() && (#[trigger] node_prim_handles(
                        s.drop_first()[i],
                    )).contains(h);
                assert(s[i + 1] == s.drop_first()[i]);
                assert(node_prim_handles(s[i + 1]).contains(h));
            }
        }
        if exists|i: int| 0 <= i < s.len() && (#[trigger] node_prim_handles(s[i])).contains(h) {
            let i = choose|i: int|
                0 <= i < s.len() && (#[trigger] node_prim_handles(s[i])).contains(h);
            if i > 0 {
                assert(s.drop_first()[i - 1] == s[i]);
                assert(node_prim_handles(s.drop_first()[i - 1]).contains(h));
            }
        }
    }
}

/// `seq_handles_wf` is exactly: every member sound, and distinct members
/// hold disjoint handle sets.
pub proof fn lemma_seq_handles_wf_characterize(s: Seq<NodeView>)
    ensures
        seq_handles_wf(s) == ((forall|i: int|
            0 <= i < s.len() ==> node_handles_wf(#[trigger] s[i])) && (forall|i: int, j: int|
            0 <= i < s.len() && 0 <= j < s.len() && i != j ==> (#[trigger] node_prim_handles(
                s[i],
            )).disjoint(#[trigger] node_prim_handles(s[j])))),
    decreases s,
{
    if s.len() == 0 {
    } else {
        lemma_seq_handles_wf_characterize(s.drop_first());
        lemma_seq_sync_pointwise(s.drop_first());
        if seq_handles_wf(s) {
            assert forall|i: int| 0 <= i < s.len() implies node_handles_wf(#[trigger] s[i]) by {
                if i > 0 {
                    assert(s.drop_first()[i - 1] == s[i]);
                }
            }
            assert forall|i: int, j: int|
                0 <= i < s.len() && 0 <= j < s.len() && i != j implies (
            #[trigger] node_prim_handles(s[i])).disjoint(#[trigger] node_prim_handles(s[j])) by {
                if i > 0 && j > 0 {
                    assert(s.drop_first()[i - 1] == s[i]);
                    assert(s.drop_first()[j - 1] == s[j]);
                } else {
                    let c = if i == 0 {
                        j
                    } else {
                        i
                    };
                    assert(s.drop_first()[c - 1] == s[c]);
                    assert(node_prim_handles(s[c]).subset_of(seq_prim_handles(s.drop_first())));
                    assert forall|x: u32|
                        node_prim_handles(s[0]).contains(x) implies !node_prim_handles(
                        s[c],
                    ).contains(x) by {
                        assert(!seq_prim_handles(s.drop_first()).contains(x));
                    }
                    assert(node_prim_handles(s[i]).disjoint(node_prim_handles(s[j])));
                }
            }
        }
        if (forall|i: int| 0 <= i < s.len() ==> node_handles_wf(#[trigger] s[i])) && (forall|
            i: int,
            j: int,
        |
            0 <= i < s.len() && 0 <= j < s.len() && i != j ==> (#[trigger] node_prim_handles(
                s[i],
            )).disjoint(#[trigger] node_prim_handles(s[j]))) {
            assert forall|i: int| 0 <= i < s.drop_first().len() implies node_handles_wf(
                #[trigger] s.drop_first()[i],
            ) by {
                assert(s.drop_first()[i] == s[i + 1]);
            }
            assert forall|i: int, j: int|
                0 <= i < s.drop_first().len() && 0 <= j < s.drop_first().len() && i != j implies (
            #[trigger] node_prim_handles(s.drop_first()[i])).disjoint(
                #[trigger] node_prim_handles(s.drop_first()[j]),
            ) by {
                assert(s.drop_first()[i] == s[i + 1]);
                assert(s.drop_first()[j] == s[j + 1]);
            }
            assert(seq_handles_wf(s.drop_first()));
            assert(node_prim_handles(s[0]).disjoint(seq_prim_handles(s.drop_first()))) by {
                assert forall|x: u32|
                    node_prim_handles(s[0]).contains(x) implies !seq_prim_handles(
                    s.drop_first(),
                ).contains(x) by {
                    lemma_seq_prim_handles_exists(s.drop_first(), x);
                    if seq_prim_handles(s.drop_first()).contains(x) {
                        let k = choose|k: int|
                            0 <= k < s.drop_first().len() && (#[trigger] node_prim_handles(
                                s.drop_first()[k],
                            )).contains(x);
                        assert(s.drop_first()[k] == s[k + 1]);
                        assert(node_prim_handles(s[0]).disjoint(node_prim_handles(s[k + 1])));
                    }
                }
            }
            assert(seq_handles_wf(s));
        }
    }
}

/// `seq_same_shape` from pointwise `node_same_shape`.
pub proof fn lemma_seq_same_shape_pointwise(a: Seq<NodeView>, b: Seq<NodeView>)
    requires
        a.len() == b.len(),
        forall|i: int| 0 <= i < a.len() ==> node_same_shape(a[i], #[trigger] b[i]),
    ensures
        seq_same_shape(a, b),
    decreases a.len(),
{
    if a.len() > 0 {
        assert(node_same_shape(a[0], b[0]));
        assert forall|i: int|
            0 <= i < a.drop_first().len() implies node_same_shape(
            a.drop_first()[i],
            #[trigger] b.drop_first()[i],
        ) by {
            assert(a.drop_first()[i] == a[i + 1]);
            assert(b.drop_first()[i] == b[i + 1]);
        }
        lemma_seq_same_shape_pointwise(a.drop_first(), b.drop_first());
    }
}

/// Whether a command is one of the scene pass's upload forms: a buffer
/// creation carrying geometry, or the release of a replaced entry's
/// buffer.
pub open spec fn is_upload_command(c: GpuCommand) -> bool {
    ||| c is CreateVertexBuffer
    ||| c is CreateIndexBuffer
    ||| c is FreeBuffer
}

/// The shape of one frame's command stream: the clear pass, the scene
/// uploads, the camera uniform write, the mesh draw pass (absent when the
/// table is empty), then submit and present.
pub open spec fn frame_stream(
    color: Color,
    sync_cmds: Seq<GpuCommand>,
    p: MeshPipeline,
    view_proj: Mat4,
) -> Seq<GpuCommand> {
    seq![GpuCommand::BeginClearPass { color }, GpuCommand::EndPass] + sync_cmds + seq![
        GpuCommand::WriteUniform { buffer: p.camera_buffer_id(), view_proj },
    ] + (if p.entry_seq().len() == 0 {
        Seq::<GpuCommand>::empty()
    } else {
        seq![
            GpuCommand::BeginLoadPass,
            GpuCommand::SetPipeline { kind: PipelineKind::Mesh },
            GpuCommand::BindUniform { buffer: p.camera_buffer_id() },
        ] + draw_commands(p.entry_seq()) + seq![GpuCommand::EndPass]
    }) + seq![GpuCommand::Submit, GpuCommand::Present]
}

/// Drives one frame at a time: owns the pipeline registry and the buffer
/// name allocator, and tracks the viewport size.
pub struct Renderer {
    /// The per-kind pipeline registry.
    pub pipelines: PipelineStorage,
    /// Source of device buffer names.
    pub buffers: BufferIdAllocator,
    /// Viewport width in pixels.
    pub width: u32,
    /// Viewport height in pixels.
    pub height: u32,
}

impl Renderer {
    /// What a frame needs of the renderer and the scene: a sound registry
    /// with a well-formed mesh pipeline, room in the table for every
    /// pending upload, and a well-formed scene — node identifiers unique,
    /// resident handles live and pairwise distinct, pending geometry
    /// within the backend's draw-count range. `render` restores all of
    /// it, so consecutive frames compose.
    pub open spec fn frame_ok(&self, scene: Scene) -> bool {
        &&& mesh_ok(self.pipelines)
        &&& scene.tree.root@.wf()
        &&& mesh_of(self.pipelines).entry_seq().len() + node_dirty_count(scene.tree.root@)
            <= u32::MAX
        &&& node_prim_handles(scene.tree.root@).subset_of(mesh_of(self.pipelines).table().dom())
        &&& node_pending_ok(scene.tree.root@)
        &&& node_handles_wf(scene.tree.root@)
    }

    /// A renderer for a `width` by `height` viewport with the mesh
    /// pipeline registered; the returned commands create its camera
    /// uniform buffer.
    pub fn new(width: u32, height: u32) -> (r: (Renderer, Vec<GpuCommand>))
        ensures
            mesh_ok(r.0.pipelines),
            mesh_of(r.0.pipelines).table() == Map::<u32, MeshEntry>::empty(),
            mesh_of(r.0.pipelines).entry_seq() == Seq::<(u32, MeshEntry)>::empty(),
            mesh_of(r.0.pipelines).camera_buffer_id() == 0,
            r.0.buffers.counter() == 1,
            r.0.width == width,
            r.0.height == height,
            r.1@ == seq![GpuCommand::CreateUniformBuffer { buffer: 0, size: 64 }],
    {
        let mut cmds: Vec<GpuCommand> = Vec::new();
        let mut buffers = BufferIdAllocator::new();
        let mut pipelines = PipelineStorage::default();
        let mesh = MeshPipeline::new(&mut buffers, &mut cmds);
        pipelines.store(Pipeline::Mesh(mesh));
        (Renderer { pipelines, buffers, width, height }, cmds)
    }

    /// Adopts a new viewport size; a zero-area size is the minimized
    /// window and is ignored until a valid size arrives.
    pub fn resize(&mut self, width: u32, height: u32)
        ensures
            width > 0 && height > 0 ==> final(self).width == width && final(self).height == height
                && final(self).pipelines == old(self).pipelines && final(self).buffers == old(self).buffers,
            !(width > 0 && height > 0) ==> *final(self) == *old(self),
    {
        if width > 0 && height > 0 {
            self.width = width;
            self.height = height;
        }
    }

    /// Renders one frame: a clear pass to the scene's background color,
    /// the scene pass visiting every node in the breadth-first traversal
    /// order and uploading each pending primitive it meets, the camera
    /// uniform freshly recomputed for this frame, the mesh draw pass,
    /// then submit and present — in exactly that order. A zero-area
    /// viewport skips the frame entirely: no commands, nothing changed,
    /// safely retried next frame. When the backend can allocate every
    /// needed buffer, the frame leaves nothing pending: every primitive
    /// that held pending geometry ends with a live handle whose table
    /// entry indexes exactly that geometry, and earlier-visited nodes get
    /// earlier device buffers.
    pub fn render(&mut self, scene: &mut Scene, camera_view_proj: Mat4) -> (cmds: Vec<
        GpuCommand,
    >)
        requires
            old(self).frame_ok(*old(scene)),
        ensures
            final(self).width == old(self).width,
            final(self).height == old(self).height,
            final(scene).background_color == old(scene).background_color,
            old(self).width == 0 || old(self).height == 0 ==> cmds@ == Seq::<GpuCommand>::empty()
                && *final(self) == *old(self) && *final(scene) == *old(scene),
            old(self).width > 0 && old(self).height > 0 ==> ({
                let p0 = mesh_of(old(self).pipelines);
                let p1 = mesh_of(final(self).pipelines);
                let root0 = old(scene).tree.root@;
                let rootf = final(scene).tree.root@;
                &&& final(self).frame_ok(*final(scene))
                &&& p1.camera_buffer_id() == p0.camera_buffer_id()
                &&& node_same_shape(root0, rootf)
                &&& (old(self).buffers.can_alloc(2 * node_dirty_count(root0)) ==> {
                    &&& node_all_synced(rootf)
                    &&& (forall|x: u32|
                        (#[trigger] pending_at(root0, x)) matches Some(d) ==> (handle_at(
                            rootf,
                            x,
                        ) matches Some(h) && p1.table().contains_key(h)
                            && p1.table()[h].num_indices == d.indices.len() as u32))
                    &&& (forall|j1: int, j2: int|
                        #![trigger bfs_order(seq![root0])[j1], bfs_order(seq![root0])[j2]]
                        0 <= j1 < j2 < bfs_order(seq![root0]).len() && pending_at(
                            root0,
                            bfs_order(seq![root0])[j1],
                        ) is Some && pending_at(root0, bfs_order(seq![root0])[j2]) is Some
                            ==> p1.table()[handle_at(rootf, bfs_order(seq![root0])[j1])->Some_0].vertex_buffer
                            < p1.table()[handle_at(rootf, bfs_order(seq![root0])[j2])->Some_0].vertex_buffer)
                })
                &&& (exists|sync_cmds: Seq<GpuCommand>|
                    cmds@ == #[trigger] frame_stream(
                        old(scene).background_color,
                        sync_cmds,
                        p1,
                        camera_view_proj,
                    ) && (forall|i: int|
                        0 <= i < sync_cmds.len() ==> is_upload_command(#[trigger] sync_cmds[i])))
                &&& cmds@.len() >= 4
                &&& cmds@[0] == (GpuCommand::BeginClearPass {
                    color: old(scene).background_color,
                })
                &&& cmds@[1] == GpuCommand::EndPass
                &&& cmds@[cmds@.len() - 2] == GpuCommand::Submit
                &&& cmds@[cmds@.len() - 1] == GpuCommand::Present
            }),
    {
        if self.width == 0 || self.height == 0 {
            return Vec::new();
        }
        let ghost root0 = old(scene).tree.root@;
        let ghost p0 = mesh_of(self.pipelines);
        let ghost t0 = p0.table();
        let ghost b0 = old(self).buffers;
        let ghost dc0 = node_dirty_count(root0);
        // The scene pass visits nodes in the breadth-first traversal order.
        let mut it = scene.tree.into_iter();
        let mut order: Vec<u32> = Vec::new();
        proof {
            assert(it.order() == bfs_order(seq![root0]));
            assert(order@ =~= it.order().subrange(0, it.position()));
        }
        loop
            invariant
                it.order() == bfs_order(seq![root0]),
                0 <= it.position() <= it.order().len(),
                order@ == it.order().subrange(0, it.position()),
            ensures
                order@ == bfs_order(seq![root0]),
            decreases it.order().len() - it.position(),
        {
            match it.next() {
                Some(id) => {
                    order.push(id);
                    proof {
                        assert(order@ =~= it.order().subrange(0, it.position()));
                    }
                },
                None => {
                    proof {
                        assert(order@ =~= it.order());
                    }
                    break ;
                },
            }
        }
        let ghost order_seq = order@;
        proof {
            assert(seq![root0].drop_first() =~= Seq::<NodeView>::empty());
            assert(seq_wf(seq![root0].drop_first()));
            assert(seq_subtree_ids(seq![root0].drop_first()) =~= Set::empty());
            assert(seq_wf(seq![root0]));
            lemma_bfs_distinct(seq![root0]);
            assert forall|x: u32| #[trigger]
                order_seq.contains(x) == root0.contains_id(x) by {
                lemma_bfs_membership(seq![root0], x);
                assert(!seq_contains_id(seq![root0].drop_first(), x));
                assert(seq_contains_id(seq![root0], x) == root0.contains_id(x));
            }
            assert forall|j: int| 0 <= j < order_seq.len() implies root0.contains_id(
                #[trigger] order_seq[j],
            ) by {
                assert(order_seq.contains(order_seq[j]));
            }
            lemma_same_shape_refl(root0);
            assert forall|j: int| 0 <= j < order_seq.len() implies root0.find_node(
                #[trigger] order_seq[j],
            ) is Some by {
                lemma_find_node_some(root0, order_seq[j]);
            }
        }
        let mut cmds: Vec<GpuCommand> = Vec::new();
        // Background pass: clear to the scene's color.
        cmds.push(GpuCommand::BeginClearPass { color: scene.background_color });
        cmds.push(GpuCommand::EndPass);
        let ghost pre_sync = cmds@;
        // Scene pass: synchronize each node's primitive, in traversal
        // order.
        let mut k: usize = 0;
        while k < order.len()
            invariant
                k <= order.len(),
                order@ == order_seq,
                order_seq == bfs_order(seq![root0]),
                root0 == old(scene).tree.root@,
                p0 == mesh_of(old(self).pipelines),
                t0 == p0.table(),
                b0 == old(self).buffers,
                dc0 == node_dirty_count(root0),
                root0.wf(),
                node_handles_wf(root0),
                node_pending_ok(root0),
                node_prim_handles(root0).subset_of(t0.dom()),
                p0.entry_seq().len() + dc0 <= u32::MAX,
                forall|j1: int, j2: int|
                    0 <= j1 < j2 < order_seq.len() ==> #[trigger] order_seq[j1]
                        != #[trigger] order_seq[j2],
                forall|j: int| 0 <= j < order_seq.len() ==> root0.contains_id(
                    #[trigger] order_seq[j],
                ),
                self.width == old(self).width,
                self.height == old(self).height,
                scene.background_color == old(scene).background_color,
                mesh_ok(self.pipelines),
                self.pipelines@.dom() == old(self).pipelines@.dom(),
                mesh_of(self.pipelines).camera_buffer_id() == p0.camera_buffer_id(),
                scene.tree.root@.wf(),
                scene.tree.root@.subtree_ids() == root0.subtree_ids(),
                node_same_shape(root0, scene.tree.root@),
                node_pending_ok(scene.tree.root@),
                node_handles_wf(scene.tree.root@),
                node_prim_handles(scene.tree.root@).subset_of(
                    mesh_of(self.pipelines).table().dom(),
                ),
                forall|h: u32| #[trigger]
                    node_prim_handles(scene.tree.root@).contains(h) ==> node_prim_handles(
                        root0,
                    ).contains(h) || !t0.contains_key(h),
                forall|x: u32|
                    #[trigger] t0.contains_key(x) && !node_prim_handles(root0).contains(x)
                        ==> mesh_of(self.pipelines).table().contains_key(x) && mesh_of(
                        self.pipelines,
                    ).table()[x] == t0[x],
                self.buffers.counter() + 2 * node_dirty_count(scene.tree.root@) == b0.counter()
                    + 2 * dc0,
                mesh_of(self.pipelines).entry_seq().len() + node_dirty_count(
                    scene.tree.root@,
                ) <= p0.entry_seq().len() + dc0,
                cmds@.len() >= 2,
                cmds@.subrange(0, 2) == pre_sync,
                forall|i: int| 2 <= i < cmds@.len() ==> is_upload_command(#[trigger] cmds@[i]),
                pre_sync.len() == 2,
                pre_sync[0] == (GpuCommand::BeginClearPass {
                    color: old(scene).background_color,
                }),
                pre_sync[1] == GpuCommand::EndPass,
                b0.can_alloc(2 * dc0) ==> forall|j: int|
                    0 <= j < k ==> visited_synced(
                        root0,
                        scene.tree.root@,
                        mesh_of(self.pipelines).table(),
                        self.buffers.counter(),
                        #[trigger] order_seq[j],
                    ),
                b0.can_alloc(2 * dc0) ==> forall|j1: int, j2: int|
                    #![trigger order_seq[j1], order_seq[j2]]
                    0 <= j1 < j2 < k && pending_at(root0, order_seq[j1]) is Some && pending_at(
                        root0,
                        order_seq[j2],
                    ) is Some ==> mesh_of(self.pipelines).table()[handle_at(
                        scene.tree.root@,
                        order_seq[j1],
                    )->Some_0].vertex_buffer < mesh_of(self.pipelines).table()[handle_at(
                        scene.tree.root@,
                        order_seq[j2],
                    )->Some_0].vertex_buffer,
                forall|j: int|
                    k <= j < order_seq.len() ==> (scene.tree.root@.find_node(
                        #[trigger] order_seq[j],
                    ) is Some && root0.find_node(order_seq[j]) is Some && scene.tree.root@.find_node(
                        order_seq[j],
                    )->Some_0.primitive == root0.find_node(order_seq[j])->Some_0.primitive),
            decreases order.len() - k,
        {
            let id = order[k];
            let ghost cur_pre = scene.tree.root@;
            let ghost p_pre = mesh_of(self.pipelines);
            let ghost t_pre = p_pre.table();
            let ghost b_pre = self.buffers;
            let ghost cmds_pre = cmds@;
            proof {
                assert(root0.contains_id(id));
                lemma_contains_iff_subtree_ids(root0, id);
                lemma_contains_iff_subtree_ids(cur_pre, id);
                assert(cur_pre.contains_id(id));
            }
            let found = sync_node_by_id(
                &mut scene.tree.root,
                id,
                &mut self.pipelines,
                &mut self.buffers,
                &mut cmds,
            );
            proof {
                assert(found);
                let cur = scene.tree.root@;
                let p_cur = mesh_of(self.pipelines);
                let t_cur = p_cur.table();
                let t_target = cur_pre.find_node(id)->Some_0;
                assert(cmds@.subrange(0, 2) =~= pre_sync) by {
                    assert(cmds_pre.subrange(0, 2) == pre_sync);
                    assert(cmds@.subrange(0, cmds_pre.len() as int) == cmds_pre);
                    assert(cmds@.subrange(0, 2) =~= cmds_pre.subrange(0, 2));
                }
                assert forall|i: int| 2 <= i < cmds@.len() implies is_upload_command(
                    #[trigger] cmds@[i],
                ) by {
                    if i < cmds_pre.len() {
                        assert(cmds@[i] == cmds@.subrange(0, cmds_pre.len() as int)[i]);
                        assert(cmds@[i] == cmds_pre[i]);
                    }
                }
                // Identifier facts at this step.
                assert(root0.find_node(id) is Some && cur_pre.find_node(id) is Some
                    && cur_pre.find_node(id)->Some_0.primitive == root0.find_node(
                    id,
                )->Some_0.primitive) by {
                    assert(order_seq[k as int] == id);
                }
                match t_target.primitive {
                    None => {
                        assert(cur == cur_pre);
                    },
                    Some(pr) => {
                        match pr.dirty_data {
                            None => {
                                assert(cur == cur_pre);
                            },
                            Some(d) => {
                                if b_pre.can_alloc(2) {
                                    let pn = cur.find_node(id)->Some_0.primitive->Some_0;
                                    let h = pn.data_id->Some_0;
                                    assert(cur == cur_pre.with_primitive_at(id, Some(pn)));
                                    lemma_with_primitive_at_preserves(cur_pre, id, Some(pn));
                                    assert(cur.wf());
                                    assert(cur.subtree_ids() == root0.subtree_ids());
                                    assert(node_same_shape(root0, cur)) by {
                                        lemma_with_primitive_at_same_shape(
                                            cur_pre,
                                            id,
                                            Some(pn),
                                        );
                                        lemma_same_shape_trans(root0, cur_pre, cur);
                                    }
                                    // Outsiders of the whole frame survive
                                    // this step.
                                    assert forall|x: u32|
                                        #[trigger] t0.contains_key(x) && !node_prim_handles(
                                            root0,
                                        ).contains(x) implies t_cur.contains_key(x) && t_cur[x]
                                        == t0[x] by {
                                        assert(t_pre.contains_key(x) && t_pre[x] == t0[x]);
                                        assert(x != h);
                                        match pr.data_id {
                                            Some(oh) => {
                                                lemma_find_handle_in(cur_pre, id);
                                                assert(node_prim_handles(cur_pre).contains(oh));
                                                if x == oh {
                                                    assert(node_prim_handles(root0).contains(oh)
                                                        || !t0.contains_key(oh));
                                                    assert(false);
                                                }
                                            },
                                            None => {},
                                        }
                                    }
                                    // Accumulated novelty.
                                    assert forall|h2: u32| #[trigger]
                                        node_prim_handles(cur).contains(h2) implies
                                        node_prim_handles(root0).contains(h2)
                                        || !t0.contains_key(h2) by {
                                        if node_prim_handles(cur_pre).contains(h2) {
                                        } else {
                                            assert(!t_pre.contains_key(h2));
                                            if t0.contains_key(h2) && !node_prim_handles(
                                                root0,
                                            ).contains(h2) {
                                                assert(t_pre.contains_key(h2));
                                            }
                                        }
                                    }
                                } else {
                                    assert(cur == cur_pre);
                                }
                            },
                        }
                    },
                }
                // Conditional guarantees, under the frame budget.
                if b0.can_alloc(2 * dc0) {
                    // A dirty target can always allocate at this point.
                    if t_target.primitive matches Some(pr) && pr.dirty_data is Some {
                        assert(b_pre.can_alloc(2)) by {
                            lemma_dirty_count_lower(cur_pre, id);
                            assert(b_pre.counter() + 2 * node_dirty_count(cur_pre)
                                == b0.counter() + 2 * dc0);
                            assert(node_dirty_count(cur_pre) >= 1);
                        }
                    }
                    // The target is settled.
                    assert(visited_synced(root0, cur, t_cur, self.buffers.counter(), id)) by {
                        match t_target.primitive {
                            None => {
                                assert(pending_at(root0, id) is None);
                            },
                            Some(pr) => {
                                match pr.dirty_data {
                                    None => {
                                        assert(pending_at(root0, id) is None);
                                    },
                                    Some(d) => {
                                        let pn = cur.find_node(id)->Some_0.primitive->Some_0;
                                        assert(pending_at(root0, id) == Some(d));
                                        assert(handle_at(cur, id) == pn.data_id);
                                    },
                                }
                            },
                        }
                    }
                    // Earlier targets stay settled.
                    assert forall|j: int| 0 <= j < k + 1 implies visited_synced(
                        root0,
                        cur,
                        t_cur,
                        self.buffers.counter(),
                        #[trigger] order_seq[j],
                    ) by {
                        if j < k {
                            let x = order_seq[j];
                            assert(x != id);
                            assert(root0.contains_id(x));
                            lemma_contains_iff_subtree_ids(root0, x);
                            lemma_contains_iff_subtree_ids(cur_pre, x);
                            assert(visited_synced(root0, cur_pre, t_pre, b_pre.counter(), x));
                            match t_target.primitive {
                                None => {},
                                Some(pr) => {
                                    match pr.dirty_data {
                                        None => {},
                                        Some(d) => {
                                            let pn = cur.find_node(
                                                id,
                                            )->Some_0.primitive->Some_0;
                                            let h = pn.data_id->Some_0;
                                            lemma_with_primitive_at_exact(
                                                cur_pre,
                                                id,
                                                Some(pn),
                                                x,
                                            );
                                            if pending_at(root0, x) is Some {
                                                let hx = handle_at(cur_pre, x)->Some_0;
                                                assert(t_pre.contains_key(hx));
                                                assert(hx != h);
                                                match pr.data_id {
                                                    Some(oh) => {
                                                        lemma_find_handles_distinct(
                                                            cur_pre,
                                                            x,
                                                            id,
                                                        );
                                                        assert(hx != oh);
                                                    },
                                                    None => {},
                                                }
                                                assert(t_cur.contains_key(hx) && t_cur[hx]
                                                    == t_pre[hx]);
                                            }
                                        },
                                    }
                                },
                            }
                        }
                    }
                    // Earlier uploads keep earlier buffers.
                    assert forall|j1: int, j2: int|
                        #![trigger order_seq[j1], order_seq[j2]]
                        0 <= j1 < j2 < k + 1 && pending_at(root0, order_seq[j1]) is Some
                            && pending_at(root0, order_seq[j2]) is Some implies t_cur[handle_at(
                        cur,
                        order_seq[j1],
                    )->Some_0].vertex_buffer < t_cur[handle_at(
                        cur,
                        order_seq[j2],
                    )->Some_0].vertex_buffer by {
                        let x1 = order_seq[j1];
                        let x2 = order_seq[j2];
                        assert(visited_synced(root0, cur, t_cur, self.buffers.counter(), x1));
                        assert(visited_synced(root0, cur, t_cur, self.buffers.counter(), x2));
                        if j2 < k {
                            // Both settled before this step; the step kept
                            // their handles and entries.
                            assert(visited_synced(root0, cur_pre, t_pre, b_pre.counter(), x1));
                            assert(visited_synced(root0, cur_pre, t_pre, b_pre.counter(), x2));
                            assert(x1 != id && x2 != id);
                            lemma_contains_iff_subtree_ids(root0, x1);
                            lemma_contains_iff_subtree_ids(root0, x2);
                            lemma_contains_iff_subtree_ids(cur_pre, x1);
                            lemma_contains_iff_subtree_ids(cur_pre, x2);
                            match t_target.primitive {
                                None => {},
                                Some(pr) => {
                                    match pr.dirty_data {
                                        None => {},
                                        Some(d) => {
                                            let pn = cur.find_node(
                                                id,
                                            )->Some_0.primitive->Some_0;
                                            let h = pn.data_id->Some_0;
                                            lemma_with_primitive_at_exact(
                                                cur_pre,
                                                id,
                                                Some(pn),
                                                x1,
                                            );
                                            lemma_with_primitive_at_exact(
                                                cur_pre,
                                                id,
                                                Some(pn),
                                                x2,
                                            );
                                            let h1 = handle_at(cur_pre, x1)->Some_0;
                                            let h2 = handle_at(cur_pre, x2)->Some_0;
                                            assert(t_pre.contains_key(h1));
                                            assert(t_pre.contains_key(h2));
                                            assert(h1 != h && h2 != h);
                                            match pr.data_id {
                                                Some(oh) => {
                                                    lemma_find_handles_distinct(
                                                        cur_pre,
                                                        x1,
                                                        id,
                                                    );
                                                    lemma_find_handles_distinct(
                                                        cur_pre,
                                                        x2,
                                                        id,
                                                    );
                                                    assert(h1 != oh && h2 != oh);
                                                },
                                                None => {},
                                            }
                                            assert(t_cur[h1] == t_pre[h1]);
                                            assert(t_cur[h2] == t_pre[h2]);
                                        },
                                    }
                                },
                            }
                        } else {
                            // The new upload's buffer came after every
                            // earlier one, whose entries the step kept.
                            assert(x2 == id);
                            assert(visited_synced(root0, cur_pre, t_pre, b_pre.counter(), x1));
                            assert(x1 != id);
                            lemma_contains_iff_subtree_ids(root0, x1);
                            lemma_contains_iff_subtree_ids(cur_pre, x1);
                            match t_target.primitive {
                                None => {
                                    assert(pending_at(root0, id) is None);
                                },
                                Some(pr) => {
                                    match pr.dirty_data {
                                        None => {
                                            assert(pending_at(root0, id) is None);
                                        },
                                        Some(d) => {
                                            let pn = cur.find_node(
                                                id,
                                            )->Some_0.primitive->Some_0;
                                            let h = pn.data_id->Some_0;
                                            lemma_with_primitive_at_exact(
                                                cur_pre,
                                                id,
                                                Some(pn),
                                                x1,
                                            );
                                            let h1 = handle_at(cur_pre, x1)->Some_0;
                                            assert(t_pre.contains_key(h1));
                                            assert(h1 != h);
                                            match pr.data_id {
                                                Some(oh) => {
                                                    lemma_find_handles_distinct(
                                                        cur_pre,
                                                        x1,
                                                        id,
                                                    );
                                                    assert(h1 != oh);
                                                },
                                                None => {},
                                            }
                                            assert(t_cur[h1] == t_pre[h1]);
                                            assert(t_cur.contains_key(h1));
                                            assert(handle_at(cur, x1) == handle_at(
                                                cur_pre,
                                                x1,
                                            ));
                                            assert(t_cur[h].vertex_buffer == b_pre.counter());
                                            assert(t_pre[h1].vertex_buffer < b_pre.counter());
                                        },
                                    }
                                },
                            }
                        }
                    }
                }
                // Unprocessed targets keep their primitives.
                assert forall|j: int|
                    k + 1 <= j < order_seq.len() implies (cur.find_node(
                    #[trigger] order_seq[j],
                ) is Some && root0.find_node(order_seq[j]) is Some && cur.find_node(
                    order_seq[j],
                )->Some_0.primitive == root0.find_node(order_seq[j])->Some_0.primitive) by {
                    let x = order_seq[j];
                    assert(x != id);
                    assert(root0.contains_id(x));
                    lemma_contains_iff_subtree_ids(root0, x);
                    lemma_contains_iff_subtree_ids(cur_pre, x);
                    match t_target.primitive {
                        None => {},
                        Some(pr) => {
                            match pr.dirty_data {
                                None => {},
                                Some(d) => {
                                    if b_pre.can_alloc(2) {
                                        let pn = cur.find_node(id)->Some_0.primitive->Some_0;
                                        lemma_with_primitive_at_exact(cur_pre, id, Some(pn), x);
                                    }
                                },
                            }
                        },
                    }
                    lemma_contains_iff_subtree_ids(cur, x);
                    assert(cur.contains_id(x));
                    lemma_find_node_some(cur, x);
                    lemma_find_node_some(root0, x);
                }
            }
            k = k + 1;
        }
        let ghost after_order = order@;
        let ghost sync_cmds = cmds@.subrange(2, cmds@.len() as int);
        proof {
            assert(cmds@ =~= pre_sync + sync_cmds);
            assert forall|i: int| 0 <= i < sync_cmds.len() implies is_upload_command(
                #[trigger] sync_cmds[i],
            ) by {
                assert(sync_cmds[i] == cmds@[i + 2]);
            }
        }
        let ghost p1_mid = mesh_of(self.pipelines);
        let ghost storage_after_sync = self.pipelines@;
        // Pipeline flush: fresh camera uniform, then the draw pass.
        match self.pipelines.get_mut(PipelineKind::Mesh) {
            Some(p) => {
                match p {
                    Pipeline::Mesh(mp) => {
                        mp.update(camera_view_proj, &mut cmds);
                        mp.draw(&mut cmds);
                        proof {
                            assert(storage_after_sync.insert(
                                PipelineKind::Mesh,
                                Pipeline::Mesh(*mp),
                            ) =~= storage_after_sync);
                        }
                    },
                }
            },
            None => {
                proof {
                    assert(false);
                }
            },
        }
        cmds.push(GpuCommand::Submit);
        cmds.push(GpuCommand::Present);
        proof {
            let cur = scene.tree.root@;
            let t1 = mesh_of(self.pipelines).table();
            assert(cmds@ =~= frame_stream(
                old(scene).background_color,
                sync_cmds,
                p1_mid,
                camera_view_proj,
            ));
            assert(cmds@[0] == (GpuCommand::BeginClearPass {
                color: old(scene).background_color,
            }));
            assert(cmds@[1] == GpuCommand::EndPass);
            assert(cmds@[cmds@.len() - 2] == GpuCommand::Submit);
            assert(cmds@[cmds@.len() - 1] == GpuCommand::Present);
            if b0.can_alloc(2 * dc0) {
                assert forall|x: u32| #[trigger] cur.contains_id(x) implies (cur.find_node(
                    x,
                )->Some_0.primitive matches Some(pr) ==> pr.dirty_data is None) by {
                    lemma_contains_iff_subtree_ids(cur, x);
                    lemma_contains_iff_subtree_ids(root0, x);
                    assert(root0.contains_id(x));
                    lemma_find_node_some(cur, x);
                    assert(order_seq.contains(x));
                    let j = choose|j: int| 0 <= j < order_seq.len() && order_seq[j] == x;
                    assert(order_seq[j] == x);
                    assert(visited_synced(root0, cur, t1, self.buffers.counter(), x));
                }
                lemma_pointwise_synced(cur);
                assert forall|x: u32|
                    (#[trigger] pending_at(root0, x)) is Some implies (handle_at(cur, x) is Some
                        && t1.contains_key(handle_at(cur, x)->Some_0) && t1[handle_at(
                        cur,
                        x,
                    )->Some_0].num_indices == pending_at(root0, x)->Some_0.indices.len()
                        as u32) by {
                    assert(root0.contains_id(x)) by {
                        if !root0.contains_id(x) {
                            lemma_find_node_none(root0, x);
                        }
                    }
                    assert(order_seq.contains(x));
                    let j = choose|j: int| 0 <= j < order_seq.len() && order_seq[j] == x;
                    assert(visited_synced(root0, cur, t1, self.buffers.counter(), x));
                }
            }
        }
        cmds
    }
}

/// Shape-sameness is reflexive.
pub proof fn lemma_same_shape_refl(v: NodeView)
    ensures
        node_same_shape(v, v),
    decreases v,
{
    assert forall|i: int| 0 <= i < v.children.len() implies node_same_shape(
        v.children[i],
        #[trigger] v.children[i],
    ) by {
        lemma_same_shape_refl(v.children[i]);
    }
    lemma_seq_same_shape_pointwise(v.children, v.children);
}

/// Shape-sameness chains.
pub proof fn lemma_same_shape_trans(a: NodeView, b: NodeView, c: NodeView)
    requires
        node_same_shape(a, b),
        node_same_shape(b, c),
    ensures
        node_same_shape(a, c),
    decreases a,
{
    lemma_seq_same_shape_trans(a.children, b.children, c.children);
}

/// Sequence form of [`lemma_same_shape_trans`].
pub proof fn lemma_seq_same_shape_trans(a: Seq<NodeView>, b: Seq<NodeView>, c: Seq<NodeView>)
    requires
        seq_same_shape(a, b),
        seq_same_shape(b, c),
    ensures
        seq_same_shape(a, c),
    decreases a,
{
    if a.len() > 0 {
        lemma_same_shape_trans(a[0], b[0], c[0]);
        lemma_seq_same_shape_trans(a.drop_first(), b.drop_first(), c.drop_first());
    }
}

/// Rewriting a primitive slot keeps the tree's shape, as long as the new
/// slot is occupied exactly when the old one was.
pub proof fn lemma_with_primitive_at_same_shape(v: NodeView, id: u32, p: Option<PrimitiveView>)
    requires
        v.contains_id(id) ==> ((v.find_node(id)->Some_0.primitive is Some) == (p is Some)),
    ensures
        node_same_shape(v, v.with_primitive_at(id, p)),
    decreases v,
{
    let w = v.with_primitive_at(id, p);
    if v.id == id {
        assert(v.find_node(id) == Some(v));
        lemma_same_shape_refl(v);
        assert(seq_same_shape(v.children, w.children));
    } else if seq_contains_id(v.children, id) {
        lemma_seq_first_index_containing(v.children, id);
        let k = seq_first_index_containing(v.children, id);
        lemma_seq_with_primitive_at_pointwise(v.children, id, p);
        lemma_seq_find_node(v.children, id);
        assert(v.find_node(id) == v.children[k].find_node(id));
        assert forall|i: int| 0 <= i < v.children.len() implies node_same_shape(
            v.children[i],
            #[trigger] w.children[i],
        ) by {
            if i == k {
                lemma_with_primitive_at_same_shape(v.children[k], id, p);
            } else {
                lemma_same_shape_refl(v.children[i]);
            }
        }
        lemma_seq_same_shape_pointwise(v.children, w.children);
    } else {
        lemma_same_shape_refl(v);
    }
}

/// A tree that does not contain an identifier finds nothing under it.
pub proof fn lemma_find_node_none(v: NodeView, x: u32)
    requires
        !v.contains_id(x),
    ensures
        v.find_node(x) is None,
{
    lemma_seq_first_index_containing(v.children, x);
    lemma_seq_find_node(v.children, x);
}

/// Each subtree counts toward the total dirty count.
pub proof fn lemma_seq_dirty_count_element(s: Seq<NodeView>, i: int)
    requires
        0 <= i < s.len(),
    ensures
        node_dirty_count(s[i]) <= seq_dirty_count(s),
    decreases s,
{
    if i > 0 {
        lemma_seq_dirty_count_element(s.drop_first(), i - 1);
        assert(s[i] == s.drop_first()[i - 1]);
    }
}

/// A node holding pending geometry makes the subtree's dirty count
/// positive.
pub proof fn lemma_dirty_count_lower(v: NodeView, x: u32)
    requires
        v.contains_id(x),
        v.find_node(x)->Some_0.primitive matches Some(pr) && pr.dirty_data is Some,
    ensures
        node_dirty_count(v) >= 1,
    decreases v,
{
    if v.id == x {
        assert(v.find_node(x) == Some(v));
    } else {
        lemma_seq_first_index_containing(v.children, x);
        let k = seq_first_index_containing(v.children, x);
        lemma_seq_find_node(v.children, x);
        assert(v.find_node(x) == v.children[k].find_node(x));
        lemma_dirty_count_lower(v.children[k], x);
        lemma_seq_dirty_count_element(v.children, k);
    }
}

/// The contribution of one primitive slot to the dirty count.
pub open spec fn prim_dirty_contrib(p: Option<PrimitiveView>) -> nat {
    match p {
        Some(pr) => if pr.dirty_data is Some {
            1nat
        } else {
            0nat
        },
        None => 0nat,
    }
}

/// Replacing one element moves the sequence's dirty count by the
/// difference of the two elements' counts.
pub proof fn lemma_seq_dirty_count_update(s: Seq<NodeView>, i: int, c: NodeView)
    requires
        0 <= i < s.len(),
    ensures
        seq_dirty_count(s.update(i, c)) + node_dirty_count(s[i]) == seq_dirty_count(s)
            + node_dirty_count(c),
    decreases s,
{
    if i == 0 {
        assert(s.update(0, c)[0] == c);
        assert(s.update(0, c).drop_first() =~= s.drop_first());
    } else {
        assert(s.update(i, c)[0] == s[0]);
        assert(s.update(i, c).drop_first() =~= s.drop_first().update(i - 1, c));
        assert(s.drop_first()[i - 1] == s[i]);
        lemma_seq_dirty_count_update(s.drop_first(), i - 1, c);
    }
}

/// When every node's own primitive has nothing pending — read through
/// `find_node` over the tree's identifiers — the whole tree is synced.
pub proof fn lemma_pointwise_synced(v: NodeView)
    requires
        v.wf(),
        forall|x: u32| #[trigger] v.contains_id(x) ==> (v.find_node(x)->Some_0.primitive
            matches Some(pr) ==> pr.dirty_data is None),
    ensures
        node_all_synced(v),
    decreases v,
{
    assert(v.contains_id(v.id));
    assert(v.find_node(v.id) == Some(v));
    assert forall|i: int| 0 <= i < v.children.len() implies node_all_synced(
        #[trigger] v.children[i],
    ) by {
        lemma_seq_wf_element(v.children, i);
        assert forall|y: u32| #[trigger] v.children[i].contains_id(y) implies (v.children[
        i].find_node(y)->Some_0.primitive matches Some(pr) ==> pr.dirty_data is None) by {
            lemma_contains_iff_subtree_ids(v.children[i], y);
            crate::object::lemma_seq_subtree_ids_element(v.children, i);
            crate::object::lemma_seq_contains_iff_subtree_ids(v.children, y);
            assert(v.contains_id(y));
            assert(y != v.id) by {
                if y == v.id {
                    assert(seq_subtree_ids(v.children).contains(v.id));
                }
            }
            lemma_seq_wf_unique_container(v.children, y, i);
            lemma_seq_find_node(v.children, y);
            assert(v.find_node(y) == v.children[i].find_node(y));
        }
        lemma_pointwise_synced(v.children[i]);
    }
    lemma_seq_sync_pointwise(v.children);
}

/// A node's resident handle belongs to the subtree's handle set.
pub proof fn lemma_find_handle_in(v: NodeView, x: u32)
    requires
        v.contains_id(x),
        v.find_node(x)->Some_0.primitive matches Some(pr) && pr.data_id is Some,
    ensures
        node_prim_handles(v).contains(
            v.find_node(x)->Some_0.primitive->Some_0.data_id->Some_0,
        ),
    decreases v,
{
    if v.id == x {
        assert(v.find_node(x) == Some(v));
    } else {
        lemma_seq_first_index_containing(v.children, x);
        let k = seq_first_index_containing(v.children, x);
        lemma_seq_find_node(v.children, x);
        assert(v.find_node(x) == v.children[k].find_node(x));
        lemma_find_handle_in(v.children[k], x);
        lemma_seq_sync_pointwise(v.children);
        assert(node_prim_handles(v.children[k]).subset_of(seq_prim_handles(v.children)));
    }
}

/// Distinct nodes of a handle-sound tree never share a resident handle.
pub proof fn lemma_find_handles_distinct(v: NodeView, x: u32, y: u32)
    requires
        v.wf(),
        node_handles_wf(v),
        v.contains_id(x),
        v.contains_id(y),
        x != y,
        v.find_node(x)->Some_0.primitive matches Some(px) && px.data_id is Some,
        v.find_node(y)->Some_0.primitive matches Some(py) && py.data_id is Some,
    ensures
        v.find_node(x)->Some_0.primitive->Some_0.data_id->Some_0 != v.find_node(
            y,
        )->Some_0.primitive->Some_0.data_id->Some_0,
    decreases v,
{
    let hx = v.find_node(x)->Some_0.primitive->Some_0.data_id->Some_0;
    let hy = v.find_node(y)->Some_0.primitive->Some_0.data_id->Some_0;
    lemma_seq_handles_wf_characterize(v.children);
    if v.id == x || v.id == y {
        // One of the two is this node itself; the other sits in a child
        // subtree, whose handle set is disjoint from the node's own.
        let (own, other) = if v.id == x {
            (x, y)
        } else {
            (y, x)
        };
        assert(v.find_node(own) == Some(v));
        assert(other != v.id);
        lemma_seq_first_index_containing(v.children, other);
        let k = seq_first_index_containing(v.children, other);
        lemma_seq_find_node(v.children, other);
        assert(v.find_node(other) == v.children[k].find_node(other));
        lemma_find_handle_in(v.children[k], other);
        lemma_seq_sync_pointwise(v.children);
        assert(node_prim_handles(v.children[k]).subset_of(seq_prim_handles(v.children)));
        let ho = v.find_node(other)->Some_0.primitive->Some_0.data_id->Some_0;
        assert(seq_prim_handles(v.children).contains(ho));
        assert(own_handle(v).contains(v.primitive->Some_0.data_id->Some_0));
        assert(own_handle(v).disjoint(seq_prim_handles(v.children)));
    } else {
        lemma_seq_first_index_containing(v.children, x);
        lemma_seq_first_index_containing(v.children, y);
        let kx = seq_first_index_containing(v.children, x);
        let ky = seq_first_index_containing(v.children, y);
        lemma_seq_find_node(v.children, x);
        lemma_seq_find_node(v.children, y);
        assert(v.find_node(x) == v.children[kx].find_node(x));
        assert(v.find_node(y) == v.children[ky].find_node(y));
        if kx == ky {
            lemma_seq_wf_element(v.children, kx);
            lemma_find_handles_distinct(v.children[kx], x, y);
        } else {
            lemma_find_handle_in(v.children[kx], x);
            lemma_find_handle_in(v.children[ky], y);
            assert(node_prim_handles(v.children[kx]).disjoint(node_prim_handles(
                v.children[ky],
            )));
        }
    }
}

/// The pending payload staged on `x`'s node, if its primitive holds one.
pub open spec fn pending_at(v: NodeView, x: u32) -> Option<MeshDataView> {
    match v.find_node(x) {
        Some(nd) => match nd.primitive {
            Some(pr) => pr.dirty_data,
            None => None,
        },
        None => None,
    }
}

/// What the scene pass has settled for a visited identifier: nothing is
/// left pending on its node, and — if the frame began with geometry
/// pending there — the node holds a live handle whose table entry indexes
/// exactly that geometry, in a device buffer created before `next_vb`.
pub open spec fn visited_synced(
    root0: NodeView,
    cur: NodeView,
    t: Map<u32, MeshEntry>,
    next_vb: u64,
    x: u32,
) -> bool {
    &&& (cur.find_node(x) matches Some(nd) ==> (nd.primitive matches Some(pr)
        ==> pr.dirty_data is None))
    &&& (pending_at(root0, x) matches Some(d) ==> (handle_at(cur, x) matches Some(h)
        && t.contains_key(h) && t[h].num_indices == d.indices.len() as u32
        && t[h].vertex_buffer < next_vb))
}

/// The resident resource handle of `x`'s node, if its primitive holds one.
pub open spec fn handle_at(v: NodeView, x: u32) -> Option<u32> {
    match v.find_node(x) {
        Some(nd) => match nd.primitive {
            Some(pr) => pr.data_id,
            None => None,
        },
        None => None,
    }
}

/// One step of the scene-synchronization pass: synchronizes the primitive
/// of the node carrying `id` (the first carrier, in depth-first child
/// order) against the mesh pipeline, touching no other node. A dirty
/// primitive uploads its pending geometry under a fresh handle — the
/// buffer creations, then the frees of the replaced entry, are appended
/// to `cmds` — unless the backend cannot allocate the buffer pair, in
/// which case nothing at all changes and the data stays pending.
fn sync_node_by_id(
    n: &mut Node,
    id: u32,
    storage: &mut PipelineStorage,
    buffers: &mut BufferIdAllocator,
    cmds: &mut Vec<GpuCommand>,
) -> (found: bool)
    requires
        mesh_ok(*old(storage)),
        mesh_of(*old(storage)).entry_seq().len() + node_dirty_count(old(n)@) <= u32::MAX,
        node_prim_handles(old(n)@).subset_of(mesh_of(*old(storage)).table().dom()),
        node_pending_ok(old(n)@),
        node_handles_wf(old(n)@),
    ensures
        found == old(n)@.contains_id(id),
        mesh_ok(*final(storage)),
        final(storage)@.dom() == old(storage)@.dom(),
        mesh_of(*final(storage)).camera_buffer_id() == mesh_of(*old(storage)).camera_buffer_id(),
        final(cmds)@.len() >= old(cmds)@.len(),
        final(cmds)@.subrange(0, old(cmds)@.len() as int) == old(cmds)@,
        node_pending_ok(final(n)@),
        node_handles_wf(final(n)@),
        node_prim_handles(final(n)@).subset_of(mesh_of(*final(storage)).table().dom()),
        (forall|h: u32| #[trigger]
            node_prim_handles(final(n)@).contains(h) ==> node_prim_handles(old(n)@).contains(h)
                || !mesh_of(*old(storage)).table().contains_key(h)),
        mesh_of(*final(storage)).entry_seq().len() + node_dirty_count(final(n)@) <= mesh_of(
            *old(storage),
        ).entry_seq().len() + node_dirty_count(old(n)@),
        !found ==> final(n)@ == old(n)@ && *final(storage) == *old(storage) && *final(buffers)
            == *old(buffers) && final(cmds)@ == old(cmds)@,
        found ==> ({
            let p0 = mesh_of(*old(storage));
            let p1 = mesh_of(*final(storage));
            let t = old(n)@.find_node(id)->Some_0;
            &&& old(n)@.find_node(id) is Some
            &&& (match t.primitive {
                None => final(n)@ == old(n)@ && *final(storage) == *old(storage) && *final(buffers) == *old(buffers) && final(cmds)@ == old(cmds)@,
                Some(pr) => (match pr.dirty_data {
                    None => final(n)@ == old(n)@ && *final(storage) == *old(storage) && *final(buffers) == *old(buffers) && final(cmds)@ == old(cmds)@,
                    Some(d) => {
                        &&& (!old(buffers).can_alloc(2) ==> final(n)@ == old(n)@ && *final(storage) == *old(storage) && *final(buffers) == *old(buffers) && final(cmds)@
                            == old(cmds)@)
                        &&& (old(buffers).can_alloc(2) ==> {
                            let e = MeshEntry {
                                vertex_buffer: old(buffers).counter(),
                                index_buffer: (old(buffers).counter() + 1) as u64,
                                num_indices: d.indices.len() as u32,
                            };
                            &&& final(n)@.find_node(id) is Some
                            &&& (final(n)@.find_node(id)->Some_0.primitive matches Some(pn)
                                && pn.dirty_data is None && (pn.data_id matches Some(h)
                                && !p0.table().contains_key(h) && final(n)@ == old(n)@.with_primitive_at(id, Some(pn)) && p1.table().contains_key(h)
                                && p1.table()[h] == e && (match pr.data_id {
                                Some(oh) => h != oh && p1.table() == p0.table().insert(
                                    h,
                                    e,
                                ).remove(oh),
                                None => p1.table() == p0.table().insert(h, e),
                            })))
                            &&& final(buffers).counter() == old(buffers).counter() + 2
                            &&& node_dirty_count(final(n)@) + 1 == node_dirty_count(old(n)@)
                            &&& (match pr.data_id {
                                Some(oh) => {
                                    let e_old = p0.table()[oh];
                                    &&& final(cmds)@.len() == old(cmds)@.len() + 4
                                    &&& (final(cmds)@[old(cmds)@.len() as int]
                                        matches GpuCommand::CreateVertexBuffer {
                                        buffer,
                                        vertices,
                                    } && buffer == e.vertex_buffer && vertices@ == d.vertices)
                                    &&& (final(cmds)@[old(cmds)@.len() + 1 as int]
                                        matches GpuCommand::CreateIndexBuffer { buffer, indices }
                                        && buffer == e.index_buffer && indices@ == d.indices)
                                    &&& final(cmds)@[old(cmds)@.len() + 2 as int] == (
                                    GpuCommand::FreeBuffer { buffer: e_old.vertex_buffer })
                                    &&& final(cmds)@[old(cmds)@.len() + 3 as int] == (
                                    GpuCommand::FreeBuffer { buffer: e_old.index_buffer })
                                },
                                None => {
                                    &&& final(cmds)@.len() == old(cmds)@.len() + 2
                                    &&& (final(cmds)@[old(cmds)@.len() as int]
                                        matches GpuCommand::CreateVertexBuffer {
                                        buffer,
                                        vertices,
                                    } && buffer == e.vertex_buffer && vertices@ == d.vertices)
                                    &&& (final(cmds)@[old(cmds)@.len() + 1 as int]
                                        matches GpuCommand::CreateIndexBuffer { buffer, indices }
                                        && buffer == e.index_buffer && indices@ == d.indices)
                                },
                            })
                        })
                    },
                }),
            })
        }),
    decreases old(n)@.size(),
{
    let ghost n0 = old(n)@;
    let ghost p0 = mesh_of(*old(storage));
    if n.id == id {
        proof {
            assert(n0.contains_id(id));
            assert(n0.find_node(id) == Some(n0));
            lemma_nodes_view(n.children@);
        }
        match &mut n.primitive {
            None => {},
            Some(prim) => {
                proof {
                    assert(prim.fits_pipeline(p0)) by {
                        if prim@.data_id is Some {
                            let h = prim@.data_id->Some_0;
                            assert(own_handle(n0).contains(h));
                            assert(node_prim_handles(n0).contains(h));
                        }
                        if prim@.dirty_data is Some {
                            assert(node_dirty_count(n0) >= 1);
                        }
                    }
                }
                let _ = prim.render(storage, buffers, cmds);
            },
        }
        proof {
            lemma_nodes_view(n.children@);
            assert(n@.children == n0.children);
            assert(cmds@.subrange(0, old(cmds)@.len() as int) =~= old(cmds)@);
            let p1 = mesh_of(*storage);
            match n0.primitive {
                None => {
                    assert(n@ == n0);
                },
                Some(pr) => {
                    match pr.dirty_data {
                        None => {
                            assert(n@ == n0);
                        },
                        Some(d) => {
                            if old(buffers).can_alloc(2) {
                                let pn = n@.primitive->Some_0;
                                let h = pn.data_id->Some_0;
                                assert(n@ == n0.with_primitive_at(id, Some(pn)));
                                assert(n@.find_node(id) == Some(n@));
                                // The fresh handle avoids every child's
                                // handle, which all sat in the old table.
                                assert(node_handles_wf(n@)) by {
                                    assert forall|x: u32|
                                        own_handle(n@).contains(x) implies !seq_prim_handles(
                                        n@.children,
                                    ).contains(x) by {
                                        assert(x == h);
                                        if seq_prim_handles(n0.children).contains(x) {
                                            assert(node_prim_handles(n0).contains(x));
                                            assert(p0.table().dom().contains(x));
                                        }
                                    }
                                }
                                assert(node_prim_handles(n@).subset_of(p1.table().dom())) by {
                                    assert forall|x: u32|
                                        node_prim_handles(n@).contains(x) implies p1.table().dom().contains(
                                        x,
                                    ) by {
                                        if own_handle(n@).contains(x) {
                                            assert(x == h);
                                        } else {
                                            assert(seq_prim_handles(n0.children).contains(x));
                                            assert(node_prim_handles(n0).contains(x));
                                            assert(p0.table().contains_key(x));
                                            assert(x != h);
                                            match pr.data_id {
                                                Some(oh) => {
                                                    assert(own_handle(n0).contains(oh));
                                                    assert(own_handle(n0).disjoint(
                                                        seq_prim_handles(n0.children),
                                                    ));
                                                    assert(x != oh);
                                                },
                                                None => {},
                                            }
                                        }
                                    }
                                }
                                assert forall|x: u32| #[trigger]
                                    node_prim_handles(n@).contains(x) implies node_prim_handles(
                                    n0,
                                ).contains(x) || !p0.table().contains_key(x) by {
                                    if own_handle(n@).contains(x) {
                                        assert(x == h);
                                    } else {
                                        assert(seq_prim_handles(n0.children).contains(x));
                                    }
                                }
                                assert(node_dirty_count(n@) + 1 == node_dirty_count(n0));
                                assert(node_pending_ok(n@));
                            } else {
                                assert(n@ == n0);
                            }
                        },
                    }
                },
            }
        }
        return true;
    }
    proof {
        lemma_nodes_view(n.children@);
        lemma_seq_first_index_containing(n0.children, id);
        lemma_seq_sync_pointwise(n0.children);
        lemma_seq_handles_wf_characterize(n0.children);
        assert(n0.size() == 1 + crate::object::seq_size(n0.children));
    }
    let mut i: usize = 0;
    while i < n.children.len()
        invariant
            i <= n.children.len(),
            n0 == old(n)@,
            p0 == mesh_of(*old(storage)),
            id != n0.id,
            *storage == *old(storage),
            *buffers == *old(buffers),
            cmds@ == old(cmds)@,
            mesh_ok(*old(storage)),
            p0.entry_seq().len() + node_dirty_count(n0) <= u32::MAX,
            node_prim_handles(n0).subset_of(p0.table().dom()),
            node_pending_ok(n0),
            node_handles_wf(n0),
            n.children.len() == n0.children.len(),
            n@.children =~= n0.children,
            n@.id == n0.id,
            n@.is_self_dirty == n0.is_self_dirty,
            n@.is_child_dirty == n0.is_child_dirty,
            n@.position == n0.position,
            n@.primitive == n0.primitive,
            n0.size() == 1 + crate::object::seq_size(n0.children),
            node_dirty_count(n0) == prim_dirty_contrib(n0.primitive) + seq_dirty_count(
                n0.children,
            ),
            forall|j: int| 0 <= j < i ==> !(#[trigger] n0.children[j]).contains_id(id),
            seq_first_index_containing(n0.children, id) >= -1,
            seq_contains_id(n0.children, id) == (seq_first_index_containing(n0.children, id)
                >= 0),
            seq_first_index_containing(n0.children, id) == -1 ==> forall|j: int|
                0 <= j < n0.children.len() ==> !(#[trigger] n0.children[j]).contains_id(id),
            seq_first_index_containing(n0.children, id) >= 0 ==> {
                let k = seq_first_index_containing(n0.children, id);
                &&& k < n0.children.len()
                &&& n0.children[k].contains_id(id)
            },
            forall|j: int|
                0 <= j < n0.children.len() ==> (#[trigger] node_prim_handles(
                    n0.children[j],
                )).subset_of(seq_prim_handles(n0.children)),
            forall|j: int|
                0 <= j < n0.children.len() ==> node_pending_ok(#[trigger] n0.children[j]),
            forall|j: int|
                0 <= j < n0.children.len() ==> node_handles_wf(#[trigger] n0.children[j]),
            forall|j: int, k: int|
                0 <= j < n0.children.len() && 0 <= k < n0.children.len() && j != k ==> (
                #[trigger] node_prim_handles(n0.children[j])).disjoint(
                    #[trigger] node_prim_handles(n0.children[k]),
                ),
            own_handle(n0).disjoint(seq_prim_handles(n0.children)),
        decreases n.children.len() - i,
    {
        let ghost pre_children = n.children@;
        proof {
            lemma_nodes_view(pre_children);
            lemma_seq_size_element(n0.children, i as int);
            lemma_seq_dirty_count_element(n0.children, i as int);
        }
        let mut c = n.children.remove(i);
        proof {
            assert(c@ == n0.children[i as int]);
            assert(c@.size() < old(n)@.size());
            assert(node_prim_handles(c@).subset_of(p0.table().dom()));
            assert(p0.entry_seq().len() + node_dirty_count(c@) <= u32::MAX);
        }
        let found = sync_node_by_id(&mut c, id, storage, buffers, cmds);
        let ghost c_after = c@;
        let ghost mid = n.children@;
        n.children.insert(i, c);
        proof {
            lemma_nodes_view(mid);
            lemma_nodes_view(n.children@);
            assert(n@.children =~= n0.children.update(i as int, c_after));
        }
        if found {
            proof {
                let c_old = n0.children[i as int];
                let p1 = mesh_of(*storage);
                let t1 = p1.table();
                assert(c_old.contains_id(id));
                assert(seq_first_index_containing(n0.children, id) == i) by {
                    lemma_seq_first_index_containing(n0.children, id);
                }
                assert(seq_contains_id(n0.children, id));
                assert(n0.contains_id(id));
                lemma_seq_find_node(n0.children, id);
                assert(n0.find_node(id) == c_old.find_node(id));
                assert(cmds@.subrange(0, old(cmds)@.len() as int) =~= old(cmds)@);
                // A handle outside the synchronized subtree keeps its
                // entry: the step frees only that subtree's old handle
                // and installs one fresh for the old table.
                assert forall|x: u32|
                    p0.table().contains_key(x) && !node_prim_handles(c_old).contains(
                        x,
                    ) implies t1.contains_key(x) by {
                    match c_old.find_node(id)->Some_0.primitive {
                        None => {},
                        Some(pr) => {
                            match pr.dirty_data {
                                None => {},
                                Some(d) => {
                                    if old(buffers).can_alloc(2) {
                                        let pn = c_after.find_node(
                                            id,
                                        )->Some_0.primitive->Some_0;
                                        let h = pn.data_id->Some_0;
                                        assert(x != h);
                                        match pr.data_id {
                                            Some(oh) => {
                                                lemma_find_handle_in(c_old, id);
                                                assert(node_prim_handles(c_old).contains(oh));
                                                assert(x != oh);
                                            },
                                            None => {},
                                        }
                                    }
                                },
                            }
                        },
                    }
                }
                // The uniform clauses, child by child.
                assert forall|j: int|
                    0 <= j < n0.children.len() implies node_pending_ok(
                    #[trigger] n@.children[j],
                ) by {
                    if j != i {
                        assert(n@.children[j] == n0.children[j]);
                    }
                }
                assert(node_pending_ok(n@)) by {
                    lemma_seq_sync_pointwise(n@.children);
                }
                assert forall|j: int|
                    0 <= j < n0.children.len() implies (#[trigger] node_prim_handles(
                    n@.children[j],
                )).subset_of(t1.dom()) by {
                    if j == i {
                        assert(n@.children[j] == c_after);
                    } else {
                        assert(n@.children[j] == n0.children[j]);
                        assert forall|x: u32|
                            node_prim_handles(n0.children[j]).contains(x) implies t1.dom().contains(
                            x,
                        ) by {
                            assert(p0.table().contains_key(x));
                            assert(node_prim_handles(n0.children[j]).disjoint(node_prim_handles(
                                c_old,
                            )));
                            assert(!node_prim_handles(c_old).contains(x));
                        }
                    }
                }
                assert(own_handle(n@) == own_handle(n0));
                assert forall|x: u32| own_handle(n@).contains(x) implies t1.dom().contains(
                    x,
                ) by {
                    assert(node_prim_handles(n0).contains(x));
                    assert(p0.table().contains_key(x));
                    assert(own_handle(n0).disjoint(seq_prim_handles(n0.children)));
                    assert(node_prim_handles(c_old).subset_of(seq_prim_handles(n0.children)));
                    assert(!node_prim_handles(c_old).contains(x));
                }
                assert(node_prim_handles(n@).subset_of(t1.dom())) by {
                    assert forall|x: u32|
                        node_prim_handles(n@).contains(x) implies t1.dom().contains(x) by {
                        if !own_handle(n@).contains(x) {
                            lemma_seq_prim_handles_exists(n@.children, x);
                            let k = choose|k: int|
                                0 <= k < n@.children.len() && (#[trigger] node_prim_handles(
                                    n@.children[k],
                                )).contains(x);
                        }
                    }
                }
                // Disjointness survives: the synchronized child's new
                // handles are its old ones or fresh for the old table,
                // which held everyone else's.
                assert forall|j: int, k: int|
                    0 <= j < n0.children.len() && 0 <= k < n0.children.len() && j != k implies (
                #[trigger] node_prim_handles(n@.children[j])).disjoint(
                    #[trigger] node_prim_handles(n@.children[k]),
                ) by {
                    if j != i && k != i {
                        assert(n@.children[j] == n0.children[j]);
                        assert(n@.children[k] == n0.children[k]);
                    } else {
                        let o = if j == i {
                            k
                        } else {
                            j
                        };
                        assert(n@.children[o] == n0.children[o]);
                        assert(n@.children[i as int] == c_after);
                        assert forall|x: u32|
                            node_prim_handles(c_after).contains(x) implies !node_prim_handles(
                            n0.children[o],
                        ).contains(x) by {
                            if node_prim_handles(c_old).contains(x) {
                                assert(node_prim_handles(n0.children[o]).disjoint(
                                    node_prim_handles(c_old),
                                ));
                            } else {
                                assert(!p0.table().contains_key(x));
                                assert(node_prim_handles(n0.children[o]).subset_of(
                                    p0.table().dom(),
                                ));
                            }
                        }
                        assert(node_prim_handles(n@.children[j]).disjoint(node_prim_handles(
                            n@.children[k],
                        )));
                    }
                }
                assert forall|j: int|
                    0 <= j < n0.children.len() implies own_handle(n@).disjoint(
                    #[trigger] node_prim_handles(n@.children[j]),
                ) by {
                    if j == i {
                        assert forall|x: u32|
                            own_handle(n@).contains(x) implies !node_prim_handles(
                            c_after,
                        ).contains(x) by {
                            assert(own_handle(n0).contains(x));
                            assert(node_prim_handles(n0).contains(x));
                            assert(p0.table().contains_key(x));
                            assert(own_handle(n0).disjoint(seq_prim_handles(n0.children)));
                            assert(node_prim_handles(c_old).subset_of(seq_prim_handles(
                                n0.children,
                            )));
                            assert(!node_prim_handles(c_old).contains(x));
                            if node_prim_handles(c_after).contains(x) {
                                assert(false);
                            }
                        }
                        assert(own_handle(n@).disjoint(node_prim_handles(c_after)));
                    } else {
                        assert(n@.children[j] == n0.children[j]);
                        assert(node_prim_handles(n0.children[j]).subset_of(seq_prim_handles(
                            n0.children,
                        )));
                    }
                }
                assert(node_handles_wf(n@)) by {
                    lemma_seq_handles_wf_characterize(n@.children);
                    assert forall|j: int|
                        0 <= j < n@.children.len() implies node_handles_wf(
                        #[trigger] n@.children[j],
                    ) by {
                        if j != i {
                            assert(n@.children[j] == n0.children[j]);
                        }
                    }
                    assert(seq_handles_wf(n@.children));
                    assert forall|x: u32|
                        own_handle(n@).contains(x) implies !seq_prim_handles(
                        n@.children,
                    ).contains(x) by {
                        lemma_seq_prim_handles_exists(n@.children, x);
                        if seq_prim_handles(n@.children).contains(x) {
                            let k = choose|k: int|
                                0 <= k < n@.children.len() && (#[trigger] node_prim_handles(
                                    n@.children[k],
                                )).contains(x);
                            assert(own_handle(n@).disjoint(node_prim_handles(n@.children[k])));
                        }
                    }
                }
                // Novelty of the whole node's handles.
                assert forall|h: u32| #[trigger]
                    node_prim_handles(n@).contains(h) implies node_prim_handles(n0).contains(h)
                    || !p0.table().contains_key(h) by {
                    if own_handle(n@).contains(h) {
                        assert(own_handle(n0).contains(h));
                    } else {
                        lemma_seq_prim_handles_exists(n@.children, h);
                        let k = choose|k: int|
                            0 <= k < n@.children.len() && (#[trigger] node_prim_handles(
                                n@.children[k],
                            )).contains(h);
                        if k == i {
                            if node_prim_handles(c_old).contains(h) {
                                assert(node_prim_handles(c_old).subset_of(seq_prim_handles(
                                    n0.children,
                                )));
                            }
                        } else {
                            assert(n@.children[k] == n0.children[k]);
                            assert(node_prim_handles(n0.children[k]).subset_of(seq_prim_handles(
                                n0.children,
                            )));
                        }
                    }
                }
                // Table-size-plus-dirty budget.
                assert(node_dirty_count(n@) + node_dirty_count(c_old) == node_dirty_count(n0)
                    + node_dirty_count(c_after)) by {
                    lemma_seq_dirty_count_update(n0.children, i as int, c_after);
                }
                // The target-case details transfer from the child's
                // contract: same pipeline states, same found node.
                match c_old.find_node(id)->Some_0.primitive {
                    None => {
                        assert(c_after == c_old);
                        assert(n@.children =~= n0.children);
                        assert(n@ == n0);
                    },
                    Some(pr) => {
                        match pr.dirty_data {
                            None => {
                                assert(c_after == c_old);
                                assert(n@.children =~= n0.children);
                                assert(n@ == n0);
                            },
                            Some(d) => {
                                if !old(buffers).can_alloc(2) {
                                    assert(c_after == c_old);
                                    assert(n@.children =~= n0.children);
                                    assert(n@ == n0);
                                } else {
                                    let pn = c_after.find_node(id)->Some_0.primitive->Some_0;
                                    assert(c_after == c_old.with_primitive_at(id, Some(pn)));
                                    lemma_seq_with_primitive_at_pointwise(
                                        n0.children,
                                        id,
                                        Some(pn),
                                    );
                                    assert(n@.children =~= seq_with_primitive_at(
                                        n0.children,
                                        id,
                                        Some(pn),
                                    ));
                                    assert(n@ == n0.with_primitive_at(id, Some(pn)));
                                    lemma_with_primitive_at_preserves(c_old, id, Some(pn));
                                    lemma_contains_iff_subtree_ids(c_old, id);
                                    lemma_contains_iff_subtree_ids(c_after, id);
                                    assert(c_after.contains_id(id));
                                    assert(seq_first_index_containing(n@.children, id) == i) by {
                                        lemma_seq_first_index_containing(n@.children, id);
                                        lemma_seq_contains_id_exists(n@.children, id);
                                    }
                                    lemma_seq_find_node(n@.children, id);
                                    assert(n@.find_node(id) == c_after.find_node(id));
                                    assert(node_dirty_count(n@) + 1 == node_dirty_count(n0));
                                }
                            },
                        }
                    },
                }
            }
            return true;
        }
        proof {
            assert(c_after == n0.children[i as int]);
            assert(n@.children =~= n0.children);
        }
        i = i + 1;
    }
    proof {
        assert(seq_first_index_containing(n0.children, id) == -1);
        assert(!seq_contains_id(n0.children, id));
        assert(!n0.contains_id(id));
        assert(n@ == n0);
    }
    false
}

} // verus!
