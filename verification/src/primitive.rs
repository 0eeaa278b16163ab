//! The per-node GPU-resource proxy.
//!
//! A primitive holds geometry that is waiting to be uploaded (`dirty_data`)
//! and the handle of the buffer set currently resident on the GPU
//! (`data_id`). Synchronization happens during the renderer's scene pass.

use vstd::prelude::*;
use crate::gpu::{BufferIdAllocator, GpuCommand};
use crate::pipeline::{MeshEntry, RenderError};
use crate::pipeline_storage::{mesh_pipeline_of, Pipeline, PipelineKind, PipelineStorage};
use crate::vertex::Vertex;

verus! {

/// One batch of CPU-side mesh geometry: a vertex list and a `u32` index
/// list describing triangles over it.
pub struct MeshData {
    pub vertices: Vec<Vertex>,
    pub indices: Vec<u32>,
}

/// Spec-level mirror of [`MeshData`].
pub struct MeshDataView {
    pub vertices: Seq<Vertex>,
    pub indices: Seq<u32>,
}

impl View for MeshData {
    type V = MeshDataView;

    open spec fn view(&self) -> MeshDataView {
        MeshDataView { vertices: self.vertices@, indices: self.indices@ }
    }
}

/// GPU-resource proxy for one mesh node.
pub struct MeshPrimitive {
    /// Geometry awaiting upload; cleared when an upload succeeds.
    pub dirty_data: Option<MeshData>,
    /// Handle of the buffer set currently resident in the owning pipeline's
    /// resource table, if anything has been uploaded.
    pub data_id: Option<u32>,
}

/// Spec-level mirror of [`MeshPrimitive`].
pub struct PrimitiveView {
    pub dirty_data: Option<MeshDataView>,
    pub data_id: Option<u32>,
}

impl View for MeshPrimitive {
    type V = PrimitiveView;

    open spec fn view(&self) -> PrimitiveView {
        PrimitiveView {
            dirty_data: match self.dirty_data {
                Some(d) => Some(d@),
                None => None,
            },
            data_id: self.data_id,
        }
    }
}

impl Default for MeshPrimitive {
    /// A primitive with nothing pending and nothing uploaded.
    fn default() -> (p: MeshPrimitive)
        ensures
            p@.dirty_data is None,
            p@.data_id is None,
    {
        MeshPrimitive { dirty_data: None, data_id: None }
    }
}

impl MeshPrimitive {
    /// Stages `vertx` and `indices` for upload on the next render pass,
    /// replacing any geometry already pending. The resident handle is left
    /// alone until the upload happens.
    pub fn fill_data(&mut self, vertx: Vec<Vertex>, indices: Vec<u32>)
        ensures
            final(self)@.dirty_data == Some(MeshDataView { vertices: vertx@, indices: indices@ }),
            final(self)@.data_id == old(self)@.data_id,
    {
        self.dirty_data = Some(MeshData { vertices: vertx, indices });
    }

    /// What this primitive asks of the mesh pipeline it synchronizes
    /// against: the resident handle, if any, has a live table entry, the
    /// table has room, and any pending index list fits the backend's
    /// 32-bit draw count.
    pub open spec fn fits_pipeline(&self, p: crate::pipeline::MeshPipeline) -> bool {
        &&& p.wf()
        &&& (self@.data_id matches Some(h) ==> p.table().contains_key(h))
        &&& (self@.dirty_data matches Some(d) ==> d.indices.len() <= u32::MAX
            && p.entry_seq().len() < u32::MAX)
    }

    /// Synchronizes this primitive with its pipeline: a no-op when
    /// nothing is pending; otherwise the pending geometry is uploaded
    /// under a fresh handle — the buffer creations are appended to
    /// `cmds` — and only after that upload is the previously resident
    /// entry freed, so at no point is the primitive without a valid
    /// entry. On success the pending data is cleared and the new handle
    /// installed; the table then holds exactly one entry for this
    /// primitive, the new one. The upload fails — leaving the pending
    /// data, the old handle, its table entry, and the command stream all
    /// untouched — exactly when the backend cannot allocate the buffer
    /// pair.
    pub fn render(
        &mut self,
        storage: &mut PipelineStorage,
        buffers: &mut BufferIdAllocator,
        cmds: &mut Vec<GpuCommand>,
    ) -> (r: Result<(), RenderError>)
        requires
            old(storage).wf(),
            old(storage)@.contains_key(PipelineKind::Mesh),
            old(self).fits_pipeline(mesh_pipeline_of(old(storage)@[PipelineKind::Mesh])),
        ensures
            final(storage).wf(),
            final(storage)@.dom() == old(storage)@.dom(),
            old(self).dirty_data is None ==> r is Ok && *final(self) == *old(self)
                && *final(storage) == *old(storage) && *final(buffers) == *old(buffers)
                && final(cmds)@ == old(cmds)@,
            old(self).dirty_data matches Some(md) ==> {
                let p0 = mesh_pipeline_of(old(storage)@[PipelineKind::Mesh]);
                let p1 = mesh_pipeline_of(final(storage)@[PipelineKind::Mesh]);
                let e = MeshEntry {
                    vertex_buffer: old(buffers).counter(),
                    index_buffer: (old(buffers).counter() + 1) as u64,
                    num_indices: md.indices@.len() as u32,
                };
                &&& (r is Ok) == old(buffers).can_alloc(2)
                &&& r is Ok ==> {
                    let h = final(self).data_id->Some_0;
                    &&& final(self).dirty_data is None
                    &&& final(self).data_id is Some
                    &&& !p0.table().contains_key(h)
                    &&& p1.wf()
                    &&& p1.camera_buffer_id() == p0.camera_buffer_id()
                    &&& final(buffers).counter() == old(buffers).counter() + 2
                    &&& match old(self).data_id {
                        Some(old_h) => {
                            let e_old = p0.table()[old_h];
                            &&& h != old_h
                            &&& p1.table() == p0.table().insert(h, e).remove(old_h)
                            &&& p1.entry_seq().len() == p0.entry_seq().len()
                            &&& final(cmds)@ == old(cmds)@ + seq![
                                GpuCommand::CreateVertexBuffer {
                                    buffer: e.vertex_buffer,
                                    vertices: md.vertices,
                                },
                                GpuCommand::CreateIndexBuffer {
                                    buffer: e.index_buffer,
                                    indices: md.indices,
                                },
                                GpuCommand::FreeBuffer { buffer: e_old.vertex_buffer },
                                GpuCommand::FreeBuffer { buffer: e_old.index_buffer },
                            ]
                        },
                        None => {
                            &&& p1.table() == p0.table().insert(h, e)
                            &&& p1.entry_seq().len() == p0.entry_seq().len() + 1
                            &&& final(cmds)@ == old(cmds)@ + seq![
                                GpuCommand::CreateVertexBuffer {
                                    buffer: e.vertex_buffer,
                                    vertices: md.vertices,
                                },
                                GpuCommand::CreateIndexBuffer {
                                    buffer: e.index_buffer,
                                    indices: md.indices,
                                },
                            ]
                        },
                    }
                }
                &&& r is Err ==> r == Err::<(), RenderError>(RenderError::BufferAllocation)
                    && *final(self) == *old(self) && *final(storage) == *old(storage)
                    && *final(buffers) == *old(buffers) && final(cmds)@ == old(cmds)@
            },
    {
        if self.dirty_data.is_none() {
            return Ok(());
        }
        if !buffers.has_pair() {
            return Err(RenderError::BufferAllocation);
        }
        let ghost old_storage_view = storage@;
        let ghost pre_cmds = cmds@;
        match storage.get_mut(PipelineKind::Mesh) {
            Some(p) => {
                match p {
                    Pipeline::Mesh(mp) => {
                        proof {
                            assert(*mp == mesh_pipeline_of(
                                old_storage_view[PipelineKind::Mesh],
                            ));
                        }
                        let ghost p0 = *mp;
                        match self.dirty_data.take() {
                            Some(data) => {
                                let ghost e = MeshEntry {
                                    vertex_buffer: old(buffers).counter(),
                                    index_buffer: (old(buffers).counter() + 1) as u64,
                                    num_indices: data.indices@.len() as u32,
                                };
                                match mp.add_mesh_data(data, buffers, cmds) {
                                    Ok(new_id) => {
                                        proof {
                                            assert(mp.table() == p0.table().insert(new_id, e));
                                        }
                                        match self.data_id {
                                            Some(old_id) => {
                                                proof {
                                                    assert(new_id != old_id);
                                                    assert(mp.table().contains_key(old_id));
                                                    assert(mp.table()[old_id] == p0.table()[
                                                        old_id
                                                    ]);
                                                }
                                                let ghost seq1 = mp.entry_seq();
                                                mp.remove_mesh_data(old_id, cmds);
                                                proof {
                                                    assert(seq1.len() == p0.entry_seq().len() + 1);
                                                    assert(mp.entry_seq().len() == p0.entry_seq().len());
                                                    assert(mp.table() =~= p0.table().insert(
                                                        new_id,
                                                        e,
                                                    ).remove(old_id));
                                                    assert(cmds@ =~= pre_cmds + seq![
                                                        GpuCommand::CreateVertexBuffer {
                                                            buffer: e.vertex_buffer,
                                                            vertices: data.vertices,
                                                        },
                                                        GpuCommand::CreateIndexBuffer {
                                                            buffer: e.index_buffer,
                                                            indices: data.indices,
                                                        },
                                                        GpuCommand::FreeBuffer {
                                                            buffer: p0.table()[old_id].vertex_buffer,
                                                        },
                                                        GpuCommand::FreeBuffer {
                                                            buffer: p0.table()[old_id].index_buffer,
                                                        },
                                                    ]);
                                                }
                                            },
                                            None => {
                                                proof {
                                                    assert(cmds@ =~= pre_cmds + seq![
                                                        GpuCommand::CreateVertexBuffer {
                                                            buffer: e.vertex_buffer,
                                                            vertices: data.vertices,
                                                        },
                                                        GpuCommand::CreateIndexBuffer {
                                                            buffer: e.index_buffer,
                                                            indices: data.indices,
                                                        },
                                                    ]);
                                                }
                                            },
                                        }
                                        self.data_id = Some(new_id);
                                        proof {
                                            assert(old_storage_view.insert(
                                                PipelineKind::Mesh,
                                                Pipeline::Mesh(*mp),
                                            ).dom() =~= old_storage_view.dom());
                                        }
                                        Ok(())
                                    },
                                    Err(e) => {
                                        proof {
                                            assert(false);
                                        }
                                        Err(e)
                                    },
                                }
                            },
                            None => {
                                proof {
                                    assert(false);
                                }
                                Ok(())
                            },
                        }
                    },
                }
            },
            None => {
                proof {
                    assert(false);
                }
                Ok(())
            },
        }
    }

    /// Releases this primitive's table entry, if it has one, and clears
    /// the resident handle; the pending data is left alone. The owner
    /// calls this when the node leaves the scene — buffer release needs
    /// an explicit backend call, so it cannot ride on dropping the value.
    pub fn destroy(
        &mut self,
        storage: &mut PipelineStorage,
        cmds: &mut Vec<GpuCommand>,
    )
        requires
            old(storage).wf(),
            old(storage)@.contains_key(PipelineKind::Mesh),
            mesh_pipeline_of(old(storage)@[PipelineKind::Mesh]).wf(),
        ensures
            final(storage).wf(),
            final(storage)@.dom() == old(storage)@.dom(),
            final(self).data_id is None,
            final(self).dirty_data == old(self).dirty_data,
            ({
                let p0 = mesh_pipeline_of(old(storage)@[PipelineKind::Mesh]);
                let p1 = mesh_pipeline_of(final(storage)@[PipelineKind::Mesh]);
                &&& p1.wf()
                &&& p1.camera_buffer_id() == p0.camera_buffer_id()
                &&& match old(self).data_id {
                    Some(h) => {
                        if p0.table().contains_key(h) {
                            let e = p0.table()[h];
                            &&& p1.table() == p0.table().remove(h)
                            &&& final(cmds)@ == old(cmds)@ + seq![
                                GpuCommand::FreeBuffer { buffer: e.vertex_buffer },
                                GpuCommand::FreeBuffer { buffer: e.index_buffer },
                            ]
                        } else {
                            p1.table() == p0.table() && final(cmds)@ == old(cmds)@
                        }
                    },
                    None => *final(storage) == *old(storage) && final(cmds)@ == old(cmds)@,
                }
            }),
    {
        let ghost old_storage_view = storage@;
        match self.data_id {
            None => {},
            Some(old_id) => {
                match storage.get_mut(PipelineKind::Mesh) {
                    Some(p) => {
                        match p {
                            Pipeline::Mesh(mp) => {
                                mp.remove_mesh_data(old_id, cmds);
                                proof {
                                    assert(old_storage_view.insert(
                                        PipelineKind::Mesh,
                                        Pipeline::Mesh(*mp),
                                    ).dom() =~= old_storage_view.dom());
                                }
                            },
                        }
                    },
                    None => {
                        proof {
                            assert(false);
                        }
                    },
                }
            },
        }
        self.data_id = None;
    }
}

/// Two `render` calls in a row with two different pending payloads leave
/// exactly one live resource-table entry for the primitive: the second
/// upload's. Each upload installs a handle fresh for the table it meets
/// (`render`'s contract), the first handle's entry is freed when the
/// second is installed, and nobody else's entries move.
pub proof fn lemma_render_twice_one_entry(
    t0: Map<u32, MeshEntry>,
    h1: u32,
    e1: MeshEntry,
    h2: u32,
    e2: MeshEntry,
)
    requires
        !t0.contains_key(h1),
        !t0.insert(h1, e1).contains_key(h2),
    ensures
        ({
            let t2 = t0.insert(h1, e1).insert(h2, e2).remove(h1);
            &&& t2.contains_key(h2) && t2[h2] == e2
            &&& !t2.contains_key(h1)
            &&& t2.dom() == t0.dom().insert(h2)
            &&& forall|h: u32| t0.contains_key(h) ==> #[trigger] t2.contains_key(h) && t2[h]
                == t0[h]
        }),
{
    let t2 = t0.insert(h1, e1).insert(h2, e2).remove(h1);
    assert(h2 != h1);
    assert(t2.dom() =~= t0.dom().insert(h2));
}

} // verus!
