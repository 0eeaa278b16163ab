//! The mesh draw pipeline.
//!
//! A mesh pipeline owns one resource-table entry — a vertex buffer, an
//! index buffer, and an index count — per uploaded mesh, keyed by a `u32`
//! resource handle, plus one uniform buffer for the camera matrix. Handles
//! are drawn at random and checked against the table, falling back to a
//! sweep that provably finds a free handle.

use vstd::prelude::*;
use crate::gpu::{BufferIdAllocator, GpuCommand};
use crate::math::Mat4;
use crate::pipeline_storage::PipelineKind;
use crate::primitive::MeshData;

verus! {

/// Why a frame-time operation failed. Every variant is recoverable: the
/// frame is given up, earlier uploads stay valid, and the next frame
/// retries.
#[derive(Clone, Copy, Debug, PartialEq, Eq, Structural)]
pub enum RenderError {
    /// The backend refused to allocate a buffer.
    BufferAllocation,
}

/// One resource-table entry: the device buffers and index count of one
/// uploaded mesh.
#[derive(Clone, Copy, Debug, PartialEq, Eq, Structural)]
pub struct MeshEntry {
    /// Name of the device buffer holding the vertices.
    pub vertex_buffer: u64,
    /// Name of the device buffer holding the indices.
    pub index_buffer: u64,
    /// How many indices to draw.
    pub num_indices: u32,
}

/// Relies on `rand::random`: a sample of rand's `Standard` distribution
/// from the thread-local generator. Nothing is assumed about the value.
pub assume_specification<T>[ rand::random::<T> ]() -> (r: T)
    where
        rand::distributions::Standard: rand::distributions::Distribution<T>,
;

/// The resource table as a map, later entries shadowing none because keys
/// are unique.
pub open spec fn entries_map(s: Seq<(u32, MeshEntry)>) -> Map<u32, MeshEntry>
    decreases s,
{
    if s.len() == 0 {
        Map::empty()
    } else {
        entries_map(s.drop_first()).insert(s[0].0, s[0].1)
    }
}

/// No two entries share a handle.
pub open spec fn keys_distinct(s: Seq<(u32, MeshEntry)>) -> bool {
    forall|i: int, j: int| 0 <= i < j < s.len() ==> (#[trigger] s[i]).0 != (#[trigger] s[j]).0
}

/// Index of the entry carrying handle `k`, or -1.
pub open spec fn key_index(s: Seq<(u32, MeshEntry)>, k: u32) -> int
    decreases s,
{
    if s.len() == 0 {
        -1
    } else if s[0].0 == k {
        0
    } else {
        let rest = key_index(s.drop_first(), k);
        if rest == -1 {
            -1
        } else {
            rest + 1
        }
    }
}

/// What the table map holds: its domain is the set of keys in the
/// sequence, it is finite and no larger than the sequence, and — under
/// distinct keys — each entry is found under its own key.
pub proof fn lemma_entries_map(s: Seq<(u32, MeshEntry)>)
    ensures
        entries_map(s).dom().finite(),
        entries_map(s).dom().len() <= s.len(),
        forall|k: u32| #[trigger]
            entries_map(s).contains_key(k) == exists|i: int|
                0 <= i < s.len() && (#[trigger] s[i]).0 == k,
        keys_distinct(s) ==> forall|i: int|
            0 <= i < s.len() ==> entries_map(s)[(#[trigger] s[i]).0] == s[i].1,
    decreases s,
{
    if s.len() > 0 {
        lemma_entries_map(s.drop_first());
        assert forall|k: u32| #[trigger]
            entries_map(s).contains_key(k) == exists|i: int|
                0 <= i < s.len() && (#[trigger] s[i]).0 == k by {
            if entries_map(s).contains_key(k) {
                if s[0].0 == k {
                    assert(s[0].0 == k);
                } else {
                    assert(entries_map(s.drop_first()).contains_key(k));
                    let i = choose|i: int|
                        0 <= i < s.drop_first().len() && (#[trigger] s.drop_first()[i]).0 == k;
                    assert(s[i + 1] == s.drop_first()[i]);
                    assert(s[i + 1].0 == k);
                }
            }
            if exists|i: int| 0 <= i < s.len() && (#[trigger] s[i]).0 == k {
                let i = choose|i: int| 0 <= i < s.len() && (#[trigger] s[i]).0 == k;
                if i == 0 {
                    assert(entries_map(s).contains_key(k));
                } else {
                    assert(s.drop_first()[i - 1] == s[i]);
                    assert(entries_map(s.drop_first()).contains_key(k));
                }
            }
        }
        if keys_distinct(s) {
            assert(keys_distinct(s.drop_first())) by {
                assert forall|i: int, j: int|
                    0 <= i < j < s.drop_first().len() implies (#[trigger] s.drop_first()[i]).0 != (
                #[trigger] s.drop_first()[j]).0 by {
                    assert(s.drop_first()[i] == s[i + 1]);
                    assert(s.drop_first()[j] == s[j + 1]);
                }
            }
            assert forall|i: int| 0 <= i < s.len() implies entries_map(s)[(#[trigger] s[i]).0]
                == s[i].1 by {
                if i > 0 {
                    assert(s.drop_first()[i - 1] == s[i]);
                    assert(s[0].0 != s[i].0);
                    assert(entries_map(s)[s[i].0] == entries_map(s.drop_first())[s[i].0]);
                }
            }
        }
    }
}

/// What `key_index` finds: the position of the handle, or a guarantee that
/// no position carries it.
pub proof fn lemma_key_index(s: Seq<(u32, MeshEntry)>, k: u32)
    ensures
        key_index(s, k) >= -1,
        key_index(s, k) == -1 ==> forall|i: int| 0 <= i < s.len() ==> (#[trigger] s[i]).0 != k,
        key_index(s, k) >= 0 ==> {
            let i = key_index(s, k);
            &&& i < s.len()
            &&& s[i].0 == k
        },
    decreases s,
{
    if s.len() > 0 && s[0].0 != k {
        lemma_key_index(s.drop_first(), k);
        let rest = key_index(s.drop_first(), k);
        if rest >= 0 {
            assert(s[rest + 1] == s.drop_first()[rest]);
        } else {
            assert forall|i: int| 0 <= i < s.len() implies (#[trigger] s[i]).0 != k by {
                if i > 0 {
                    assert(s[i] == s.drop_first()[i - 1]);
                }
            }
        }
    }
}

/// Appending an entry with a fresh key extends the table map by exactly
/// that binding.
pub proof fn lemma_entries_map_push(s: Seq<(u32, MeshEntry)>, k: u32, v: MeshEntry)
    requires
        forall|i: int| 0 <= i < s.len() ==> (#[trigger] s[i]).0 != k,
    ensures
        entries_map(s.push((k, v))) == entries_map(s).insert(k, v),
    decreases s,
{
    if s.len() == 0 {
        assert(s.push((k, v)).drop_first() =~= s);
        assert(s.push((k, v))[0] == (k, v));
        assert(entries_map(s.push((k, v))) =~= entries_map(s).insert(k, v));
    } else {
        assert(s.push((k, v)).drop_first() =~= s.drop_first().push((k, v)));
        assert forall|i: int| 0 <= i < s.drop_first().len() implies (#[trigger] s.drop_first()[
            i
        ]).0 != k by {
            assert(s.drop_first()[i] == s[i + 1]);
        }
        lemma_entries_map_push(s.drop_first(), k, v);
        assert(s.push((k, v))[0] == s[0]);
        assert(s[0].0 != k);
        assert(entries_map(s.push((k, v))) =~= entries_map(s).insert(k, v));
    }
}

/// Removing the entry at `i` removes exactly its binding from the table
/// map, keys being distinct.
pub proof fn lemma_entries_map_remove(s: Seq<(u32, MeshEntry)>, i: int)
    requires
        keys_distinct(s),
        0 <= i < s.len(),
    ensures
        entries_map(s.remove(i)) == entries_map(s).remove(s[i].0),
    decreases s,
{
    lemma_entries_map(s);
    if i == 0 {
        assert(s.remove(0) =~= s.drop_first());
        assert(!entries_map(s.drop_first()).contains_key(s[0].0)) by {
            lemma_entries_map(s.drop_first());
            if entries_map(s.drop_first()).contains_key(s[0].0) {
                let j = choose|j: int|
                    0 <= j < s.drop_first().len() && (#[trigger] s.drop_first()[j]).0 == s[0].0;
                assert(s[j + 1] == s.drop_first()[j]);
            }
        }
        assert(entries_map(s.remove(0)) =~= entries_map(s).remove(s[0].0));
    } else {
        assert(keys_distinct(s.drop_first())) by {
            assert forall|a: int, b: int|
                0 <= a < b < s.drop_first().len() implies (#[trigger] s.drop_first()[a]).0 != (
            #[trigger] s.drop_first()[b]).0 by {
                assert(s.drop_first()[a] == s[a + 1]);
                assert(s.drop_first()[b] == s[b + 1]);
            }
        }
        assert(s.drop_first()[i - 1] == s[i]);
        lemma_entries_map_remove(s.drop_first(), i - 1);
        assert(s.remove(i).drop_first() =~= s.drop_first().remove(i - 1));
        assert(s.remove(i)[0] == s[0]);
        assert(s[0].0 != s[i].0);
        assert(entries_map(s.remove(i)) =~= entries_map(s).remove(s[i].0));
    }
}

/// The draw calls for the table entries, in table order: bind each
/// entry's buffers, then issue one indexed draw.
pub open spec fn draw_commands(s: Seq<(u32, MeshEntry)>) -> Seq<GpuCommand>
    decreases s,
{
    if s.len() == 0 {
        Seq::empty()
    } else {
        seq![
            GpuCommand::SetVertexBuffer { buffer: s[0].1.vertex_buffer },
            GpuCommand::SetIndexBuffer { buffer: s[0].1.index_buffer },
            GpuCommand::DrawIndexed { index_count: s[0].1.num_indices },
        ] + draw_commands(s.drop_first())
    }
}

/// The buffer releases for the table entries, in table order.
pub open spec fn free_commands(s: Seq<(u32, MeshEntry)>) -> Seq<GpuCommand>
    decreases s,
{
    if s.len() == 0 {
        Seq::empty()
    } else {
        seq![
            GpuCommand::FreeBuffer { buffer: s[0].1.vertex_buffer },
            GpuCommand::FreeBuffer { buffer: s[0].1.index_buffer },
        ] + free_commands(s.drop_first())
    }
}

/// `draw_commands` grows from the back, entry by entry.
pub proof fn lemma_draw_commands_snoc(s: Seq<(u32, MeshEntry)>, x: (u32, MeshEntry))
    ensures
        draw_commands(s.push(x)) == draw_commands(s) + seq![
            GpuCommand::SetVertexBuffer { buffer: x.1.vertex_buffer },
            GpuCommand::SetIndexBuffer { buffer: x.1.index_buffer },
            GpuCommand::DrawIndexed { index_count: x.1.num_indices },
        ],
    decreases s,
{
    if s.len() == 0 {
        assert(s.push(x).drop_first() =~= s);
        assert(s.push(x)[0] == x);
        assert(draw_commands(s.push(x)) =~= draw_commands(s) + seq![
            GpuCommand::SetVertexBuffer { buffer: x.1.vertex_buffer },
            GpuCommand::SetIndexBuffer { buffer: x.1.index_buffer },
            GpuCommand::DrawIndexed { index_count: x.1.num_indices },
        ]);
    } else {
        assert(s.push(x).drop_first() =~= s.drop_first().push(x));
        lemma_draw_commands_snoc(s.drop_first(), x);
        assert(s.push(x)[0] == s[0]);
        assert(draw_commands(s.push(x)) =~= draw_commands(s) + seq![
            GpuCommand::SetVertexBuffer { buffer: x.1.vertex_buffer },
            GpuCommand::SetIndexBuffer { buffer: x.1.index_buffer },
            GpuCommand::DrawIndexed { index_count: x.1.num_indices },
        ]);
    }
}

/// `free_commands` grows from the back, entry by entry.
pub proof fn lemma_free_commands_snoc(s: Seq<(u32, MeshEntry)>, x: (u32, MeshEntry))
    ensures
        free_commands(s.push(x)) == free_commands(s) + seq![
            GpuCommand::FreeBuffer { buffer: x.1.vertex_buffer },
            GpuCommand::FreeBuffer { buffer: x.1.index_buffer },
        ],
    decreases s,
{
    if s.len() == 0 {
        assert(s.push(x).drop_first() =~= s);
        assert(s.push(x)[0] == x);
        assert(free_commands(s.push(x)) =~= free_commands(s) + seq![
            GpuCommand::FreeBuffer { buffer: x.1.vertex_buffer },
            GpuCommand::FreeBuffer { buffer: x.1.index_buffer },
        ]);
    } else {
        assert(s.push(x).drop_first() =~= s.drop_first().push(x));
        lemma_free_commands_snoc(s.drop_first(), x);
        assert(s.push(x)[0] == s[0]);
        assert(free_commands(s.push(x)) =~= free_commands(s) + seq![
            GpuCommand::FreeBuffer { buffer: x.1.vertex_buffer },
            GpuCommand::FreeBuffer { buffer: x.1.index_buffer },
        ]);
    }
}

/// The handles `0..=n`.
pub open spec fn handle_range(n: u32) -> Set<u32> {
    Set::new(|d: u32| d <= n)
}

/// `handle_range(n)` holds exactly `n + 1` handles.
pub proof fn lemma_handle_range(n: u32)
    ensures
        handle_range(n).finite(),
        handle_range(n).len() == n + 1,
    decreases n,
{
    if n == 0 {
        assert(handle_range(0) =~= Set::empty().insert(0u32));
    } else {
        lemma_handle_range((n - 1) as u32);
        assert(handle_range(n) =~= handle_range((n - 1) as u32).insert(n));
        assert(!handle_range((n - 1) as u32).contains(n));
    }
}

/// CPU-side state of the mesh pipeline: the resource table and the name of
/// the camera uniform buffer. The graphics state itself (shader, layout)
/// lives with the backend executor under [`PipelineKind::Mesh`].
pub struct MeshPipeline {
    camera_buffer: u64,
    entries: Vec<(u32, MeshEntry)>,
}

impl MeshPipeline {
    /// The resource table, keyed by handle.
    pub closed spec fn table(&self) -> Map<u32, MeshEntry> {
        entries_map(self.entries@)
    }

    /// The resource table in insertion order, the order draws are issued
    /// in.
    pub closed spec fn entry_seq(&self) -> Seq<(u32, MeshEntry)> {
        self.entries@
    }

    /// Name of the camera uniform buffer.
    pub closed spec fn camera_buffer_id(&self) -> u64 {
        self.camera_buffer
    }

    /// Handles in the table are unique.
    pub closed spec fn wf(&self) -> bool {
        keys_distinct(self.entries@)
    }

    /// A fresh pipeline: an empty resource table and a newly allocated
    /// camera uniform buffer, whose creation is appended to `cmds`.
    pub fn new(buffers: &mut BufferIdAllocator, cmds: &mut Vec<GpuCommand>) -> (p: MeshPipeline)
        requires
            old(buffers).can_alloc(1),
        ensures
            p.wf(),
            p.table() == Map::<u32, MeshEntry>::empty(),
            p.entry_seq() == Seq::<(u32, MeshEntry)>::empty(),
            p.camera_buffer_id() == old(buffers).counter(),
            final(buffers).counter() == old(buffers).counter() + 1,
            final(cmds)@ == old(cmds)@.push(
                GpuCommand::CreateUniformBuffer { buffer: old(buffers).counter(), size: 64 },
            ),
    {
        let camera_buffer = buffers.fresh();
        cmds.push(GpuCommand::CreateUniformBuffer { buffer: camera_buffer, size: 64 });
        MeshPipeline { camera_buffer, entries: Vec::new() }
    }

    /// Name of the camera uniform buffer.
    pub fn camera_buffer(&self) -> (b: u64)
        ensures
            b == self.camera_buffer_id(),
    {
        self.camera_buffer
    }

    /// How many meshes are resident in the resource table.
    pub fn num_entries(&self) -> (n: usize)
        ensures
            n == self.entry_seq().len(),
    {
        self.entries.len()
    }

    /// Whether the table holds an entry under `h`.
    pub fn contains_handle(&self, h: u32) -> (r: bool)
        ensures
            r == self.table().contains_key(h),
    {
        proof {
            lemma_entries_map(self.entries@);
        }
        let mut i: usize = 0;
        while i < self.entries.len()
            invariant
                i <= self.entries.len(),
                forall|j: int| 0 <= j < i ==> (#[trigger] self.entries@[j]).0 != h,
                self.table().contains_key(h) == exists|j: int|
                    0 <= j < self.entries@.len() && (#[trigger] self.entries@[j]).0 == h,
            decreases self.entries.len() - i,
        {
            if self.entries[i].0 == h {
                return true;
            }
            i = i + 1;
        }
        false
    }

    /// Picks a handle that is free in the table: a few random draws, then
    /// — in the vanishingly unlikely case that each collides — a sweep
    /// over `0..=len`, which by counting must meet a free handle.
    fn alloc_data_id(&self) -> (h: u32)
        requires
            self.entry_seq().len() < u32::MAX,
        ensures
            !self.table().contains_key(h),
    {
        let mut attempt: usize = 0;
        while attempt < 8
            invariant
                self.entry_seq().len() < u32::MAX,
            decreases 8 - attempt,
        {
            let h: u32 = rand::random::<u32>();
            if !self.contains_handle(h) {
                return h;
            }
            attempt = attempt + 1;
        }
        let n = self.entries.len();
        let mut c: u32 = 0;
        while c <= n as u32
            invariant
                self.entry_seq().len() == n,
                n < u32::MAX,
                c <= n + 1,
                forall|d: u32| d < c ==> #[trigger] self.table().contains_key(d),
            decreases n + 1 - c,
        {
            if !self.contains_handle(c) {
                return c;
            }
            c = c + 1;
        }
        proof {
            // All of 0..=n is taken, yet the table has only n entries.
            lemma_entries_map(self.entries@);
            lemma_handle_range(n as u32);
            let dom = entries_map(self.entries@).dom();
            assert(handle_range(n as u32).subset_of(dom)) by {
                assert forall|d: u32| handle_range(n as u32).contains(d) implies dom.contains(
                    d,
                ) by {
                    assert(self.table().contains_key(d));
                }
            }
            vstd::set_lib::lemma_len_subset(handle_range(n as u32), dom);
            assert(false);
        }
        0
    }

    /// Uploads one mesh: allocates a vertex/index buffer pair, appending
    /// their creation to `cmds`, stores the triple under a fresh handle,
    /// and returns the handle. Fails — changing nothing at all — exactly
    /// when the backend cannot allocate the buffer pair; every earlier
    /// upload stays valid.
    pub fn add_mesh_data(
        &mut self,
        mesh: MeshData,
        buffers: &mut BufferIdAllocator,
        cmds: &mut Vec<GpuCommand>,
    ) -> (r: Result<u32, RenderError>)
        requires
            old(self).wf(),
            old(self).entry_seq().len() < u32::MAX,
            mesh.indices@.len() <= u32::MAX,
        ensures
            final(self).wf(),
            final(self).camera_buffer_id() == old(self).camera_buffer_id(),
            (r is Ok) == old(buffers).can_alloc(2),
            r matches Ok(h) ==> {
                let e = MeshEntry {
                    vertex_buffer: old(buffers).counter(),
                    index_buffer: (old(buffers).counter() + 1) as u64,
                    num_indices: mesh.indices@.len() as u32,
                };
                &&& !old(self).table().contains_key(h)
                &&& final(self).entry_seq() == old(self).entry_seq().push((h, e))
                &&& final(self).table() == old(self).table().insert(h, e)
                &&& final(buffers).counter() == old(buffers).counter() + 2
                &&& final(cmds)@ == old(cmds)@.push(
                    GpuCommand::CreateVertexBuffer {
                        buffer: e.vertex_buffer,
                        vertices: mesh.vertices,
                    },
                ).push(GpuCommand::CreateIndexBuffer { buffer: e.index_buffer, indices: mesh.indices })
            },
            r is Err ==> {
                &&& r == Err::<u32, RenderError>(RenderError::BufferAllocation)
                &&& *final(self) == *old(self)
                &&& *final(buffers) == *old(buffers)
                &&& final(cmds)@ == old(cmds)@
            },
    {
        match buffers.try_fresh_pair() {
            None => Err(RenderError::BufferAllocation),
            Some((vb, ib)) => {
                let num_indices = mesh.indices.len() as u32;
                let id = self.alloc_data_id();
                proof {
                    lemma_entries_map(self.entries@);
                }
                cmds.push(GpuCommand::CreateVertexBuffer { buffer: vb, vertices: mesh.vertices });
                cmds.push(GpuCommand::CreateIndexBuffer { buffer: ib, indices: mesh.indices });
                let entry = MeshEntry { vertex_buffer: vb, index_buffer: ib, num_indices };
                let ghost pre = self.entries@;
                self.entries.push((id, entry));
                proof {
                    assert(forall|i: int| 0 <= i < pre.len() ==> (#[trigger] pre[i]).0 != id);
                    lemma_entries_map_push(pre, id, entry);
                    assert(keys_distinct(self.entries@)) by {
                        assert(forall|i: int|
                            0 <= i < pre.len() ==> #[trigger] self.entries@[i] == pre[i]);
                        assert(self.entries@[pre.len() as int] == (id, entry));
                    }
                }
                Ok(id)
            },
        }
    }

    /// Releases the table entry under `handle` — appending the frees of
    /// its two buffers to `cmds` and removing it from the table — or does
    /// nothing when no entry carries `handle`.
    pub fn remove_mesh_data(&mut self, handle: u32, cmds: &mut Vec<GpuCommand>)
        requires
            old(self).wf(),
        ensures
            final(self).wf(),
            final(self).camera_buffer_id() == old(self).camera_buffer_id(),
            !old(self).table().contains_key(handle) ==> *final(self) == *old(self)
                && final(cmds)@ == old(cmds)@,
            old(self).table().contains_key(handle) ==> {
                let i = key_index(old(self).entry_seq(), handle);
                let e = old(self).table()[handle];
                &&& 0 <= i < old(self).entry_seq().len()
                &&& final(self).entry_seq() == old(self).entry_seq().remove(i)
                &&& final(self).entry_seq().len() == old(self).entry_seq().len() - 1
                &&& final(self).table() == old(self).table().remove(handle)
                &&& final(cmds)@ == old(cmds)@.push(
                    GpuCommand::FreeBuffer { buffer: e.vertex_buffer },
                ).push(GpuCommand::FreeBuffer { buffer: e.index_buffer })
            },
    {
        proof {
            lemma_entries_map(self.entries@);
            lemma_key_index(self.entries@, handle);
        }
        let ghost pre = self.entries@;
        let mut i: usize = 0;
        while i < self.entries.len()
            invariant
                i <= self.entries.len(),
                *self == *old(self),
                cmds@ == old(cmds)@,
                self.entries@ == pre,
                keys_distinct(pre),
                forall|j: int| 0 <= j < i ==> (#[trigger] pre[j]).0 != handle,
                key_index(pre, handle) >= -1,
                key_index(pre, handle) == -1 ==> forall|j: int|
                    0 <= j < pre.len() ==> (#[trigger] pre[j]).0 != handle,
                key_index(pre, handle) >= 0 ==> {
                    let k = key_index(pre, handle);
                    &&& k < pre.len()
                    &&& pre[k].0 == handle
                },
                entries_map(pre).contains_key(handle) == exists|j: int|
                    0 <= j < pre.len() && (#[trigger] pre[j]).0 == handle,
                keys_distinct(pre) ==> forall|j: int|
                    0 <= j < pre.len() ==> entries_map(pre)[(#[trigger] pre[j]).0] == pre[j].1,
            decreases self.entries.len() - i,
        {
            if self.entries[i].0 == handle {
                proof {
                    assert(pre[i as int].0 == handle);
                    assert(key_index(pre, handle) == i) by {
                        lemma_key_index(pre, handle);
                    }
                    assert(entries_map(pre).contains_key(handle));
                    assert(entries_map(pre)[handle] == pre[i as int].1);
                    lemma_entries_map_remove(pre, i as int);
                }
                let (_, e) = self.entries.remove(i);
                cmds.push(GpuCommand::FreeBuffer { buffer: e.vertex_buffer });
                cmds.push(GpuCommand::FreeBuffer { buffer: e.index_buffer });
                proof {
                    assert(keys_distinct(self.entries@)) by {
                        assert forall|a: int, b: int|
                            0 <= a < b < self.entries@.len() implies (#[trigger] self.entries@[
                        a]).0 != (#[trigger] self.entries@[b]).0 by {
                            let a0: int = if a < i { a } else { a + 1 };
                            let b0: int = if b < i { b } else { b + 1 };
                            assert(self.entries@[a] == pre[a0]);
                            assert(self.entries@[b] == pre[b0]);
                        }
                    }
                }
                return ;
            }
            i = i + 1;
        }
        proof {
            assert(key_index(pre, handle) == -1);
            assert(!entries_map(pre).contains_key(handle));
        }
    }

    /// Pushes the camera's view-projection matrix — recomputed by the
    /// caller fresh for this frame, never cached across frames — to the
    /// camera uniform buffer.
    pub fn update(&self, view_proj: Mat4, cmds: &mut Vec<GpuCommand>)
        ensures
            final(cmds)@ == old(cmds)@.push(
                GpuCommand::WriteUniform { buffer: self.camera_buffer_id(), view_proj },
            ),
    {
        cmds.push(GpuCommand::WriteUniform { buffer: self.camera_buffer, view_proj });
    }

    /// Emits this pipeline's draw pass: nothing at all when the table is
    /// empty; otherwise one render pass that keeps the target's contents
    /// (clearing is the background pass's job), binds the pipeline's
    /// graphics state and the camera uniform once, then draws every table
    /// entry in table order.
    pub fn draw(&self, cmds: &mut Vec<GpuCommand>)
        ensures
            self.entry_seq().len() == 0 ==> final(cmds)@ == old(cmds)@,
            self.entry_seq().len() > 0 ==> final(cmds)@ == old(cmds)@ + seq![
                GpuCommand::BeginLoadPass,
                GpuCommand::SetPipeline { kind: PipelineKind::Mesh },
                GpuCommand::BindUniform { buffer: self.camera_buffer_id() },
            ] + draw_commands(self.entry_seq()) + seq![GpuCommand::EndPass],
    {
        if self.entries.len() == 0 {
            return ;
        }
        let ghost start = cmds@;
        cmds.push(GpuCommand::BeginLoadPass);
        cmds.push(GpuCommand::SetPipeline { kind: PipelineKind::Mesh });
        cmds.push(GpuCommand::BindUniform { buffer: self.camera_buffer });
        let ghost prefix = seq![
            GpuCommand::BeginLoadPass,
            GpuCommand::SetPipeline { kind: PipelineKind::Mesh },
            GpuCommand::BindUniform { buffer: self.camera_buffer_id() },
        ];
        proof {
            assert(cmds@ =~= start + prefix);
            assert(self.entries@.subrange(0, 0) =~= Seq::<(u32, MeshEntry)>::empty());
        }
        let mut i: usize = 0;
        while i < self.entries.len()
            invariant
                i <= self.entries.len(),
                cmds@ == start + prefix + draw_commands(self.entries@.subrange(0, i as int)),
            decreases self.entries.len() - i,
        {
            let e = self.entries[i].1;
            cmds.push(GpuCommand::SetVertexBuffer { buffer: e.vertex_buffer });
            cmds.push(GpuCommand::SetIndexBuffer { buffer: e.index_buffer });
            cmds.push(GpuCommand::DrawIndexed { index_count: e.num_indices });
            proof {
                lemma_draw_commands_snoc(
                    self.entries@.subrange(0, i as int),
                    self.entries@[i as int],
                );
                assert(self.entries@.subrange(0, i + 1) =~= self.entries@.subrange(
                    0,
                    i as int,
                ).push(self.entries@[i as int]));
                assert(cmds@ =~= start + prefix + draw_commands(
                    self.entries@.subrange(0, i + 1),
                ));
            }
            i = i + 1;
        }
        cmds.push(GpuCommand::EndPass);
        proof {
            assert(self.entries@.subrange(0, self.entries@.len() as int) =~= self.entries@);
            assert(cmds@ =~= start + prefix + draw_commands(self.entry_seq()) + seq![
                GpuCommand::EndPass,
            ]);
        }
    }

    /// Tears the pipeline down: frees every table entry's buffers in
    /// table order, then the camera uniform buffer, and leaves the table
    /// empty.
    pub fn destroy(&mut self, cmds: &mut Vec<GpuCommand>)
        ensures
            final(self).wf(),
            final(self).entry_seq() == Seq::<(u32, MeshEntry)>::empty(),
            final(self).table() == Map::<u32, MeshEntry>::empty(),
            final(self).camera_buffer_id() == old(self).camera_buffer_id(),
            final(cmds)@ == old(cmds)@ + free_commands(old(self).entry_seq()) + seq![
                GpuCommand::FreeBuffer { buffer: old(self).camera_buffer_id() },
            ],
    {
        let ghost start = cmds@;
        let ghost pre = self.entries@;
        let mut i: usize = 0;
        proof {
            assert(pre.subrange(0, 0) =~= Seq::<(u32, MeshEntry)>::empty());
        }
        while i < self.entries.len()
            invariant
                i <= self.entries.len(),
                self.entries@ == pre,
                cmds@ == start + free_commands(pre.subrange(0, i as int)),
            decreases self.entries.len() - i,
        {
            let e = self.entries[i].1;
            cmds.push(GpuCommand::FreeBuffer { buffer: e.vertex_buffer });
            cmds.push(GpuCommand::FreeBuffer { buffer: e.index_buffer });
            proof {
                lemma_free_commands_snoc(pre.subrange(0, i as int), pre[i as int]);
                assert(pre.subrange(0, i + 1) =~= pre.subrange(0, i as int).push(pre[i as int]));
                assert(cmds@ =~= start + free_commands(pre.subrange(0, i + 1)));
            }
            i = i + 1;
        }
        cmds.push(GpuCommand::FreeBuffer { buffer: self.camera_buffer });
        self.entries = Vec::new();
        proof {
            assert(pre.subrange(0, pre.len() as int) =~= pre);
            assert(cmds@ =~= start + free_commands(pre) + seq![
                GpuCommand::FreeBuffer { buffer: self.camera_buffer_id() },
            ]);
        }
    }
}

} // verus!
