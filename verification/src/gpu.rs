//! The backend command boundary.
//!
//! The renderer core does not talk to a GPU device: a frame is an ordered
//! stream of [`GpuCommand`] values, and an executor outside this crate
//! (device, surface, window shell) carries each command out against the
//! real backend. Buffers are named by identifiers that the core hands out;
//! the executor maps them to device buffer objects.

use vstd::prelude::*;
use crate::color::Color;
use crate::math::Mat4;
use crate::pipeline_storage::PipelineKind;
use crate::vertex::Vertex;

verus! {

/// One backend operation, in frame order.
#[derive(Clone, Debug, PartialEq)]
pub enum GpuCommand {
    /// Allocate a device vertex buffer named `buffer` and fill it from
    /// `vertices`.
    CreateVertexBuffer { buffer: u64, vertices: Vec<Vertex> },
    /// Allocate a device index buffer named `buffer` and fill it from
    /// `indices`.
    CreateIndexBuffer { buffer: u64, indices: Vec<u32> },
    /// Allocate a device uniform buffer named `buffer` of `size` bytes.
    CreateUniformBuffer { buffer: u64, size: u64 },
    /// Release the device buffer named `buffer`.
    FreeBuffer { buffer: u64 },
    /// Overwrite the uniform buffer named `buffer` with a view-projection
    /// matrix.
    WriteUniform { buffer: u64, view_proj: Mat4 },
    /// Begin a render pass that clears the target to `color`.
    BeginClearPass { color: Color },
    /// Begin a render pass that keeps the target's existing contents.
    BeginLoadPass,
    /// Bind the graphics state of the pipeline of `kind`.
    SetPipeline { kind: PipelineKind },
    /// Bind the uniform buffer named `buffer` for the current pass.
    BindUniform { buffer: u64 },
    /// Bind the vertex buffer named `buffer` for the next draw.
    SetVertexBuffer { buffer: u64 },
    /// Bind the index buffer named `buffer` for the next draw.
    SetIndexBuffer { buffer: u64 },
    /// Draw `index_count` indices from the bound buffers.
    DrawIndexed { index_count: u32 },
    /// End the current render pass.
    EndPass,
    /// Submit everything recorded so far to the device queue.
    Submit,
    /// Present the target surface.
    Present,
}

/// Hands out device buffer names, never reusing one. Exhausting the name
/// space stands for the backend refusing an allocation; callers surface
/// that as a recoverable error.
pub struct BufferIdAllocator {
    next: u64,
}

impl BufferIdAllocator {
    /// The next buffer name this allocator would hand out.
    pub closed spec fn counter(&self) -> u64 {
        self.next
    }

    /// Whether `n` more buffer names can still be handed out.
    pub open spec fn can_alloc(&self, n: nat) -> bool {
        self.counter() + n <= u64::MAX
    }

    /// A fresh allocator.
    pub fn new() -> (a: BufferIdAllocator)
        ensures
            a.counter() == 0,
    {
        BufferIdAllocator { next: 0 }
    }

    /// An allocator whose next name is `next`; useful to drive the
    /// allocator close to exhaustion.
    pub fn starting_at(next: u64) -> (a: BufferIdAllocator)
        ensures
            a.counter() == next,
    {
        BufferIdAllocator { next }
    }

    /// Whether a vertex/index buffer pair can still be allocated.
    pub fn has_pair(&self) -> (r: bool)
        ensures
            r == self.can_alloc(2),
    {
        self.next <= u64::MAX - 2
    }

    /// Hands out two fresh buffer names — a vertex/index pair — or
    /// reports exhaustion, changing nothing.
    pub fn try_fresh_pair(&mut self) -> (r: Option<(u64, u64)>)
        ensures
            old(self).can_alloc(2) ==> {
                &&& r == Some((old(self).counter(), (old(self).counter() + 1) as u64))
                &&& final(self).counter() == old(self).counter() + 2
            },
            !old(self).can_alloc(2) ==> r is None && *final(self) == *old(self),
    {
        if self.next <= u64::MAX - 2 {
            let a = self.next;
            self.next = self.next + 2;
            Some((a, a + 1))
        } else {
            None
        }
    }

    /// Hands out one fresh buffer name.
    pub fn fresh(&mut self) -> (id: u64)
        requires
            old(self).can_alloc(1),
        ensures
            id == old(self).counter(),
            final(self).counter() == old(self).counter() + 1,
    {
        let id = self.next;
        self.next = self.next + 1;
        id
    }
}

} // verus!
