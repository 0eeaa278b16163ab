//! Point-list geometry, the input to line objects.

use vstd::prelude::*;
use crate::vertex::Vertex;

verus! {

/// A bare list of points in space.
pub struct BufferGeometry {
    pub position: Vec<Vertex>,
}

impl BufferGeometry {
    /// An empty point list.
    pub fn new() -> (g: BufferGeometry)
        ensures
            g.position@ == Seq::<Vertex>::empty(),
    {
        BufferGeometry { position: Vec::new() }
    }

    /// Replaces the point list with `points`.
    pub fn set_from_points(&mut self, points: Vec<Vertex>)
        ensures
            final(self).position == points,
    {
        self.position = points;
    }
}

} // verus!
