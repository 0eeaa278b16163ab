//! A typed attribute buffer: a flat list of per-vertex values.

use vstd::prelude::*;

verus! {

/// A buffer of per-vertex attribute values of one element type.
pub struct BufferAttribute<T> {
    pub data: Vec<T>,
    pub normalized: bool,
}

impl<T> BufferAttribute<T> {
    /// Wraps `data` as a non-normalized attribute buffer.
    pub fn new(data: Vec<T>) -> (r: BufferAttribute<T>)
        ensures
            r.data == data,
            !r.normalized,
    {
        BufferAttribute { data, normalized: false }
    }
}

} // verus!
