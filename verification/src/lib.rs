//! A retained-mode 3D scene graph with a verified renderer core.
//!
//! Application code builds a tree of nodes (groups, meshes, lines), attaches
//! geometry, and hands the scene to the renderer once per frame. The renderer
//! walks the tree, uploads pending CPU geometry into per-pipeline GPU buffer
//! tables, and emits one ordered stream of backend commands per frame. The
//! GPU backend itself (device, surface, event loop) lives outside this crate;
//! the command stream is the boundary.

pub mod buffer_attribute;
pub mod buffer_geometry;
pub mod color;
pub mod gpu;
pub mod materials;
pub mod math;
pub mod object;
pub mod objects;
pub mod pipeline;
pub mod pipeline_storage;
pub mod primitive;
pub mod renderer;
pub mod scene;
pub mod tree;
pub mod vertex;
