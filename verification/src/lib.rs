//! Voxel-world storage, meshing and streaming core.
//!
//! The world is a boundless grid of typed blocks, stored as chunked columns:
//! `pos` maps global coordinates to (chunk index, local offset) pairs,
//! `block` names the block types and face directions, `chunk` and `col` hold
//! the packed block data, `world` keys columns by their coordinate, `greedy`
//! and `mesh` turn block data into merged surface quads and geometry
//! buffers, and `streaming` with `gen` keep a bounded set of generated
//! columns centered on a moving observer.

pub mod pos;
pub mod block;
pub mod chunk;
pub mod col;
pub mod world;
pub mod greedy;
pub mod mesh;
pub mod streaming;
pub mod gen;
