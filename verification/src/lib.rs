//! Bridge from a callback-driven BVH builder to a GPU-oriented compressed
//! wide BVH (CWBVH), with a companion binary-tree extraction path.
//!
//! The builder is driven through four callbacks that materialize an n-ary
//! tree of nodes inside an index-addressed arena; a post-build pass permutes
//! each inner node's children into ray-direction-coherent slots; an encoder
//! then linearizes the tree into a flat array of quantized fixed-layout
//! nodes plus a flat primitive-index array.
//!
//! All geometry is carried in fixed-point integer coordinates, so unions,
//! centers and the power-of-two quantization are exact.

pub mod aabb;
pub mod bvh2;
pub mod cwbvh;
pub mod node;
pub mod quant;
pub mod reorder;
pub mod split;
