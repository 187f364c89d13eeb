//! A chunked, sparse voxel volume engine: a compressible chunk store with
//! LRU eviction under a memory budget, double-buffered edit accumulation with
//! dirty-chunk tracking, and a per-chunk occupancy-octree spatial index that
//! is regenerated incrementally from the dirty set.

pub mod bvt;
pub mod chunk_compressor;
pub mod codec;
pub mod edit_buffer;
pub mod empty_chunk_remover;
pub mod map;
pub mod voxel;
