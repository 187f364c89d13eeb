//! Voxels, the palette of voxel type metadata, chunk keys and chunks.
//!
//! A voxel stores only a small integer type index; everything richer (such as
//! whether the type is empty) lives in the `VoxelPalette`, indexed by that
//! number. A chunk is a dense array of voxels covering a fixed cuboid region;
//! within a chunk, voxels are stored in Morton (Z-curve) order, so that the
//! eight equal contiguous eighths of the array are exactly the eight spatial
//! octants of the chunk.

use vstd::prelude::*;

verus! {

/// The smallest addressable volume element: only a type index, nothing more.
#[derive(Clone, Copy, PartialEq, Eq, Structural, Debug)]
pub struct Voxel {
    pub type_index: u16,
}

/// Per-type metadata looked up through the palette.
#[derive(Clone, Copy, PartialEq, Eq, Structural, Debug)]
pub struct VoxelTypeInfo {
    pub is_empty: bool,
}

/// Integer 3D coordinate identifying one chunk of the volume.
#[derive(Clone, Copy, PartialEq, Eq, Structural, Hash, Debug)]
pub struct ChunkKey {
    pub x: i32,
    pub y: i32,
    pub z: i32,
}

/// An ordered table mapping a voxel's type index to its metadata.
pub struct VoxelPalette {
    pub infos: Vec<VoxelTypeInfo>,
}

impl VoxelPalette {
    /// A voxel is valid for this palette when its type index is in range.
    pub open spec fn valid_voxel(self, v: Voxel) -> bool {
        (v.type_index as int) < self.infos@.len()
    }

    /// Whether a voxel is of an empty type, per this palette.
    pub open spec fn voxel_is_empty(self, v: Voxel) -> bool {
        self.infos@[v.type_index as int].is_empty
    }

    /// O(1) metadata lookup; an out-of-range index is a programming error and
    /// is excluded by precondition rather than handled at runtime.
    pub fn get_voxel_type_info(&self, voxel: Voxel) -> (r: &VoxelTypeInfo)
        requires
            self.valid_voxel(voxel),
        ensures
            *r == self.infos@[voxel.type_index as int],
    {
        &self.infos[voxel.type_index as usize]
    }
}

/// A dense array of voxels over one chunk's extent, in Morton order.
pub struct Chunk {
    pub voxels: Vec<Voxel>,
}

/// Every voxel of the sequence maps to a palette entry marked empty.
pub open spec fn all_voxels_empty(vs: Seq<Voxel>, palette: VoxelPalette) -> bool {
    forall|i: int| 0 <= i < vs.len() ==> palette.voxel_is_empty(#[trigger] vs[i])
}

/// A chunk-sized array with every element set to the same (ambient) value.
pub fn default_array(volume: usize, value: Voxel) -> (r: Chunk)
    ensures
        r.voxels@.len() == volume,
        forall|i: int| 0 <= i < volume ==> r.voxels@[i] == value,
{
    let mut voxels: Vec<Voxel> = Vec::new();
    let mut n: usize = 0;
    while n < volume
        invariant
            n <= volume,
            voxels@.len() == n,
            forall|i: int| 0 <= i < n ==> voxels@[i] == value,
        decreases volume - n,
    {
        voxels.push(value);
        n = n + 1;
    }
    Chunk { voxels }
}

} // verus!
