//! The spatial index: per-chunk occupancy octrees keyed by chunk coordinate,
//! rebuilt only for dirty chunks.
//!
//! A chunk's voxels are stored in Morton order, so the eight equal contiguous
//! eighths of the voxel array are exactly the chunk's eight spatial octants:
//! the octree recursion subdivides the index range and thereby the cube. A
//! node is `Empty` or `Full` when its whole region is, and a `Branch`
//! otherwise, which keeps the summary compact.

use vstd::prelude::*;

use crate::edit_buffer::DirtyChunks;
use crate::empty_chunk_remover::EmptyChunks;
use crate::map::{is_pow8, lemma_pow2_cube_pow8, LocalChunkCache, VoxelMap};
use crate::voxel::{all_voxels_empty, Chunk, ChunkKey, Voxel, VoxelPalette};

verus! {

/// The eight children of an octree branch, one per octant, in Morton order.
pub struct OctreeChildren {
    pub c0: Octree,
    pub c1: Octree,
    pub c2: Octree,
    pub c3: Octree,
    pub c4: Octree,
    pub c5: Octree,
    pub c6: Octree,
    pub c7: Octree,
}

/// A compact occupancy summary of one chunk region: which sub-regions hold
/// any non-empty voxel.
pub enum Octree {
    Empty,
    Full,
    Branch(Box<OctreeChildren>),
}

impl Octree {
    /// Faithfulness of a node to the occupancy sequence over the index range
    /// `[lo, lo + len)`: `Empty` regions hold no occupied voxel, `Full`
    /// regions only occupied ones, and a branch delegates to its octants.
    pub open spec fn describes(self, occ: Seq<bool>, lo: int, len: int) -> bool
        decreases self,
    {
        match self {
            Octree::Empty => forall|i: int| lo <= i < lo + len ==> !occ[i],
            Octree::Full => forall|i: int| lo <= i < lo + len ==> occ[i],
            Octree::Branch(ch) => {
                let h = len / 8;
                &&& len >= 8
                &&& len % 8 == 0
                &&& ch.c0.describes(occ, lo, h)
                &&& ch.c1.describes(occ, lo + h, h)
                &&& ch.c2.describes(occ, lo + 2 * h, h)
                &&& ch.c3.describes(occ, lo + 3 * h, h)
                &&& ch.c4.describes(occ, lo + 4 * h, h)
                &&& ch.c5.describes(occ, lo + 5 * h, h)
                &&& ch.c6.describes(occ, lo + 6 * h, h)
                &&& ch.c7.describes(occ, lo + 7 * h, h)
            },
        }
    }

    pub fn is_empty(&self) -> (r: bool)
        ensures
            r == (*self is Empty),
    {
        matches!(self, Octree::Empty)
    }

    pub fn is_full(&self) -> (r: bool)
        ensures
            r == (*self is Full),
    {
        matches!(self, Octree::Full)
    }
}

/// Which voxels of a chunk are occupied (of a non-empty palette type).
pub open spec fn occupancy(vs: Seq<Voxel>, palette: VoxelPalette) -> Seq<bool> {
    Seq::new(vs.len(), |i: int| !palette.voxel_is_empty(vs[i]))
}

/// Materialize a chunk's occupancy through the voxel-info transform, one
/// palette lookup per voxel.
fn chunk_occupancy(c: &Chunk, palette: &VoxelPalette) -> (r: Vec<bool>)
    requires
        forall|i: int| 0 <= i < c.voxels@.len() ==> palette.valid_voxel(#[trigger] c.voxels@[i]),
    ensures
        r@ == occupancy(c.voxels@, *palette),
{
    let n = c.voxels.len();
    let mut out: Vec<bool> = Vec::new();
    let mut i: usize = 0;
    while i < n
        invariant
            i <= n,
            n == c.voxels@.len(),
            forall|j: int| 0 <= j < n ==> palette.valid_voxel(#[trigger] c.voxels@[j]),
            out@.len() == i,
            forall|j: int| 0 <= j < i ==> out@[j] == !palette.voxel_is_empty(c.voxels@[j]),
        decreases n - i,
    {
        let info = palette.get_voxel_type_info(c.voxels[i]);
        out.push(!info.is_empty);
        i = i + 1;
    }
    proof {
        assert(out@ =~= occupancy(c.voxels@, *palette));
    }
    out
}

/// Build the occupancy octree of the index range `[lo, lo + len)`, whose
/// length is a power of eight. The root is `Empty` exactly when the range
/// holds no occupied voxel.
fn build_octree(occ: &Vec<bool>, lo: usize, len: usize) -> (t: Octree)
    requires
        is_pow8(len as int),
        lo + len <= occ@.len(),
    ensures
        t.describes(occ@, lo as int, len as int),
        (t is Empty) <==> (forall|i: int| lo <= i < lo + len ==> !occ@[i]),
    decreases len,
{
    if len == 1 {
        if occ[lo] {
            Octree::Full
        } else {
            Octree::Empty
        }
    } else {
        assert(len % 8 == 0 && len >= 8 && is_pow8(len as int / 8));
        let total = occ.len();
        assert(lo + len <= total);
        let h = len / 8;
        assert(8 * h == len);
        assert(lo + 7 * h + h <= total);
        let c0 = build_octree(occ, lo, h);
        let c1 = build_octree(occ, lo + h, h);
        let c2 = build_octree(occ, lo + 2 * h, h);
        let c3 = build_octree(occ, lo + 3 * h, h);
        let c4 = build_octree(occ, lo + 4 * h, h);
        let c5 = build_octree(occ, lo + 5 * h, h);
        let c6 = build_octree(occ, lo + 6 * h, h);
        let c7 = build_octree(occ, lo + 7 * h, h);
        let all_empty = c0.is_empty() && c1.is_empty() && c2.is_empty() && c3.is_empty()
            && c4.is_empty() && c5.is_empty() && c6.is_empty() && c7.is_empty();
        if all_empty {
            proof {
                assert forall|i: int| lo <= i < lo + len implies !occ@[i] by {
                    let l = lo as int;
                    if i < l + h {
                    } else if i < l + 2 * h {
                    } else if i < l + 3 * h {
                    } else if i < l + 4 * h {
                    } else if i < l + 5 * h {
                    } else if i < l + 6 * h {
                    } else if i < l + 7 * h {
                    } else {
                    }
                }
            }
            Octree::Empty
        } else {
            let all_full = c0.is_full() && c1.is_full() && c2.is_full() && c3.is_full()
                && c4.is_full() && c5.is_full() && c6.is_full() && c7.is_full();
            proof {
                if !(c0 is Empty) {
                    assert(exists|i: int| lo <= i < lo + h && occ@[i]);
                } else if !(c1 is Empty) {
                    assert(exists|i: int| lo + h <= i < lo + 2 * h && occ@[i]);
                } else if !(c2 is Empty) {
                    assert(exists|i: int| lo + 2 * h <= i < lo + 3 * h && occ@[i]);
                } else if !(c3 is Empty) {
                    assert(exists|i: int| lo + 3 * h <= i < lo + 4 * h && occ@[i]);
                } else if !(c4 is Empty) {
                    assert(exists|i: int| lo + 4 * h <= i < lo + 5 * h && occ@[i]);
                } else if !(c5 is Empty) {
                    assert(exists|i: int| lo + 5 * h <= i < lo + 6 * h && occ@[i]);
                } else if !(c6 is Empty) {
                    assert(exists|i: int| lo + 6 * h <= i < lo + 7 * h && occ@[i]);
                } else {
                    assert(exists|i: int| lo + 7 * h <= i < lo + 8 * h && occ@[i]);
                }
                assert(exists|i: int| lo <= i < lo + len && occ@[i]);
            }
            if all_full {
                proof {
                    assert forall|i: int| lo <= i < lo + len implies occ@[i] by {
                        let l = lo as int;
                        if i < l + h {
                        } else if i < l + 2 * h {
                        } else if i < l + 3 * h {
                        } else if i < l + 4 * h {
                        } else if i < l + 5 * h {
                        } else if i < l + 6 * h {
                        } else if i < l + 7 * h {
                        } else {
                        }
                    }
                }
                Octree::Full
            } else {
                Octree::Branch(
                    Box::new(OctreeChildren { c0, c1, c2, c3, c4, c5, c6, c7 }),
                )
            }
        }
    }
}

/// One spatial-index entry: the occupancy octree of a non-empty chunk.
pub struct BvtEntry {
    pub key: ChunkKey,
    pub octree: Octree,
}

/// The dynamic bounding-volume index over per-chunk occupancy octrees.
/// Entries exist only for chunks holding at least one non-empty voxel.
pub struct VoxelBVT {
    pub entries: Vec<BvtEntry>,
}

impl VoxelBVT {
    pub open spec fn wf(self) -> bool {
        forall|i: int, j: int| 0 <= i < j < self.entries@.len() ==> self.entries@[i].key != self.entries@[j].key
    }

    pub open spec fn has_entry(self, k: ChunkKey) -> bool {
        exists|i: int| 0 <= i < self.entries@.len() && self.entries@[i].key == k
    }

    pub open spec fn entry_idx(self, k: ChunkKey) -> int {
        choose|i: int| 0 <= i < self.entries@.len() && self.entries@[i].key == k
    }

    pub open spec fn octree_at(self, k: ChunkKey) -> Octree {
        self.entries@[self.entry_idx(k)].octree
    }

    pub proof fn lemma_entry_idx_unique(self, k: ChunkKey, i: int)
        requires
            self.wf(),
            0 <= i < self.entries@.len(),
            self.entries@[i].key == k,
        ensures
            self.entry_idx(k) == i,
            self.has_entry(k),
    {
        assert(self.has_entry(k));
        let j = self.entry_idx(k);
        if i < j {
            assert(self.entries@[i].key != self.entries@[j].key);
        } else if j < i {
            assert(self.entries@[j].key != self.entries@[i].key);
        }
    }

    fn find(&self, k: ChunkKey) -> (r: Option<usize>)
        requires
            self.wf(),
        ensures
            match r {
                Some(i) => i < self.entries@.len() && self.entries@[i as int].key == k
                    && self.entry_idx(k) == i && self.has_entry(k),
                None => !self.has_entry(k),
            },
    {
        let n = self.entries.len();
        let mut i: usize = 0;
        while i < n
            invariant
                i <= n,
                n == self.entries@.len(),
                self.wf(),
                forall|j: int| 0 <= j < i ==> self.entries@[j].key != k,
            decreases n - i,
        {
            if self.entries[i].key == k {
                proof {
                    self.lemma_entry_idx_unique(k, i as int);
                }
                return Some(i);
            }
            i = i + 1;
        }
        None
    }

    pub fn new() -> (r: Self)
        ensures
            r.wf(),
            r.entries@.len() == 0,
            forall|k: ChunkKey| !r.has_entry(k),
    {
        VoxelBVT { entries: Vec::new() }
    }

    /// Insert or replace the entry for chunk `k`.
    pub fn insert(&mut self, k: ChunkKey, octree: Octree)
        requires
            old(self).wf(),
        ensures
            final(self).wf(),
            final(self).has_entry(k),
            final(self).octree_at(k) == octree,
            forall|k2: ChunkKey|
                k2 != k ==> (#[trigger] final(self).has_entry(k2)) == old(self).has_entry(k2),
            forall|k2: ChunkKey|
                k2 != k && old(self).has_entry(k2) ==> (#[trigger] final(self).octree_at(k2))
                    == old(self).octree_at(k2),
    {
        let ghost b0 = *self;
        match self.find(k) {
            Some(i) => {
                self.entries.set(i, BvtEntry { key: k, octree });
                proof {
                    let es0 = b0.entries@;
                    let es1 = self.entries@;
                    assert(forall|j: int| 0 <= j < es1.len() && j != i ==> es1[j] == es0[j]);
                    assert(forall|j: int| 0 <= j < es1.len() ==> (#[trigger] es1[j]).key == es0[j].key);
                    assert(self.wf());
                    self.lemma_entry_idx_unique(k, i as int);
                    assert forall|k2: ChunkKey| k2 != k implies (#[trigger] self.has_entry(k2))
                        == b0.has_entry(k2) by {
                        if self.has_entry(k2) {
                            let j = choose|j: int| 0 <= j < es1.len() && es1[j].key == k2;
                            assert(es0[j].key == k2);
                        }
                        if b0.has_entry(k2) {
                            let j = choose|j: int| 0 <= j < es0.len() && es0[j].key == k2;
                            assert(es1[j].key == k2);
                        }
                    }
                    assert forall|k2: ChunkKey| k2 != k && b0.has_entry(k2) implies (
                    #[trigger] self.octree_at(k2)) == b0.octree_at(k2) by {
                        let j = choose|j: int| 0 <= j < es0.len() && es0[j].key == k2;
                        b0.lemma_entry_idx_unique(k2, j);
                        self.lemma_entry_idx_unique(k2, j);
                        assert(j != i);
                        assert(es1[j] == es0[j]);
                    }
                }
            },
            None => {
                let ghost idx = self.entries@.len() as int;
                self.entries.push(BvtEntry { key: k, octree });
                proof {
                    let es0 = b0.entries@;
                    let es1 = self.entries@;
                    assert(forall|j: int| 0 <= j < es0.len() ==> (#[trigger] es0[j]).key != k);
                    assert(forall|j: int| 0 <= j < es0.len() ==> es1[j] == es0[j]);
                    assert(self.wf());
                    self.lemma_entry_idx_unique(k, idx);
                    assert forall|k2: ChunkKey| k2 != k implies (#[trigger] self.has_entry(k2))
                        == b0.has_entry(k2) by {
                        if self.has_entry(k2) {
                            let j = choose|j: int| 0 <= j < es1.len() && es1[j].key == k2;
                            assert(j != idx);
                            assert(es0[j].key == k2);
                        }
                        if b0.has_entry(k2) {
                            let j = choose|j: int| 0 <= j < es0.len() && es0[j].key == k2;
                            assert(es1[j].key == k2);
                        }
                    }
                    assert forall|k2: ChunkKey| k2 != k && b0.has_entry(k2) implies (
                    #[trigger] self.octree_at(k2)) == b0.octree_at(k2) by {
                        let j = choose|j: int| 0 <= j < es0.len() && es0[j].key == k2;
                        b0.lemma_entry_idx_unique(k2, j);
                        self.lemma_entry_idx_unique(k2, j);
                        assert(es1[j] == es0[j]);
                    }
                }
            },
        }
    }

    /// Remove the entry for chunk `k`, if any.
    pub fn remove(&mut self, k: ChunkKey)
        requires
            old(self).wf(),
        ensures
            final(self).wf(),
            !final(self).has_entry(k),
            forall|k2: ChunkKey|
                k2 != k ==> (#[trigger] final(self).has_entry(k2)) == old(self).has_entry(k2),
            forall|k2: ChunkKey|
                k2 != k && old(self).has_entry(k2) ==> (#[trigger] final(self).octree_at(k2))
                    == old(self).octree_at(k2),
    {
        let ghost b0 = *self;
        match self.find(k) {
            None => {},
            Some(idx) => {
                self.entries.remove(idx);
                proof {
                    let es0 = b0.entries@;
                    let es1 = self.entries@;
                    assert(es1 == es0.remove(idx as int));
                    assert(forall|j: int| 0 <= j < idx ==> es1[j] == es0[j]);
                    assert(forall|j: int| idx <= j < es1.len() ==> es1[j] == es0[j + 1]);
                    assert forall|j1: int, j2: int|
                        0 <= j1 < j2 < es1.len() implies es1[j1].key != es1[j2].key by {
                        let m1 = if j1 < idx as int { j1 } else { j1 + 1 };
                        let m2 = if j2 < idx as int { j2 } else { j2 + 1 };
                        assert(es1[j1] == es0[m1] && es1[j2] == es0[m2] && m1 < m2);
                    }
                    assert(self.wf());
                    assert(!self.has_entry(k)) by {
                        if self.has_entry(k) {
                            let j = choose|j: int| 0 <= j < es1.len() && es1[j].key == k;
                            let m = if j < idx as int { j } else { j + 1 };
                            assert(es0[m].key == k && es0[idx as int].key == k && m != idx);
                        }
                    }
                    assert forall|k2: ChunkKey| k2 != k implies (#[trigger] self.has_entry(k2))
                        == b0.has_entry(k2) by {
                        if self.has_entry(k2) {
                            let j = choose|j: int| 0 <= j < es1.len() && es1[j].key == k2;
                            let m = if j < idx as int { j } else { j + 1 };
                            assert(es0[m].key == k2);
                        }
                        if b0.has_entry(k2) {
                            let j = choose|j: int| 0 <= j < es0.len() && es0[j].key == k2;
                            assert(j != idx);
                            if j < idx as int {
                                assert(es1[j].key == k2);
                            } else {
                                assert(es1[j - 1].key == k2);
                            }
                        }
                    }
                    assert forall|k2: ChunkKey| k2 != k && b0.has_entry(k2) implies (
                    #[trigger] self.octree_at(k2)) == b0.octree_at(k2) by {
                        let j = choose|j: int| 0 <= j < es0.len() && es0[j].key == k2;
                        b0.lemma_entry_idx_unique(k2, j);
                        assert(j != idx);
                        let j1 = if j < idx as int { j } else { j - 1 };
                        assert(es1[j1] == es0[j]);
                        self.lemma_entry_idx_unique(k2, j1);
                    }
                }
            },
        }
    }
}

/// Whether a chunk key lies in the inclusive key-space box `[lo, hi]`.
pub open spec fn key_in_box(lo: ChunkKey, hi: ChunkKey, k: ChunkKey) -> bool {
    &&& lo.x <= k.x <= hi.x
    &&& lo.y <= k.y <= hi.y
    &&& lo.z <= k.z <= hi.z
}

impl VoxelBVT {
    /// Broad-phase query: the candidate chunk keys with an index entry inside
    /// the inclusive key-space box `[lo, hi]`.
    pub fn query(&self, lo: ChunkKey, hi: ChunkKey) -> (r: Vec<ChunkKey>)
        requires
            self.wf(),
        ensures
            r@.no_duplicates(),
            forall|k: ChunkKey| r@.contains(k) <==> (self.has_entry(k) && key_in_box(lo, hi, k)),
    {
        let n = self.entries.len();
        let mut r: Vec<ChunkKey> = Vec::new();
        let mut i: usize = 0;
        while i < n
            invariant
                i <= n,
                n == self.entries@.len(),
                self.wf(),
                r@.no_duplicates(),
                forall|k: ChunkKey|
                    r@.contains(k) <==> (exists|j: int|
                        0 <= j < i && (#[trigger] self.entries@[j]).key == k && key_in_box(lo, hi, k)),
            decreases n - i,
        {
            let k = self.entries[i].key;
            if lo.x <= k.x && k.x <= hi.x && lo.y <= k.y && k.y <= hi.y && lo.z <= k.z && k.z
                <= hi.z {
                let ghost r0 = r@;
                proof {
                    if r0.contains(k) {
                        let j = choose|j: int|
                            0 <= j < i && (#[trigger] self.entries@[j]).key == k && key_in_box(
                                lo,
                                hi,
                                k,
                            );
                        assert(self.entries@[j].key == self.entries@[i as int].key && j < i);
                    }
                }
                r.push(k);
                proof {
                    assert forall|j1: int, j2: int| 0 <= j1 < j2 < r@.len() implies r@[j1] != r@[j2] by {
                        if j2 == r@.len() - 1 {
                            assert(r@[j1] == r0[j1]);
                            assert(r0.contains(r0[j1]));
                        }
                    }
                    assert forall|k2: ChunkKey| r@.contains(k2) implies (exists|j: int|
                        0 <= j < i + 1 && (#[trigger] self.entries@[j]).key == k2 && key_in_box(
                            lo,
                            hi,
                            k2,
                        )) by {
                        let p = choose|p: int| 0 <= p < r@.len() && r@[p] == k2;
                        if p < r@.len() - 1 {
                            assert(r0.contains(k2));
                        } else {
                            assert(self.entries@[i as int].key == k2);
                        }
                    }
                    assert forall|k2: ChunkKey| (exists|j: int|
                        0 <= j < i + 1 && (#[trigger] self.entries@[j]).key == k2 && key_in_box(
                            lo,
                            hi,
                            k2,
                        )) implies r@.contains(k2) by {
                        let j = choose|j: int|
                            0 <= j < i + 1 && (#[trigger] self.entries@[j]).key == k2 && key_in_box(
                                lo,
                                hi,
                                k2,
                            );
                        if j < i {
                            assert(r0.contains(k2));
                            let p = choose|p: int| 0 <= p < r0.len() && r0[p] == k2;
                            assert(r@[p] == k2);
                        } else {
                            assert(r@[r@.len() - 1] == k2);
                        }
                    }
                }
            } else {
                proof {
                    assert forall|k2: ChunkKey| r@.contains(k2) implies (exists|j: int|
                        0 <= j < i + 1 && (#[trigger] self.entries@[j]).key == k2 && key_in_box(
                            lo,
                            hi,
                            k2,
                        )) by {}
                    assert forall|k2: ChunkKey| (exists|j: int|
                        0 <= j < i + 1 && (#[trigger] self.entries@[j]).key == k2 && key_in_box(
                            lo,
                            hi,
                            k2,
                        )) implies r@.contains(k2) by {
                        let j = choose|j: int|
                            0 <= j < i + 1 && (#[trigger] self.entries@[j]).key == k2 && key_in_box(
                                lo,
                                hi,
                                k2,
                            );
                        assert(j < i || self.entries@[j].key == k);
                    }
                }
            }
            i = i + 1;
        }
        r
    }
}

/// Index consistency at one chunk key: the index has an entry exactly when
/// the store holds the chunk and it has at least one non-empty voxel, and
/// the entry's octree is faithful to the chunk's occupancy.
pub open spec fn index_consistent_at(m: VoxelMap, bvt: VoxelBVT, k: ChunkKey) -> bool {
    &&& (bvt.has_entry(k) <==> (m.has_chunk(k) && !all_voxels_empty(m.content_at(k), m.palette)))
    &&& (bvt.has_entry(k) ==> bvt.octree_at(k).describes(
        occupancy(m.content_at(k), m.palette),
        0,
        m.config.volume as int,
    ))
}

/// The chunk keys a regeneration pass marks for removal, in order: those
/// dirty keys whose chunk exists and holds only empty-type voxels.
pub open spec fn empty_marks(m: VoxelMap, ks: Seq<ChunkKey>) -> Seq<ChunkKey>
    decreases ks.len(),
{
    if ks.len() == 0 {
        Seq::<ChunkKey>::empty()
    } else {
        let rest = empty_marks(m, ks.drop_last());
        if m.has_chunk(ks.last()) && all_voxels_empty(m.content_at(ks.last()), m.palette) {
            rest.push(ks.last())
        } else {
            rest
        }
    }
}

/// Each all-empty dirty chunk is marked for removal exactly once: over a
/// duplicate-free dirty set the marks are duplicate-free, and a key is
/// marked exactly when it is dirty, present in the store, and entirely
/// empty.
pub proof fn lemma_empty_marks(m: VoxelMap, ks: Seq<ChunkKey>)
    requires
        ks.no_duplicates(),
    ensures
        empty_marks(m, ks).no_duplicates(),
        forall|k: ChunkKey|
            #[trigger] empty_marks(m, ks).contains(k) <==> (ks.contains(k) && m.has_chunk(k)
                && all_voxels_empty(m.content_at(k), m.palette)),
    decreases ks.len(),
{
    if ks.len() == 0 {
    } else {
        let pre = ks.drop_last();
        let k_last = ks.last();
        assert(pre.no_duplicates()) by {
            assert(forall|i: int| 0 <= i < pre.len() ==> pre[i] == ks[i]);
        }
        lemma_empty_marks(m, pre);
        let rest = empty_marks(m, pre);
        assert(!pre.contains(k_last)) by {
            if pre.contains(k_last) {
                let j = choose|j: int| 0 <= j < pre.len() && pre[j] == k_last;
                assert(ks[j] == ks[ks.len() - 1] && j < ks.len() - 1);
            }
        }
        assert(!rest.contains(k_last));
        assert forall|x: ChunkKey| x != k_last implies (ks.contains(x) == pre.contains(x)) by {
            if ks.contains(x) {
                let j = choose|j: int| 0 <= j < ks.len() && ks[j] == x;
                assert(j < ks.len() - 1);
                assert(pre[j] == x);
            }
            if pre.contains(x) {
                let j = choose|j: int| 0 <= j < pre.len() && pre[j] == x;
                assert(ks[j] == x);
            }
        }
        assert(ks.contains(k_last)) by {
            assert(ks[ks.len() - 1] == k_last);
        }
        let marks = empty_marks(m, ks);
        if m.has_chunk(k_last) && all_voxels_empty(m.content_at(k_last), m.palette) {
            assert(marks == rest.push(k_last));
            assert forall|j1: int, j2: int| 0 <= j1 < j2 < marks.len() implies marks[j1]
                != marks[j2] by {
                if j2 == marks.len() - 1 {
                    assert(marks[j1] == rest[j1]);
                    assert(rest.contains(rest[j1]));
                } else {
                    assert(marks[j1] == rest[j1] && marks[j2] == rest[j2]);
                }
            }
            assert forall|x: ChunkKey| #[trigger] marks.contains(x) implies (ks.contains(x)
                && m.has_chunk(x) && all_voxels_empty(m.content_at(x), m.palette)) by {
                if x != k_last {
                    let j = choose|j: int| 0 <= j < marks.len() && marks[j] == x;
                    assert(j < marks.len() - 1);
                    assert(rest[j] == x);
                    assert(rest.contains(x));
                }
            }
            assert forall|x: ChunkKey| (ks.contains(x) && m.has_chunk(x) && all_voxels_empty(
                m.content_at(x),
                m.palette,
            )) implies #[trigger] marks.contains(x) by {
                if x == k_last {
                    assert(marks[marks.len() - 1] == k_last);
                } else {
                    assert(rest.contains(x));
                    let j = choose|j: int| 0 <= j < rest.len() && rest[j] == x;
                    assert(marks[j] == x);
                }
            }
        } else {
            assert(marks == rest);
            assert forall|x: ChunkKey| #[trigger] marks.contains(x) implies (ks.contains(x)
                && m.has_chunk(x) && all_voxels_empty(m.content_at(x), m.palette)) by {
                assert(rest.contains(x));
                assert(x != k_last);
            }
            assert forall|x: ChunkKey| (ks.contains(x) && m.has_chunk(x) && all_voxels_empty(
                m.content_at(x),
                m.palette,
            )) implies #[trigger] marks.contains(x) by {
                assert(x != k_last);
                assert(pre.contains(x));
            }
        }
    }
}

/// The per-chunk unit of regeneration work: read one dirty chunk through the
/// worker's private cache and build its occupancy octree. An absent chunk
/// yields nothing (the defensive skip policy for a dirty key missing from
/// the store; creation precedes dirtiness, so this does not arise in a
/// well-driven cycle).
pub fn generate_octree_for_chunk(
    map: &VoxelMap,
    cache: &mut LocalChunkCache,
    k: ChunkKey,
) -> (r: Option<Octree>)
    requires
        map.wf(),
        old(cache).consistent_with(*map),
    ensures
        final(cache).consistent_with(*map),
        match r {
            Some(t) => {
                &&& map.has_chunk(k)
                &&& t.describes(occupancy(map.content_at(k), map.palette), 0, map.config.volume as int)
                &&& ((t is Empty) <==> all_voxels_empty(map.content_at(k), map.palette))
            },
            None => !map.has_chunk(k),
        },
{
    match map.read_chunk(cache, k) {
        None => None,
        Some(chunk) => {
            proof {
                let i = map.idx_of(k);
                assert(map.entries@[i].slot.wf(map.config.volume as int, map.palette));
                assert(chunk.voxels@.len() == map.config.volume);
                lemma_pow2_cube_pow8(map.config.chunk_edge as int);
            }
            let occ = chunk_occupancy(&chunk, &map.palette);
            let t = build_octree(&occ, 0, map.config.volume);
            proof {
                let content = map.content_at(k);
                let o = occupancy(content, map.palette);
                if t is Empty {
                    assert forall|i: int| 0 <= i < content.len() implies map.palette.voxel_is_empty(
                        #[trigger] content[i],
                    ) by {
                        assert(!o[i]);
                    }
                } else {
                    assert(!(forall|i: int| 0 <= i < o.len() ==> !o[i]));
                    let i = choose|i: int| 0 <= i < o.len() && o[i];
                    assert(!map.palette.voxel_is_empty(content[i]));
                    assert(!all_voxels_empty(content, map.palette));
                }
            }
            Some(t)
        },
    }
}

/// One unit of regeneration work: rebuild the index entry of a single dirty
/// chunk, removing the entry and marking the key for removal when the chunk
/// turned entirely empty. Every other key's entry is untouched.
fn regen_step(
    voxel_map: &VoxelMap,
    local_cache: &mut LocalChunkCache,
    voxel_bvt: &mut VoxelBVT,
    empty_chunks: &mut EmptyChunks,
    k: ChunkKey,
)
    requires
        voxel_map.wf(),
        old(local_cache).consistent_with(*voxel_map),
        old(voxel_bvt).wf(),
    ensures
        final(voxel_bvt).wf(),
        final(local_cache).consistent_with(*voxel_map),
        forall|k2: ChunkKey|
            k2 != k ==> (#[trigger] final(voxel_bvt).has_entry(k2)) == old(voxel_bvt).has_entry(k2)
                && (old(voxel_bvt).has_entry(k2) ==> final(voxel_bvt).octree_at(k2) == old(voxel_bvt).octree_at(k2)),
        voxel_map.has_chunk(k) ==> index_consistent_at(*voxel_map, *final(voxel_bvt), k),
        !voxel_map.has_chunk(k) ==> (final(voxel_bvt).has_entry(k) == old(voxel_bvt).has_entry(k)
            && (old(voxel_bvt).has_entry(k) ==> final(voxel_bvt).octree_at(k) == old(voxel_bvt).octree_at(k))),
        final(empty_chunks).chunks_to_remove@ == (if voxel_map.has_chunk(k) && all_voxels_empty(
            voxel_map.content_at(k),
            voxel_map.palette,
        ) {
            old(empty_chunks).chunks_to_remove@.push(k)
        } else {
            old(empty_chunks).chunks_to_remove@
        }),
{
    let r = generate_octree_for_chunk(voxel_map, local_cache, k);
    match r {
        None => {},
        Some(t) => {
            if t.is_empty() {
                voxel_bvt.remove(k);
                empty_chunks.mark_for_removal(k);
                proof {
                    assert(all_voxels_empty(voxel_map.content_at(k), voxel_map.palette));
                    assert(index_consistent_at(*voxel_map, *voxel_bvt, k));
                }
            } else {
                voxel_bvt.insert(k, t);
                proof {
                    assert(!all_voxels_empty(voxel_map.content_at(k), voxel_map.palette));
                    assert(index_consistent_at(*voxel_map, *voxel_bvt, k));
                }
            }
        },
    }
}

/// Regenerate the spatial index for every dirty chunk: one unit of work per
/// key, all collected before the cycle proceeds. A chunk found entirely
/// empty loses its entry and is queued for removal from the store; any other
/// dirty chunk gets a freshly built entry. Chunks outside the dirty set are
/// untouched.
pub fn octree_generator_system(
    voxel_map: &VoxelMap,
    local_cache: &mut LocalChunkCache,
    dirty_chunks: &DirtyChunks,
    voxel_bvt: &mut VoxelBVT,
    empty_chunks: &mut EmptyChunks,
)
    requires
        voxel_map.wf(),
        old(local_cache).consistent_with(*voxel_map),
        old(voxel_bvt).wf(),
        dirty_chunks.edited_chunk_keys@.no_duplicates(),
    ensures
        final(voxel_bvt).wf(),
        final(local_cache).consistent_with(*voxel_map),
        forall|k: ChunkKey|
            !dirty_chunks.edited_chunk_keys@.contains(k) ==> (#[trigger] final(voxel_bvt).has_entry(k)) == old(voxel_bvt).has_entry(k) && (old(voxel_bvt).has_entry(k)
                ==> final(voxel_bvt).octree_at(k) == old(voxel_bvt).octree_at(k)),
        forall|k: ChunkKey|
            dirty_chunks.edited_chunk_keys@.contains(k) && voxel_map.has_chunk(k)
                ==> index_consistent_at(*voxel_map, *final(voxel_bvt), k),
        forall|k: ChunkKey|
            dirty_chunks.edited_chunk_keys@.contains(k) && !voxel_map.has_chunk(k) ==> (
            #[trigger] final(voxel_bvt).has_entry(k)) == old(voxel_bvt).has_entry(k) && (old(voxel_bvt).has_entry(k) ==> final(voxel_bvt).octree_at(k) == old(voxel_bvt).octree_at(k)),
        final(empty_chunks).chunks_to_remove@ == old(empty_chunks).chunks_to_remove@ + empty_marks(
            *voxel_map,
            dirty_chunks.edited_chunk_keys@,
        ),
{
    let ghost b0 = *voxel_bvt;
    let ghost e0 = empty_chunks.chunks_to_remove@;
    let ghost ks = dirty_chunks.edited_chunk_keys@;
    let n = dirty_chunks.edited_chunk_keys.len();
    let mut i: usize = 0;
    proof {
        assert(ks.take(0) =~= Seq::<ChunkKey>::empty());
        assert(e0 + empty_marks(*voxel_map, ks.take(0)) =~= e0);
    }
    while i < n
        invariant
            i <= n,
            n == ks.len(),
            dirty_chunks.edited_chunk_keys@ == ks,
            ks.no_duplicates(),
            voxel_map.wf(),
            local_cache.consistent_with(*voxel_map),
            voxel_bvt.wf(),
            forall|k: ChunkKey|
                !ks.take(i as int).contains(k) ==> (#[trigger] voxel_bvt.has_entry(k))
                    == b0.has_entry(k) && (b0.has_entry(k) ==> voxel_bvt.octree_at(k)
                    == b0.octree_at(k)),
            forall|k: ChunkKey|
                ks.take(i as int).contains(k) && voxel_map.has_chunk(k) ==> index_consistent_at(
                    *voxel_map,
                    *voxel_bvt,
                    k,
                ),
            forall|k: ChunkKey|
                ks.take(i as int).contains(k) && !voxel_map.has_chunk(k) ==> (
                #[trigger] voxel_bvt.has_entry(k)) == b0.has_entry(k) && (b0.has_entry(k)
                    ==> voxel_bvt.octree_at(k) == b0.octree_at(k)),
            empty_chunks.chunks_to_remove@ == e0 + empty_marks(*voxel_map, ks.take(i as int)),
        decreases n - i,
    {
        let k = dirty_chunks.edited_chunk_keys[i];
        let ghost bpre = *voxel_bvt;
        let ghost epre = empty_chunks.chunks_to_remove@;
        let ghost t0 = ks.take(i as int);
        let ghost t1 = ks.take(i + 1);
        proof {
            assert(t1.drop_last() =~= t0);
            assert(t1.last() == ks[i as int]);
            assert(t1[i as int] == k);
            assert(t1.contains(k));
            assert(!t0.contains(k)) by {
                if t0.contains(k) {
                    let j = choose|j: int| 0 <= j < t0.len() && t0[j] == k;
                    assert(ks[j] == ks[i as int] && j < i);
                }
            }
            assert forall|k2: ChunkKey| t0.contains(k2) implies t1.contains(k2) by {
                let j = choose|j: int| 0 <= j < t0.len() && t0[j] == k2;
                assert(t1[j] == k2);
            }
            assert forall|k2: ChunkKey| t1.contains(k2) && k2 != k implies t0.contains(k2) by {
                let j = choose|j: int| 0 <= j < t1.len() && t1[j] == k2;
                assert(j < i);
                assert(t0[j] == k2);
            }
            assert forall|k2: ChunkKey| !t0.contains(k2) implies ((#[trigger] bpre.has_entry(k2))
                == b0.has_entry(k2) && (b0.has_entry(k2) ==> bpre.octree_at(k2) == b0.octree_at(
                k2,
            ))) by {
                assert(voxel_bvt.has_entry(k2) == b0.has_entry(k2) && (b0.has_entry(k2)
                    ==> voxel_bvt.octree_at(k2) == b0.octree_at(k2)));
            }
            assert forall|k2: ChunkKey| t0.contains(k2) && !voxel_map.has_chunk(k2) implies ((
            #[trigger] bpre.has_entry(k2)) == b0.has_entry(k2) && (b0.has_entry(k2)
                ==> bpre.octree_at(k2) == b0.octree_at(k2))) by {
                assert(voxel_bvt.has_entry(k2) == b0.has_entry(k2) && (b0.has_entry(k2)
                    ==> voxel_bvt.octree_at(k2) == b0.octree_at(k2)));
            }
            assert forall|k2: ChunkKey| t0.contains(k2) && voxel_map.has_chunk(k2) implies
                #[trigger] index_consistent_at(*voxel_map, bpre, k2) by {
                assert(index_consistent_at(*voxel_map, *voxel_bvt, k2));
            }
        }
        regen_step(voxel_map, local_cache, voxel_bvt, empty_chunks, k);
        proof {
            assert forall|k2: ChunkKey| !t1.contains(k2) implies (#[trigger] voxel_bvt.has_entry(
                k2,
            )) == b0.has_entry(k2) && (b0.has_entry(k2) ==> voxel_bvt.octree_at(k2)
                == b0.octree_at(k2)) by {
                assert(k2 != k);
                assert(!t0.contains(k2));
                assert(bpre.has_entry(k2) == b0.has_entry(k2) && (b0.has_entry(k2)
                    ==> bpre.octree_at(k2) == b0.octree_at(k2)));
            }
            assert forall|k2: ChunkKey| t1.contains(k2) && voxel_map.has_chunk(k2) implies
                index_consistent_at(*voxel_map, *voxel_bvt, k2) by {
                if k2 != k {
                    assert(t0.contains(k2));
                    assert(index_consistent_at(*voxel_map, bpre, k2));
                }
            }
            assert forall|k2: ChunkKey| t1.contains(k2) && !voxel_map.has_chunk(k2) implies (
            #[trigger] voxel_bvt.has_entry(k2)) == b0.has_entry(k2) && (b0.has_entry(k2)
                ==> voxel_bvt.octree_at(k2) == b0.octree_at(k2)) by {
                if k2 == k {
                    assert(!t0.contains(k2));
                    assert(bpre.has_entry(k2) == b0.has_entry(k2) && (b0.has_entry(k2)
                        ==> bpre.octree_at(k2) == b0.octree_at(k2)));
                } else {
                    assert(t0.contains(k2));
                    assert(bpre.has_entry(k2) == b0.has_entry(k2) && (b0.has_entry(k2)
                        ==> bpre.octree_at(k2) == b0.octree_at(k2)));
                }
            }
            assert(t1.drop_last() == t0 && t1.last() == k);
            assert(empty_marks(*voxel_map, t1) == (if voxel_map.has_chunk(k) && all_voxels_empty(
                voxel_map.content_at(k),
                voxel_map.palette,
            ) {
                empty_marks(*voxel_map, t0).push(k)
            } else {
                empty_marks(*voxel_map, t0)
            }));
            if voxel_map.has_chunk(k) && all_voxels_empty(voxel_map.content_at(k), voxel_map.palette) {
                assert(empty_chunks.chunks_to_remove@ == epre.push(k));
                assert((e0 + empty_marks(*voxel_map, t0)).push(k) =~= e0 + empty_marks(
                    *voxel_map,
                    t0,
                ).push(k));
            }
        }
        i = i + 1;
    }
    proof {
        assert(ks.take(n as int) =~= ks);
    }
}

/// Index consistency: if the index was consistent everywhere outside the
/// dirty set before regeneration, then after a regeneration pass it is
/// consistent at every chunk key — every chunk with at least one non-empty
/// voxel has a faithful entry, and every entirely empty or absent chunk has
/// none.
pub proof fn lemma_index_consistency(
    m: VoxelMap,
    bvt0: VoxelBVT,
    bvt1: VoxelBVT,
    dirty: Seq<ChunkKey>,
)
    requires
        forall|k: ChunkKey|
            !dirty.contains(k) ==> (#[trigger] bvt1.has_entry(k)) == bvt0.has_entry(k) && (
            bvt0.has_entry(k) ==> bvt1.octree_at(k) == bvt0.octree_at(k)),
        forall|k: ChunkKey| !dirty.contains(k) ==> #[trigger] index_consistent_at(m, bvt0, k),
        forall|k: ChunkKey|
            dirty.contains(k) && m.has_chunk(k) ==> #[trigger] index_consistent_at(m, bvt1, k),
        forall|k: ChunkKey|
            dirty.contains(k) && !m.has_chunk(k) ==> ((#[trigger] bvt1.has_entry(k))
                == bvt0.has_entry(k) && (bvt0.has_entry(k) ==> bvt1.octree_at(k) == bvt0.octree_at(
                k,
            )) && index_consistent_at(m, bvt0, k)),
    ensures
        forall|k: ChunkKey| index_consistent_at(m, bvt1, k),
{
    assert forall|k: ChunkKey| index_consistent_at(m, bvt1, k) by {
        if dirty.contains(k) {
            if m.has_chunk(k) {
            } else {
                assert(bvt1.has_entry(k) == bvt0.has_entry(k));
                assert(index_consistent_at(m, bvt0, k));
            }
        } else {
            assert(bvt1.has_entry(k) == bvt0.has_entry(k));
            assert(index_consistent_at(m, bvt0, k));
        }
    }
}

} // verus!
