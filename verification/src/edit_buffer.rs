//! Double-buffered edit accumulation and dirty-chunk tracking.
//!
//! Writers append edits to the *front* buffer at any time. A flush swaps the
//! front buffer out (writers immediately accumulate into a fresh front) and
//! merges the swapped-out batch into the voxel map, producing the
//! authoritative set of chunk keys touched this cycle. The indexing stage
//! sees the dirty set only after the merge is complete, so it never rebuilds
//! from a partially applied cycle.

use vstd::prelude::*;

use crate::map::{ambient_fill, apply_writes, edit_base, VoxelMap};
use crate::voxel::{ChunkKey, Voxel};

verus! {

/// One queued modification: a set of single-voxel writes within one chunk.
pub struct Edit {
    pub key: ChunkKey,
    pub offsets: Vec<usize>,
    pub values: Vec<Voxel>,
}

/// An edit that fits a map with the given chunk volume and palette size.
pub open spec fn edit_ok(e: Edit, volume: int, palette_len: int) -> bool {
    &&& e.offsets@.len() == e.values@.len()
    &&& forall|i: int| 0 <= i < e.offsets@.len() ==> (#[trigger] e.offsets@[i]) < volume
    &&& forall|i: int| 0 <= i < e.values@.len() ==> (#[trigger] e.values@[i]).type_index < palette_len
}

/// What a flush hands to the merge step: the whole accumulated front buffer.
pub open spec fn flush_batch(front: Seq<Edit>) -> Seq<Edit> {
    front
}

/// What a flush leaves accumulating for the next cycle: nothing yet.
pub open spec fn flush_remainder(front: Seq<Edit>) -> Seq<Edit> {
    Seq::<Edit>::empty()
}

/// The map content after a batch of edits is merged, in submission order.
/// An edit to an absent key first materializes the chunk with the ambient
/// value, exactly as the merge itself does.
pub open spec fn apply_edits_map(
    m: Map<ChunkKey, Seq<Voxel>>,
    batch: Seq<Edit>,
    volume: int,
    ambient: Voxel,
) -> Map<ChunkKey, Seq<Voxel>>
    decreases batch.len(),
{
    if batch.len() == 0 {
        m
    } else {
        let prev = apply_edits_map(m, batch.drop_last(), volume, ambient);
        let e = batch.last();
        let base = if prev.dom().contains(e.key) {
            prev[e.key]
        } else {
            ambient_fill(volume, ambient)
        };
        prev.insert(e.key, apply_writes(base, e.offsets@, e.values@))
    }
}

/// The accumulation side of the double buffer: pending edits since the last
/// flush, with the map shape they were validated against.
pub struct EditBuffer {
    pub chunk_volume: usize,
    pub palette_len: usize,
    pub front: Vec<Edit>,
}

/// The set of chunk keys whose contents changed in the most recent flush.
pub struct DirtyChunks {
    pub edited_chunk_keys: Vec<ChunkKey>,
}

impl DirtyChunks {
    pub fn new() -> (r: Self)
        ensures
            r.edited_chunk_keys@.len() == 0,
    {
        DirtyChunks { edited_chunk_keys: Vec::new() }
    }

    pub fn contains_key(&self, k: ChunkKey) -> (r: bool)
        ensures
            r == self.edited_chunk_keys@.contains(k),
    {
        let n = self.edited_chunk_keys.len();
        let mut i: usize = 0;
        while i < n
            invariant
                i <= n,
                n == self.edited_chunk_keys@.len(),
                forall|j: int| 0 <= j < i ==> self.edited_chunk_keys@[j] != k,
            decreases n - i,
        {
            if self.edited_chunk_keys[i] == k {
                return true;
            }
            i = i + 1;
        }
        false
    }
}

impl EditBuffer {
    /// Every queued edit fits the map shape recorded at construction.
    pub open spec fn wf(self) -> bool {
        forall|i: int|
            0 <= i < self.front@.len() ==> edit_ok(
                #[trigger] self.front@[i],
                self.chunk_volume as int,
                self.palette_len as int,
            )
    }

    /// Whether this buffer was shaped for the given map.
    pub open spec fn fits(self, m: VoxelMap) -> bool {
        self.chunk_volume == m.config.volume && self.palette_len == m.palette.infos@.len()
    }

    pub fn new(chunk_volume: usize, palette_len: usize) -> (r: Self)
        ensures
            r.wf(),
            r.chunk_volume == chunk_volume,
            r.palette_len == palette_len,
            r.front@.len() == 0,
    {
        EditBuffer { chunk_volume, palette_len, front: Vec::new() }
    }

    /// Queue one edit. Writers are never blocked by a concurrent merge: they
    /// only ever append to the current front buffer.
    pub fn submit_edit(&mut self, key: ChunkKey, offsets: Vec<usize>, values: Vec<Voxel>)
        requires
            old(self).wf(),
            offsets@.len() == values@.len(),
            forall|i: int| 0 <= i < offsets@.len() ==> (#[trigger] offsets@[i]) < old(self).chunk_volume,
            forall|i: int|
                0 <= i < values@.len() ==> (#[trigger] values@[i]).type_index < old(self).palette_len,
        ensures
            final(self).wf(),
            final(self).chunk_volume == old(self).chunk_volume,
            final(self).palette_len == old(self).palette_len,
            final(self).front@.len() == old(self).front@.len() + 1,
            final(self).front@ == old(self).front@.push(
                Edit { key, offsets: offsets, values: values },
            ),
    {
        self.front.push(Edit { key, offsets, values });
    }

    /// Begin a flush: swap the accumulated front buffer out, leaving a fresh
    /// empty front for writers, and hand back the batch to merge. Edits
    /// submitted from now on belong to the *next* cycle.
    pub fn begin_flush(&mut self) -> (batch: Vec<Edit>)
        requires
            old(self).wf(),
        ensures
            final(self).wf(),
            final(self).chunk_volume == old(self).chunk_volume,
            final(self).palette_len == old(self).palette_len,
            batch@ == flush_batch(old(self).front@),
            final(self).front@ == flush_remainder(old(self).front@),
            forall|i: int|
                0 <= i < batch@.len() ==> edit_ok(
                    #[trigger] batch@[i],
                    old(self).chunk_volume as int,
                    old(self).palette_len as int,
                ),
    {
        let mut batch: Vec<Edit> = Vec::new();
        core::mem::swap(&mut self.front, &mut batch);
        batch
    }
}

/// Merge a flushed batch into the voxel map and produce this cycle's dirty
/// set, replacing the previous cycle's (it is produced once and consumed
/// once).
///
/// Dirty-set completeness: on return the dirty set holds every chunk key
/// touched by an edit of the batch, each exactly once, and no other key.
pub fn merge_edits(map: &mut VoxelMap, batch: &Vec<Edit>, dirty: &mut DirtyChunks)
    requires
        old(map).wf(),
        forall|i: int|
            0 <= i < batch@.len() ==> edit_ok(
                #[trigger] batch@[i],
                old(map).config.volume as int,
                old(map).palette.infos@.len() as int,
            ),
    ensures
        final(map).wf(),
        final(map).config == old(map).config,
        final(map).palette == old(map).palette,
        final(map).contents() == apply_edits_map(
            old(map).contents(),
            batch@,
            old(map).config.volume as int,
            old(map).config.ambient_value,
        ),
        final(dirty).edited_chunk_keys@.no_duplicates(),
        forall|k: ChunkKey|
            final(dirty).edited_chunk_keys@.contains(k) <==> exists|i: int|
                0 <= i < batch@.len() && (#[trigger] batch@[i]).key == k,
        forall|k: ChunkKey|
            !final(dirty).edited_chunk_keys@.contains(k) ==> final(map).has_chunk(k) == old(map).has_chunk(k)
                && (old(map).has_chunk(k) ==> final(map).content_at(k) == old(map).content_at(k)),
{
    let ghost m0 = *map;
    dirty.edited_chunk_keys = Vec::new();
    let n = batch.len();
    let mut i: usize = 0;
    while i < n
        invariant
            i <= n,
            n == batch@.len(),
            map.wf(),
            map.config == m0.config,
            map.palette == m0.palette,
            forall|j: int|
                0 <= j < batch@.len() ==> edit_ok(
                    #[trigger] batch@[j],
                    m0.config.volume as int,
                    m0.palette.infos@.len() as int,
                ),
            map.contents() == apply_edits_map(
                m0.contents(),
                batch@.take(i as int),
                m0.config.volume as int,
                m0.config.ambient_value,
            ),
            dirty.edited_chunk_keys@.no_duplicates(),
            forall|k: ChunkKey|
                dirty.edited_chunk_keys@.contains(k) <==> exists|j: int|
                    0 <= j < i && (#[trigger] batch@[j]).key == k,
            forall|k: ChunkKey|
                !dirty.edited_chunk_keys@.contains(k) ==> map.has_chunk(k) == m0.has_chunk(k) && (
                m0.has_chunk(k) ==> map.content_at(k) == m0.content_at(k)),
        decreases n - i,
    {
        let e = &batch[i];
        let ghost mpre = *map;
        let ghost ekey = e.key;
        map.edit_chunk(e.key, &e.offsets, &e.values);
        let ghost d0 = dirty.edited_chunk_keys@;
        if !dirty.contains_key(e.key) {
            dirty.edited_chunk_keys.push(e.key);
        }
        proof {
            let t1 = batch@.take(i + 1);
            assert(t1.drop_last() =~= batch@.take(i as int));
            assert(t1.last() == batch@[i as int]);
            let prev = apply_edits_map(
                m0.contents(),
                batch@.take(i as int),
                m0.config.volume as int,
                m0.config.ambient_value,
            );
            assert(mpre.contents() == prev);
            assert(mpre.contents().dom().contains(ekey) == mpre.has_chunk(ekey));
            assert(mpre.has_chunk(ekey) ==> mpre.contents()[ekey] == mpre.content_at(ekey));
            assert(edit_base(mpre, ekey) == (if prev.dom().contains(ekey) {
                prev[ekey]
            } else {
                ambient_fill(m0.config.volume as int, m0.config.ambient_value)
            }));
            assert(map.contents() == apply_edits_map(
                m0.contents(),
                t1,
                m0.config.volume as int,
                m0.config.ambient_value,
            ));
            let d1 = dirty.edited_chunk_keys@;
            if !d0.contains(ekey) {
                assert(d1 == d0.push(ekey));
                assert forall|j1: int, j2: int| 0 <= j1 < j2 < d1.len() implies d1[j1] != d1[j2] by {
                    if j2 == d1.len() - 1 {
                        assert(d1[j1] == d0[j1]);
                        assert(d0.contains(d0[j1]));
                    }
                }
                assert(d1.no_duplicates());
            } else {
                assert(d1 == d0);
            }
            assert forall|k: ChunkKey| d1.contains(k) implies exists|j: int|
                0 <= j < i + 1 && (#[trigger] batch@[j]).key == k by {
                if d0.contains(k) {
                    let j = choose|j: int| 0 <= j < i && (#[trigger] batch@[j]).key == k;
                    assert(0 <= j < i + 1 && batch@[j].key == k);
                } else {
                    let p = choose|p: int| 0 <= p < d1.len() && d1[p] == k;
                    assert(k == ekey);
                    assert(batch@[i as int].key == k);
                }
            }
            assert forall|k: ChunkKey| (exists|j: int|
                0 <= j < i + 1 && (#[trigger] batch@[j]).key == k) implies d1.contains(k) by {
                let j = choose|j: int| 0 <= j < i + 1 && (#[trigger] batch@[j]).key == k;
                if j < i {
                    assert(d0.contains(k));
                    if !d0.contains(ekey) {
                        let p = choose|p: int| 0 <= p < d0.len() && d0[p] == k;
                        assert(d1[p] == k);
                    }
                } else {
                    assert(k == ekey);
                    if d0.contains(ekey) {
                        assert(d1.contains(k));
                    } else {
                        assert(d1[d1.len() - 1] == ekey);
                    }
                }
            }
            assert forall|k: ChunkKey| !d1.contains(k) implies map.has_chunk(k) == m0.has_chunk(k)
                && (m0.has_chunk(k) ==> map.content_at(k) == m0.content_at(k)) by {
                assert(k != ekey);
                if !d0.contains(ekey) {
                    if d0.contains(k) {
                        let p = choose|p: int| 0 <= p < d0.len() && d0[p] == k;
                        assert(d1[p] == k);
                    }
                } else {
                    assert(!d0.contains(k));
                }
            }
        }
        i = i + 1;
    }
    proof {
        assert(batch@.take(n as int) =~= batch@);
    }
}

/// The flush driven once per cycle: swap the double buffer, then merge the
/// swapped-out batch and replace the dirty set.
pub fn double_buffering_system(buffer: &mut EditBuffer, map: &mut VoxelMap, dirty: &mut DirtyChunks)
    requires
        old(buffer).wf(),
        old(map).wf(),
        old(buffer).fits(*old(map)),
    ensures
        final(buffer).wf(),
        final(buffer).fits(*old(map)),
        final(buffer).front@ == flush_remainder(old(buffer).front@),
        final(map).wf(),
        final(map).config == old(map).config,
        final(map).palette == old(map).palette,
        final(map).contents() == apply_edits_map(
            old(map).contents(),
            flush_batch(old(buffer).front@),
            old(map).config.volume as int,
            old(map).config.ambient_value,
        ),
        final(dirty).edited_chunk_keys@.no_duplicates(),
        forall|k: ChunkKey|
            final(dirty).edited_chunk_keys@.contains(k) <==> exists|i: int|
                0 <= i < old(buffer).front@.len() && (#[trigger] old(buffer).front@[i]).key == k,
{
    let batch = buffer.begin_flush();
    merge_edits(map, &batch, dirty);
}

/// No double-apply: an edit not yet queued when a flush begins is not part of
/// that flush's batch; once submitted afterwards, it is part of the next
/// flush's batch.
pub proof fn lemma_no_double_apply(front: Seq<Edit>, e: Edit)
    requires
        !front.contains(e),
    ensures
        !flush_batch(front).contains(e),
        flush_batch(flush_remainder(front).push(e)).contains(e),
{
    let s = flush_batch(flush_remainder(front).push(e));
    assert(s[0] == e);
    assert(s.contains(e));
}

} // verus!
