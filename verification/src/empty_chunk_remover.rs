//! Removal of chunks that index regeneration found entirely empty.
//!
//! Chunk keys marked empty during a cycle are removed at the end of that
//! cycle, strictly after regeneration and strictly before the next cycle's
//! edit batch is merged into the map — so a chunk rewritten in the same
//! cycle loses nothing: its pending edits recreate it at the next flush.

use vstd::prelude::*;

use crate::edit_buffer::{apply_edits_map, Edit};
use crate::map::VoxelMap;
use crate::voxel::{ChunkKey, Voxel};

verus! {

/// The map content after every marked chunk key is dropped.
pub open spec fn remove_keys(m: Map<ChunkKey, Seq<Voxel>>, ks: Seq<ChunkKey>) -> Map<
    ChunkKey,
    Seq<Voxel>,
>
    decreases ks.len(),
{
    if ks.len() == 0 {
        m
    } else {
        remove_keys(m, ks.drop_last()).remove(ks.last())
    }
}

/// The chunk keys recently found to contain only empty voxels, queued for
/// removal from both the spatial index and the voxel map.
pub struct EmptyChunks {
    pub chunks_to_remove: Vec<ChunkKey>,
}

impl EmptyChunks {
    pub fn new() -> (r: Self)
        ensures
            r.chunks_to_remove@.len() == 0,
    {
        EmptyChunks { chunks_to_remove: Vec::new() }
    }

    /// Mark the chunk at `chunk_key` as empty and thus ready to be removed
    /// by `empty_chunk_remover_system`.
    pub fn mark_for_removal(&mut self, chunk_key: ChunkKey)
        ensures
            final(self).chunks_to_remove@ == old(self).chunks_to_remove@.push(chunk_key),
    {
        self.chunks_to_remove.push(chunk_key);
    }
}

/// Remove every marked chunk from the voxel map and consume the queue.
pub fn empty_chunk_remover_system(empty_chunks: &mut EmptyChunks, voxel_map: &mut VoxelMap)
    requires
        old(voxel_map).wf(),
    ensures
        final(voxel_map).wf(),
        final(voxel_map).config == old(voxel_map).config,
        final(voxel_map).palette == old(voxel_map).palette,
        final(empty_chunks).chunks_to_remove@.len() == 0,
        final(voxel_map).contents() == remove_keys(
            old(voxel_map).contents(),
            old(empty_chunks).chunks_to_remove@,
        ),
        forall|k: ChunkKey|
            old(empty_chunks).chunks_to_remove@.contains(k) ==> !final(voxel_map).has_chunk(k),
        forall|k: ChunkKey|
            !old(empty_chunks).chunks_to_remove@.contains(k) ==> final(voxel_map).has_chunk(k)
                == old(voxel_map).has_chunk(k) && (old(voxel_map).has_chunk(k)
                ==> final(voxel_map).content_at(k) == old(voxel_map).content_at(k)
                    && final(voxel_map).chunk_is_live(k) == old(voxel_map).chunk_is_live(k)),
        old(empty_chunks).chunks_to_remove@.len() == 0 ==> *final(voxel_map) == *old(voxel_map),
{
    let ghost m0 = *voxel_map;
    let ghost ks = empty_chunks.chunks_to_remove@;
    let n = empty_chunks.chunks_to_remove.len();
    let mut i: usize = 0;
    while i < n
        invariant
            i <= n,
            n == ks.len(),
            empty_chunks.chunks_to_remove@ == ks,
            voxel_map.wf(),
            voxel_map.config == m0.config,
            voxel_map.palette == m0.palette,
            i == 0 ==> *voxel_map == m0,
            voxel_map.contents() == remove_keys(m0.contents(), ks.take(i as int)),
            forall|k: ChunkKey|
                ks.take(i as int).contains(k) ==> !voxel_map.has_chunk(k),
            forall|k: ChunkKey|
                !ks.take(i as int).contains(k) ==> voxel_map.has_chunk(k) == m0.has_chunk(k) && (
                m0.has_chunk(k) ==> voxel_map.content_at(k) == m0.content_at(k)
                    && voxel_map.chunk_is_live(k) == m0.chunk_is_live(k)),
        decreases n - i,
    {
        let k = empty_chunks.chunks_to_remove[i];
        let ghost mpre = *voxel_map;
        voxel_map.remove_chunk(k);
        proof {
            let t1 = ks.take(i + 1);
            assert(t1.drop_last() =~= ks.take(i as int));
            assert(t1.last() == ks[i as int]);
            assert(voxel_map.contents() == remove_keys(m0.contents(), t1));
            assert forall|k2: ChunkKey| t1.contains(k2) implies !voxel_map.has_chunk(k2) by {
                if k2 != k {
                    let j = choose|j: int| 0 <= j < t1.len() && t1[j] == k2;
                    assert(ks.take(i as int)[j] == k2);
                    assert(ks.take(i as int).contains(k2));
                }
            }
            assert forall|k2: ChunkKey| !t1.contains(k2) implies voxel_map.has_chunk(k2)
                == m0.has_chunk(k2) && (m0.has_chunk(k2) ==> voxel_map.content_at(k2)
                == m0.content_at(k2) && voxel_map.chunk_is_live(k2) == m0.chunk_is_live(k2)) by {
                assert(t1[i as int] == k);
                assert(k2 != k);
                if ks.take(i as int).contains(k2) {
                    let j = choose|j: int| 0 <= j < i && ks.take(i as int)[j] == k2;
                    assert(t1[j] == k2);
                }
            }
        }
        i = i + 1;
    }
    proof {
        assert(ks.take(n as int) =~= ks);
    }
    empty_chunks.chunks_to_remove = Vec::new();
}

/// Empty-chunk safety: a chunk marked empty in some cycle but touched again
/// by an edit before that cycle's removal runs is recreated by the next
/// flush — running removal strictly before the next merge cannot lose the
/// rewrite, whatever was marked.
pub proof fn lemma_empty_chunk_rewrite_safe(
    m: Map<ChunkKey, Seq<Voxel>>,
    marked: Seq<ChunkKey>,
    batch: Seq<Edit>,
    volume: int,
    ambient: Voxel,
    k: ChunkKey,
)
    requires
        exists|i: int| 0 <= i < batch.len() && (#[trigger] batch[i]).key == k,
    ensures
        apply_edits_map(remove_keys(m, marked), batch, volume, ambient).dom().contains(k),
    decreases batch.len(),
{
    let i = choose|i: int| 0 <= i < batch.len() && (#[trigger] batch[i]).key == k;
    if batch.last().key == k {
    } else {
        assert(0 <= i < batch.len() - 1 && batch.drop_last()[i].key == k);
        lemma_empty_chunk_rewrite_safe(m, marked, batch.drop_last(), volume, ambient, k);
    }
}

} // verus!
