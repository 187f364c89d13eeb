//! Background cache maintenance: when the live (decompressed) working set
//! exceeds its configured bound, the least recently used chunks are
//! compressed back into opaque payloads, a bounded number per cycle.

use vstd::prelude::*;

use crate::map::VoxelMap;
use crate::voxel::ChunkKey;

verus! {

/// Limits for the decompressed-chunk cache.
#[derive(Clone, Copy)]
pub struct ChunkCacheConfig {
    // These constants should be correlated with the size of a chunk.
    pub max_cached_chunks: usize,
    pub max_chunks_compressed_per_frame_per_thread: usize,
}

impl Default for ChunkCacheConfig {
    /// Assuming 8192-byte chunks, reserve a little under a gigabyte for the
    /// cache, and avoid high latency from compressing too many chunks in one
    /// frame.
    fn default() -> (r: Self)
        ensures
            r.max_cached_chunks == 100000,
            r.max_chunks_compressed_per_frame_per_thread == 50,
    {
        Self { max_cached_chunks: 100000, max_chunks_compressed_per_frame_per_thread: 50 }
    }
}

/// The number of chunks one compressor pass evicts: zero while the live set
/// is under capacity, else the overgrowth clamped by the per-cycle latency
/// budget of the worker pool.
pub open spec fn eviction_batch_size(
    live_count: int,
    capacity: int,
    thread_count: int,
    per_thread: int,
) -> int {
    if live_count < capacity {
        0
    } else if live_count - capacity < thread_count * per_thread {
        live_count - capacity
    } else {
        thread_count * per_thread
    }
}

/// One compressor pass: evict and compress the least recently used live
/// chunks once the live set exceeds the configured capacity.
///
/// Recency is access order, not last-write order: an edit and an absorbed
/// read (`VoxelMap::absorb_cache`, run at each cycle's collection point)
/// both move a chunk to the most-recently-used end, so a chunk read this
/// cycle is evicted last.
///
/// Eviction bound: afterwards the live count is exactly the previous count
/// minus the computed batch size — in particular at most
/// `max(capacity, previous count - batch)` — and nothing is evicted while the
/// cache is under capacity. Compression is lossless, so the store's logical
/// content is untouched: every chunk key reads back byte-identically, dirty
/// or not.
pub fn chunk_compressor_system(
    cache_config: &ChunkCacheConfig,
    thread_count: usize,
    voxel_map: &mut VoxelMap,
) -> (evicted: Vec<ChunkKey>)
    requires
        old(voxel_map).wf(),
        thread_count * cache_config.max_chunks_compressed_per_frame_per_thread <= usize::MAX,
    ensures
        final(voxel_map).wf(),
        final(voxel_map).config == old(voxel_map).config,
        final(voxel_map).palette == old(voxel_map).palette,
        final(voxel_map).contents() == old(voxel_map).contents(),
        forall|k: ChunkKey| (#[trigger] final(voxel_map).has_chunk(k)) == old(voxel_map).has_chunk(k),
        forall|k: ChunkKey|
            old(voxel_map).has_chunk(k) ==> (#[trigger] final(voxel_map).content_at(k)) == old(voxel_map).content_at(k),
        ({
            let batch = eviction_batch_size(
                old(voxel_map).recency@.len() as int,
                cache_config.max_cached_chunks as int,
                thread_count as int,
                cache_config.max_chunks_compressed_per_frame_per_thread as int,
            );
            &&& final(voxel_map).recency@.len() == old(voxel_map).recency@.len() - batch
            &&& final(voxel_map).recency@.len() <= (if cache_config.max_cached_chunks as int
                > old(voxel_map).recency@.len() - batch {
                cache_config.max_cached_chunks as int
            } else {
                old(voxel_map).recency@.len() - batch
            })
            &&& final(voxel_map).recency@ == old(voxel_map).recency@.skip(batch)
            &&& evicted@ == old(voxel_map).recency@.take(batch)
            &&& old(voxel_map).recency@.len() < cache_config.max_cached_chunks ==> *final(voxel_map) == *old(voxel_map)
        }),
{
    let ghost m0 = *voxel_map;
    let mut evicted: Vec<ChunkKey> = Vec::new();
    let num_cached = voxel_map.len_cached();
    if num_cached < cache_config.max_cached_chunks {
        proof {
            assert(evicted@ =~= m0.recency@.take(0));
            assert(m0.recency@ =~= m0.recency@.skip(0));
        }
        return evicted;
    }
    let overgrowth = num_cached - cache_config.max_cached_chunks;
    let cap = thread_count * cache_config.max_chunks_compressed_per_frame_per_thread;
    let num_to_compress = if overgrowth < cap {
        overgrowth
    } else {
        cap
    };
    let ghost batch = eviction_batch_size(
        m0.recency@.len() as int,
        cache_config.max_cached_chunks as int,
        thread_count as int,
        cache_config.max_chunks_compressed_per_frame_per_thread as int,
    );
    assert(num_to_compress == batch);
    let mut i: usize = 0;
    while i < num_to_compress
        invariant
            i <= num_to_compress,
            num_to_compress == batch,
            batch <= m0.recency@.len(),
            voxel_map.wf(),
            voxel_map.config == m0.config,
            voxel_map.palette == m0.palette,
            voxel_map.contents() == m0.contents(),
            forall|k: ChunkKey| (#[trigger] voxel_map.has_chunk(k)) == m0.has_chunk(k),
            forall|k: ChunkKey|
                m0.has_chunk(k) ==> (#[trigger] voxel_map.content_at(k)) == m0.content_at(k),
            voxel_map.recency@ == m0.recency@.skip(i as int),
            evicted@ == m0.recency@.take(i as int),
        decreases num_to_compress - i,
    {
        let ghost rpre = voxel_map.recency@;
        let r = voxel_map.compress_lru();
        proof {
            assert(rpre.len() > 0);
        }
        match r {
            Some(k) => {
                evicted.push(k);
                proof {
                    assert(voxel_map.recency@ == rpre.remove(0));
                    assert(rpre.remove(0) =~= m0.recency@.skip(i + 1));
                    assert(rpre[0] == m0.recency@[i as int]);
                    assert(evicted@ =~= m0.recency@.take(i + 1));
                }
            },
            None => {
                proof {
                    assert(false);
                }
            },
        }
        i = i + 1;
    }
    evicted
}

} // verus!
