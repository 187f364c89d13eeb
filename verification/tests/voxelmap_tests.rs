use voxelmap::bvt::{octree_generator_system, VoxelBVT};
use voxelmap::chunk_compressor::{chunk_compressor_system, ChunkCacheConfig};
use voxelmap::codec::{compress_chunk, decompress_chunk, encode_chunk};
use voxelmap::edit_buffer::{double_buffering_system, merge_edits, DirtyChunks, EditBuffer};
use voxelmap::empty_chunk_remover::{empty_chunk_remover_system, EmptyChunks};
use voxelmap::map::{
    chunk_map_builder, empty_compressible_chunk_map, ConfigError, LocalChunkCache, VoxelMap,
};
use voxelmap::voxel::{default_array, Chunk, ChunkKey, Voxel, VoxelPalette, VoxelTypeInfo};

fn key(x: i32, y: i32, z: i32) -> ChunkKey {
    ChunkKey { x, y, z }
}

fn two_type_palette() -> VoxelPalette {
    VoxelPalette {
        infos: vec![VoxelTypeInfo { is_empty: true }, VoxelTypeInfo { is_empty: false }],
    }
}

fn test_map(edge: usize) -> VoxelMap {
    let builder = chunk_map_builder(edge, Voxel { type_index: 0 });
    empty_compressible_chunk_map(builder, two_type_palette()).unwrap()
}

fn fill_edit(volume: usize, value: u16) -> (Vec<usize>, Vec<Voxel>) {
    let offsets: Vec<usize> = (0..volume).collect();
    let values: Vec<Voxel> = (0..volume).map(|_| Voxel { type_index: value }).collect();
    (offsets, values)
}

#[test]
fn palette_lookup_returns_type_info() {
    let palette = two_type_palette();
    assert!(palette.get_voxel_type_info(Voxel { type_index: 0 }).is_empty);
    assert!(!palette.get_voxel_type_info(Voxel { type_index: 1 }).is_empty);
}

#[test]
fn degenerate_chunk_shapes_are_rejected() {
    let ambient = Voxel { type_index: 0 };
    for bad_edge in [0usize, 3, 6, 12, 1025, 2048] {
        let r = empty_compressible_chunk_map(chunk_map_builder(bad_edge, ambient), two_type_palette());
        assert_eq!(r.err().unwrap(), ConfigError::DegenerateChunkShape);
    }
    for good_edge in [1usize, 2, 4, 16, 1024] {
        assert!(empty_compressible_chunk_map(chunk_map_builder(good_edge, ambient), two_type_palette())
            .is_ok());
    }
}

#[test]
fn out_of_palette_ambient_is_rejected() {
    let r = empty_compressible_chunk_map(
        chunk_map_builder(16, Voxel { type_index: 7 }),
        two_type_palette(),
    );
    assert_eq!(r.err().unwrap(), ConfigError::InvalidAmbientValue);
}

#[test]
fn codec_round_trip_is_byte_identical() {
    // Voxel values crossing the one-byte boundary exercise both encoded bytes.
    let voxels: Vec<Voxel> =
        (0..4096u32).map(|i| Voxel { type_index: (i * 37 % 65536) as u16 }).collect();
    let chunk = Chunk { voxels: voxels.clone() };
    let payload = compress_chunk(&chunk);
    let restored = decompress_chunk(&payload);
    assert_eq!(restored.voxels, voxels);
}

#[test]
fn compression_changes_representation() {
    // A uniform chunk is highly compressible: the payload must be a genuine
    // transform of the 8192-byte image, not the image handed back.
    let chunk = default_array(4096, Voxel { type_index: 1 });
    let raw = encode_chunk(&chunk);
    assert_eq!(raw.len(), 8192);
    let payload = compress_chunk(&chunk);
    assert_ne!(payload, raw);
    assert!(payload.len() < raw.len());
    let restored = decompress_chunk(&payload);
    assert_eq!(restored.voxels, chunk.voxels);
}

#[test]
fn edit_creates_chunk_with_ambient_base() {
    let mut map = test_map(2); // volume 8
    let k = key(1, -2, 3);
    map.edit_chunk(k, &vec![5usize], &vec![Voxel { type_index: 1 }]);
    let mut cache = LocalChunkCache::new();
    let chunk = map.read_chunk(&mut cache, k).unwrap();
    for (i, v) in chunk.voxels.iter().enumerate() {
        assert_eq!(v.type_index, if i == 5 { 1 } else { 0 });
    }
    assert!(map.read_chunk(&mut cache, key(0, 0, 0)).is_none());
}

#[test]
fn dirty_set_lists_each_touched_key_exactly_once() {
    let mut map = test_map(2);
    let mut buffer = EditBuffer::new(8, 2);
    let mut dirty = DirtyChunks::new();
    let a = key(0, 0, 0);
    let b = key(1, 0, 0);
    buffer.submit_edit(a, vec![0], vec![Voxel { type_index: 1 }]);
    buffer.submit_edit(b, vec![1], vec![Voxel { type_index: 1 }]);
    buffer.submit_edit(a, vec![2], vec![Voxel { type_index: 1 }]);
    double_buffering_system(&mut buffer, &mut map, &mut dirty);
    let mut keys = dirty.edited_chunk_keys.clone();
    keys.sort_by_key(|k| (k.x, k.y, k.z));
    assert_eq!(keys, vec![a, b]);
    // Both edits to `a` were merged.
    let mut cache = LocalChunkCache::new();
    let chunk = map.read_chunk(&mut cache, a).unwrap();
    assert_eq!(chunk.voxels[0].type_index, 1);
    assert_eq!(chunk.voxels[2].type_index, 1);
}

#[test]
fn edits_after_flush_begins_go_to_the_next_cycle() {
    let mut map = test_map(2);
    let mut buffer = EditBuffer::new(8, 2);
    let mut dirty = DirtyChunks::new();
    let a = key(0, 0, 0);
    let b = key(9, 9, 9);
    buffer.submit_edit(a, vec![0], vec![Voxel { type_index: 1 }]);
    let batch = buffer.begin_flush();
    // Submitted while the merge is in progress: lands in the new front.
    buffer.submit_edit(b, vec![0], vec![Voxel { type_index: 1 }]);
    merge_edits(&mut map, &batch, &mut dirty);
    assert_eq!(dirty.edited_chunk_keys, vec![a]);
    let mut cache = LocalChunkCache::new();
    assert!(map.read_chunk(&mut cache, b).is_none());
    // The next flush carries it.
    let mut dirty2 = DirtyChunks::new();
    double_buffering_system(&mut buffer, &mut map, &mut dirty2);
    assert_eq!(dirty2.edited_chunk_keys, vec![b]);
    let mut cache2 = LocalChunkCache::new();
    assert!(map.read_chunk(&mut cache2, b).is_some());
}

#[test]
fn compressor_does_nothing_under_capacity() {
    let mut map = test_map(2);
    for i in 0..4 {
        map.edit_chunk(key(i, 0, 0), &vec![0usize], &vec![Voxel { type_index: 1 }]);
    }
    let config = ChunkCacheConfig { max_cached_chunks: 10, max_chunks_compressed_per_frame_per_thread: 50 };
    let evicted = chunk_compressor_system(&config, 4, &mut map);
    assert!(evicted.is_empty());
    assert_eq!(map.len_cached(), 4);
}

#[test]
fn compressor_evicts_down_to_capacity_and_preserves_content() {
    let mut map = test_map(2);
    for i in 0..8 {
        map.edit_chunk(key(i, 0, 0), &vec![0usize], &vec![Voxel { type_index: 1 }]);
    }
    assert_eq!(map.len_cached(), 8);
    let config = ChunkCacheConfig { max_cached_chunks: 3, max_chunks_compressed_per_frame_per_thread: 50 };
    let evicted = chunk_compressor_system(&config, 4, &mut map);
    // overgrowth 5, well under the per-cycle cap of 200.
    assert_eq!(evicted.len(), 5);
    assert_eq!(map.len_cached(), 3);
    // The least recently touched chunks went first.
    assert_eq!(evicted[0], key(0, 0, 0));
    // Content is unchanged: reads transparently decompress.
    let mut cache = LocalChunkCache::new();
    for i in 0..8 {
        let chunk = map.read_chunk(&mut cache, key(i, 0, 0)).unwrap();
        assert_eq!(chunk.voxels[0].type_index, 1);
    }
}

#[test]
fn reads_count_as_accesses_for_eviction() {
    let mut map = test_map(2);
    for i in 0..3 {
        map.edit_chunk(key(i, 0, 0), &vec![0usize], &vec![Voxel { type_index: 1 }]);
    }
    // Edit order makes (0,0,0) the eviction candidate; reading it and
    // absorbing the worker cache at the collection point moves it to the
    // most-recently-used end instead.
    let mut cache = LocalChunkCache::new();
    assert!(map.read_chunk(&mut cache, key(0, 0, 0)).is_some());
    map.absorb_cache(cache);
    let config = ChunkCacheConfig { max_cached_chunks: 2, max_chunks_compressed_per_frame_per_thread: 50 };
    let evicted = chunk_compressor_system(&config, 1, &mut map);
    assert_eq!(evicted, vec![key(1, 0, 0)]);
    assert_eq!(map.len_cached(), 2);
}

#[test]
fn absorbing_a_cache_revives_compressed_chunks() {
    let mut map = test_map(2);
    for i in 0..2 {
        map.edit_chunk(key(i, 0, 0), &vec![0usize], &vec![Voxel { type_index: 1 }]);
    }
    // Compress everything, then read one chunk back and absorb the cache:
    // the read chunk is live again, the other stays compressed.
    let config = ChunkCacheConfig { max_cached_chunks: 0, max_chunks_compressed_per_frame_per_thread: 50 };
    chunk_compressor_system(&config, 1, &mut map);
    assert_eq!(map.len_cached(), 0);
    let mut cache = LocalChunkCache::new();
    let chunk = map.read_chunk(&mut cache, key(1, 0, 0)).unwrap();
    assert_eq!(chunk.voxels[0].type_index, 1);
    map.absorb_cache(cache);
    assert_eq!(map.len_cached(), 1);
}

#[test]
fn compressor_latency_cap_bounds_the_batch() {
    let mut map = test_map(2);
    for i in 0..8 {
        map.edit_chunk(key(i, 0, 0), &vec![0usize], &vec![Voxel { type_index: 1 }]);
    }
    let config = ChunkCacheConfig { max_cached_chunks: 1, max_chunks_compressed_per_frame_per_thread: 2 };
    let evicted = chunk_compressor_system(&config, 2, &mut map);
    // overgrowth 7 clamped to 2 threads * 2 per thread.
    assert_eq!(evicted.len(), 4);
    assert_eq!(map.len_cached(), 4);
}

#[test]
fn regeneration_indexes_solid_chunks_and_marks_empty_ones() {
    let mut map = test_map(2);
    let solid = key(0, 0, 0);
    let hollow = key(1, 0, 0);
    let (offs, vals) = fill_edit(8, 1);
    map.edit_chunk(solid, &offs, &vals);
    // `hollow` exists but every voxel is of the empty type.
    map.edit_chunk(hollow, &vec![0usize], &vec![Voxel { type_index: 0 }]);
    let dirty = DirtyChunks { edited_chunk_keys: vec![solid, hollow] };
    let mut bvt = VoxelBVT::new();
    let mut empty = EmptyChunks::new();
    let mut cache = LocalChunkCache::new();
    octree_generator_system(&map, &mut cache, &dirty, &mut bvt, &mut empty);
    assert_eq!(bvt.query(key(-9, -9, -9), key(9, 9, 9)), vec![solid]);
    assert_eq!(empty.chunks_to_remove, vec![hollow]);
}

#[test]
fn empty_chunk_rewritten_in_same_cycle_is_not_lost() {
    let mut map = test_map(2);
    let k = key(0, 0, 0);
    let (offs, vals) = fill_edit(8, 1);
    map.edit_chunk(k, &offs, &vals);

    // Cycle N: the chunk is written back to all-empty, flushed, and found
    // empty by regeneration.
    let mut buffer = EditBuffer::new(8, 2);
    let mut dirty = DirtyChunks::new();
    let (offs0, vals0) = fill_edit(8, 0);
    buffer.submit_edit(k, offs0, vals0);
    double_buffering_system(&mut buffer, &mut map, &mut dirty);
    let mut bvt = VoxelBVT::new();
    let mut empty = EmptyChunks::new();
    let mut cache = LocalChunkCache::new();
    octree_generator_system(&map, &mut cache, &dirty, &mut bvt, &mut empty);
    assert_eq!(empty.chunks_to_remove, vec![k]);

    // Still cycle N, before removal executes: a writer repopulates the chunk.
    let (offs1, vals1) = fill_edit(8, 1);
    buffer.submit_edit(k, offs1, vals1);

    // Removal runs before the next cycle's merge, so it cannot eat the
    // pending rewrite: the next flush recreates the chunk.
    empty_chunk_remover_system(&mut empty, &mut map);
    let mut dirty2 = DirtyChunks::new();
    double_buffering_system(&mut buffer, &mut map, &mut dirty2);
    let mut cache2 = LocalChunkCache::new();
    let chunk = map.read_chunk(&mut cache2, k).unwrap();
    assert!(chunk.voxels.iter().all(|v| v.type_index == 1));
}

#[test]
fn full_cycle_scenario_on_sixteen_cubed_chunks() {
    // Chunk shape 16x16x16, palette [{empty}, {solid}].
    let mut map = test_map(16);
    let k = key(0, 0, 0);
    let volume = 16 * 16 * 16;
    let mut buffer = EditBuffer::new(volume, 2);
    let mut bvt = VoxelBVT::new();

    // Write all voxels in chunk (0,0,0) to type 1, flush, regenerate.
    let (offs, vals) = fill_edit(volume, 1);
    buffer.submit_edit(k, offs, vals);
    let mut dirty = DirtyChunks::new();
    double_buffering_system(&mut buffer, &mut map, &mut dirty);
    let mut empty = EmptyChunks::new();
    let mut cache = LocalChunkCache::new();
    octree_generator_system(&map, &mut cache, &dirty, &mut bvt, &mut empty);
    assert_eq!(bvt.query(k, k), vec![k]);
    assert!(empty.chunks_to_remove.is_empty());

    // Write all voxels back to type 0, flush, regenerate: the entry goes
    // away and the key is queued for removal.
    let (offs0, vals0) = fill_edit(volume, 0);
    buffer.submit_edit(k, offs0, vals0);
    let mut dirty2 = DirtyChunks::new();
    double_buffering_system(&mut buffer, &mut map, &mut dirty2);
    let mut cache2 = LocalChunkCache::new();
    octree_generator_system(&map, &mut cache2, &dirty2, &mut bvt, &mut empty);
    assert!(bvt.query(k, k).is_empty());
    assert_eq!(empty.chunks_to_remove, vec![k]);

    // After removal the chunk reads as absent.
    empty_chunk_remover_system(&mut empty, &mut map);
    let mut cache3 = LocalChunkCache::new();
    assert!(map.read_chunk(&mut cache3, k).is_none());
    assert!(empty.chunks_to_remove.is_empty());
}

#[test]
fn query_returns_keys_within_the_box() {
    let mut map = test_map(2);
    let inside = key(0, 0, 0);
    let also_inside = key(1, 1, 1);
    let outside = key(5, 0, 0);
    let (offs, vals) = fill_edit(8, 1);
    for k in [inside, also_inside, outside] {
        map.edit_chunk(k, &offs, &vals);
    }
    let dirty = DirtyChunks { edited_chunk_keys: vec![inside, also_inside, outside] };
    let mut bvt = VoxelBVT::new();
    let mut empty = EmptyChunks::new();
    let mut cache = LocalChunkCache::new();
    octree_generator_system(&map, &mut cache, &dirty, &mut bvt, &mut empty);
    let mut found = bvt.query(key(0, 0, 0), key(2, 2, 2));
    found.sort_by_key(|k| (k.x, k.y, k.z));
    assert_eq!(found, vec![inside, also_inside]);
}

#[test]
fn default_cache_config_matches_documented_budget() {
    let config = ChunkCacheConfig::default();
    assert_eq!(config.max_cached_chunks, 100000);
    assert_eq!(config.max_chunks_compressed_per_frame_per_thread, 50);
}

#[test]
fn mark_for_removal_queues_keys_in_order() {
    let mut empty = EmptyChunks::new();
    empty.mark_for_removal(key(1, 2, 3));
    empty.mark_for_removal(key(4, 5, 6));
    assert_eq!(empty.chunks_to_remove, vec![key(1, 2, 3), key(4, 5, 6)]);
}

#[test]
fn removing_an_absent_chunk_is_a_no_op() {
    let mut map = test_map(2);
    map.edit_chunk(key(0, 0, 0), &vec![0usize], &vec![Voxel { type_index: 1 }]);
    let mut empty = EmptyChunks::new();
    empty.mark_for_removal(key(8, 8, 8));
    empty_chunk_remover_system(&mut empty, &mut map);
    let mut cache = LocalChunkCache::new();
    assert!(map.read_chunk(&mut cache, key(0, 0, 0)).is_some());
}

#[test]
fn voxel_info_transform_reads_through_the_map_palette() {
    let map = test_map(2);
    assert!(map.voxel_info_transform(Voxel { type_index: 0 }).is_empty);
    assert!(!map.voxel_info_transform(Voxel { type_index: 1 }).is_empty);
}

#[test]
fn contains_chunk_tracks_the_store() {
    let mut map = test_map(2);
    let k = key(2, 2, 2);
    assert!(!map.contains_chunk(k));
    map.edit_chunk(k, &vec![0usize], &vec![Voxel { type_index: 1 }]);
    assert!(map.contains_chunk(k));
    assert_eq!(map.len_cached(), 1);
    map.remove_chunk(k);
    assert!(!map.contains_chunk(k));
    assert_eq!(map.len_cached(), 0);
}

#[test]
fn default_array_is_uniformly_filled() {
    let chunk = default_array(8, Voxel { type_index: 1 });
    assert_eq!(chunk.voxels.len(), 8);
    assert!(chunk.voxels.iter().all(|v| v.type_index == 1));
}

#[test]
fn local_cache_serves_repeated_reads() {
    let mut map = test_map(2);
    let k = key(0, 0, 0);
    map.edit_chunk(k, &vec![3usize], &vec![Voxel { type_index: 1 }]);
    let mut cache = LocalChunkCache::new();
    let first = map.read_chunk(&mut cache, k).unwrap();
    let second = map.read_chunk(&mut cache, k).unwrap();
    assert_eq!(first.voxels, second.voxels);
    assert_eq!(cache.chunks.len(), 1);
}
