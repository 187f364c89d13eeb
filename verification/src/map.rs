//! The chunked voxel store: the global source of truth for voxels.
//!
//! Each chunk key owns exactly one slot, which is either *live* (a directly
//! readable, decompressed voxel array, tracked by LRU recency) or
//! *compressed* (an opaque byte payload produced by the codec). The logical
//! content of a slot never depends on its representation: compression only
//! changes form, and the store's invariant ties every compressed payload to
//! the exact voxel sequence it encodes.

use vstd::prelude::*;

use crate::codec::{compress_chunk, compressed_form, decompress_chunk, encode_voxels};
use crate::voxel::{default_array, Chunk, ChunkKey, Voxel, VoxelPalette, VoxelTypeInfo};

verus! {

/// Errors that make a map configuration unusable. These are fatal at
/// construction: nothing downstream tolerates a degenerate configuration.
#[derive(Clone, Copy, PartialEq, Eq, Structural, Debug)]
pub enum ConfigError {
    /// The chunk edge is zero, too large, or not a power of two.
    DegenerateChunkShape,
    /// The ambient voxel's type index is not covered by the palette.
    InvalidAmbientValue,
}

/// Whether `n` is a power of two.
pub open spec fn is_pow2(n: int) -> bool
    decreases n,
{
    if n <= 0 {
        false
    } else if n == 1 {
        true
    } else {
        n % 2 == 0 && is_pow2(n / 2)
    }
}

/// Whether `n` is a power of eight.
pub open spec fn is_pow8(n: int) -> bool
    decreases n,
{
    if n <= 0 {
        false
    } else if n == 1 {
        true
    } else {
        n % 8 == 0 && is_pow8(n / 8)
    }
}

/// A power-of-two cube has a power-of-eight volume.
pub proof fn lemma_pow2_cube_pow8(e: int)
    requires
        is_pow2(e),
    ensures
        is_pow8(e * e * e),
    decreases e,
{
    if e == 1 {
    } else {
        let m = e / 2;
        assert(e == 2 * m);
        lemma_pow2_cube_pow8(m);
        assert(e * e * e == 8 * (m * m * m)) by (nonlinear_arith)
            requires e == 2 * m;
        assert((8 * (m * m * m)) % 8 == 0 && (8 * (m * m * m)) / 8 == m * m * m)
            by (nonlinear_arith);
        assert(m * m * m > 0) by (nonlinear_arith)
            requires m > 0;
    }
}

fn is_pow2_exec(n: usize) -> (r: bool)
    ensures
        r == is_pow2(n as int),
    decreases n,
{
    if n == 0 {
        false
    } else if n == 1 {
        true
    } else if n % 2 == 0 {
        is_pow2_exec(n / 2)
    } else {
        false
    }
}

/// Configuration of a voxel map: the extent of one chunk and the ambient
/// voxel used to materialize chunks that have never been written.
#[derive(Clone, Copy)]
pub struct MapConfig {
    /// Edge length of the cubic chunk extent, a power of two.
    pub chunk_edge: usize,
    /// Number of voxels in one chunk: `chunk_edge` cubed.
    pub volume: usize,
    /// Default fill for newly created chunks and never-written regions.
    pub ambient_value: Voxel,
}

impl MapConfig {
    pub open spec fn wf(self) -> bool {
        &&& 1 <= self.chunk_edge <= 1024
        &&& is_pow2(self.chunk_edge as int)
        &&& self.volume == self.chunk_edge * self.chunk_edge * self.chunk_edge
    }
}

/// The builder of a chunk map: its configuration before a palette is chosen.
#[derive(Clone, Copy)]
pub struct ChunkMapBuilder {
    pub chunk_edge: usize,
    pub ambient_value: Voxel,
}

/// Package a chunk edge and ambient value for map construction.
pub fn chunk_map_builder(chunk_edge: usize, ambient_value: Voxel) -> (r: ChunkMapBuilder)
    ensures
        r.chunk_edge == chunk_edge,
        r.ambient_value == ambient_value,
{
    ChunkMapBuilder { chunk_edge, ambient_value }
}

/// One chunk's storage slot: decompressed and directly readable, or an opaque
/// compressed payload. The ghost component of a compressed slot records the
/// voxel content that the payload encodes.
pub enum ChunkSlot {
    Live(Chunk),
    Compressed(Vec<u8>, Ghost<Seq<Voxel>>),
}

impl ChunkSlot {
    /// The voxel content this slot stores, independent of representation.
    pub open spec fn content(self) -> Seq<Voxel> {
        match self {
            ChunkSlot::Live(c) => c.voxels@,
            ChunkSlot::Compressed(_, g) => g@,
        }
    }

    pub open spec fn is_live(self) -> bool {
        self is Live
    }

    /// Slot well-formedness: the content is one chunk's worth of palette-valid
    /// voxels, and a compressed payload is exactly the codec's image of it.
    pub open spec fn wf(self, volume: int, palette: VoxelPalette) -> bool {
        &&& self.content().len() == volume
        &&& forall|i: int|
            0 <= i < self.content().len() ==> palette.valid_voxel(#[trigger] self.content()[i])
        &&& match self {
            ChunkSlot::Live(_) => true,
            ChunkSlot::Compressed(b, g) => b@ == compressed_form(encode_voxels(g@)),
        }
    }
}

pub struct ChunkEntry {
    pub key: ChunkKey,
    pub slot: ChunkSlot,
}

/// No two entries share a chunk key.
pub open spec fn keys_unique(es: Seq<ChunkEntry>) -> bool {
    forall|i: int, j: int| 0 <= i < j < es.len() ==> es[i].key != es[j].key
}

/// The voxel map: palette, configuration, chunk slots, and the LRU recency
/// order of the live (decompressed) chunks, least recently used first.
pub struct VoxelMap {
    pub config: MapConfig,
    pub palette: VoxelPalette,
    pub entries: Vec<ChunkEntry>,
    pub recency: Vec<ChunkKey>,
}

impl VoxelMap {
    pub open spec fn has_chunk(self, k: ChunkKey) -> bool {
        exists|i: int| 0 <= i < self.entries@.len() && self.entries@[i].key == k
    }

    pub open spec fn idx_of(self, k: ChunkKey) -> int {
        choose|i: int| 0 <= i < self.entries@.len() && self.entries@[i].key == k
    }

    /// The voxel content stored for chunk `k`.
    pub open spec fn content_at(self, k: ChunkKey) -> Seq<Voxel> {
        self.entries@[self.idx_of(k)].slot.content()
    }

    /// Whether chunk `k` is stored decompressed.
    pub open spec fn chunk_is_live(self, k: ChunkKey) -> bool {
        self.has_chunk(k) && self.entries@[self.idx_of(k)].slot.is_live()
    }

    /// The map's logical content: chunk key to voxel sequence.
    pub open spec fn contents(self) -> Map<ChunkKey, Seq<Voxel>> {
        Map::new(|k: ChunkKey| self.has_chunk(k), |k: ChunkKey| self.content_at(k))
    }

    pub open spec fn wf(self) -> bool {
        &&& self.config.wf()
        &&& self.palette.infos@.len() >= 1
        &&& self.palette.valid_voxel(self.config.ambient_value)
        &&& keys_unique(self.entries@)
        &&& forall|i: int|
            0 <= i < self.entries@.len() ==> (#[trigger] self.entries@[i].slot).wf(
                self.config.volume as int,
                self.palette,
            )
        &&& self.recency@.no_duplicates()
        &&& forall|i: int|
            0 <= i < self.entries@.len() ==> ((#[trigger] self.entries@[i].slot).is_live()
                <==> self.recency@.contains(self.entries@[i].key))
        &&& forall|j: int|
            0 <= j < self.recency@.len() ==> self.has_chunk(#[trigger] self.recency@[j])
    }

    /// With unique keys, any index holding `k` is the chosen one.
    pub proof fn lemma_idx_unique(self, k: ChunkKey, i: int)
        requires
            keys_unique(self.entries@),
            0 <= i < self.entries@.len(),
            self.entries@[i].key == k,
        ensures
            self.idx_of(k) == i,
            self.has_chunk(k),
    {
        assert(self.has_chunk(k));
        let j = self.idx_of(k);
        if i < j {
            assert(self.entries@[i].key != self.entries@[j].key);
        } else if j < i {
            assert(self.entries@[j].key != self.entries@[i].key);
        }
    }

    /// Number of live (decompressed) chunks.
    pub fn len_cached(&self) -> (r: usize)
        ensures
            r == self.recency@.len(),
    {
        self.recency.len()
    }

    /// Index of the entry holding chunk `k`, if the chunk exists.
    fn find_entry(&self, k: ChunkKey) -> (r: Option<usize>)
        requires
            keys_unique(self.entries@),
        ensures
            match r {
                Some(i) => i < self.entries@.len() && self.entries@[i as int].key == k
                    && self.idx_of(k) == i && self.has_chunk(k),
                None => !self.has_chunk(k),
            },
    {
        let n = self.entries.len();
        let mut i: usize = 0;
        while i < n
            invariant
                i <= n,
                n == self.entries@.len(),
                keys_unique(self.entries@),
                forall|j: int| 0 <= j < i ==> self.entries@[j].key != k,
            decreases n - i,
        {
            if self.entries[i].key == k {
                proof {
                    self.lemma_idx_unique(k, i as int);
                }
                return Some(i);
            }
            i = i + 1;
        }
        None
    }

    /// Whether the store holds a chunk for `k`, in either representation.
    pub fn contains_chunk(&self, k: ChunkKey) -> (r: bool)
        requires
            self.wf(),
        ensures
            r == self.has_chunk(k),
    {
        self.find_entry(k).is_some()
    }
}

/// An empty compressible chunk map over the given palette.
///
/// Construction is where degenerate configurations are rejected, and they are
/// rejected always: the result is `Ok` exactly when the chunk edge is a
/// power of two at most 1024 and the ambient value is covered by a non-empty
/// palette.
pub fn empty_compressible_chunk_map(builder: ChunkMapBuilder, palette: VoxelPalette) -> (r: Result<
    VoxelMap,
    ConfigError,
>)
    ensures
        match r {
            Ok(m) => {
                &&& 1 <= builder.chunk_edge <= 1024
                &&& is_pow2(builder.chunk_edge as int)
                &&& palette.valid_voxel(builder.ambient_value)
                &&& m.wf()
                &&& m.config.chunk_edge == builder.chunk_edge
                &&& m.config.ambient_value == builder.ambient_value
                &&& m.palette == palette
                &&& m.entries@.len() == 0
                &&& m.recency@.len() == 0
                &&& forall|k: ChunkKey| !m.has_chunk(k)
            },
            Err(ConfigError::DegenerateChunkShape) => !(1 <= builder.chunk_edge <= 1024 && is_pow2(
                builder.chunk_edge as int,
            )),
            Err(ConfigError::InvalidAmbientValue) => {
                &&& 1 <= builder.chunk_edge <= 1024
                &&& is_pow2(builder.chunk_edge as int)
                &&& !palette.valid_voxel(builder.ambient_value)
            },
        },
{
    let edge = builder.chunk_edge;
    if edge == 0 || edge > 1024 || !is_pow2_exec(edge) {
        return Err(ConfigError::DegenerateChunkShape);
    }
    if (builder.ambient_value.type_index as usize) >= palette.infos.len() {
        return Err(ConfigError::InvalidAmbientValue);
    }
    assert(edge * edge <= 1024 * 1024 && edge * edge * edge <= 1024 * 1024 * 1024)
        by (nonlinear_arith)
        requires 1 <= edge <= 1024;
    let volume = edge * edge * edge;
    let config = MapConfig { chunk_edge: edge, volume, ambient_value: builder.ambient_value };
    Ok(VoxelMap { config, palette, entries: Vec::new(), recency: Vec::new() })
}

/// The content a batch of writes starts from: the stored chunk if the key
/// exists, else a chunk of ambient voxels (creation precedes the first edit).
pub open spec fn edit_base(m: VoxelMap, k: ChunkKey) -> Seq<Voxel> {
    if m.has_chunk(k) {
        m.content_at(k)
    } else {
        ambient_fill(m.config.volume as int, m.config.ambient_value)
    }
}

/// Apply single-voxel writes to a decompressed chunk, in order.
fn write_into_chunk(chunk: &mut Chunk, offsets: &Vec<usize>, values: &Vec<Voxel>)
    requires
        offsets@.len() == values@.len(),
        forall|i: int| 0 <= i < offsets@.len() ==> (#[trigger] offsets@[i]) < old(
            chunk,
        ).voxels@.len(),
    ensures
        final(chunk).voxels@ == apply_writes(old(chunk).voxels@, offsets@, values@),
{
    let ghost orig = chunk.voxels@;
    let n = offsets.len();
    let mut i: usize = 0;
    while i < n
        invariant
            i <= n,
            n == offsets@.len() && n == values@.len(),
            forall|j: int| 0 <= j < offsets@.len() ==> (#[trigger] offsets@[j]) < orig.len(),
            chunk.voxels@ == apply_writes(orig, offsets@.take(i as int), values@.take(i as int)),
            chunk.voxels@.len() == orig.len(),
        decreases n - i,
    {
        let off = offsets[i];
        chunk.voxels.set(off, values[i]);
        proof {
            let o1 = offsets@.take(i + 1);
            let v1 = values@.take(i + 1);
            assert(o1.drop_last() =~= offsets@.take(i as int));
            assert(v1.drop_last() =~= values@.take(i as int));
            assert(o1.last() == offsets@[i as int] && v1.last() == values@[i as int]);
        }
        i = i + 1;
    }
    proof {
        assert(offsets@.take(n as int) =~= offsets@);
        assert(values@.take(n as int) =~= values@);
    }
}

impl VoxelMap {
    /// Apply a batch of single-voxel writes to chunk `k`, creating the chunk
    /// from the ambient value if it does not exist and decompressing it if it
    /// is stored compressed. The touched chunk becomes the most recently used
    /// live chunk; every other chunk is untouched.
    pub fn edit_chunk(&mut self, k: ChunkKey, offsets: &Vec<usize>, values: &Vec<Voxel>)
        requires
            old(self).wf(),
            offsets@.len() == values@.len(),
            forall|i: int|
                0 <= i < offsets@.len() ==> (#[trigger] offsets@[i]) < old(self).config.volume,
            forall|i: int|
                0 <= i < values@.len() ==> old(self).palette.valid_voxel(#[trigger] values@[i]),
        ensures
            final(self).wf(),
            final(self).config == old(self).config,
            final(self).palette == old(self).palette,
            final(self).has_chunk(k) && final(self).chunk_is_live(k),
            final(self).content_at(k) == apply_writes(edit_base(*old(self), k), offsets@, values@),
            forall|k2: ChunkKey|
                k2 != k ==> (#[trigger] final(self).has_chunk(k2)) == old(self).has_chunk(k2),
            forall|k2: ChunkKey|
                k2 != k && old(self).has_chunk(k2) ==> (#[trigger] final(self).content_at(k2))
                    == old(self).content_at(k2) && final(self).chunk_is_live(k2) == old(self).chunk_is_live(k2),
            final(self).contents() == old(self).contents().insert(
                k,
                apply_writes(edit_base(*old(self), k), offsets@, values@),
            ),
            final(self).recency@.len() == old(self).recency@.len() + (if old(self).chunk_is_live(k) {
                0int
            } else {
                1
            }),
            !old(self).chunk_is_live(k) ==> final(self).recency@ == old(self).recency@.push(k),
            old(self).chunk_is_live(k) ==> exists|p: int|
                0 <= p < old(self).recency@.len() && old(self).recency@[p] == k
                    && final(self).recency@ == old(self).recency@.remove(p).push(k),
        {
        let ghost m0 = *self;
        let ghost nc = apply_writes(edit_base(*old(self), k), offsets@, values@);
        match self.find_entry(k) {
            Some(i) => {
                proof {
                    assert(m0.entries@[i as int].slot.wf(m0.config.volume as int, m0.palette));
                }
                let mut chunk = slot_to_chunk(&self.entries[i].slot);
                write_into_chunk(&mut chunk, offsets, values);
                proof {
                    lemma_apply_writes_props(m0.content_at(k), offsets@, values@, m0.palette);
                }
                self.entries.set(i, ChunkEntry { key: k, slot: ChunkSlot::Live(chunk) });
                let ghost was_live = m0.chunk_is_live(k);
                touch_key(&mut self.recency, k);
                proof {
                    let es0 = m0.entries@;
                    let es1 = self.entries@;
                    assert(es1.len() == es0.len());
                    assert(forall|j: int| 0 <= j < es1.len() && j != i ==> es1[j] == es0[j]);
                    assert(es1[i as int].key == k && es0[i as int].key == k);
                    assert(forall|j: int| 0 <= j < es1.len() ==> (#[trigger] es1[j]).key == es0[j].key);
                    assert(keys_unique(es1));
                    assert forall|k2: ChunkKey| #[trigger] self.has_chunk(k2) == m0.has_chunk(k2) by {
                        if self.has_chunk(k2) {
                            let j = choose|j: int| 0 <= j < es1.len() && es1[j].key == k2;
                            assert(es0[j].key == k2);
                        }
                        if m0.has_chunk(k2) {
                            let j = choose|j: int| 0 <= j < es0.len() && es0[j].key == k2;
                            assert(es1[j].key == k2);
                        }
                    }
                    self.lemma_idx_unique(k, i as int);
                    assert(self.content_at(k) == nc);
                    assert forall|k2: ChunkKey| k2 != k && m0.has_chunk(k2) implies (
                    #[trigger] self.content_at(k2)) == m0.content_at(k2) && self.chunk_is_live(k2)
                        == m0.chunk_is_live(k2) by {
                        let j = choose|j: int| 0 <= j < es0.len() && es0[j].key == k2;
                        m0.lemma_idx_unique(k2, j);
                        self.lemma_idx_unique(k2, j);
                        assert(j != i);
                        assert(es1[j] == es0[j]);
                        assert(m0.recency@.contains(k2) == self.recency@.contains(k2));
                    }
                    assert forall|j: int| 0 <= j < es1.len() implies ((#[trigger] es1[j].slot).is_live()
                        <==> self.recency@.contains(es1[j].key)) by {
                        if j == i as int {
                        } else {
                            assert(es1[j] == es0[j]);
                            assert(es0[j].key != k);
                        }
                    }
                    assert forall|j: int| 0 <= j < self.recency@.len() implies self.has_chunk(
                        #[trigger] self.recency@[j],
                    ) by {
                        let x = self.recency@[j];
                        assert(self.recency@.contains(x));
                        if x != k {
                            assert(m0.recency@.contains(x));
                            let jj = choose|jj: int| 0 <= jj < m0.recency@.len() && m0.recency@[jj] == x;
                            assert(m0.has_chunk(x));
                        }
                    }
                    assert(self.wf());
                    assert(self.contents() =~= m0.contents().insert(k, nc));
                    assert(was_live == m0.recency@.contains(k)) by {
                        m0.lemma_idx_unique(k, i as int);
                    }
                }
            },
            None => {
                let volume = self.config.volume;
                let mut chunk = default_array(volume, self.config.ambient_value);
                proof {
                    assert(chunk.voxels@ =~= ambient_fill(
                        m0.config.volume as int,
                        m0.config.ambient_value,
                    ));
                }
                write_into_chunk(&mut chunk, offsets, values);
                proof {
                    lemma_apply_writes_props(
                        ambient_fill(m0.config.volume as int, m0.config.ambient_value),
                        offsets@,
                        values@,
                        m0.palette,
                    );
                }
                let ghost idx = self.entries@.len() as int;
                self.entries.push(ChunkEntry { key: k, slot: ChunkSlot::Live(chunk) });
                touch_key(&mut self.recency, k);
                proof {
                    let es0 = m0.entries@;
                    let es1 = self.entries@;
                    assert(forall|j: int| 0 <= j < es0.len() ==> (#[trigger] es0[j]).key != k);
                    assert forall|j: int| 0 <= j < es0.len() implies es1[j] == es0[j] by {}
                    assert(keys_unique(es1));
                    self.lemma_idx_unique(k, idx);
                    assert(self.content_at(k) == nc);
                    assert forall|k2: ChunkKey| k2 != k implies (#[trigger] self.has_chunk(k2))
                        == m0.has_chunk(k2) by {
                        if self.has_chunk(k2) {
                            let j = choose|j: int| 0 <= j < es1.len() && es1[j].key == k2;
                            assert(j != idx);
                            assert(es0[j].key == k2);
                        }
                        if m0.has_chunk(k2) {
                            let j = choose|j: int| 0 <= j < es0.len() && es0[j].key == k2;
                            assert(es1[j].key == k2);
                        }
                    }
                    assert(!m0.recency@.contains(k)) by {
                        if m0.recency@.contains(k) {
                            let j = choose|j: int| 0 <= j < m0.recency@.len() && m0.recency@[j] == k;
                            assert(m0.has_chunk(k));
                        }
                    }
                    assert forall|k2: ChunkKey| k2 != k && m0.has_chunk(k2) implies (
                    #[trigger] self.content_at(k2)) == m0.content_at(k2) && self.chunk_is_live(k2)
                        == m0.chunk_is_live(k2) by {
                        let j = choose|j: int| 0 <= j < es0.len() && es0[j].key == k2;
                        m0.lemma_idx_unique(k2, j);
                        self.lemma_idx_unique(k2, j);
                        assert(es1[j] == es0[j]);
                    }
                    assert forall|j: int| 0 <= j < es1.len() implies ((#[trigger] es1[j].slot).is_live()
                        <==> self.recency@.contains(es1[j].key)) by {
                        if j == idx {
                        } else {
                            assert(es1[j] == es0[j]);
                            assert(es0[j].key != k);
                        }
                    }
                    assert forall|j: int| 0 <= j < self.recency@.len() implies self.has_chunk(
                        #[trigger] self.recency@[j],
                    ) by {
                        let x = self.recency@[j];
                        assert(self.recency@.contains(x));
                        if x != k {
                            assert(m0.recency@.contains(x));
                            let jj = choose|jj: int| 0 <= jj < m0.recency@.len() && m0.recency@[jj] == x;
                            assert(m0.has_chunk(x));
                        }
                    }
                    assert(self.wf());
                    assert(self.contents() =~= m0.contents().insert(k, nc));
                    assert(!m0.chunk_is_live(k));
                }
            },
        }
    }
}

/// The ambient content of a chunk that has never been written.
pub open spec fn ambient_fill(volume: int, ambient: Voxel) -> Seq<Voxel> {
    Seq::new(volume as nat, |i: int| ambient)
}

/// The content of a chunk after a batch of single-voxel writes, applied in
/// order (a later write to the same offset wins).
pub open spec fn apply_writes(c: Seq<Voxel>, offs: Seq<usize>, vals: Seq<Voxel>) -> Seq<Voxel>
    decreases offs.len(),
{
    if offs.len() == 0 || vals.len() == 0 {
        c
    } else {
        apply_writes(c, offs.drop_last(), vals.drop_last()).update(
            offs.last() as int,
            vals.last(),
        )
    }
}

/// Applying in-range writes of palette-valid voxels preserves chunk length
/// and palette validity.
pub proof fn lemma_apply_writes_props(
    c: Seq<Voxel>,
    offs: Seq<usize>,
    vals: Seq<Voxel>,
    palette: VoxelPalette,
)
    requires
        offs.len() == vals.len(),
        forall|i: int| 0 <= i < offs.len() ==> (#[trigger] offs[i]) < c.len(),
        forall|i: int| 0 <= i < vals.len() ==> palette.valid_voxel(#[trigger] vals[i]),
        forall|i: int| 0 <= i < c.len() ==> palette.valid_voxel(#[trigger] c[i]),
    ensures
        apply_writes(c, offs, vals).len() == c.len(),
        forall|i: int|
            0 <= i < c.len() ==> palette.valid_voxel(#[trigger] apply_writes(c, offs, vals)[i]),
    decreases offs.len(),
{
    if offs.len() == 0 {
    } else {
        lemma_apply_writes_props(c, offs.drop_last(), vals.drop_last(), palette);
    }
}

/// Index-level description of removing position `i` from an entry sequence.
proof fn lemma_entries_remove(s: Seq<ChunkEntry>, i: int)
    requires
        0 <= i < s.len(),
    ensures
        s.remove(i).len() == s.len() - 1,
        forall|j: int| 0 <= j < i ==> s.remove(i)[j] == s[j],
        forall|j: int| i <= j < s.len() - 1 ==> s.remove(i)[j] == s[j + 1],
{
}

/// Index-level description of removing position `i` from a key sequence.
proof fn lemma_seq_remove(s: Seq<ChunkKey>, i: int)
    requires
        0 <= i < s.len(),
    ensures
        s.remove(i).len() == s.len() - 1,
        forall|j: int| 0 <= j < i ==> s.remove(i)[j] == s[j],
        forall|j: int| i <= j < s.len() - 1 ==> s.remove(i)[j] == s[j + 1],
        forall|x: ChunkKey| s.remove(i).contains(x) ==> s.contains(x),
        forall|x: ChunkKey| x != s[i] && s.contains(x) ==> s.remove(i).contains(x),
        s.no_duplicates() ==> s.remove(i).no_duplicates(),
        s.no_duplicates() ==> !s.remove(i).contains(s[i]),
{
    let r = s.remove(i);
    assert forall|x: ChunkKey| r.contains(x) implies s.contains(x) by {
        let j = choose|j: int| 0 <= j < r.len() && r[j] == x;
        if j < i {
            assert(s[j] == x);
        } else {
            assert(s[j + 1] == x);
        }
    }
    assert forall|x: ChunkKey| x != s[i] && s.contains(x) implies r.contains(x) by {
        let j = choose|j: int| 0 <= j < s.len() && s[j] == x;
        if j < i {
            assert(r[j] == x);
        } else {
            assert(j > i);
            assert(r[j - 1] == x);
        }
    }
    if s.no_duplicates() {
        assert forall|j1: int, j2: int| 0 <= j1 < j2 < r.len() implies r[j1] != r[j2] by {
            let m1 = if j1 < i { j1 } else { j1 + 1 };
            let m2 = if j2 < i { j2 } else { j2 + 1 };
            assert(r[j1] == s[m1] && r[j2] == s[m2] && m1 < m2);
        }
        if r.contains(s[i]) {
            let j = choose|j: int| 0 <= j < r.len() && r[j] == s[i];
            if j < i {
                assert(s[j] == s[i] && j < i);
            } else {
                assert(s[j + 1] == s[i] && i < j + 1);
            }
        }
    }
}

/// Move `k` to the most-recently-used end of a recency order, inserting it if
/// it is not yet tracked.
fn touch_key(r: &mut Vec<ChunkKey>, k: ChunkKey)
    requires
        old(r)@.no_duplicates(),
    ensures
        final(r)@.no_duplicates(),
        final(r)@.len() == old(r)@.len() + (if old(r)@.contains(k) { 0int } else { 1 }),
        final(r)@.len() >= 1 && final(r)@[final(r)@.len() - 1] == k,
        forall|x: ChunkKey| final(r)@.contains(x) <==> (old(r)@.contains(x) || x == k),
        !old(r)@.contains(k) ==> final(r)@ == old(r)@.push(k),
        old(r)@.contains(k) ==> exists|p: int|
            0 <= p < old(r)@.len() && old(r)@[p] == k && final(r)@ == old(r)@.remove(p).push(k),
{
    let n = r.len();
    let mut i: usize = 0;
    while i < n
        invariant
            i <= n,
            n == r@.len(),
            r@ == old(r)@,
            r@.no_duplicates(),
            forall|j: int| 0 <= j < i ==> r@[j] != k,
        decreases n - i,
    {
        if r[i] == k {
            let ghost s0 = r@;
            proof {
                lemma_seq_remove(s0, i as int);
                assert(s0.contains(k));
            }
            r.remove(i);
            let ghost rr = r@;
            r.push(k);
            proof {
                assert(rr == s0.remove(i as int));
                assert(r@ == rr.push(k));
                assert forall|x: ChunkKey| r@.contains(x) implies (s0.contains(x) || x == k) by {
                    if x != k {
                        let j = choose|j: int| 0 <= j < r@.len() && r@[j] == x;
                        assert(rr[j] == x);
                        assert(rr.contains(x));
                    }
                }
                assert forall|x: ChunkKey| (s0.contains(x) || x == k) implies r@.contains(x) by {
                    if x == k {
                        assert(r@[r@.len() - 1] == k);
                    } else {
                        assert(rr.contains(x));
                        let j = choose|j: int| 0 <= j < rr.len() && rr[j] == x;
                        assert(r@[j] == x);
                    }
                }
                assert forall|j1: int, j2: int| 0 <= j1 < j2 < r@.len() implies r@[j1] != r@[j2] by {
                    if j2 == r@.len() - 1 {
                        assert(r@[j1] == rr[j1]);
                        assert(rr.contains(rr[j1]));
                        assert(!rr.contains(k));
                    } else {
                        assert(r@[j1] == rr[j1] && r@[j2] == rr[j2]);
                    }
                }
            }
            return ;
        }
        i = i + 1;
    }
    assert(!r@.contains(k));
    let ghost s0 = r@;
    r.push(k);
    proof {
        assert(r@ == s0.push(k));
        assert forall|x: ChunkKey| r@.contains(x) implies (s0.contains(x) || x == k) by {
            let j = choose|j: int| 0 <= j < r@.len() && r@[j] == x;
            if j < r@.len() - 1 {
                assert(s0[j] == x);
            }
        }
        assert forall|x: ChunkKey| s0.contains(x) implies r@.contains(x) by {
            let j = choose|j: int| 0 <= j < s0.len() && s0[j] == x;
            assert(r@[j] == x);
        }
        assert forall|j1: int, j2: int| 0 <= j1 < j2 < r@.len() implies r@[j1] != r@[j2] by {
            if j2 == r@.len() - 1 {
                assert(r@[j1] == s0[j1]);
                assert(s0.contains(s0[j1]));
            }
        }
    }
}

/// Copy a chunk's voxel array.
fn chunk_copy(c: &Chunk) -> (r: Chunk)
    ensures
        r.voxels@ == c.voxels@,
{
    let n = c.voxels.len();
    let mut voxels: Vec<Voxel> = Vec::new();
    let mut i: usize = 0;
    while i < n
        invariant
            i <= n,
            n == c.voxels@.len(),
            voxels@ == c.voxels@.take(i as int),
        decreases n - i,
    {
        voxels.push(c.voxels[i]);
        proof {
            assert(voxels@ =~= c.voxels@.take(i + 1));
        }
        i = i + 1;
    }
    proof {
        assert(voxels@ =~= c.voxels@);
    }
    Chunk { voxels }
}

/// Materialize a slot's content as a decompressed chunk. Relies only on the
/// codec contract for compressed slots.
fn slot_to_chunk(slot: &ChunkSlot) -> (r: Chunk)
    requires
        match *slot {
            ChunkSlot::Live(_) => true,
            ChunkSlot::Compressed(b, g) => b@ == compressed_form(encode_voxels(g@)),
        },
    ensures
        r.voxels@ == slot.content(),
{
    match slot {
        ChunkSlot::Live(c) => chunk_copy(c),
        ChunkSlot::Compressed(b, g) => {
            let c = decompress_chunk(b);
            assert(c.voxels@ == g@);
            c
        },
    }
}

/// Drop `k` from a recency order if it is tracked.
fn untrack_key(r: &mut Vec<ChunkKey>, k: ChunkKey)
    requires
        old(r)@.no_duplicates(),
    ensures
        final(r)@.no_duplicates(),
        !final(r)@.contains(k),
        forall|x: ChunkKey| x != k ==> (final(r)@.contains(x) <==> old(r)@.contains(x)),
        final(r)@.len() == old(r)@.len() - (if old(r)@.contains(k) { 1int } else { 0 }),
        !old(r)@.contains(k) ==> final(r)@ == old(r)@,
{
    let n = r.len();
    let mut i: usize = 0;
    while i < n
        invariant
            i <= n,
            n == r@.len(),
            r@ == old(r)@,
            r@.no_duplicates(),
            forall|j: int| 0 <= j < i ==> r@[j] != k,
        decreases n - i,
    {
        if r[i] == k {
            proof {
                lemma_seq_remove(r@, i as int);
                assert(r@.contains(k));
            }
            r.remove(i);
            return ;
        }
        i = i + 1;
    }
    assert(!r@.contains(k));
}

impl VoxelMap {
    /// Evict the least recently used live chunk, replacing its slot with the
    /// codec's compressed payload. Representation changes; content does not.
    pub fn compress_lru(&mut self) -> (r: Option<ChunkKey>)
        requires
            old(self).wf(),
        ensures
            final(self).wf(),
            final(self).config == old(self).config,
            final(self).palette == old(self).palette,
            match r {
                None => old(self).recency@.len() == 0 && *final(self) == *old(self),
                Some(k) => {
                    &&& old(self).recency@.len() >= 1
                    &&& k == old(self).recency@[0]
                    &&& final(self).recency@ == old(self).recency@.remove(0)
                    &&& final(self).recency@.len() == old(self).recency@.len() - 1
                    &&& forall|k2: ChunkKey| (#[trigger] final(self).has_chunk(k2)) == old(self).has_chunk(k2)
                    &&& forall|k2: ChunkKey|
                        old(self).has_chunk(k2) ==> (#[trigger] final(self).content_at(k2)) == old(self).content_at(k2)
                    &&& final(self).contents() == old(self).contents()
                    &&& !final(self).chunk_is_live(k)
                    &&& forall|k2: ChunkKey|
                        k2 != k ==> (#[trigger] final(self).chunk_is_live(k2)) == old(self).chunk_is_live(k2)
                },
            },
    {
        let ghost m0 = *self;
        if self.recency.len() == 0 {
            return None;
        }
        let k = self.recency[0];
        assert(self.recency@.contains(k));
        assert(self.has_chunk(k));
        let idx = match self.find_entry(k) {
            Some(i) => i,
            None => {
                // Unreachable: every tracked recency key has a chunk.
                proof {
                    assert(false);
                }
                0
            },
        };
        let ghost content = m0.entries@[idx as int].slot.content();
        let bytes = match &self.entries[idx].slot {
            ChunkSlot::Live(c) => compress_chunk(c),
            ChunkSlot::Compressed(_, _) => {
                // Unreachable: a chunk in the recency order is stored live.
                proof {
                    assert(false);
                }
                Vec::new()
            },
        };
        self.entries.set(
            idx,
            ChunkEntry { key: k, slot: ChunkSlot::Compressed(bytes, Ghost(content)) },
        );
        proof {
            lemma_seq_remove(m0.recency@, 0);
        }
        self.recency.remove(0);
        proof {
            let es0 = m0.entries@;
            let es1 = self.entries@;
            assert(es1.len() == es0.len());
            assert(forall|j: int| 0 <= j < es1.len() && j != idx ==> es1[j] == es0[j]);
            assert(forall|j: int| 0 <= j < es1.len() ==> (#[trigger] es1[j]).key == es0[j].key);
            assert(keys_unique(es1));
            assert(es1[idx as int].slot.content() == content);
            assert(es1[idx as int].slot.wf(m0.config.volume as int, m0.palette));
            assert forall|k2: ChunkKey| (#[trigger] self.has_chunk(k2)) == m0.has_chunk(k2) by {
                if self.has_chunk(k2) {
                    let j = choose|j: int| 0 <= j < es1.len() && es1[j].key == k2;
                    assert(es0[j].key == k2);
                }
                if m0.has_chunk(k2) {
                    let j = choose|j: int| 0 <= j < es0.len() && es0[j].key == k2;
                    assert(es1[j].key == k2);
                }
            }
            m0.lemma_idx_unique(k, idx as int);
            self.lemma_idx_unique(k, idx as int);
            assert forall|k2: ChunkKey| m0.has_chunk(k2) implies (#[trigger] self.content_at(k2))
                == m0.content_at(k2) by {
                let j = choose|j: int| 0 <= j < es0.len() && es0[j].key == k2;
                m0.lemma_idx_unique(k2, j);
                self.lemma_idx_unique(k2, j);
                if j != idx {
                    assert(es1[j] == es0[j]);
                }
            }
            assert forall|k2: ChunkKey| k2 != k implies (#[trigger] self.chunk_is_live(k2))
                == m0.chunk_is_live(k2) by {
                if m0.has_chunk(k2) {
                    let j = choose|j: int| 0 <= j < es0.len() && es0[j].key == k2;
                    m0.lemma_idx_unique(k2, j);
                    self.lemma_idx_unique(k2, j);
                    assert(j != idx);
                    assert(es1[j] == es0[j]);
                }
            }
            assert forall|j: int| 0 <= j < es1.len() implies ((#[trigger] es1[j].slot).is_live()
                <==> self.recency@.contains(es1[j].key)) by {
                if j == idx as int {
                    assert(!self.recency@.contains(k));
                } else {
                    assert(es1[j] == es0[j]);
                    assert(es0[j].key != k);
                }
            }
            assert forall|j: int| 0 <= j < self.recency@.len() implies self.has_chunk(
                #[trigger] self.recency@[j],
            ) by {
                let x = self.recency@[j];
                assert(self.recency@.contains(x));
                assert(m0.recency@.contains(x));
                let jj = choose|jj: int| 0 <= jj < m0.recency@.len() && m0.recency@[jj] == x;
                assert(m0.has_chunk(x));
            }
            assert(self.wf());
            assert(self.contents() =~= m0.contents());
        }
        Some(k)
    }

    /// Remove chunk `k` from the store entirely, in whichever representation
    /// it is held. Removing an absent key is a no-op.
    pub fn remove_chunk(&mut self, k: ChunkKey)
        requires
            old(self).wf(),
        ensures
            final(self).wf(),
            final(self).config == old(self).config,
            final(self).palette == old(self).palette,
            !final(self).has_chunk(k),
            forall|k2: ChunkKey|
                k2 != k ==> (#[trigger] final(self).has_chunk(k2)) == old(self).has_chunk(k2),
            forall|k2: ChunkKey|
                k2 != k && old(self).has_chunk(k2) ==> (#[trigger] final(self).content_at(k2))
                    == old(self).content_at(k2) && final(self).chunk_is_live(k2) == old(self).chunk_is_live(k2),
            final(self).contents() == old(self).contents().remove(k),
            final(self).recency@.len() == old(self).recency@.len() - (if old(self).chunk_is_live(k) {
                1int
            } else {
                0
            }),
    {
        let ghost m0 = *self;
        match self.find_entry(k) {
            None => {
                proof {
                    assert(self.contents() =~= m0.contents().remove(k));
                    assert(!m0.chunk_is_live(k));
                }
            },
            Some(idx) => {
                proof {
                    m0.lemma_idx_unique(k, idx as int);
                    lemma_entries_remove(m0.entries@, idx as int);
                }
                let ghost was_live = m0.chunk_is_live(k);
                self.entries.remove(idx);
                untrack_key(&mut self.recency, k);
                proof {
                    let es0 = m0.entries@;
                    let es1 = self.entries@;
                    assert(es1 == es0.remove(idx as int));
                    assert forall|j1: int, j2: int|
                        0 <= j1 < j2 < es1.len() implies es1[j1].key != es1[j2].key by {
                        let m1 = if j1 < idx as int { j1 } else { j1 + 1 };
                        let m2 = if j2 < idx as int { j2 } else { j2 + 1 };
                        assert(es1[j1] == es0[m1] && es1[j2] == es0[m2] && m1 < m2);
                    }
                    assert(keys_unique(es1));
                    assert forall|k2: ChunkKey| k2 != k implies (#[trigger] self.has_chunk(k2))
                        == m0.has_chunk(k2) by {
                        if self.has_chunk(k2) {
                            let j = choose|j: int| 0 <= j < es1.len() && es1[j].key == k2;
                            if j < idx as int {
                                assert(es0[j].key == k2);
                            } else {
                                assert(es0[j + 1].key == k2);
                            }
                        }
                        if m0.has_chunk(k2) {
                            let j = choose|j: int| 0 <= j < es0.len() && es0[j].key == k2;
                            assert(j != idx);
                            if j < idx as int {
                                assert(es1[j].key == k2);
                            } else {
                                assert(es1[j - 1].key == k2);
                            }
                        }
                    }
                    assert(!self.has_chunk(k)) by {
                        if self.has_chunk(k) {
                            let j = choose|j: int| 0 <= j < es1.len() && es1[j].key == k;
                            if j < idx as int {
                                assert(es0[j].key == k && es0[idx as int].key == k);
                            } else {
                                assert(es0[j + 1].key == k && es0[idx as int].key == k);
                            }
                        }
                    }
                    assert forall|k2: ChunkKey| k2 != k && m0.has_chunk(k2) implies (
                    #[trigger] self.content_at(k2)) == m0.content_at(k2) && self.chunk_is_live(k2)
                        == m0.chunk_is_live(k2) by {
                        let j = choose|j: int| 0 <= j < es0.len() && es0[j].key == k2;
                        m0.lemma_idx_unique(k2, j);
                        assert(j != idx);
                        let j1 = if j < idx as int { j } else { j - 1 };
                        assert(es1[j1] == es0[j]);
                        self.lemma_idx_unique(k2, j1);
                        assert(self.recency@.contains(k2) == m0.recency@.contains(k2));
                    }
                    assert(was_live == m0.recency@.contains(k)) by {
                        m0.lemma_idx_unique(k, idx as int);
                    }
                    assert forall|j: int| 0 <= j < es1.len() implies ((
                    #[trigger] es1[j].slot).is_live() <==> self.recency@.contains(es1[j].key)) by {
                        let m1 = if j < idx as int { j } else { j + 1 };
                        assert(es1[j] == es0[m1]);
                        assert(es0[m1].key != k);
                        assert(self.recency@.contains(es0[m1].key) == m0.recency@.contains(
                            es0[m1].key,
                        ));
                    }
                    assert forall|j: int| 0 <= j < self.recency@.len() implies self.has_chunk(
                        #[trigger] self.recency@[j],
                    ) by {
                        let x = self.recency@[j];
                        assert(self.recency@.contains(x));
                        assert(x != k);
                        assert(m0.recency@.contains(x));
                        let jj = choose|jj: int| 0 <= jj < m0.recency@.len() && m0.recency@[jj] == x;
                        assert(m0.has_chunk(x));
                    }
                    assert(self.wf());
                    assert(self.contents() =~= m0.contents().remove(k));
                }
            },
        }
    }
}

/// One memoized decompressed chunk of a worker's private cache.
pub struct CachedChunk {
    pub key: ChunkKey,
    pub chunk: Chunk,
}

/// A per-worker scratch cache of decompressed chunks. Workers reading the
/// shared store concurrently each decompress and memoize privately, so the
/// hot read path needs no cross-thread synchronization. The cache has no
/// eviction policy of its own; its owner resets it between cycles.
pub struct LocalChunkCache {
    pub chunks: Vec<CachedChunk>,
}

impl LocalChunkCache {
    /// Every memoized chunk agrees with the store's current content.
    pub open spec fn consistent_with(self, m: VoxelMap) -> bool {
        forall|i: int|
            0 <= i < self.chunks@.len() ==> m.has_chunk((#[trigger] self.chunks@[i]).key)
                && self.chunks@[i].chunk.voxels@ == m.content_at(self.chunks@[i].key)
    }

    /// Whether this cache memoizes a chunk for `k`.
    pub open spec fn lists_key(self, k: ChunkKey) -> bool {
        exists|j: int| 0 <= j < self.chunks@.len() && (#[trigger] self.chunks@[j]).key == k
    }

    pub fn new() -> (r: Self)
        ensures
            r.chunks@.len() == 0,
    {
        LocalChunkCache { chunks: Vec::new() }
    }
}

impl VoxelMap {
    /// Metadata lookup for one voxel read from this map, through its palette:
    /// the transform under which readers see voxels as their type info.
    pub fn voxel_info_transform(&self, v: Voxel) -> (r: &VoxelTypeInfo)
        requires
            self.palette.valid_voxel(v),
        ensures
            *r == self.palette.infos@[v.type_index as int],
    {
        self.palette.get_voxel_type_info(v)
    }

    /// Read chunk `k` through a worker's private cache, decompressing on
    /// demand and memoizing the result. The shared store is untouched.
    pub fn read_chunk(&self, cache: &mut LocalChunkCache, k: ChunkKey) -> (r: Option<Chunk>)
        requires
            self.wf(),
            old(cache).consistent_with(*self),
        ensures
            final(cache).consistent_with(*self),
            match r {
                Some(c) => self.has_chunk(k) && c.voxels@ == self.content_at(k),
                None => !self.has_chunk(k),
            },
    {
        let n = cache.chunks.len();
        let mut i: usize = 0;
        while i < n
            invariant
                i <= n,
                n == cache.chunks@.len(),
                cache.chunks@ == old(cache).chunks@,
                old(cache).consistent_with(*self),
            decreases n - i,
        {
            if cache.chunks[i].key == k {
                return Some(chunk_copy(&cache.chunks[i].chunk));
            }
            i = i + 1;
        }
        match self.find_entry(k) {
            None => None,
            Some(idx) => {
                proof {
                    assert(self.entries@[idx as int].slot.wf(
                        self.config.volume as int,
                        self.palette,
                    ));
                }
                let c = slot_to_chunk(&self.entries[idx].slot);
                let copy = chunk_copy(&c);
                let ghost before = cache.chunks@;
                cache.chunks.push(CachedChunk { key: k, chunk: copy });
                proof {
                    assert forall|j: int| 0 <= j < cache.chunks@.len() implies self.has_chunk(
                        (#[trigger] cache.chunks@[j]).key,
                    ) && cache.chunks@[j].chunk.voxels@ == self.content_at(cache.chunks@[j].key) by {
                        if j < before.len() {
                            assert(cache.chunks@[j] == before[j]);
                        }
                    }
                }
                Some(c)
            },
        }
    }

    /// The serialized flush-back at a cycle's collection point: every chunk
    /// a worker's cache read this cycle is re-marked live and moved to the
    /// most-recently-used end of the recency order, so reads count as
    /// accesses for eviction exactly like writes. The store's logical
    /// content is untouched, and chunks no worker read keep their
    /// representation.
    pub fn absorb_cache(&mut self, cache: LocalChunkCache)
        requires
            old(self).wf(),
            cache.consistent_with(*old(self)),
        ensures
            final(self).wf(),
            final(self).config == old(self).config,
            final(self).palette == old(self).palette,
            final(self).contents() == old(self).contents(),
            forall|k: ChunkKey| (#[trigger] final(self).has_chunk(k)) == old(self).has_chunk(k),
            forall|k: ChunkKey|
                old(self).has_chunk(k) ==> (#[trigger] final(self).content_at(k)) == old(self).content_at(k),
            forall|j: int|
                0 <= j < cache.chunks@.len() ==> final(self).chunk_is_live(
                    (#[trigger] cache.chunks@[j]).key,
                ),
            forall|k: ChunkKey|
                !cache.lists_key(k) ==> (#[trigger] final(self).chunk_is_live(k)) == old(self).chunk_is_live(k),
            cache.chunks@.len() > 0 ==> final(self).recency@.len() >= 1
                && final(self).recency@[final(self).recency@.len() - 1]
                == cache.chunks@[cache.chunks@.len() - 1].key,
    {
        let ghost m0 = *self;
        let empty_offsets: Vec<usize> = Vec::new();
        let empty_values: Vec<Voxel> = Vec::new();
        let n = cache.chunks.len();
        let mut i: usize = 0;
        while i < n
            invariant
                i <= n,
                n == cache.chunks@.len(),
                cache.consistent_with(m0),
                self.wf(),
                self.config == m0.config,
                self.palette == m0.palette,
                self.contents() == m0.contents(),
                empty_offsets@.len() == 0 && empty_values@.len() == 0,
                forall|k: ChunkKey| (#[trigger] self.has_chunk(k)) == m0.has_chunk(k),
                forall|k: ChunkKey|
                    m0.has_chunk(k) ==> (#[trigger] self.content_at(k)) == m0.content_at(k),
                forall|j: int|
                    0 <= j < i ==> self.chunk_is_live((#[trigger] cache.chunks@[j]).key),
                forall|k: ChunkKey|
                    !(exists|j: int| 0 <= j < i && (#[trigger] cache.chunks@[j]).key == k)
                        ==> (#[trigger] self.chunk_is_live(k)) == m0.chunk_is_live(k),
                i > 0 ==> self.recency@.len() >= 1 && self.recency@[self.recency@.len() - 1]
                    == cache.chunks@[i - 1].key,
            decreases n - i,
        {
            let k = cache.chunks[i].key;
            let ghost mpre = *self;
            proof {
                assert(m0.has_chunk(k) && self.has_chunk(k));
            }
            self.edit_chunk(k, &empty_offsets, &empty_values);
            proof {
                assert(self.content_at(k) == mpre.content_at(k));
                assert(self.contents() =~= mpre.contents());
                assert(self.recency@.len() >= 1 && self.recency@[self.recency@.len() - 1] == k)
                    by {
                    if mpre.chunk_is_live(k) {
                        let p = choose|p: int|
                            0 <= p < mpre.recency@.len() && mpre.recency@[p] == k && self.recency@
                                == mpre.recency@.remove(p).push(k);
                        assert(self.recency@[self.recency@.len() - 1] == k);
                    } else {
                        assert(self.recency@ == mpre.recency@.push(k));
                    }
                }
                assert forall|j: int| 0 <= j < i + 1 implies self.chunk_is_live(
                    (#[trigger] cache.chunks@[j]).key,
                ) by {
                    let kj = cache.chunks@[j].key;
                    if kj == k {
                        assert(self.chunk_is_live(k));
                    } else {
                        assert(j < i);
                        assert(m0.has_chunk(kj));
                        assert(mpre.has_chunk(kj));
                        assert(mpre.chunk_is_live(kj));
                        assert(self.content_at(kj) == mpre.content_at(kj));
                        assert(self.chunk_is_live(kj) == mpre.chunk_is_live(kj));
                    }
                }
                assert forall|k2: ChunkKey|
                    !(exists|j: int| 0 <= j < i + 1 && (#[trigger] cache.chunks@[j]).key == k2)
                        implies (#[trigger] self.chunk_is_live(k2)) == m0.chunk_is_live(k2) by {
                    assert(cache.chunks@[i as int].key == k);
                    assert(k2 != k);
                    assert(!(exists|j: int|
                        0 <= j < i && (#[trigger] cache.chunks@[j]).key == k2));
                    assert(mpre.chunk_is_live(k2) == m0.chunk_is_live(k2));
                    assert(self.has_chunk(k2) == mpre.has_chunk(k2));
                    if mpre.has_chunk(k2) {
                        assert(self.content_at(k2) == mpre.content_at(k2));
                        assert(self.chunk_is_live(k2) == mpre.chunk_is_live(k2));
                    } else {
                        assert(!self.has_chunk(k2));
                        assert(!self.chunk_is_live(k2) && !mpre.chunk_is_live(k2));
                    }
                }
            }
            i = i + 1;
        }
        proof {
            assert forall|k2: ChunkKey| !cache.lists_key(k2) implies (#[trigger] self.chunk_is_live(
                k2,
            )) == m0.chunk_is_live(k2) by {
                assert(!(exists|j: int| 0 <= j < n && (#[trigger] cache.chunks@[j]).key == k2));
            }
        }
    }
}

} // verus!
