//! Chunk (de)compression.
//!
//! A chunk's voxels are serialized by verified code into a little-endian byte
//! image, two bytes per voxel, and the byte image is handed to the LZ4 codec
//! of `building_blocks`. The codec's byte format is opaque here: the library
//! only relies on the transform being a pure function of the input bytes and
//! on decompression inverting it, so a compressed chunk can always be
//! restored byte-identically.

use vstd::prelude::*;

use crate::voxel::{Chunk, Voxel};
use building_blocks::storage::{BytesCompression, Lz4};

verus! {

/// The opaque byte image that the LZ4 codec produces for the given input
/// bytes. The codec's output is a pure function of its input alone; nothing
/// more is assumed about its shape.
pub uninterp spec fn compressed_form(bytes: Seq<u8>) -> Seq<u8>;

/// Relies on `building_blocks::storage::Lz4::compress_bytes` (level 10, as a
/// pure function of the input bytes) to produce the compressed image.
#[verifier::external_body]
fn lz4_compress(bytes: &Vec<u8>) -> (r: Vec<u8>)
    ensures
        r@ == compressed_form(bytes@),
{
    let mut out: Vec<u8> = Vec::new();
    Lz4 { level: 10 }.compress_bytes(bytes.as_slice(), &mut out);
    out
}

/// Relies on `building_blocks::storage::Lz4::decompress_bytes`: LZ4 is
/// lossless, so decompressing a compressed image restores the source bytes
/// exactly. Inputs that are not the image of some byte sequence are excluded:
/// the codec does not return on garbage.
#[verifier::external_body]
fn lz4_decompress(bytes: &Vec<u8>) -> (r: Vec<u8>)
    requires
        exists|s: Seq<u8>| bytes@ == compressed_form(s),
    ensures
        forall|s: Seq<u8>| bytes@ == compressed_form(s) ==> r@ == s,
{
    let mut out: Vec<u8> = Vec::new();
    Lz4::decompress_bytes(bytes.as_slice(), &mut out);
    out
}

/// The little-endian byte image of a voxel sequence: two bytes per voxel.
pub open spec fn encode_voxels(vs: Seq<Voxel>) -> Seq<u8> {
    Seq::new(
        2 * vs.len(),
        |i: int|
            if i % 2 == 0 {
                (vs[i / 2].type_index % 256) as u8
            } else {
                (vs[i / 2].type_index / 256) as u8
            },
    )
}

/// The voxel sequence read back from a little-endian byte image.
pub open spec fn decode_bytes(bs: Seq<u8>) -> Seq<Voxel> {
    Seq::new(
        bs.len() / 2,
        |i: int| Voxel { type_index: (bs[2 * i] + 256 * bs[2 * i + 1]) as u16 },
    )
}

/// Round trip of the verified serializer: decoding an encoded voxel sequence
/// yields it back unchanged.
pub proof fn lemma_codec_round_trip(vs: Seq<Voxel>)
    ensures
        decode_bytes(encode_voxels(vs)) == vs,
{
    let bs = encode_voxels(vs);
    assert forall|i: int| 0 <= i < vs.len() implies decode_bytes(bs)[i] == vs[i] by {
        let v = vs[i].type_index as int;
        assert((2 * i) % 2 == 0 && (2 * i) / 2 == i && (2 * i + 1) % 2 == 1 && (2 * i + 1) / 2
            == i) by (nonlinear_arith);
        assert(v % 256 + 256 * (v / 256) == v) by (nonlinear_arith)
            requires 0 <= v < 65536;
    }
    assert(decode_bytes(bs) =~= vs);
}

/// Serialize a chunk's voxels into their little-endian byte image.
pub fn encode_chunk(c: &Chunk) -> (r: Vec<u8>)
    ensures
        r@ == encode_voxels(c.voxels@),
{
    let mut out: Vec<u8> = Vec::new();
    let n = c.voxels.len();
    let mut i: usize = 0;
    while i < n
        invariant
            i <= n,
            n == c.voxels@.len(),
            out@.len() == 2 * i,
            forall|j: int|
                0 <= j < i ==> out@[2 * j] == (c.voxels@[j].type_index % 256) as u8 && out@[2 * j
                    + 1] == (c.voxels@[j].type_index / 256) as u8,
        decreases n - i,
    {
        let v = c.voxels[i].type_index;
        out.push((v % 256) as u8);
        out.push((v / 256) as u8);
        i = i + 1;
    }
    assert forall|m: int| 0 <= m < 2 * n implies out@[m] == encode_voxels(c.voxels@)[m] by {
        if m % 2 == 0 {
            assert(m == 2 * (m / 2)) by (nonlinear_arith)
                requires m % 2 == 0;
        } else {
            assert(m == 2 * (m / 2) + 1) by (nonlinear_arith)
                requires m % 2 == 1;
        }
    }
    assert(out@ =~= encode_voxels(c.voxels@));
    out
}

/// Read a voxel sequence back from its little-endian byte image.
pub fn decode_chunk(bytes: &Vec<u8>) -> (r: Chunk)
    requires
        bytes@.len() % 2 == 0,
    ensures
        r.voxels@ == decode_bytes(bytes@),
{
    let len = bytes.len();
    let n = len / 2;
    let mut voxels: Vec<Voxel> = Vec::new();
    let mut i: usize = 0;
    assert(2 * n == bytes@.len());
    while i < n
        invariant
            i <= n,
            len == bytes@.len(),
            2 * n == len,
            voxels@.len() == i,
            forall|j: int| 0 <= j < i ==> voxels@[j] == decode_bytes(bytes@)[j],
        decreases n - i,
    {
        let low = bytes[2 * i];
        let high = bytes[2 * i + 1];
        let v: u16 = (low as u16) + 256 * (high as u16);
        voxels.push(Voxel { type_index: v });
        i = i + 1;
    }
    assert(voxels@ =~= decode_bytes(bytes@));
    Chunk { voxels }
}

/// Compress a chunk: serialize, then hand the bytes to the codec.
pub fn compress_chunk(c: &Chunk) -> (r: Vec<u8>)
    ensures
        r@ == compressed_form(encode_voxels(c.voxels@)),
{
    let bytes = encode_chunk(c);
    lz4_compress(&bytes)
}

/// Decompress a chunk payload produced by `compress_chunk`.
///
/// Round trip: for any chunk, compressing and then decompressing yields
/// byte-identical voxel content — the postcondition returns exactly the voxel
/// sequence whose image the payload is.
pub fn decompress_chunk(bytes: &Vec<u8>) -> (r: Chunk)
    requires
        exists|vs: Seq<Voxel>| bytes@ == compressed_form(encode_voxels(vs)),
    ensures
        forall|vs: Seq<Voxel>| bytes@ == compressed_form(encode_voxels(vs)) ==> r.voxels@ == vs,
{
    let ghost vs0 = choose|vs: Seq<Voxel>| bytes@ == compressed_form(encode_voxels(vs));
    let raw = lz4_decompress(bytes);
    assert(raw@ == encode_voxels(vs0));
    let c = decode_chunk(&raw);
    proof {
        lemma_codec_round_trip(vs0);
        assert forall|vs: Seq<Voxel>| bytes@ == compressed_form(encode_voxels(vs)) implies c.voxels@
            == vs by {
            lemma_codec_round_trip(vs);
        }
    }
    c
}

} // verus!
