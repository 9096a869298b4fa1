//! The on-disk form of a chunk: its tiles as a `bincode` list of integer
//! pairs, compressed as an LZ4 block with the uncompressed size in front.
use vstd::prelude::*;

use crate::coords::V2i;

verus! {

/// The four little-endian bytes of an `i32` (two's complement).
pub open spec fn le_i32(x: i32) -> Seq<u8> {
    le_u32((if x < 0 { x + 0x1_0000_0000 } else { x as int }) as nat)
}

/// The eight little-endian bytes of a `u64`.
pub open spec fn le_u64(n: nat) -> Seq<u8> {
    le_u32(n % 0x1_0000_0000) + le_u32(n / 0x1_0000_0000 % 0x1_0000_0000)
}

/// The pairs one after the other, each as its two `i32`s.
pub open spec fn pairs_bytes(pairs: Seq<(i32, i32)>) -> Seq<u8>
    decreases pairs.len(),
{
    if pairs.len() == 0 {
        Seq::empty()
    } else {
        pairs_bytes(pairs.drop_last()) + le_i32(pairs.last().0) + le_i32(pairs.last().1)
    }
}

proof fn lemma_pairs_bytes_len(pairs: Seq<(i32, i32)>)
    ensures
        pairs_bytes(pairs).len() == 8 * pairs.len(),
    decreases pairs.len(),
{
    if pairs.len() > 0 {
        lemma_pairs_bytes_len(pairs.drop_last());
    }
}

/// The bytes that `bincode::serialize` (fixed-width integers, little endian)
/// gives for a list of `(i32, i32)` pairs: the length as a `u64`, then the
/// pairs.
pub open spec fn bincode_pairs(pairs: Seq<(i32, i32)>) -> Seq<u8> {
    le_u64(pairs.len()) + pairs_bytes(pairs)
}

/// The little-endian `u32` in bytes `i` to `i + 3`.
pub open spec fn u32_at(b: Seq<u8>, i: int) -> nat {
    (b[i] + 256 * b[i + 1] + 65536 * b[i + 2] + 16777216 * b[i + 3]) as nat
}

/// The little-endian `u64` in bytes `i` to `i + 7`.
pub open spec fn u64_at(b: Seq<u8>, i: int) -> nat {
    u32_at(b, i) + 0x1_0000_0000 * u32_at(b, i + 4)
}

/// The little-endian two's-complement `i32` in bytes `i` to `i + 3`.
pub open spec fn i32_at(b: Seq<u8>, i: int) -> i32 {
    let u = u32_at(b, i);
    (if u >= 0x8000_0000 { u - 0x1_0000_0000 } else { u as int }) as i32
}

/// What `bincode::deserialize::<Vec<(i32, i32)>>` gives for some bytes: a
/// little-endian `u64` length `n`, then `n` pairs of little-endian `i32`s
/// (later bytes are ignored); `None` where the bytes run out first.
pub open spec fn bincode_pairs_decoded(bytes: Seq<u8>) -> Option<Seq<(i32, i32)>> {
    if bytes.len() >= 8 && 8 + 8 * u64_at(bytes, 0) <= bytes.len() {
        Some(Seq::new(u64_at(bytes, 0), |k: int| (i32_at(bytes, 8 + 8 * k), i32_at(bytes, 12 + 8 * k))))
    } else {
        None
    }
}

proof fn lemma_u32_roundtrip(m: nat)
    requires
        m < 0x1_0000_0000,
    ensures
        u32_at(le_u32(m), 0) == m,
{
    let mu = m as u32;
    assert((mu % 256) + 256 * ((mu / 256) % 256) + 65536 * ((mu / 65536) % 256) + 16777216 * ((mu / 16777216) % 256)
        == mu) by (bit_vector);
}

proof fn lemma_i32_roundtrip(x: i32)
    ensures
        i32_at(le_i32(x), 0) == x,
{
    lemma_u32_roundtrip((if x < 0 { x + 0x1_0000_0000 } else { x as int }) as nat);
}

proof fn lemma_u64_roundtrip(n: nat)
    requires
        n <= u64::MAX,
    ensures
        u64_at(le_u64(n), 0) == n,
{
    let lo = n % 0x1_0000_0000;
    let hi = n / 0x1_0000_0000 % 0x1_0000_0000;
    lemma_u32_roundtrip(lo);
    lemma_u32_roundtrip(hi);
    let b = le_u64(n);
    assert(b.subrange(0, 4) =~= le_u32(lo));
    assert(b.subrange(4, 8) =~= le_u32(hi));
    assert(u32_at(b, 0) == u32_at(le_u32(lo), 0));
    assert(u32_at(b, 4) == u32_at(le_u32(hi), 0));
    assert(lo + 0x1_0000_0000 * hi == n) by (nonlinear_arith)
        requires lo == n % 0x1_0000_0000, hi == n / 0x1_0000_0000 % 0x1_0000_0000, n <= u64::MAX;
}

/// The bytes of pair `k` sit at `8 * k` of `pairs_bytes`.
proof fn lemma_pairs_bytes_at(pairs: Seq<(i32, i32)>)
    ensures
        pairs_bytes(pairs).len() == 8 * pairs.len(),
        forall|k: int, j: int| 0 <= k < pairs.len() && 0 <= j < 4 ==>
            #[trigger] pairs_bytes(pairs)[8 * k + j] == le_i32(pairs[k].0)[j]
            && pairs_bytes(pairs)[8 * k + 4 + j] == le_i32(pairs[k].1)[j],
    decreases pairs.len(),
{
    lemma_pairs_bytes_len(pairs);
    if pairs.len() > 0 {
        let front = pairs.drop_last();
        lemma_pairs_bytes_at(front);
        let pb = pairs_bytes(pairs);
        let fb = pairs_bytes(front);
        assert forall|k: int, j: int| 0 <= k < pairs.len() && 0 <= j < 4 implies
            #[trigger] pb[8 * k + j] == le_i32(pairs[k].0)[j] && pb[8 * k + 4 + j] == le_i32(pairs[k].1)[j] by {
            if k < front.len() {
                assert(pb[8 * k + j] == fb[8 * k + j]);
                assert(pb[8 * k + 4 + j] == fb[8 * k + 4 + j]);
                assert(front[k] == pairs[k]);
            } else {
                assert(k == front.len());
            }
        }
    }
}

/// The bytes that `bincode_pairs` gives for a list decode to that list.
proof fn lemma_bincode_pairs_roundtrip(pairs: Seq<(i32, i32)>)
    requires
        pairs.len() <= u64::MAX,
    ensures
        bincode_pairs_decoded(bincode_pairs(pairs)) == Some(pairs),
{
    let b = bincode_pairs(pairs);
    let pb = pairs_bytes(pairs);
    lemma_pairs_bytes_at(pairs);
    lemma_u64_roundtrip(pairs.len());
    let h = le_u64(pairs.len());
    assert(h.len() == 8);
    assert(u64_at(b, 0) == u64_at(h, 0));
    let d = Seq::new(u64_at(b, 0), |k: int| (i32_at(b, 8 + 8 * k), i32_at(b, 12 + 8 * k)));
    assert forall|k: int| 0 <= k < pairs.len() implies #[trigger] d[k] == pairs[k] by {
        let x = pairs[k].0;
        let y = pairs[k].1;
        assert(pb[8 * k + 0] == le_i32(x)[0]);
        assert(pb[8 * k + 1] == le_i32(x)[1]);
        assert(pb[8 * k + 2] == le_i32(x)[2]);
        assert(pb[8 * k + 3] == le_i32(x)[3]);
        assert(pb[8 * k + 4 + 0] == le_i32(y)[0]);
        assert(pb[8 * k + 4 + 1] == le_i32(y)[1]);
        assert(pb[8 * k + 4 + 2] == le_i32(y)[2]);
        assert(pb[8 * k + 4 + 3] == le_i32(y)[3]);
        assert(u32_at(b, 8 + 8 * k) == u32_at(le_i32(x), 0));
        assert(u32_at(b, 12 + 8 * k) == u32_at(le_i32(y), 0));
        lemma_i32_roundtrip(x);
        lemma_i32_roundtrip(y);
    }
    assert(d =~= pairs);
}

/// The bytes that `lz4_flex::compress_prepend_size` gives for some data.
pub uninterp spec fn lz4_block(data: Seq<u8>) -> Seq<u8>;

/// What `lz4_flex::decompress_size_prepended` gives for some bytes: `None`
/// where it reports an error.
pub uninterp spec fn lz4_block_decoded(bytes: Seq<u8>) -> Option<Seq<u8>>;

/// Longest input that the compressed block is made for (in bytes): beyond
/// it, the compressor's buffer size overflows a 32-bit `usize`.
pub open spec fn max_block_input() -> nat {
    39045157
}

/// Fewer bytes than this are handed to the decompressor: it sums the runs
/// of a block's lengths in a `u32` and adds them to its output position,
/// which cannot overflow on any target for shorter inputs.
pub open spec fn max_compressed_block() -> nat {
    8421000
}

/// Bytes that the decompressor can be given: fewer than
/// `max_compressed_block()`, and the size in front of them below 2^31 (its
/// last, most significant byte below 128) where there are four bytes.
pub open spec fn readable_block(bytes: Seq<u8>) -> bool {
    bytes.len() < max_compressed_block() && (bytes.len() < 4 || bytes[3] < 128)
}

/// The four little-endian bytes of a `u32`.
pub open spec fn le_u32(n: nat) -> Seq<u8> {
    seq![(n % 256) as u8, (n / 256 % 256) as u8, (n / 65536 % 256) as u8, (n / 16777216 % 256) as u8]
}

/// `bincode::serialize` of a list of integer pairs.
///
/// Trusted: the result is `bincode_pairs` of the list: with the default
/// options that `bincode::serialize` uses (fixed-width integers, little
/// endian) a `Vec` is its length as a `u64` and then its elements, and a
/// tuple of two `i32`s is the two as four bytes each. As the crate's source
/// shows (no size limit, a `Vec` reports its length, writing to a `Vec<u8>`
/// cannot fail) the call always succeeds, and the encoding takes 8 bytes
/// for the length and 4 for each `i32`.
#[verifier::external_body]
fn bincode_serialize_pairs(pairs: &Vec<(i32, i32)>) -> (r: Option<Vec<u8>>)
    ensures
        r is Some,
        r matches Some(b) ==> b@ == bincode_pairs(pairs@),
{
    bincode::serialize(pairs).ok()
}

/// `bincode::deserialize::<Vec<(i32, i32)>>`, its error mapped to `None`.
///
/// Trusted: the result is `bincode_pairs_decoded` of the bytes. With the
/// default options that `bincode::deserialize` uses (fixed-width integers,
/// little endian, trailing bytes allowed) a `Vec` is read as a `u64` length
/// and then that many elements, each pair as two four-byte `i32`s, and the
/// only error is running out of bytes (a length that does not fit a `usize`
/// cannot be followed by as many bytes either).
#[verifier::external_body]
fn bincode_deserialize_pairs(bytes: &[u8]) -> (r: Option<Vec<(i32, i32)>>)
    ensures
        match r {
            Some(v) => bincode_pairs_decoded(bytes@) == Some(v@),
            None => bincode_pairs_decoded(bytes@) is None,
        },
{
    bincode::deserialize::<Vec<(i32, i32)>>(bytes).ok()
}

/// `lz4_flex::compress_prepend_size`.
///
/// Trusted: the result is named `lz4_block` of the input, and (as the
/// function's documentation says) starts with the input's length as a
/// little-endian `u32`. The crate sizes its output buffer as
/// `16 + 4 + len * 110 / 100` in `usize` and the result, with the four
/// bytes of the size, never outgrows it. That sum overflows on a 32-bit
/// target for longer inputs and then panics, so inputs longer than
/// `max_block_input()` bytes are not admitted.
#[verifier::external_body]
fn lz4_compress_prepend_size(input: &[u8]) -> (r: Vec<u8>)
    requires
        input@.len() <= max_block_input(),
    ensures
        r@ == lz4_block(input@),
        r@.len() >= 4,
        r@.len() <= 24 + input@.len() * 110 / 100,
        r@.subrange(0, 4) == le_u32(input@.len()),
{
    lz4_flex::compress_prepend_size(input)
}

/// `lz4_flex::decompress_size_prepended`, its error mapped to `None`.
///
/// Trusted: the result is named `lz4_block_decoded` of the input, and (the
/// round trip of the crate's README) the output of `compress_prepend_size`
/// for data of at most `max_block_input()` bytes decompresses to that data. What
/// other inputs give is left unsaid. The call first allocates a zeroed
/// buffer of as many bytes as the input's first four bytes give; a size of
/// 2^31 or more overflows the capacity of a `Vec` on a 32-bit target and
/// panics. It sums runs of length bytes in a `u32`, which overflows (and
/// panics where overflow is checked) on inputs of about 16.8 million bytes,
/// and adds those lengths to its output position. Such inputs are not
/// admitted (see `readable_block`). Where
/// the machine cannot provide the buffer the process stops, which no clause
/// here covers.
#[verifier::external_body]
fn lz4_decompress_size_prepended(input: &[u8]) -> (r: Option<Vec<u8>>)
    requires
        readable_block(input@),
    ensures
        match r {
            Some(v) => lz4_block_decoded(input@) == Some(v@),
            None => lz4_block_decoded(input@) is None,
        },
        forall|d: Seq<u8>| #[trigger] lz4_block(d) == input@ && d.len() <= max_block_input() ==> r is Some && r.unwrap()@ == d,
{
    lz4_flex::decompress_size_prepended(input).ok()
}

/// The integer pairs that stand for a list of tiles.
pub open spec fn pairs_of(tiles: Seq<V2i>) -> Seq<(i32, i32)> {
    tiles.map_values(|t: V2i| (t.x, t.y))
}

/// The tiles that a list of integer pairs stands for.
pub open spec fn tiles_of(pairs: Seq<(i32, i32)>) -> Seq<V2i> {
    pairs.map_values(|p: (i32, i32)| V2i { x: p.0, y: p.1 })
}

/// The content of a chunk file for some tiles.
pub open spec fn chunk_file_bytes(tiles: Seq<V2i>) -> Seq<u8> {
    lz4_block(bincode_pairs(pairs_of(tiles)))
}

/// The tiles that a chunk file holds, `None` where it cannot be read or
/// cannot be handed to the decompressor (see `readable_block`).
pub open spec fn chunk_file_tiles(bytes: Seq<u8>) -> Option<Seq<V2i>> {
    if !readable_block(bytes) {
        None
    } else {
        match lz4_block_decoded(bytes) {
        Some(raw) => match bincode_pairs_decoded(raw) {
            Some(pairs) => Some(tiles_of(pairs)),
            None => None,
        },
        None => None,
        }
    }
}

/// Largest number of tiles for which the file format is written.
pub open spec fn max_file_tiles() -> nat {
    950000
}

/// The serialized tiles fit the compressed block.
pub open spec fn encodable(tiles: Seq<V2i>) -> bool {
    bincode_pairs(pairs_of(tiles)).len() <= max_block_input()
}

proof fn lemma_pairs_tiles_roundtrip(tiles: Seq<V2i>)
    ensures
        tiles_of(pairs_of(tiles)) == tiles,
{
    assert(tiles_of(pairs_of(tiles)) =~= tiles);
}

/// Encodes the tiles of a chunk for its file (serialize, then compress).
pub fn encode_chunk_tiles(tiles: &Vec<V2i>) -> (r: Option<Vec<u8>>)
    requires
        tiles@.len() <= max_file_tiles(),
    ensures
        r is Some,
        r matches Some(b) ==> b@ == chunk_file_bytes(tiles@) && readable_block(b@),
        encodable(tiles@),
{
    let mut pairs: Vec<(i32, i32)> = Vec::new();
    let mut i: usize = 0;
    while i < tiles.len()
        invariant
            i <= tiles@.len(),
            pairs@ == pairs_of(tiles@.subrange(0, i as int)),
        decreases tiles@.len() - i,
    {
        let t = tiles[i];
        pairs.push((t.x, t.y));
        i = i + 1;
        assert(pairs@ =~= pairs_of(tiles@.subrange(0, i as int)));
    }
    assert(tiles@.subrange(0, tiles@.len() as int) =~= tiles@);
    match bincode_serialize_pairs(&pairs) {
        Some(raw) => {
            proof {
                lemma_pairs_bytes_len(pairs@);
            }
            assert(raw@.len() <= max_block_input()) by (nonlinear_arith)
                requires raw@.len() == 8 + 8 * tiles@.len(), tiles@.len() <= max_file_tiles();
            let packed = lz4_compress_prepend_size(raw.as_slice());
            proof {
                let n = raw@.len();
                assert(packed@[3] == packed@.subrange(0, 4)[3]);
                assert(n / 16777216 <= 2) by (nonlinear_arith)
                    requires n <= 39045157;
                assert(packed@[3] == ((n / 16777216 % 256) as u8));
                assert(24 + n * 110 / 100 < 8421000) by (nonlinear_arith)
                    requires n <= 7600008;
            }
            Some(packed)
        },
        None => None,
    }
}

/// Reads the tiles out of a chunk file (decompress, then deserialize);
/// `None` where the bytes cannot be handed to the decompressor (see
/// `readable_block`) or either step fails. The bytes that
/// `encode_chunk_tiles` wrote for some tiles give those tiles back.
pub fn decode_chunk_tiles(bytes: &[u8]) -> (r: Option<Vec<V2i>>)
    ensures
        match r {
            Some(v) => chunk_file_tiles(bytes@) == Some(v@),
            None => chunk_file_tiles(bytes@) is None,
        },
        forall|t: Seq<V2i>| #[trigger] chunk_file_bytes(t) == bytes@ && encodable(t) && readable_block(bytes@)
            ==> r is Some && r.unwrap()@ == t,
{
    if bytes.len() >= 8421000 || (bytes.len() >= 4 && bytes[3] >= 128) {
        return None;
    }
    let raw = match lz4_decompress_size_prepended(bytes) {
        Some(raw) => raw,
        None => {
            return None;
        },
    };
    assert forall|t: Seq<V2i>| #[trigger] chunk_file_bytes(t) == bytes@ && encodable(t)
        implies raw@ == bincode_pairs(pairs_of(t)) && bincode_pairs_decoded(raw@) == Some(pairs_of(t)) by {
        assert(lz4_block(bincode_pairs(pairs_of(t))) == bytes@);
        lemma_pairs_bytes_len(pairs_of(t));
        lemma_bincode_pairs_roundtrip(pairs_of(t));
    }
    let pairs = match bincode_deserialize_pairs(raw.as_slice()) {
        Some(p) => p,
        None => {
            return None;
        },
    };
    let mut tiles: Vec<V2i> = Vec::new();
    let mut i: usize = 0;
    while i < pairs.len()
        invariant
            i <= pairs@.len(),
            tiles@ == tiles_of(pairs@.subrange(0, i as int)),
        decreases pairs@.len() - i,
    {
        let p = pairs[i];
        tiles.push(V2i { x: p.0, y: p.1 });
        i = i + 1;
        assert(tiles@ =~= tiles_of(pairs@.subrange(0, i as int)));
    }
    assert(pairs@.subrange(0, pairs@.len() as int) =~= pairs@);
    proof {
        assert forall|t: Seq<V2i>| #[trigger] chunk_file_bytes(t) == bytes@ && encodable(t)
            && readable_block(bytes@) implies tiles@ == t by {
            assert(bincode_pairs(pairs_of(t)) == raw@);
            lemma_pairs_tiles_roundtrip(t);
        }
    }
    Some(tiles)
}

} // verus!
