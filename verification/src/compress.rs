//! Block codecs for monotonically increasing doc-id sequences.
//!
//! A codec encodes runs of `BLOCK_LEN` doc ids as full blocks and shorter
//! runs as tails, both delta-chained through an `initial` seed value (the
//! last doc id of the preceding block, or 0 at the start of a segment).

use vstd::prelude::*;

use bitpacking::BitPacker;

verus! {

broadcast use vstd::seq::group_seq_axioms;

/// Number of doc ids held by one full compressed block.
pub const BLOCK_LEN: usize = 128;

/// Number of doc ids decoded by one large chunk (64 full blocks).
pub const LARGE_BLOCK_LEN: usize = 8192;

/// `initial <= xs[0]` and `xs` is nondecreasing.
pub open spec fn sorted_from(initial: u32, xs: Seq<u32>) -> bool {
    &&& xs.len() > 0 ==> initial <= xs[0]
    &&& forall|i: int, j: int| 0 <= i < j < xs.len() ==> xs[i] <= xs[j]
}

/// `initial <= xs[0]` and `xs` is strictly increasing.
pub open spec fn strict_from(initial: u32, xs: Seq<u32>) -> bool {
    &&& xs.len() > 0 ==> initial <= xs[0]
    &&& forall|i: int, j: int| 0 <= i < j < xs.len() ==> xs[i] < xs[j]
}

/// Strictly increasing sequences are in particular nondecreasing.
pub proof fn lemma_strict_sorted(initial: u32, xs: Seq<u32>)
    requires
        strict_from(initial, xs),
    ensures
        sorted_from(initial, xs),
{
}

/// The number of bits needed to store `d`: the position of its highest set
/// bit.
pub open spec fn bit_width(d: int) -> int
    decreases d,
{
    if d <= 0 {
        0
    } else {
        1 + bit_width(d / 2)
    }
}

/// The delta of element `i` of a block against its predecessor (the seed
/// `initial` for the first element).
pub open spec fn block_delta(initial: u32, xs: Seq<u32>, i: int) -> int {
    if i == 0 {
        xs[0] - initial
    } else {
        xs[i] - xs[i - 1]
    }
}

/// The largest delta among the first `k` elements of a block.
pub open spec fn max_delta_upto(initial: u32, xs: Seq<u32>, k: int) -> int
    decreases k,
{
    if k <= 0 {
        0
    } else {
        let d = block_delta(initial, xs, k - 1);
        let r = max_delta_upto(initial, xs, k - 1);
        if d > r {
            d
        } else {
            r
        }
    }
}

/// The 128 integers that bitpacking's `decompress_sorted` reads from a
/// packed payload of `num_bits * 16` bytes.
pub uninterp spec fn bp_unpack(initial: u32, num_bits: u8, bytes: Seq<u8>) -> Seq<u32>;

/// Relies on `bitpacking::BitPacker4x::num_bits_sorted`: the bit width of
/// the largest delta of the sorted block; a delta fits in 32 bits.
#[verifier::external_body]
fn bp_block_num_bits(initial: u32, input: &[u32]) -> (r: u8)
    requires
        input@.len() == BLOCK_LEN,
        sorted_from(initial, input@),
    ensures
        r as int == bit_width(max_delta_upto(initial, input@, input@.len() as int)),
        r <= 32,
{
    bitpacking::BitPacker4x::new().num_bits_sorted(initial, input)
}

/// Relies on `bitpacking::BitPacker4x::compress_sorted`: writes exactly
/// `num_bits * 16` bytes which `decompress_sorted` turns back into the
/// same block when given the same `initial` and `num_bits`.
#[verifier::external_body]
fn bp_block_compress(initial: u32, input: &[u32], num_bits: u8) -> (r: Vec<u8>)
    requires
        input@.len() == BLOCK_LEN,
        sorted_from(initial, input@),
        num_bits as int == bit_width(max_delta_upto(initial, input@, input@.len() as int)),
    ensures
        r@.len() == num_bits as int * 16,
        bp_unpack(initial, num_bits, r@) == input@,
{
    let mut buf = vec![0u8; 512];
    let len = bitpacking::BitPacker4x::new().compress_sorted(initial, input, &mut buf, num_bits);
    buf.truncate(len);
    buf
}

/// Relies on `bitpacking::BitPacker4x::decompress_sorted`: reads exactly
/// `num_bits * 16` bytes and writes the 128 decoded integers; the result is a
/// function of `initial`, `num_bits` and those bytes alone.
#[verifier::external_body]
fn bp_block_decompress(initial: u32, num_bits: u8, input: &[u8]) -> (r: Vec<u32>)
    requires
        num_bits <= 32,
        input@.len() == num_bits as int * 16,
    ensures
        r@ == bp_unpack(initial, num_bits, input@),
        r@.len() == BLOCK_LEN,
{
    let mut buf = vec![0u32; 128];
    bitpacking::BitPacker4x::new().decompress_sorted(initial, input, &mut buf, num_bits);
    buf
}

/// A pair of block compressors: full blocks of `BLOCK_LEN` doc ids and
/// shorter tails, both delta-encoded against an `initial` seed.
///
/// `spec_decode_full` and `spec_decode_tail` are each codec's mathematical
/// decode function; every executable method is specified against them, so
/// that `decode(encode(xs)) == xs` is part of the encoding methods' contracts.
pub trait Compressor: Sized {
    /// What decoding one full block from the front of `bytes` yields:
    /// the 128 doc ids and the number of bytes consumed.
    spec fn spec_decode_full(initial: u32, bytes: Seq<u8>) -> Option<(Seq<u32>, int)>;

    /// What decoding a tail of `count` doc ids from the front of `bytes`
    /// yields: the doc ids and the number of bytes consumed.
    spec fn spec_decode_tail(initial: u32, count: int, bytes: Seq<u8>) -> Option<(Seq<u32>, int)>;

    /// Identifies the codec inside serialized indexes.
    spec fn spec_tag() -> u8;

    /// A successful full-block decode yields exactly `BLOCK_LEN` doc ids and
    /// consumes between 1 and `bytes.len()` bytes.
    proof fn lemma_decode_full_some(initial: u32, bytes: Seq<u8>)
        ensures
            Self::spec_decode_full(initial, bytes) matches Some(p) ==> p.0.len() == BLOCK_LEN
                && 0 < p.1 <= bytes.len(),
    ;

    /// Decoding a full block reads only the consumed prefix of `bytes`.
    proof fn lemma_decode_full_prefix(initial: u32, bytes: Seq<u8>, ext: Seq<u8>)
        ensures
            Self::spec_decode_full(initial, bytes) matches Some(p) ==> Self::spec_decode_full(
                initial,
                bytes + ext,
            ) == Some(p),
    ;

    /// A successful tail decode yields exactly `count` doc ids and consumes
    /// between 1 and `bytes.len()` bytes.
    proof fn lemma_decode_tail_some(initial: u32, count: int, bytes: Seq<u8>)
        requires
            count > 0,
        ensures
            Self::spec_decode_tail(initial, count, bytes) matches Some(p) ==> p.0.len() == count
                && 0 < p.1 <= bytes.len(),
    ;

    /// Appends one encoded full block to `out`; the appended bytes decode
    /// back to `input`, whatever bytes follow them.
    fn compress_sorted_full(initial: u32, input: &[u32], out: &mut Vec<u8>)
        requires
            input@.len() == BLOCK_LEN,
            sorted_from(initial, input@),
            old(out)@.len() + 516 <= usize::MAX,
        ensures
            final(out)@.len() > old(out)@.len(),
            final(out)@.len() <= old(out)@.len() + 513,
            final(out)@.take(old(out)@.len() as int) == old(out)@,
            forall|ext: Seq<u8>|
                #[trigger] Self::spec_decode_full(
                    initial,
                    final(out)@.skip(old(out)@.len() as int) + ext,
                ) == Some(
                    (input@, final(out)@.len() - old(out)@.len()),
                ),
    ;

    /// Appends one encoded tail to `out`; the appended bytes decode back to
    /// `input` and are consumed exactly.
    fn compress_sorted(initial: u32, input: &[u32], out: &mut Vec<u8>)
        requires
            0 < input@.len() < BLOCK_LEN,
            sorted_from(initial, input@),
            old(out)@.len() + 5 * input@.len() + 8 <= usize::MAX,
        ensures
            final(out)@.len() > old(out)@.len(),
            final(out)@.len() <= old(out)@.len() + 5 * input@.len() + 8,
            final(out)@.take(old(out)@.len() as int) == old(out)@,
            Self::spec_decode_tail(
                initial,
                input@.len() as int,
                final(out)@.skip(old(out)@.len() as int),
            ) == Some((input@, final(out)@.len() - old(out)@.len())),
    ;

    /// Decodes one full block from the front of `input`; returns the doc ids
    /// and the bytes consumed, or `None` when `input` is malformed.
    fn decompress_sorted_full(initial: u32, input: &[u8]) -> (r: Option<(Vec<u32>, usize)>)
        ensures
            match r {
                Some(p) => Self::spec_decode_full(initial, input@) == Some((p.0@, p.1 as int)),
                None => Self::spec_decode_full(initial, input@) is None,
            },
    ;

    /// Decodes a tail of `count` doc ids from the front of `input`; returns
    /// the doc ids and the bytes consumed, or `None` when `input` is
    /// malformed.
    fn decompress_sorted(initial: u32, count: usize, input: &[u8]) -> (r: Option<(Vec<u32>, usize)>)
        requires
            0 < count < BLOCK_LEN,
        ensures
            match r {
                Some(p) => Self::spec_decode_tail(initial, count as int, input@) == Some(
                    (p.0@, p.1 as int),
                ),
                None => Self::spec_decode_tail(initial, count as int, input@) is None,
            },
    ;

    /// The codec's identifying tag.
    fn tag() -> (r: u8)
        ensures
            r == Self::spec_tag(),
    ;
}

/// The testing codec: every doc id is stored as four little-endian bytes.
pub struct Uncompressed;

impl Uncompressed {
    /// The doc ids read from `count` groups of four little-endian bytes.
    pub open spec fn spec_le_decode(count: int, bytes: Seq<u8>) -> Seq<u32> {
        Seq::new(
            count as nat,
            |i: int| vstd::bytes::spec_u32_from_le_bytes(bytes.subrange(4 * i, 4 * i + 4)),
        )
    }

    /// Appends `input` as groups of four little-endian bytes.
    fn le_encode(input: &[u32], out: &mut Vec<u8>)
        requires
            old(out)@.len() + 4 * input@.len() <= usize::MAX,
        ensures
            final(out)@.len() == old(out)@.len() + 4 * input@.len(),
            final(out)@.take(old(out)@.len() as int) == old(out)@,
            forall|ext: Seq<u8>, n: int|
                input@.len() <= n ==> #[trigger] Self::spec_le_decode(
                    n,
                    final(out)@.skip(old(out)@.len() as int) + ext,
                ).take(input@.len() as int) == input@,
    {
        proof {
            vstd::bytes::lemma_auto_spec_u32_to_from_le_bytes();
        }
        let ghost base: int = out@.len() as int;
        let mut i: usize = 0;
        while i < input.len()
            invariant
                i <= input@.len(),
                base == old(out)@.len(),
                base + 4 * input@.len() <= usize::MAX,
                out@.len() == base + 4 * i,
                out@.take(base) == old(out)@,
                forall|j: int|
                    0 <= j < i ==> #[trigger] out@.subrange(base + 4 * j, base + 4 * j + 4)
                        == vstd::bytes::spec_u32_to_le_bytes(input@[j]),
            decreases input@.len() - i,
        {
            let mut enc = vstd::bytes::u32_to_le_bytes(input[i]);
            let ghost prev = out@;
            out.append(&mut enc);
            proof {
                assert(out@.take(base) =~= prev.take(base));
                assert forall|j: int| 0 <= j < i + 1 implies #[trigger] out@.subrange(
                    base + 4 * j,
                    base + 4 * j + 4,
                ) == vstd::bytes::spec_u32_to_le_bytes(input@[j]) by {
                    if j < i {
                        assert(out@.subrange(base + 4 * j, base + 4 * j + 4) =~= prev.subrange(
                            base + 4 * j,
                            base + 4 * j + 4,
                        ));
                    } else {
                        assert(out@.subrange(base + 4 * j, base + 4 * j + 4) =~= out@.skip(
                            base + 4 * i,
                        ));
                    }
                }
            }
            i = i + 1;
        }
        proof {
            vstd::bytes::lemma_auto_spec_u32_to_from_le_bytes();
            let written = out@.skip(base);
            assert forall|ext: Seq<u8>, n: int| input@.len() <= n implies #[trigger] Self::spec_le_decode(
                n,
                written + ext,
            ).take(input@.len() as int) =~= input@ by {
                assert forall|j: int| 0 <= j < input@.len() implies Self::spec_le_decode(
                    n,
                    written + ext,
                )[j] == input@[j] by {
                    assert((written + ext).subrange(4 * j, 4 * j + 4) =~= out@.subrange(
                        base + 4 * j,
                        base + 4 * j + 4,
                    ));
                }
            }
        }
    }

    /// Decodes `count` doc ids from groups of four little-endian bytes.
    fn le_decode(count: usize, input: &[u8]) -> (r: Option<(Vec<u32>, usize)>)
        requires
            4 * count <= usize::MAX,
        ensures
            match r {
                Some(p) => 4 * count <= input@.len() && p.0@ == Self::spec_le_decode(
                    count as int,
                    input@,
                ) && p.1 == 4 * count,
                None => input@.len() < 4 * count,
            },
    {
        if input.len() < 4 * count {
            return None;
        }
        let mut vals: Vec<u32> = Vec::new();
        let mut i: usize = 0;
        while i < count
            invariant
                i <= count,
                4 * count <= input@.len(),
                input@.len() <= usize::MAX,
                vals@.len() == i,
                forall|j: int|
                    0 <= j < i ==> vals@[j] == vstd::bytes::spec_u32_from_le_bytes(
                        #[trigger] input@.subrange(4 * j, 4 * j + 4),
                    ),
            decreases count - i,
        {
            let v = vstd::bytes::u32_from_le_bytes(
                vstd::slice::slice_subrange(input, 4 * i, 4 * i + 4),
            );
            vals.push(v);
            i = i + 1;
        }
        proof {
            assert(vals@ =~= Self::spec_le_decode(count as int, input@));
        }
        Some((vals, 4 * count))
    }
}

impl Compressor for Uncompressed {
    open spec fn spec_decode_full(initial: u32, bytes: Seq<u8>) -> Option<(Seq<u32>, int)> {
        if bytes.len() >= 4 * BLOCK_LEN {
            Some((Self::spec_le_decode(BLOCK_LEN as int, bytes), 4 * BLOCK_LEN as int))
        } else {
            None
        }
    }

    open spec fn spec_decode_tail(initial: u32, count: int, bytes: Seq<u8>) -> Option<
        (Seq<u32>, int),
    > {
        if bytes.len() >= 4 * count {
            Some((Self::spec_le_decode(count, bytes), 4 * count))
        } else {
            None
        }
    }

    open spec fn spec_tag() -> u8 {
        2
    }

    proof fn lemma_decode_full_some(initial: u32, bytes: Seq<u8>) {
    }

    proof fn lemma_decode_full_prefix(initial: u32, bytes: Seq<u8>, ext: Seq<u8>) {
        if Self::spec_decode_full(initial, bytes) is Some {
            assert forall|i: int| 0 <= i < BLOCK_LEN implies Self::spec_le_decode(
                BLOCK_LEN as int,
                bytes + ext,
            )[i] == Self::spec_le_decode(BLOCK_LEN as int, bytes)[i] by {
                assert((bytes + ext).subrange(4 * i, 4 * i + 4) =~= bytes.subrange(
                    4 * i,
                    4 * i + 4,
                ));
            }
            assert(Self::spec_le_decode(BLOCK_LEN as int, bytes + ext) =~= Self::spec_le_decode(
                BLOCK_LEN as int,
                bytes,
            ));
        }
    }

    proof fn lemma_decode_tail_some(initial: u32, count: int, bytes: Seq<u8>) {
    }

    fn compress_sorted_full(initial: u32, input: &[u32], out: &mut Vec<u8>) {
        let ghost base: int = out@.len() as int;
        Self::le_encode(input, out);
        proof {
            let written = out@.skip(base);
            assert forall|ext: Seq<u8>|
                #[trigger] Self::spec_decode_full(initial, written + ext) == Some(
                    (input@, out@.len() - base),
                ) by {
                assert(Self::spec_le_decode(BLOCK_LEN as int, written + ext).take(
                    input@.len() as int,
                ) == input@);
                assert(Self::spec_le_decode(BLOCK_LEN as int, written + ext) =~= Self::spec_le_decode(
                    BLOCK_LEN as int,
                    written + ext,
                ).take(input@.len() as int));
            }
        }
    }

    fn compress_sorted(initial: u32, input: &[u32], out: &mut Vec<u8>) {
        let ghost base: int = out@.len() as int;
        Self::le_encode(input, out);
        proof {
            let written = out@.skip(base);
            let n = input@.len() as int;
            assert(Self::spec_le_decode(n, written + Seq::<u8>::empty()).take(n) == input@);
            assert(written + Seq::<u8>::empty() =~= written);
            assert(Self::spec_le_decode(n, written) =~= Self::spec_le_decode(n, written).take(n));
        }
    }

    fn decompress_sorted_full(initial: u32, input: &[u8]) -> (r: Option<(Vec<u32>, usize)>) {
        Self::le_decode(BLOCK_LEN, input)
    }

    fn decompress_sorted(initial: u32, count: usize, input: &[u8]) -> (r: Option<
        (Vec<u32>, usize),
    >) {
        Self::le_decode(count, input)
    }

    fn tag() -> (r: u8) {
        2
    }
}

/// The production codec: full blocks through bitpacking's `BitPacker4x`
/// (one `num_bits` byte, then the packed payload), tails as
/// stream-vbyte-delta.
pub struct SimdBPandStreamVbyte;

impl Compressor for SimdBPandStreamVbyte {
    open spec fn spec_decode_full(initial: u32, bytes: Seq<u8>) -> Option<(Seq<u32>, int)> {
        if bytes.len() >= 1 && bytes[0] <= 32 && bytes.len() >= 1 + bytes[0] as int * 16 {
            Some(
                (
                    Seq::new(
                        BLOCK_LEN as nat,
                        |i: int|
                            bp_unpack(
                                initial,
                                bytes[0],
                                bytes.subrange(1, 1 + bytes[0] as int * 16),
                            )[i],
                    ),
                    1 + bytes[0] as int * 16,
                ),
            )
        } else {
            None
        }
    }

    open spec fn spec_decode_tail(initial: u32, count: int, bytes: Seq<u8>) -> Option<
        (Seq<u32>, int),
    > {
        crate::svbyte::spec_decode(initial, count, bytes)
    }

    open spec fn spec_tag() -> u8 {
        1
    }

    proof fn lemma_decode_full_some(initial: u32, bytes: Seq<u8>) {
    }

    proof fn lemma_decode_full_prefix(initial: u32, bytes: Seq<u8>, ext: Seq<u8>) {
        if Self::spec_decode_full(initial, bytes) is Some {
            let nb = bytes[0];
            assert((bytes + ext)[0] == bytes[0]);
            assert((bytes + ext).subrange(1, 1 + nb as int * 16) =~= bytes.subrange(
                1,
                1 + nb as int * 16,
            ));
            assert(Self::spec_decode_full(initial, bytes + ext)->Some_0.0
                =~= Self::spec_decode_full(initial, bytes)->Some_0.0);
        }
    }

    proof fn lemma_decode_tail_some(initial: u32, count: int, bytes: Seq<u8>) {
        crate::svbyte::lemma_decode_some(initial, count, bytes);
    }

    fn compress_sorted_full(initial: u32, input: &[u32], out: &mut Vec<u8>) {
        let nb = bp_block_num_bits(initial, input);
        let mut payload = bp_block_compress(initial, input, nb);
        let ghost base: int = out@.len() as int;
        let ghost payload_s = payload@;
        out.push(nb);
        out.append(&mut payload);
        proof {
            let written = out@.skip(base);
            assert(written =~= seq![nb] + payload_s);
            assert(out@.take(base) =~= old(out)@);
            assert forall|ext: Seq<u8>|
                #[trigger] Self::spec_decode_full(initial, written + ext) == Some(
                    (input@, out@.len() - base),
                ) by {
                assert((written + ext)[0] == nb);
                assert((written + ext).subrange(1, 1 + nb as int * 16) =~= payload_s);
                assert(Self::spec_decode_full(initial, written + ext)->Some_0.0 =~= input@);
            }
        }
    }

    fn compress_sorted(initial: u32, input: &[u32], out: &mut Vec<u8>) {
        crate::svbyte::encode_tail(initial, input, out);
    }

    fn decompress_sorted_full(initial: u32, input: &[u8]) -> (r: Option<(Vec<u32>, usize)>) {
        if input.len() < 1 {
            return None;
        }
        let nb = input[0];
        if nb > 32 {
            return None;
        }
        let need: usize = 1 + (nb as usize) * 16;
        if input.len() < need {
            return None;
        }
        let payload = vstd::slice::slice_subrange(input, 1, need);
        let vals = bp_block_decompress(initial, nb, payload);
        proof {
            assert(vals@ =~= Self::spec_decode_full(initial, input@)->Some_0.0);
        }
        Some((vals, need))
    }

    fn decompress_sorted(initial: u32, count: usize, input: &[u8]) -> (r: Option<
        (Vec<u32>, usize),
    >) {
        crate::svbyte::decode_tail(initial, count, input)
    }

    fn tag() -> (r: u8) {
        1
    }
}

} // verus!
