//! Impact segments: the postings of one term that share a single quantized
//! impact value, encoded as a run of full blocks followed by a tail.

use vstd::prelude::*;

use crate::compress::BLOCK_LEN;
use crate::compress::LARGE_BLOCK_LEN;
use crate::compress::Compressor;
use crate::compress::lemma_strict_sorted;
use crate::compress::sorted_from;
use crate::compress::strict_from;
use crate::range::Byte;

verus! {

broadcast use vstd::seq::group_seq_axioms;

/// Metadata of one impact segment: its impact value, how many doc ids it
/// holds, and how many encoded bytes it occupies.
#[derive(Clone, Copy, Debug, PartialEq, Eq, Structural)]
pub struct MetaData {
    pub impact: u16,
    pub count: u32,
    pub bytes: u32,
}

/// The doc ids of a segment of `count` doc ids stored in `bytes`, when
/// `bytes` is a well-formed encoding that is consumed exactly: full blocks
/// while at least `BLOCK_LEN` doc ids remain, then one tail.
pub open spec fn spec_decode_segment<C: Compressor>(
    initial: u32,
    count: int,
    bytes: Seq<u8>,
) -> Option<Seq<u32>>
    decreases count,
{
    if count <= 0 {
        if count == 0 && bytes.len() == 0 {
            Some(Seq::empty())
        } else {
            None
        }
    } else if count >= BLOCK_LEN {
        match C::spec_decode_full(initial, bytes) {
            Some(p) => {
                if 0 <= p.1 <= bytes.len() && p.0.len() == BLOCK_LEN {
                    match spec_decode_segment::<C>(
                        p.0[BLOCK_LEN - 1],
                        count - BLOCK_LEN,
                        bytes.skip(p.1),
                    ) {
                        Some(rest) => Some(p.0 + rest),
                        None => None,
                    }
                } else {
                    None
                }
            },
            None => None,
        }
    } else {
        match C::spec_decode_tail(initial, count, bytes) {
            Some(p) => if p.1 == bytes.len() {
                Some(p.0)
            } else {
                None
            },
            None => None,
        }
    }
}

/// A successful segment decode yields exactly `count` doc ids.
pub proof fn lemma_segment_decode_len<C: Compressor>(initial: u32, count: int, bytes: Seq<u8>)
    ensures
        spec_decode_segment::<C>(initial, count, bytes) matches Some(docs) ==> docs.len() == count,
    decreases count,
{
    if count >= BLOCK_LEN {
        match C::spec_decode_full(initial, bytes) {
            Some(p) => {
                if 0 <= p.1 <= bytes.len() && p.0.len() == BLOCK_LEN {
                    lemma_segment_decode_len::<C>(
                        p.0[BLOCK_LEN - 1],
                        count - BLOCK_LEN,
                        bytes.skip(p.1),
                    );
                }
            },
            None => {},
        }
    } else if count > 0 {
        C::lemma_decode_tail_some(initial, count, bytes);
    }
}

/// A lazy decoder over one encoded impact segment: `bytes` is the cursor
/// into the index's byte blob, `initial` the delta seed for the next block,
/// and `remaining_u32s` the doc ids not yet produced.
#[derive(Clone, Copy, Debug, PartialEq, Eq, Structural)]
pub struct Impact {
    pub meta_data: MetaData,
    pub remaining_u32s: usize,
    pub bytes: Byte,
    pub initial: u32,
}

impl Impact {
    /// The doc ids this cursor has yet to produce, read from the blob.
    pub open spec fn rest<C: Compressor>(self, blob: Seq<u8>) -> Option<Seq<u32>> {
        spec_decode_segment::<C>(
            self.initial,
            self.remaining_u32s as int,
            blob.subrange(self.bytes.spec_start(), self.bytes.spec_stop()),
        )
    }

    /// Well-formed relative to the blob: the cursor's byte range lies in the
    /// blob and decodes to exactly the remaining doc ids.
    pub open spec fn wf<C: Compressor>(self, blob: Seq<u8>) -> bool {
        &&& 0 <= self.bytes.spec_start() <= self.bytes.spec_stop() <= blob.len()
        &&& self.rest::<C>(blob) is Some
    }

    pub fn count(&self) -> (r: u32)
        ensures
            r == self.meta_data.count,
    {
        self.meta_data.count
    }

    pub fn impact(&self) -> (r: u16)
        ensures
            r == self.meta_data.impact,
    {
        self.meta_data.impact
    }

    /// A fresh cursor over a whole encoded segment.
    pub fn from_encoded_slice(meta_data: MetaData, bytes: Byte) -> (r: Impact)
        ensures
            r == (Impact {
                meta_data,
                remaining_u32s: meta_data.count as usize,
                bytes,
                initial: 0,
            }),
    {
        Impact { remaining_u32s: meta_data.count as usize, meta_data, initial: 0, bytes }
    }

    /// A fresh cursor whose effective impact is scaled by a query weight.
    pub fn from_encoded_slice_weighted(meta_data: MetaData, bytes: Byte, query_weight: u16) -> (r:
        Impact)
        requires
            meta_data.impact * query_weight <= u16::MAX,
        ensures
            r == (Impact {
                meta_data: MetaData {
                    impact: (meta_data.impact * query_weight) as u16,
                    count: meta_data.count,
                    bytes: meta_data.bytes,
                },
                remaining_u32s: meta_data.count as usize,
                bytes,
                initial: 0,
            }),
    {
        Impact {
            remaining_u32s: meta_data.count as usize,
            meta_data: MetaData {
                impact: meta_data.impact * query_weight,
                count: meta_data.count,
                bytes: meta_data.bytes,
            },
            initial: 0,
            bytes,
        }
    }

    /// Encodes one impact segment: full blocks then a tail, delta-chained
    /// from seed 0. The metadata records the doc count and the encoded byte
    /// length, and the bytes decode back to exactly `docs`.
    pub fn encode<C: Compressor>(impact: u16, docs: &[u32]) -> (r: (MetaData, Vec<u8>))
        requires
            strict_from(0, docs@),
            docs@.len() <= 400_000_000,
        ensures
            r.0.impact == impact,
            r.0.count == docs@.len(),
            r.0.bytes == r.1@.len(),
            r.1@.len() <= 5 * docs@.len() + 8,
            spec_decode_segment::<C>(0, docs@.len() as int, r.1@) == Some(docs@),
    {
        let mut output: Vec<u8> = Vec::new();
        encode_blocks::<C>(0, docs, &mut output);
        proof {
            assert(output@.skip(0) =~= output@);
        }
        let meta = MetaData { impact, count: docs.len() as u32, bytes: output.len() as u32 };
        (meta, output)
    }

    /// Decodes the next 64 full blocks at once; succeeds only while at
    /// least `LARGE_BLOCK_LEN` doc ids remain.
    pub fn next_large_chunk<C: Compressor>(&mut self, index_bytes: &[u8]) -> (r: Option<Vec<u32>>)
        requires
            old(self).wf::<C>(index_bytes@),
        ensures
            final(self).wf::<C>(index_bytes@),
            final(self).meta_data == old(self).meta_data,
            ({
                let rest0 = old(self).rest::<C>(index_bytes@)->Some_0;
                match r {
                    None => rest0.len() < LARGE_BLOCK_LEN && *final(self) == *old(self),
                    Some(chunk) => {
                        &&& rest0.len() >= LARGE_BLOCK_LEN
                        &&& chunk@ == rest0.take(LARGE_BLOCK_LEN as int)
                        &&& final(self).rest::<C>(index_bytes@) == Some(
                            rest0.skip(LARGE_BLOCK_LEN as int),
                        )
                        &&& final(self).remaining_u32s == old(self).remaining_u32s
                            - LARGE_BLOCK_LEN
                    },
                }
            }),
    {
        let ghost rest0 = old(self).rest::<C>(index_bytes@)->Some_0;
        proof {
            lemma_segment_decode_len::<C>(
                self.initial,
                self.remaining_u32s as int,
                index_bytes@.subrange(self.bytes.spec_start(), self.bytes.spec_stop()),
            );
        }
        if self.remaining_u32s < LARGE_BLOCK_LEN {
            return None;
        }
        let mut out: Vec<u32> = Vec::new();
        let mut blocks: usize = 0;
        while blocks < 64
            invariant
                blocks <= 64,
                self.wf::<C>(index_bytes@),
                self.meta_data == old(self).meta_data,
                rest0 == old(self).rest::<C>(index_bytes@)->Some_0,
                rest0.len() >= LARGE_BLOCK_LEN,
                out@ == rest0.take(blocks as int * BLOCK_LEN),
                self.rest::<C>(index_bytes@) == Some(rest0.skip(blocks as int * BLOCK_LEN)),
                self.remaining_u32s == old(self).remaining_u32s - blocks * BLOCK_LEN,
            decreases 64 - blocks,
        {
            proof {
                assert((blocks as int + 1) * BLOCK_LEN == blocks as int * BLOCK_LEN + BLOCK_LEN);
                assert(64 * BLOCK_LEN == LARGE_BLOCK_LEN);
                assert(blocks as int * BLOCK_LEN + BLOCK_LEN <= LARGE_BLOCK_LEN) by (nonlinear_arith)
                    requires
                        blocks < 64,
                        BLOCK_LEN == 128,
                        LARGE_BLOCK_LEN == 8192,
                ;
                assert(rest0.skip(blocks as int * BLOCK_LEN).len() >= BLOCK_LEN);
            }
            let got = self.next_chunk::<C>(index_bytes);
            match got {
                Some(mut chunk) => {
                    proof {
                        assert(chunk@ == rest0.skip(blocks as int * BLOCK_LEN).take(
                            BLOCK_LEN as int,
                        ));
                        assert(out@ + chunk@ =~= rest0.take((blocks as int + 1) * BLOCK_LEN));
                        assert(rest0.skip(blocks as int * BLOCK_LEN).skip(BLOCK_LEN as int)
                            =~= rest0.skip((blocks as int + 1) * BLOCK_LEN));
                    }
                    out.append(&mut chunk);
                },
                None => {
                    proof {
                        assert(false);
                    }
                },
            }
            blocks = blocks + 1;
        }
        proof {
            assert(out@ == rest0.take(LARGE_BLOCK_LEN as int));
        }
        Some(out)
    }

    /// Decodes the next run of doc ids: a full block while at least
    /// `BLOCK_LEN` remain, then the tail, then `None`.
    pub fn next_chunk<C: Compressor>(&mut self, index_bytes: &[u8]) -> (r: Option<Vec<u32>>)
        requires
            old(self).wf::<C>(index_bytes@),
        ensures
            final(self).wf::<C>(index_bytes@),
            final(self).meta_data == old(self).meta_data,
            ({
                let rest0 = old(self).rest::<C>(index_bytes@)->Some_0;
                match r {
                    None => rest0.len() == 0 && *final(self) == *old(self),
                    Some(chunk) => {
                        &&& 0 < chunk@.len() <= BLOCK_LEN
                        &&& chunk@.len() == if rest0.len() >= BLOCK_LEN {
                            BLOCK_LEN as int
                        } else {
                            rest0.len() as int
                        }
                        &&& chunk@ == rest0.take(chunk@.len() as int)
                        &&& final(self).rest::<C>(index_bytes@) == Some(
                            rest0.skip(chunk@.len() as int),
                        )
                        &&& final(self).remaining_u32s == old(self).remaining_u32s - chunk@.len()
                    },
                }
            }),
    {
        let ghost blob = index_bytes@;
        let ghost rest0 = old(self).rest::<C>(index_bytes@)->Some_0;
        if self.remaining_u32s == 0 {
            proof {
                assert(rest0.len() == 0);
            }
            return None;
        }
        let cur = self.bytes.slice_of(index_bytes);
        if self.remaining_u32s < BLOCK_LEN {
            // the remainder is one tail, consumed exactly
            match C::decompress_sorted(self.initial, self.remaining_u32s, cur) {
                Some(p) => {
                    let (vals, used) = p;
                    proof {
                        C::lemma_decode_tail_some(
                            self.initial,
                            self.remaining_u32s as int,
                            cur@,
                        );
                        assert(vals@ == rest0);
                        assert(used == cur@.len());
                        assert(rest0.take(rest0.len() as int) =~= rest0);
                        assert(rest0.skip(rest0.len() as int) =~= Seq::<u32>::empty());
                    }
                    let n = vals.len();
                    self.bytes.advance(used);
                    self.remaining_u32s = 0;
                    self.initial = 0;
                    proof {
                        assert(blob.subrange(
                            final(self).bytes.spec_start(),
                            final(self).bytes.spec_stop(),
                        ).len() == 0);
                    }
                    Some(vals)
                },
                None => {
                    proof {
                        assert(false);
                    }
                    None
                },
            }
        } else {
            // one full block
            match C::decompress_sorted_full(self.initial, cur) {
                Some(p) => {
                    let (vals, used) = p;
                    proof {
                        assert(vals@ == rest0.take(BLOCK_LEN as int));
                        assert(rest0.skip(BLOCK_LEN as int) == spec_decode_segment::<C>(
                            vals@[BLOCK_LEN - 1],
                            old(self).remaining_u32s - BLOCK_LEN,
                            cur@.skip(used as int),
                        )->Some_0);
                    }
                    let last = vals[BLOCK_LEN - 1];
                    self.bytes.advance(used);
                    self.remaining_u32s = self.remaining_u32s - BLOCK_LEN;
                    self.initial = last;
                    proof {
                        assert(blob.subrange(
                            final(self).bytes.spec_start(),
                            final(self).bytes.spec_stop(),
                        ) =~= cur@.skip(used as int));
                    }
                    Some(vals)
                },
                None => {
                    proof {
                        assert(false);
                    }
                    None
                },
            }
        }
    }
}

/// Appends the encoding of `docs` (full blocks, then one tail) to `out`,
/// delta-chained from `initial`.
fn encode_blocks<C: Compressor>(initial: u32, docs: &[u32], out: &mut Vec<u8>)
    requires
        strict_from(initial, docs@),
        old(out)@.len() + 5 * docs@.len() + 8 <= usize::MAX,
    ensures
        final(out)@.len() >= old(out)@.len(),
        final(out)@.len() <= old(out)@.len() + 5 * docs@.len() + 8,
        final(out)@.take(old(out)@.len() as int) == old(out)@,
        spec_decode_segment::<C>(
            initial,
            docs@.len() as int,
            final(out)@.skip(old(out)@.len() as int),
        ) == Some(docs@),
    decreases docs@.len(),
{
    let ghost base: int = out@.len() as int;
    proof {
        lemma_strict_sorted(initial, docs@);
    }
    if docs.len() == 0 {
        proof {
            assert(out@.skip(base).len() == 0);
        }
    } else if docs.len() < BLOCK_LEN {
        C::compress_sorted(initial, docs, out);
        proof {
            let written = out@.skip(base);
            assert(C::spec_decode_tail(initial, docs@.len() as int, written) == Some(
                (docs@, written.len() as int),
            ));
        }
    } else {
        let (head, rest) = docs.split_at(BLOCK_LEN);
        proof {
            assert(head@ =~= docs@.take(BLOCK_LEN as int));
            assert(rest@ =~= docs@.skip(BLOCK_LEN as int));
            assert(sorted_from(initial, head@));
            assert(strict_from(head@[BLOCK_LEN - 1], rest@)) by {
                assert forall|i: int, j: int| 0 <= i < j < rest@.len() implies rest@[i]
                    < rest@[j] by {
                    assert(docs@[BLOCK_LEN + i] < docs@[BLOCK_LEN + j]);
                }
                if rest@.len() > 0 {
                    assert(docs@[BLOCK_LEN - 1] < docs@[BLOCK_LEN as int]);
                }
            }
        }
        C::compress_sorted_full(initial, head, out);
        let ghost mid: int = out@.len() as int;
        let ghost w1 = out@.skip(base);
        let last = head[BLOCK_LEN - 1];
        encode_blocks::<C>(last, rest, out);
        proof {
            let written = out@.skip(base);
            let w2 = out@.skip(mid);
            assert(out@.take(mid).skip(base) =~= w1);
            assert(written =~= w1 + w2);
            assert(C::spec_decode_full(initial, w1 + w2) == Some((head@, w1.len() as int)));
            assert((w1 + w2).skip(w1.len() as int) =~= w2);
            assert(spec_decode_segment::<C>(head@[BLOCK_LEN - 1], rest@.len() as int, w2) == Some(
                rest@,
            ));
            assert(head@ + rest@ =~= docs@);
            assert(head@[BLOCK_LEN - 1] == docs@[BLOCK_LEN - 1]);
        }
    }
}

} // verus!
