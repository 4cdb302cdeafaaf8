//! A term's postings list: its impact segments, encoded back to back.

use vstd::prelude::*;

use crate::compress::Compressor;
use crate::compress::strict_from;
use crate::impact::Impact;
use crate::impact::MetaData;
use crate::impact::spec_decode_segment;
use crate::svbyte::lemma_subrange_concat;
use crate::svbyte::lemma_subrange_prefix;

verus! {

broadcast use vstd::seq::group_seq_axioms;

/// Byte offset of segment `k` inside a list's encoded bytes: the sum of the
/// byte lengths of the segments before it.
pub open spec fn seg_off(metas: Seq<MetaData>, k: int) -> int
    decreases k,
{
    if k <= 0 {
        0
    } else {
        seg_off(metas, k - 1) + metas[k - 1].bytes
    }
}

/// Offsets only grow along the list.
pub proof fn lemma_seg_off_mono(metas: Seq<MetaData>, i: int, j: int)
    requires
        0 <= i <= j,
    ensures
        seg_off(metas, i) <= seg_off(metas, j),
    decreases j - i,
{
    if i < j {
        lemma_seg_off_mono(metas, i, j - 1);
    }
}

/// One term's postings list: segment metadata in storage order, and the
/// offset of the list's first byte inside the index's byte blob.
#[derive(Clone, Debug)]
pub struct List {
    pub impacts: Vec<MetaData>,
    pub start_byte_offset: usize,
}

impl List {
    /// The bytes of a list are well formed when each segment's byte range
    /// decodes to a strictly increasing run of doc ids of the recorded count.
    pub open spec fn segment_ok<C: Compressor>(meta: MetaData, bytes: Seq<u8>) -> bool {
        &&& spec_decode_segment::<C>(0, meta.count as int, bytes) is Some
        &&& strict_from(0, spec_decode_segment::<C>(0, meta.count as int, bytes)->Some_0)
    }

    /// Encodes one segment per `(impact, docs)` pair, back to back.
    ///
    /// Each returned metadata entry records its pair's impact and doc count,
    /// `bytes` splits the output exactly, and each segment's bytes decode
    /// back to its docs.
    pub fn encode<C: Compressor>(input: &Vec<(u16, Vec<u32>)>) -> (r: (List, Vec<u8>))
        requires
            input@.len() <= 65_535,
            forall|k: int|
                0 <= k < input@.len() ==> strict_from(0, #[trigger] input@[k].1@)
                    && input@[k].1@.len() <= 400_000_000,
        ensures
            r.0.start_byte_offset == 0,
            r.0.impacts@.len() == input@.len(),
            forall|k: int|
                0 <= k < input@.len() ==> (#[trigger] r.0.impacts@[k]).impact == input@[k].0
                    && r.0.impacts@[k].count == input@[k].1@.len() && r.0.impacts@[k].bytes <= 5
                    * input@[k].1@.len() + 8,
            r.1@.len() == seg_off(r.0.impacts@, input@.len() as int),
            forall|k: int|
                0 <= k < input@.len() ==> spec_decode_segment::<C>(
                    0,
                    input@[k].1@.len() as int,
                    #[trigger] r.1@.subrange(
                        seg_off(r.0.impacts@, k),
                        seg_off(r.0.impacts@, k + 1),
                    ),
                ) == Some(input@[k].1@),
    {
        let mut output: Vec<u8> = Vec::new();
        let mut impacts: Vec<MetaData> = Vec::new();
        let mut i: usize = 0;
        while i < input.len()
            invariant
                input@.len() <= 65_535,
                forall|k: int|
                    0 <= k < input@.len() ==> strict_from(0, #[trigger] input@[k].1@)
                        && input@[k].1@.len() <= 400_000_000,
                i <= input@.len(),
                impacts@.len() == i,
                forall|k: int|
                    0 <= k < i ==> (#[trigger] impacts@[k]).impact == input@[k].0
                        && impacts@[k].count == input@[k].1@.len() && impacts@[k].bytes <= 5
                        * input@[k].1@.len() + 8,
                output@.len() == seg_off(impacts@, i as int),
                output@.len() <= i * 2_000_000_008,
                forall|k: int|
                    0 <= k < i ==> spec_decode_segment::<C>(
                        0,
                        input@[k].1@.len() as int,
                        #[trigger] output@.subrange(
                            seg_off(impacts@, k),
                            seg_off(impacts@, k + 1),
                        ),
                    ) == Some(input@[k].1@),
            decreases input@.len() - i,
        {
            let pair = &input[i];
            proof {
                assert(pair.1@ == input@[i as int].1@);
            }
            let (meta, mut data) = Impact::encode::<C>(pair.0, pair.1.as_slice());
            let ghost impacts_pre = impacts@;
            let ghost output_pre = output@;
            let ghost data_s = data@;
            impacts.push(meta);
            output.append(&mut data);
            proof {
                assert forall|k: int| 0 <= k < i implies seg_off(impacts@, k) == seg_off(
                    impacts_pre,
                    k,
                ) by {
                    lemma_seg_off_unchanged(impacts_pre, impacts@, k);
                }
                lemma_seg_off_unchanged(impacts_pre, impacts@, i as int);
                assert(seg_off(impacts@, i as int + 1) == seg_off(impacts@, i as int)
                    + meta.bytes);
                assert forall|k: int| 0 <= k < i + 1 implies spec_decode_segment::<C>(
                    0,
                    input@[k].1@.len() as int,
                    #[trigger] output@.subrange(seg_off(impacts@, k), seg_off(impacts@, k + 1)),
                ) == Some(input@[k].1@) by {
                    lemma_seg_off_mono(impacts@, 0, k);
                    assert(output@.take(output_pre.len() as int) =~= output_pre);
                    if k < i {
                        lemma_seg_off_mono(impacts@, k + 1, i as int);
                        lemma_subrange_prefix(
                            output_pre,
                            output@,
                            seg_off(impacts@, k),
                            seg_off(impacts@, k + 1),
                        );
                        assert(seg_off(impacts@, k) == seg_off(impacts_pre, k));
                        assert(seg_off(impacts@, k + 1) == seg_off(impacts_pre, k + 1));
                        assert(output@.subrange(seg_off(impacts@, k), seg_off(impacts@, k + 1))
                            == output_pre.subrange(
                            seg_off(impacts_pre, k),
                            seg_off(impacts_pre, k + 1),
                        ));
                        assert(spec_decode_segment::<C>(
                            0,
                            input@[k].1@.len() as int,
                            output_pre.subrange(
                                seg_off(impacts_pre, k),
                                seg_off(impacts_pre, k + 1),
                            ),
                        ) == Some(input@[k].1@));
                    } else {
                        assert(output@ == output_pre + data_s);
                        lemma_subrange_concat(output_pre, data_s, 0, data_s.len() as int);
                        assert(data_s.subrange(0, data_s.len() as int) =~= data_s);
                        assert(seg_off(impacts@, k) == output_pre.len() + 0);
                        assert(seg_off(impacts@, k + 1) == output_pre.len() + data_s.len());
                        assert(output@.subrange(
                            seg_off(impacts@, k),
                            seg_off(impacts@, k + 1),
                        ) == data_s);
                        assert(spec_decode_segment::<C>(
                            0,
                            input@[k].1@.len() as int,
                            data_s,
                        ) == Some(input@[k].1@));
                    }
                }
            }
            i = i + 1;
        }
        (List { impacts, start_byte_offset: 0 }, output)
    }
}

/// `seg_off` reads only the metadata before `k`, so pushing one more entry
/// leaves earlier offsets unchanged.
proof fn lemma_seg_off_unchanged(a: Seq<MetaData>, b: Seq<MetaData>, k: int)
    requires
        0 <= k <= a.len(),
        a.len() <= b.len(),
        forall|j: int| 0 <= j < a.len() ==> a[j] == b[j],
    ensures
        seg_off(a, k) == seg_off(b, k),
    decreases k,
{
    if k > 0 {
        lemma_seg_off_unchanged(a, b, k - 1);
    }
}

} // verus!
