//! The impact-ordered index: construction from scored postings, and
//! budgeted top-k retrieval over it.

use vstd::prelude::*;

use crate::ScoreType;
use crate::compress::Compressor;
use crate::compress::strict_from;
use crate::impact::Impact;
use crate::impact::MetaData;
use crate::impact::spec_decode_segment;
use crate::list::List;
use crate::list::seg_off;
use crate::list::lemma_seg_off_mono;
use crate::query::MAX_TERM_WEIGHT;
use crate::query::Term;
use crate::range::Byte;
use crate::search::CHUNK_SIZE;
use crate::search::Result;
use crate::search::Results;
use crate::search::Scratch;
use crate::search::Seg;
use crate::search::acc_after;
use crate::search::apply_seg;
use crate::search::beats;
use crate::search::determine_topk_chunks;
use crate::search::is_topk;
use crate::search::lemma_acc_len;
use crate::search::processed_count;
use crate::search::sat_add;
use crate::search::total_count;

verus! {

broadcast use vstd::seq::group_seq_axioms, vstd::std_specs::vec::group_vec_axioms;

/// Why an index could not be built.
#[derive(Clone, Copy, Debug, PartialEq, Eq, Structural)]
pub enum IndexError {
    /// The document map is empty or longer than a doc id can address.
    BadDocmap,
    /// A posting names a doc id outside the document map.
    DocIdOutOfRange,
    /// A term's postings are not strictly increasing by doc id.
    PostingsNotIncreasing,
    /// Two posting lists share a term.
    DuplicateTerm,
    /// An impact value cannot be weighted without overflowing its type.
    ImpactOverflow,
    /// The collection is too large for this index layout.
    TooLarge,
    /// Stored bytes that do not decode back to sound posting lists.
    CorruptList,
    /// Stored bytes written by a different codec.
    WrongCompressor,
}

/// Index of the first vocabulary entry whose term reads `tok`, or `-1`.
pub open spec fn spec_find(vocab: Seq<(String, List)>, tok: Seq<char>) -> int
    decreases vocab.len(),
{
    if vocab.len() == 0 {
        -1
    } else if vocab[0].0@ == tok {
        0
    } else {
        let r = spec_find(vocab.skip(1), tok);
        if r < 0 {
            -1
        } else {
            r + 1
        }
    }
}

/// A found term really sits at the found index.
pub proof fn lemma_spec_find(vocab: Seq<(String, List)>, tok: Seq<char>)
    ensures
        spec_find(vocab, tok) >= 0 ==> spec_find(vocab, tok) < vocab.len() && vocab[spec_find(
            vocab,
            tok,
        )].0@ == tok,
    decreases vocab.len(),
{
    if vocab.len() > 0 && vocab[0].0@ != tok {
        lemma_spec_find(vocab.skip(1), tok);
    }
}

/// The doc ids among `ps` carrying impact `imp`, in order.
pub open spec fn docs_with(ps: Seq<(u32, u16)>, imp: u16) -> Seq<u32>
    decreases ps.len(),
{
    if ps.len() == 0 {
        Seq::empty()
    } else {
        (if ps[0].1 == imp {
            seq![ps[0].0]
        } else {
            Seq::empty()
        }) + docs_with(ps.skip(1), imp)
    }
}

/// One segment of a stored list is sound: its byte range decodes to exactly
/// `count` strictly increasing doc ids, all below `n_docs`.
pub open spec fn seg_sound<C: Compressor>(
    metas: Seq<MetaData>,
    k: int,
    start: int,
    blob: Seq<u8>,
    n_docs: int,
) -> bool {
    let bytes = blob.subrange(start + seg_off(metas, k), start + seg_off(metas, k + 1));
    let dec = spec_decode_segment::<C>(0, metas[k].count as int, bytes);
    &&& dec is Some
    &&& strict_from(0, dec->Some_0)
    &&& forall|j: int| 0 <= j < dec->Some_0.len() ==> dec->Some_0[j] < n_docs
    &&& metas[k].count > 0
}

/// A stored postings list is sound: its segments sit back to back inside
/// the blob, in strictly descending impact order, and each is sound.
pub open spec fn list_sound<C: Compressor>(
    metas: Seq<MetaData>,
    start: int,
    blob: Seq<u8>,
    n_docs: int,
    max_level: int,
) -> bool {
    &&& 0 <= start
    &&& start + seg_off(metas, metas.len() as int) <= blob.len()
    &&& metas.len() <= 65_535
    &&& forall|k: int, l: int|
        0 <= k < l < metas.len() ==> (#[trigger] metas[l]).impact < (#[trigger] metas[k]).impact
    &&& forall|k: int| 0 <= k < metas.len() ==> (#[trigger] metas[k]).impact <= max_level
    &&& forall|k: int| 0 <= k < metas.len() ==> seg_sound::<C>(metas, k, start, blob, n_docs)
    &&& metas_count_upto(metas, metas.len() as int) <= u32::MAX
}

/// Partial doc counts of a list grow with the number of segments.
pub proof fn lemma_metas_count_mono(metas: Seq<MetaData>, i: int, j: int)
    requires
        0 <= i <= j,
    ensures
        metas_count_upto(metas, i) <= metas_count_upto(metas, j),
    decreases j - i,
{
    if i < j {
        lemma_metas_count_mono(metas, i, j - 1);
    }
}

/// An impact-ordered index over one compressed byte blob.
pub struct Index<C: Compressor> {
    docmap: Vec<String>,
    vocab: Vec<(String, List)>,
    list_data: Vec<u8>,
    num_levels: usize,
    max_level: usize,
    max_doc_id: u32,
    max_term_weight: usize,
    num_postings: u64,
    compressor_tag: u8,
    impact_type: core::marker::PhantomData<C>,
}

impl<C: Compressor> Index<C> {
    /// The structural soundness of the index, maintained by every
    /// constructor and relied on by retrieval.
    #[verifier::type_invariant]
    pub closed spec fn wf(self) -> bool {
        &&& self.docmap@.len() == self.max_doc_id as int + 1
        &&& self.max_doc_id < u32::MAX
        &&& self.max_doc_id as int + CHUNK_SIZE + 1 <= usize::MAX
        &&& self.max_term_weight == MAX_TERM_WEIGHT
        &&& self.max_level * MAX_TERM_WEIGHT <= u16::MAX
        &&& self.compressor_tag == C::spec_tag()
        &&& forall|i: int, j: int|
            0 <= i < j < self.vocab@.len() ==> (#[trigger] self.vocab@[i]).0@ != (
            #[trigger] self.vocab@[j]).0@
        &&& forall|i: int|
            0 <= i < self.vocab@.len() ==> list_sound::<C>(
                (#[trigger] self.vocab@[i]).1.impacts@,
                self.vocab@[i].1.start_byte_offset as int,
                self.list_data@,
                self.docmap@.len() as int,
                self.max_level as int,
            )
    }

    /// The vocabulary as the contracts see it.
    pub closed spec fn spec_vocab(self) -> Seq<(String, List)> {
        self.vocab@
    }

    /// The byte blob as the contracts see it.
    pub closed spec fn spec_list_data(self) -> Seq<u8> {
        self.list_data@
    }

    /// The document map as the contracts see it.
    pub closed spec fn spec_docmap(self) -> Seq<Seq<char>> {
        Seq::new(self.docmap@.len(), |i: int| self.docmap@[i]@)
    }

    pub closed spec fn spec_max_doc_id(self) -> int {
        self.max_doc_id as int
    }

    pub closed spec fn spec_max_level(self) -> int {
        self.max_level as int
    }

    pub closed spec fn spec_num_postings(self) -> int {
        self.num_postings as int
    }

    pub closed spec fn spec_num_levels(self) -> int {
        self.num_levels as int
    }

    pub fn num_postings(&self) -> (r: u64)
        ensures
            r as int == self.spec_num_postings(),
    {
        self.num_postings
    }

    pub fn levels(&self) -> (r: usize)
        ensures
            r as int == self.spec_num_levels(),
    {
        self.num_levels
    }

    pub fn max_level(&self) -> (r: usize)
        ensures
            r == self.spec_max_level(),
            r * MAX_TERM_WEIGHT <= u16::MAX,
    {
        proof {
            use_type_invariant(&*self);
        }
        self.max_level
    }

    pub fn max_doc_id(&self) -> (r: usize)
        ensures
            r == self.spec_max_doc_id(),
            r < u32::MAX,
            self.spec_docmap().len() == r + 1,
    {
        proof {
            use_type_invariant(&*self);
        }
        self.max_doc_id as usize
    }

    pub fn compressor_tag(&self) -> (r: u8)
        ensures
            r == C::spec_tag(),
    {
        proof {
            use_type_invariant(&*self);
        }
        self.compressor_tag
    }

    /// The stored vocabulary: terms with their list metadata.
    pub fn vocab_entries(&self) -> (r: &Vec<(String, List)>)
        ensures
            r@ == self.spec_vocab(),
    {
        &self.vocab
    }

    /// The encoded posting bytes of all lists.
    pub fn list_data(&self) -> (r: &Vec<u8>)
        ensures
            r@ == self.spec_list_data(),
    {
        &self.list_data
    }

    pub fn docmap(&self) -> (r: &Vec<String>)
        ensures
            r@.len() == self.spec_docmap().len(),
            forall|i: int| 0 <= i < r@.len() ==> (#[trigger] r@[i])@ == self.spec_docmap()[i],
    {
        &self.docmap
    }

    /// The stored postings list of `token`, when the vocabulary has it.
    pub fn impact_list(&self, token: &str) -> (r: Option<&List>)
        ensures
            match r {
                Some(list) => spec_find(self.spec_vocab(), token@) >= 0 && *list
                    == self.spec_vocab()[spec_find(self.spec_vocab(), token@)].1,
                None => spec_find(self.spec_vocab(), token@) < 0,
            },
    {
        let mut i: usize = 0;
        let ghost vocab = self.vocab@;
        proof {
            assert(vocab.skip(0) =~= vocab);
        }
        while i < self.vocab.len()
            invariant
                i <= vocab.len(),
                vocab == self.vocab@,
                spec_find(vocab, token@) == (if spec_find(vocab.skip(i as int), token@) < 0 {
                    -1int
                } else {
                    spec_find(vocab.skip(i as int), token@) + i
                }),
            decreases vocab.len() - i,
        {
            let entry = &self.vocab[i];
            proof {
                assert(vocab.skip(i as int)[0] == vocab[i as int]);
                assert(vocab.skip(i as int).skip(1) =~= vocab.skip(i as int + 1));
            }
            if str_eq(entry.0.as_str(), token) {
                proof {
                    assert(vocab[i as int].0@ == token@);
                    assert(spec_find(vocab.skip(i as int), token@) == 0);
                }
                return Some(&entry.1);
            }
            proof {
                assert(vocab[i as int].0@ != token@);
            }
            i = i + 1;
        }
        proof {
            assert(vocab.skip(i as int).len() == 0);
        }
        None
    }
}

/// The doc ids a cursor has yet to produce.
pub open spec fn cursor_docs<C: Compressor>(it: Impact, blob: Seq<u8>) -> Seq<u32> {
    it.rest::<C>(blob)->Some_0
}

/// A cursor freshly placed over a whole sound segment.
pub open spec fn cursor_fresh_ok<C: Compressor>(it: Impact, blob: Seq<u8>, n_docs: int) -> bool {
    &&& it.wf::<C>(blob)
    &&& it.remaining_u32s == it.meta_data.count
    &&& it.meta_data.count > 0
    &&& strict_from(0, cursor_docs::<C>(it, blob))
    &&& cursor_docs::<C>(it, blob).len() == it.meta_data.count
    &&& forall|j: int|
        0 <= j < cursor_docs::<C>(it, blob).len() ==> cursor_docs::<C>(it, blob)[j] < n_docs
}

/// Every cursor in every bucket is fresh and sound.
pub open spec fn buckets_ok<C: Compressor>(bv: Seq<Seq<Impact>>, blob: Seq<u8>, n_docs: int) -> bool {
    forall|b: int, j: int|
        0 <= b < bv.len() && 0 <= j < bv[b].len() ==> cursor_fresh_ok::<C>(
            #[trigger] bv[b][j],
            blob,
            n_docs,
        )
}

/// The views of the bucket vectors.
pub open spec fn bucket_views(bs: Seq<Vec<Impact>>) -> Seq<Seq<Impact>> {
    Seq::new(bs.len(), |b: int| bs[b]@)
}

/// One bucket's segments, in stored order.
pub open spec fn bucket_segs<C: Compressor>(bucket: Seq<Impact>, blob: Seq<u8>) -> Seq<Seg> {
    Seq::new(
        bucket.len(),
        |j: int| ((bucket[j].meta_data.impact as ScoreType), cursor_docs::<C>(bucket[j], blob)),
    )
}

/// The segments of buckets `0 .. b`, in processing order: highest bucket
/// first, each bucket's segments in stored order.
pub open spec fn segs_lower<C: Compressor>(bv: Seq<Seq<Impact>>, b: int, blob: Seq<u8>) -> Seq<Seg>
    decreases b,
{
    if b <= 0 {
        Seq::empty()
    } else {
        bucket_segs::<C>(bv[b - 1], blob) + segs_lower::<C>(bv, b - 1, blob)
    }
}

/// All segments held by the buckets, in processing order.
pub open spec fn segs_of<C: Compressor>(bv: Seq<Seq<Impact>>, blob: Seq<u8>) -> Seq<Seg> {
    segs_lower::<C>(bv, bv.len() as int, blob)
}

/// `n` empty buckets.
pub open spec fn empty_bv(n: int) -> Seq<Seq<Impact>> {
    Seq::new(n as nat, |b: int| Seq::<Impact>::empty())
}

/// The fresh cursor for segment `k` of a stored list, weighted by `freq`.
pub open spec fn seg_cursor(metas: Seq<MetaData>, start: int, k: int, freq: u16) -> Impact {
    Impact {
        meta_data: MetaData {
            impact: (metas[k].impact * freq) as u16,
            count: metas[k].count,
            bytes: metas[k].bytes,
        },
        remaining_u32s: metas[k].count as usize,
        bytes: Byte {
            start: (start + seg_off(metas, k)) as usize,
            stop: (start + seg_off(metas, k + 1)) as usize,
        },
        initial: 0,
    }
}

/// Buckets after placing segments `0 .. upto` of one list, each into the
/// bucket of its weighted impact.
pub open spec fn place_list(
    bv: Seq<Seq<Impact>>,
    metas: Seq<MetaData>,
    start: int,
    freq: u16,
    upto: int,
) -> Seq<Seq<Impact>>
    decreases upto,
{
    if upto <= 0 {
        bv
    } else {
        let prev = place_list(bv, metas, start, freq, upto - 1);
        let idx = metas[upto - 1].impact * freq;
        prev.update(idx as int, prev[idx as int].push(seg_cursor(metas, start, upto - 1, freq)))
    }
}

/// Buckets after placing the lists of the first `upto` tokens; unknown
/// tokens place nothing.
pub open spec fn place_tokens(
    vocab: Seq<(String, List)>,
    bv: Seq<Seq<Impact>>,
    tokens: Seq<Term>,
    upto: int,
) -> Seq<Seq<Impact>>
    decreases upto,
{
    if upto <= 0 {
        bv
    } else {
        let prev = place_tokens(vocab, bv, tokens, upto - 1);
        let f = spec_find(vocab, tokens[upto - 1].token@);
        if f < 0 {
            prev
        } else {
            place_list(
                prev,
                vocab[f].1.impacts@,
                vocab[f].1.start_byte_offset as int,
                tokens[upto - 1].freq as u16,
                vocab[f].1.impacts@.len() as int,
            )
        }
    }
}

/// Total doc count of the first `k` segments of a stored list.
pub open spec fn metas_count_upto(metas: Seq<MetaData>, k: int) -> int
    decreases k,
{
    if k <= 0 {
        0
    } else {
        metas_count_upto(metas, k - 1) + metas[k - 1].count
    }
}

/// Total posting count selected by the first `upto` tokens.
pub open spec fn tokens_total(vocab: Seq<(String, List)>, tokens: Seq<Term>, upto: int) -> int
    decreases upto,
{
    if upto <= 0 {
        0
    } else {
        let f = spec_find(vocab, tokens[upto - 1].token@);
        tokens_total(vocab, tokens, upto - 1) + (if f < 0 {
            0
        } else {
            metas_count_upto(vocab[f].1.impacts@, vocab[f].1.impacts@.len() as int)
        })
    }
}

impl<C: Compressor> Index<C> {
    /// Scratch sized for this index.
    pub open spec fn fits(self, s: Scratch) -> bool {
        &&& s.impacts@.len() == self.spec_max_level() * MAX_TERM_WEIGHT + 1
        &&& s.accumulators@.len() == self.spec_max_doc_id() + 1
        &&& s.chunk@.len() * CHUNK_SIZE >= s.accumulators@.len()
    }

    /// All query terms carry a weight in `[1, MAX_TERM_WEIGHT]`.
    pub open spec fn tokens_ok(tokens: Seq<Term>) -> bool {
        &&& tokens.len() <= 1_000_000
        &&& forall|i: int| 0 <= i < tokens.len() ==> 1 <= (#[trigger] tokens[i]).freq <= MAX_TERM_WEIGHT
    }

    /// The segments a query selects, in processing order.
    pub open spec fn spec_query_segs(self, tokens: Seq<Term>) -> Seq<Seg> {
        segs_of::<C>(
            place_tokens(
                self.spec_vocab(),
                empty_bv(self.spec_max_level() * MAX_TERM_WEIGHT + 1),
                tokens,
                tokens.len() as int,
            ),
            self.spec_list_data(),
        )
    }

    /// The accumulated scores of a query under a postings budget: the
    /// budgeted prefix of the query's segments, scored into zeroed
    /// accumulators with saturating addition.
    pub open spec fn spec_scores(self, tokens: Seq<Term>, budget: int) -> Seq<ScoreType> {
        let segs = self.spec_query_segs(tokens);
        acc_after(self.spec_max_doc_id() + 1, segs, processed_count(segs, budget))
    }

    /// Clears the buckets, then walks each known token's stored list and
    /// places a fresh weighted cursor per segment into the bucket of its
    /// effective impact. Returns the total count of selected postings.
    fn determine_impact_segments(&self, data: &mut Scratch, tokens: &[Term]) -> (r: u64)
        requires
            self.fits(*old(data)),
            Self::tokens_ok(tokens@),
        ensures
            self.fits(*final(data)),
            final(data).accumulators@ == old(data).accumulators@,
            final(data).chunk@ == old(data).chunk@,
            final(data).heap@ == old(data).heap@,
            bucket_views(final(data).impacts@) == place_tokens(
                self.spec_vocab(),
                empty_bv(self.spec_max_level() * MAX_TERM_WEIGHT + 1),
                tokens@,
                tokens@.len() as int,
            ),
            buckets_ok::<C>(
                bucket_views(final(data).impacts@),
                self.spec_list_data(),
                self.spec_max_doc_id() + 1,
            ),
            r == tokens_total(self.spec_vocab(), tokens@, tokens@.len() as int),
            r <= tokens@.len() * 0x1_0000_0000,
    {
        proof {
            use_type_invariant(&*self);
        }
        let ghost vocab = self.vocab@;
        let ghost blob = self.list_data@;
        let ghost n_docs = self.spec_max_doc_id() + 1;
        let ghost n_buckets = self.spec_max_level() * MAX_TERM_WEIGHT + 1;
        // clear every bucket
        let mut b: usize = 0;
        let n_b = data.impacts.len();
        while b < n_b
            invariant
                b <= n_b,
                n_b == data.impacts@.len(),
                forall|x: int| 0 <= x < b ==> (#[trigger] data.impacts@[x])@.len() == 0,
                data.accumulators@ == old(data).accumulators@,
                data.chunk@ == old(data).chunk@,
                data.heap@ == old(data).heap@,
            decreases n_b - b,
        {
            let bucket = vstd::std_specs::vec::vec_index_mut(&mut data.impacts, b);
            bucket.clear();
            b = b + 1;
        }
        proof {
            assert(bucket_views(data.impacts@) =~~= empty_bv(n_buckets));
        }
        let mut total: u64 = 0;
        let mut t: usize = 0;
        while t < tokens.len()
            invariant
                t <= tokens@.len(),
                Self::tokens_ok(tokens@),
                vocab == self.vocab@,
                blob == self.list_data@,
                n_docs == self.spec_max_doc_id() + 1,
                n_buckets == self.spec_max_level() * MAX_TERM_WEIGHT + 1,
                data.impacts@.len() == n_buckets,
                data.accumulators@ == old(data).accumulators@,
                data.chunk@ == old(data).chunk@,
                data.heap@ == old(data).heap@,
                bucket_views(data.impacts@) == place_tokens(vocab, empty_bv(n_buckets), tokens@, t as int),
                buckets_ok::<C>(bucket_views(data.impacts@), blob, n_docs),
                total == tokens_total(vocab, tokens@, t as int),
                total <= t * 0x1_0000_0000u64,
                tokens@.len() <= 1_000_000,
            decreases tokens@.len() - t,
        {
            proof {
                use_type_invariant(&*self);
            }
            let tok = &tokens[t];
            let found = self.impact_list(tok.token.as_str());
            match found {
                None => {
                    proof {
                        assert(place_tokens(vocab, empty_bv(n_buckets), tokens@, t as int + 1)
                            == bucket_views(data.impacts@));
                    }
                },
                Some(list) => {
                    let ghost fidx = spec_find(vocab, tokens@[t as int].token@);
                    let ghost metas = list.impacts@;
                    let ghost lstart = list.start_byte_offset as int;
                    let freq: u16 = tok.freq as u16;
                    proof {
                        use_type_invariant(&*self);
                        lemma_spec_find(vocab, tokens@[t as int].token@);
                        assert(fidx >= 0);
                        assert(fidx < self.vocab@.len());
                        assert(self.vocab@[fidx].1 == *list);
                        assert(list_sound::<C>(
                            (self.vocab@[fidx]).1.impacts@,
                            self.vocab@[fidx].1.start_byte_offset as int,
                            self.list_data@,
                            self.docmap@.len() as int,
                            self.max_level as int,
                        ));
                        assert(n_docs == self.docmap@.len() as int);
                        assert(list_sound::<C>(metas, lstart, blob, n_docs, self.spec_max_level()));
                        lemma_metas_count_mono(metas, 0, metas.len() as int);
                    }
                    let mut start: usize = list.start_byte_offset;
                    let nsegs = list.impacts.len();
                    let ghost bv0 = bucket_views(data.impacts@);
                    let mut k: usize = 0;
                    let mut list_count: u64 = 0;
                    while k < nsegs
                        invariant
                            k <= nsegs,
                            nsegs == metas.len(),
                            metas == list.impacts@,
                            lstart == list.start_byte_offset as int,
                            vocab == self.vocab@,
                            blob == self.list_data@,
                            n_docs == self.spec_max_doc_id() + 1,
                            n_buckets == self.spec_max_level() * MAX_TERM_WEIGHT + 1,
                            list_sound::<C>(metas, lstart, blob, n_docs, self.spec_max_level()),
                            1 <= freq <= MAX_TERM_WEIGHT,
                            data.impacts@.len() == n_buckets,
                            data.accumulators@ == old(data).accumulators@,
                            data.chunk@ == old(data).chunk@,
                            data.heap@ == old(data).heap@,
                            start == lstart + seg_off(metas, k as int),
                            bucket_views(data.impacts@) == place_list(bv0, metas, lstart, freq, k as int),
                            buckets_ok::<C>(bucket_views(data.impacts@), blob, n_docs),
                            list_count == metas_count_upto(metas, k as int),
                            metas_count_upto(metas, metas.len() as int) <= u32::MAX,
                        decreases nsegs - k,
                    {
                        proof {
                            use_type_invariant(&*self);
                        }
                        let meta = list.impacts[k];
                        proof {
                            lemma_seg_off_mono(metas, k as int + 1, metas.len() as int);
                            assert(seg_off(metas, k as int + 1) == seg_off(metas, k as int)
                                + meta.bytes);
                            assert(seg_sound::<C>(metas, k as int, lstart, blob, n_docs));
                            assert(self.list_data.len() <= usize::MAX);
                            assert(self.list_data@.len() <= usize::MAX);
                            assert(lstart + seg_off(metas, metas.len() as int) <= blob.len());
                            assert(start + meta.bytes <= blob.len());
                            assert(meta.impact * freq <= self.spec_max_level() * MAX_TERM_WEIGHT)
                                by (nonlinear_arith)
                                requires
                                    0 <= meta.impact <= self.spec_max_level(),
                                    0 <= freq <= MAX_TERM_WEIGHT,
                            ;
                        }
                        let stop = start + meta.bytes as usize;
                        let cursor = Impact::from_encoded_slice_weighted(
                            meta,
                            Byte::new(start, stop),
                            freq,
                        );
                        let idx: usize = meta.impact as usize * freq as usize;
                        let ghost bv_pre = bucket_views(data.impacts@);
                        let bucket = vstd::std_specs::vec::vec_index_mut(&mut data.impacts, idx);
                        bucket.push(cursor);
                        proof {
                            assert(cursor == seg_cursor(metas, lstart, k as int, freq));
                            assert(bucket_views(data.impacts@) =~~= bv_pre.update(
                                idx as int,
                                bv_pre[idx as int].push(cursor),
                            ));
                            assert(cursor_fresh_ok::<C>(cursor, blob, n_docs)) by {
                                assert(blob.subrange(
                                    cursor.bytes.spec_start(),
                                    cursor.bytes.spec_stop(),
                                ) == blob.subrange(
                                    lstart + seg_off(metas, k as int),
                                    lstart + seg_off(metas, k as int + 1),
                                ));
                                crate::impact::lemma_segment_decode_len::<C>(
                                    0,
                                    meta.count as int,
                                    blob.subrange(
                                        lstart + seg_off(metas, k as int),
                                        lstart + seg_off(metas, k as int + 1),
                                    ),
                                );
                            }
                            assert forall|b2: int, j2: int|
                                0 <= b2 < bucket_views(data.impacts@).len() && 0 <= j2
                                    < bucket_views(data.impacts@)[b2].len() implies cursor_fresh_ok::<
                                C,
                            >(#[trigger] bucket_views(data.impacts@)[b2][j2], blob, n_docs) by {
                                if b2 == idx && j2 == bv_pre[idx as int].len() {
                                } else {
                                    assert(bucket_views(data.impacts@)[b2][j2] == bv_pre[b2][j2]);
                                }
                            }
                        }
                        start = stop;
                        proof {
                            lemma_metas_count_mono(metas, k as int + 1, metas.len() as int);
                        }
                        list_count = list_count + meta.count as u64;
                        k = k + 1;
                    }
                    proof {
                        lemma_metas_count_mono(metas, 0, metas.len() as int);
                        assert(list_count <= 0x1_0000_0000u64);
                    }
                    total = total + list_count;
                    proof {
                        assert(fidx >= 0 && vocab[fidx].1 == *list);
                        assert(place_tokens(vocab, empty_bv(n_buckets), tokens@, t as int + 1)
                            == bucket_views(data.impacts@));
                        assert(tokens_total(vocab, tokens@, t as int + 1) == tokens_total(
                            vocab,
                            tokens@,
                            t as int,
                        ) + metas_count_upto(metas, metas.len() as int));
                    }
                },
            }
            t = t + 1;
        }
        total
    }
}


/// Scores the selected segments into the accumulators, highest effective
/// impact first, whole segments at a time, until the postings budget is
/// spent; tracks the running maximum of each chunk of accumulators.
fn process_impact_segments<C: Compressor>(list_data: &[u8], data: &mut Scratch, postings_budget: i64)
    requires
        buckets_ok::<C>(
            bucket_views(old(data).impacts@),
            list_data@,
            old(data).accumulators@.len() as int,
        ),
        old(data).chunk@.len() * CHUNK_SIZE >= old(data).accumulators@.len(),
        old(data).accumulators@.len() <= u32::MAX,
    ensures
        final(data).impacts@ == old(data).impacts@,
        final(data).heap@ == old(data).heap@,
        final(data).chunk@.len() == old(data).chunk@.len(),
        final(data).accumulators@.len() == old(data).accumulators@.len(),
        final(data).accumulators@ == ({
            let segs = segs_of::<C>(bucket_views(old(data).impacts@), list_data@);
            acc_after(
                old(data).accumulators@.len() as int,
                segs,
                processed_count(segs, postings_budget as int),
            )
        }),
        forall|d: int|
            0 <= d < final(data).accumulators@.len() ==> #[trigger] final(data).accumulators@[d]
                <= final(data).chunk@[d / (CHUNK_SIZE as int)],
{
    let ghost blob = list_data@;
    let ghost bv = bucket_views(old(data).impacts@);
    let ghost n = old(data).accumulators@.len() as int;
    let ghost segs = segs_of::<C>(bv, blob);
    let ghost budget = postings_budget as int;
    // zero the accumulators and the chunk maxima
    let n_acc = data.accumulators.len();
    let mut z: usize = 0;
    while z < n_acc
        invariant
            z <= n_acc,
            n_acc == data.accumulators@.len(),
            forall|d: int| 0 <= d < z ==> #[trigger] data.accumulators@[d] == 0,
            data.impacts@ == old(data).impacts@,
            data.chunk@ == old(data).chunk@,
            data.heap@ == old(data).heap@,
        decreases n_acc - z,
    {
        let acc = &mut data.accumulators;
        let e = vstd::std_specs::vec::vec_index_mut(acc, z);
        *e = 0;
        z = z + 1;
    }
    let n_ch = data.chunk.len();
    let mut y: usize = 0;
    while y < n_ch
        invariant
            y <= n_ch,
            n_ch == data.chunk@.len(),
            forall|c: int| 0 <= c < y ==> #[trigger] data.chunk@[c] == 0,
            data.impacts@ == old(data).impacts@,
            data.accumulators@.len() == n,
            forall|d: int| 0 <= d < n ==> #[trigger] data.accumulators@[d] == 0,
            data.heap@ == old(data).heap@,
        decreases n_ch - y,
    {
        let ch = &mut data.chunk;
        let e = vstd::std_specs::vec::vec_index_mut(ch, y);
        *e = 0;
        y = y + 1;
    }
    proof {
        assert(data.accumulators@ =~= acc_after(n, segs, 0));
    }
    let mut rem: i64 = postings_budget;
    let ghost mut p: int = 0;
    let ghost mut seen: int = 0;
    let nb = data.impacts.len();
    let mut bi: usize = nb;
    proof {
        crate::search::lemma_processed_le(segs, budget);
        assert(segs.skip(0) =~= segs);
        assert(segs.take(0) =~= Seq::<Seg>::empty());
    }
    while bi > 0
        invariant
            blob == list_data@,
            bv == bucket_views(data.impacts@),
            data.impacts@ == old(data).impacts@,
            data.heap@ == old(data).heap@,
            data.chunk@.len() == old(data).chunk@.len(),
            data.accumulators@.len() == n,
            n <= u32::MAX,
            data.chunk@.len() * CHUNK_SIZE >= n,
            buckets_ok::<C>(bv, blob, n),
            segs == segs_of::<C>(bv, blob),
            budget == postings_budget as int,
            bi <= nb,
            nb == bv.len(),
            0 <= p <= seen <= segs.len(),
            segs.skip(seen) == segs_lower::<C>(bv, bi as int, blob),
            processed_count(segs, budget) == p + processed_count(segs.skip(seen), rem as int),
            rem > 0 ==> p == seen,
            rem as int == budget - total_count(segs.take(p)),
            data.accumulators@ == acc_after(n, segs, p),
            forall|d: int|
                0 <= d < n ==> #[trigger] data.accumulators@[d] <= data.chunk@[d / (
                CHUNK_SIZE as int)],
        decreases bi,
    {
        bi = bi - 1;
        proof {
            assert(segs_lower::<C>(bv, bi as int + 1, blob) == bucket_segs::<C>(bv[bi as int], blob)
                + segs_lower::<C>(bv, bi as int, blob));
            assert(bucket_segs::<C>(bv[bi as int], blob).skip(0) =~= bucket_segs::<C>(
                bv[bi as int],
                blob,
            ));
        }
        let bucket_len = data.impacts[bi].len();
        let mut j: usize = 0;
        while j < bucket_len
            invariant
                blob == list_data@,
                bv == bucket_views(data.impacts@),
                data.impacts@ == old(data).impacts@,
                data.heap@ == old(data).heap@,
                data.chunk@.len() == old(data).chunk@.len(),
                data.accumulators@.len() == n,
                n <= u32::MAX,
                data.chunk@.len() * CHUNK_SIZE >= n,
                buckets_ok::<C>(bv, blob, n),
                segs == segs_of::<C>(bv, blob),
                budget == postings_budget as int,
                bi < nb,
                nb == bv.len(),
                j <= bucket_len,
                bucket_len == bv[bi as int].len(),
                0 <= p <= seen <= segs.len(),
                segs.skip(seen) == bucket_segs::<C>(bv[bi as int], blob).skip(j as int)
                    + segs_lower::<C>(bv, bi as int, blob),
                processed_count(segs, budget) == p + processed_count(segs.skip(seen), rem as int),
                rem > 0 ==> p == seen,
                rem as int == budget - total_count(segs.take(p)),
                data.accumulators@ == acc_after(n, segs, p),
                forall|d: int|
                    0 <= d < n ==> #[trigger] data.accumulators@[d] <= data.chunk@[d / (
                    CHUNK_SIZE as int)],
            decreases bucket_len - j,
        {
            let ghost seg_model: Seg = bucket_segs::<C>(bv[bi as int], blob)[j as int];
            proof {
                assert(seen < segs.len()) by {
                    assert(segs.skip(seen).len() > 0);
                }
                assert(segs[seen] == segs.skip(seen)[0]);
                assert(segs[seen] == seg_model);
                assert(bucket_segs::<C>(bv[bi as int], blob).skip(j as int).skip(1)
                    =~= bucket_segs::<C>(bv[bi as int], blob).skip(j as int + 1));
                assert((bucket_segs::<C>(bv[bi as int], blob).skip(j as int) + segs_lower::<C>(
                    bv,
                    bi as int,
                    blob,
                )).skip(1) =~= bucket_segs::<C>(bv[bi as int], blob).skip(j as int + 1)
                    + segs_lower::<C>(bv, bi as int, blob));
                assert(segs.skip(seen).skip(1) =~= segs.skip(seen + 1));
            }
            if rem > 0 {
                let bucket = &data.impacts[bi];
                let mut cursor: Impact = bucket[j];
                let ghost orig_cursor = bv[bi as int][j as int];
                proof {
                    assert(cursor == orig_cursor);
                    assert(cursor_fresh_ok::<C>(orig_cursor, blob, n));
                }
                let count = cursor.count();
                let w = cursor.impact();
                let ghost docs = cursor_docs::<C>(orig_cursor, blob);
                let ghost base = data.accumulators@;
                let ghost mut t: int = 0;
                proof {
                    crate::search::lemma_apply_empty(base, w, docs);
                    assert(docs.skip(0) =~= docs);
                    assert(seg_model == (w, docs));
                }
                loop
                    invariant
                        blob == list_data@,
                        data.impacts@ == old(data).impacts@,
                        bv == bucket_views(data.impacts@),
                        data.heap@ == old(data).heap@,
                        data.chunk@.len() == old(data).chunk@.len(),
                        data.accumulators@.len() == n,
                        n <= u32::MAX,
                        data.chunk@.len() * CHUNK_SIZE >= n,
                        base.len() == n,
                        cursor.wf::<C>(blob),
                        0 <= t <= docs.len(),
                        docs.len() == count,
                        w == orig_cursor.meta_data.impact,
                        docs == cursor_docs::<C>(orig_cursor, blob),
                        strict_from(0, docs),
                        forall|x: int| 0 <= x < docs.len() ==> docs[x] < n,
                        cursor.rest::<C>(blob) == Some(docs.skip(t)),
                        data.accumulators@ == apply_seg(base, (w, docs.take(t))),
                        forall|d: int|
                            0 <= d < n ==> #[trigger] data.accumulators@[d] <= data.chunk@[d / (
                            CHUNK_SIZE as int)],
                    ensures
                        t == docs.len(),
                        data.accumulators@ == apply_seg(base, (w, docs.take(t))),
                        blob == list_data@,
                        data.impacts@ == old(data).impacts@,
                        bv == bucket_views(data.impacts@),
                        data.heap@ == old(data).heap@,
                        data.chunk@.len() == old(data).chunk@.len(),
                        data.accumulators@.len() == n,
                        forall|d: int|
                            0 <= d < n ==> #[trigger] data.accumulators@[d] <= data.chunk@[d / (
                            CHUNK_SIZE as int)],
                    decreases docs.len() - t,
                {
                    let got = cursor.next_chunk::<C>(list_data);
                    match got {
                        None => {
                            proof {
                                assert(docs.skip(t).len() == 0);
                            }
                            break ;
                        },
                        Some(chunk) => {
                            let m = chunk.len();
                            proof {
                                assert(chunk@ == docs.skip(t).take(m as int));
                                assert(cursor.rest::<C>(blob) == Some(
                                    docs.skip(t).skip(m as int),
                                ));
                                assert(docs.skip(t).skip(m as int) =~= docs.skip(t + m));
                            }
                            let mut e: usize = 0;
                            while e < m
                                invariant
                                    blob == list_data@,
                                    data.impacts@ == old(data).impacts@,
                                    bv == bucket_views(data.impacts@),
                                    data.heap@ == old(data).heap@,
                                    data.chunk@.len() == old(data).chunk@.len(),
                                    data.accumulators@.len() == n,
                                    n <= u32::MAX,
                                    data.chunk@.len() * CHUNK_SIZE >= n,
                                    base.len() == n,
                                    e <= m,
                                    m == chunk@.len(),
                                    0 <= t,
                                    t + m <= docs.len(),
                                    chunk@ == docs.skip(t).take(m as int),
                                    strict_from(0, docs),
                                    forall|x: int| 0 <= x < docs.len() ==> docs[x] < n,
                                    data.accumulators@ == apply_seg(
                                        base,
                                        (w, docs.take(t + e)),
                                    ),
                                    forall|d: int|
                                        0 <= d < n ==> #[trigger] data.accumulators@[d]
                                            <= data.chunk@[d / (CHUNK_SIZE as int)],
                                decreases m - e,
                            {
                                let d32 = chunk[e];
                                proof {
                                    assert(chunk@[e as int] == docs[t + e]);
                                    assert(docs[t + e] < n);
                                    crate::search::lemma_apply_step(base, w, docs, t + e);
                                    assert(apply_seg(base, (w, docs.take(t + e)))[d32 as int]
                                        == base[d32 as int]) by {
                                        assert(!docs.take(t + e).contains(docs[t + e])) by {
                                            if docs.take(t + e).contains(docs[t + e]) {
                                                let x = choose|x: int|
                                                    0 <= x < t + e && #[trigger] docs.take(
                                                        t + e,
                                                    )[x] == docs[t + e];
                                                assert(docs[x] < docs[t + e]);
                                            }
                                        }
                                    }
                                    vstd::arithmetic::div_mod::lemma_multiply_divide_lt(
                                        d32 as int,
                                        CHUNK_SIZE as int,
                                        data.chunk@.len() as int,
                                    );
                                }
                                let du = d32 as usize;
                                let acc = &mut data.accumulators;
                                let cur_score = acc[du];
                                let nv: ScoreType = if cur_score as u32 + w as u32 > 65535 {
                                    65535
                                } else {
                                    cur_score + w
                                };
                                proof {
                                    assert(nv == sat_add(base[d32 as int], w));
                                }
                                let entry = vstd::std_specs::vec::vec_index_mut(acc, du);
                                *entry = nv;
                                let ci = du / CHUNK_SIZE;
                                let ch = &mut data.chunk;
                                let cv = ch[ci];
                                if nv > cv {
                                    let centry = vstd::std_specs::vec::vec_index_mut(ch, ci);
                                    *centry = nv;
                                }
                                proof {
                                    assert(data.accumulators@ =~= apply_seg(
                                        base,
                                        (w, docs.take(t + e + 1)),
                                    ));
                                    assert forall|d: int|
                                        0 <= d < n implies #[trigger] data.accumulators@[d]
                                        <= data.chunk@[d / (CHUNK_SIZE as int)] by {
                                        if d == d32 as int {
                                        } else {
                                            assert(data.accumulators@[d] == apply_seg(
                                                base,
                                                (w, docs.take(t + e)),
                                            )[d]);
                                        }
                                    }
                                }
                                e = e + 1;
                            }
                            proof {
                                t = t + m;
                            }
                        },
                    }
                }
                proof {
                    assert(docs.take(docs.len() as int) =~= docs);
                    assert(data.accumulators@ == apply_seg(base, seg_model));
                    assert(data.accumulators@ == acc_after(n, segs, p + 1)) by {
                        assert(acc_after(n, segs, p + 1) == apply_seg(
                            acc_after(n, segs, p),
                            segs[p],
                        ));
                        assert(p == seen);
                    }
                    crate::search::lemma_total_take_snoc(segs, p);
                    assert(processed_count(segs.skip(seen), rem as int) == 1 + processed_count(
                        segs.skip(seen + 1),
                        rem as int - count as int,
                    )) by {
                        assert(segs.skip(seen)[0].1.len() == count);
                    }
                    p = p + 1;
                    seen = seen + 1;
                }
                rem = rem - count as i64;
            } else {
                proof {
                    assert(processed_count(segs.skip(seen), rem as int) == 0);
                    assert(processed_count(segs.skip(seen + 1), rem as int) == 0);
                    seen = seen + 1;
                }
            }
            j = j + 1;
        }
    }
    proof {
        assert(segs_lower::<C>(bv, 0, blob) =~= Seq::<Seg>::empty());
        assert(segs.skip(seen).len() == 0);
        assert(seen == segs.len());
        assert(processed_count(segs.skip(seen), rem as int) == 0);
    }
}


/// The postings budget that a fractional budget `num / den` grants out of
/// `total` postings: `ceil(total * num / den)`.
pub open spec fn frac_budget(total: int, num: int, den: int) -> int {
    (total * num + den - 1) / den
}

impl<C: Compressor> Index<C> {
    /// Runs one query with a caller-supplied scratch: selects the query's
    /// segments, scores them under the budget, and extracts the top `k`.
    pub fn query_fixed_with(
        &self,
        data: &mut Scratch,
        tokens: &[Term],
        postings_budget: i64,
        query_id: Option<usize>,
        k: usize,
    ) -> (r: Results)
        requires
            self.fits(*old(data)),
            Self::tokens_ok(tokens@),
            k >= 1,
        ensures
            self.fits(*final(data)),
            is_topk(self.spec_scores(tokens@, postings_budget as int), r.topk@, k as int),
            r.qid == (match query_id {
                Some(q) => q,
                None => 0,
            }),
            r.took_us == 0,
    {
        proof {
            use_type_invariant(&*self);
        }
        let _total = self.determine_impact_segments(data, tokens);
        process_impact_segments::<C>(self.list_data.as_slice(), data, postings_budget);
        let topk = determine_topk_chunks(&data.accumulators, &data.chunk, k);
        let qid = match query_id {
            Some(q) => q,
            None => 0,
        };
        Results { topk, took_us: 0, qid }
    }

    /// Runs one query with a fresh scratch sized for this index.
    ///
    /// The result holds the top `k` docs under the postings budget: scores
    /// are the saturating sums of the effective impacts of the processed
    /// segments covering each doc, and hits come best first, ties broken
    /// toward the lower doc id.
    pub fn query_fixed(
        &self,
        tokens: &[Term],
        postings_budget: i64,
        query_id: Option<usize>,
        k: usize,
    ) -> (r: Results)
        requires
            Self::tokens_ok(tokens@),
            k >= 1,
        ensures
            is_topk(self.spec_scores(tokens@, postings_budget as int), r.topk@, k as int),
            r.qid == (match query_id {
                Some(q) => q,
                None => 0,
            }),
    {
        proof {
            use_type_invariant(&*self);
        }
        let mut scratch = Scratch::from_index(self.max_level, self.max_term_weight, self.max_doc_id);
        self.query_fixed_with(&mut scratch, tokens, postings_budget, query_id, k)
    }

    /// Runs one query under a fractional budget `rho_num / rho_den` of the
    /// query's total posting volume, with a caller-supplied scratch.
    pub fn query_fraction_with(
        &self,
        data: &mut Scratch,
        tokens: &[Term],
        rho_num: u32,
        rho_den: u32,
        query_id: Option<usize>,
        k: usize,
    ) -> (r: Results)
        requires
            self.fits(*old(data)),
            Self::tokens_ok(tokens@),
            k >= 1,
            1 <= rho_den,
            rho_num <= rho_den,
        ensures
            self.fits(*final(data)),
            is_topk(
                self.spec_scores(
                    tokens@,
                    frac_budget(
                        tokens_total(self.spec_vocab(), tokens@, tokens@.len() as int),
                        rho_num as int,
                        rho_den as int,
                    ),
                ),
                r.topk@,
                k as int,
            ),
            r.qid == (match query_id {
                Some(q) => q,
                None => 0,
            }),
            r.took_us == 0,
    {
        proof {
            use_type_invariant(&*self);
        }
        let total = self.determine_impact_segments(data, tokens);
        proof {
            assert((total as int * rho_num as int) <= 0xffff_ffff_ffff_ffff * 0xffff_ffff)
                by (nonlinear_arith)
                requires
                    0 <= total <= 0xffff_ffff_ffff_ffff,
                    0 <= rho_num <= 0xffff_ffff,
            ;
        }
        let b_wide: u128 = (total as u128 * rho_num as u128 + (rho_den - 1) as u128)
            / rho_den as u128;
        proof {
            assert((total as int * rho_num as int + rho_den - 1) / rho_den as int <= total as int)
                by (nonlinear_arith)
                requires
                    0 <= total,
                    0 <= rho_num <= rho_den,
                    1 <= rho_den,
            ;
            assert(total <= 0x10_0000_0000_0000u64) by {
                assert(tokens@.len() <= 1_000_000);
            }
        }
        let postings_budget: i64 = b_wide as i64;
        process_impact_segments::<C>(self.list_data.as_slice(), data, postings_budget);
        let topk = determine_topk_chunks(&data.accumulators, &data.chunk, k);
        let qid = match query_id {
            Some(q) => q,
            None => 0,
        };
        Results { topk, took_us: 0, qid }
    }

    /// Runs one fractional-budget query with a fresh scratch.
    pub fn query_fraction(
        &self,
        tokens: &[Term],
        rho_num: u32,
        rho_den: u32,
        query_id: Option<usize>,
        k: usize,
    ) -> (r: Results)
        requires
            Self::tokens_ok(tokens@),
            k >= 1,
            1 <= rho_den,
            rho_num <= rho_den,
        ensures
            is_topk(
                self.spec_scores(
                    tokens@,
                    frac_budget(
                        tokens_total(self.spec_vocab(), tokens@, tokens@.len() as int),
                        rho_num as int,
                        rho_den as int,
                    ),
                ),
                r.topk@,
                k as int,
            ),
            r.qid == (match query_id {
                Some(q) => q,
                None => 0,
            }),
    {
        proof {
            use_type_invariant(&*self);
        }
        let mut scratch = Scratch::from_index(self.max_level, self.max_term_weight, self.max_doc_id);
        self.query_fraction_with(&mut scratch, tokens, rho_num, rho_den, query_id, k)
    }

    /// Exercises the selection and processing paths without spending any
    /// postings budget; used to warm caches before measured runs.
    pub fn query_warmup(&self, tokens: &[Term])
        requires
            Self::tokens_ok(tokens@),
    {
        let _ = self.query_fixed(tokens, 0, None, 1);
    }
}


/// Some stored segment of the list carries impact `imp`.
pub open spec fn impact_covered(metas: Seq<MetaData>, imp: u16) -> bool {
    exists|k: int| 0 <= k < metas.len() && (#[trigger] metas[k]).impact == imp
}

/// Some bucket of `r` carries impact `imp`.
pub open spec fn has_impact(r: Seq<(u16, Vec<u32>)>, imp: u16) -> bool {
    exists|k: int| 0 <= k < r.len() && (#[trigger] r[k]).0 == imp
}

/// Every doc id in `docs_with` is one of the postings' doc ids.
proof fn lemma_docs_with_member(ps: Seq<(u32, u16)>, imp: u16, x: int)
    requires
        0 <= x < docs_with(ps, imp).len(),
    ensures
        exists|j: int| 0 <= j < ps.len() && (#[trigger] ps[j]).0 == docs_with(ps, imp)[x] && ps[
            j
        ].1 == imp,
    decreases ps.len(),
{
    if ps.len() > 0 {
        if ps[0].1 == imp {
            if x == 0 {
                assert(ps[0].0 == docs_with(ps, imp)[0] && ps[0].1 == imp);
            } else {
                lemma_docs_with_member(ps.skip(1), imp, x - 1);
                let j = choose|j: int|
                    0 <= j < ps.skip(1).len() && (#[trigger] ps.skip(1)[j]).0 == docs_with(
                        ps.skip(1),
                        imp,
                    )[x - 1] && ps.skip(1)[j].1 == imp;
                assert(ps[j + 1].0 == docs_with(ps, imp)[x] && ps[j + 1].1 == imp);
            }
        } else {
            lemma_docs_with_member(ps.skip(1), imp, x);
            let j = choose|j: int|
                0 <= j < ps.skip(1).len() && (#[trigger] ps.skip(1)[j]).0 == docs_with(
                    ps.skip(1),
                    imp,
                )[x] && ps.skip(1)[j].1 == imp;
            assert(ps[j + 1].0 == docs_with(ps, imp)[x] && ps[j + 1].1 == imp);
        }
    }
}

/// Appending one posting extends exactly its impact's doc run.
proof fn lemma_docs_with_push(ps: Seq<(u32, u16)>, q: (u32, u16))
    ensures
        forall|imp: u16|
            #[trigger] docs_with(ps.push(q), imp) == docs_with(ps, imp) + (if q.1 == imp {
                seq![q.0]
            } else {
                Seq::<u32>::empty()
            }),
    decreases ps.len(),
{
    if ps.len() == 0 {
        assert forall|imp: u16|
            #[trigger] docs_with(ps.push(q), imp) == docs_with(ps, imp) + (if q.1 == imp {
                seq![q.0]
            } else {
                Seq::<u32>::empty()
            }) by {
            assert(ps.push(q)[0] == q);
            assert(ps.push(q).skip(1) =~= Seq::<(u32, u16)>::empty());
            assert(docs_with(Seq::<(u32, u16)>::empty(), imp) =~= Seq::<u32>::empty());
            if q.1 == imp {
                assert(docs_with(ps.push(q), imp) =~= seq![q.0]);
                assert(docs_with(ps, imp) + seq![q.0] =~= seq![q.0]);
            } else {
                assert(docs_with(ps.push(q), imp) =~= Seq::<u32>::empty());
                assert(docs_with(ps, imp) + Seq::<u32>::empty() =~= Seq::<u32>::empty());
            }
        }
    } else {
        lemma_docs_with_push(ps.skip(1), q);
        assert forall|imp: u16|
            #[trigger] docs_with(ps.push(q), imp) == docs_with(ps, imp) + (if q.1 == imp {
                seq![q.0]
            } else {
                Seq::<u32>::empty()
            }) by {
            assert(ps.push(q)[0] == ps[0]);
            assert(ps.push(q).skip(1) =~= ps.skip(1).push(q));
            assert(docs_with(ps.skip(1).push(q), imp) == docs_with(ps.skip(1), imp) + (if q.1
                == imp {
                seq![q.0]
            } else {
                Seq::<u32>::empty()
            }));
            let head: Seq<u32> = if ps[0].1 == imp {
                seq![ps[0].0]
            } else {
                Seq::empty()
            };
            assert(head + (docs_with(ps.skip(1), imp) + (if q.1 == imp {
                seq![q.0]
            } else {
                Seq::<u32>::empty()
            })) =~= (head + docs_with(ps.skip(1), imp)) + (if q.1 == imp {
                seq![q.0]
            } else {
                Seq::<u32>::empty()
            }));
        }
    }
}

/// Total doc count of the first `k` buckets.
pub open spec fn bucket_lens_sum(bs: Seq<(u16, Vec<u32>)>, k: int) -> int
    decreases k,
{
    if k <= 0 {
        0
    } else {
        bucket_lens_sum(bs, k - 1) + bs[k - 1].1@.len()
    }
}

/// Growing one bucket's docs grows the total by the same amount.
proof fn lemma_bucket_sum_update(a: Seq<(u16, Vec<u32>)>, b: Seq<(u16, Vec<u32>)>, k: int, n: int)
    requires
        a.len() == b.len(),
        0 <= k < a.len(),
        forall|x: int| 0 <= x < a.len() && x != k ==> a[x] == b[x],
        0 <= n <= a.len(),
    ensures
        k < n ==> bucket_lens_sum(b, n) == bucket_lens_sum(a, n) - a[k].1@.len() + b[k].1@.len(),
        k >= n ==> bucket_lens_sum(b, n) == bucket_lens_sum(a, n),
    decreases n,
{
    if n > 0 {
        lemma_bucket_sum_update(a, b, k, n - 1);
    }
}

/// Inserting a bucket adds its doc count to the total.
proof fn lemma_bucket_sum_insert(
    a: Seq<(u16, Vec<u32>)>,
    b: Seq<(u16, Vec<u32>)>,
    k: int,
    e: (u16, Vec<u32>),
    n: int,
)
    requires
        0 <= k <= a.len(),
        b == a.insert(k, e),
        0 <= n <= b.len(),
    ensures
        n <= k ==> bucket_lens_sum(b, n) == bucket_lens_sum(a, n),
        n > k ==> bucket_lens_sum(b, n) == bucket_lens_sum(a, n - 1) + e.1@.len(),
    decreases n,
{
    if n > 0 {
        lemma_bucket_sum_insert(a, b, k, e, n - 1);
        if n - 1 < k {
            assert(b[n - 1] == a[n - 1]);
        } else if n - 1 == k {
            assert(b[n - 1] == e);
        } else {
            assert(b[n - 1] == a[n - 2]);
        }
    }
}

/// Groups one term's postings into per-impact doc runs, impacts strictly
/// descending, each run in posting order.
fn group_by_impact(ps: &Vec<(u32, u16)>) -> (r: Vec<(u16, Vec<u32>)>)
    requires
        forall|a: int, b: int|
            0 <= a < b < ps@.len() ==> (#[trigger] ps@[a]).0 < (#[trigger] ps@[b]).0,
    ensures
        forall|a: int, b: int| 0 <= a < b < r@.len() ==> (#[trigger] r@[b]).0 < (#[trigger] r@[a]).0,
        forall|k: int| 0 <= k < r@.len() ==> (#[trigger] r@[k]).1@ == docs_with(ps@, r@[k].0),
        forall|k: int| 0 <= k < r@.len() ==> (#[trigger] r@[k]).1@.len() > 0,
        forall|k: int| 0 <= k < r@.len() ==> strict_from(0, (#[trigger] r@[k]).1@),
        forall|a: int| 0 <= a < ps@.len() ==> has_impact(r@, (#[trigger] ps@[a]).1),
        r@.len() <= ps@.len(),
        bucket_lens_sum(r@, r@.len() as int) == ps@.len(),
    {
        let mut r: Vec<(u16, Vec<u32>)> = Vec::new();
        let mut i: usize = 0;
        while i < ps.len()
            invariant
                i <= ps@.len(),
                forall|a: int, b: int|
                    0 <= a < b < ps@.len() ==> (#[trigger] ps@[a]).0 < (#[trigger] ps@[b]).0,
                forall|a: int, b: int|
                    0 <= a < b < r@.len() ==> (#[trigger] r@[b]).0 < (#[trigger] r@[a]).0,
                forall|k: int|
                    0 <= k < r@.len() ==> (#[trigger] r@[k]).1@ == docs_with(
                        ps@.take(i as int),
                        r@[k].0,
                    ),
                forall|k: int| 0 <= k < r@.len() ==> (#[trigger] r@[k]).1@.len() > 0,
                forall|k: int| 0 <= k < r@.len() ==> strict_from(0, (#[trigger] r@[k]).1@),
                forall|a: int| 0 <= a < i ==> has_impact(r@, (#[trigger] ps@[a]).1),
                r@.len() <= i,
                bucket_lens_sum(r@, r@.len() as int) == i,
            decreases ps@.len() - i,
        {
            let pair = ps[i];
            let doc = pair.0;
            let imp = pair.1;
            proof {
                assert(ps@.take(i as int + 1) =~= ps@.take(i as int).push(ps@[i as int]));
                lemma_docs_with_push(ps@.take(i as int), ps@[i as int]);
            }
            // find the impact's bucket in the descending order
            let mut k: usize = 0;
            let mut found = false;
            let ghost r_pre = r@;
            while k < r.len()
                invariant_except_break
                    !found,
                invariant
                    k <= r@.len(),
                    r@ == r_pre,
                    forall|a: int, b: int|
                        0 <= a < b < r@.len() ==> (#[trigger] r@[b]).0 < (#[trigger] r@[a]).0,
                    forall|x: int| 0 <= x < k ==> (#[trigger] r@[x]).0 > imp,
                ensures
                    r@ == r_pre,
                    k <= r@.len(),
                    forall|x: int| 0 <= x < k ==> (#[trigger] r@[x]).0 > imp,
                    found ==> k < r@.len() && r@[k as int].0 == imp,
                    !found ==> (k == r@.len() || r@[k as int].0 < imp),
                decreases r@.len() - k,
            {
                let cur = r[k].0;
                if cur == imp {
                    found = true;
                    break ;
                }
                if cur < imp {
                    break ;
                }
                k = k + 1;
            }
            if found {
                let entry = vstd::std_specs::vec::vec_index_mut(&mut r, k);
                proof {
                    assert(entry.1@ == docs_with(ps@.take(i as int), imp));
                    if entry.1@.len() > 0 {
                        let last_x = entry.1@.len() - 1;
                        lemma_docs_with_member(ps@.take(i as int), imp, last_x);
                    }
                    assert forall|x: int| 0 <= x < entry.1@.len() implies entry.1@[x] < doc by {
                        lemma_docs_with_member(ps@.take(i as int), imp, x);
                    }
                }
                entry.1.push(doc);
                proof {
                    assert(entry.1@ =~= docs_with(ps@.take(i as int + 1), imp));
                    lemma_bucket_sum_update(r_pre, r@, k as int, r@.len() as int);
                }
            } else {
                let mut fresh_docs: Vec<u32> = Vec::new();
                fresh_docs.push(doc);
                let fresh = (imp, fresh_docs);
                proof {
                    assert(docs_with(ps@.take(i as int), imp) =~= Seq::<u32>::empty()) by {
                        if docs_with(ps@.take(i as int), imp).len() > 0 {
                            lemma_docs_with_member(ps@.take(i as int), imp, 0);
                            let j = choose|j: int|
                                0 <= j < ps@.take(i as int).len() && (#[trigger] ps@.take(
                                    i as int,
                                )[j]).0 == docs_with(ps@.take(i as int), imp)[0] && ps@.take(
                                    i as int,
                                )[j].1 == imp;
                            if j < k {
                            }
                            assert(false) by {
                                assert(has_impact(r_pre, imp)) by {
                                    assert(ps@[j].1 == imp);
                                    assert(has_impact(r_pre, ps@[j].1));
                                }
                                let x0 = choose|x: int|
                                    0 <= x < r_pre.len() && (#[trigger] r_pre[x]).0 == imp;
                                if x0 < k {
                                    assert(r_pre[x0].0 > imp);
                                } else if x0 > k {
                                    assert(r_pre[x0].0 < r_pre[k as int].0);
                                    assert(r_pre[k as int].0 < imp);
                                } else {
                                    assert(k < r_pre.len() ==> r_pre[k as int].0 < imp);
                                    assert(k == x0 && x0 < r_pre.len());
                                }
                            }
                        }
                    }
                }
                let ghost before = r@;
                r.insert(k, fresh);
                proof {
                    lemma_bucket_sum_insert(before, r@, k as int, fresh, r@.len() as int);
                    assert(fresh.1@.len() == 1);
                    assert forall|a: int, b: int|
                        0 <= a < b < r@.len() implies (#[trigger] r@[b]).0 < (
                    #[trigger] r@[a]).0 by {
                        if b == k {
                            assert(r@[a] == before[a] && before[a].0 > imp);
                        } else if a == k {
                            assert(r@[b] == before[b - 1]);
                            if b - 1 == k {
                                assert(before[k as int].0 < imp);
                            } else {
                                assert(before[b - 1].0 < before[k as int].0);
                                assert(before[k as int].0 < imp);
                            }
                        } else if a < k && b > k {
                            assert(r@[a] == before[a] && r@[b] == before[b - 1]);
                            if b - 1 == a {
                                assert(before[a].0 > imp && (b - 1 == k || before[b - 1].0 < imp));
                            } else {
                                assert(before[b - 1].0 < before[a].0);
                            }
                        } else if b < k {
                            assert(r@[a] == before[a] && r@[b] == before[b]);
                        } else {
                            assert(r@[a] == before[a - 1] && r@[b] == before[b - 1]);
                        }
                    }
                    assert forall|kk: int|
                        0 <= kk < r@.len() implies (#[trigger] r@[kk]).1@ == docs_with(
                        ps@.take(i as int + 1),
                        r@[kk].0,
                    ) by {
                        if kk == k {
                            assert(r@[kk].1@ =~= Seq::<u32>::empty().push(doc));
                            assert(docs_with(ps@.take(i as int), imp) + seq![doc] =~= Seq::<
                                u32,
                            >::empty().push(doc));
                        } else {
                            let kk_old: int = if kk < k {
                                kk
                            } else {
                                kk - 1
                            };
                            assert(r@[kk] == before[kk_old]);
                            assert(r@[kk].0 != imp) by {
                                if kk < k {
                                    assert(before[kk].0 > imp);
                                } else {
                                    assert(k < r@.len() - 1 ==> before[k as int].0 < imp);
                                    assert(before[kk - 1].0 <= before[k as int].0 || kk - 1 == k);
                                    assert(before[kk - 1].0 < imp);
                                }
                            }
                            assert(docs_with(ps@.take(i as int), r@[kk].0) + Seq::<u32>::empty()
                                =~= docs_with(ps@.take(i as int), r@[kk].0));
                        }
                    }
                    assert forall|a: int| 0 <= a < i + 1 implies has_impact(
                        r@,
                        (#[trigger] ps@[a]).1,
                    ) by {
                        if a < i {
                            let kk = choose|kk: int|
                                0 <= kk < before.len() && (#[trigger] before[kk]).0 == ps@[a].1;
                            if kk < k {
                                assert(r@[kk].0 == ps@[a].1);
                            } else {
                                assert(r@[kk + 1].0 == ps@[a].1);
                            }
                        } else {
                            assert(r@[k as int].0 == ps@[a].1);
                        }
                    }
                }
            }
            proof {
                if found {
                    assert forall|a: int| 0 <= a < i + 1 implies has_impact(
                        r@,
                        (#[trigger] ps@[a]).1,
                    ) by {
                        if a < i {
                            let kk = choose|kk: int|
                                0 <= kk < r_pre.len() && (#[trigger] r_pre[kk]).0 == ps@[a].1;
                            assert(r@[kk].0 == ps@[a].1);
                        } else {
                            assert(r@[k as int].0 == ps@[a].1);
                        }
                    }
                    assert forall|kk: int|
                        0 <= kk < r@.len() implies (#[trigger] r@[kk]).1@ == docs_with(
                        ps@.take(i as int + 1),
                        r@[kk].0,
                    ) by {
                        if kk != k {
                            assert(r@[kk] == r_pre[kk]);
                            assert(r@[kk].0 != imp) by {
                                if kk < k {
                                    assert(r_pre[kk].0 > imp);
                                } else {
                                    assert(r_pre[kk].0 < r_pre[k as int].0);
                                }
                            }
                            assert(docs_with(ps@.take(i as int), r@[kk].0) + Seq::<u32>::empty()
                                =~= docs_with(ps@.take(i as int), r@[kk].0));
                        }
                    }
                }
            }
            i = i + 1;
        }
        proof {
            assert(ps@.take(ps@.len() as int) =~= ps@);
        }
        r
    }


/// What one term's postings must look like: strictly increasing doc ids
/// inside the document map, impacts small enough to weight, and a length
/// the encoder accepts.
pub open spec fn plist_ok(ps: Seq<(u32, u16)>, n_docs: int) -> bool {
    &&& ps.len() <= 400_000_000
    &&& forall|a: int, b: int|
        0 <= a < b < ps.len() ==> (#[trigger] ps[a]).0 < (#[trigger] ps[b]).0
    &&& forall|a: int| 0 <= a < ps.len() ==> (#[trigger] ps[a]).0 < n_docs
    &&& forall|a: int| 0 <= a < ps.len() ==> (#[trigger] ps[a]).1 * MAX_TERM_WEIGHT <= u16::MAX
}

/// What the builder accepts: a document map that doc ids can address,
/// distinct terms, and sound postings per term.
pub open spec fn input_ok(docmap: Seq<String>, postings: Seq<(String, Vec<(u32, u16)>)>) -> bool {
    &&& 0 < docmap.len() <= u32::MAX
    &&& docmap.len() + CHUNK_SIZE + 1 <= usize::MAX
    &&& forall|i: int, j: int|
        0 <= i < j < postings.len() ==> (#[trigger] postings[i]).0@ != (#[trigger] postings[j]).0@
    &&& forall|i: int|
        0 <= i < postings.len() ==> plist_ok((#[trigger] postings[i]).1@, docmap.len() as int)
}

/// Input sizes under which the builder owes success: few enough lists, at
/// most 65,535 postings per term, and 64-bit addressing.
pub open spec fn input_small(postings: Seq<(String, Vec<(u32, u16)>)>) -> bool {
    &&& postings.len() <= 1_000_000
    &&& forall|i: int| 0 <= i < postings.len() ==> (#[trigger] postings[i]).1@.len() <= 65_535
    &&& usize::MAX >= 0x7fff_ffff_ffff_ffff
}

/// Total posting count of the first `k` lists.
pub open spec fn posts_total(postings: Seq<(String, Vec<(u32, u16)>)>, k: int) -> int
    decreases k,
{
    if k <= 0 {
        0
    } else {
        posts_total(postings, k - 1) + postings[k - 1].1@.len()
    }
}

/// Small per-term lists bound the collection total linearly.
proof fn lemma_posts_total_bound(postings: Seq<(String, Vec<(u32, u16)>)>, k: int, cap: int)
    requires
        0 <= k <= postings.len(),
        forall|i: int| 0 <= i < postings.len() ==> (#[trigger] postings[i]).1@.len() <= cap,
        0 <= cap,
    ensures
        0 <= posts_total(postings, k) <= k * cap,
    decreases k,
{
    if k > 0 {
        lemma_posts_total_bound(postings, k - 1, cap);
        assert(k * cap == (k - 1) * cap + cap) by (nonlinear_arith);
    }
}

/// Checks one term's postings against `plist_ok`.
fn check_plist(ps: &Vec<(u32, u16)>, n_docs: usize) -> (r: Option<IndexError>)
    ensures
        r is None <==> plist_ok(ps@, n_docs as int),
        r matches Some(e) ==> (e == IndexError::TooLarge || e == IndexError::DocIdOutOfRange || e
            == IndexError::PostingsNotIncreasing || e == IndexError::ImpactOverflow),
{
    if ps.len() > 400_000_000 {
        return Some(IndexError::TooLarge);
    }
    let mut a: usize = 0;
    while a < ps.len()
        invariant
            a <= ps@.len(),
            forall|x: int, y: int|
                0 <= x < y < a ==> (#[trigger] ps@[x]).0 < (#[trigger] ps@[y]).0,
            forall|x: int| 0 <= x < a ==> (#[trigger] ps@[x]).0 < n_docs,
            forall|x: int| 0 <= x < a ==> (#[trigger] ps@[x]).1 * MAX_TERM_WEIGHT <= u16::MAX,
        decreases ps@.len() - a,
    {
        let pair = ps[a];
        if pair.0 as usize >= n_docs {
            return Some(IndexError::DocIdOutOfRange);
        }
        if pair.1 as usize * MAX_TERM_WEIGHT > 65535 {
            return Some(IndexError::ImpactOverflow);
        }
        if a > 0 {
            let prev = ps[a - 1];
            if prev.0 >= pair.0 {
                return Some(IndexError::PostingsNotIncreasing);
            }
        }
        proof {
            assert forall|x: int, y: int|
                0 <= x < y < a + 1 implies (#[trigger] ps@[x]).0 < (#[trigger] ps@[y]).0 by {
                if y == a && x < a - 1 {
                    assert(ps@[x].0 < ps@[a - 1].0);
                }
            }
        }
        a = a + 1;
    }
    None
}

/// The docs of one impact never outnumber the postings.
proof fn lemma_docs_with_len(ps: Seq<(u32, u16)>, imp: u16)
    ensures
        docs_with(ps, imp).len() <= ps.len(),
    decreases ps.len(),
{
    if ps.len() > 0 {
        lemma_docs_with_len(ps.skip(1), imp);
    }
}

/// A sound list stays sound when the blob grows past it.
proof fn lemma_list_sound_prefix<C: Compressor>(
    metas: Seq<MetaData>,
    start: int,
    blob1: Seq<u8>,
    blob2: Seq<u8>,
    n_docs: int,
    max1: int,
    max2: int,
)
    requires
        list_sound::<C>(metas, start, blob1, n_docs, max1),
        blob2.take(blob1.len() as int) == blob1,
        blob1.len() <= blob2.len(),
        max1 <= max2,
    ensures
        list_sound::<C>(metas, start, blob2, n_docs, max2),
{
    assert forall|k: int| 0 <= k < metas.len() implies seg_sound::<C>(
        metas,
        k,
        start,
        blob2,
        n_docs,
    ) by {
        assert(seg_sound::<C>(metas, k, start, blob1, n_docs));
        lemma_seg_off_mono(metas, 0, k);
        lemma_seg_off_mono(metas, k + 1, metas.len() as int);
        crate::svbyte::lemma_subrange_prefix(
            blob1,
            blob2,
            start + seg_off(metas, k),
            start + seg_off(metas, k + 1),
        );
        assert(blob2.subrange(start + seg_off(metas, k), start + seg_off(metas, k + 1))
            == blob1.subrange(start + seg_off(metas, k), start + seg_off(metas, k + 1)));
    }
}


/// The lists already built keep their soundness, decode facts and impact
/// coverage when the blob grows and the maximum level rises.
proof fn lemma_lists_preserved<C: Compressor>(
    vocab_pre: Seq<(String, List)>,
    postings: Seq<(String, Vec<(u32, u16)>)>,
    blob_pre: Seq<u8>,
    blob_new: Seq<u8>,
    li: int,
    n_docs: int,
    max_pre: int,
    max_new: int,
)
    requires
        vocab_pre.len() == li <= postings.len(),
        blob_new.take(blob_pre.len() as int) == blob_pre,
        blob_pre.len() <= blob_new.len(),
        max_pre <= max_new,
        forall|x: int|
            0 <= x < li ==> list_sound::<C>(
                (#[trigger] vocab_pre[x]).1.impacts@,
                vocab_pre[x].1.start_byte_offset as int,
                blob_pre,
                n_docs,
                max_pre,
            ),
        forall|x: int, k: int|
            #![trigger vocab_pre[x].1.impacts@[k]]
            0 <= x < li && 0 <= k < vocab_pre[x].1.impacts@.len() ==> ({
                let metas = vocab_pre[x].1.impacts@;
                let st = vocab_pre[x].1.start_byte_offset as int;
                spec_decode_segment::<C>(
                    0,
                    metas[k].count as int,
                    blob_pre.subrange(st + seg_off(metas, k), st + seg_off(metas, k + 1)),
                ) == Some(docs_with(postings[x].1@, metas[k].impact))
            }),
    ensures
        forall|x: int|
            0 <= x < li ==> list_sound::<C>(
                (#[trigger] vocab_pre[x]).1.impacts@,
                vocab_pre[x].1.start_byte_offset as int,
                blob_new,
                n_docs,
                max_new,
            ),
        forall|x: int, k: int|
            #![trigger vocab_pre[x].1.impacts@[k]]
            0 <= x < li && 0 <= k < vocab_pre[x].1.impacts@.len() ==> ({
                let metas = vocab_pre[x].1.impacts@;
                let st = vocab_pre[x].1.start_byte_offset as int;
                spec_decode_segment::<C>(
                    0,
                    metas[k].count as int,
                    blob_new.subrange(st + seg_off(metas, k), st + seg_off(metas, k + 1)),
                ) == Some(docs_with(postings[x].1@, metas[k].impact))
            }),
{
    assert forall|x: int| 0 <= x < li implies list_sound::<C>(
        (#[trigger] vocab_pre[x]).1.impacts@,
        vocab_pre[x].1.start_byte_offset as int,
        blob_new,
        n_docs,
        max_new,
    ) by {
        lemma_list_sound_prefix::<C>(
            vocab_pre[x].1.impacts@,
            vocab_pre[x].1.start_byte_offset as int,
            blob_pre,
            blob_new,
            n_docs,
            max_pre,
            max_new,
        );
    }
    assert forall|x: int, k: int|
        #![trigger vocab_pre[x].1.impacts@[k]]
        0 <= x < li && 0 <= k < vocab_pre[x].1.impacts@.len() implies ({
        let metas = vocab_pre[x].1.impacts@;
        let st = vocab_pre[x].1.start_byte_offset as int;
        spec_decode_segment::<C>(
            0,
            metas[k].count as int,
            blob_new.subrange(st + seg_off(metas, k), st + seg_off(metas, k + 1)),
        ) == Some(docs_with(postings[x].1@, metas[k].impact))
    }) by {
        let metas = vocab_pre[x].1.impacts@;
        let st = vocab_pre[x].1.start_byte_offset as int;
        lemma_seg_off_mono(metas, 0, k);
        lemma_seg_off_mono(metas, k + 1, metas.len() as int);
        assert(list_sound::<C>(metas, st, blob_pre, n_docs, max_pre));
        crate::svbyte::lemma_subrange_prefix(
            blob_pre,
            blob_new,
            st + seg_off(metas, k),
            st + seg_off(metas, k + 1),
        );
        assert(blob_new.subrange(st + seg_off(metas, k), st + seg_off(metas, k + 1))
            == blob_pre.subrange(st + seg_off(metas, k), st + seg_off(metas, k + 1)));
    }
}

/// The freshly encoded list is sound over the extended blob, its segments
/// decode to their impact's doc runs, and every posting's impact has a
/// segment.
proof fn lemma_new_list_sound<C: Compressor>(
    list: List,
    buckets: Seq<(u16, Vec<u32>)>,
    ps: Seq<(u32, u16)>,
    blob_pre: Seq<u8>,
    data_s: Seq<u8>,
    blob_new: Seq<u8>,
    n_docs: int,
    max_new: int,
)
    requires
        blob_new == blob_pre + data_s,
        list.start_byte_offset == blob_pre.len(),
        list.impacts@.len() == buckets.len() <= 65_535,
        forall|k: int|
            0 <= k < buckets.len() ==> (#[trigger] list.impacts@[k]).impact == buckets[k].0
                && list.impacts@[k].count == buckets[k].1@.len(),
        data_s.len() == seg_off(list.impacts@, buckets.len() as int),
        forall|k: int|
            0 <= k < buckets.len() ==> spec_decode_segment::<C>(
                0,
                buckets[k].1@.len() as int,
                #[trigger] data_s.subrange(
                    seg_off(list.impacts@, k),
                    seg_off(list.impacts@, k + 1),
                ),
            ) == Some(buckets[k].1@),
        forall|a: int, b: int|
            0 <= a < b < buckets.len() ==> (#[trigger] buckets[b]).0 < (#[trigger] buckets[a]).0,
        forall|k: int|
            0 <= k < buckets.len() ==> (#[trigger] buckets[k]).1@ == docs_with(ps, buckets[k].0),
        forall|k: int| 0 <= k < buckets.len() ==> (#[trigger] buckets[k]).1@.len() > 0,
        forall|k: int| 0 <= k < buckets.len() ==> strict_from(0, (#[trigger] buckets[k]).1@),
        forall|a: int| 0 <= a < ps.len() ==> has_impact(buckets, (#[trigger] ps[a]).1),
        plist_ok(ps, n_docs),
        metas_count_upto(list.impacts@, list.impacts@.len() as int) <= u32::MAX,
        forall|k: int| 0 <= k < list.impacts@.len() ==> (#[trigger] list.impacts@[k]).impact <= max_new,
    ensures
        list_sound::<C>(
            list.impacts@,
            list.start_byte_offset as int,
            blob_new,
            n_docs,
            max_new,
        ),
        forall|k: int|
            #![trigger list.impacts@[k]]
            0 <= k < list.impacts@.len() ==> spec_decode_segment::<C>(
                0,
                list.impacts@[k].count as int,
                blob_new.subrange(
                    list.start_byte_offset + seg_off(list.impacts@, k),
                    list.start_byte_offset + seg_off(list.impacts@, k + 1),
                ),
            ) == Some(docs_with(ps, list.impacts@[k].impact)),
        forall|a: int|
            0 <= a < ps.len() ==> impact_covered(list.impacts@, (#[trigger] ps[a]).1),
{
    let metas = list.impacts@;
    let off = list.start_byte_offset as int;
    assert forall|k: int|
        #![trigger list.impacts@[k]]
        0 <= k < metas.len() implies spec_decode_segment::<C>(
        0,
        metas[k].count as int,
        blob_new.subrange(off + seg_off(metas, k), off + seg_off(metas, k + 1)),
    ) == Some(docs_with(ps, metas[k].impact)) by {
        lemma_seg_off_mono(metas, 0, k);
        lemma_seg_off_mono(metas, k + 1, metas.len() as int);
        crate::svbyte::lemma_subrange_concat(
            blob_pre,
            data_s,
            seg_off(metas, k),
            seg_off(metas, k + 1),
        );
        assert(blob_new.subrange(off + seg_off(metas, k), off + seg_off(metas, k + 1))
            == data_s.subrange(seg_off(metas, k), seg_off(metas, k + 1)));
        assert(spec_decode_segment::<C>(
            0,
            buckets[k].1@.len() as int,
            data_s.subrange(seg_off(metas, k), seg_off(metas, k + 1)),
        ) == Some(buckets[k].1@));
        assert(buckets[k].1@ == docs_with(ps, metas[k].impact));
    }
    assert forall|k: int| 0 <= k < metas.len() implies seg_sound::<C>(
        metas,
        k,
        off,
        blob_new,
        n_docs,
    ) by {
        assert(spec_decode_segment::<C>(
            0,
            metas[k].count as int,
            blob_new.subrange(off + seg_off(metas, k), off + seg_off(metas, k + 1)),
        ) == Some(docs_with(ps, metas[k].impact)));
        assert(docs_with(ps, metas[k].impact) == buckets[k].1@);
        assert forall|jd: int| 0 <= jd < buckets[k].1@.len() implies buckets[k].1@[jd]
            < n_docs by {
            lemma_docs_with_member(ps, buckets[k].0, jd);
        }
        assert(metas[k].count > 0);
    }
    assert forall|k: int, l: int| 0 <= k < l < metas.len() implies (#[trigger] metas[l]).impact < (
    #[trigger] metas[k]).impact by {
        assert(metas[k].impact == buckets[k].0);
        assert(metas[l].impact == buckets[l].0);
        assert(buckets[l].0 < buckets[k].0);
    }
    assert forall|a: int| 0 <= a < ps.len() implies impact_covered(
        metas,
        (#[trigger] ps[a]).1,
    ) by {
        let k0 = choose|k: int| 0 <= k < buckets.len() && (#[trigger] buckets[k]).0 == ps[a].1;
        assert(metas[k0].impact == ps[a].1);
    }
}

/// Everything the builder maintains about the lists built so far: terms
/// copied in order, each list sound over the blob, each segment decoding to
/// its impact's doc run, and every posting's impact covered by a segment.
#[verifier::opaque]
spec fn built_ok<C: Compressor>(
    vocab: Seq<(String, List)>,
    postings: Seq<(String, Vec<(u32, u16)>)>,
    blob: Seq<u8>,
    n_docs: int,
    max_level: int,
    li: int,
) -> bool {
    &&& vocab.len() == li <= postings.len()
    &&& forall|x: int| 0 <= x < li ==> (#[trigger] vocab[x]).0@ == postings[x].0@
    &&& forall|x: int|
        0 <= x < li ==> list_sound::<C>(
            (#[trigger] vocab[x]).1.impacts@,
            vocab[x].1.start_byte_offset as int,
            blob,
            n_docs,
            max_level,
        )
    &&& forall|x: int, k: int|
        #![trigger vocab[x].1.impacts@[k]]
        0 <= x < li && 0 <= k < vocab[x].1.impacts@.len() ==> ({
            let metas = vocab[x].1.impacts@;
            let st = vocab[x].1.start_byte_offset as int;
            spec_decode_segment::<C>(
                0,
                metas[k].count as int,
                blob.subrange(st + seg_off(metas, k), st + seg_off(metas, k + 1)),
            ) == Some(docs_with(postings[x].1@, metas[k].impact))
        })
    &&& forall|x: int, a: int|
        0 <= x < li && 0 <= a < (#[trigger] postings[x]).1@.len() ==> impact_covered(
            vocab[x].1.impacts@,
            (#[trigger] postings[x].1@[a]).1,
        )
    &&& li == 0 ==> blob.len() == 0
    &&& li > 0 ==> vocab[0].1.start_byte_offset == 0
    &&& forall|x: int|
        0 < x < li ==> (#[trigger] vocab[x]).1.start_byte_offset == vocab[x - 1].1.start_byte_offset
            + seg_off(vocab[x - 1].1.impacts@, vocab[x - 1].1.impacts@.len() as int)
    &&& li > 0 ==> blob.len() == vocab[li - 1].1.start_byte_offset + seg_off(
        vocab[li - 1].1.impacts@,
        vocab[li - 1].1.impacts@.len() as int,
    )
}

/// Doc counts bounded per segment bound the list total linearly.
proof fn lemma_metas_count_bound(metas: Seq<MetaData>, n: int, cap: int)
    requires
        0 <= n <= metas.len(),
        forall|k: int| 0 <= k < metas.len() ==> (#[trigger] metas[k]).count <= cap,
        0 <= cap,
    ensures
        metas_count_upto(metas, n) <= n * cap,
    decreases n,
{
    if n > 0 {
        lemma_metas_count_bound(metas, n - 1, cap);
        assert(n * cap == (n - 1) * cap + cap) by (nonlinear_arith);
    }
}

/// Byte lengths bounded per segment bound the list's encoding linearly.
proof fn lemma_seg_off_bound(metas: Seq<MetaData>, n: int, cap: int)
    requires
        0 <= n <= metas.len(),
        forall|k: int| 0 <= k < metas.len() ==> (#[trigger] metas[k]).bytes <= cap,
        0 <= cap,
    ensures
        seg_off(metas, n) <= n * cap,
    decreases n,
{
    if n > 0 {
        lemma_seg_off_bound(metas, n - 1, cap);
        assert(n * cap == (n - 1) * cap + cap) by (nonlinear_arith);
    }
}

/// Segment counts tied to bucket lengths make the list total the bucket
/// total.
proof fn lemma_counts_match_buckets(metas: Seq<MetaData>, buckets: Seq<(u16, Vec<u32>)>, n: int)
    requires
        0 <= n <= metas.len(),
        metas.len() == buckets.len(),
        forall|k: int|
            0 <= k < buckets.len() ==> (#[trigger] metas[k]).count == buckets[k].1@.len(),
    ensures
        metas_count_upto(metas, n) == bucket_lens_sum(buckets, n),
    decreases n,
{
    if n > 0 {
        lemma_counts_match_buckets(metas, buckets, n - 1);
    }
}

/// The distinct impact values stored by one list's segments.
pub open spec fn list_levels(metas: Seq<MetaData>) -> Set<int> {
    Set::new(
        |v: int|
            exists|k: int| 0 <= k < metas.len() && (#[trigger] metas[k]).impact as int == v,
    )
}

/// The distinct impact values stored by the first `n` lists.
pub open spec fn distinct_levels(vocab: Seq<(String, List)>, n: int) -> Set<int> {
    Set::new(
        |v: int|
            exists|x: int, k: int|
                #![trigger vocab[x].1.impacts@[k]]
                0 <= x < n && 0 <= k < vocab[x].1.impacts@.len() && vocab[x].1.impacts@[
                    k
                ].impact as int == v,
    )
}

/// The distinct impact values of the first `k` segments of one list.
pub open spec fn list_levels_upto(metas: Seq<MetaData>, k: int) -> Set<int> {
    Set::new(
        |v: int|
            exists|x: int| 0 <= x < k && x < metas.len() && (#[trigger] metas[x]).impact as int
                == v,
    )
}

/// The impact values marked in the level bitmap.
spec fn bitmap_set(b: Seq<bool>) -> Set<int> {
    Set::new(|v: int| 0 <= v < b.len() && b[v])
}

/// The distinct levels of one more list are the previous levels joined
/// with the new list's.
proof fn lemma_distinct_levels_push(
    vocab_new: Seq<(String, List)>,
    vocab_pre: Seq<(String, List)>,
    list: List,
    li: int,
)
    requires
        0 <= li,
        vocab_new.len() == li + 1,
        forall|x: int| 0 <= x < li ==> (#[trigger] vocab_new[x]) == vocab_pre[x],
        vocab_new[li].1 == list,
    ensures
        distinct_levels(vocab_new, li + 1) =~= distinct_levels(vocab_pre, li).union(
            list_levels(list.impacts@),
        ),
{
    assert forall|v: int|
        distinct_levels(vocab_new, li + 1).contains(v) implies distinct_levels(
        vocab_pre,
        li,
    ).union(list_levels(list.impacts@)).contains(v) by {
        let (x0, k0) = choose|x: int, k: int|
            #![trigger vocab_new[x].1.impacts@[k]]
            0 <= x < li + 1 && 0 <= k < vocab_new[x].1.impacts@.len() && vocab_new[x].1.impacts@[
                k
            ].impact as int == v;
        if x0 < li {
            assert(vocab_pre[x0].1.impacts@[k0].impact as int == v);
            assert(distinct_levels(vocab_pre, li).contains(v));
        } else {
            assert(list.impacts@[k0].impact as int == v);
            assert(list_levels(list.impacts@).contains(v));
        }
    }
    assert forall|v: int|
        distinct_levels(vocab_pre, li).union(list_levels(list.impacts@)).contains(
            v,
        ) implies distinct_levels(vocab_new, li + 1).contains(v) by {
        if distinct_levels(vocab_pre, li).contains(v) {
            let (x0, k0) = choose|x: int, k: int|
                #![trigger vocab_pre[x].1.impacts@[k]]
                0 <= x < li && 0 <= k < vocab_pre[x].1.impacts@.len() && vocab_pre[x].1.impacts@[
                    k
                ].impact as int == v;
            assert(vocab_new[x0].1.impacts@[k0].impact as int == v);
        } else {
            let k0 = choose|k: int|
                0 <= k < list.impacts@.len() && (#[trigger] list.impacts@[k]).impact as int == v;
            assert(vocab_new[li].1.impacts@[k0].impact as int == v);
        }
    }
}

/// Sums a list's doc counts and folds its impacts into the level
/// bookkeeping; `None` when the list holds more docs than a count can say.
fn tally_metas(
    metas: &Vec<MetaData>,
    levels_seen: &mut Vec<bool>,
    max_level: &mut usize,
    num_levels: &mut usize,
) -> (r: Option<u64>)
    requires
        old(levels_seen)@.len() == 65536,
        old(max_level)@ * MAX_TERM_WEIGHT <= u16::MAX,
        old(num_levels)@ == bitmap_set(old(levels_seen)@).len(),
        bitmap_set(old(levels_seen)@).finite(),
        forall|k: int|
            0 <= k < metas@.len() ==> (#[trigger] metas@[k]).impact * MAX_TERM_WEIGHT <= u16::MAX,
    ensures
        final(num_levels)@ == bitmap_set(final(levels_seen)@).len(),
        bitmap_set(final(levels_seen)@).finite(),
        r is Some ==> bitmap_set(final(levels_seen)@) == bitmap_set(old(levels_seen)@).union(
            list_levels(metas@),
        ),
        final(levels_seen)@.len() == 65536,
        final(max_level)@ * MAX_TERM_WEIGHT <= u16::MAX,
        old(max_level)@ <= final(max_level)@,
        final(max_level)@ == old(max_level)@ || exists|k: int|
            0 <= k < metas@.len() && (#[trigger] metas@[k]).impact == final(max_level)@,
        r is Some ==> forall|k: int|
            0 <= k < metas@.len() ==> (#[trigger] metas@[k]).impact <= final(max_level)@,
        r matches Some(total) ==> total == metas_count_upto(metas@, metas@.len() as int) && total
            <= u32::MAX,
        r is None ==> metas_count_upto(metas@, metas@.len() as int) > u32::MAX,
{
    let mut seg_total: u64 = 0;
    let mut k: usize = 0;
    while k < metas.len()
        invariant
            k <= metas@.len(),
            levels_seen@.len() == 65536,
            max_level@ * MAX_TERM_WEIGHT <= u16::MAX,
            old(max_level)@ <= max_level@,
            forall|x: int|
                0 <= x < metas@.len() ==> (#[trigger] metas@[x]).impact * MAX_TERM_WEIGHT
                    <= u16::MAX,
            forall|x: int| 0 <= x < k ==> (#[trigger] metas@[x]).impact <= max_level@,
            max_level@ == old(max_level)@ || exists|x: int|
                0 <= x < metas@.len() && (#[trigger] metas@[x]).impact == max_level@,
            num_levels@ == bitmap_set(levels_seen@).len(),
            bitmap_set(levels_seen@).finite(),
            bitmap_set(levels_seen@) == bitmap_set(old(levels_seen)@).union(
                list_levels_upto(metas@, k as int),
            ),
            seg_total == metas_count_upto(metas@, k as int),
            seg_total <= 0xffff_ffffu64,
        decreases metas@.len() - k,
    {
        let meta = metas[k];
        if seg_total + meta.count as u64 > 0xffff_ffff {
            proof {
                lemma_metas_count_mono(metas@, k as int + 1, metas@.len() as int);
            }
            return None;
        }
        seg_total = seg_total + meta.count as u64;
        if meta.impact as usize > *max_level {
            *max_level = meta.impact as usize;
            proof {
                assert(metas@[k as int].impact == max_level@);
            }
        }
        let lv = meta.impact as usize;
        let seen = levels_seen[lv];
        let ghost bm_pre = bitmap_set(levels_seen@);
        if !seen {
            proof {
                // room for one more: the marked levels sit inside the u16
                // range with `lv` still unmarked
                let full = vstd::set_lib::set_int_range(0, 65536);
                vstd::set_lib::lemma_int_range(0, 65536);
                assert(bm_pre.subset_of(full.remove(lv as int)));
                vstd::set_lib::lemma_len_subset(bm_pre, full.remove(lv as int));
                assert(full.remove(lv as int).len() == full.len() - 1) by {
                    assert(full.contains(lv as int));
                }
            }
            let entry = vstd::std_specs::vec::vec_index_mut(levels_seen, lv);
            *entry = true;
            *num_levels = *num_levels + 1;
            proof {
                assert(bitmap_set(levels_seen@) =~= bm_pre.insert(lv as int));
                assert(!bm_pre.contains(lv as int));
            }
        } else {
            proof {
                assert(bitmap_set(levels_seen@) =~= bm_pre);
                assert(bm_pre.contains(lv as int));
            }
        }
        proof {
            assert(list_levels_upto(metas@, k as int + 1) =~= list_levels_upto(
                metas@,
                k as int,
            ).insert(metas@[k as int].impact as int));
            assert(bitmap_set(levels_seen@) =~= bitmap_set(old(levels_seen)@).union(
                list_levels_upto(metas@, k as int + 1),
            ));
        }
        k = k + 1;
    }
    proof {
        assert(list_levels_upto(metas@, metas@.len() as int) =~= list_levels(metas@));
    }
    Some(seg_total)
}

/// Groups, encodes and appends one term's postings; returns the list
/// metadata and its doc count. The blob only grows; earlier bytes stay.
#[verifier::rlimit(100)]
fn build_one_list<C: Compressor>(
    term_postings: &Vec<(u32, u16)>,
    n_docs: usize,
    blob: &mut Vec<u8>,
    levels_seen: &mut Vec<bool>,
    max_level: &mut usize,
    num_levels: &mut usize,
) -> (r: core::result::Result<(List, u64), IndexError>)
    requires
        old(levels_seen)@.len() == 65536,
        old(max_level)@ * MAX_TERM_WEIGHT <= u16::MAX,
        old(num_levels)@ == bitmap_set(old(levels_seen)@).len(),
        bitmap_set(old(levels_seen)@).finite(),
        0 < n_docs,
    ensures
        final(levels_seen)@.len() == 65536,
        final(max_level)@ * MAX_TERM_WEIGHT <= u16::MAX,
        old(max_level)@ <= final(max_level)@,
        final(num_levels)@ == bitmap_set(final(levels_seen)@).len(),
        bitmap_set(final(levels_seen)@).finite(),
        final(blob)@.take(old(blob)@.len() as int) == old(blob)@,
        old(blob)@.len() <= final(blob)@.len(),
        match r {
            Ok(p) => {
                &&& p.0.start_byte_offset == old(blob)@.len()
                &&& list_sound::<C>(
                    p.0.impacts@,
                    p.0.start_byte_offset as int,
                    final(blob)@,
                    n_docs as int,
                    final(max_level)@ as int,
                )
                &&& forall|k: int|
                    #![trigger p.0.impacts@[k]]
                    0 <= k < p.0.impacts@.len() ==> spec_decode_segment::<C>(
                        0,
                        p.0.impacts@[k].count as int,
                        final(blob)@.subrange(
                            p.0.start_byte_offset + seg_off(p.0.impacts@, k),
                            p.0.start_byte_offset + seg_off(p.0.impacts@, k + 1),
                        ),
                    ) == Some(docs_with(term_postings@, p.0.impacts@[k].impact))
                &&& forall|a: int|
                    0 <= a < term_postings@.len() ==> impact_covered(
                        p.0.impacts@,
                        (#[trigger] term_postings@[a]).1,
                    )
                &&& p.1 <= u32::MAX
                &&& p.1 == term_postings@.len()
                &&& final(blob)@.len() == old(blob)@.len() + seg_off(
                    p.0.impacts@,
                    p.0.impacts@.len() as int,
                )
                &&& term_postings@.len() <= 65_535 ==> final(blob)@.len() <= old(blob)@.len()
                    + 0x8_0000_0000
                &&& (final(max_level)@ == old(max_level)@ || exists|k: int|
                    0 <= k < p.0.impacts@.len() && (#[trigger] p.0.impacts@[k]).impact
                        == final(max_level)@)
                &&& bitmap_set(final(levels_seen)@) == bitmap_set(old(levels_seen)@).union(
                    list_levels(p.0.impacts@),
                )
            },
            Err(e) => ((e == IndexError::TooLarge && (term_postings@.len() > 65_535 || old(
                blob,
            )@.len() + 0x8_0000_0000 > usize::MAX)) || !plist_ok(term_postings@, n_docs as int))
                && final(blob)@ == old(blob)@,
        },
{
    match check_plist(term_postings, n_docs) {
        Some(e) => {
            return Err(e);
        },
        None => {},
    }
    let buckets = group_by_impact(term_postings);
    if buckets.len() > 65_535 {
        proof {
            assert(term_postings@.len() > 65_535);
        }
        return Err(IndexError::TooLarge);
    }
    let ghost ps = term_postings@;
    proof {
        assert forall|k: int|
            0 <= k < buckets@.len() implies strict_from(0, (#[trigger] buckets@[k]).1@)
                && buckets@[k].1@.len() <= 400_000_000 by {
            assert(buckets@[k].1@ == docs_with(ps, buckets@[k].0));
            lemma_docs_with_len(ps, buckets@[k].0);
        }
    }
    let (mut list, mut data) = List::encode::<C>(&buckets);
    proof {
        assert forall|k: int|
            0 <= k < list.impacts@.len() implies (#[trigger] list.impacts@[k]).impact
                * MAX_TERM_WEIGHT <= u16::MAX by {
            assert(list.impacts@[k].impact == buckets@[k].0);
            assert(buckets@[k].1@ == docs_with(ps, buckets@[k].0));
            assert(buckets@[k].1@.len() > 0);
            lemma_docs_with_member(ps, buckets@[k].0, 0);
            let j0 = choose|j: int|
                0 <= j < ps.len() && (#[trigger] ps[j]).0 == docs_with(ps, buckets@[k].0)[0] && ps[
                    j
                ].1 == buckets@[k].0;
            assert(ps[j0].1 * MAX_TERM_WEIGHT <= u16::MAX);
        }
    }
    let tallied = tally_metas(&list.impacts, levels_seen, max_level, num_levels);
    let seg_total: u64 = match tallied {
        None => {
            proof {
                if ps.len() <= 65_535 {
                    assert forall|k: int|
                        0 <= k < list.impacts@.len() implies (#[trigger] list.impacts@[k]).count
                        <= 65_535 by {
                        assert(buckets@[k].1@ == docs_with(ps, buckets@[k].0));
                        lemma_docs_with_len(ps, buckets@[k].0);
                    }
                    lemma_metas_count_bound(list.impacts@, list.impacts@.len() as int, 65_535);
                    assert(list.impacts@.len() * 65_535 <= 65_535 * 65_535)
                        by (nonlinear_arith)
                        requires
                            0 <= list.impacts@.len() <= 65_535,
                    ;
                    assert(false);
                }
            }
            return Err(IndexError::TooLarge);
        },
        Some(t) => t,
    };
    proof {
        if ps.len() <= 65_535 {
            assert forall|k: int|
                0 <= k < list.impacts@.len() implies (#[trigger] list.impacts@[k]).bytes
                <= 327_683 by {
                assert(buckets@[k].1@ == docs_with(ps, buckets@[k].0));
                lemma_docs_with_len(ps, buckets@[k].0);
                assert(list.impacts@[k].bytes <= 5 * buckets@[k].1@.len() + 8);
            }
            lemma_seg_off_bound(list.impacts@, list.impacts@.len() as int, 327_683);
            assert(list.impacts@.len() * 327_683 <= 65_535 * 327_683) by (nonlinear_arith)
                requires
                    0 <= list.impacts@.len() <= 65_535,
            ;
            assert(data@.len() <= 0x8_0000_0000);
        }
    }
    if data.len() > usize::MAX - blob.len() {
        proof {
            if ps.len() <= 65_535 {
                assert(blob@.len() + 0x8_0000_0000 > usize::MAX);
            }
        }
        return Err(IndexError::TooLarge);
    }
    let off = blob.len();
    list.start_byte_offset = off;
    let ghost blob_pre = blob@;
    let ghost data_s = data@;
    blob.append(&mut data);
    proof {
        assert(blob@.take(blob_pre.len() as int) =~= blob_pre);
        assert(blob@ == blob_pre + data_s);
        lemma_counts_match_buckets(list.impacts@, buckets@, list.impacts@.len() as int);
        assert(seg_total == ps.len());
        lemma_new_list_sound::<C>(
            list,
            buckets@,
            ps,
            blob_pre,
            data_s,
            blob@,
            n_docs as int,
            final(max_level)@ as int,
        );
    }
    Ok((list, seg_total))
}



/// Any two stored terms differ.
fn check_distinct_terms(postings: &Vec<(String, Vec<(u32, u16)>)>) -> (r: bool)
    ensures
        r == (forall|x: int, y: int|
            0 <= x < y < postings@.len() ==> (#[trigger] postings@[x]).0@ != (
            #[trigger] postings@[y]).0@),
{
    let m = postings.len();
    let mut i: usize = 0;
    while i < m
        invariant
            i <= m,
            m == postings@.len(),
            forall|x: int, y: int|
                0 <= x < y < i ==> (#[trigger] postings@[x]).0@ != (#[trigger] postings@[y]).0@,
        decreases m - i,
    {
        let mut j: usize = 0;
        while j < i
            invariant
                j <= i < m,
                m == postings@.len(),
                forall|y: int|
                    0 <= y < j ==> (#[trigger] postings@[y]).0@ != postings@[i as int].0@,
            decreases i - j,
        {
            if str_eq(postings[j].0.as_str(), postings[i].0.as_str()) {
                proof {
                    assert(postings@[j as int].0@ == postings@[i as int].0@);
                }
                return false;
            }
            j = j + 1;
        }
        proof {
            assert forall|x: int, y: int|
                0 <= x < y < i + 1 implies (#[trigger] postings@[x]).0@ != (
            #[trigger] postings@[y]).0@ by {
                if y == i {
                    assert(postings@[x].0@ != postings@[i as int].0@);
                }
            }
        }
        i = i + 1;
    }
    true
}

/// What `built_ok` says of the finished index, restated over its public
/// spec views.
#[verifier::rlimit(100)]
proof fn lemma_built_ok_extract<C: Compressor>(
    idx: Index<C>,
    postings: Seq<(String, Vec<(u32, u16)>)>,
)
    requires
        built_ok::<C>(
            idx.vocab@,
            postings,
            idx.list_data@,
            idx.docmap@.len() as int,
            idx.max_level as int,
            postings.len() as int,
        ),
    ensures
        idx.spec_vocab().len() == postings.len(),
        forall|i: int|
            0 <= i < postings.len() ==> (#[trigger] idx.spec_vocab()[i]).0@ == postings[i].0@,
        forall|i: int, k: int|
            #![trigger idx.spec_vocab()[i].1.impacts@[k]]
            0 <= i < postings.len() && 0 <= k < idx.spec_vocab()[i].1.impacts@.len() ==> ({
                let metas = idx.spec_vocab()[i].1.impacts@;
                let st = idx.spec_vocab()[i].1.start_byte_offset as int;
                spec_decode_segment::<C>(
                    0,
                    metas[k].count as int,
                    idx.spec_list_data().subrange(
                        st + seg_off(metas, k),
                        st + seg_off(metas, k + 1),
                    ),
                ) == Some(docs_with(postings[i].1@, metas[k].impact))
            }),
        forall|i: int, a: int|
            0 <= i < postings.len() && 0 <= a < (#[trigger] postings[i]).1@.len()
                ==> impact_covered(
                idx.spec_vocab()[i].1.impacts@,
                (#[trigger] postings[i].1@[a]).1,
            ),
        forall|i: int|
            0 <= i < idx.vocab@.len() ==> list_sound::<C>(
                (#[trigger] idx.vocab@[i]).1.impacts@,
                idx.vocab@[i].1.start_byte_offset as int,
                idx.list_data@,
                idx.docmap@.len() as int,
                idx.max_level as int,
            ),
        postings.len() == 0 ==> idx.spec_list_data().len() == 0,
        postings.len() > 0 ==> idx.spec_vocab()[0].1.start_byte_offset == 0,
        forall|i: int|
            0 < i < postings.len() ==> (#[trigger] idx.spec_vocab()[i]).1.start_byte_offset
                == idx.spec_vocab()[i - 1].1.start_byte_offset + seg_off(
                idx.spec_vocab()[i - 1].1.impacts@,
                idx.spec_vocab()[i - 1].1.impacts@.len() as int,
            ),
        postings.len() > 0 ==> idx.spec_list_data().len() == idx.spec_vocab()[postings.len()
            - 1].1.start_byte_offset + seg_off(
            idx.spec_vocab()[postings.len() - 1].1.impacts@,
            idx.spec_vocab()[postings.len() - 1].1.impacts@.len() as int,
        ),
{
    reveal(built_ok);
    assert forall|i: int|
        0 < i < postings.len() implies (#[trigger] idx.spec_vocab()[i]).1.start_byte_offset
        == idx.spec_vocab()[i - 1].1.start_byte_offset + seg_off(
        idx.spec_vocab()[i - 1].1.impacts@,
        idx.spec_vocab()[i - 1].1.impacts@.len() as int,
    ) by {
        assert(idx.spec_vocab()[i] == idx.vocab@[i]);
        assert(idx.spec_vocab()[i - 1] == idx.vocab@[i - 1]);
    }
    if postings.len() > 0 {
        assert(idx.spec_vocab()[0] == idx.vocab@[0]);
        assert(idx.spec_vocab()[postings.len() - 1] == idx.vocab@[postings.len() - 1]);
    }
    assert forall|i: int, k: int|
        #![trigger idx.spec_vocab()[i].1.impacts@[k]]
        0 <= i < postings.len() && 0 <= k < idx.spec_vocab()[i].1.impacts@.len() implies ({
        let metas = idx.spec_vocab()[i].1.impacts@;
        let st = idx.spec_vocab()[i].1.start_byte_offset as int;
        spec_decode_segment::<C>(
            0,
            metas[k].count as int,
            idx.spec_list_data().subrange(st + seg_off(metas, k), st + seg_off(metas, k + 1)),
        ) == Some(docs_with(postings[i].1@, metas[k].impact))
    }) by {
        assert(idx.spec_vocab()[i].1.impacts@[k] == idx.vocab@[i].1.impacts@[k]);
    }
    assert forall|i: int, a: int|
        0 <= i < postings.len() && 0 <= a < (#[trigger] postings[i]).1@.len() implies impact_covered(
        idx.spec_vocab()[i].1.impacts@,
        (#[trigger] postings[i].1@[a]).1,
    ) by {
        assert(impact_covered(idx.vocab@[i].1.impacts@, postings[i].1@[a].1));
        assert(idx.spec_vocab()[i].1.impacts@ == idx.vocab@[i].1.impacts@);
    }
    assert forall|i: int|
        0 <= i < postings.len() implies (#[trigger] idx.spec_vocab()[i]).0@ == postings[i].0@ by {
        assert(idx.vocab@[i].0@ == postings[i].0@);
    }
}

/// One build step preserves everything built so far and adds the new list.
#[verifier::rlimit(100)]
proof fn lemma_built_ok_step<C: Compressor>(
    vocab_new: Seq<(String, List)>,
    vocab_pre: Seq<(String, List)>,
    postings: Seq<(String, Vec<(u32, u16)>)>,
    blob_pre: Seq<u8>,
    blob_new: Seq<u8>,
    list: List,
    li: int,
    n_docs: int,
    max_pre: int,
    max_new: int,
)
    requires
        built_ok::<C>(vocab_pre, postings, blob_pre, n_docs, max_pre, li),
        0 <= li < postings.len(),
        vocab_new.len() == li + 1,
        forall|x: int| 0 <= x < li ==> (#[trigger] vocab_new[x]) == vocab_pre[x],
        vocab_new[li].1 == list,
        vocab_new[li].0@ == postings[li].0@,
        blob_new.take(blob_pre.len() as int) == blob_pre,
        blob_pre.len() <= blob_new.len(),
        list.start_byte_offset == blob_pre.len(),
        blob_new.len() == blob_pre.len() + seg_off(list.impacts@, list.impacts@.len() as int),
        max_pre <= max_new,
        list_sound::<C>(list.impacts@, list.start_byte_offset as int, blob_new, n_docs, max_new),
        forall|k: int|
            #![trigger list.impacts@[k]]
            0 <= k < list.impacts@.len() ==> spec_decode_segment::<C>(
                0,
                list.impacts@[k].count as int,
                blob_new.subrange(
                    list.start_byte_offset + seg_off(list.impacts@, k),
                    list.start_byte_offset + seg_off(list.impacts@, k + 1),
                ),
            ) == Some(docs_with(postings[li].1@, list.impacts@[k].impact)),
        forall|a: int|
            0 <= a < postings[li].1@.len() ==> impact_covered(
                list.impacts@,
                (#[trigger] postings[li].1@[a]).1,
            ),
    ensures
        built_ok::<C>(vocab_new, postings, blob_new, n_docs, max_new, li + 1),
{
    reveal(built_ok);
    lemma_lists_preserved::<C>(
        vocab_pre,
        postings,
        blob_pre,
        blob_new,
        li,
        n_docs,
        max_pre,
        max_new,
    );
    assert forall|x: int| 0 <= x < li + 1 implies (#[trigger] vocab_new[x]).0@
        == postings[x].0@ by {
        if x < li {
            assert(vocab_new[x] == vocab_pre[x]);
        }
    }
    assert forall|x: int|
        0 <= x < li + 1 implies list_sound::<C>(
        (#[trigger] vocab_new[x]).1.impacts@,
        vocab_new[x].1.start_byte_offset as int,
        blob_new,
        n_docs,
        max_new,
    ) by {
        if x < li {
            assert(vocab_new[x] == vocab_pre[x]);
        }
    }
    assert forall|x: int, k: int|
        #![trigger vocab_new[x].1.impacts@[k]]
        0 <= x < li + 1 && 0 <= k < vocab_new[x].1.impacts@.len() implies ({
        let ms = vocab_new[x].1.impacts@;
        let st = vocab_new[x].1.start_byte_offset as int;
        spec_decode_segment::<C>(
            0,
            ms[k].count as int,
            blob_new.subrange(st + seg_off(ms, k), st + seg_off(ms, k + 1)),
        ) == Some(docs_with(postings[x].1@, ms[k].impact))
    }) by {
        if x < li {
            assert(vocab_new[x] == vocab_pre[x]);
        } else {
            assert(vocab_new[x].1.impacts@[k] == list.impacts@[k]);
        }
    }
    assert forall|x: int, a: int|
        0 <= x < li + 1 && 0 <= a < (#[trigger] postings[x]).1@.len() implies impact_covered(
        vocab_new[x].1.impacts@,
        (#[trigger] postings[x].1@[a]).1,
    ) by {
        if x < li {
            assert(vocab_new[x] == vocab_pre[x]);
            assert(impact_covered(vocab_pre[x].1.impacts@, postings[x].1@[a].1));
        } else {
            assert(impact_covered(list.impacts@, postings[li].1@[a].1));
        }
    }
    if li == 0 {
        assert(blob_pre.len() == 0);
        assert(vocab_new[0].1.start_byte_offset == 0);
    } else {
        assert(vocab_new[0] == vocab_pre[0]);
    }
    assert forall|x: int|
        0 < x < li + 1 implies (#[trigger] vocab_new[x]).1.start_byte_offset == vocab_new[x
        - 1].1.start_byte_offset + seg_off(
        vocab_new[x - 1].1.impacts@,
        vocab_new[x - 1].1.impacts@.len() as int,
    ) by {
        if x < li {
            assert(vocab_new[x] == vocab_pre[x]);
            assert(vocab_new[x - 1] == vocab_pre[x - 1]);
        } else {
            assert(vocab_new[li - 1] == vocab_pre[li - 1]);
            assert(blob_pre.len() == vocab_pre[li - 1].1.start_byte_offset + seg_off(
                vocab_pre[li - 1].1.impacts@,
                vocab_pre[li - 1].1.impacts@.len() as int,
            ));
        }
    }
    assert(blob_new.len() == vocab_new[li].1.start_byte_offset + seg_off(
        vocab_new[li].1.impacts@,
        vocab_new[li].1.impacts@.len() as int,
    ));
}

impl<C: Compressor> Index<C> {
    /// Builds an index from a document map and per-term scored postings:
    /// each term's postings are grouped into impact segments in descending
    /// impact order and encoded into one byte blob.
    ///
    /// On success the document map is kept whole (its length is
    /// `max_doc_id + 1`), the vocabulary keeps the terms in input order,
    /// and each term's segments decode to exactly the doc ids that carry
    /// the segment's impact, so a term's segments partition its posting
    /// set. With sound input, only a collection too large for the machine
    /// is refused.
    #[verifier::rlimit(100)]
    pub fn from_postings(docmap: Vec<String>, postings: &Vec<(String, Vec<(u32, u16)>)>) -> (r:
        core::result::Result<Index<C>, IndexError>)
        ensures
            match r {
                Ok(idx) => {
                    &&& idx.spec_max_doc_id() + 1 == docmap@.len()
                    &&& idx.spec_docmap().len() == docmap@.len()
                    &&& forall|i: int|
                        0 <= i < docmap@.len() ==> idx.spec_docmap()[i] == (
                        #[trigger] docmap@[i])@
                    &&& idx.spec_vocab().len() == postings@.len()
                    &&& forall|i: int|
                        0 <= i < postings@.len() ==> (#[trigger] idx.spec_vocab()[i]).0@
                            == postings@[i].0@
                    &&& forall|i: int, k: int|
                        #![trigger idx.spec_vocab()[i].1.impacts@[k]]
                        0 <= i < postings@.len() && 0 <= k
                            < idx.spec_vocab()[i].1.impacts@.len() ==> ({
                            let metas = idx.spec_vocab()[i].1.impacts@;
                            let st = idx.spec_vocab()[i].1.start_byte_offset as int;
                            spec_decode_segment::<C>(
                                0,
                                metas[k].count as int,
                                idx.spec_list_data().subrange(
                                    st + seg_off(metas, k),
                                    st + seg_off(metas, k + 1),
                                ),
                            ) == Some(docs_with(postings@[i].1@, metas[k].impact))
                        })
                    &&& forall|i: int, a: int|
                        0 <= i < postings@.len() && 0 <= a < (
                        #[trigger] postings@[i]).1@.len() ==> impact_covered(
                            idx.spec_vocab()[i].1.impacts@,
                            (#[trigger] postings@[i].1@[a]).1,
                        )
                    &&& forall|i: int|
                        0 <= i < postings@.len() ==> list_sound::<C>(
                            (#[trigger] idx.spec_vocab()[i]).1.impacts@,
                            idx.spec_vocab()[i].1.start_byte_offset as int,
                            idx.spec_list_data(),
                            docmap@.len() as int,
                            idx.spec_max_level(),
                        )
                    &&& postings@.len() == 0 ==> idx.spec_list_data().len() == 0
                    &&& postings@.len() > 0 ==> idx.spec_vocab()[0].1.start_byte_offset == 0
                    &&& forall|i: int|
                        0 < i < postings@.len() ==> (
                        #[trigger] idx.spec_vocab()[i]).1.start_byte_offset == idx.spec_vocab()[
                            i - 1
                        ].1.start_byte_offset + seg_off(
                            idx.spec_vocab()[i - 1].1.impacts@,
                            idx.spec_vocab()[i - 1].1.impacts@.len() as int,
                        )
                    &&& postings@.len() > 0 ==> idx.spec_list_data().len() == idx.spec_vocab()[
                        postings@.len() - 1
                    ].1.start_byte_offset + seg_off(
                        idx.spec_vocab()[postings@.len() - 1].1.impacts@,
                        idx.spec_vocab()[postings@.len() - 1].1.impacts@.len() as int,
                    )
                    &&& idx.spec_num_postings() == posts_total(postings@, postings@.len() as int)
                    &&& idx.spec_num_levels() == distinct_levels(
                        idx.spec_vocab(),
                        postings@.len() as int,
                    ).len()
                    &&& (idx.spec_max_level() == 0 || exists|i: int, k: int|
                        #![trigger idx.spec_vocab()[i].1.impacts@[k]]
                        0 <= i < postings@.len() && 0 <= k
                            < idx.spec_vocab()[i].1.impacts@.len()
                            && idx.spec_vocab()[i].1.impacts@[k].impact as int
                            == idx.spec_max_level())
                },
                Err(e) => e == IndexError::TooLarge || !input_ok(docmap@, postings@),
            },
            input_ok(docmap@, postings@) && input_small(postings@) ==> r is Ok,
    {
        let ghost hyp = input_ok(docmap@, postings@) && input_small(postings@);
        let n_docs = docmap.len();
        if n_docs == 0 || n_docs > 0xffff_ffff {
            return Err(IndexError::BadDocmap);
        }
        if usize::MAX - CHUNK_SIZE - 1 < n_docs {
            return Err(IndexError::BadDocmap);
        }
        // terms must be distinct
        let m = postings.len();
        if !check_distinct_terms(postings) {
            return Err(IndexError::DuplicateTerm);
        }
        // build each list
        let mut vocab: Vec<(String, List)> = Vec::new();
        let mut blob: Vec<u8> = Vec::new();
        let mut max_level: usize = 0;
        let mut num_postings: u64 = 0;
        let mut levels_seen: Vec<bool> = Vec::new();
        levels_seen.resize(65536, false);
        let mut num_levels: usize = 0;
        let mut li: usize = 0;
        proof {
            reveal(built_ok);
            assert(built_ok::<C>(vocab@, postings@, blob@, n_docs as int, max_level as int, 0));
            assert(bitmap_set(levels_seen@) =~= Set::<int>::empty());
            assert(distinct_levels(vocab@, 0) =~= Set::<int>::empty());
        }
        while li < m
            invariant
                li <= m,
                m == postings@.len(),
                n_docs == docmap@.len(),
                0 < n_docs <= 0xffff_ffff,
                n_docs + CHUNK_SIZE + 1 <= usize::MAX,
                forall|x: int, y: int|
                    0 <= x < y < m ==> (#[trigger] postings@[x]).0@ != (
                    #[trigger] postings@[y]).0@,
                vocab@.len() == li,
                max_level * MAX_TERM_WEIGHT <= u16::MAX,
                levels_seen@.len() == 65536,
                built_ok::<C>(vocab@, postings@, blob@, n_docs as int, max_level as int, li as int),
                hyp == (input_ok(docmap@, postings@) && input_small(postings@)),
                num_postings as int == posts_total(postings@, li as int),
                hyp ==> blob@.len() <= li as int * 0x8_0000_0000,
                max_level == 0 || exists|x: int, k: int|
                    #![trigger vocab@[x].1.impacts@[k]]
                    0 <= x < li && 0 <= k < vocab@[x].1.impacts@.len() && vocab@[
                        x
                    ].1.impacts@[k].impact as int == max_level,
                num_levels as int == bitmap_set(levels_seen@).len(),
                bitmap_set(levels_seen@).finite(),
                bitmap_set(levels_seen@) == distinct_levels(vocab@, li as int),
            decreases m - li,
        {
            let ghost max_pre = max_level as int;
            let ghost blob_pre = blob@;
            let entry = &postings[li];
            let built = build_one_list::<C>(
                &entry.1,
                n_docs,
                &mut blob,
                &mut levels_seen,
                &mut max_level,
                &mut num_levels,
            );
            let pair = match built {
                Err(e) => {
                    proof {
                        if e != IndexError::TooLarge {
                            assert(!plist_ok(postings@[li as int].1@, docmap@.len() as int));
                        }
                        if hyp {
                            assert(postings@[li as int].1@.len() <= 65_535);
                            assert(plist_ok(postings@[li as int].1@, docmap@.len() as int));
                            assert(blob_pre.len() + 0x8_0000_0000 > usize::MAX);
                            assert(li as int * 0x8_0000_0000 <= 1_000_000 * 0x8_0000_0000)
                                by (nonlinear_arith)
                                requires
                                    0 <= li <= 1_000_000,
                            ;
                            assert(false);
                        }
                    }
                    return Err(e);
                },
                Ok(p) => p,
            };
            let (list, seg_total) = pair;
            if num_postings > u64::MAX - seg_total {
                proof {
                    if hyp {
                        lemma_posts_total_bound(postings@, li as int, 65_535);
                        assert(li as int * 65_535 <= 1_000_000 * 65_535) by (nonlinear_arith)
                            requires
                                0 <= li <= 1_000_000,
                        ;
                        assert(false);
                    }
                }
                return Err(IndexError::TooLarge);
            }
            num_postings = num_postings + seg_total;
            proof {
                if hyp {
                    assert((li as int + 1) * 0x8_0000_0000 == li as int * 0x8_0000_0000
                        + 0x8_0000_0000) by (nonlinear_arith);
                }
            }
            let term = entry.0.clone();
            let ghost vocab_pre = vocab@;
            proof {
                assert(term@ == postings@[li as int].0@);
            }
            vocab.push((term, list));
            proof {
                lemma_built_ok_step::<C>(
                    vocab@,
                    vocab_pre,
                    postings@,
                    blob_pre,
                    blob@,
                    list,
                    li as int,
                    n_docs as int,
                    max_pre,
                    max_level as int,
                );
                lemma_distinct_levels_push(vocab@, vocab_pre, list, li as int);
                if max_level as int != 0 {
                    if max_level as int == max_pre {
                        let (x0, k0) = choose|x: int, k: int|
                            #![trigger vocab_pre[x].1.impacts@[k]]
                            0 <= x < li && 0 <= k < vocab_pre[x].1.impacts@.len() && vocab_pre[
                                x
                            ].1.impacts@[k].impact as int == max_level;
                        assert(vocab@[x0] == vocab_pre[x0]);
                        assert(vocab@[x0].1.impacts@[k0].impact as int == max_level);
                    } else {
                        let k0 = choose|k: int|
                            0 <= k < list.impacts@.len() && (#[trigger] list.impacts@[k]).impact
                                == max_level;
                        assert(vocab@[li as int].1.impacts@[k0].impact as int == max_level);
                    }
                }
            }
            li = li + 1;
        }
        let tag = C::tag();
        let idx = Index {
            docmap,
            vocab,
            list_data: blob,
            num_levels,
            max_level,
            max_doc_id: (n_docs - 1) as u32,
            max_term_weight: MAX_TERM_WEIGHT,
            num_postings,
            compressor_tag: tag,
            impact_type: core::marker::PhantomData,
        };
        proof {
            lemma_built_ok_extract::<C>(idx, postings@);
            assert(idx.wf()) by {
                reveal(built_ok);
            }
            assert(idx.spec_docmap().len() == idx.docmap@.len());
            assert forall|i2: int| 0 <= i2 < idx.docmap@.len() implies idx.spec_docmap()[i2] == (
            #[trigger] idx.docmap@[i2])@ by {}
            assert(idx.spec_num_postings() == posts_total(postings@, postings@.len() as int));
            assert(idx.spec_num_levels() == distinct_levels(
                idx.spec_vocab(),
                postings@.len() as int,
            ).len()) by {
                assert(idx.spec_vocab() == idx.vocab@);
            }
            if idx.spec_max_level() != 0 {
                let (x0, k0) = choose|x: int, k: int|
                    #![trigger idx.vocab@[x].1.impacts@[k]]
                    0 <= x < postings@.len() && 0 <= k < idx.vocab@[x].1.impacts@.len()
                        && idx.vocab@[x].1.impacts@[k].impact as int == idx.max_level as int;
                assert(idx.spec_vocab()[x0] == idx.vocab@[x0]);
                assert(idx.spec_vocab()[x0].1.impacts@[k0].impact as int == idx.spec_max_level());
            }
        }
        Ok(idx)
    }
}

/// Placement reads only the first `upto` tokens.
proof fn lemma_place_tokens_prefix(
    vocab: Seq<(String, List)>,
    bv: Seq<Seq<Impact>>,
    ts1: Seq<Term>,
    ts2: Seq<Term>,
    upto: int,
)
    requires
        0 <= upto <= ts1.len(),
        upto <= ts2.len(),
        forall|i: int| 0 <= i < upto ==> ts1[i] == ts2[i],
    ensures
        place_tokens(vocab, bv, ts1, upto) == place_tokens(vocab, bv, ts2, upto),
    decreases upto,
{
    if upto > 0 {
        lemma_place_tokens_prefix(vocab, bv, ts1, ts2, upto - 1);
    }
}

/// A fractional budget of one is the whole posting volume; one of zero is
/// nothing.
pub proof fn lemma_frac_budget_extremes(total: int, den: int)
    requires
        total >= 0,
        den >= 1,
    ensures
        frac_budget(total, den, den) == total,
        frac_budget(total, 0, den) == 0,
{
    assert((total * den + den - 1) / den == total) by (nonlinear_arith)
        requires
            total >= 0,
            den >= 1,
    ;
    assert((total * 0 + den - 1) / den == 0) by (nonlinear_arith)
        requires
            den >= 1,
    ;
}

impl<C: Compressor> Index<C> {
    /// Adding a query term that the vocabulary does not know changes
    /// neither the selected segments nor any score under any budget.
    pub proof fn lemma_unknown_term(self, tokens: Seq<Term>, t: Term)
        requires
            spec_find(self.spec_vocab(), t.token@) < 0,
        ensures
            self.spec_query_segs(tokens.push(t)) == self.spec_query_segs(tokens),
            forall|budget: int|
                self.spec_scores(tokens.push(t), budget) == #[trigger] self.spec_scores(
                    tokens,
                    budget,
                ),
    {
        let bv0 = empty_bv(self.spec_max_level() * MAX_TERM_WEIGHT + 1);
        let ts2 = tokens.push(t);
        lemma_place_tokens_prefix(
            self.spec_vocab(),
            bv0,
            tokens,
            ts2,
            tokens.len() as int,
        );
        assert(place_tokens(self.spec_vocab(), bv0, ts2, ts2.len() as int) == place_tokens(
            self.spec_vocab(),
            bv0,
            ts2,
            tokens.len() as int,
        ));
    }

    /// For every doc kept in the results of two budgets, the larger
    /// budget's score is at least the smaller's.
    pub proof fn lemma_budget_monotone_scores(
        self,
        tokens: Seq<Term>,
        b1: int,
        b2: int,
        r1: Seq<Result>,
        r2: Seq<Result>,
        k: int,
    )
        requires
            b1 <= b2,
            is_topk(self.spec_scores(tokens, b1), r1, k),
            is_topk(self.spec_scores(tokens, b2), r2, k),
        ensures
            forall|i: int, j: int|
                0 <= i < r1.len() && 0 <= j < r2.len() && (#[trigger] r1[i]).doc_id == (
                #[trigger] r2[j]).doc_id ==> r1[i].score <= r2[j].score,
    {
        let segs = self.spec_query_segs(tokens);
        let n = self.spec_max_doc_id() + 1;
        crate::search::lemma_processed_le(segs, b1);
        crate::search::lemma_processed_monotone(segs, b1, b2);
        if n >= 0 {
            crate::search::lemma_acc_monotone(
                n,
                segs,
                processed_count(segs, b1),
                processed_count(segs, b2),
            );
            crate::search::lemma_acc_len(n, segs, processed_count(segs, b1));
        }
        assert forall|i: int, j: int|
            0 <= i < r1.len() && 0 <= j < r2.len() && (#[trigger] r1[i]).doc_id == (
            #[trigger] r2[j]).doc_id implies r1[i].score <= r2[j].score by {
            let d = r1[i].doc_id as int;
            assert(r1[i].score == self.spec_scores(tokens, b1)[d]);
            assert(r2[j].score == self.spec_scores(tokens, b2)[d]);
            assert(d < self.spec_scores(tokens, b1).len());
        }
    }
}


/// Posting totals add across segment runs.
proof fn lemma_total_concat(a: Seq<Seg>, b: Seq<Seg>)
    ensures
        total_count(a + b) == total_count(a) + total_count(b),
    decreases a.len(),
{
    if a.len() == 0 {
        assert(a + b =~= b);
    } else {
        assert((a + b).skip(1) =~= a.skip(1) + b);
        assert((a + b)[0] == a[0]);
        lemma_total_concat(a.skip(1), b);
    }
}

/// Pushing one cursor into a bucket leaves lower buckets' segments alone
/// and adds the cursor's docs to the total of any run that includes its
/// bucket.
proof fn lemma_segs_lower_update<C: Compressor>(
    bv: Seq<Seq<Impact>>,
    idx: int,
    c: Impact,
    b: int,
    blob: Seq<u8>,
)
    requires
        0 <= idx < bv.len(),
        b <= bv.len(),
    ensures
        b <= idx ==> segs_lower::<C>(bv.update(idx, bv[idx].push(c)), b, blob) == segs_lower::<C>(
            bv,
            b,
            blob,
        ),
        b > idx ==> total_count(segs_lower::<C>(bv.update(idx, bv[idx].push(c)), b, blob))
            == total_count(segs_lower::<C>(bv, b, blob)) + cursor_docs::<C>(c, blob).len(),
    decreases b,
{
    let bv2 = bv.update(idx, bv[idx].push(c));
    if b > 0 {
        lemma_segs_lower_update::<C>(bv, idx, c, b - 1, blob);
        if b - 1 == idx {
            assert(bv2[b - 1] == bv[idx].push(c));
            assert(bucket_segs::<C>(bv[idx].push(c), blob) =~= bucket_segs::<C>(bv[idx], blob)
                + seq![
                ((c.meta_data.impact as ScoreType), cursor_docs::<C>(c, blob)),
            ]);
            lemma_total_concat(
                bucket_segs::<C>(bv[idx], blob),
                seq![((c.meta_data.impact as ScoreType), cursor_docs::<C>(c, blob))],
            );
            assert(total_count(
                seq![((c.meta_data.impact as ScoreType), cursor_docs::<C>(c, blob))],
            ) == cursor_docs::<C>(c, blob).len()) by {
                let single: Seq<Seg> = seq![
                    ((c.meta_data.impact as ScoreType), cursor_docs::<C>(c, blob)),
                ];
                assert(single.skip(1) =~= Seq::<Seg>::empty());
                assert(total_count(Seq::<Seg>::empty()) == 0);
                assert(single[0] == ((c.meta_data.impact as ScoreType), cursor_docs::<C>(
                    c,
                    blob,
                )));
            }
            lemma_total_concat(bucket_segs::<C>(bv2[b - 1], blob), segs_lower::<C>(bv2, b - 1, blob));
            lemma_total_concat(bucket_segs::<C>(bv[b - 1], blob), segs_lower::<C>(bv, b - 1, blob));
        } else {
            assert(bv2[b - 1] == bv[b - 1]);
            lemma_total_concat(bucket_segs::<C>(bv2[b - 1], blob), segs_lower::<C>(bv2, b - 1, blob));
            lemma_total_concat(bucket_segs::<C>(bv[b - 1], blob), segs_lower::<C>(bv, b - 1, blob));
        }
    }
}

/// Every segment of sound buckets carries at least one posting.
proof fn lemma_segs_pos<C: Compressor>(bv: Seq<Seq<Impact>>, b: int, blob: Seq<u8>, n_docs: int)
    requires
        buckets_ok::<C>(bv, blob, n_docs),
        b <= bv.len(),
    ensures
        forall|i: int|
            0 <= i < segs_lower::<C>(bv, b, blob).len() ==> (#[trigger] segs_lower::<C>(
                bv,
                b,
                blob,
            )[i]).1.len() > 0,
    decreases b,
{
    if b > 0 {
        lemma_segs_pos::<C>(bv, b - 1, blob, n_docs);
        let head = bucket_segs::<C>(bv[b - 1], blob);
        let tail = segs_lower::<C>(bv, b - 1, blob);
        assert forall|i: int|
            0 <= i < segs_lower::<C>(bv, b, blob).len() implies (#[trigger] segs_lower::<C>(
            bv,
            b,
            blob,
        )[i]).1.len() > 0 by {
            if i < head.len() {
                assert(segs_lower::<C>(bv, b, blob)[i] == head[i]);
                assert(cursor_fresh_ok::<C>(bv[b - 1][i], blob, n_docs));
            } else {
                assert(segs_lower::<C>(bv, b, blob)[i] == tail[i - head.len()]);
            }
        }
    }
}

/// Placing one list's segments adds exactly its doc counts to the total
/// and keeps the buckets sound.
proof fn lemma_place_list_total<C: Compressor>(
    bv: Seq<Seq<Impact>>,
    metas: Seq<MetaData>,
    start: int,
    freq: u16,
    upto: int,
    blob: Seq<u8>,
    n_docs: int,
    max_level: int,
)
    requires
        buckets_ok::<C>(bv, blob, n_docs),
        list_sound::<C>(metas, start, blob, n_docs, max_level),
        0 <= upto <= metas.len(),
        1 <= freq <= MAX_TERM_WEIGHT,
        bv.len() == max_level * MAX_TERM_WEIGHT + 1,
        0 <= max_level,
        blob.len() <= usize::MAX,
    ensures
        place_list(bv, metas, start, freq, upto).len() == bv.len(),
        buckets_ok::<C>(place_list(bv, metas, start, freq, upto), blob, n_docs),
        total_count(segs_of::<C>(place_list(bv, metas, start, freq, upto), blob)) == total_count(
            segs_of::<C>(bv, blob),
        ) + metas_count_upto(metas, upto),
    decreases upto,
{
    if upto > 0 {
        lemma_place_list_total::<C>(bv, metas, start, freq, upto - 1, blob, n_docs, max_level);
        let prev = place_list(bv, metas, start, freq, upto - 1);
        let k = upto - 1;
        let c = seg_cursor(metas, start, k, freq);
        let idx = metas[k].impact * freq;
        assert(0 <= idx < bv.len()) by (nonlinear_arith)
            requires
                0 <= metas[k].impact <= max_level,
                1 <= freq <= MAX_TERM_WEIGHT,
                bv.len() == max_level * MAX_TERM_WEIGHT + 1,
                idx == metas[k].impact * freq,
        ;
        assert(seg_sound::<C>(metas, k, start, blob, n_docs));
        lemma_seg_off_mono(metas, 0, k);
        lemma_seg_off_mono(metas, k + 1, metas.len() as int);
        assert(cursor_fresh_ok::<C>(c, blob, n_docs)) by {
            assert(0 <= start + seg_off(metas, k) <= blob.len());
            assert(0 <= start + seg_off(metas, k + 1) <= blob.len());
            assert(c.bytes.spec_start() == start + seg_off(metas, k));
            assert(c.bytes.spec_stop() == start + seg_off(metas, k + 1));
            assert(blob.subrange(c.bytes.spec_start(), c.bytes.spec_stop()) == blob.subrange(
                start + seg_off(metas, k),
                start + seg_off(metas, k + 1),
            ));
            crate::impact::lemma_segment_decode_len::<C>(
                0,
                metas[k].count as int,
                blob.subrange(start + seg_off(metas, k), start + seg_off(metas, k + 1)),
            );
        }
        lemma_segs_lower_update::<C>(prev, idx as int, c, prev.len() as int, blob);
        assert(cursor_docs::<C>(c, blob).len() == metas[k].count);
        let nxt = place_list(bv, metas, start, freq, upto);
        assert(nxt == prev.update(idx as int, prev[idx as int].push(c)));
        assert forall|b2: int, j2: int|
            0 <= b2 < nxt.len() && 0 <= j2 < nxt[b2].len() implies cursor_fresh_ok::<C>(
            #[trigger] nxt[b2][j2],
            blob,
            n_docs,
        ) by {
            if b2 == idx && j2 == prev[idx as int].len() {
            } else {
                assert(nxt[b2][j2] == prev[b2][j2]);
            }
        }
    }
}

/// Placing a query's tokens adds exactly the matched lists' posting
/// volume and keeps the buckets sound.
proof fn lemma_place_tokens_total<C: Compressor>(
    vocab: Seq<(String, List)>,
    bv0: Seq<Seq<Impact>>,
    tokens: Seq<Term>,
    upto: int,
    blob: Seq<u8>,
    n_docs: int,
    max_level: int,
)
    requires
        buckets_ok::<C>(bv0, blob, n_docs),
        0 <= upto <= tokens.len(),
        forall|i: int| 0 <= i < tokens.len() ==> 1 <= (#[trigger] tokens[i]).freq <= MAX_TERM_WEIGHT,
        forall|i: int|
            0 <= i < vocab.len() ==> list_sound::<C>(
                (#[trigger] vocab[i]).1.impacts@,
                vocab[i].1.start_byte_offset as int,
                blob,
                n_docs,
                max_level,
            ),
        bv0.len() == max_level * MAX_TERM_WEIGHT + 1,
        0 <= max_level,
        blob.len() <= usize::MAX,
    ensures
        place_tokens(vocab, bv0, tokens, upto).len() == bv0.len(),
        buckets_ok::<C>(place_tokens(vocab, bv0, tokens, upto), blob, n_docs),
        total_count(segs_of::<C>(place_tokens(vocab, bv0, tokens, upto), blob)) == total_count(
            segs_of::<C>(bv0, blob),
        ) + tokens_total(vocab, tokens, upto),
    decreases upto,
{
    if upto > 0 {
        lemma_place_tokens_total::<C>(vocab, bv0, tokens, upto - 1, blob, n_docs, max_level);
        let prev = place_tokens(vocab, bv0, tokens, upto - 1);
        let f = spec_find(vocab, tokens[upto - 1].token@);
        if f >= 0 {
            lemma_spec_find(vocab, tokens[upto - 1].token@);
            assert(list_sound::<C>(
                (vocab[f]).1.impacts@,
                vocab[f].1.start_byte_offset as int,
                blob,
                n_docs,
                max_level,
            ));
            lemma_place_list_total::<C>(
                prev,
                vocab[f].1.impacts@,
                vocab[f].1.start_byte_offset as int,
                tokens[upto - 1].freq as u16,
                vocab[f].1.impacts@.len() as int,
                blob,
                n_docs,
                max_level,
            );
        }
    }
}

impl<C: Compressor> Index<C> {
    /// A fractional budget of one covers the query's whole posting volume,
    /// so every selected segment is processed; a fraction of zero covers
    /// none.
    pub proof fn lemma_fraction_extremes(self, tokens: Seq<Term>, den: int)
        requires
            self.wf(),
            den >= 1,
            forall|i: int|
                0 <= i < tokens.len() ==> 1 <= (#[trigger] tokens[i]).freq <= MAX_TERM_WEIGHT,
        ensures
            processed_count(
                self.spec_query_segs(tokens),
                frac_budget(
                    tokens_total(self.spec_vocab(), tokens, tokens.len() as int),
                    den,
                    den,
                ),
            ) == self.spec_query_segs(tokens).len(),
            processed_count(self.spec_query_segs(tokens), frac_budget(0, 0, den)) == 0,
    {
        let n_docs = self.docmap@.len() as int;
        let bv0 = empty_bv(self.spec_max_level() * MAX_TERM_WEIGHT + 1);
        let blob = self.spec_list_data();
        assert(vstd::std_specs::vec::spec_vec_len(&self.list_data) == self.list_data@.len());
        assert(blob.len() <= usize::MAX);
        assert(buckets_ok::<C>(bv0, blob, n_docs));
        lemma_place_tokens_total::<C>(
            self.spec_vocab(),
            bv0,
            tokens,
            tokens.len() as int,
            blob,
            n_docs,
            self.spec_max_level(),
        );
        let placed = place_tokens(self.spec_vocab(), bv0, tokens, tokens.len() as int);
        let segs = self.spec_query_segs(tokens);
        assert(segs_lower::<C>(bv0, bv0.len() as int, blob) =~= Seq::<Seg>::empty()) by {
            lemma_empty_bv_segs::<C>(bv0, bv0.len() as int, blob);
        }
        let total = tokens_total(self.spec_vocab(), tokens, tokens.len() as int);
        assert(total_count(segs) == total);
        assert(total >= 0) by {
            crate::search::lemma_total_count_nonneg(segs);
        }
        lemma_frac_budget_extremes(total, den);
        lemma_segs_pos::<C>(placed, placed.len() as int, blob, n_docs);
        crate::search::lemma_processed_all(segs, total);
    }
}

/// Empty buckets select nothing.
proof fn lemma_empty_bv_segs<C: Compressor>(bv: Seq<Seq<Impact>>, b: int, blob: Seq<u8>)
    requires
        b <= bv.len(),
        forall|x: int| 0 <= x < bv.len() ==> (#[trigger] bv[x]).len() == 0,
    ensures
        segs_lower::<C>(bv, b, blob).len() == 0,
    decreases b,
{
    if b > 0 {
        lemma_empty_bv_segs::<C>(bv, b - 1, blob);
    }
}


/// The stored parts a reader accepts: an addressable document map, a
/// weightable level bound, the matching codec, distinct terms, and sound
/// lists.
pub open spec fn parts_sound<C: Compressor>(
    docmap: Seq<String>,
    vocab: Seq<(String, List)>,
    list_data: Seq<u8>,
    max_level: int,
    compressor_tag: u8,
) -> bool {
    &&& 0 < docmap.len() <= u32::MAX
    &&& docmap.len() + CHUNK_SIZE + 1 <= usize::MAX
    &&& 0 <= max_level
    &&& max_level * MAX_TERM_WEIGHT <= u16::MAX
    &&& compressor_tag == C::spec_tag()
    &&& forall|i: int, j: int|
        0 <= i < j < vocab.len() ==> (#[trigger] vocab[i]).0@ != (#[trigger] vocab[j]).0@
    &&& forall|i: int|
        0 <= i < vocab.len() ==> list_sound::<C>(
            (#[trigger] vocab[i]).1.impacts@,
            vocab[i].1.start_byte_offset as int,
            list_data,
            docmap.len() as int,
            max_level,
        )
}

/// Decodes a whole segment, or `None` exactly when the bytes are not a
/// well-formed encoding of `count` doc ids consumed exactly.
fn try_decode_segment<C: Compressor>(initial: u32, count: u32, bytes: &[u8]) -> (r: Option<
    Vec<u32>,
>)
    ensures
        match r {
            Some(v) => spec_decode_segment::<C>(initial, count as int, bytes@) == Some(v@),
            None => spec_decode_segment::<C>(initial, count as int, bytes@) is None,
        },
    decreases count,
{
    if count == 0 {
        if bytes.len() == 0 {
            let out: Vec<u32> = Vec::new();
            proof {
                assert(out@ =~= Seq::<u32>::empty());
            }
            Some(out)
        } else {
            None
        }
    } else if count as usize >= crate::compress::BLOCK_LEN {
        let got = C::decompress_sorted_full(initial, bytes);
        match got {
            None => None,
            Some(p) => {
                let (mut vals, used) = p;
                proof {
                    C::lemma_decode_full_some(initial, bytes@);
                }
                let last = vals[crate::compress::BLOCK_LEN - 1];
                let rest = vstd::slice::slice_subrange(bytes, used, bytes.len());
                proof {
                    assert(rest@ =~= bytes@.skip(used as int));
                }
                let tail = try_decode_segment::<C>(
                    last,
                    count - crate::compress::BLOCK_LEN as u32,
                    rest,
                );
                match tail {
                    None => None,
                    Some(mut tail_docs) => {
                        let ghost vals_s = vals@;
                        let ghost tail_s = tail_docs@;
                        vals.append(&mut tail_docs);
                        proof {
                            assert(vals@ == vals_s + tail_s);
                        }
                        Some(vals)
                    },
                }
            },
        }
    } else {
        let got = C::decompress_sorted(initial, count as usize, bytes);
        match got {
            None => None,
            Some(p) => {
                let (vals, used) = p;
                if used == bytes.len() {
                    Some(vals)
                } else {
                    proof {
                        C::lemma_decode_tail_some(initial, count as int, bytes@);
                    }
                    None
                }
            },
        }
    }
}

/// Checks that a run of doc ids is strictly increasing and inside the
/// document map.
fn check_docs(docs: &Vec<u32>, n_docs: usize) -> (r: bool)
    ensures
        r == (strict_from(0, docs@) && (forall|j: int|
            0 <= j < docs@.len() ==> #[trigger] docs@[j] < n_docs)),
{
    let mut i: usize = 0;
    while i < docs.len()
        invariant
            i <= docs@.len(),
            forall|a: int, b: int|
                0 <= a < b < i ==> (#[trigger] docs@[a]) < (#[trigger] docs@[b]),
            forall|j: int| 0 <= j < i ==> #[trigger] docs@[j] < n_docs,
        decreases docs@.len() - i,
    {
        let d = docs[i];
        if d as usize >= n_docs {
            return false;
        }
        if i > 0 {
            let prev = docs[i - 1];
            if prev >= d {
                return false;
            }
        }
        proof {
            assert forall|a: int, b: int|
                0 <= a < b < i + 1 implies (#[trigger] docs@[a]) < (#[trigger] docs@[b]) by {
                if b == i && a < i - 1 {
                    assert(docs@[a] < docs@[i - 1]);
                }
            }
        }
        i = i + 1;
    }
    true
}

/// Validates one stored list against the blob: segments back to back,
/// impacts strictly descending and within the level bound, and every
/// segment decoding to strictly increasing doc ids inside the document map.
fn check_list<C: Compressor>(list: &List, blob: &[u8], n_docs: usize, max_level: usize) -> (r:
    bool)
    ensures
        r == list_sound::<C>(
            list.impacts@,
            list.start_byte_offset as int,
            blob@,
            n_docs as int,
            max_level as int,
        ),
{
    let ghost metas = list.impacts@;
    let ghost lstart = list.start_byte_offset as int;
    let ghost sound = list_sound::<C>(metas, lstart, blob@, n_docs as int, max_level as int);
    let nsegs = list.impacts.len();
    if nsegs > 65_535 {
        return false;
    }
    if list.start_byte_offset > blob.len() {
        proof {
            if sound {
                lemma_seg_off_mono(metas, 0, metas.len() as int);
            }
        }
        return false;
    }
    let mut start: usize = list.start_byte_offset;
    let mut total: u64 = 0;
    let mut k: usize = 0;
    while k < nsegs
        invariant
            k <= nsegs,
            nsegs == metas.len(),
            metas == list.impacts@,
            lstart == list.start_byte_offset as int,
            sound == list_sound::<C>(metas, lstart, blob@, n_docs as int, max_level as int),
            nsegs <= 65_535,
            start as int == lstart + seg_off(metas, k as int),
            start <= blob@.len(),
            total == metas_count_upto(metas, k as int),
            total <= 0xffff_ffffu64,
            forall|x: int, y: int|
                0 <= x < y < k ==> (#[trigger] metas[y]).impact < (#[trigger] metas[x]).impact,
            forall|x: int| 0 <= x < k ==> (#[trigger] metas[x]).impact <= max_level,
            forall|x: int|
                0 <= x < k ==> seg_sound::<C>(metas, x, lstart, blob@, n_docs as int),
        decreases nsegs - k,
    {
        let meta = list.impacts[k];
        if meta.impact as usize > max_level {
            return false;
        }
        if meta.count == 0 {
            proof {
                if sound {
                    assert(seg_sound::<C>(metas, k as int, lstart, blob@, n_docs as int));
                }
            }
            return false;
        }
        if k > 0 {
            let prev = list.impacts[k - 1];
            if prev.impact <= meta.impact {
                return false;
            }
        }
        if total + meta.count as u64 > 0xffff_ffff {
            proof {
                if sound {
                    lemma_metas_count_mono(metas, k as int + 1, metas.len() as int);
                }
            }
            return false;
        }
        if meta.bytes as usize > blob.len() - start {
            proof {
                if sound {
                    assert(seg_off(metas, k as int + 1) == seg_off(metas, k as int) + meta.bytes);
                    lemma_seg_off_mono(metas, k as int + 1, metas.len() as int);
                }
            }
            return false;
        }
        let stop = start + meta.bytes as usize;
        let seg = vstd::slice::slice_subrange(blob, start, stop);
        proof {
            assert(seg_off(metas, k as int + 1) == seg_off(metas, k as int) + meta.bytes);
            assert(seg@ == blob@.subrange(
                lstart + seg_off(metas, k as int),
                lstart + seg_off(metas, k as int + 1),
            ));
        }
        let decoded = try_decode_segment::<C>(0, meta.count, seg);
        match decoded {
            None => {
                proof {
                    if sound {
                        assert(seg_sound::<C>(metas, k as int, lstart, blob@, n_docs as int));
                    }
                }
                return false;
            },
            Some(docs) => {
                if !check_docs(&docs, n_docs) {
                    proof {
                        if sound {
                            assert(seg_sound::<C>(
                                metas,
                                k as int,
                                lstart,
                                blob@,
                                n_docs as int,
                            ));
                        }
                    }
                    return false;
                }
                proof {
                    assert(seg_sound::<C>(metas, k as int, lstart, blob@, n_docs as int));
                    assert forall|x: int, y: int|
                        0 <= x < y < k + 1 implies (#[trigger] metas[y]).impact < (
                    #[trigger] metas[x]).impact by {
                        if y == k && x < k - 1 {
                            assert(metas[x].impact > metas[k - 1].impact);
                        }
                    }
                }
            },
        }
        total = total + meta.count as u64;
        start = stop;
        k = k + 1;
    }
    proof {
        assert(list_sound::<C>(metas, lstart, blob@, n_docs as int, max_level as int));
    }
    true
}

/// Any two stored vocabulary terms differ.
fn check_distinct_vocab(vocab: &Vec<(String, List)>) -> (r: bool)
    ensures
        r == (forall|x: int, y: int|
            0 <= x < y < vocab@.len() ==> (#[trigger] vocab@[x]).0@ != (
            #[trigger] vocab@[y]).0@),
{
    let m = vocab.len();
    let mut i: usize = 0;
    while i < m
        invariant
            i <= m,
            m == vocab@.len(),
            forall|x: int, y: int|
                0 <= x < y < i ==> (#[trigger] vocab@[x]).0@ != (#[trigger] vocab@[y]).0@,
        decreases m - i,
    {
        let mut j: usize = 0;
        while j < i
            invariant
                j <= i < m,
                m == vocab@.len(),
                forall|y: int| 0 <= y < j ==> (#[trigger] vocab@[y]).0@ != vocab@[i as int].0@,
            decreases i - j,
        {
            if str_eq(vocab[j].0.as_str(), vocab[i].0.as_str()) {
                proof {
                    assert(vocab@[j as int].0@ == vocab@[i as int].0@);
                }
                return false;
            }
            j = j + 1;
        }
        proof {
            assert forall|x: int, y: int|
                0 <= x < y < i + 1 implies (#[trigger] vocab@[x]).0@ != (
            #[trigger] vocab@[y]).0@ by {
                if y == i {
                    assert(vocab@[x].0@ != vocab@[i as int].0@);
                }
            }
        }
        i = i + 1;
    }
    true
}

impl<C: Compressor> Index<C> {
    /// Reassembles an index from stored parts, validating everything the
    /// index relies on: it decodes every segment of every list and checks
    /// the doc ids, so corrupt bytes are refused rather than queried.
    pub fn from_parts(
        docmap: Vec<String>,
        vocab: Vec<(String, List)>,
        list_data: Vec<u8>,
        num_levels: usize,
        max_level: usize,
        num_postings: u64,
        compressor_tag: u8,
    ) -> (r: core::result::Result<Index<C>, IndexError>)
        ensures
            r matches Ok(idx) ==> {
                &&& idx.spec_max_doc_id() + 1 == docmap@.len()
                &&& idx.spec_docmap().len() == docmap@.len()
                &&& idx.spec_vocab() == vocab@
                &&& idx.spec_list_data() == list_data@
                &&& idx.spec_max_level() == max_level
                &&& forall|i: int|
                    0 <= i < vocab@.len() ==> list_sound::<C>(
                        (#[trigger] vocab@[i]).1.impacts@,
                        vocab@[i].1.start_byte_offset as int,
                        list_data@,
                        docmap@.len() as int,
                        max_level as int,
                    )
            },
            parts_sound::<C>(docmap@, vocab@, list_data@, max_level as int, compressor_tag)
                ==> r is Ok,
    {
        let n_docs = docmap.len();
        if n_docs == 0 || n_docs > 0xffff_ffff {
            return Err(IndexError::BadDocmap);
        }
        if usize::MAX - CHUNK_SIZE - 1 < n_docs {
            return Err(IndexError::BadDocmap);
        }
        if max_level > 65_535 / MAX_TERM_WEIGHT {
            proof {
                assert(max_level * MAX_TERM_WEIGHT > u16::MAX) by (nonlinear_arith)
                    requires
                        MAX_TERM_WEIGHT == 32,
                        max_level > 65_535int / 32,
                ;
            }
            return Err(IndexError::ImpactOverflow);
        }
        proof {
            assert(max_level * MAX_TERM_WEIGHT <= u16::MAX) by (nonlinear_arith)
                requires
                    MAX_TERM_WEIGHT == 32,
                    0 <= max_level <= 65_535int / 32,
            ;
        }
        if compressor_tag != C::tag() {
            return Err(IndexError::WrongCompressor);
        }
        if !check_distinct_vocab(&vocab) {
            return Err(IndexError::DuplicateTerm);
        }
        let mut i: usize = 0;
        while i < vocab.len()
            invariant
                i <= vocab@.len(),
                n_docs == docmap@.len(),
                0 < n_docs,
                forall|x: int|
                    0 <= x < i ==> list_sound::<C>(
                        (#[trigger] vocab@[x]).1.impacts@,
                        vocab@[x].1.start_byte_offset as int,
                        list_data@,
                        n_docs as int,
                        max_level as int,
                    ),
            decreases vocab@.len() - i,
        {
            if !check_list::<C>(&vocab[i].1, list_data.as_slice(), n_docs, max_level) {
                proof {
                    assert(!list_sound::<C>(
                        (vocab@[i as int]).1.impacts@,
                        vocab@[i as int].1.start_byte_offset as int,
                        list_data@,
                        docmap@.len() as int,
                        max_level as int,
                    ));
                }
                return Err(IndexError::CorruptList);
            }
            i = i + 1;
        }
        let idx = Index {
            docmap,
            vocab,
            list_data,
            num_levels,
            max_level,
            max_doc_id: (n_docs - 1) as u32,
            max_term_weight: MAX_TERM_WEIGHT,
            num_postings,
            compressor_tag,
            impact_type: core::marker::PhantomData,
        };
        proof {
            assert(idx.spec_docmap().len() == idx.docmap@.len());
        }
        Ok(idx)
    }
}


/// Compares two strings for equality of their character sequences.
fn str_eq(a: &str, b: &str) -> (r: bool)
    ensures
        r == (a@ == b@),
{
    let r1 = crate::query::str_lex_lt(a, b);
    let r2 = crate::query::str_lex_lt(b, a);
    proof {
        crate::query::lemma_lex_total(a@, b@);
        if a@ == b@ {
            crate::query::lemma_lex_irrefl(a@);
        }
    }
    !r1 && !r2
}

} // verus!
