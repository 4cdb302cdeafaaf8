//! Per-query working state, the accumulator model, and bounded top-k
//! selection over the accumulator array with chunk-max skipping.

use vstd::prelude::*;

use crate::ScoreType;
use crate::impact::Impact;

verus! {

broadcast use vstd::seq::group_seq_axioms;

/// Number of accumulators whose running maximum one chunk entry tracks.
pub const CHUNK_SIZE: usize = 2048;

/// One retrieval hit: an internal doc id and its accumulated score.
#[derive(Clone, Copy, Debug, PartialEq, Eq, Structural)]
pub struct Result {
    pub doc_id: u32,
    pub score: ScoreType,
}

/// The hits of one query, best first, with the query's id and how long the
/// query took.
#[derive(Debug)]
pub struct Results {
    pub topk: Vec<Result>,
    pub took_us: u64,
    pub qid: usize,
}

/// Reusable per-query working state.
pub struct Scratch {
    pub impacts: Vec<Vec<Impact>>,
    pub accumulators: Vec<ScoreType>,
    pub chunk: Vec<ScoreType>,
    pub heap: Vec<Result>,
}

impl Scratch {
    /// Scratch sized for an index with the given maximum impact level,
    /// maximum term weight and maximum doc id.
    pub fn from_index(max_level: usize, max_weight: usize, max_doc_id: u32) -> (r: Self)
        requires
            max_level * max_weight + 1 <= usize::MAX,
            max_doc_id as int + CHUNK_SIZE <= usize::MAX,
        ensures
            r.impacts@.len() == max_level * max_weight + 1,
            forall|b: int| 0 <= b < r.impacts@.len() ==> (#[trigger] r.impacts@[b])@.len() == 0,
            r.accumulators@.len() == max_doc_id as int + 1,
            r.chunk@.len() * CHUNK_SIZE >= r.accumulators@.len(),
            r.heap@.len() == 0,
    {
        let n_buckets = max_level * max_weight + 1;
        let mut impacts: Vec<Vec<Impact>> = Vec::new();
        let mut b: usize = 0;
        while b < n_buckets
            invariant
                b <= n_buckets,
                impacts@.len() == b,
                forall|i: int| 0 <= i < b ==> (#[trigger] impacts@[i])@.len() == 0,
            decreases n_buckets - b,
        {
            impacts.push(Vec::new());
            b = b + 1;
        }
        let n_docs = max_doc_id as usize + 1;
        let n_chunks = (n_docs + (CHUNK_SIZE - 1)) / CHUNK_SIZE;
        let mut accumulators: Vec<ScoreType> = Vec::new();
        accumulators.resize(n_docs, 0);
        let mut chunk: Vec<ScoreType> = Vec::new();
        chunk.resize(n_chunks, 0);
        proof {
            assert(n_chunks * CHUNK_SIZE >= n_docs) by (nonlinear_arith)
                requires
                    n_chunks == (n_docs + (CHUNK_SIZE - 1)) / (CHUNK_SIZE as int),
                    CHUNK_SIZE == 2048,
                    n_docs >= 0,
            ;
        }
        Scratch { impacts, accumulators, chunk, heap: Vec::new() }
    }
}

/// Saturating score addition: the accumulator sticks at its ceiling rather
/// than wrapping.
pub open spec fn sat_add(a: ScoreType, w: ScoreType) -> ScoreType {
    if a + w > 65535 {
        65535 as ScoreType
    } else {
        (a + w) as ScoreType
    }
}

/// One segment of the processing order: its effective impact and its docs.
pub type Seg = (ScoreType, Seq<u32>);

/// The accumulators after scoring one segment on top of `acc`.
pub open spec fn apply_seg(acc: Seq<ScoreType>, seg: Seg) -> Seq<ScoreType> {
    Seq::new(acc.len(), |d: int| if seg.1.contains(d as u32) {
        sat_add(acc[d], seg.0)
    } else {
        acc[d]
    })
}

/// The accumulators after scoring the first `p` segments, starting from
/// zero.
pub open spec fn acc_after(n_docs: int, segs: Seq<Seg>, p: int) -> Seq<ScoreType>
    decreases p,
{
    if p <= 0 {
        Seq::new(n_docs as nat, |d: int| 0 as ScoreType)
    } else {
        apply_seg(acc_after(n_docs, segs, p - 1), segs[p - 1])
    }
}

/// How many segments a postings budget lets through: whole segments, in
/// order, while the remaining budget is positive.
pub open spec fn processed_count(segs: Seq<Seg>, budget: int) -> int
    decreases segs.len(),
{
    if segs.len() == 0 || budget <= 0 {
        0
    } else {
        1 + processed_count(segs.skip(1), budget - segs[0].1.len())
    }
}

/// Total number of postings across the segments.
pub open spec fn total_count(segs: Seq<Seg>) -> int
    decreases segs.len(),
{
    if segs.len() == 0 {
        0
    } else {
        segs[0].1.len() + total_count(segs.skip(1))
    }
}

/// A budget that covers every posting processes every segment; one that is
/// not positive processes none.
pub proof fn lemma_processed_all(segs: Seq<Seg>, budget: int)
    requires
        budget >= total_count(segs),
        forall|i: int| 0 <= i < segs.len() ==> (#[trigger] segs[i]).1.len() > 0,
    ensures
        processed_count(segs, budget) == segs.len(),
    decreases segs.len(),
{
    if segs.len() > 0 {
        lemma_total_count_nonneg(segs.skip(1));
        assert(forall|i: int|
            0 <= i < segs.skip(1).len() ==> (#[trigger] segs.skip(1)[i]).1.len() > 0) by {
            assert(forall|i: int|
                0 <= i < segs.skip(1).len() ==> #[trigger] segs.skip(1)[i] == segs[i + 1]);
        }
        assert(budget > 0);
        lemma_processed_all(segs.skip(1), budget - segs[0].1.len());
    }
}

pub proof fn lemma_total_count_nonneg(segs: Seq<Seg>)
    ensures
        total_count(segs) >= 0,
    decreases segs.len(),
{
    if segs.len() > 0 {
        lemma_total_count_nonneg(segs.skip(1));
    }
}

/// The number of processed segments never exceeds the number of segments.
pub proof fn lemma_processed_le(segs: Seq<Seg>, budget: int)
    ensures
        0 <= processed_count(segs, budget) <= segs.len(),
    decreases segs.len(),
{
    if segs.len() > 0 && budget > 0 {
        lemma_processed_le(segs.skip(1), budget - segs[0].1.len());
    }
}

/// A larger budget processes at least as many segments.
pub proof fn lemma_processed_monotone(segs: Seq<Seg>, b1: int, b2: int)
    requires
        b1 <= b2,
    ensures
        processed_count(segs, b1) <= processed_count(segs, b2),
    decreases segs.len(),
{
    if segs.len() > 0 && b1 > 0 {
        lemma_processed_monotone(segs.skip(1), b1 - segs[0].1.len(), b2 - segs[0].1.len());
    } else if segs.len() > 0 {
        lemma_processed_le(segs.skip(1), b2 - segs[0].1.len());
    }
}

/// The accumulator array always has one entry per doc.
pub proof fn lemma_acc_len(n_docs: int, segs: Seq<Seg>, p: int)
    requires
        n_docs >= 0,
    ensures
        acc_after(n_docs, segs, p).len() == n_docs,
    decreases p,
{
    if p > 0 {
        lemma_acc_len(n_docs, segs, p - 1);
    }
}

/// Scoring more segments never lowers any accumulator.
pub proof fn lemma_acc_monotone(n_docs: int, segs: Seq<Seg>, p1: int, p2: int)
    requires
        n_docs >= 0,
        0 <= p1 <= p2,
    ensures
        acc_after(n_docs, segs, p1).len() == acc_after(n_docs, segs, p2).len(),
        forall|d: int|
            0 <= d < n_docs ==> acc_after(n_docs, segs, p1)[d] <= acc_after(n_docs, segs, p2)[d],
    decreases p2 - p1,
{
    if p1 < p2 {
        lemma_acc_monotone(n_docs, segs, p1, p2 - 1);
        lemma_acc_len(n_docs, segs, p2 - 1);
        let a1 = acc_after(n_docs, segs, p1);
        let a2 = acc_after(n_docs, segs, p2 - 1);
        let a3 = acc_after(n_docs, segs, p2);
        assert(a3 == apply_seg(a2, segs[p2 - 1]));
        assert forall|d: int| 0 <= d < n_docs implies a1[d] <= a3[d] by {
            assert(a1[d] <= a2[d]);
            assert(a2[d] <= a3[d]);
        }
    }
}

/// Scoring an empty doc run changes nothing.
pub proof fn lemma_apply_empty(base: Seq<ScoreType>, w: ScoreType, docs: Seq<u32>)
    ensures
        apply_seg(base, (w, docs.take(0))) =~= base,
{
    assert forall|d: int| 0 <= d < base.len() implies apply_seg(base, (w, docs.take(0)))[d]
        == base[d] by {
        assert(!docs.take(0).contains(d as u32));
    }
}

/// Scoring one more doc of a strictly increasing run raises exactly that
/// doc's accumulator.
pub proof fn lemma_apply_step(base: Seq<ScoreType>, w: ScoreType, docs: Seq<u32>, t: int)
    requires
        0 <= t < docs.len(),
        forall|i: int, j: int| 0 <= i < j < docs.len() ==> docs[i] < docs[j],
        docs[t] < base.len(),
        base.len() <= u32::MAX,
    ensures
        apply_seg(base, (w, docs.take(t + 1))) =~= apply_seg(base, (w, docs.take(t))).update(
            docs[t] as int,
            sat_add(base[docs[t] as int], w),
        ),
{
    let a1 = apply_seg(base, (w, docs.take(t)));
    let a2 = apply_seg(base, (w, docs.take(t + 1)));
    assert forall|d: int| 0 <= d < base.len() implies a2[d] == a1.update(
        docs[t] as int,
        sat_add(base[docs[t] as int], w),
    )[d] by {
        if d == docs[t] as int {
            assert(docs.take(t + 1)[t] == docs[t]);
            assert(docs.take(t + 1).contains(docs[t]));
            assert(!docs.take(t).contains(docs[t])) by {
                if docs.take(t).contains(docs[t]) {
                    let i = choose|i: int| 0 <= i < t && #[trigger] docs.take(t)[i] == docs[t];
                    assert(docs[i] < docs[t]);
                }
            }
        } else {
            assert(docs.take(t + 1).contains(d as u32) == docs.take(t).contains(d as u32)) by {
                if docs.take(t + 1).contains(d as u32) {
                    let i = choose|i: int| 0 <= i < t + 1 && #[trigger] docs.take(t + 1)[i] == d as u32;
                    if i < t {
                        assert(docs.take(t)[i] == d as u32);
                        assert(docs.take(t).contains(d as u32));
                    } else {
                        assert(docs[t] == d as u32);
                        assert(d == docs[t] as int);
                    }
                } else {
                    if docs.take(t).contains(d as u32) {
                        let i = choose|i: int| 0 <= i < t && #[trigger] docs.take(t)[i] == d as u32;
                        assert(docs.take(t + 1)[i] == d as u32);
                    }
                }
            }
        }
    }
}

/// Counts over a prefix grow one segment at a time.
pub proof fn lemma_total_take_snoc(segs: Seq<Seg>, p: int)
    requires
        0 <= p < segs.len(),
    ensures
        total_count(segs.take(p + 1)) == total_count(segs.take(p)) + segs[p].1.len(),
    decreases p,
{
    if p == 0 {
        assert(segs.take(1)[0] == segs[0]);
        assert(segs.take(1).skip(1) =~= Seq::<Seg>::empty());
        assert(segs.take(0) =~= Seq::<Seg>::empty());
    } else {
        lemma_total_take_snoc(segs.skip(1), p - 1);
        assert(segs.take(p + 1).skip(1) =~= segs.skip(1).take(p));
        assert(segs.take(p).skip(1) =~= segs.skip(1).take(p - 1));
        assert(segs.take(p + 1)[0] == segs[0]);
        assert(segs.take(p)[0] == segs[0]);
        assert(total_count(segs.take(p + 1)) == segs[0].1.len() + total_count(
            segs.skip(1).take(p),
        ));
        assert(total_count(segs.take(p)) == segs[0].1.len() + total_count(
            segs.skip(1).take(p - 1),
        ));
        assert(segs.skip(1)[p - 1] == segs[p]);
    }
}

/// With the whole posting volume as budget, every selected segment is
/// processed; with no budget, none is, and every accumulator stays zero.
pub proof fn lemma_budget_extremes(segs: Seq<Seg>, n_docs: int)
    requires
        n_docs >= 0,
        forall|i: int| 0 <= i < segs.len() ==> (#[trigger] segs[i]).1.len() > 0,
    ensures
        processed_count(segs, total_count(segs)) == segs.len(),
        processed_count(segs, 0) == 0,
        forall|d: int| 0 <= d < n_docs ==> acc_after(n_docs, segs, 0)[d] == 0,
{
    lemma_processed_all(segs, total_count(segs));
}

/// `a` strictly precedes `b` in the result order: a higher score, or an
/// equal score and a lower doc id.
pub open spec fn beats(acc: Seq<ScoreType>, a: int, b: int) -> bool {
    acc[a] > acc[b] || (acc[a] == acc[b] && a < b)
}

/// `d` appears among the results.
pub open spec fn in_res(res: Seq<Result>, d: int) -> bool {
    exists|j: int| 0 <= j < res.len() && (#[trigger] res[j]).doc_id == d
}

/// Every result precedes `d` in the result order.
pub open spec fn beats_all(acc: Seq<ScoreType>, res: Seq<Result>, d: int) -> bool {
    forall|i: int| 0 <= i < res.len() ==> beats(acc, (#[trigger] res[i]).doc_id as int, d)
}

/// `res` is the top-k of the accumulators: as many hits as `k` allows, each
/// scored from the accumulators, strictly ordered best first, and no doc
/// outside `res` precedes any doc inside it.
pub open spec fn is_topk(acc: Seq<ScoreType>, res: Seq<Result>, k: int) -> bool {
    &&& res.len() == if k <= acc.len() {
        k
    } else {
        acc.len() as int
    }
    &&& forall|i: int|
        0 <= i < res.len() ==> (#[trigger] res[i]).doc_id < acc.len()
            && res[i].score == acc[res[i].doc_id as int]
    &&& forall|i: int, j: int|
        0 <= i < j < res.len() ==> beats(
            acc,
            (#[trigger] res[i]).doc_id as int,
            (#[trigger] res[j]).doc_id as int,
        )
    &&& forall|d: int|
        0 <= d < acc.len() && !(#[trigger] in_res(res, d)) ==> beats_all(acc, res, d)
}

/// The order is asymmetric: two docs never both precede each other.
pub proof fn lemma_beats_asym(acc: Seq<ScoreType>, a: int, b: int)
    ensures
        !(beats(acc, a, b) && beats(acc, b, a)),
{
}

/// Inserts doc `m` (with score `acc[m]`) into the running top-k of the
/// first `m` accumulators, yielding the top-k of the first `m + 1`.
fn insert_candidate(
    best: &mut Vec<Result>,
    doc: u32,
    score: ScoreType,
    k: usize,
    Ghost(acc): Ghost<Seq<ScoreType>>,
)
    requires
        k >= 1,
        acc.len() <= u32::MAX,
        doc < acc.len(),
        is_topk(acc.take(doc as int), old(best)@, k as int),
        score == acc[doc as int],
    ensures
        is_topk(acc.take(doc as int + 1), final(best)@, k as int),
{
    let ghost m = doc as int;
    let ghost pre = acc.take(m);
    let ghost post = acc.take(m + 1);
    proof {
        assert(post.take(m) =~= pre);
        assert(post[m] == score);
        assert forall|x: int| 0 <= x < m implies post[x] == pre[x] by {}
        assert forall|a: int, b: int| 0 <= a < m && 0 <= b < m implies (beats(post, a, b) == beats(
            pre,
            a,
            b,
        )) by {}
    }
    // find the insert position: the first kept hit that doc would displace
    let mut i: usize = 0;
    loop
        invariant
            i <= best@.len(),
            forall|x: int|
                0 <= x < i ==> beats(post, (#[trigger] best@[x]).doc_id as int, m),
            is_topk(pre, best@, k as int),
            best@ == old(best)@,
            doc < acc.len(),
            m == doc as int,
            pre == acc.take(m),
            post == acc.take(m + 1),
            score == acc[m],
            k >= 1,
        ensures
            i <= best@.len(),
            forall|x: int|
                0 <= x < i ==> beats(post, (#[trigger] best@[x]).doc_id as int, m),
            i < best@.len() ==> beats(post, m, best@[i as int].doc_id as int),
            best@ == old(best)@,
        decreases best@.len() - i,
    {
        if i >= best.len() {
            break ;
        }
        let cur = best[i];
        if score > cur.score {
            proof {
                assert(beats(post, m, cur.doc_id as int));
            }
            break ;
        }
        proof {
            assert(cur.doc_id < m);
            assert(beats(post, best@[i as int].doc_id as int, m));
        }
        i = i + 1;
    }
    if best.len() < k {
        best.insert(i, Result { doc_id: doc, score });
    } else {
        if i < k {
            let mut j: usize = best.len() - 1;
            // shift the tail down by one, dropping the worst hit
            while j > i
                invariant
                    i <= j < best@.len(),
                    best@.len() == old(best)@.len(),
                    forall|x: int| 0 <= x <= j ==> best@[x] == old(best)@[x],
                    forall|x: int|
                        j < x < best@.len() ==> best@[x] == old(best)@[x - 1],
                decreases j,
            {
                let moved = best[j - 1];
                let entry = vstd::std_specs::vec::vec_index_mut(best, j);
                *entry = moved;
                j = j - 1;
            }
            let entry = vstd::std_specs::vec::vec_index_mut(best, i);
            *entry = Result { doc_id: doc, score };
        }
        // otherwise doc does not displace anything
    }
    proof {
        let nb = best@;
        let ob = old(best)@;
        if ob.len() < k {
            // inserted into a not-yet-full list
            assert(nb == ob.insert(i as int, Result { doc_id: doc, score }));
            assert(nb.len() == if k as int <= post.len() {
                k as int
            } else {
                post.len() as int
            });
            lemma_topk_after_insert(pre, post, ob, nb, k as int, m, i as int, score);
        } else if i < k {
            lemma_topk_after_displace(pre, post, ob, nb, k as int, m, i as int, score);
        } else {
            // doc was beaten by every kept hit
            assert(nb == ob);
            assert(i == ob.len());
            assert forall|a: int, b: int| 0 <= a < m && 0 <= b < m implies (beats(post, a, b)
                == beats(pre, a, b)) by {}
            assert forall|x: int, y: int| 0 <= x < y < nb.len() implies beats(
                post,
                (#[trigger] nb[x]).doc_id as int,
                (#[trigger] nb[y]).doc_id as int,
            ) by {
                assert(beats(pre, ob[x].doc_id as int, ob[y].doc_id as int));
            }
            assert forall|d: int|
                0 <= d < post.len() && !(#[trigger] in_res(nb, d)) implies beats_all(
                post,
                nb,
                d,
            ) by {
                if d < m {
                    assert(beats_all(pre, ob, d));
                    assert forall|x: int| 0 <= x < nb.len() implies beats(
                        post,
                        (#[trigger] nb[x]).doc_id as int,
                        d,
                    ) by {
                        assert(beats(pre, ob[x].doc_id as int, d));
                    }
                } else {
                    assert(d == m);
                    assert forall|x: int| 0 <= x < nb.len() implies beats(
                        post,
                        (#[trigger] nb[x]).doc_id as int,
                        d,
                    ) by {
                        assert(beats(post, ob[x].doc_id as int, m));
                    }
                }
            }
            assert(is_topk(post, nb, k as int));
        }
    }
}

/// Inserting a fresh best hit into a not-yet-full list keeps it a top-k.
proof fn lemma_topk_after_insert(
    pre: Seq<ScoreType>,
    post: Seq<ScoreType>,
    ob: Seq<Result>,
    nb: Seq<Result>,
    k: int,
    m: int,
    i: int,
    score: ScoreType,
)
    requires
        post.len() == m + 1,
        pre == post.take(m),
        is_topk(pre, ob, k),
        ob.len() < k,
        0 <= i <= ob.len(),
        nb == ob.insert(i, Result { doc_id: m as u32, score }),
        score == post[m],
        0 <= m < post.len(),
        m < u32::MAX,
        forall|x: int| 0 <= x < i ==> beats(post, (#[trigger] ob[x]).doc_id as int, m),
        i < ob.len() ==> beats(post, m, ob[i].doc_id as int),
    ensures
        is_topk(post, nb, k),
{
    assert(ob.len() == pre.len() || ob.len() == k);
    assert(ob.len() == m);
    assert(nb.len() == m + 1);
    assert forall|a: int, b: int| 0 <= a < m && 0 <= b < m implies (beats(post, a, b) == beats(
        pre,
        a,
        b,
    )) by {}
    assert forall|x: int, y: int| 0 <= x < y < nb.len() implies beats(
        post,
        (#[trigger] nb[x]).doc_id as int,
        (#[trigger] nb[y]).doc_id as int,
    ) by {
        if y < i {
            assert(nb[x] == ob[x] && nb[y] == ob[y]);
            assert(beats(pre, ob[x].doc_id as int, ob[y].doc_id as int));
        } else if y == i {
            assert(nb[x] == ob[x]);
            assert(beats(post, ob[x].doc_id as int, m));
        } else if x == i {
            assert(nb[y] == ob[y - 1]);
            assert(beats(post, m, ob[i].doc_id as int));
            if y - 1 > i {
                assert(beats(pre, ob[i].doc_id as int, ob[y - 1].doc_id as int));
                lemma_beats_trans(post, m, ob[i].doc_id as int, ob[y - 1].doc_id as int);
            }
        } else if x < i {
            assert(nb[x] == ob[x] && nb[y] == ob[y - 1]);
            if y - 1 == x {
                assert(beats(post, ob[x].doc_id as int, m));
                assert(beats(post, m, ob[i].doc_id as int));
            } else {
                assert(beats(pre, ob[x].doc_id as int, ob[y - 1].doc_id as int));
            }
        } else {
            assert(nb[x] == ob[x - 1] && nb[y] == ob[y - 1]);
            assert(beats(pre, ob[x - 1].doc_id as int, ob[y - 1].doc_id as int));
        }
    }
    assert forall|d: int| 0 <= d < post.len() && !(#[trigger] in_res(nb, d)) implies beats_all(
        post,
        nb,
        d,
    ) by {
        assert(d != m) by {
            if d == m {
                assert(nb[i].doc_id == d);
                assert(in_res(nb, d));
            }
        }
        assert(!in_res(ob, d)) by {
            if in_res(ob, d) {
                let j = choose|j: int| 0 <= j < ob.len() && (#[trigger] ob[j]).doc_id == d;
                if j < i {
                    assert(nb[j].doc_id == d);
                } else {
                    assert(nb[j + 1].doc_id == d);
                }
                assert(in_res(nb, d));
            }
        }
        assert(ob.len() == pre.len());
        lemma_full_prefix_has_all(pre, ob, k, d);
        assert(false);
    }
}

/// A top-k as long as its prefix contains every doc of the prefix.
proof fn lemma_full_prefix_has_all(pre: Seq<ScoreType>, ob: Seq<Result>, k: int, d: int)
    requires
        is_topk(pre, ob, k),
        ob.len() == pre.len(),
        0 <= d < pre.len(),
    ensures
        in_res(ob, d),
{
    assert forall|i: int, j: int|
        0 <= i < j < ob.len() implies (#[trigger] ob[i]).doc_id != (#[trigger] ob[j]).doc_id by {
        assert(beats(pre, ob[i].doc_id as int, ob[j].doc_id as int));
    }
    lemma_distinct_docs_pigeonhole(pre, ob, d);
}

/// `ob` holds distinct docs of the prefix; if it is as long as the prefix,
/// every doc occurs in it.
proof fn lemma_distinct_docs_pigeonhole(pre: Seq<ScoreType>, ob: Seq<Result>, d: int)
    requires
        forall|i: int| 0 <= i < ob.len() ==> (#[trigger] ob[i]).doc_id < pre.len(),
        forall|i: int, j: int|
            0 <= i < j < ob.len() ==> (#[trigger] ob[i]).doc_id != (#[trigger] ob[j]).doc_id,
        ob.len() == pre.len(),
        0 <= d < pre.len(),
    ensures
        in_res(ob, d),
{
    if in_res(ob, d) {
        return ;
    }
    lemma_doc_set_card(ob, ob.len() as int);
    let full = vstd::set_lib::set_int_range(0, pre.len() as int);
    vstd::set_lib::lemma_int_range(0, pre.len() as int);
    assert(doc_set(ob, ob.len() as int).subset_of(full.remove(d))) by {
        assert forall|x: int| doc_set(ob, ob.len() as int).contains(x) implies full.remove(
            d,
        ).contains(x) by {
            let i = choose|i: int| 0 <= i < ob.len() && (#[trigger] ob[i]).doc_id == x;
            assert(x != d) by {
                if x == d {
                    assert(in_res(ob, d));
                }
            }
        }
    }
    assert(full.remove(d).finite());
    vstd::set_lib::lemma_len_subset(doc_set(ob, ob.len() as int), full.remove(d));
    assert(full.contains(d));
    assert(full.remove(d).len() == full.len() - 1);
    assert(false);
}

/// The docs of the first `n` results, as a set.
pub open spec fn doc_set(ob: Seq<Result>, n: int) -> Set<int>
    decreases n,
{
    if n <= 0 {
        Set::empty()
    } else {
        doc_set(ob, n - 1).insert(ob[n - 1].doc_id as int)
    }
}

proof fn lemma_doc_set_card(ob: Seq<Result>, n: int)
    requires
        0 <= n <= ob.len(),
        forall|i: int, j: int|
            0 <= i < j < ob.len() ==> (#[trigger] ob[i]).doc_id != (#[trigger] ob[j]).doc_id,
    ensures
        doc_set(ob, n).finite(),
        doc_set(ob, n).len() == n,
        forall|x: int|
            doc_set(ob, n).contains(x) <==> exists|i: int|
                0 <= i < n && (#[trigger] ob[i]).doc_id == x,
    decreases n,
{
    if n > 0 {
        lemma_doc_set_card(ob, n - 1);
        assert(!doc_set(ob, n - 1).contains(ob[n - 1].doc_id as int));
    }
}

pub proof fn lemma_beats_trans(acc: Seq<ScoreType>, a: int, b: int, c: int)
    requires
        beats(acc, a, b),
        beats(acc, b, c),
    ensures
        beats(acc, a, c),
{
}

/// Displacing the worst hit of a full list with a strictly better fresh
/// one keeps it a top-k.
proof fn lemma_topk_after_displace(
    pre: Seq<ScoreType>,
    post: Seq<ScoreType>,
    ob: Seq<Result>,
    nb: Seq<Result>,
    k: int,
    m: int,
    i: int,
    score: ScoreType,
)
    requires
        post.len() == m + 1,
        pre == post.take(m),
        is_topk(pre, ob, k),
        ob.len() == k,
        k >= 1,
        0 <= i < k,
        nb.len() == k,
        forall|x: int| 0 <= x < i ==> (#[trigger] nb[x]) == ob[x],
        nb[i] == (Result { doc_id: m as u32, score }),
        forall|x: int| i < x < k ==> (#[trigger] nb[x]) == ob[x - 1],
        score == post[m],
        0 <= m < post.len(),
        m < u32::MAX,
        forall|x: int| 0 <= x < i ==> beats(post, (#[trigger] ob[x]).doc_id as int, m),
        beats(post, m, ob[i].doc_id as int),
    ensures
        is_topk(post, nb, k),
{
    assert forall|a: int, b: int| 0 <= a < m && 0 <= b < m implies (beats(post, a, b) == beats(
        pre,
        a,
        b,
    )) by {}
    assert forall|x: int, y: int| 0 <= x < y < nb.len() implies beats(
        post,
        (#[trigger] nb[x]).doc_id as int,
        (#[trigger] nb[y]).doc_id as int,
    ) by {
        if y < i {
            assert(beats(pre, ob[x].doc_id as int, ob[y].doc_id as int));
        } else if y == i {
            assert(beats(post, ob[x].doc_id as int, m));
        } else if x == i {
            assert(beats(post, m, ob[i].doc_id as int));
            if y - 1 > i {
                assert(beats(pre, ob[i].doc_id as int, ob[y - 1].doc_id as int));
                lemma_beats_trans(post, m, ob[i].doc_id as int, ob[y - 1].doc_id as int);
            }
        } else if x < i {
            if y - 1 == x {
                assert(beats(post, ob[x].doc_id as int, m));
                assert(beats(post, m, ob[i].doc_id as int));
                lemma_beats_trans(post, ob[x].doc_id as int, m, ob[i].doc_id as int);
                assert(x == i - 1 && y == i + 1 && i > 0);
                assert(beats(post, nb[x].doc_id as int, nb[y].doc_id as int)) by {
                    assert(nb[y] == ob[i - 1 + 1 - 1]);
                }
            } else {
                assert(beats(pre, ob[x].doc_id as int, ob[y - 1].doc_id as int));
            }
        } else {
            assert(beats(pre, ob[x - 1].doc_id as int, ob[y - 1].doc_id as int));
        }
    }
    let dropped = ob[k - 1];
    assert forall|d: int| 0 <= d < post.len() && !(#[trigger] in_res(nb, d)) implies beats_all(
        post,
        nb,
        d,
    ) by {
        assert(d != m) by {
            if d == m {
                assert(nb[i].doc_id == d);
                assert(in_res(nb, d));
            }
        }
        if d == dropped.doc_id as int {
            // the dropped hit is beaten by the fresh one, and by everything
            // that beat it before
            assert forall|x: int| 0 <= x < nb.len() implies beats(
                post,
                (#[trigger] nb[x]).doc_id as int,
                d,
            ) by {
                if x == i {
                    assert(beats(post, m, ob[i].doc_id as int));
                    if i < k - 1 {
                        assert(beats(pre, ob[i].doc_id as int, ob[k - 1].doc_id as int));
                        lemma_beats_trans(post, m, ob[i].doc_id as int, d);
                    }
                } else if x < i {
                    if i <= k - 1 && x < k - 1 {
                        assert(beats(pre, ob[x].doc_id as int, ob[k - 1].doc_id as int));
                    }
                } else {
                    assert(nb[x] == ob[x - 1]);
                    if x - 1 < k - 1 {
                        assert(beats(pre, ob[x - 1].doc_id as int, ob[k - 1].doc_id as int));
                    }
                }
            }
        } else {
            assert(!in_res(ob, d)) by {
                if in_res(ob, d) {
                    let j = choose|j: int| 0 <= j < ob.len() && (#[trigger] ob[j]).doc_id == d;
                    assert(j < k - 1);
                    if j < i {
                        assert(nb[j].doc_id == d);
                    } else {
                        assert(nb[j + 1].doc_id == d);
                    }
                    assert(in_res(nb, d));
                }
            }
            assert(beats_all(pre, ob, d));
            assert forall|x: int| 0 <= x < nb.len() implies beats(
                post,
                (#[trigger] nb[x]).doc_id as int,
                d,
            ) by {
                if x == i {
                    assert(beats(pre, ob[i].doc_id as int, d));
                    lemma_beats_trans(post, m, ob[i].doc_id as int, d);
                } else if x < i {
                    assert(beats(pre, ob[x].doc_id as int, d));
                } else {
                    assert(beats(pre, ob[x - 1].doc_id as int, d));
                }
            }
        }
    }
}

/// Selects the top `k` docs by accumulator score, best first, skipping any
/// chunk whose running maximum cannot beat the current k-th score.
pub fn determine_topk_chunks(
    accumulators: &Vec<ScoreType>,
    chunks: &Vec<ScoreType>,
    k: usize,
) -> (r: Vec<Result>)
    requires
        k >= 1,
        accumulators@.len() <= u32::MAX,
        chunks@.len() * CHUNK_SIZE >= accumulators@.len(),
        forall|d: int|
            0 <= d < accumulators@.len() ==> #[trigger] accumulators@[d] <= chunks@[d / (
            CHUNK_SIZE as int)],
    ensures
        is_topk(accumulators@, r@, k as int),
{
    let ghost acc = accumulators@;
    let n = accumulators.len();
    let mut best: Vec<Result> = Vec::new();
    let mut c: usize = 0;
    let mut chunk_start: usize = 0;
    proof {
        assert(acc.take(0) =~= Seq::<ScoreType>::empty());
    }
    while chunk_start < n
        invariant
            acc == accumulators@,
            n == acc.len(),
            n <= u32::MAX,
            k >= 1,
            chunks@.len() * CHUNK_SIZE >= n,
            forall|d: int|
                0 <= d < acc.len() ==> #[trigger] acc[d] <= chunks@[d / (CHUNK_SIZE as int)],
            chunk_start == chunk_floor(n as int, c as int),
            c as int * CHUNK_SIZE == chunk_start || chunk_start == n,
            is_topk(acc.take(chunk_start as int), best@, k as int),
        decreases n - chunk_start,
    {
        let chunk_end = if n - chunk_start > CHUNK_SIZE {
            chunk_start + CHUNK_SIZE
        } else {
            n
        };
        proof {
            assert(c as int * CHUNK_SIZE == chunk_start);
            assert(chunk_floor(n as int, c as int + 1) == chunk_end) by {
                assert((c as int + 1) * CHUNK_SIZE == c as int * CHUNK_SIZE + CHUNK_SIZE);
            }
            assert(c < chunks@.len()) by {
                assert(c as int * CHUNK_SIZE < chunks@.len() * CHUNK_SIZE);
                lemma_mul_lt_cancel(c as int, chunks@.len() as int, CHUNK_SIZE as int);
            }
        }
        let worst: ScoreType = if best.len() == k {
            best[k - 1].score
        } else {
            0
        };
        if best.len() == k && chunks[c] <= worst {
            // no doc in this chunk can displace the current k-th hit
            proof {
                assert forall|d: int| chunk_start <= d < chunk_end implies #[trigger] acc[d]
                    <= chunks@[c as int] by {
                    assert(d / (CHUNK_SIZE as int) == c) by (nonlinear_arith)
                        requires
                            c as int * CHUNK_SIZE <= d,
                            d < c as int * CHUNK_SIZE + CHUNK_SIZE,
                            CHUNK_SIZE == 2048,
                    ;
                }
                lemma_topk_skip_chunk(
                    acc,
                    best@,
                    k as int,
                    chunk_start as int,
                    chunk_end as int,
                    chunks@[c as int],
                );
            }
        } else {
            let mut d = chunk_start;
            while d < chunk_end
                invariant
                    acc == accumulators@,
                    n == acc.len(),
                    n <= u32::MAX,
                    k >= 1,
                    chunk_start <= d <= chunk_end <= n,
                    is_topk(acc.take(d as int), best@, k as int),
                decreases chunk_end - d,
            {
                let score = accumulators[d];
                insert_candidate(&mut best, d as u32, score, k, Ghost(acc));
                d = d + 1;
            }
        }
        proof {
            if chunk_end < n {
                assert((c as int + 1) * CHUNK_SIZE == chunk_end);
            }
        }
        chunk_start = chunk_end;
        c = c + 1;
    }
    proof {
        assert(acc.take(n as int) =~= acc);
    }
    best
}

/// How many docs the chunks before `c` cover, clipped to `n`.
pub open spec fn chunk_floor(n: int, c: int) -> int {
    if c * CHUNK_SIZE < n {
        c * CHUNK_SIZE
    } else {
        n
    }
}

proof fn lemma_mul_lt_cancel(a: int, b: int, m: int)
    requires
        a * m < b * m,
        m > 0,
    ensures
        a < b,
{
    if a >= b {
        assert(a * m >= b * m) by (nonlinear_arith)
            requires
                a >= b,
                m > 0,
        ;
    }
}

/// A full top-k stays a top-k over a longer prefix whose new docs all score
/// no higher than the current k-th hit.
proof fn lemma_topk_skip_chunk(
    acc: Seq<ScoreType>,
    best: Seq<Result>,
    k: int,
    lo: int,
    hi: int,
    cmax: ScoreType,
)
    requires
        0 <= lo <= hi <= acc.len(),
        is_topk(acc.take(lo), best, k),
        best.len() == k,
        k >= 1,
        forall|d: int| lo <= d < hi ==> #[trigger] acc[d] <= cmax,
        cmax <= best[k - 1].score,
    ensures
        is_topk(acc.take(hi), best, k),
{
    let pre = acc.take(lo);
    let post = acc.take(hi);
    assert forall|x: int| 0 <= x < pre.len() implies post[x] == pre[x] by {}
    assert forall|a: int, b: int| 0 <= a < lo && 0 <= b < lo implies (beats(post, a, b) == beats(
        pre,
        a,
        b,
    )) by {}
    assert forall|x: int, y: int| 0 <= x < y < best.len() implies beats(
        post,
        (#[trigger] best[x]).doc_id as int,
        (#[trigger] best[y]).doc_id as int,
    ) by {
        assert(beats(pre, best[x].doc_id as int, best[y].doc_id as int));
    }
    assert forall|d: int| 0 <= d < post.len() && !(#[trigger] in_res(best, d)) implies beats_all(
        post,
        best,
        d,
    ) by {
        if d < lo {
            assert(beats_all(pre, best, d));
            assert forall|x: int| 0 <= x < best.len() implies beats(
                post,
                (#[trigger] best[x]).doc_id as int,
                d,
            ) by {
                assert(beats(pre, best[x].doc_id as int, d));
            }
        } else {
            assert(acc[d] <= cmax);
            assert forall|x: int| 0 <= x < best.len() implies beats(
                post,
                (#[trigger] best[x]).doc_id as int,
                d,
            ) by {
                assert(best[x].score >= best[k - 1].score) by {
                    if x < k - 1 {
                        assert(beats(pre, best[x].doc_id as int, best[k - 1].doc_id as int));
                    }
                }
                assert(post[best[x].doc_id as int] == best[x].score);
                assert(post[d] == acc[d]);
                assert(best[x].doc_id < lo <= d);
            }
        }
    }
}


/// Any two top-k selections over the same accumulators are identical: the
/// chunk-skipping scan returns exactly what a full scan returns.
pub proof fn lemma_topk_unique(acc: Seq<ScoreType>, r1: Seq<Result>, r2: Seq<Result>, k: int)
    requires
        is_topk(acc, r1, k),
        is_topk(acc, r2, k),
    ensures
        r1 == r2,
{
    lemma_topk_prefix_eq(acc, r1, r2, k, r1.len() as int);
    assert(r1 =~= r2);
}

/// The two selections agree on their first `upto` hits.
proof fn lemma_topk_prefix_eq(acc: Seq<ScoreType>, r1: Seq<Result>, r2: Seq<Result>, k: int, upto: int)
    requires
        is_topk(acc, r1, k),
        is_topk(acc, r2, k),
        0 <= upto <= r1.len(),
    ensures
        forall|x: int| 0 <= x < upto ==> r1[x] == r2[x],
    decreases upto,
{
    if upto > 0 {
        let i = upto - 1;
        lemma_topk_prefix_eq(acc, r1, r2, k, i);
        let d1 = r1[i].doc_id as int;
        let d2 = r2[i].doc_id as int;
        if d1 != d2 {
            assert(beats(acc, d2, d1)) by {
                if in_res(r2, d1) {
                    let j = choose|j: int| 0 <= j < r2.len() && (#[trigger] r2[j]).doc_id == d1;
                    assert(j != i);
                    if j < i {
                        assert(r1[j] == r2[j]);
                        lemma_beats_irrefl_docs(acc, r1, j, i);
                    } else {
                        assert(beats(acc, r2[i].doc_id as int, r2[j].doc_id as int));
                    }
                } else {
                    assert(beats_all(acc, r2, d1));
                    assert(beats(acc, r2[i].doc_id as int, d1));
                }
            }
            assert(beats(acc, d1, d2)) by {
                if in_res(r1, d2) {
                    let j = choose|j: int| 0 <= j < r1.len() && (#[trigger] r1[j]).doc_id == d2;
                    assert(j != i);
                    if j < i {
                        assert(r2[j] == r1[j]);
                        lemma_beats_irrefl_docs(acc, r2, j, i);
                    } else {
                        assert(beats(acc, r1[i].doc_id as int, r1[j].doc_id as int));
                    }
                } else {
                    assert(beats_all(acc, r1, d2));
                    assert(beats(acc, r1[i].doc_id as int, d2));
                }
            }
            lemma_beats_asym(acc, d1, d2);
        }
        assert(r1[i].score == acc[d1] && r2[i].score == acc[d2]);
    }
}

/// Within one selection, two positions never hold the same doc.
proof fn lemma_beats_irrefl_docs(acc: Seq<ScoreType>, r: Seq<Result>, a: int, b: int)
    requires
        is_topk_sorted(acc, r),
        0 <= a < b < r.len(),
    ensures
        r[a].doc_id != r[b].doc_id,
{
    assert(beats(acc, r[a].doc_id as int, r[b].doc_id as int));
}

/// Just the ordering part of `is_topk`.
pub open spec fn is_topk_sorted(acc: Seq<ScoreType>, res: Seq<Result>) -> bool {
    forall|i: int, j: int|
        0 <= i < j < res.len() ==> beats(
            acc,
            (#[trigger] res[i]).doc_id as int,
            (#[trigger] res[j]).doc_id as int,
        )
}

} // verus!
