use ioqp::compress::Compressor;
use ioqp::compress::SimdBPandStreamVbyte;
use ioqp::index::Index;
use ioqp::index::IndexError;
use ioqp::query::Term;
use ioqp::search::Scratch;
use ioqp::util::determine_max;

fn docmap(n: usize) -> Vec<String> {
    (0..n).map(|i| format!("doc{}", i)).collect()
}

fn term(token: &str, freq: u32) -> Term {
    Term { token: token.to_string(), freq }
}

// One term with postings [(1, tf 3), (2, tf 1), (3, tf 2)] under identity
// scoring: the top three are doc 1 (score 3), doc 3 (score 2), doc 2
// (score 1).
#[test]
fn trivial_list() {
    let postings = vec![("T".to_string(), vec![(1u32, 3u16), (2, 1), (3, 2)])];
    let index = Index::<SimdBPandStreamVbyte>::from_postings(docmap(4), &postings).unwrap();
    let res = index.query_fixed(&[term("T", 1)], i64::MAX, Some(5), 3);
    assert_eq!(res.qid, 5);
    let hits: Vec<(u32, u16)> = res.topk.iter().map(|r| (r.doc_id, r.score)).collect();
    assert_eq!(hits, vec![(1, 3), (3, 2), (2, 1)]);
}

// Term A: one segment, impact 10, docs 1..=100. Term B: one segment,
// impact 5, docs 50..=150. A budget of 100 postings lets A through and
// stops before B, so the top five all score 10.
#[test]
fn budget_cutoff() {
    let a_docs: Vec<(u32, u16)> = (1u32..=100).map(|d| (d, 10u16)).collect();
    let b_docs: Vec<(u32, u16)> = (50u32..=150).map(|d| (d, 5u16)).collect();
    let postings = vec![("A".to_string(), a_docs), ("B".to_string(), b_docs)];
    let index = Index::<SimdBPandStreamVbyte>::from_postings(docmap(151), &postings).unwrap();
    let res = index.query_fixed(&[term("A", 1), term("B", 1)], 100, None, 5);
    let hits: Vec<(u32, u16)> = res.topk.iter().map(|r| (r.doc_id, r.score)).collect();
    assert_eq!(hits, vec![(1, 10), (2, 10), (3, 10), (4, 10), (5, 10)]);
}

// A weighted term scores each covered doc at impact times weight.
#[test]
fn weighted_term_scores() {
    let postings = vec![
        ("cat".to_string(), vec![(1u32, 1u16)]),
        ("dog".to_string(), vec![(2u32, 1u16)]),
    ];
    let index = Index::<SimdBPandStreamVbyte>::from_postings(docmap(3), &postings).unwrap();
    let res = index.query_fixed(&[term("cat", 2), term("dog", 1)], i64::MAX, None, 2);
    let hits: Vec<(u32, u16)> = res.topk.iter().map(|r| (r.doc_id, r.score)).collect();
    assert_eq!(hits, vec![(1, 2), (2, 1)]);
}

// A fraction of one processes everything: same results as an unbounded
// fixed budget.
#[test]
fn fraction_one_processes_all() {
    let postings = vec![
        ("T".to_string(), vec![(1u32, 3u16), (2, 1), (3, 2)]),
        ("U".to_string(), vec![(2u32, 4u16), (3, 1)]),
    ];
    let index = Index::<SimdBPandStreamVbyte>::from_postings(docmap(4), &postings).unwrap();
    let terms = [term("T", 1), term("U", 1)];
    let fixed = index.query_fixed(&terms, i64::MAX, None, 4);
    let frac = index.query_fraction(&terms, 1, 1, None, 4);
    let a: Vec<(u32, u16)> = fixed.topk.iter().map(|r| (r.doc_id, r.score)).collect();
    let b: Vec<(u32, u16)> = frac.topk.iter().map(|r| (r.doc_id, r.score)).collect();
    assert_eq!(a, b);
    assert_eq!(&a[..3], &[(2, 5), (1, 3), (3, 3)]);
}

// A fraction of zero processes nothing: the top-k are the lowest doc ids,
// all at score zero.
#[test]
fn fraction_zero_processes_nothing() {
    let postings = vec![("T".to_string(), vec![(1u32, 3u16), (2, 1), (3, 2)])];
    let index = Index::<SimdBPandStreamVbyte>::from_postings(docmap(4), &postings).unwrap();
    let res = index.query_fraction(&[term("T", 1)], 0, 1, None, 2);
    let hits: Vec<(u32, u16)> = res.topk.iter().map(|r| (r.doc_id, r.score)).collect();
    assert_eq!(hits, vec![(0, 0), (1, 0)]);
}

// An unknown term changes nothing.
#[test]
fn unknown_term_is_ignored() {
    let postings = vec![("realterm".to_string(), vec![(1u32, 2u16), (3, 1)])];
    let index = Index::<SimdBPandStreamVbyte>::from_postings(docmap(4), &postings).unwrap();
    let with = index.query_fixed(&[term("realterm", 1), term("bogusterm", 1)], i64::MAX, Some(2), 3);
    let without = index.query_fixed(&[term("realterm", 1)], i64::MAX, Some(2), 3);
    let a: Vec<(u32, u16)> = with.topk.iter().map(|r| (r.doc_id, r.score)).collect();
    let b: Vec<(u32, u16)> = without.topk.iter().map(|r| (r.doc_id, r.score)).collect();
    assert_eq!(a, b);
}

// Larger budgets never lower a kept doc's score.
#[test]
fn budget_monotone() {
    let a_docs: Vec<(u32, u16)> = (1u32..=100).map(|d| (d, 10u16)).collect();
    let b_docs: Vec<(u32, u16)> = (50u32..=150).map(|d| (d, 5u16)).collect();
    let postings = vec![("A".to_string(), a_docs), ("B".to_string(), b_docs)];
    let index = Index::<SimdBPandStreamVbyte>::from_postings(docmap(151), &postings).unwrap();
    let terms = [term("A", 1), term("B", 1)];
    let small = index.query_fixed(&terms, 100, None, 5);
    let large = index.query_fixed(&terms, 1000, None, 5);
    for r1 in &small.topk {
        for r2 in &large.topk {
            if r1.doc_id == r2.doc_id {
                assert!(r1.score <= r2.score);
            }
        }
    }
    // with both segments processed, docs 50..=100 carry both impacts
    let hits: Vec<(u32, u16)> = large.topk.iter().map(|r| (r.doc_id, r.score)).collect();
    assert_eq!(hits, vec![(50, 15), (51, 15), (52, 15), (53, 15), (54, 15)]);
}

// Ties break toward the lower doc id, and scores never increase down the
// result list.
#[test]
fn tie_break_and_order() {
    let postings = vec![("T".to_string(), vec![(2u32, 5u16), (4, 5), (7, 5), (9, 9)])];
    let index = Index::<SimdBPandStreamVbyte>::from_postings(docmap(10), &postings).unwrap();
    let res = index.query_fixed(&[term("T", 1)], i64::MAX, None, 3);
    let hits: Vec<(u32, u16)> = res.topk.iter().map(|r| (r.doc_id, r.score)).collect();
    assert_eq!(hits, vec![(9, 9), (2, 5), (4, 5)]);
    for w in res.topk.windows(2) {
        assert!(w[0].score >= w[1].score);
    }
}

// Reusing one scratch across queries gives the same results.
#[test]
fn scratch_reuse() {
    let postings = vec![("T".to_string(), vec![(1u32, 3u16), (2, 1), (3, 2)])];
    let index = Index::<SimdBPandStreamVbyte>::from_postings(docmap(4), &postings).unwrap();
    let mut scratch = Scratch::from_index(
        index.max_level(),
        ioqp::query::MAX_TERM_WEIGHT,
        index.max_doc_id() as u32,
    );
    let r1 = index.query_fixed_with(&mut scratch, &[term("T", 1)], i64::MAX, None, 2);
    let r2 = index.query_fixed_with(&mut scratch, &[term("T", 1)], i64::MAX, None, 2);
    let a: Vec<(u32, u16)> = r1.topk.iter().map(|r| (r.doc_id, r.score)).collect();
    let b: Vec<(u32, u16)> = r2.topk.iter().map(|r| (r.doc_id, r.score)).collect();
    assert_eq!(a, b);
    index.query_warmup(&[term("T", 1)]);
}

fn build_err(map: Vec<String>, postings: &Vec<(String, Vec<(u32, u16)>)>) -> IndexError {
    match Index::<SimdBPandStreamVbyte>::from_postings(map, postings) {
        Ok(_) => panic!("expected the builder to refuse this input"),
        Err(e) => e,
    }
}

#[test]
fn builder_error_variants() {
    let good = vec![("T".to_string(), vec![(1u32, 3u16)])];
    assert_eq!(build_err(Vec::new(), &good), IndexError::BadDocmap);
    let out_of_range = vec![("T".to_string(), vec![(9u32, 3u16)])];
    assert_eq!(build_err(docmap(4), &out_of_range), IndexError::DocIdOutOfRange);
    let not_increasing = vec![("T".to_string(), vec![(2u32, 3u16), (2, 1)])];
    assert_eq!(build_err(docmap(4), &not_increasing), IndexError::PostingsNotIncreasing);
    let duplicate = vec![
        ("T".to_string(), vec![(1u32, 3u16)]),
        ("T".to_string(), vec![(2u32, 1u16)]),
    ];
    assert_eq!(build_err(docmap(4), &duplicate), IndexError::DuplicateTerm);
    let overflow = vec![("T".to_string(), vec![(1u32, 3000u16)])];
    assert_eq!(build_err(docmap(4), &overflow), IndexError::ImpactOverflow);
}

#[test]
fn index_getters() {
    let postings = vec![("T".to_string(), vec![(1u32, 3u16), (2, 1), (3, 2)])];
    let index = Index::<SimdBPandStreamVbyte>::from_postings(docmap(4), &postings).unwrap();
    assert_eq!(index.max_doc_id(), 3);
    assert_eq!(index.max_level(), 3);
    assert_eq!(index.levels(), 3);
    assert_eq!(index.num_postings(), 3);
    assert_eq!(index.docmap().len(), 4);
    assert!(index.impact_list("T").is_some());
    assert!(index.impact_list("missing").is_none());
    assert_eq!(index.impact_list("T").unwrap().impacts.len(), 3);
}

#[test]
fn determine_max_behaviour() {
    assert_eq!(determine_max(&[1, 7, 3], 0), 7);
    assert_eq!(determine_max(&[1, 7, 3], 9), 9);
}

// Tearing an index into its stored parts and validating them back yields an
// index that answers queries identically; corrupted parts are refused.
#[test]
fn parts_roundtrip_and_validation() {
    let postings = vec![
        ("T".to_string(), vec![(1u32, 3u16), (2, 1), (3, 2)]),
        ("U".to_string(), vec![(2u32, 4u16), (3, 1)]),
    ];
    let index = Index::<SimdBPandStreamVbyte>::from_postings(docmap(4), &postings).unwrap();
    let vocab = index.vocab_entries().clone();
    let blob = index.list_data().clone();
    let map = index.docmap().clone();
    let restored = match Index::<SimdBPandStreamVbyte>::from_parts(
        map.clone(),
        vocab.clone(),
        blob.clone(),
        index.levels(),
        index.max_level(),
        index.num_postings(),
        index.compressor_tag(),
    ) {
        Ok(idx) => idx,
        Err(_) => panic!("sound parts must validate"),
    };
    let terms = [term("T", 1), term("U", 1)];
    let a: Vec<(u32, u16)> = index
        .query_fixed(&terms, i64::MAX, None, 4)
        .topk
        .iter()
        .map(|r| (r.doc_id, r.score))
        .collect();
    let b: Vec<(u32, u16)> = restored
        .query_fixed(&terms, i64::MAX, None, 4)
        .topk
        .iter()
        .map(|r| (r.doc_id, r.score))
        .collect();
    assert_eq!(a, b);

    // a truncated blob cannot decode and is refused
    let mut short_blob = blob.clone();
    short_blob.pop();
    let refused = Index::<SimdBPandStreamVbyte>::from_parts(
        map.clone(),
        vocab.clone(),
        short_blob,
        index.levels(),
        index.max_level(),
        index.num_postings(),
        index.compressor_tag(),
    );
    assert!(matches!(refused, Err(IndexError::CorruptList)));

    // bytes written by another codec are refused up front
    let wrong_tag = Index::<SimdBPandStreamVbyte>::from_parts(
        map,
        vocab,
        blob,
        index.levels(),
        index.max_level(),
        index.num_postings(),
        ioqp::compress::Uncompressed::tag(),
    );
    assert!(matches!(wrong_tag, Err(IndexError::WrongCompressor)));
}

// Lists sit back to back in the blob: the first starts at zero, each next
// one starts where the previous ends, and together they cover the blob.
#[test]
fn blob_layout_is_contiguous() {
    let postings = vec![
        ("T".to_string(), vec![(1u32, 3u16), (2, 1), (3, 2)]),
        ("U".to_string(), vec![(2u32, 4u16), (3, 1)]),
        ("V".to_string(), vec![(0u32, 2u16)]),
    ];
    let index = Index::<SimdBPandStreamVbyte>::from_postings(docmap(4), &postings).unwrap();
    let vocab = index.vocab_entries();
    let mut expected_start = 0usize;
    for (_, list) in vocab.iter() {
        assert_eq!(list.start_byte_offset, expected_start);
        let list_bytes: usize = list.impacts.iter().map(|m| m.bytes as usize).sum();
        expected_start += list_bytes;
    }
    assert_eq!(index.list_data().len(), expected_start);
}
