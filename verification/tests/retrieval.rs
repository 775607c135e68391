use rusty_sticker::dataset::Dataset;
use rusty_sticker::fx::{add_sat, fx_pow, isqrt128, mul_div, FX_ONE, FX_ONE32};
use rusty_sticker::index::DatasetIndex;
use rusty_sticker::ranking::{offer_entry, TieBreak};

const F: u32 = 65536;

fn two_doc_index() -> DatasetIndex {
    // doc0: features {1: 1.0, 2: 1.0}, labels {10}
    // doc1: features {1: 1.0}, labels {20}
    let mut ds = Dataset::new();
    ds.push(vec![(1, F), (2, F)], vec![10]);
    ds.push(vec![(1, F)], vec![20]);
    DatasetIndex::new(ds)
}

#[test]
fn isqrt_exact_values() {
    assert_eq!(isqrt128(0), 0);
    assert_eq!(isqrt128(1), 1);
    assert_eq!(isqrt128(2), 1);
    assert_eq!(isqrt128(4294967296), 65536);
    assert_eq!(isqrt128(8589934592), 92681);
    assert_eq!(isqrt128(u64::MAX as u128), 4294967295);
}

#[test]
fn fixed_point_saturation() {
    assert_eq!(add_sat(u64::MAX, 1), u64::MAX);
    assert_eq!(add_sat(3, 4), 7);
    assert_eq!(mul_div(u64::MAX, u64::MAX, 1), u64::MAX);
    assert_eq!(mul_div(6, 7, 2), 21);
}

#[test]
fn fixed_point_powers() {
    assert_eq!(fx_pow(32768, 0, FX_ONE), FX_ONE);
    assert_eq!(fx_pow(32768, 1, FX_ONE), 32768);
    assert_eq!(fx_pow(32768, 2, FX_ONE), 16384);
    assert_eq!(fx_pow(FX_ONE32, 3, FX_ONE32), FX_ONE32);
}

#[test]
fn shortlist_keeps_capacity_and_order() {
    let mut list: Vec<(u32, u64)> = Vec::new();
    offer_entry(&mut list, 0, 10, 2, TieBreak::NewFirst);
    offer_entry(&mut list, 1, 30, 2, TieBreak::NewFirst);
    offer_entry(&mut list, 2, 20, 2, TieBreak::NewFirst);
    assert_eq!(list, vec![(1, 30), (2, 20)]);
    offer_entry(&mut list, 3, 5, 2, TieBreak::NewFirst);
    assert_eq!(list, vec![(1, 30), (2, 20)]);
}

#[test]
fn shortlist_newest_wins_ties() {
    let mut list: Vec<(u32, u64)> = Vec::new();
    offer_entry(&mut list, 0, 10, 3, TieBreak::NewFirst);
    offer_entry(&mut list, 1, 10, 3, TieBreak::NewFirst);
    offer_entry(&mut list, 2, 10, 3, TieBreak::NewFirst);
    assert_eq!(list, vec![(2, 10), (1, 10), (0, 10)]);
}

#[test]
fn shortlist_smaller_key_wins_ties() {
    let mut list: Vec<(u32, u64)> = Vec::new();
    offer_entry(&mut list, 5, 10, 3, TieBreak::SmallKeyFirst);
    offer_entry(&mut list, 3, 10, 3, TieBreak::SmallKeyFirst);
    offer_entry(&mut list, 4, 10, 3, TieBreak::SmallKeyFirst);
    assert_eq!(list, vec![(3, 10), (4, 10), (5, 10)]);
}

#[test]
fn index_stores_normalized_weights() {
    let index = two_doc_index();
    // norm(doc0) = isqrt(2 * 2^32) = 92681, weight = 2^32 / 92681 = 46341
    assert_eq!(index.nfeatures_list, vec![2, 1]);
    assert_eq!(index.postings[1], vec![(0, 46341), (1, 65536)]);
    assert_eq!(index.postings[2], vec![(0, 46341)]);
    assert_eq!(index.labelvecs, vec![vec![10], vec![20]]);
}

#[test]
fn zero_norm_document_contributes_no_postings() {
    let mut ds = Dataset::new();
    ds.push(vec![(1, 0), (2, 0)], vec![7]);
    ds.push(vec![(1, F)], vec![8]);
    let index = DatasetIndex::new(ds);
    // feature 1's list only carries doc1; the zero-norm document created
    // no posting list at all, not even for its own feature 2
    assert_eq!(index.postings.len(), 2);
    assert_eq!(index.postings[1], vec![(1, 65536)]);
    assert_eq!(index.nfeatures_list, vec![2, 1]);
}

#[test]
fn find_nearests_ranks_exact_match_first() {
    let index = two_doc_index();
    let mut ctx = index.new_context();
    let query = vec![(1, F)];
    let found = index.find_nearests(&query, 2, 0, &mut ctx);
    // doc1 scores 1.0 (2^32), doc0 scores 1/sqrt(2) (65536 * 46341)
    assert_eq!(found, vec![(1, 4294967296), (0, 3037003776)]);
    // every scratch slot is handed back zeroed
    assert!(ctx.iter().all(|&slot| slot == (0, 0)));
}

#[test]
fn find_nearests_is_idempotent() {
    let index = two_doc_index();
    let mut ctx = index.new_context();
    let query = vec![(1, F), (2, F / 2)];
    let first = index.find_nearests(&query, 2, 1, &mut ctx);
    let second = index.find_nearests(&query, 2, 1, &mut ctx);
    assert_eq!(first, second);
}

#[test]
fn find_nearests_newer_document_wins_score_tie() {
    let mut ds = Dataset::new();
    ds.push(vec![(1, F)], vec![1]);
    ds.push(vec![(1, F)], vec![2]);
    let index = DatasetIndex::new(ds);
    let mut ctx = index.new_context();
    let found = index.find_nearests(&vec![(1, F)], 2, 0, &mut ctx);
    assert_eq!(found, vec![(1, 4294967296), (0, 4294967296)]);
}

#[test]
fn find_nearests_respects_capacity() {
    let mut ds = Dataset::new();
    for i in 0..5u32 {
        ds.push(vec![(1, F + i)], vec![i]);
    }
    let index = DatasetIndex::new(ds);
    let mut ctx = index.new_context();
    let found = index.find_nearests(&vec![(1, F)], 3, 0, &mut ctx);
    assert_eq!(found.len(), 3);
    assert!(found.windows(2).all(|w| w[0].1 >= w[1].1));
}

#[test]
fn aggregate_prefers_closest_neighbor_label() {
    let index = two_doc_index();
    // neighbors as retrieved for query {1: 1.0}, query norm 65536
    let neighbors = vec![(1, 4294967296u64), (0, 3037003776u64)];
    let top = index.aggregate(&neighbors, 65536, 1, 1);
    assert_eq!(top, vec![(20, 4294967296)]);
}

#[test]
fn aggregate_breaks_label_ties_by_smaller_id() {
    let mut ds = Dataset::new();
    ds.push(vec![(1, F)], vec![9]);
    ds.push(vec![(1, F)], vec![4]);
    let index = DatasetIndex::new(ds);
    let neighbors = vec![(0, 4294967296u64), (1, 4294967296u64)];
    let top = index.aggregate(&neighbors, 65536, 1, 2);
    assert_eq!(top, vec![(4, 4294967296), (9, 4294967296)]);
}

#[test]
fn aggregate_of_no_neighbors_is_empty() {
    let index = two_doc_index();
    let top = index.aggregate(&Vec::new(), 65536, 1, 3);
    assert_eq!(top, Vec::<(u32, u64)>::new());
}

#[test]
fn predict_two_document_scenario() {
    let index = two_doc_index();
    let mut ctx = index.new_context();
    let labels = index.predict(&vec![(1, F)], 2, 1, 1, 0, &mut ctx);
    assert_eq!(labels, vec![20]);
    let both = index.predict(&vec![(1, F)], 2, 5, 1, 0, &mut ctx);
    // K larger than the distinct labels: the list stays short
    assert_eq!(both, vec![20, 10]);
}

#[test]
fn predict_unknown_feature_gives_nothing() {
    let index = two_doc_index();
    let mut ctx = index.new_context();
    let labels = index.predict(&vec![(99, F)], 2, 3, 1, 0, &mut ctx);
    assert_eq!(labels, Vec::<u32>::new());
}

#[test]
fn run_test_predicts_each_document() {
    let index = two_doc_index();
    let test_x = vec![vec![(1, F)], vec![(2, F)], vec![(99, F)]];
    let yhat = index.run_test(&test_x, 1, 2, 1, 0);
    assert_eq!(yhat, vec![vec![20], vec![10], vec![]]);
}

#[test]
fn jaccard_damping_can_invert_cosine_order() {
    // doc0 shares all query features, doc1 only some but with a larger
    // cosine score: beta = 0 ranks doc1 first, beta = 1 inverts the order.
    let mut ds = Dataset::new();
    ds.push(vec![(1, F), (2, 100 * F)], vec![1]);
    ds.push(vec![(1, F), (2, F), (3, F)], vec![2]);
    let index = DatasetIndex::new(ds);
    let mut ctx = index.new_context();
    let query = vec![(1, F), (2, F)];
    let plain = index.find_nearests(&query, 2, 0, &mut ctx);
    assert_eq!(plain[0].0, 1);
    assert_eq!(plain, vec![(1, 4959371264), (0, 4337631232)]);
    let damped = index.find_nearests(&query, 2, 1, &mut ctx);
    assert_eq!(damped[0].0, 0);
    assert_eq!(damped, vec![(0, 4337631232), (1, 3306197060)]);
}

#[test]
fn training_documents_retrieve_themselves() {
    let index = two_doc_index();
    let test_x = vec![vec![(1, F), (2, F)], vec![(1, F)]];
    let yhat = index.run_test(&test_x, 1, 2, 1, 0);
    assert_eq!(yhat, vec![vec![10], vec![20]]);
    let truth = vec![vec![10], vec![20]];
    let (hits, ideal, denom) = rusty_sticker::eval::report_precision(&yhat, &truth, 1);
    assert_eq!((hits, ideal, denom), (2, 2, 2));
}

#[test]
fn zero_weight_query_predicts_nothing() {
    let index = two_doc_index();
    let mut ctx = index.new_context();
    let labels = index.predict(&vec![(1, 0)], 2, 3, 1, 0, &mut ctx);
    assert_eq!(labels, Vec::<u32>::new());
}

#[test]
fn resize_truncates_and_pads() {
    let mut ds = Dataset::new();
    ds.push(vec![(1, F)], vec![3]);
    ds.push(vec![(2, F)], vec![4]);
    ds.resize(1);
    assert_eq!(ds.size(), 1);
    assert_eq!(ds.y, vec![vec![3]]);
    ds.resize(3);
    assert_eq!(ds.size(), 3);
    assert_eq!(ds.x, vec![vec![(1, F)], vec![], vec![]]);
    assert_eq!(ds.y, vec![vec![3], vec![], vec![]]);
}
