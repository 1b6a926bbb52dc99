use sparse::inverted_index::InvertedIndexRam;
use sparse::posting_list::PostingList;
use sparse::search::{select_top, ScoredPointOffset};
use sparse::sparse_index::{
    nearest_vector, CardinalityEstimation, QueryKind, QueryVector, SearchRoute, SparseIndexConfig,
    SparseIndexError, SparseVectorIndex,
};
use sparse::sparse_vector::SparseVector;

fn vector(pairs: &[(u32, f32)]) -> SparseVector {
    SparseVector::new(
        pairs.iter().map(|p| p.0).collect(),
        pairs.iter().map(|p| p.1.to_bits()).collect(),
    )
    .unwrap()
}

fn dot(a: &SparseVector, b: &SparseVector) -> f32 {
    let mut score = 0.0f32;
    for (x, y) in a.matched_pairs(b) {
        score += f32::from_bits(x) * f32::from_bits(y);
    }
    score
}

fn config(threshold: usize) -> SparseIndexConfig {
    SparseIndexConfig { full_scan_threshold: threshold, on_disk: false }
}

/// Scores the candidates that the index gives for `query` and keeps the best `top`.
fn search(
    index: &SparseVectorIndex,
    query: &SparseVector,
    top: usize,
    filter: impl Fn(u32) -> bool,
) -> Vec<(u32, f32)> {
    let mut scored = Vec::new();
    for id in index.inverted_index.records_matching(&query.indices) {
        if !filter(id) {
            continue;
        }
        let mut score = 0.0f32;
        for (q, w) in index.inverted_index.score_terms(query, id) {
            score += f32::from_bits(q) * f32::from_bits(w);
        }
        scored.push(ScoredPointOffset { idx: id, score: score.to_bits() });
    }
    select_top(&scored, top)
        .into_iter()
        .map(|s| (s.idx, f32::from_bits(s.score)))
        .collect()
}

fn built(points: Vec<(u32, SparseVector)>) -> SparseVectorIndex {
    let mut index = SparseVectorIndex::new(config(1000));
    index.build_index(points);
    index
}

fn s1_points() -> Vec<(u32, SparseVector)> {
    vec![
        (1, vector(&[(1, 1.0), (2, 2.0), (3, 3.0)])),
        (2, vector(&[(2, 2.0), (3, 3.0), (4, 4.0)])),
    ]
}

#[test]
fn exact_dot_product() {
    let index = built(s1_points());
    let query = vector(&[(1, 1.0), (2, 2.0), (3, 3.0)]);
    assert_eq!(search(&index, &query, 2, |_| true), vec![(1, 14.0), (2, 13.0)]);
}

#[test]
fn disjoint_dimensions() {
    let index = built(vec![(1, vector(&[(10, 1.0)])), (2, vector(&[(20, 1.0)]))]);
    let query = vector(&[(30, 1.0)]);
    assert!(search(&index, &query, 2, |_| true).is_empty());
    assert_eq!(index.max_result_count(&query), 0);
}

#[test]
fn filter_prunes() {
    let index = built(s1_points());
    let query = vector(&[(1, 1.0), (2, 2.0), (3, 3.0)]);
    assert_eq!(search(&index, &query, 2, |id| id == 2), vec![(2, 13.0)]);
}

#[test]
fn upsert_replaces() {
    let mut index = SparseVectorIndex::new(config(1000));
    index.update_vector(7, vector(&[(1, 1.0)]));
    index.update_vector(7, vector(&[(2, 2.0)]));
    assert!(search(&index, &vector(&[(1, 1.0)]), 1, |_| true).is_empty());
    assert_eq!(search(&index, &vector(&[(2, 1.0)]), 1, |_| true), vec![(7, 2.0)]);
    assert!(index.inverted_index.get(1).is_none());
    assert_eq!(index.indexed_vector_count(), 8);
}

#[test]
fn small_cardinality_routes_to_plain() {
    let index = SparseVectorIndex::new(config(1000));
    let card = CardinalityEstimation { min: 10, exp: 10, max: 10 };
    assert_eq!(index.route(Some(card), 10_000), SearchRoute::SmallCardinality);
    let wide = CardinalityEstimation { min: 5000, exp: 6000, max: 9000 };
    assert_eq!(index.route(Some(wide), 10_000), SearchRoute::FilteredSparse);
    assert_eq!(index.route(Some(wide), 500), SearchRoute::SmallCardinality);
    assert_eq!(index.route(None, 10_000), SearchRoute::UnfilteredSparse);
}

#[test]
fn plain_and_sparse_paths_agree() {
    let points = s1_points();
    let index = built(s1_points());
    let query = vector(&[(1, 1.0), (2, 2.0), (3, 3.0)]);
    let matching = [2u32];
    let mut plain = Vec::new();
    for id in matching {
        let v = &points.iter().find(|p| p.0 == id).unwrap().1;
        plain.push(ScoredPointOffset { idx: id, score: dot(&query, v).to_bits() });
    }
    let plain: Vec<(u32, f32)> = select_top(&plain, 2)
        .into_iter()
        .map(|s| (s.idx, f32::from_bits(s.score)))
        .collect();
    assert_eq!(plain, search(&index, &query, 2, |id| matching.contains(&id)));
}

#[test]
fn unsupported_query_kinds() {
    let q = QueryVector::Nearest(vector(&[(1, 1.0)]));
    assert_eq!(nearest_vector(&q).unwrap().indices, vec![1]);
    assert_eq!(
        nearest_vector(&QueryVector::Recommend).unwrap_err(),
        SparseIndexError::UnsupportedQueryKind(QueryKind::Recommend)
    );
    assert_eq!(
        nearest_vector(&QueryVector::Discovery).unwrap_err(),
        SparseIndexError::UnsupportedQueryKind(QueryKind::Discovery)
    );
    assert_eq!(
        nearest_vector(&QueryVector::Context).unwrap_err(),
        SparseIndexError::UnsupportedQueryKind(QueryKind::Context)
    );
}

#[test]
fn posting_list_keeps_order_and_max() {
    let mut list = PostingList::new();
    for (id, w) in [(5u32, 1.0f32), (2, 3.0), (9, 0.5), (2, 0.25), (7, 2.0)] {
        list.insert_or_replace(id, w.to_bits());
    }
    let ids: Vec<u32> = list.elements().iter().map(|e| e.record_id).collect();
    assert_eq!(ids, vec![2, 5, 7, 9]);
    assert_eq!(f32::from_bits(list.max_weight()), 2.0);
    list.remove(7);
    assert_eq!(f32::from_bits(list.max_weight()), 1.0);
    assert_eq!(list.len(), 3);
    list.remove(7);
    assert_eq!(list.len(), 3);
}

#[test]
fn upsert_drops_stale_dimensions() {
    let mut index = InvertedIndexRam::empty();
    index.upsert(1, vector(&[(1, 1.0), (2, 2.0)]));
    index.upsert(2, vector(&[(2, 4.0)]));
    index.upsert(1, vector(&[(3, 3.0)]));
    assert!(index.get(1).is_none());
    let two: Vec<u32> = index.get(2).unwrap().elements().iter().map(|e| e.record_id).collect();
    assert_eq!(two, vec![2]);
    assert_eq!(f32::from_bits(index.get(2).unwrap().max_weight()), 4.0);
    assert_eq!(index.len(), 2);
}

#[test]
fn max_result_count_counts_unique_records() {
    let index = built(s1_points());
    assert_eq!(index.max_result_count(&vector(&[(2, 1.0), (3, 1.0)])), 2);
    assert_eq!(index.max_result_count(&vector(&[(1, 1.0)])), 1);
}

#[test]
fn rebuild_forgets_updates() {
    let mut updated = built(s1_points());
    updated.update_vector(1, vector(&[(9, 9.0)]));
    updated.build_index(s1_points());
    let fresh = built(s1_points());
    for d in 0..10u32 {
        let a = updated.inverted_index.get(d).map(|l| l.elements().clone());
        let b = fresh.inverted_index.get(d).map(|l| l.elements().clone());
        assert_eq!(a, b);
    }
    assert_eq!(updated.max_point_id, 2);
}

#[test]
fn select_top_breaks_ties_by_id() {
    let c = vec![
        ScoredPointOffset { idx: 4, score: 1.0f32.to_bits() },
        ScoredPointOffset { idx: 2, score: 1.0f32.to_bits() },
        ScoredPointOffset { idx: 9, score: 3.0f32.to_bits() },
        ScoredPointOffset { idx: 1, score: (-1.0f32).to_bits() },
    ];
    let ids: Vec<u32> = select_top(&c, 3).iter().map(|s| s.idx).collect();
    assert_eq!(ids, vec![9, 2, 4]);
    assert!(select_top(&c, 0).is_empty());
    assert_eq!(select_top(&c, 10).len(), 4);
}

#[test]
fn score_terms_follow_query_order() {
    let index = built(s1_points());
    let query = vector(&[(1, 1.0), (2, 2.0), (3, 3.0)]);
    let terms = index.inverted_index.score_terms(&query, 2);
    assert_eq!(
        terms,
        vec![(2.0f32.to_bits(), 2.0f32.to_bits()), (3.0f32.to_bits(), 3.0f32.to_bits())]
    );
    assert!(index.inverted_index.score_terms(&query, 5).is_empty());
}

#[test]
fn posting_list_get_weight() {
    let mut list = PostingList::new();
    list.insert_or_replace(3, 1.5f32.to_bits());
    list.insert_or_replace(1, 0.5f32.to_bits());
    assert_eq!(list.get_weight(3), Some(1.5f32.to_bits()));
    assert_eq!(list.get_weight(2), None);
}

#[test]
fn build_counts_up_to_greatest_id() {
    let index = built(vec![(5, vector(&[(1, 1.0)]))]);
    assert_eq!(index.max_point_id, 5);
    assert_eq!(index.indexed_vector_count(), 6);
}

#[test]
fn vector_count_counts_distinct_records() {
    let mut index = InvertedIndexRam::empty();
    assert_eq!(index.vector_count(), 0);
    index.upsert(1, vector(&[(1, 1.0), (2, 2.0)]));
    index.upsert(4, vector(&[(2, 4.0)]));
    index.upsert(1, vector(&[(3, 3.0)]));
    assert_eq!(index.vector_count(), 2);
}

#[test]
fn zero_maximum_is_positive_zero() {
    let mut a = PostingList::new();
    a.insert_or_replace(1, (-0.0f32).to_bits());
    a.insert_or_replace(2, 0.0f32.to_bits());
    let mut b = PostingList::new();
    b.insert_or_replace(2, 0.0f32.to_bits());
    b.insert_or_replace(1, (-0.0f32).to_bits());
    assert_eq!(a.max_weight(), 0);
    assert_eq!(a.max_weight(), b.max_weight());
    let mut c = PostingList::new();
    c.insert_or_replace(3, (-0.0f32).to_bits());
    assert_eq!(c.max_weight(), 0);
}
