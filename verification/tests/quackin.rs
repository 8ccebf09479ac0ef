use quackin::recommender::{KnnUserRecommender, DataModel, Record};
use quackin::similarity::{cosine, jaccard, pearson, similarity, Metric, SIM_SCALE};
use quackin::sparse::SparseVector;

fn vector(entries: &[(u64, i64)]) -> SparseVector {
    let mut v = SparseVector::new();
    for &(i, x) in entries {
        v.insert(i, x);
    }
    v
}

fn rec(user: &str, item: &str, rating: i64) -> Record {
    Record { user: user.to_string(), item: item.to_string(), rating }
}

fn as_f64(sim: i128) -> f64 {
    sim as f64 / SIM_SCALE as f64
}

/// Records for the prediction tests. Ratings are in thousandths.
/// User vectors (items interned in order item_1 -> 0, item_2 -> 1):
///   user_1: {0: 3000, 1: 4000}, user_2: {0: 4000}, user_3: {0: 800, 1: 600}.
/// Cosine similarities to user_2 are exactly 0.6 (user_1) and 0.8 (user_3).
fn mock_records() -> Vec<Record> {
    vec![
        rec("user_1", "item_1", 3000),
        rec("user_1", "item_2", 4000),
        rec("user_2", "item_1", 4000),
        rec("user_3", "item_1", 800),
        rec("user_3", "item_2", 600),
    ]
}

#[test]
fn jaccard_similarity_test() {
    let a = vector(&[(0, 1), (1, 2), (2, 3), (3, 4), (4, 7)]);
    let b = vector(&[(0, 1), (1, 4), (2, 5), (3, 7), (4, 9)]);
    let empty = SparseVector::new();

    assert!(as_f64(jaccard(&a, &empty)).abs() < 0.001);
    assert!(as_f64(jaccard(&empty, &a)).abs() < 0.001);

    assert!((as_f64(jaccard(&a, &b)) - 0.653).abs() < 0.001);
    assert!((as_f64(jaccard(&b, &a)) - 0.653).abs() < 0.001);
}

#[test]
fn jaccard_exact_value_test() {
    // min sum 1+2+3+4+7 = 17, max sum 1+4+5+7+9 = 26: floor(17e6 / 26).
    let a = vector(&[(0, 1), (1, 2), (2, 3), (3, 4), (4, 7)]);
    let b = vector(&[(0, 1), (1, 4), (2, 5), (3, 7), (4, 9)]);
    assert_eq!(jaccard(&a, &b), 653_846);
    assert_eq!(jaccard(&b, &a), 653_846);
}

#[test]
fn jaccard_symmetry_and_range_test() {
    let pairs = vec![
        (vector(&[(0, 5), (2, 1)]), vector(&[(1, 3), (2, 4)])),
        (vector(&[(0, 1)]), vector(&[(5, 9)])),
        (vector(&[(0, 2), (1, 2), (2, 2)]), vector(&[(0, 2), (1, 2), (2, 2)])),
    ];
    for (a, b) in pairs {
        let ab = jaccard(&a, &b);
        let ba = jaccard(&b, &a);
        assert_eq!(ab, ba);
        assert!(0 <= ab && ab <= SIM_SCALE);
    }
    // disjoint support: no overlapping positive mass
    let a = vector(&[(0, 1)]);
    let b = vector(&[(5, 9)]);
    assert_eq!(jaccard(&a, &b), 0);
    // identical vectors: similarity one
    let c = vector(&[(0, 2), (1, 2), (2, 2)]);
    assert_eq!(jaccard(&c, &c), SIM_SCALE);
}

#[test]
fn cosine_exact_value_test() {
    // dot 24, norms 5 and 5: floor(24e6 / 25) = 960000.
    let a = vector(&[(0, 3), (1, 4)]);
    let b = vector(&[(0, 4), (1, 3)]);
    assert_eq!(cosine(&a, &b), 960_000);
    // a vector is perfectly similar to itself
    assert_eq!(cosine(&a, &a), SIM_SCALE);
}

#[test]
fn cosine_symmetry_test() {
    let pairs = vec![
        (vector(&[(0, 3), (1, 4)]), vector(&[(0, 4), (1, 3)])),
        (vector(&[(0, -3), (1, 4)]), vector(&[(0, 4), (2, 3)])),
        (vector(&[(1, 7)]), vector(&[(0, 2), (1, -5)])),
    ];
    for (a, b) in pairs {
        assert_eq!(cosine(&a, &b), cosine(&b, &a));
    }
}

#[test]
fn zero_vector_test() {
    let a = vector(&[(0, 3), (1, 4)]);
    let empty = SparseVector::new();
    assert_eq!(cosine(&a, &empty), 0);
    assert_eq!(cosine(&empty, &a), 0);
    assert_eq!(jaccard(&a, &empty), 0);
    assert_eq!(jaccard(&empty, &a), 0);
}

#[test]
fn empty_vectors_jaccard_test() {
    let empty_a = SparseVector::new();
    let empty_b = SparseVector::new();
    assert_eq!(jaccard(&empty_a, &empty_b), 0);
}

#[test]
fn pearson_exact_value_test() {
    // b == 2a over a domain of 2 items: perfect correlation.
    let a = vector(&[(0, 1), (1, 2)]);
    let b = vector(&[(0, 2), (1, 4)]);
    assert_eq!(pearson(&a, &b, 2), SIM_SCALE);
    // reversed ranking: perfect anti-correlation.
    let c = vector(&[(0, 4), (1, 2)]);
    assert_eq!(pearson(&a, &c, 2), -SIM_SCALE);
}

#[test]
fn pearson_self_correlation_test() {
    // a single stored rating over a domain of three items has a small
    // variance term (2), where a truncated square root is farthest from the
    // real one; self-correlation must still be exactly one
    let a = vector(&[(0, 1)]);
    assert_eq!(pearson(&a, &a, 3), SIM_SCALE);
    let b = vector(&[(0, 3000), (2, 4000)]);
    assert_eq!(pearson(&b, &b, 5), SIM_SCALE);
}

#[test]
fn pearson_unit_range_test() {
    // a correlation lies in [-1, 1]; the contract guarantees it for every
    // input, domain size and overlap
    let pairs = vec![
        (vector(&[(0, 1)]), vector(&[(0, 1), (1, 5)])),
        (vector(&[(0, 2), (1, 9)]), vector(&[(1, 1), (2, 7)])),
        (vector(&[(0, 1), (1, 3)]), vector(&[(0, 7), (1, 2)])),
    ];
    for (a, b) in pairs {
        let r = pearson(&a, &b, 4);
        assert!(-SIM_SCALE <= r && r <= SIM_SCALE);
    }
}

#[test]
fn pearson_zero_variance_test() {
    // a constant vector over the whole domain has zero variance: policy 0.
    let a = vector(&[(0, 5)]);
    let b = vector(&[(0, 3)]);
    assert_eq!(pearson(&a, &b, 1), 0);
}

#[test]
fn similarity_dispatch_test() {
    let a = vector(&[(0, 3), (1, 4)]);
    let b = vector(&[(0, 4), (1, 3)]);
    assert_eq!(similarity(Metric::Cosine, &a, &b, 2), cosine(&a, &b));
    assert_eq!(similarity(Metric::Jaccard, &a, &b, 2), jaccard(&a, &b));
    assert_eq!(similarity(Metric::Pearson, &a, &b, 2), pearson(&a, &b, 2));
}

#[test]
fn sparse_vector_test() {
    let mut v = SparseVector::new();
    assert_eq!(v.nnz(), 0);
    assert_eq!(v.get(3), 0);
    v.insert(3, 7);
    v.insert(1, -2);
    v.insert(9, 4);
    assert_eq!(v.nnz(), 3);
    assert_eq!(v.get(1), -2);
    assert_eq!(v.get(3), 7);
    assert_eq!(v.get(9), 4);
    assert_eq!(v.get(2), 0);
    // setting a stored index replaces the value and keeps nnz
    v.insert(3, 5);
    assert_eq!(v.nnz(), 3);
    assert_eq!(v.get(3), 5);
}

#[test]
fn sparse_dot_test() {
    let a = vector(&[(0, 1), (2, 3), (5, 2)]);
    let b = vector(&[(1, 4), (2, 2), (5, -1)]);
    // overlap at 2 and 5: 3*2 + 2*(-1)
    assert_eq!(a.dot(&b), 4);
    assert_eq!(b.dot(&a), 4);
    assert_eq!(a.dot(&a), 1 + 9 + 4);
}

#[test]
fn data_model_test() {
    let records = mock_records();
    let model = DataModel::from_records(&records);
    let users: Vec<String> = model.known_users().clone();
    assert_eq!(users, vec!["user_1", "user_2", "user_3"]);
    let items: Vec<String> = model.known_items().clone();
    assert_eq!(items, vec!["item_1", "item_2"]);

    assert_eq!(model.rating(&"user_1".to_string(), &"item_2".to_string()), Some(4000));
    assert_eq!(model.rating(&"user_2".to_string(), &"item_2".to_string()), None);
    assert_eq!(model.rating(&"nobody".to_string(), &"item_1".to_string()), None);

    let v = model.vector_for_user(&"user_3".to_string()).unwrap();
    assert_eq!(v.nnz(), 2);
    assert_eq!(v.get(0), 800);
    assert_eq!(v.get(1), 600);
    assert!(model.vector_for_user(&"nobody".to_string()).is_none());

    let iv = model.vector_for_item(&"item_2".to_string()).unwrap();
    // item_2 was rated by user_1 (index 0) and user_3 (index 2)
    assert_eq!(iv.nnz(), 2);
    assert_eq!(iv.get(0), 4000);
    assert_eq!(iv.get(2), 600);
}

#[test]
fn data_model_zero_rating_test() {
    // a zero rating is the default value: the identifiers are interned but
    // nothing is stored
    let records = vec![rec("user_1", "item_1", 0)];
    let model = DataModel::from_records(&records);
    assert_eq!(model.known_users().len(), 1);
    assert_eq!(model.known_items().len(), 1);
    assert_eq!(model.rating(&"user_1".to_string(), &"item_1".to_string()), None);
    assert_eq!(model.vector_for_user(&"user_1".to_string()).unwrap().nnz(), 0);
}

#[test]
fn knn_predict_test() {
    // cosine(user_2, user_1) = 0.6, cosine(user_2, user_3) = 0.8;
    // prediction = (600000*4000 + 800000*600) / 1400000 = 2057.14... -> 2057
    let records = mock_records();
    let recommender = KnnUserRecommender::from_records(&records, Metric::Cosine, 5);
    let pred = recommender.predict(&"user_2".to_string(), &"item_2".to_string());
    assert_eq!(pred, Some(2057));
}

#[test]
fn knn_predict_k_one_test() {
    // with k = 1 only the most similar neighbor (user_3, similarity 0.8)
    // contributes: prediction is its rating 600
    let records = mock_records();
    let recommender = KnnUserRecommender::from_records(&records, Metric::Cosine, 1);
    let pred = recommender.predict(&"user_2".to_string(), &"item_2".to_string());
    assert_eq!(pred, Some(600));
}

#[test]
fn knn_k_monotone_test() {
    // growing k only adds lower-ranked neighbors: k = 2 already uses both
    // candidates, so every larger k predicts the same value
    let records = mock_records();
    let rec2 = KnnUserRecommender::from_records(&records, Metric::Cosine, 2);
    let rec3 = KnnUserRecommender::from_records(&records, Metric::Cosine, 3);
    let rec9 = KnnUserRecommender::from_records(&records, Metric::Cosine, 9);
    let user = "user_2".to_string();
    let item = "item_2".to_string();
    assert_eq!(rec2.predict(&user, &item), Some(2057));
    assert_eq!(rec3.predict(&user, &item), Some(2057));
    assert_eq!(rec9.predict(&user, &item), Some(2057));
}

#[test]
fn predict_unknown_user_test() {
    let records = mock_records();
    let recommender = KnnUserRecommender::from_records(&records, Metric::Cosine, 5);
    assert!(recommender.predict(&"user_9".to_string(), &"item_1".to_string()).is_none());
    assert!(recommender.predict(&"user_1".to_string(), &"item_9".to_string()).is_none());
}

#[test]
fn predict_idempotent_test() {
    let records = mock_records();
    let recommender = KnnUserRecommender::from_records(&records, Metric::Cosine, 5);
    let user = "user_2".to_string();
    let item = "item_2".to_string();
    let first = recommender.predict(&user, &item);
    let second = recommender.predict(&user, &item);
    assert_eq!(first, second);
    assert!(first.is_some());
}

#[test]
fn predict_no_qualifying_neighbor_test() {
    // the only other user who rated item_2 has negative cosine similarity to
    // user_2, so no neighbor qualifies and no prediction is possible
    let records = vec![
        rec("user_1", "item_1", 4000),
        rec("user_1", "item_2", 5000),
        rec("user_2", "item_1", -4000),
    ];
    let recommender = KnnUserRecommender::from_records(&records, Metric::Cosine, 5);
    assert!(recommender.predict(&"user_2".to_string(), &"item_2".to_string()).is_none());

    // an item nobody else rated cannot be predicted either
    let mut extended = mock_records();
    extended.push(rec("user_2", "item_3", 1000));
    let rec3 = KnnUserRecommender::from_records(&extended, Metric::Cosine, 5);
    assert!(rec3.predict(&"user_2".to_string(), &"item_3".to_string()).is_none());
}

#[test]
fn knn_jaccard_predict_test() {
    // with Jaccard: sim(user_2, user_1) = min(3000,4000)/(4000+4000) = 0.375
    // sim(user_2, user_3) = 800/(4000+600) = 0.17391... -> 173913
    // prediction = (375000*4000 + 173913*600) / 548913 = 2922.9... -> 2922
    let records = mock_records();
    let recommender = KnnUserRecommender::from_records(&records, Metric::Jaccard, 5);
    let pred = recommender.predict(&"user_2".to_string(), &"item_2".to_string());
    assert_eq!(pred, Some(2922));
}

#[test]
fn jaccard_negative_values_test() {
    // negative values are outside Jaccard's documented domain: the result
    // carries no meaning, but the computation is total and never fails
    let a = vector(&[(0, 1)]);
    let b = vector(&[(0, 2), (1, -2)]);
    // min sum 1, max sum 2 + (-2) = 0: the vanishing denominator yields 0
    assert_eq!(jaccard(&a, &b), 0);
    let c = vector(&[(0, -3), (1, 4)]);
    let d = vector(&[(0, -1), (2, 5)]);
    let _ = jaccard(&c, &d);
}

#[test]
fn knn_pearson_predict_test() {
    // under Pearson, user_1 anti-correlates with user_2 (excluded) and
    // user_3 correlates perfectly (similarity 1.0): prediction is user_3's
    // rating for item_2
    let records = mock_records();
    let recommender = KnnUserRecommender::from_records(&records, Metric::Pearson, 5);
    let pred = recommender.predict(&"user_2".to_string(), &"item_2".to_string());
    assert_eq!(pred, Some(600));
}
