use sparse::sparse_vector::{is_finite, weight_order_key, SparseVector, SparseVectorError};

fn bits(values: Vec<f32>) -> Vec<u32> {
    values.into_iter().map(|v| v.to_bits()).collect()
}

fn vector(indices: Vec<u32>, values: Vec<f32>) -> SparseVector {
    SparseVector::new(indices, bits(values)).unwrap()
}

fn dot(a: &SparseVector, b: &SparseVector) -> f32 {
    let mut score = 0.0f32;
    for (x, y) in a.matched_pairs(b) {
        score += f32::from_bits(x) * f32::from_bits(y);
    }
    score
}

#[test]
fn test_score_aligned_same_size() {
    let v1 = vector(vec![1, 2, 3], vec![1.0, 2.0, 3.0]);
    let v2 = vector(vec![1, 2, 3], vec![1.0, 2.0, 3.0]);
    assert_eq!(dot(&v1, &v2), 14.0);
}

#[test]
fn test_score_not_aligned_same_size() {
    let v1 = vector(vec![1, 2, 3], vec![1.0, 2.0, 3.0]);
    let v2 = vector(vec![2, 3, 4], vec![2.0, 3.0, 4.0]);
    assert_eq!(dot(&v1, &v2), 13.0);
}

#[test]
fn test_score_aligned_different_size() {
    let v1 = vector(vec![1, 2, 3], vec![1.0, 2.0, 3.0]);
    let v2 = vector(vec![1, 2, 3, 4], vec![1.0, 2.0, 3.0, 4.0]);
    assert_eq!(dot(&v1, &v2), 14.0);
}

#[test]
fn test_score_not_aligned_different_size() {
    let v1 = vector(vec![1, 2, 3], vec![1.0, 2.0, 3.0]);
    let v2 = vector(vec![2, 3, 4, 5], vec![2.0, 3.0, 4.0, 5.0]);
    assert_eq!(dot(&v1, &v2), 13.0);
}

#[test]
fn validation_test() {
    let empty_indices = SparseVector::new(vec![], bits(vec![1.0, 2.0, 3.0]));
    assert!(empty_indices.is_err());

    let empty_values = SparseVector::new(vec![1, 2, 3], bits(vec![]));
    assert!(empty_values.is_err());

    let different_length = SparseVector::new(vec![1, 2, 3], bits(vec![1.0, 2.0]));
    assert!(different_length.is_err());

    let not_sorted = SparseVector::new(vec![1, 3, 2], bits(vec![1.0, 2.0, 3.0]));
    assert!(not_sorted.is_err());

    let not_unique = SparseVector::new(vec![1, 2, 2], bits(vec![1.0, 2.0, 3.0]));
    assert!(not_unique.is_err());
}

#[test]
fn overlaps_test() {
    let v1 = vector(vec![1, 2, 3], vec![1.0, 2.0, 3.0]);
    let v2 = vector(vec![2, 3, 4], vec![2.0, 3.0, 4.0]);
    assert!(v1.overlaps(&v2));

    let v1 = vector(vec![1, 2, 3], vec![1.0, 2.0, 3.0]);
    let v2 = vector(vec![4, 5, 6], vec![2.0, 3.0, 4.0]);
    assert!(!v1.overlaps(&v2));

    let v1 = vector(vec![2, 3], vec![2.0, 3.0]);
    let v2 = vector(vec![3, 4, 5], vec![2.0, 3.0, 4.0]);
    assert!(v1.overlaps(&v2));

    let v1 = vector(vec![3, 4, 5], vec![2.0, 3.0, 4.0]);
    let v2 = vector(vec![2, 3], vec![2.0, 3.0]);
    assert!(v1.overlaps(&v2));
}

#[test]
fn validation_reports_each_reason() {
    assert_eq!(
        SparseVector::new(vec![], bits(vec![])).unwrap_err(),
        SparseVectorError::Empty
    );
    assert_eq!(
        SparseVector::new(vec![1, 2, 3], bits(vec![1.0, 2.0])).unwrap_err(),
        SparseVectorError::LengthMismatch
    );
    assert_eq!(
        SparseVector::new(vec![1, 2, 2], bits(vec![1.0, 2.0, 3.0])).unwrap_err(),
        SparseVectorError::DuplicateIndex
    );
    assert_eq!(
        SparseVector::new(vec![1, 3, 2], bits(vec![1.0, 2.0, 3.0])).unwrap_err(),
        SparseVectorError::NotSorted
    );
    assert_eq!(
        SparseVector::new(vec![1, 2], bits(vec![1.0, f32::NAN])).unwrap_err(),
        SparseVectorError::NonFiniteValue
    );
    assert_eq!(
        SparseVector::new(vec![1], bits(vec![f32::INFINITY])).unwrap_err(),
        SparseVectorError::NonFiniteValue
    );
}

#[test]
fn constructor_keeps_pairs() {
    let v = vector(vec![4, 9], vec![0.5, -2.0]);
    assert_eq!(v.indices, vec![4, 9]);
    assert_eq!(v.values, bits(vec![0.5, -2.0]));
}

#[test]
fn dot_is_symmetric() {
    let a = vector(vec![1, 5, 7, 9], vec![0.1, 0.7, 1.3, 2.9]);
    let b = vector(vec![0, 5, 9, 12], vec![3.3, 0.3, 1.1, 4.0]);
    assert_eq!(dot(&a, &b), dot(&b, &a));
}

#[test]
fn matched_pairs_in_dimension_order() {
    let a = vector(vec![1, 2, 3], vec![1.0, 2.0, 3.0]);
    let b = vector(vec![2, 3, 4], vec![5.0, 6.0, 7.0]);
    assert_eq!(
        a.matched_pairs(&b),
        vec![(2.0f32.to_bits(), 5.0f32.to_bits()), (3.0f32.to_bits(), 6.0f32.to_bits())]
    );
    let c = vector(vec![10], vec![1.0]);
    assert!(a.matched_pairs(&c).is_empty());
}

#[test]
fn weight_keys_order_as_floats() {
    let xs = [-3.5f32, -1.0, -0.0, 0.0, 0.25, 1.0, 7.0];
    for w in xs.windows(2) {
        assert!(weight_order_key(w[0].to_bits()) <= weight_order_key(w[1].to_bits()));
    }
    assert_eq!(weight_order_key((-0.0f32).to_bits()), weight_order_key(0.0f32.to_bits()));
    assert!(is_finite(1.5f32.to_bits()));
    assert!(!is_finite(f32::NEG_INFINITY.to_bits()));
}

#[test]
fn from_pairs_sorts_and_validates() {
    let v = SparseVector::from_pairs(vec![(3, 3.0f32.to_bits()), (1, 1.0f32.to_bits()), (2, 2.0f32.to_bits())])
        .unwrap();
    assert_eq!(v.indices, vec![1, 2, 3]);
    assert_eq!(v.values, bits(vec![1.0, 2.0, 3.0]));
    assert_eq!(
        SparseVector::from_pairs(vec![(1, 1.0f32.to_bits()), (-4, 1.0f32.to_bits())]).unwrap_err(),
        SparseVectorError::NegativeIndex
    );
    assert_eq!(
        SparseVector::from_pairs(vec![(2, 1.0f32.to_bits()), (1, 1.0f32.to_bits()), (2, 5.0f32.to_bits())])
            .unwrap_err(),
        SparseVectorError::DuplicateIndex
    );
    assert_eq!(SparseVector::from_pairs(vec![]).unwrap_err(), SparseVectorError::Empty);
}
