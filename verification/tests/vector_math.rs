use sysrag::vector::{cosine_similarity, EmbedVector, MAX_DIM, SCALE};

fn v(components: Vec<i64>) -> EmbedVector {
    EmbedVector::new(components)
}

#[test]
fn self_similarity_is_one() {
    let a = v(vec![500_000, 500_000, 0, -250_000]);
    assert_eq!(cosine_similarity(&a, &a), SCALE);
}

#[test]
fn similarity_is_symmetric() {
    let a = v(vec![500_000, 100_000, -300_000]);
    let b = v(vec![-200_000, 400_000, 250_000]);
    assert_eq!(cosine_similarity(&a, &b), cosine_similarity(&b, &a));
    let c = v(vec![1, 2, 3]);
    let d = v(vec![9, -8, 7]);
    assert_eq!(cosine_similarity(&c, &d), cosine_similarity(&d, &c));
}

#[test]
fn zero_norm_gives_zero() {
    let zero = v(vec![0, 0, 0]);
    let a = v(vec![500_000, 100_000, -300_000]);
    assert_eq!(cosine_similarity(&zero, &a), 0);
    assert_eq!(cosine_similarity(&a, &zero), 0);
    assert_eq!(cosine_similarity(&zero, &zero), 0);
}

#[test]
fn orthogonal_vectors_score_zero() {
    let a = v(vec![1_000_000, 0]);
    let b = v(vec![0, 1_000_000]);
    assert_eq!(cosine_similarity(&a, &b), 0);
}

#[test]
fn opposite_vectors_score_minus_one() {
    let a = v(vec![700_000, -200_000]);
    let b = v(vec![-700_000, 200_000]);
    assert_eq!(cosine_similarity(&a, &b), -SCALE);
}

#[test]
fn scaling_does_not_change_direction() {
    let a = v(vec![400_000, 300_000]);
    let b = v(vec![800_000, 600_000]);
    assert_eq!(cosine_similarity(&a, &b), SCALE);
}

#[test]
fn new_clamps_components_and_dimension() {
    let a = EmbedVector::new(vec![2_000_000, -2_000_000, 123]);
    assert_eq!(a.components, vec![1_000_000, -1_000_000, 123]);
    let long = EmbedVector::new(vec![1; MAX_DIM + 10]);
    assert_eq!(a.dim(), 3);
    assert_eq!(long.dim(), MAX_DIM);
}

#[test]
fn halfway_similarity_value() {
    // angle of 60 degrees: cosine 0.5 exactly.
    let a = v(vec![1_000_000, 0]);
    let b = v(vec![500_000, 866_025]);
    let s = cosine_similarity(&a, &b);
    // truncated integer arithmetic: the score is 0.5 to the last unit.
    assert!(499_999 <= s && s <= 500_001, "score was {s}");
}
