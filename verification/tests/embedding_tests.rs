use vcore::embedding::{
    cosine_similarity, dot, euclidean_distance, magnitude, normalize, parse_json_embedding,
    parse_text_embedding, score, Metric,
};

fn bits(v: &[f32]) -> Vec<u32> {
    v.iter().map(|x| x.to_bits()).collect()
}

fn floats(v: &[u32]) -> Vec<f32> {
    v.iter().map(|x| f32::from_bits(*x)).collect()
}

#[test]
fn test_normalize_unit_vector() {
    let v = bits(&[3.0f32, 4.0]);
    let n = normalize(&v);
    let mag = f32::from_bits(magnitude(&n));
    assert!((mag - 1.0).abs() < 1e-6, "magnitude should be ~1.0");
}

#[test]
fn test_normalize_zero_vector() {
    let v = bits(&[0.0f32, 0.0, 0.0]);
    let n = normalize(&v);
    assert_eq!(n, v, "zero vector should be returned unchanged");
}

#[test]
fn test_cosine_same_vector() {
    let v = bits(&[1.0, 2.0, 3.0]);
    let s = f32::from_bits(cosine_similarity(&v, &v));
    assert!((s - 1.0).abs() < 1e-5);
}

#[test]
fn test_cosine_orthogonal() {
    let a = bits(&[1.0, 0.0]);
    let b = bits(&[0.0, 1.0]);
    let s = f32::from_bits(cosine_similarity(&a, &b));
    assert!(s.abs() < 1e-6);
}

#[test]
fn test_euclidean_distance() {
    let a = bits(&[0.0, 0.0]);
    let b = bits(&[3.0, 4.0]);
    let d = f32::from_bits(euclidean_distance(&a, &b));
    assert!((d - 5.0).abs() < 1e-5);
}

#[test]
fn test_parse_json_embedding() {
    let json = "[0.1, 0.2, 0.3]";
    let v = parse_json_embedding(json).unwrap();
    assert_eq!(v.len(), 3);
    assert!((f32::from_bits(v[0]) - 0.1).abs() < 1e-6);
}

#[test]
fn test_parse_json_invalid() {
    assert!(parse_json_embedding("not json").is_none());
    assert!(parse_json_embedding("[]").is_none());
}

#[test]
fn test_parse_text_embedding() {
    let text = "1.0 2.0 3.0 4.0";
    let v = parse_text_embedding(text).unwrap();
    assert_eq!(v.len(), 4);
}

#[test]
fn test_parse_text_exact_values() {
    let v = parse_text_embedding("1.5 -2.25").unwrap();
    assert_eq!(floats(&v), vec![1.5f32, -2.25]);
}

#[test]
fn test_dot_exact_value() {
    let a = bits(&[1.0, 2.0]);
    let b = bits(&[3.0, 4.0]);
    assert_eq!(f32::from_bits(dot(&a, &b)), 11.0f32);
}

#[test]
fn test_dot_truncates_to_shorter() {
    let a = bits(&[1.0, 2.0, 100.0]);
    let b = bits(&[3.0, 4.0]);
    assert_eq!(f32::from_bits(dot(&a, &b)), 11.0f32);
}

#[test]
fn test_euclidean_exact_value() {
    let a = bits(&[0.0, 0.0]);
    let b = bits(&[3.0, 4.0]);
    assert_eq!(f32::from_bits(euclidean_distance(&a, &b)), 5.0f32);
}

#[test]
fn test_normalize_exact_values() {
    let v = bits(&[3.0f32, 4.0]);
    let n = normalize(&v);
    let mag = (3.0f32 * 3.0 + 4.0 * 4.0).sqrt();
    assert_eq!(floats(&n), vec![3.0f32 / mag, 4.0f32 / mag]);
}

#[test]
fn test_score_euclidean_negates_distance() {
    let a = bits(&[1.0, 2.0, 2.0]);
    let b = bits(&[4.0, 6.0, 2.0]);
    let s = score(&Metric::Euclidean, &a, &b);
    let d = euclidean_distance(&a, &b);
    assert_eq!(f32::from_bits(s), -f32::from_bits(d));
    assert_eq!(f32::from_bits(s), -5.0f32);
}

#[test]
fn test_score_cosine_self_is_one() {
    let v = bits(&[0.3f32, -1.7, 2.5]);
    let n = normalize(&v);
    let s = f32::from_bits(score(&Metric::Cosine, &n, &n));
    assert!((s - 1.0).abs() < 1e-5);
}

#[test]
fn test_score_cosine_orthogonal_is_zero() {
    let a = normalize(&bits(&[2.0, 0.0]));
    let b = normalize(&bits(&[0.0, 3.0]));
    let s = f32::from_bits(score(&Metric::Cosine, &a, &b));
    assert!(s.abs() < 1e-6);
}

#[test]
fn test_score_dot_product_raw() {
    let a = bits(&[1.0, 2.0]);
    let b = bits(&[3.0, 4.0]);
    let s = score(&Metric::DotProduct, &a, &b);
    assert_eq!(f32::from_bits(s), 11.0f32);
}
