use vcore::embedding::normalize;
use vcore::{VecBase, VecBaseConfig, VecBaseError};

fn bits(v: &[f32]) -> Vec<u32> {
    v.iter().map(|x| x.to_bits()).collect()
}

fn make_db() -> VecBase {
    VecBase::new(VecBaseConfig { dim: 4, ..Default::default() })
}

#[test]
fn test_insert_and_len() {
    let mut db = make_db();
    db.insert("a".into(), bits(&[0.1, 0.2, 0.3, 0.4]), None).unwrap();
    assert_eq!(db.len(), 1);
}

#[test]
fn test_dimension_mismatch() {
    let mut db = make_db();
    let err = db.insert("x".into(), bits(&[1.0, 2.0]), None).unwrap_err();
    assert!(matches!(err, VecBaseError::DimensionMismatch { .. }));
    assert_eq!(db.len(), 0);
}

#[test]
fn test_dimension_mismatch_message() {
    let mut db = make_db();
    let err = db.insert("x".into(), bits(&[1.0, 2.0]), None).unwrap_err();
    assert_eq!(err.message(), "Dimension mismatch: expected 4, got 2");
}

#[test]
fn test_search_returns_results() {
    let mut db = make_db();
    db.insert("a".into(), bits(&[1.0, 0.0, 0.0, 0.0]), None).unwrap();
    db.insert("b".into(), bits(&[0.0, 1.0, 0.0, 0.0]), None).unwrap();
    let results = db.search(&bits(&[1.0, 0.0, 0.0, 0.0]), 2);
    assert!(!results.is_empty());
    assert_eq!(results[0].id, "a");
}

#[test]
fn test_delete() {
    let mut db = make_db();
    db.insert("del".into(), bits(&[0.5, 0.5, 0.5, 0.5]), None).unwrap();
    db.delete("del").unwrap();
    assert!(db.get("del").is_none());
    assert_eq!(db.len(), 0);
}

#[test]
fn test_delete_not_found() {
    let mut db = make_db();
    let err = db.delete("ghost").unwrap_err();
    assert!(matches!(err, VecBaseError::NotFound { .. }));
    assert_eq!(err.message(), "Record not found: ghost");
}

#[test]
fn test_config_from_default() {
    let cfg = VecBaseConfig::default();
    assert_eq!(cfg.dim, 128);
    assert_eq!(cfg.metric, "cosine");
}

#[test]
fn test_get_returns_normalized_under_cosine() {
    let mut db = make_db();
    let v = bits(&[3.0, 4.0, 0.0, 0.0]);
    db.insert("n".into(), v.clone(), Some("meta".into())).unwrap();
    let rec = db.get("n").unwrap();
    assert_eq!(rec.vector, normalize(&v));
    assert_eq!(rec.metadata.as_deref(), Some("meta"));
}

#[test]
fn test_get_returns_verbatim_under_euclidean() {
    let mut db = VecBase::new(VecBaseConfig {
        dim: 4,
        metric: "euclidean".into(),
        ..Default::default()
    });
    let v = bits(&[3.0, 4.0, 0.0, 0.0]);
    db.insert("n".into(), v.clone(), None).unwrap();
    let rec = db.get("n").unwrap();
    assert_eq!(rec.vector, v);
}

#[test]
fn test_insert_overwrite_keeps_len() {
    let mut db = make_db();
    db.insert("a".into(), bits(&[1.0, 0.0, 0.0, 0.0]), None).unwrap();
    db.insert("a".into(), bits(&[0.0, 1.0, 0.0, 0.0]), Some("new".into())).unwrap();
    assert_eq!(db.len(), 1);
    let rec = db.get("a").unwrap();
    assert_eq!(rec.metadata.as_deref(), Some("new"));
}

#[test]
fn test_capacity_silently_drops_third_insert() {
    let mut db = VecBase::new(VecBaseConfig { dim: 2, max_elements: 2, ..Default::default() });
    db.insert("a".into(), bits(&[1.0, 0.0]), None).unwrap();
    db.insert("b".into(), bits(&[0.0, 1.0]), None).unwrap();
    db.insert("c".into(), bits(&[1.0, 1.0]), None).unwrap();
    assert_eq!(db.len(), 2);
    assert!(db.get("c").is_none());
}

#[test]
fn test_search_wrong_dim_gives_empty_list() {
    let mut db = make_db();
    db.insert("a".into(), bits(&[1.0, 0.0, 0.0, 0.0]), None).unwrap();
    let results = db.search(&bits(&[1.0, 0.0]), 3);
    assert!(results.is_empty());
}

#[test]
fn test_search_returns_all_when_k_covers_store() {
    let mut db = make_db();
    db.insert("a".into(), bits(&[1.0, 0.0, 0.0, 0.0]), None).unwrap();
    db.insert("b".into(), bits(&[0.0, 1.0, 0.0, 0.0]), None).unwrap();
    db.insert("c".into(), bits(&[0.0, 0.0, 1.0, 0.0]), None).unwrap();
    let results = db.search(&bits(&[1.0, 1.0, 0.0, 0.0]), 10);
    assert_eq!(results.len(), 3);
    let mut ids: Vec<&str> = results.iter().map(|r| r.id.as_str()).collect();
    ids.sort();
    assert_eq!(ids, vec!["a", "b", "c"]);
    for w in results.windows(2) {
        assert!(f32::from_bits(w[0].score) >= f32::from_bits(w[1].score));
    }
}

#[test]
fn test_search_truncates_to_k() {
    let mut db = make_db();
    db.insert("a".into(), bits(&[1.0, 0.0, 0.0, 0.0]), None).unwrap();
    db.insert("b".into(), bits(&[0.0, 1.0, 0.0, 0.0]), None).unwrap();
    db.insert("c".into(), bits(&[0.0, 0.0, 1.0, 0.0]), None).unwrap();
    let results = db.search(&bits(&[1.0, 1.0, 1.0, 0.0]), 2);
    assert_eq!(results.len(), 2);
}

#[test]
fn test_cosine_ranking_scenario() {
    let mut db = make_db();
    db.insert("cat".into(), bits(&[0.9, 0.1, 0.0, 0.0]), None).unwrap();
    db.insert("dog".into(), bits(&[0.8, 0.2, 0.0, 0.0]), None).unwrap();
    db.insert("car".into(), bits(&[0.0, 0.0, 0.9, 0.1]), None).unwrap();
    db.insert("bus".into(), bits(&[0.0, 0.0, 0.8, 0.2]), None).unwrap();
    db.insert("fish".into(), bits(&[0.5, 0.5, 0.0, 0.0]), None).unwrap();
    let results = db.search(&bits(&[0.95, 0.05, 0.0, 0.0]), 3);
    let ids: Vec<&str> = results.iter().map(|r| r.id.as_str()).collect();
    assert_eq!(ids, vec!["cat", "dog", "fish"]);
}

#[test]
fn test_unrecognized_metric_means_cosine() {
    let mut db = VecBase::new(VecBaseConfig {
        dim: 2,
        metric: "sideways".into(),
        ..Default::default()
    });
    let v = bits(&[3.0, 4.0]);
    db.insert("a".into(), v.clone(), None).unwrap();
    assert_eq!(db.get("a").unwrap().vector, normalize(&v));
}

#[test]
fn test_plugin_and_storage_error_messages() {
    assert_eq!(
        VecBaseError::PluginLoadError("boom".into()).message(),
        "Plugin load error: boom"
    );
    assert_eq!(VecBaseError::StorageError("disk".into()).message(), "Storage error: disk");
    assert_eq!(VecBaseError::ConfigError("bad".into()).message(), "Configuration error: bad");
}
