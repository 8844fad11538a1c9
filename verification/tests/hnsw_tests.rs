use vcore::embedding::Metric;
use vcore::processing::{batch_insert, BatchInsert, HnswIndex};
use vcore::{VecBase, VecBaseConfig};

fn bits(v: &[f32]) -> Vec<u32> {
    v.iter().map(|x| x.to_bits()).collect()
}

#[test]
fn test_hnsw_insert_search() {
    let mut idx = HnswIndex::new(3, 1000);
    idx.insert("a".into(), bits(&[1.0, 0.0, 0.0]));
    idx.insert("b".into(), bits(&[0.0, 1.0, 0.0]));
    idx.insert("c".into(), bits(&[0.0, 0.0, 1.0]));

    let results = idx.search(&bits(&[1.0, 0.0, 0.0]), 2, &Metric::Cosine);
    assert!(!results.is_empty());
    assert_eq!(results[0].0, "a");
}

#[test]
fn test_hnsw_remove() {
    let mut idx = HnswIndex::new(2, 100);
    idx.insert("x".into(), bits(&[1.0, 0.0]));
    idx.remove("x");
    assert_eq!(idx.len(), 0);
}

#[test]
fn test_hnsw_empty_search() {
    let idx = HnswIndex::new(4, 100);
    let results = idx.search(&bits(&[1.0, 0.0, 0.0, 0.0]), 5, &Metric::Cosine);
    assert!(results.is_empty());
}

#[test]
fn test_batch_insert() {
    let mut db = VecBase::new(VecBaseConfig { dim: 3, ..Default::default() });
    let items = vec![
        BatchInsert { id: "v1".into(), vector: bits(&[1.0, 0.0, 0.0]), metadata: None },
        BatchInsert { id: "v2".into(), vector: bits(&[0.0, 1.0, 0.0]), metadata: None },
        // Wrong dimension — should fail
        BatchInsert { id: "v3".into(), vector: bits(&[1.0, 2.0]), metadata: None },
    ];
    let result = batch_insert(&mut db, items);
    assert_eq!(result.inserted, 2);
    assert_eq!(result.failed.len(), 1);
    assert_eq!(result.failed[0].0, "v3");
    // the valid items are stored, the failed one is not
    assert!(db.get("v1").is_some());
    assert!(db.get("v2").is_some());
    assert!(db.get("v3").is_none());
}

#[test]
fn test_batch_insert_reports_reason() {
    let mut db = VecBase::new(VecBaseConfig { dim: 3, ..Default::default() });
    let items = vec![BatchInsert { id: "bad".into(), vector: bits(&[1.0]), metadata: None }];
    let result = batch_insert(&mut db, items);
    assert_eq!(result.inserted, 0);
    assert_eq!(result.failed[0].1, "Dimension mismatch: expected 3, got 1");
}

#[test]
fn test_entry_reassigned_after_delete() {
    // Deleting the entry point of a three-node graph must leave the index
    // usable: a further insert and search succeed.
    let mut idx = HnswIndex::new(2, 100);
    idx.insert("a".into(), bits(&[1.0, 0.0]));
    idx.insert("b".into(), bits(&[0.0, 1.0]));
    idx.insert("c".into(), bits(&[1.0, 1.0]));
    idx.remove("a");
    assert_eq!(idx.len(), 2);
    idx.insert("d".into(), bits(&[0.5, 0.5]));
    let results = idx.search(&bits(&[0.4, 0.6]), 3, &Metric::Cosine);
    assert_eq!(results.len(), 3);
}

#[test]
fn test_graph_regime_above_threshold() {
    // Past the brute-force threshold the greedy traversal answers: results
    // stay sorted descending and within the requested count.
    let mut idx = HnswIndex::new(2, 10000);
    let mut i: u32 = 0;
    while idx.len() < 501 {
        let x = (i % 100) as f32 / 100.0;
        let y = 1.0 - x;
        idx.insert(format!("n{}", i), bits(&[x, y]));
        i += 1;
    }
    let results = idx.search(&bits(&[0.7, 0.3]), 5, &Metric::Cosine);
    assert!(results.len() <= 5);
    assert!(!results.is_empty());
    for w in results.windows(2) {
        assert!(f32::from_bits(w[0].1) >= f32::from_bits(w[1].1));
    }
}

#[test]
fn test_insert_wires_best_neighbors_with_backlinks() {
    // a fresh node links to every existing node while fewer than 16 exist,
    // and each of them gains the back-link
    let mut idx = HnswIndex::new(2, 100);
    idx.insert("a".into(), bits(&[1.0, 0.0]));
    idx.insert("b".into(), bits(&[0.0, 1.0]));
    idx.insert("c".into(), bits(&[0.6, 0.4]));
    let c = idx.nodes.iter().find(|n| n.id == "c").unwrap();
    let mut linked: Vec<&str> = c.neighbors.iter().map(|s| s.as_str()).collect();
    linked.sort();
    assert_eq!(linked, vec!["a", "b"]);
    for other in ["a", "b"] {
        let n = idx.nodes.iter().find(|n| n.id == other).unwrap();
        assert!(n.neighbors.iter().any(|s| s == "c"));
    }
}

#[test]
fn test_capacity_is_a_hard_ceiling() {
    let mut idx = HnswIndex::new(2, 2);
    idx.insert("a".into(), bits(&[1.0, 0.0]));
    idx.insert("b".into(), bits(&[0.0, 1.0]));
    idx.insert("c".into(), bits(&[1.0, 1.0]));
    assert_eq!(idx.len(), 2);
}
