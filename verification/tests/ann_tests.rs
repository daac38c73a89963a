use ann_registry::index::VectorIndex;
use ann_registry::metric::{metrics_transform, Metric};
use ann_registry::registry::IndexRegistry;
use ann_registry::codec::from_bytes;
use ann_registry::IndexError;

fn v8(a: i64, b: i64, c: i64, d: i64, e: i64, f: i64, g: i64, h: i64) -> Vec<i64> {
    vec![a, b, c, d, e, f, g, h]
}

fn sample_registry(name: &str, metric: &str) -> IndexRegistry {
    let mut reg = IndexRegistry::new();
    let n = name.to_string();
    reg.create(&n, 8);
    reg.add(&n, v8(1, 1, 1, 1, 1, 1, 1, 1), "id".to_string()).unwrap();
    reg.add(&n, v8(2, 2, 2, 2, 1, 1, 1, 1), "id2".to_string()).unwrap();
    reg.add(&n, v8(0, 0, 0, 0, 1, 1, 1, 1), "id3".to_string()).unwrap();
    let status = reg.build(&n, metrics_transform(metric));
    assert_eq!(status, "Ok".to_string());
    reg
}

#[test]
fn hora_test() {
    let mut reg = IndexRegistry::new();
    let name = "test".to_string();
    reg.create(&name, 8);
    let buf = v8(1, 1, 1, 1, 1, 1, 1, 1);
    let buf2 = v8(2, 2, 2, 2, 1, 1, 1, 1);
    let buf3 = v8(0, 0, 0, 0, 1, 1, 1, 1);
    reg.add(&name, buf.clone(), "id".to_string()).unwrap();
    reg.add(&name, buf2, "id2".to_string()).unwrap();
    reg.add(&name, buf3, "id3".to_string()).unwrap();
    println!("Added nodes");
    let status = reg.build(&name, metrics_transform("euclidean"));
    assert_eq!(status, "Ok".to_string());
    println!("Built\n");
    let result = reg.search(&name, 3, &buf);
    for x in &result {
        println!("Found result: {}", x);
    }
    assert_eq!(result.len(), 3);
    assert_eq!(result[0], "id".to_string());
    assert!(result.contains(&"id2".to_string()));
    assert!(result.contains(&"id3".to_string()));
}

#[test]
fn create_then_search_is_empty() {
    let mut reg = IndexRegistry::new();
    let name = "fresh".to_string();
    reg.create(&name, 8);
    let q = v8(1, 2, 3, 4, 5, 6, 7, 8);
    assert!(reg.search(&name, 5, &q).is_empty());
    assert!(reg.search(&name, 0, &q).is_empty());
}

#[test]
fn wrong_dimension_add_is_rejected() {
    let mut idx = VectorIndex::new(8);
    assert_eq!(idx.add(vec![1, 2, 3], "short".to_string()), Err(IndexError::DimensionMismatch));
    assert_eq!(idx.item_count(), 0);
    assert_eq!(
        idx.add(vec![0; 9], "long".to_string()),
        Err(IndexError::DimensionMismatch)
    );
    assert_eq!(idx.item_count(), 0);
    assert_eq!(idx.add(v8(1, 1, 1, 1, 1, 1, 1, 1), "ok".to_string()), Ok(()));
    assert_eq!(idx.item_count(), 1);
    let mut reg = IndexRegistry::new();
    let name = "r".to_string();
    reg.create(&name, 8);
    assert_eq!(
        reg.add(&name, vec![1, 2], "short".to_string()),
        Err(IndexError::DimensionMismatch)
    );
    assert!(reg.search(&name, 3, &v8(0, 0, 0, 0, 0, 0, 0, 0)).is_empty());
}

#[test]
fn build_on_empty_index_fails() {
    let mut idx = VectorIndex::new(4);
    assert_eq!(idx.build(Metric::Euclidean), Err(IndexError::EmptyIndex));
    assert!(!idx.is_built());
    let mut reg = IndexRegistry::new();
    let name = "empty".to_string();
    reg.create(&name, 4);
    assert_eq!(reg.build(&name, Metric::Euclidean), "Empty index".to_string());
    assert!(reg.search(&name, 3, &vec![0, 0, 0, 0]).is_empty());
}

#[test]
fn missing_name_operations_are_no_ops() {
    let mut reg = IndexRegistry::new();
    let ghostly = "nobody".to_string();
    assert!(reg.search(&ghostly, 3, &v8(0, 0, 0, 0, 0, 0, 0, 0)).is_empty());
    assert_eq!(reg.build(&ghostly, Metric::Euclidean), "No index".to_string());
    assert_eq!(reg.add(&ghostly, v8(1, 1, 1, 1, 1, 1, 1, 1), "x".to_string()), Ok(()));
    assert!(reg.dump(&ghostly).is_none());
    // load on a missing name creates the entry
    let src = sample_registry("seed", "euclidean");
    let bytes = src.dump(&"seed".to_string()).unwrap();
    reg.load(&ghostly, &bytes).unwrap();
    let found = reg.search(&ghostly, 3, &v8(1, 1, 1, 1, 1, 1, 1, 1));
    assert_eq!(found.len(), 3);
}

#[test]
fn dump_load_round_trip_keeps_search_results() {
    for metric in [
        "euclidean",
        "manhattan",
        "dot_product",
        "angular",
        "cosine_similarity",
        "something_else",
    ] {
        let mut reg = sample_registry("a", metric);
        let a = "a".to_string();
        let b = "b".to_string();
        let q = v8(1, 1, 1, 1, 1, 1, 1, 1);
        let before = reg.search(&a, 3, &q);
        let bytes = reg.dump(&a).unwrap();
        reg.load(&b, &bytes).unwrap();
        let after = reg.search(&b, 3, &q);
        assert_eq!(before, after, "metric {}", metric);
        // and the reloaded index re-serializes to the same bytes
        assert_eq!(reg.dump(&b).unwrap(), bytes);
    }
}

#[test]
fn search_is_idempotent() {
    let reg = sample_registry("a", "euclidean");
    let a = "a".to_string();
    let q = v8(2, 2, 2, 2, 1, 1, 1, 1);
    let first = reg.search(&a, 2, &q);
    let second = reg.search(&a, 2, &q);
    assert_eq!(first, second);
    assert_eq!(first.len(), 2);
}

#[test]
fn metric_names_map_to_metrics() {
    assert_eq!(metrics_transform("angular"), Metric::Angular);
    assert_eq!(metrics_transform("manhattan"), Metric::Manhattan);
    assert_eq!(metrics_transform("dot_product"), Metric::DotProduct);
    assert_eq!(metrics_transform("euclidean"), Metric::Euclidean);
    assert_eq!(metrics_transform("cosine_similarity"), Metric::CosineSimilarity);
    assert_eq!(metrics_transform("anything else"), Metric::Unknown);
    assert_eq!(metrics_transform(""), Metric::Unknown);
}

#[test]
fn euclidean_ranks_exact_match_first() {
    let mut idx = VectorIndex::new(8);
    idx.add(v8(1, 1, 1, 1, 1, 1, 1, 1), "id".to_string()).unwrap();
    idx.add(v8(2, 2, 2, 2, 1, 1, 1, 1), "id2".to_string()).unwrap();
    idx.add(v8(0, 0, 0, 0, 1, 1, 1, 1), "id3".to_string()).unwrap();
    idx.build(Metric::Euclidean).unwrap();
    // squared distances from the query: id 0, id2 4, id3 4
    let got = idx.search(&v8(1, 1, 1, 1, 1, 1, 1, 1), 3);
    assert_eq!(got.len(), 3);
    assert_eq!(got[0], "id".to_string());
}

#[test]
fn dot_product_ranks_larger_inner_product_first() {
    let mut idx = VectorIndex::new(8);
    idx.add(v8(1, 1, 1, 1, 1, 1, 1, 1), "id".to_string()).unwrap();
    idx.add(v8(2, 2, 2, 2, 1, 1, 1, 1), "id2".to_string()).unwrap();
    idx.add(v8(0, 0, 0, 0, 1, 1, 1, 1), "id3".to_string()).unwrap();
    idx.build(Metric::DotProduct).unwrap();
    // inner products with the query: id 8, id2 12, id3 4
    let got = idx.search(&v8(1, 1, 1, 1, 1, 1, 1, 1), 3);
    assert_eq!(got, vec!["id2".to_string(), "id".to_string(), "id3".to_string()]);
}

#[test]
fn manhattan_distance_ordering() {
    let mut idx = VectorIndex::new(2);
    idx.add(vec![0, 0], "origin".to_string()).unwrap();
    idx.add(vec![3, 4], "far".to_string()).unwrap();
    idx.add(vec![1, 0], "near".to_string()).unwrap();
    idx.build(Metric::Manhattan).unwrap();
    // L1 distances from the query: origin 1, far 6, near 0
    let got = idx.search(&vec![1, 0], 3);
    assert_eq!(got, vec!["near".to_string(), "origin".to_string(), "far".to_string()]);
}

#[test]
fn cosine_similarity_ignores_magnitude() {
    let mut idx = VectorIndex::new(2);
    idx.add(vec![10, 0], "xaxis".to_string()).unwrap();
    idx.add(vec![0, 7], "yaxis".to_string()).unwrap();
    idx.add(vec![5, 5], "diag".to_string()).unwrap();
    idx.build(Metric::CosineSimilarity).unwrap();
    // cosines with the query: xaxis 1, yaxis 0, diag ~0.707
    let got = idx.search(&vec![2, 0], 3);
    assert_eq!(got, vec!["xaxis".to_string(), "diag".to_string(), "yaxis".to_string()]);
}

#[test]
fn add_after_build_is_invisible_until_rebuild() {
    let mut idx = VectorIndex::new(2);
    idx.add(vec![0, 0], "a".to_string()).unwrap();
    idx.build(Metric::Euclidean).unwrap();
    idx.add(vec![1, 1], "b".to_string()).unwrap();
    assert_eq!(idx.search(&vec![1, 1], 5), vec!["a".to_string()]);
    idx.build(Metric::Euclidean).unwrap();
    let got = idx.search(&vec![1, 1], 5);
    assert_eq!(got.len(), 2);
    assert_eq!(got[0], "b".to_string());
}

#[test]
fn corrupt_streams_are_rejected() {
    assert!(matches!(from_bytes(&vec![]), Err(IndexError::CorruptData)));
    assert!(matches!(from_bytes(&vec![0, 1, 2, 3, 4, 5]), Err(IndexError::CorruptData)));
    let reg = sample_registry("a", "euclidean");
    let mut bytes = reg.dump(&"a".to_string()).unwrap();
    // truncation
    bytes.pop();
    assert!(matches!(from_bytes(&bytes), Err(IndexError::CorruptData)));
    // bad magic
    let mut bytes2 = reg.dump(&"a".to_string()).unwrap();
    bytes2[0] = 99;
    assert!(matches!(from_bytes(&bytes2), Err(IndexError::CorruptData)));
    let mut reg2 = IndexRegistry::new();
    assert_eq!(reg2.load(&"x".to_string(), &bytes), Err(IndexError::CorruptData));
    assert!(reg2.search(&"x".to_string(), 1, &v8(0, 0, 0, 0, 0, 0, 0, 0)).is_empty());
}

#[test]
fn unbuilt_index_round_trips() {
    let mut reg = IndexRegistry::new();
    let a = "a".to_string();
    reg.create(&a, 3);
    reg.add(&a, vec![1, 2, 3], "only".to_string()).unwrap();
    let bytes = reg.dump(&a).unwrap();
    let b = "b".to_string();
    reg.load(&b, &bytes).unwrap();
    assert!(reg.search(&b, 1, &vec![1, 2, 3]).is_empty());
    assert_eq!(reg.build(&b, Metric::Euclidean), "Ok".to_string());
    assert_eq!(reg.search(&b, 1, &vec![1, 2, 3]), vec!["only".to_string()]);
}

#[test]
fn non_ascii_labels_round_trip() {
    let mut reg = IndexRegistry::new();
    let a = "café".to_string();
    reg.create(&a, 2);
    reg.add(&a, vec![1, 2], "héllo wörld".to_string()).unwrap();
    assert_eq!(reg.build(&a, Metric::Euclidean), "Ok".to_string());
    let bytes = reg.dump(&a).unwrap();
    let b = "b".to_string();
    reg.load(&b, &bytes).unwrap();
    assert_eq!(reg.search(&b, 1, &vec![1, 2]), vec!["héllo wörld".to_string()]);
}

#[test]
fn error_messages() {
    assert_eq!(IndexError::DimensionMismatch.message(), "Dimension mismatch".to_string());
    assert_eq!(IndexError::EmptyIndex.message(), "Empty index".to_string());
    assert_eq!(IndexError::CorruptData.message(), "Corrupt data".to_string());
}

#[test]
fn create_overwrites_existing_index() {
    let mut reg = sample_registry("a", "euclidean");
    let a = "a".to_string();
    assert_eq!(reg.search(&a, 1, &v8(1, 1, 1, 1, 1, 1, 1, 1)).len(), 1);
    reg.create(&a, 8);
    assert!(reg.search(&a, 1, &v8(1, 1, 1, 1, 1, 1, 1, 1)).is_empty());
    assert_eq!(reg.build(&a, Metric::Euclidean), "Empty index".to_string());
}

#[test]
fn larger_index_returns_k_results_sorted() {
    let mut idx = VectorIndex::new(1);
    for i in 0..50 {
        idx.add(vec![i as i64], format!("n{}", i)).unwrap();
    }
    idx.build(Metric::Euclidean).unwrap();
    let got = idx.search(&vec![0], 5);
    assert_eq!(got.len(), 5);
    assert_eq!(got[0], "n0".to_string());
    let got2 = idx.search(&vec![25], 3);
    assert_eq!(got2.len(), 3);
    assert_eq!(got2[0], "n25".to_string());
}

#[test]
fn unknown_metric_still_returns_count() {
    let mut idx = VectorIndex::new(2);
    idx.add(vec![0, 0], "a".to_string()).unwrap();
    idx.add(vec![5, 5], "b".to_string()).unwrap();
    idx.build(Metric::Unknown).unwrap();
    let got = idx.search(&vec![0, 0], 2);
    assert_eq!(got.len(), 2);
}
