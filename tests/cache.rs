use simdedup::cache::{check_dimension, check_store, identifiers, merge_store, partition, RowSource};
use simdedup::error::DedupError;

fn strings(v: &[&str]) -> Vec<String> {
    v.iter().map(|s| s.to_string()).collect()
}

#[test]
fn identifiers_are_file_names() {
    let ids = identifiers(&strings(&["data/a/x.png", "y.jpg", "/abs/dir/z.bmp"])).unwrap();
    assert_eq!(ids, strings(&["x.png", "y.jpg", "z.bmp"]));
    assert_eq!(identifiers(&strings(&["ok.png", "/"])), None);
    assert_eq!(identifiers(&strings(&["dir/.."])), None);
    assert_eq!(identifiers(&Vec::new()), Some(Vec::new()));
}

#[test]
fn partition_splits_hits_and_misses() {
    let cached = strings(&["a", "b", "a"]);
    let requested = strings(&["b", "c", "a", "d"]);
    let p = partition(&requested, &cached);
    assert_eq!(
        p.rows,
        vec![RowSource::Cached(1), RowSource::Computed(0), RowSource::Cached(0), RowSource::Computed(1)]
    );
    assert_eq!(p.to_compute, vec![1, 3]);
}

#[test]
fn partition_of_empty_request() {
    let p = partition(&Vec::new(), &strings(&["a"]));
    assert!(p.rows.is_empty());
    assert!(p.to_compute.is_empty());
    let p = partition(&strings(&["a", "b"]), &Vec::new());
    assert_eq!(p.rows, vec![RowSource::Computed(0), RowSource::Computed(1)]);
    assert_eq!(p.to_compute, vec![0, 1]);
}

#[test]
fn merge_then_partition_computes_nothing() {
    let cached = strings(&["a", "b"]);
    let requested = strings(&["c", "a", "d"]);
    let p = partition(&requested, &cached);
    let plan = merge_store(&requested, &cached, &p);
    assert_eq!(plan.identifiers, strings(&["a", "b", "c", "d"]));
    assert_eq!(
        plan.rows,
        vec![RowSource::Cached(0), RowSource::Cached(1), RowSource::Computed(0), RowSource::Computed(1)]
    );
    let again = partition(&requested, &plan.identifiers);
    assert!(again.to_compute.is_empty());
    assert_eq!(
        again.rows,
        vec![RowSource::Cached(2), RowSource::Cached(0), RowSource::Cached(3)]
    );
}

#[test]
fn second_run_leaves_store_unchanged() {
    let requested = strings(&["x", "y"]);
    let first = partition(&requested, &Vec::new());
    let store = merge_store(&requested, &Vec::new(), &first);
    let second = partition(&requested, &store.identifiers);
    let store2 = merge_store(&requested, &store.identifiers, &second);
    assert!(second.to_compute.is_empty());
    assert_eq!(store2.identifiers, store.identifiers);
    assert_eq!(store2.rows, vec![RowSource::Cached(0), RowSource::Cached(1)]);
}

#[test]
fn store_checks() {
    assert_eq!(check_store(3, 3), Ok(()));
    assert_eq!(check_store(3, 2), Err(DedupError::CacheCorrupt));
    assert_eq!(check_dimension(0, 7, 1280), Ok(()));
    assert_eq!(check_dimension(4, 1280, 1280), Ok(()));
    assert_eq!(check_dimension(4, 512, 1280), Err(DedupError::DimensionMismatch));
}
