use backscan::aggregate::{Aggregate, BlockRecord};
use backscan::worker::extract_identifiers;

fn s(x: &str) -> String {
    x.to_owned()
}

fn record(block_time: i64, ids: &[&str]) -> BlockRecord {
    let lists: Vec<Vec<String>> = vec![ids.iter().map(|x| s(x)).collect()];
    BlockRecord { block_time, identifiers: extract_identifiers(&lists) }
}

#[test]
fn entries_kept_in_ascending_slot_order() {
    let mut agg = Aggregate::new();
    agg.insert(1500, record(105, &["a"]));
    agg.insert(1400, record(103, &["b"]));
    agg.insert(1600, record(108, &["c"]));
    assert_eq!(agg.len(), 3);
    let keys: Vec<u64> = agg.entries().iter().map(|e| e.0).collect();
    assert_eq!(keys, vec![1400, 1500, 1600]);
}

#[test]
fn inserting_a_recorded_slot_replaces_it() {
    let mut agg = Aggregate::new();
    agg.insert(1500, record(105, &["a"]));
    agg.insert(1500, record(106, &["b", "c"]));
    assert_eq!(agg.len(), 1);
    let e = &agg.entries()[0];
    assert_eq!(e.0, 1500);
    assert_eq!(e.1.block_time, 106);
    assert_eq!(e.1.identifiers.as_vec(), &vec![s("b"), s("c")]);
}

#[test]
fn distinct_identifiers_across_blocks() {
    let mut agg = Aggregate::new();
    agg.insert(1500, record(105, &["a", "b"]));
    agg.insert(1501, record(106, &["b", "c"]));
    agg.insert(1502, record(107, &[]));
    let all = agg.distinct_identifiers();
    assert_eq!(all.len(), 3);
    assert!(all.contains(&s("a")));
    assert!(all.contains(&s("b")));
    assert!(all.contains(&s("c")));
}
