use backscan::aggregate::{Aggregate, BlockRecord};
use backscan::bench::{count_contained, membership_pass, pick_fresh_source, pick_recorded};
use backscan::idset::IdSet;
use backscan::worker::extract_identifiers;

fn s(x: &str) -> String {
    x.to_owned()
}

fn set_of(items: &[&str]) -> IdSet {
    let mut set = IdSet::new();
    for x in items {
        set.insert(s(x));
    }
    set
}

fn record(block_time: i64, ids: &[&str]) -> BlockRecord {
    let lists: Vec<Vec<String>> = vec![ids.iter().map(|x| s(x)).collect()];
    BlockRecord { block_time, identifiers: extract_identifiers(&lists) }
}

#[test]
fn counting_membership_hits() {
    let set = set_of(&["a", "b", "c"]);
    let keys = vec![s("a"), s("x"), s("c"), s("a"), s("y")];
    assert_eq!(count_contained(&set, &keys), 3);
    assert_eq!(count_contained(&set, &Vec::new()), 0);
}

#[test]
fn a_full_pass_counts_every_lookup() {
    let mut agg = Aggregate::new();
    agg.insert(10, record(100, &["a", "b"]));
    agg.insert(11, record(101, &["b", "x", "y"]));
    agg.insert(12, record(102, &[]));
    let set = set_of(&["a", "b"]);
    let (ops, hits) = membership_pass(&agg, &set);
    assert_eq!(ops, 5);
    assert_eq!(hits, 3);
}

#[test]
fn probe_source_coin() {
    assert!(pick_fresh_source(u32::MAX));
    assert!(pick_fresh_source(u32::MAX / 2 + 1));
    assert!(!pick_fresh_source(u32::MAX / 2));
    assert!(!pick_fresh_source(0));
}

#[test]
fn picking_a_recorded_identifier() {
    let mut agg = Aggregate::new();
    agg.insert(10, record(100, &["a", "b", "c"]));
    agg.insert(11, record(101, &[]));
    // Block draw 2 selects slot 10 (2 % 2 == 0); key draw 4 selects "b".
    assert_eq!(pick_recorded(&agg, 2, 4), Some(s("b")));
    // Block draw 1 selects slot 11, which recorded nothing: draw again.
    assert_eq!(pick_recorded(&agg, 1, 4), None);
}
