use backscan::cursor::{Cursor, TakeStep};
use backscan::worker::{classify_block, compute_stop_time, extract_identifiers, BlockAction};

fn s(x: &str) -> String {
    x.to_owned()
}

#[test]
fn missing_timestamp_skips_the_slot() {
    // A block fetch without a timestamp: the slot is skipped, not recorded,
    // and no truncation is triggered.
    let stop: i64 = 100;
    assert_eq!(classify_block(None, stop), BlockAction::Skip);
    // The cursor is not touched on a skip; nothing changes.
    let mut c = Cursor::new(2000, stop);
    c.take_next();
    c.refill((1001..=2000).collect());
    let pending_before = c.pending.clone();
    match classify_block(None, stop) {
        BlockAction::Skip => {}
        _ => panic!("skip expected"),
    }
    assert_eq!(c.pending, pending_before);
    assert_eq!(c.boundary, Some(1000));
}

#[test]
fn old_timestamp_truncates() {
    let stop: i64 = 100;
    assert_eq!(classify_block(Some(stop - 1), stop), BlockAction::Truncate);
}

#[test]
fn recent_timestamp_records() {
    let stop: i64 = 100;
    assert_eq!(classify_block(Some(stop), stop), BlockAction::Record);
    assert_eq!(classify_block(Some(stop + 7), stop), BlockAction::Record);
}

#[test]
fn identifiers_flattened_and_deduplicated() {
    let lists = vec![
        vec![s("alpha"), s("beta")],
        vec![s("beta"), s("gamma"), s("alpha")],
        vec![],
        vec![s("delta")],
    ];
    let ids = extract_identifiers(&lists);
    assert_eq!(ids.len(), 4);
    assert_eq!(ids.as_vec(), &vec![s("alpha"), s("beta"), s("gamma"), s("delta")]);
    assert!(ids.contains(&s("gamma")));
    assert!(!ids.contains(&s("epsilon")));
}

#[test]
fn extraction_of_nothing_is_empty() {
    let ids = extract_identifiers(&Vec::new());
    assert_eq!(ids.len(), 0);
}

#[test]
fn stop_time_is_start_minus_window() {
    assert_eq!(compute_stop_time(1_000_000, 900), Some(999_100));
    assert_eq!(compute_stop_time(0, -900), Some(900));
    assert_eq!(compute_stop_time(i64::MIN, 1), None);
}
