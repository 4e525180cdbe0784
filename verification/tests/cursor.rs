use backscan::cursor::{Cursor, TakeStep, WINDOW_SIZE};

fn ascending(from: u64, to: u64) -> Vec<u64> {
    (from..=to).collect()
}

#[test]
fn first_window_walks_descending() {
    // Cursor seeded with boundary 2000; the first window request covers
    // [1000, 2000]; its answer [1001..2000] is then dispatched descending.
    let mut c = Cursor::new(2000, 100);
    assert_eq!(WINDOW_SIZE, 1000);
    assert_eq!(c.take_next(), TakeStep::NeedWindow { start: 1000, end: 2000 });
    c.refill(ascending(1001, 2000));
    assert_eq!(c.boundary, Some(1000));
    let mut expected: u64 = 2000;
    loop {
        match c.take_next() {
            TakeStep::Got(s) => {
                assert_eq!(s, expected);
                expected -= 1;
            }
            TakeStep::NeedWindow { start, end } => {
                // A fresh window is requested only once the list is drained.
                assert_eq!(expected, 1000);
                assert_eq!(start, 0);
                assert_eq!(end, 1000);
                break;
            }
            TakeStep::Done => panic!("cursor exhausted too early"),
        }
    }
}

#[test]
fn boundary_clamped_near_ledger_start() {
    let mut c = Cursor::new(500, 0);
    assert_eq!(c.take_next(), TakeStep::NeedWindow { start: 0, end: 500 });
}

#[test]
fn empty_window_exhausts() {
    let mut c = Cursor::new(2000, 100);
    assert_eq!(c.take_next(), TakeStep::NeedWindow { start: 1000, end: 2000 });
    c.refill(Vec::new());
    assert_eq!(c.boundary, None);
    assert_eq!(c.take_next(), TakeStep::Done);
}

#[test]
fn done_stays_done() {
    // Exhaustion terminality: once Done, every further call answers Done.
    let mut c = Cursor::new(2000, 100);
    c.take_next();
    c.refill(Vec::new());
    for _ in 0..5 {
        assert_eq!(c.take_next(), TakeStep::Done);
    }
    // Even a late truncation does not revive it.
    c.truncate_below(1500, 99);
    assert_eq!(c.take_next(), TakeStep::Done);
}

#[test]
fn truncation_discards_below_slot() {
    // A worker saw slot 1500 with a timestamp one older than the stop:
    // the pending list keeps only slots >= 1500 and no further window is
    // ever requested.
    let stop: i64 = 100;
    let mut c = Cursor::new(2000, stop);
    c.take_next();
    c.refill(ascending(1001, 2000));
    c.truncate_below(1500, stop - 1);
    assert_eq!(c.boundary, None);
    assert_eq!(c.pending, ascending(1500, 2000));
    let mut expected: u64 = 2000;
    loop {
        match c.take_next() {
            TakeStep::Got(s) => {
                assert_eq!(s, expected);
                expected -= 1;
            }
            TakeStep::NeedWindow { .. } => panic!("window requested after truncation"),
            TakeStep::Done => {
                assert_eq!(expected, 1499);
                break;
            }
        }
    }
}

#[test]
fn truncation_with_recent_timestamp_is_inert() {
    let stop: i64 = 100;
    let mut c = Cursor::new(2000, stop);
    c.take_next();
    c.refill(ascending(1001, 2000));
    c.truncate_below(1500, stop);
    assert_eq!(c.boundary, Some(1000));
    assert_eq!(c.pending, ascending(1001, 2000));
}

#[test]
fn truncation_is_idempotent() {
    // Repeated truncations with timestamps below the stop leave the pending
    // list exactly as the first left it.
    let stop: i64 = 100;
    let mut c = Cursor::new(2000, stop);
    c.take_next();
    c.refill(ascending(1001, 2000));
    c.truncate_below(1500, stop - 1);
    let after_first = c.pending.clone();
    c.truncate_below(1500, stop - 3);
    assert_eq!(c.pending, after_first);
    c.truncate_below(1500, stop - 7);
    assert_eq!(c.pending, after_first);
}

#[test]
fn boundary_only_decreases() {
    let mut c = Cursor::new(5000, 100);
    let mut last = c.boundary.unwrap();
    c.take_next();
    c.refill(ascending(4001, 5000));
    let b = c.boundary.unwrap();
    assert!(b <= last);
    last = b;
    for _ in 0..1000 {
        c.take_next();
    }
    c.take_next();
    c.refill(ascending(3501, 4000));
    let b = c.boundary.unwrap();
    assert!(b <= last);
}

#[test]
fn no_slot_dispatched_twice() {
    // Drain a two-window universe completely and check the union of all
    // dispatched slots has no repeats.
    let mut c = Cursor::new(200, 0);
    let mut seen: Vec<u64> = Vec::new();
    loop {
        match c.take_next() {
            TakeStep::Got(s) => {
                assert!(!seen.contains(&s));
                seen.push(s);
            }
            TakeStep::NeedWindow { start, end } => {
                if end >= 150 {
                    c.refill((101..=end).collect());
                } else {
                    assert_eq!((start, end), (0, 100));
                    c.refill(Vec::new());
                }
            }
            TakeStep::Done => break,
        }
    }
    assert_eq!(seen.len(), 100);
}
