//! The decisions a worker makes for each fetched block, and the extraction of
//! identifiers from its transaction payloads.
//!
//! The worker loop itself runs outside the library (it fetches blocks over
//! the network); each turn it feeds the fetched data in here as plain values
//! and acts on the answer: skip the slot, truncate the cursor, or record the
//! extracted identifiers in the aggregate.

use vstd::prelude::*;
use crate::idset::IdSet;

verus! {

/// What a worker does with one fetched block.
#[derive(Debug, Clone, Copy, PartialEq, Eq, Structural)]
pub enum BlockAction {
    /// The block carries no usable timestamp: drop the slot, record nothing,
    /// and do not touch the cursor.
    Skip,
    /// The block's timestamp is earlier than the stop timestamp: tell the
    /// cursor to truncate, and record nothing.
    Truncate,
    /// The block is inside the collection window: extract its identifiers
    /// and record them in the aggregate.
    Record,
}

/// Decide what to do with a block whose fetch returned `block_time`, against
/// the run's fixed stop timestamp.
pub fn classify_block(block_time: Option<i64>, stop_time: i64) -> (a: BlockAction)
    ensures
        block_time is None ==> a == BlockAction::Skip,
        block_time matches Some(t) && t < stop_time ==> a == BlockAction::Truncate,
        block_time matches Some(t) && t >= stop_time ==> a == BlockAction::Record,
{
    match block_time {
        Option::None => BlockAction::Skip,
        Option::Some(t) => if t < stop_time {
            BlockAction::Truncate
        } else {
            BlockAction::Record
        },
    }
}

/// String `s` occurs in one of the account-reference lists.
pub open spec fn mentioned(lists: Seq<Seq<Seq<char>>>, s: Seq<char>) -> bool {
    exists|i: int, j: int|
        0 <= i < lists.len() && 0 <= j < lists[i].len() && lists[i][j] == s
}

/// Flatten every transaction's account-reference list into one deduplicated
/// set of identifier strings: the set holds exactly the strings that occur in
/// some list, each once.
pub fn extract_identifiers(lists: &Vec<Vec<String>>) -> (r: IdSet)
    ensures
        r.wf(),
        forall|s: Seq<char>| #[trigger] r@.contains(s) <==> mentioned(lists.deep_view(), s),
{
    let mut r = IdSet::new();
    let mut i: usize = 0;
    while i < lists.len()
        invariant
            i <= lists@.len(),
            r.wf(),
            forall|s: Seq<char>|
                #[trigger] r@.contains(s) <==> mentioned(
                    lists.deep_view().take(i as int),
                    s,
                ),
        decreases lists@.len() - i,
    {
        let ghost pre = r@;
        r.insert_all(&lists[i]);
        proof {
            let dv = lists.deep_view();
            assert(lists[i as int].deep_view() == dv[i as int]);
            assert forall|s: Seq<char>|
                #[trigger] r@.contains(s) <==> mentioned(dv.take(i as int + 1), s) by {
                if r@.contains(s) {
                    if pre.contains(s) {
                        let (a, b) = choose|a: int, b: int|
                            0 <= a < i && 0 <= b < dv.take(i as int)[a].len() && dv.take(
                                i as int,
                            )[a][b] == s;
                        assert(dv.take(i as int + 1)[a][b] == s);
                    } else {
                        let j = choose|j: int| 0 <= j < dv[i as int].len() && dv[i as int][j] == s;
                        assert(dv.take(i as int + 1)[i as int][j] == s);
                    }
                }
                if mentioned(dv.take(i as int + 1), s) {
                    let (a, b) = choose|a: int, b: int|
                        0 <= a <= i && 0 <= b < dv.take(i as int + 1)[a].len()
                            && #[trigger] dv.take(i as int + 1)[a][b] == s;
                    if a < i {
                        assert(dv.take(i as int)[a][b] == s);
                        assert(mentioned(dv.take(i as int), s));
                    } else {
                        assert(dv[i as int][b] == s);
                        assert(dv[i as int].contains(s));
                    }
                }
            }
        }
        i += 1;
    }
    proof {
        assert(lists.deep_view().take(lists@.len() as int) =~= lists.deep_view());
    }
    r
}

/// The stop timestamp of a run: the starting block's timestamp minus the
/// configured collection window, or `None` when that difference does not fit
/// a timestamp.
pub fn compute_stop_time(start_time: i64, window_secs: i64) -> (r: Option<i64>)
    ensures
        r matches Some(t) ==> t == start_time - window_secs,
        r is None <==> !(i64::MIN <= start_time - window_secs <= i64::MAX),
{
    start_time.checked_sub(window_secs)
}

} // verus!
