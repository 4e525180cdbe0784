//! The result aggregate: the accumulated, ordered mapping from slot number to
//! the block data extracted for it.
//!
//! Workers insert into it (the surrounding program keeps it behind its own
//! exclusive lock); it is read once at the end of the run to produce the
//! output and the summary statistics. The mapping is kept as a vector of
//! entries with strictly ascending keys.

use vstd::prelude::*;
use crate::cursor::strictly_ascending;
use crate::idset::IdSet;

verus! {

/// The data recorded for one slot: the block's timestamp and the set of
/// identifier strings referenced by its transactions.
pub struct BlockRecord {
    pub block_time: i64,
    pub identifiers: IdSet,
}

/// Ordered mapping from slot number to block record, keys unique.
pub struct Aggregate {
    pub entries: Vec<(u64, BlockRecord)>,
}

impl Aggregate {
    /// The keys, in storage order.
    pub open spec fn keys(self) -> Seq<u64> {
        self.entries@.map_values(|e: (u64, BlockRecord)| e.0)
    }

    /// Well-formedness: keys strictly ascending (hence unique), every
    /// record's identifier set well-formed.
    pub open spec fn wf(self) -> bool {
        &&& strictly_ascending(self.keys())
        &&& forall|i: int|
            0 <= i < self.entries@.len() ==> (#[trigger] self.entries@[i].1).identifiers.wf()
    }

    /// Some entry carries this slot.
    pub open spec fn contains_slot(self, slot: u64) -> bool {
        exists|i: int| 0 <= i < self.entries@.len() && (#[trigger] self.entries@[i]).0 == slot
    }

    /// An empty aggregate.
    pub fn new() -> (r: Aggregate)
        ensures
            r.wf(),
            r.entries@ == Seq::<(u64, BlockRecord)>::empty(),
    {
        Aggregate { entries: Vec::new() }
    }

    /// Number of recorded slots.
    pub fn len(&self) -> (n: usize)
        ensures
            n == self.entries@.len(),
    {
        self.entries.len()
    }

    /// The entries, in ascending slot order.
    pub fn entries(&self) -> (r: &Vec<(u64, BlockRecord)>)
        ensures
            r@ == self.entries@,
    {
        &self.entries
    }

    /// Record the block data for `slot`, keeping the entries sorted by slot:
    /// a new slot is placed at its position, a recorded slot has its value
    /// replaced.
    pub fn insert(&mut self, slot: u64, record: BlockRecord)
        requires
            old(self).wf(),
            record.identifiers.wf(),
        ensures
            final(self).wf(),
            final(self).contains_slot(slot),
            old(self).contains_slot(slot) ==> exists|i: int|
                0 <= i < old(self).entries@.len() && (#[trigger] old(self).entries@[i]).0 == slot
                    && final(self).entries@ == old(self).entries@.update(i, (slot, record)),
            !old(self).contains_slot(slot) ==> exists|i: int|
                0 <= i <= old(self).entries@.len()
                    && (forall|j: int| 0 <= j < i ==> (#[trigger] old(self).entries@[j]).0 < slot)
                    && (forall|j: int|
                    i <= j < old(self).entries@.len() ==> (#[trigger] old(self).entries@[j]).0
                        > slot) && final(self).entries@ == old(self).entries@.insert(
                    i,
                    (slot, record),
                ),
    {
        let ghost pre = self.entries@;
        let mut i: usize = 0;
        while i < self.entries.len() && self.entries[i].0 < slot
            invariant
                i <= self.entries@.len(),
                self.entries@ == pre,
                forall|j: int| 0 <= j < i ==> (#[trigger] pre[j]).0 < slot,
            decreases self.entries@.len() - i,
        {
            i += 1;
        }
        if i < self.entries.len() && self.entries[i].0 == slot {
            self.entries.remove(i);
            self.entries.insert(i, (slot, record));
            proof {
                assert(self.entries@ =~= pre.update(i as int, (slot, record)));
                assert forall|a: int, b: int|
                    0 <= a < b < self.keys().len() implies self.keys()[a] < self.keys()[b] by {
                    assert(old(self).keys()[a] < old(self).keys()[b]);
                }
                assert(self.entries@[i as int].0 == slot);
            }
        } else {
            proof {
                if self.entries@.len() > i {
                    assert(pre[i as int].0 > slot || pre[i as int].0 == slot);
                    assert(pre[i as int].0 != slot);
                }
                if old(self).contains_slot(slot) {
                    let k = choose|k: int| 0 <= k < pre.len() && (#[trigger] pre[k]).0 == slot;
                    if k < i {
                        assert(pre[k].0 < slot);
                    } else if k > i {
                        assert(old(self).keys()[i as int] < old(self).keys()[k]);
                        assert(pre[i as int].0 < slot);
                    }
                    assert(false);
                }
                assert forall|j: int|
                    i <= j < pre.len() implies (#[trigger] pre[j]).0 > slot by {
                    if j > i {
                        assert(old(self).keys()[i as int] < old(self).keys()[j]);
                    }
                }
            }
            self.entries.insert(i, (slot, record));
            proof {
                assert forall|a: int, b: int|
                    0 <= a < b < self.keys().len() implies self.keys()[a] < self.keys()[b] by {
                    let ii = i as int;
                    let ka = if a < ii {
                        pre[a].0
                    } else if a == ii {
                        slot
                    } else {
                        pre[a - 1].0
                    };
                    assert(self.keys()[a] == ka);
                    let kb = if b < ii {
                        pre[b].0
                    } else if b == ii {
                        slot
                    } else {
                        pre[b - 1].0
                    };
                    assert(self.keys()[b] == kb);
                    if a < ii && b > ii {
                        assert(old(self).keys()[a] == pre[a].0);
                    }
                    if a < ii && b < ii {
                        assert(old(self).keys()[a] < old(self).keys()[b]);
                    }
                    if a > ii && b > ii {
                        assert(old(self).keys()[a - 1] < old(self).keys()[b - 1]);
                    }
                }
                assert(self.entries@[i as int].0 == slot);
            }
        }
    }

    /// The distinct identifiers over all recorded blocks: a string is in the
    /// result exactly when some recorded block references it.
    pub fn distinct_identifiers(&self) -> (r: IdSet)
        requires
            self.wf(),
        ensures
            r.wf(),
            forall|s: Seq<char>|
                #[trigger] r@.contains(s) <==> exists|i: int|
                    0 <= i < self.entries@.len()
                        && (#[trigger] self.entries@[i]).1.identifiers@.contains(s),
    {
        let mut r = IdSet::new();
        let mut i: usize = 0;
        while i < self.entries.len()
            invariant
                i <= self.entries@.len(),
                self.wf(),
                r.wf(),
                forall|s: Seq<char>|
                    #[trigger] r@.contains(s) <==> exists|k: int|
                        0 <= k < i && (#[trigger] self.entries@[k]).1.identifiers@.contains(s),
            decreases self.entries@.len() - i,
        {
            let ghost pre = r@;
            r.insert_all(self.entries[i].1.identifiers.as_vec());
            proof {
                assert forall|s: Seq<char>|
                    #[trigger] r@.contains(s) <==> exists|k: int|
                        0 <= k <= i && (#[trigger] self.entries@[k]).1.identifiers@.contains(
                            s,
                        ) by {
                    if r@.contains(s) {
                        if pre.contains(s) {
                            let k = choose|k: int|
                                0 <= k < i && (#[trigger] self.entries@[k]).1.identifiers@.contains(
                                    s,
                                );
                            assert(0 <= k <= i);
                        } else {
                            assert(self.entries@[i as int].1.identifiers@.contains(s));
                        }
                    }
                    if exists|k: int|
                        0 <= k <= i && (#[trigger] self.entries@[k]).1.identifiers@.contains(s) {
                        let k = choose|k: int|
                            0 <= k <= i && (#[trigger] self.entries@[k]).1.identifiers@.contains(
                                s,
                            );
                        if k < i {
                            assert(pre.contains(s));
                        }
                    }
                }
            }
            i += 1;
        }
        r
    }
}

} // verus!
