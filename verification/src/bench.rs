//! Membership-counting passes for the lookup benchmark that runs against a
//! downloaded aggregate.
//!
//! The benchmark harness (outside the library) fills a set with generated
//! identifiers, then repeatedly sweeps every recorded block and counts how
//! many of its identifiers are members. The timing, the random generator and
//! the parallel dispatch stay outside; the counting itself is here.

use vstd::prelude::*;
use crate::aggregate::{Aggregate, BlockRecord};
use crate::idset::IdSet;

verus! {

/// How many of `keys`, counted with multiplicity, are members of `set`.
pub open spec fn spec_hits(keys: Seq<Seq<char>>, set: Seq<Seq<char>>) -> nat
    decreases keys.len(),
{
    if keys.len() == 0 {
        0
    } else {
        spec_hits(keys.drop_last(), set) + if set.contains(keys.last()) {
            1nat
        } else {
            0
        }
    }
}

/// Total number of identifiers over all recorded blocks, with multiplicity
/// across blocks.
pub open spec fn spec_total_ops(entries: Seq<(u64, BlockRecord)>) -> nat
    decreases entries.len(),
{
    if entries.len() == 0 {
        0
    } else {
        spec_total_ops(entries.drop_last()) + entries.last().1.identifiers@.len()
    }
}

/// Total number of membership hits over all recorded blocks.
pub open spec fn spec_total_hits(entries: Seq<(u64, BlockRecord)>, set: Seq<Seq<char>>) -> nat
    decreases entries.len(),
{
    if entries.len() == 0 {
        0
    } else {
        spec_total_hits(entries.drop_last(), set) + spec_hits(
            entries.last().1.identifiers@,
            set,
        )
    }
}

/// There are never more hits than lookups.
pub proof fn lemma_hits_le_len(keys: Seq<Seq<char>>, set: Seq<Seq<char>>)
    ensures
        spec_hits(keys, set) <= keys.len(),
    decreases keys.len(),
{
    if keys.len() > 0 {
        lemma_hits_le_len(keys.drop_last(), set);
    }
}

/// A prefix of the entries never counts more lookups than the whole.
proof fn lemma_total_ops_take_le(entries: Seq<(u64, BlockRecord)>, i: int)
    requires
        0 <= i <= entries.len(),
    ensures
        spec_total_ops(entries.take(i)) <= spec_total_ops(entries),
    decreases entries.len() - i,
{
    if i == entries.len() {
        assert(entries.take(i) =~= entries);
    } else {
        lemma_total_ops_take_le(entries, i + 1);
        assert(entries.take(i + 1).drop_last() =~= entries.take(i));
    }
}

/// Count how many of the strings in `keys` are members of `set`.
pub fn count_contained(set: &IdSet, keys: &Vec<String>) -> (n: usize)
    ensures
        n == spec_hits(keys.deep_view(), set@),
        n <= keys@.len(),
{
    let mut n: usize = 0;
    let mut i: usize = 0;
    while i < keys.len()
        invariant
            i <= keys@.len(),
            n <= i,
            n == spec_hits(keys.deep_view().take(i as int), set@),
        decreases keys@.len() - i,
    {
        proof {
            let dv = keys.deep_view();
            assert(dv.take(i as int + 1).drop_last() =~= dv.take(i as int));
            assert(dv.take(i as int + 1).last() == dv[i as int]);
            assert(keys@[i as int]@ == dv[i as int]);
        }
        if set.contains(&keys[i]) {
            n += 1;
        }
        i += 1;
    }
    proof {
        assert(keys.deep_view().take(keys@.len() as int) =~= keys.deep_view());
    }
    n
}

/// One full sweep of the benchmark: for every recorded block, look up each of
/// its identifiers in `set`. Returns the number of lookups made and the
/// number that hit.
pub fn membership_pass(blocks: &Aggregate, set: &IdSet) -> (r: (u64, u64))
    requires
        blocks.wf(),
        spec_total_ops(blocks.entries@) <= u64::MAX,
    ensures
        r.0 == spec_total_ops(blocks.entries@),
        r.1 == spec_total_hits(blocks.entries@, set@),
        r.1 <= r.0,
{
    let mut ops: u64 = 0;
    let mut hits: u64 = 0;
    let mut i: usize = 0;
    let n = blocks.entries().len();
    while i < n
        invariant
            n == blocks.entries@.len(),
            i <= n,
            blocks.wf(),
            spec_total_ops(blocks.entries@) <= u64::MAX,
            ops == spec_total_ops(blocks.entries@.take(i as int)),
            hits == spec_total_hits(blocks.entries@.take(i as int), set@),
            hits <= ops,
        decreases n - i,
    {
        let entries = blocks.entries();
        let keys = entries[i].1.identifiers.as_vec();
        proof {
            let es = blocks.entries@;
            assert(es.take(i as int + 1).drop_last() =~= es.take(i as int));
            assert(es.take(i as int + 1).last() == es[i as int]);
            lemma_total_ops_take_le(es, i as int + 1);
            lemma_hits_le_len(keys.deep_view(), set@);
            assert(keys.deep_view() == es[i as int].1.identifiers@);
        }
        let c = count_contained(set, keys);
        let k = keys.len();
        ops = ops + (k as u64);
        hits = hits + (c as u64);
        i += 1;
    }
    proof {
        assert(blocks.entries@.take(n as int) =~= blocks.entries@);
    }
    (ops, hits)
}

/// The coin that decides where the benchmark's next probe comes from: heads
/// (upper half of the draw space) means a freshly generated identifier,
/// tails means one picked from the recorded blocks.
pub fn pick_fresh_source(coin: u32) -> (fresh: bool)
    ensures
        fresh == (coin > u32::MAX / 2),
{
    coin > u32::MAX / 2
}

/// Pick a recorded identifier from the aggregate using two draws: one selects
/// the block, the other the identifier within it. When the selected block
/// recorded no identifiers, nothing is picked and the caller draws again.
pub fn pick_recorded(blocks: &Aggregate, block_draw: u32, key_draw: u32) -> (r: Option<String>)
    requires
        blocks.wf(),
        blocks.entries@.len() > 0,
    ensures
        ({
            let ids = blocks.entries@[block_draw as int % blocks.entries@.len() as int].1.identifiers;
            &&& ids@.len() == 0 ==> r is None
            &&& ids@.len() > 0 ==> (r matches Some(s) && s@ == ids@[key_draw as int
                % ids@.len() as int])
        }),
{
    let entries = blocks.entries();
    let idx = (block_draw as usize) % entries.len();
    let ids = &entries[idx].1.identifiers;
    let k = ids.len();
    if k == 0 {
        Option::None
    } else {
        Option::Some(ids.item_at((key_draw as usize) % k))
    }
}

} // verus!
