//! A deduplicated set of identifier strings.
//!
//! Workers flatten every transaction's account-reference list into one such
//! set per block, and the final statistics fold all blocks' sets into one.
//! The set is kept as a vector without duplicates; its view is the sequence
//! of the member strings' views, in insertion order.

use vstd::prelude::*;

verus! {

/// A set of identifier strings, without duplicates, in insertion order.
pub struct IdSet {
    pub items: Vec<String>,
}

impl View for IdSet {
    type V = Seq<Seq<char>>;

    open spec fn view(&self) -> Seq<Seq<char>> {
        self.items.deep_view()
    }
}

impl IdSet {
    /// Well-formedness: no identifier occurs twice.
    pub open spec fn wf(self) -> bool {
        self@.no_duplicates()
    }

    /// The empty set.
    pub fn new() -> (r: IdSet)
        ensures
            r.wf(),
            r@ == Seq::<Seq<char>>::empty(),
    {
        let r = IdSet { items: Vec::new() };
        proof {
            assert(r@ =~= Seq::<Seq<char>>::empty());
        }
        r
    }

    /// How many distinct identifiers the set holds.
    pub fn len(&self) -> (n: usize)
        ensures
            n == self@.len(),
    {
        self.items.len()
    }

    /// Membership test.
    pub fn contains(&self, x: &String) -> (r: bool)
        ensures
            r == self@.contains(x@),
    {
        let mut i: usize = 0;
        while i < self.items.len()
            invariant
                i <= self.items@.len(),
                forall|j: int| 0 <= j < i ==> self@[j] != x@,
            decreases self.items@.len() - i,
        {
            proof {
                assert(self@[i as int] == self.items@[i as int]@);
            }
            if self.items[i] == *x {
                proof {
                    assert(self@.contains(x@));
                }
                return true;
            }
            i += 1;
        }
        proof {
            if self@.contains(x@) {
                let j = choose|j: int| 0 <= j < self@.len() && self@[j] == x@;
            }
        }
        false
    }

    /// The member at position `i`, as a fresh string.
    pub fn item_at(&self, i: usize) -> (r: String)
        requires
            i < self@.len(),
        ensures
            r@ == self@[i as int],
    {
        let r = self.items[i].clone();
        proof {
            assert(self@[i as int] == self.items@[i as int]@);
        }
        r
    }

    /// The members, in insertion order.
    pub fn as_vec(&self) -> (r: &Vec<String>)
        ensures
            r.deep_view() == self@,
    {
        &self.items
    }

    /// Add one identifier; a duplicate leaves the set unchanged.
    pub fn insert(&mut self, x: String)
        requires
            old(self).wf(),
        ensures
            final(self).wf(),
            old(self)@.contains(x@) ==> final(self)@ == old(self)@,
            !old(self)@.contains(x@) ==> final(self)@ == old(self)@.push(x@),
            forall|s: Seq<char>|
                #[trigger] final(self)@.contains(s) <==> old(self)@.contains(s) || s == x@,
    {
        let present = self.contains(&x);
        if !present {
            let ghost pre = self@;
            self.items.push(x);
            proof {
                assert(self@ =~= pre.push(x@));
                assert forall|j: int, k: int|
                    0 <= j < self@.len() && 0 <= k < self@.len() && j != k implies self@[j]
                    != self@[k] by {
                    if j < pre.len() && k < pre.len() {
                    } else if j == pre.len() {
                        assert(pre.contains(pre[k])) by {
                            assert(pre[k] == pre[k]);
                        }
                    } else {
                        assert(pre.contains(pre[j]));
                    }
                }
                assert forall|s: Seq<char>| #[trigger]
                    self@.contains(s) <==> pre.contains(s) || s == x@ by {
                    if self@.contains(s) {
                        let j = choose|j: int| 0 <= j < self@.len() && self@[j] == s;
                        if j < pre.len() {
                            assert(pre.contains(s));
                        }
                    }
                    if pre.contains(s) {
                        let j = choose|j: int| 0 <= j < pre.len() && pre[j] == s;
                        assert(self@[j] == s);
                    }
                    if s == x@ {
                        assert(self@[pre.len() as int] == s);
                    }
                }
            }
        }
    }

    /// Add every string of `xs`; afterwards the set holds exactly its old
    /// members and the strings of `xs`.
    pub fn insert_all(&mut self, xs: &Vec<String>)
        requires
            old(self).wf(),
        ensures
            final(self).wf(),
            forall|s: Seq<char>|
                #[trigger] final(self)@.contains(s) <==> old(self)@.contains(s)
                    || xs.deep_view().contains(s),
    {
        let mut i: usize = 0;
        while i < xs.len()
            invariant
                i <= xs@.len(),
                self.wf(),
                forall|s: Seq<char>|
                    #[trigger] self@.contains(s) <==> old(self)@.contains(s)
                        || xs.deep_view().take(i as int).contains(s),
            decreases xs@.len() - i,
        {
            let ghost pre = self@;
            let x = xs[i].clone();
            proof {
                assert(x@ == xs.deep_view()[i as int]);
            }
            self.insert(x);
            proof {
                let dv = xs.deep_view();
                assert forall|s: Seq<char>|
                    #[trigger] self@.contains(s) <==> old(self)@.contains(s) || dv.take(
                        i as int + 1,
                    ).contains(s) by {
                    if self@.contains(s) {
                        if s == dv[i as int] {
                            assert(dv.take(i as int + 1)[i as int] == s);
                        } else {
                            if pre.contains(s) && !old(self)@.contains(s) {
                                let j = choose|j: int|
                                    0 <= j < i && dv.take(i as int)[j] == s;
                                assert(dv.take(i as int + 1)[j] == s);
                            }
                        }
                    }
                    if dv.take(i as int + 1).contains(s) {
                        let j = choose|j: int|
                            0 <= j <= i && #[trigger] dv.take(i as int + 1)[j] == s;
                        if j < i {
                            assert(dv.take(i as int)[j] == s);
                            assert(dv.take(i as int).contains(s));
                        } else {
                            assert(s == x@);
                        }
                    }
                }
            }
            i += 1;
        }
        proof {
            assert(xs.deep_view().take(xs@.len() as int) =~= xs.deep_view());
        }
    }
}

} // verus!
