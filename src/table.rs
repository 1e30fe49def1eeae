use std::collections::HashMap;
use vstd::prelude::*;
use vstd::std_specs::hash::spec_hash_map_iter;
use vstd::std_specs::iter::IteratorSpec;

verus! {

broadcast use vstd::std_specs::hash::group_hash_axioms;

/// `s` lists exactly the entries of `m`, each address once.
pub open spec fn snapshot_of(s: Seq<(u128, i64)>, m: Map<u128, i64>) -> bool {
    &&& s.len() == m.len()
    &&& forall|i: int| 0 <= i < s.len() ==> #[trigger] m.contains_key(s[i].0) && m[s[i].0] == s[i].1
    &&& forall|a: u128| #[trigger] m.contains_key(a) ==> exists|i: int| 0 <= i < s.len() && s[i] == (a, m[a])
    &&& forall|i: int, j: int| 0 <= i < j < s.len() ==> s[i].0 != s[j].0
}

/// The shared flow table: for each source address (normalised to 128 bits),
/// the time in epoch seconds at which it was last observed.
pub struct FlowTable {
    entries: HashMap<u128, i64>,
}

impl View for FlowTable {
    type V = Map<u128, i64>;

    closed spec fn view(&self) -> Map<u128, i64> {
        self.entries@
    }
}

impl FlowTable {
    /// An empty table.
    pub fn new() -> (r: FlowTable)
        ensures
            r@ == Map::<u128, i64>::empty(),
            r@.dom().finite(),
    {
        FlowTable { entries: HashMap::new() }
    }

    /// Records that `address` was observed at time `now`, overwriting any
    /// earlier time (last write wins).
    pub fn upsert(&mut self, address: u128, now: i64)
        ensures
            final(self)@ == old(self)@.insert(address, now),
            final(self)@.dom().finite(),
    {
        self.entries.insert(address, now);
    }

    /// Deletes the entry of `address` if there is one; an absent address is
    /// left alone.
    pub fn remove(&mut self, address: u128)
        ensures
            final(self)@ == old(self)@.remove(address),
            final(self)@.dom().finite(),
    {
        self.entries.remove(&address);
    }

    /// The last-seen time of `address`, if it is in the table.
    pub fn get(&self, address: u128) -> (r: Option<i64>)
        ensures
            r == (if self@.contains_key(address) { Some(self@[address]) } else { None::<i64> }),
    {
        match self.entries.get(&address) {
            Some(t) => Some(*t),
            None => None,
        }
    }

    /// A point-in-time copy of every entry, one pair per address, in no
    /// particular order.
    pub fn scan_snapshot(&self) -> (r: Vec<(u128, i64)>)
        ensures
            snapshot_of(r@, self@),
    {
        let ghost pairs = spec_hash_map_iter(&self.entries).remaining();
        let mut out: Vec<(u128, i64)> = Vec::new();
        for (a, t) in it: self.entries.iter()
            invariant
                it.seq() == pairs,
                pairs.no_duplicates(),
                out@.len() == it.index(),
                forall|i: int| 0 <= i < it.index() ==> #[trigger] out@[i] == (*pairs[i].0, *pairs[i].1),
        {
            out.push((*a, *t));
        }
        proof {
            let m = self@;
            assert(out@.len() == pairs.len());
            assert forall|i: int| 0 <= i < out@.len() implies #[trigger] m.contains_key(out@[i].0)
                && m[out@[i].0] == out@[i].1 by {
                assert(m.contains_key(*pairs[i].0));
            }
            assert forall|a: u128| #[trigger] m.contains_key(a) implies exists|i: int|
                0 <= i < out@.len() && out@[i] == (a, m[a]) by {
                assert(pairs.contains((&a, &m[a])));
                let i = choose|i: int| 0 <= i < pairs.len() && pairs[i] == (&a, &m[a]);
                assert(out@[i] == (a, m[a]));
            }
            assert forall|i: int, j: int| 0 <= i < j < out@.len() implies out@[i].0 != out@[j].0 by {
                assert(m.contains_key(*pairs[i].0));
                assert(m.contains_key(*pairs[j].0));
                if out@[i].0 == out@[j].0 {
                    assert(pairs[i] == pairs[j]);
                }
            }
        }
        out
    }

    /// A table holds finitely many entries.
    pub proof fn lemma_finite(&self)
        ensures
            self@.dom().finite(),
    {
    }

    /// The number of addresses in the table.
    pub fn len(&self) -> (r: usize)
        ensures
            r == self@.len(),
    {
        self.entries.len()
    }
}

} // verus!
