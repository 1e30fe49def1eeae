use crate::expiry::RemovalRequest;
use crate::frame::{frame_source, frame_source_spec};
use crate::table::FlowTable;
use vstd::prelude::*;

verus! {

/// The table after a frame whose normalised source is `source` was seen at
/// `now`; a frame without one leaves it as it was.
pub open spec fn after_frame(m: Map<u128, i64>, source: Option<u128>, now: i64) -> Map<u128, i64> {
    match source {
        Some(a) => m.insert(a, now),
        None => m,
    }
}

/// The table after one removal request: the entry goes only if it is still
/// the one the scan saw, that is, it has not been refreshed to a later time
/// since. A refresh that lands after the scan wins over the eviction.
pub open spec fn after_removal(m: Map<u128, i64>, req: RemovalRequest) -> Map<u128, i64> {
    if m.contains_key(req.address) && m[req.address] <= req.observed {
        m.remove(req.address)
    } else {
        m
    }
}

/// The table after applying `reqs` in order, first to last.
pub open spec fn after_removals(m: Map<u128, i64>, reqs: Seq<RemovalRequest>) -> Map<u128, i64>
    decreases reqs.len(),
{
    if reqs.len() == 0 {
        m
    } else {
        after_removal(after_removals(m, reqs.drop_last()), reqs.last())
    }
}

impl FlowTable {
    /// Applies one removal request from the expiry side (see `after_removal`).
    pub fn apply_removal(&mut self, req: RemovalRequest)
        ensures
            final(self)@ == after_removal(old(self)@, req),
            final(self)@.dom().finite(),
    {
        proof {
            self.lemma_finite();
        }
        match self.get(req.address) {
            Some(t) => {
                if t <= req.observed {
                    self.remove(req.address);
                }
            },
            None => {},
        }
    }

    /// Applies every pending removal request, in the order they were sent.
    pub fn drain_removals(&mut self, reqs: &Vec<RemovalRequest>)
        ensures
            final(self)@ == after_removals(old(self)@, reqs@),
            final(self)@.dom().finite(),
    {
        let ghost start = self@;
        proof {
            self.lemma_finite();
        }
        for k in 0..reqs.len()
            invariant
                self@ == after_removals(start, reqs@.take(k as int)),
                self@.dom().finite(),
        {
            self.apply_removal(reqs[k]);
            assert(reqs@.take(k + 1).drop_last() == reqs@.take(k as int));
        }
        assert(reqs@.take(reqs@.len() as int) == reqs@);
    }

    /// Takes in one captured frame seen at `now`: its source address, if it
    /// has one, is refreshed to `now`. Returns that address.
    pub fn ingest_frame(&mut self, frame: &[u8], now: i64) -> (r: Option<u128>)
        ensures
            r == frame_source_spec(frame@),
            final(self)@ == after_frame(old(self)@, r, now),
            final(self)@.dom().finite(),
    {
        proof {
            self.lemma_finite();
        }
        let source = frame_source(frame);
        match source {
            Some(a) => self.upsert(a, now),
            None => {},
        }
        source
    }
}

} // verus!
