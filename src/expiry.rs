use crate::table::{snapshot_of, FlowTable};
use vstd::prelude::*;

verus! {

/// A request from the expiry side to evict `address`, carrying the last-seen
/// time that the scan observed for it.
#[derive(Clone, Copy, PartialEq, Eq, Structural, Debug)]
pub struct RemovalRequest {
    pub address: u128,
    pub observed: i64,
}

/// An entry last seen at `last_seen` is stale at `now` when more than
/// `threshold` seconds have passed since.
pub open spec fn is_stale(last_seen: i64, now: i64, threshold: u64) -> bool {
    now - last_seen > threshold
}

/// `reqs` names, once each, exactly the entries of the snapshot `s` that are
/// stale, each with the time the snapshot gave for it.
pub open spec fn alerts_from(reqs: Seq<RemovalRequest>, s: Seq<(u128, i64)>, now: i64, threshold: u64) -> bool {
    &&& forall|i: int| 0 <= i < reqs.len() ==> s.contains((#[trigger] reqs[i].address, reqs[i].observed))
        && is_stale(reqs[i].observed, now, threshold)
    &&& forall|j: int| 0 <= j < s.len() && is_stale(#[trigger] s[j].1, now, threshold) ==>
        exists|i: int| 0 <= i < reqs.len() && reqs[i].address == s[j].0
    &&& forall|i: int, k: int| 0 <= i < k < reqs.len() ==> reqs[i].address != reqs[k].address
}

/// `reqs` names, once each, exactly the addresses of `m` that are stale, each
/// with its last-seen time in `m`.
pub open spec fn alerts_for(reqs: Seq<RemovalRequest>, m: Map<u128, i64>, now: i64, threshold: u64) -> bool {
    &&& forall|i: int| 0 <= i < reqs.len() ==> #[trigger] m.contains_key(reqs[i].address)
        && m[reqs[i].address] == reqs[i].observed
        && is_stale(reqs[i].observed, now, threshold)
    &&& forall|a: u128| #[trigger] m.contains_key(a) && is_stale(m[a], now, threshold) ==>
        exists|i: int| 0 <= i < reqs.len() && reqs[i].address == a
    &&& forall|i: int, k: int| 0 <= i < k < reqs.len() ==> reqs[i].address != reqs[k].address
}

/// Whether `last_seen` is stale at `now` under `threshold`.
pub fn stale(last_seen: i64, now: i64, threshold: u64) -> (r: bool)
    ensures
        r == is_stale(last_seen, now, threshold),
{
    (now as i128) - (last_seen as i128) > threshold as i128
}

fn already_requested(reqs: &Vec<RemovalRequest>, address: u128) -> (r: bool)
    ensures
        r == exists|i: int| 0 <= i < reqs@.len() && reqs@[i].address == address,
{
    let mut k: usize = 0;
    while k < reqs.len()
        invariant
            k <= reqs@.len(),
            forall|i: int| 0 <= i < k ==> reqs@[i].address != address,
        decreases reqs@.len() - k,
    {
        if reqs[k].address == address {
            return true;
        }
        k = k + 1;
    }
    false
}

/// The removal requests of one expiry cycle over a snapshot: one for each
/// stale address, in the order of the snapshot, an address that occurs
/// again being passed over.
pub fn stale_requests(snapshot: &Vec<(u128, i64)>, now: i64, threshold: u64) -> (r: Vec<RemovalRequest>)
    ensures
        alerts_from(r@, snapshot@, now, threshold),
{
    let mut out: Vec<RemovalRequest> = Vec::new();
    let ghost mut origin: Seq<int> = Seq::empty();
    for j in 0..snapshot.len()
        invariant
            origin.len() == out@.len(),
            forall|i: int| 0 <= i < out@.len() ==> 0 <= #[trigger] origin[i] < snapshot@.len()
                && snapshot@[origin[i]].0 == out@[i].address && snapshot@[origin[i]].1 == out@[i].observed
                && is_stale(out@[i].observed, now, threshold),
            forall|l: int| 0 <= l < j && is_stale(#[trigger] snapshot@[l].1, now, threshold) ==>
                exists|i: int| 0 <= i < out@.len() && out@[i].address == snapshot@[l].0,
            forall|i: int, k: int| 0 <= i < k < out@.len() ==> out@[i].address != out@[k].address,
    {
        let (address, last_seen) = snapshot[j];
        let ghost prev = out@;
        if stale(last_seen, now, threshold) && !already_requested(&out, address) {
            out.push(RemovalRequest { address, observed: last_seen });
            proof {
                origin = origin.push(j as int);
            }
            assert forall|i: int| 0 <= i < prev.len() implies #[trigger] out@[i] == prev[i] by {}
        }
        proof {
            assert forall|l: int| 0 <= l <= j && is_stale(#[trigger] snapshot@[l].1, now, threshold) implies
                exists|i: int| 0 <= i < out@.len() && out@[i].address == snapshot@[l].0 by {
                if l < j {
                    let i = choose|i: int| 0 <= i < prev.len() && prev[i].address == snapshot@[l].0;
                    assert(out@[i] == prev[i]);
                } else if out@.len() > prev.len() {
                    assert(out@[prev.len() as int].address == snapshot@[l].0);
                }
            }
        }
    }
    assert forall|i: int| 0 <= i < out@.len() implies snapshot@.contains((#[trigger] out@[i].address, out@[i].observed))
        && is_stale(out@[i].observed, now, threshold) by {
        assert(snapshot@[origin[i]] == (out@[i].address, out@[i].observed));
    }
    out
}

impl FlowTable {
    /// The decision of one expiry cycle: a snapshot of the table is taken,
    /// and every address that is stale at `now` is to be alerted on and
    /// evicted, each once.
    pub fn expiry_cycle(&self, now: i64, threshold: u64) -> (r: Vec<RemovalRequest>)
        ensures
            alerts_for(r@, self@, now, threshold),
    {
        let snapshot = self.scan_snapshot();
        let r = stale_requests(&snapshot, now, threshold);
        proof {
            let m = self@;
            let s = snapshot@;
            assert forall|a: u128| #[trigger] m.contains_key(a) && is_stale(m[a], now, threshold) implies
                exists|i: int| 0 <= i < r@.len() && r@[i].address == a by {
                let j = choose|j: int| 0 <= j < s.len() && s[j] == (a, m[a]);
                assert(is_stale(s[j].1, now, threshold));
            }
            assert forall|i: int| 0 <= i < r@.len() implies #[trigger] m.contains_key(r@[i].address)
                && m[r@[i].address] == r@[i].observed
                && is_stale(r@[i].observed, now, threshold) by {
                let j = choose|j: int| 0 <= j < s.len() && s[j] == (r@[i].address, r@[i].observed);
                assert(m.contains_key(s[j].0));
                assert(m[s[j].0] == s[j].1);
            }
        }
        r
    }
}

} // verus!
