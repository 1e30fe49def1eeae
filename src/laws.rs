//! Properties of the flow table and the expiry rules, stated over the models
//! that the operations' contracts use.
use crate::expiry::{alerts_for, is_stale, RemovalRequest};
use crate::ingest::{after_frame, after_removal};
use vstd::prelude::*;

verus! {

/// The table after upserting `a` at each time of `ts`, first to last.
pub open spec fn after_upserts(m: Map<u128, i64>, a: u128, ts: Seq<i64>) -> Map<u128, i64>
    decreases ts.len(),
{
    if ts.len() == 0 {
        m
    } else {
        after_upserts(m, a, ts.drop_last()).insert(a, ts.last())
    }
}

/// The table after taking in, first to last, frames whose sources and times
/// are the pairs of `es`: each step is the one `ingest_frame` ensures.
pub open spec fn after_frames(m: Map<u128, i64>, es: Seq<(u128, i64)>) -> Map<u128, i64>
    decreases es.len(),
{
    if es.len() == 0 {
        m
    } else {
        after_frame(after_frames(m, es.drop_last()), Some(es.last().0), es.last().1)
    }
}

/// Last write wins: after upserts of one address at strictly increasing
/// times, the table holds that address with the latest time, and every other
/// entry as it was.
pub proof fn lemma_last_write_wins(m: Map<u128, i64>, a: u128, ts: Seq<i64>)
    requires
        ts.len() > 0,
        forall|i: int, j: int| 0 <= i < j < ts.len() ==> ts[i] < ts[j],
    ensures
        after_upserts(m, a, ts).contains_key(a),
        after_upserts(m, a, ts)[a] == ts.last(),
        after_upserts(m, a, ts).remove(a) == m.remove(a),
    decreases ts.len(),
{
    let prev = after_upserts(m, a, ts.drop_last());
    if ts.len() > 1 {
        lemma_last_write_wins(m, a, ts.drop_last());
    } else {
        assert(prev == m);
    }
    assert(prev.insert(a, ts.last()).remove(a) =~= prev.remove(a));
    assert(prev.remove(a) =~= m.remove(a));
}

/// Removing an address that is not in the table changes nothing, its size
/// included.
pub proof fn lemma_remove_absent(m: Map<u128, i64>, a: u128)
    requires
        !m.contains_key(a),
    ensures
        m.remove(a) == m,
        m.remove(a).len() == m.len(),
{
    assert(m.remove(a) =~= m);
}

/// Removing an address twice leaves the table as removing it once; so does
/// applying the same removal request twice.
pub proof fn lemma_removal_idempotent(m: Map<u128, i64>, req: RemovalRequest)
    ensures
        m.remove(req.address).remove(req.address) == m.remove(req.address),
        after_removal(after_removal(m, req), req) == after_removal(m, req),
{
    assert(m.remove(req.address).remove(req.address) =~= m.remove(req.address));
}

/// An address that was just upserted at `t` is not stale at `t` under any
/// threshold, so a cycle at `t` raises no alert for it.
pub proof fn lemma_fresh_entry_not_alerted(
    m: Map<u128, i64>,
    a: u128,
    t: i64,
    threshold: u64,
    reqs: Seq<RemovalRequest>,
)
    requires
        alerts_for(reqs, m.insert(a, t), t, threshold),
    ensures
        !is_stale(m.insert(a, t)[a], t, threshold),
        forall|i: int| 0 <= i < reqs.len() ==> #[trigger] reqs[i].address != a,
{
    assert forall|i: int| 0 <= i < reqs.len() implies #[trigger] reqs[i].address != a by {
        assert(m.insert(a, t).contains_key(reqs[i].address));
    }
}

/// Taking in a frame keeps one entry per address: the table grows by one
/// exactly when the frame's source was not in it yet.
pub proof fn lemma_frame_size(m: Map<u128, i64>, source: Option<u128>, now: i64)
    requires
        m.dom().finite(),
    ensures
        after_frame(m, source, now).dom().finite(),
        after_frame(m, source, now).len() == m.len() + match source {
            Some(a) => if m.contains_key(a) { 0int } else { 1int },
            None => 0int,
        },
{
    match source {
        Some(a) => {
            if m.contains_key(a) {
                assert(m.insert(a, now).dom() =~= m.dom());
            } else {
                assert(m.insert(a, now).dom() =~= m.dom().insert(a));
            }
        },
        None => {},
    }
}

/// Frames from `n` distinct source addresses taken into an empty table leave
/// exactly `n` entries, one for each address: none is lost and none is
/// doubled. Scans in between read the table only and change nothing.
pub proof fn lemma_distinct_upserts_count(es: Seq<(u128, i64)>)
    requires
        forall|i: int, j: int| 0 <= i < j < es.len() ==> es[i].0 != es[j].0,
    ensures
        after_frames(Map::empty(), es).len() == es.len(),
        forall|i: int| 0 <= i < es.len() ==> after_frames(Map::empty(), es).contains_key(#[trigger] es[i].0),
    decreases es.len(),
{
    if es.len() > 0 {
        let init = es.drop_last();
        lemma_distinct_upserts_count(init);
        let prev = after_frames(Map::empty(), init);
        assert(!prev.contains_key(es.last().0)) by {
            lemma_keys_of_upserts(init);
            if prev.contains_key(es.last().0) {
                let k = choose|k: int| 0 <= k < init.len() && init[k].0 == es.last().0;
                assert(es[k].0 == es[es.len() - 1].0);
            }
        }
        lemma_keys_of_upserts(init);
        assert forall|i: int| 0 <= i < es.len() implies after_frames(Map::empty(), es).contains_key(#[trigger] es[i].0) by {
            if i < es.len() - 1 {
                assert(init[i] == es[i]);
            }
        }
    }
}

proof fn lemma_keys_of_upserts(es: Seq<(u128, i64)>)
    ensures
        forall|a: u128| #[trigger] after_frames(Map::empty(), es).contains_key(a) ==>
            exists|k: int| 0 <= k < es.len() && es[k].0 == a,
        after_frames(Map::empty(), es).dom().finite(),
    decreases es.len(),
{
    if es.len() > 0 {
        lemma_keys_of_upserts(es.drop_last());
        assert forall|a: u128| #[trigger] after_frames(Map::empty(), es).contains_key(a) implies
            exists|k: int| 0 <= k < es.len() && es[k].0 == a by {
            if a != es.last().0 {
                let k = choose|k: int| 0 <= k < es.drop_last().len() && es.drop_last()[k].0 == a;
                assert(es[k].0 == a);
            } else {
                assert(es[es.len() - 1].0 == a);
            }
        }
    }
}

} // verus!
