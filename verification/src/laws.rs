//! General laws of the protocol, stated over the same specification
//! functions the engine's contracts use, and proved once and for all.

use vstd::prelude::*;
use crate::message::BodyModel;
use crate::node::{
    Node, ack_seq, delivered_after_broadcast, delivered_after_gossip, lemma_tick_upto_step,
};

verus! {

/// Idempotence of a broadcast: accepting the same value twice leaves the
/// delivered set exactly where accepting it once left it.
pub proof fn lemma_broadcast_idempotent(d: Set<u64>, v: u64)
    ensures
        delivered_after_broadcast(delivered_after_broadcast(d, v), v) == delivered_after_broadcast(
            d,
            v,
        ),
{
    assert(delivered_after_broadcast(delivered_after_broadcast(d, v), v)
        =~= delivered_after_broadcast(d, v));
}

/// Idempotence of a gossip payload: merging the same set twice leaves the
/// delivered set — and, by the same argument, the knowledge recorded for
/// the sender — exactly where one merge left it.
pub proof fn lemma_gossip_idempotent(d: Set<u64>, vs: Set<u64>)
    ensures
        delivered_after_gossip(delivered_after_gossip(d, vs), vs) == delivered_after_gossip(d, vs),
{
    assert(delivered_after_gossip(delivered_after_gossip(d, vs), vs) =~= delivered_after_gossip(
        d,
        vs,
    ));
}

/// Sequence monotonicity: an acknowledgment stamped from a counter the
/// earlier acknowledgment's step has already passed carries a strictly
/// larger sequence number.
pub proof fn lemma_ack_seq_monotone(c1: u64, c2: u64)
    requires
        ack_seq(c1) <= c2,
    ensures
        ack_seq(c1) < ack_seq(c2),
{
}

/// Every neighbor owed a delta is served: the tick's records carry its
/// gossip record.
proof fn lemma_tick_upto_covers(n: Node, i: int, k: int)
    requires
        0 <= k < i <= n.neighbor_ids().len(),
        n.owes_gossip(n.neighbor_ids()[k]),
    ensures
        n.tick_records_upto(i).contains(n.gossip_record(n.neighbor_ids()[k])),
    decreases i,
{
    let rec = n.gossip_record(n.neighbor_ids()[k]);
    lemma_tick_upto_step(n, i - 1);
    if k == i - 1 {
        let prev = n.tick_records_upto(i - 1);
        assert(n.tick_records_upto(i)[prev.len() as int] == rec);
        assert(n.tick_records_upto(i).contains(rec));
    } else {
        lemma_tick_upto_covers(n, i - 1, k);
        let j = choose|j: int|
            0 <= j < n.tick_records_upto(i - 1).len() && #[trigger] n.tick_records_upto(i - 1)[j]
                == rec;
        assert(n.tick_records_upto(i)[j] == rec);
        assert(n.tick_records_upto(i).contains(rec));
    }
}

/// The pushing half of the convergence step: a delivered value the node
/// does not believe neighbor `p` to hold is in the delta for `p`, and the
/// reconciliation tick emits the gossip record to `p` that carries that
/// delta.
pub proof fn lemma_tick_pushes_unknown(n: Node, p: Seq<char>, v: u64)
    requires
        n.neighbor_ids().contains(p),
        n.delivered().contains(v),
        !n.seen_of(p).contains(v),
    ensures
        n.delta_for(p).contains(v),
        n.gossip_record(p).body == (BodyModel::Gossip { messages: n.delta_for(p) }),
        n.gossip_record(p).dest == p,
        n.tick_records().contains(n.gossip_record(p)),
{
    let ids = n.neighbor_ids();
    let i = choose|i: int| 0 <= i < ids.len() && ids[i] == p;
    assert(n.delivered().difference(n.seen_of(p)).contains(v));
    assert(n.delta_for(p).contains(v));
    assert(n.owes_gossip(p)) by {
        if n.delta_for(p) == Set::<u64>::empty() {
            assert(!n.delta_for(p).contains(v));
        }
    }
    lemma_tick_upto_covers(n, ids.len() as int, i);
}

/// The receiving half of the convergence step: every value in a gossip
/// payload is delivered on receipt.
pub proof fn lemma_gossip_delivers(d: Set<u64>, vs: Set<u64>, v: u64)
    requires
        vs.contains(v),
    ensures
        delivered_after_gossip(d, vs).contains(v),
{
}

} // verus!
