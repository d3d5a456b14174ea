//! The protocol engine: the node's state, the per-event state machine, and
//! the anti-entropy reconciliation step.

use vstd::prelude::*;
use crate::message::{
    BodyModel, Message, RecordModel, Request, Response, TopologyEntry, body_model, models_from,
    payload_no_dups, record_model,
};

verus! {

/// Where the node stands in its lifecycle.
#[derive(Debug, Clone, Copy, PartialEq, Eq, Structural)]
pub enum Phase {
    Uninitialized,
    Running,
    Stopped,
}

/// A condition the protocol cannot recover from; the surrounding process
/// terminates when one is reported.
#[derive(Debug, Clone, Copy, PartialEq, Eq, Structural)]
pub enum FatalError {
    /// A topology update did not assign this node a neighbor list.
    SelfAbsentFromTopology,
    /// An event arrived in a lifecycle phase where its meaning is undefined.
    UnexpectedEvent,
}

/// What this node believes one peer already holds.
#[derive(Debug)]
pub struct NeighborRecord {
    pub id: String,
    pub seen: Vec<u64>,
}

/// The node's entire mutable state, owned by the protocol engine alone.
#[derive(Debug)]
pub struct Node {
    /// Counter stamped on outbound acknowledgments; strictly increasing.
    pub next_msg_id: u64,
    /// This node's own identifier, assigned at initialization.
    pub node_id: String,
    /// Lifecycle phase.
    pub phase: Phase,
    /// Broadcast values accepted so far, in order of first arrival, without
    /// duplicates.
    pub messages: Vec<u64>,
    /// Peers this node gossips to, without duplicates.
    pub neighbors: Vec<String>,
    /// For each peer, the values this node believes it already holds.
    pub neighbors_seen: Vec<NeighborRecord>,
}

/// The identifiers of a list of strings, as character sequences.
pub open spec fn ids_of(s: Seq<String>) -> Seq<Seq<char>> {
    Seq::new(s.len(), |i: int| s[i]@)
}

/// Whether some string in `s` reads `p`.
pub open spec fn id_in(s: Seq<String>, p: Seq<char>) -> bool {
    exists|i: int| 0 <= i < s.len() && s[i]@ == p
}

/// The identifiers in `ids`, as a set.
pub open spec fn id_view_set(ids: Seq<String>) -> Set<Seq<char>> {
    Set::new(|p: Seq<char>| id_in(ids, p))
}

/// The keys of a knowledge table.
pub open spec fn seen_ids(s: Seq<NeighborRecord>) -> Seq<Seq<char>> {
    Seq::new(s.len(), |i: int| s[i].id@)
}

/// What a knowledge table records for peer `p`: the first entry keyed by
/// `p`, or the empty set when there is none.
pub open spec fn lookup_seen(s: Seq<NeighborRecord>, p: Seq<char>) -> Set<u64>
    decreases s.len(),
{
    if s.len() == 0 {
        Set::empty()
    } else if s[0].id@ == p {
        s[0].seen@.to_set()
    } else {
        lookup_seen(s.drop_first(), p)
    }
}

/// Values in exactly one of `a` and `b`.
pub open spec fn sym_diff(a: Set<u64>, b: Set<u64>) -> Set<u64> {
    a.difference(b).union(b.difference(a))
}

impl Node {
    /// The set of values this node has delivered.
    pub open spec fn delivered(&self) -> Set<u64> {
        self.messages@.to_set()
    }

    /// Neighbor identifiers, in gossip order.
    pub open spec fn neighbor_ids(&self) -> Seq<Seq<char>> {
        ids_of(self.neighbors@)
    }

    /// What this node believes peer `p` already holds; empty when the peer
    /// is unknown.
    pub open spec fn seen_of(&self, p: Seq<char>) -> Set<u64> {
        lookup_seen(self.neighbors_seen@, p)
    }

    /// The delta a reconciliation tick would push to peer `p`: the values in
    /// exactly one of the delivered set and the belief about `p`. Deliberately
    /// the symmetric difference, not the plain difference: a value the belief
    /// holds but the delivered set does not is pushed back to `p` as well.
    /// The choice is isolated here, in the one spec function the tick's
    /// contract goes through.
    pub open spec fn delta_for(&self, p: Seq<char>) -> Set<u64> {
        sym_diff(self.delivered(), self.seen_of(p))
    }

    /// Whether a reconciliation tick owes peer `p` a gossip record: the
    /// delta for `p` is non-empty.
    pub open spec fn owes_gossip(&self, p: Seq<char>) -> bool {
        self.delta_for(p) != Set::<u64>::empty()
    }

    /// The peers one reconciliation tick pushes to, in gossip order.
    pub open spec fn tick_targets(&self) -> Seq<Seq<char>> {
        self.tick_targets_upto(self.neighbor_ids().len() as int)
    }

    /// The record a reconciliation tick addresses to peer `p`: a gossip
    /// record from this node carrying the delta for `p`.
    pub open spec fn gossip_record(&self, p: Seq<char>) -> RecordModel {
        RecordModel {
            src: self.node_id@,
            dest: p,
            body: BodyModel::Gossip { messages: self.delta_for(p) },
        }
    }

    /// All records one reconciliation tick emits: one per owed peer.
    pub open spec fn tick_records(&self) -> Seq<RecordModel> {
        self.tick_records_upto(self.neighbor_ids().len() as int)
    }

    /// The tick's targets among the first `i` neighbors.
    pub open spec fn tick_targets_upto(&self, i: int) -> Seq<Seq<char>> {
        self.neighbor_ids().take(i).filter(|p: Seq<char>| self.owes_gossip(p))
    }

    /// The tick's records for the first `i` neighbors.
    pub open spec fn tick_records_upto(&self, i: int) -> Seq<RecordModel> {
        self.tick_targets_upto(i).map_values(|p: Seq<char>| self.gossip_record(p))
    }

    /// Well-formedness: no collection holds an element twice, and the
    /// knowledge table is keyed at most once per peer.
    pub open spec fn wf(&self) -> bool {
        &&& self.messages@.no_duplicates()
        &&& self.neighbor_ids().no_duplicates()
        &&& seen_ids(self.neighbors_seen@).no_duplicates()
        &&& forall|i: int|
            0 <= i < self.neighbors_seen@.len() ==> (#[trigger] self.neighbors_seen@[i]).seen@.no_duplicates()
    }

    /// A fresh node: uninitialized, empty, counter at zero.
    pub fn new() -> (n: Node)
        ensures
            n.wf(),
            n.phase == Phase::Uninitialized,
            n.next_msg_id == 0,
            n.node_id@ == Seq::<char>::empty(),
            n.delivered() == Set::<u64>::empty(),
            n.neighbor_ids() == Seq::<Seq<char>>::empty(),
            n.neighbors_seen@ == Seq::<NeighborRecord>::empty(),
    {
        let n = Node {
            next_msg_id: 0,
            node_id: String::new(),
            phase: Phase::Uninitialized,
            messages: Vec::new(),
            neighbors: Vec::new(),
            neighbors_seen: Vec::new(),
        };
        proof {
            assert(n.delivered() =~= Set::<u64>::empty());
            assert(n.neighbor_ids() =~= Seq::<Seq<char>>::empty());
        }
        n
    }

    /// Draws the next sequence number: increments the counter and stamps the
    /// new value.
    pub fn gen_msg_id(&mut self) -> (r: u64)
        requires
            old(self).next_msg_id < u64::MAX,
        ensures
            final(self).next_msg_id == old(self).next_msg_id + 1,
            r == final(self).next_msg_id,
            final(self).node_id == old(self).node_id,
            final(self).phase == old(self).phase,
            final(self).messages == old(self).messages,
            final(self).neighbors == old(self).neighbors,
            final(self).neighbors_seen == old(self).neighbors_seen,
    {
        self.next_msg_id += 1;
        self.next_msg_id
    }
}

/// With unique keys, the table's answer for the key at index `i` is that
/// entry's set.
proof fn lemma_lookup_at_index(s: Seq<NeighborRecord>, i: int)
    requires
        seen_ids(s).no_duplicates(),
        0 <= i < s.len(),
    ensures
        lookup_seen(s, s[i].id@) == s[i].seen@.to_set(),
    decreases s.len(),
{
    if i > 0 {
        assert(seen_ids(s)[0] == s[0].id@);
        assert(seen_ids(s)[i] == s[i].id@);
        assert(s[0].id@ != s[i].id@);
        let t = s.drop_first();
        assert(seen_ids(t) =~= seen_ids(s).drop_first());
        assert(t[i - 1] == s[i]);
        lemma_lookup_at_index(t, i - 1);
    }
}

/// A key no entry carries looks up to the empty set.
proof fn lemma_lookup_absent(s: Seq<NeighborRecord>, p: Seq<char>)
    requires
        forall|i: int| 0 <= i < s.len() ==> (#[trigger] s[i]).id@ != p,
    ensures
        lookup_seen(s, p) == Set::<u64>::empty(),
    decreases s.len(),
{
    if s.len() > 0 {
        lemma_lookup_absent(s.drop_first(), p);
    }
}

/// Replacing the entry at index `i` by one with the same key changes the
/// answer for that key alone.
proof fn lemma_lookup_update(s: Seq<NeighborRecord>, i: int, r: NeighborRecord, p: Seq<char>)
    requires
        seen_ids(s).no_duplicates(),
        0 <= i < s.len(),
        r.id@ == s[i].id@,
    ensures
        lookup_seen(s.update(i, r), p) == (if p == s[i].id@ {
            r.seen@.to_set()
        } else {
            lookup_seen(s, p)
        }),
    decreases s.len(),
{
    let u = s.update(i, r);
    if i == 0 {
        if p != s[0].id@ {
            assert(u.drop_first() =~= s.drop_first());
        }
    } else {
        assert(seen_ids(s)[0] == s[0].id@);
        assert(seen_ids(s)[i] == s[i].id@);
        assert(s[0].id@ != s[i].id@);
        assert(u[0] == s[0]);
        let t = s.drop_first();
        assert(seen_ids(t) =~= seen_ids(s).drop_first());
        assert(u.drop_first() =~= t.update(i - 1, r));
        assert(t[i - 1] == s[i]);
        lemma_lookup_update(t, i - 1, r, p);
    }
}

/// Appending an entry with a fresh key changes the answer for that key
/// alone.
proof fn lemma_lookup_push(s: Seq<NeighborRecord>, r: NeighborRecord, p: Seq<char>)
    requires
        forall|i: int| 0 <= i < s.len() ==> (#[trigger] s[i]).id@ != r.id@,
    ensures
        lookup_seen(s.push(r), p) == (if p == r.id@ {
            r.seen@.to_set()
        } else {
            lookup_seen(s, p)
        }),
    decreases s.len(),
{
    let u = s.push(r);
    if s.len() == 0 {
        if p != r.id@ {
            assert(u.drop_first() =~= Seq::<NeighborRecord>::empty());
            lemma_lookup_absent(u.drop_first(), p);
        }
    } else {
        assert(u[0] == s[0]);
        assert(u.drop_first() =~= s.drop_first().push(r));
        lemma_lookup_push(s.drop_first(), r, p);
    }
}

/// Whether `v` holds `x`.
fn contains_u64(v: &Vec<u64>, x: u64) -> (b: bool)
    ensures
        b == v@.contains(x),
{
    let mut i: usize = 0;
    while i < v.len()
        invariant
            i <= v.len(),
            forall|j: int| 0 <= j < i ==> v@[j] != x,
        decreases v.len() - i,
    {
        if v[i] == x {
            return true;
        }
        i += 1;
    }
    false
}

/// A fresh vector with the same integers in the same order.
fn copy_u64s(v: &Vec<u64>) -> (r: Vec<u64>)
    ensures
        r@ == v@,
{
    let mut r: Vec<u64> = Vec::new();
    let mut i: usize = 0;
    while i < v.len()
        invariant
            i <= v.len(),
            r@ == v@.take(i as int),
        decreases v.len() - i,
    {
        r.push(v[i]);
        proof {
            assert(v@.take(i + 1 as int) =~= v@.take(i as int).push(v@[i as int]));
        }
        i += 1;
    }
    proof {
        assert(v@.take(v@.len() as int) =~= v@);
    }
    r
}

/// Whether some string in `v` reads as `x` does.
fn contains_id(v: &Vec<String>, x: &String) -> (b: bool)
    ensures
        b == id_in(v@, x@),
{
    let mut i: usize = 0;
    while i < v.len()
        invariant
            i <= v.len(),
            forall|j: int| 0 <= j < i ==> (#[trigger] v@[j])@ != x@,
        decreases v.len() - i,
    {
        if v[i] == *x {
            assert(id_in(v@, x@));
            return true;
        }
        i += 1;
    }
    false
}

/// Appends `x` unless already present; the vector then holds the old set
/// plus `x`, still without duplicates.
fn add_value(v: &mut Vec<u64>, x: u64)
    requires
        old(v)@.no_duplicates(),
    ensures
        final(v)@.no_duplicates(),
        final(v)@.to_set() == old(v)@.to_set().insert(x),
        old(v)@.is_prefix_of(final(v)@),
{
    let present = contains_u64(v, x);
    if !present {
        v.push(x);
        proof {
            old(v)@.lemma_push_to_set_commute(x);
        }
    } else {
        proof {
            assert(v@.to_set().contains(x));
            assert(v@.to_set() =~= old(v)@.to_set().insert(x));
        }
    }
}

/// Unions the integers of `add` into `v`, keeping it duplicate-free.
fn merge_values(v: &mut Vec<u64>, add: &Vec<u64>)
    requires
        old(v)@.no_duplicates(),
    ensures
        final(v)@.no_duplicates(),
        final(v)@.to_set() == old(v)@.to_set().union(add@.to_set()),
        old(v)@.is_prefix_of(final(v)@),
{
    let mut i: usize = 0;
    while i < add.len()
        invariant
            i <= add.len(),
            v@.no_duplicates(),
            v@.to_set() == old(v)@.to_set().union(add@.take(i as int).to_set()),
            old(v)@.is_prefix_of(v@),
        decreases add.len() - i,
    {
        add_value(v, add[i]);
        proof {
            assert(add@.take(i + 1 as int) =~= add@.take(i as int).push(add@[i as int]));
            add@.take(i as int).lemma_push_to_set_commute(add@[i as int]);
            assert(v@.to_set() =~= old(v)@.to_set().union(add@.take(i + 1 as int).to_set()));
        }
        i += 1;
    }
    proof {
        assert(add@.take(add@.len() as int) =~= add@);
    }
}

/// Whether a topology update assigns a neighbor list to `id`.
pub open spec fn has_entry(t: Seq<TopologyEntry>, id: Seq<char>) -> bool {
    exists|i: int| 0 <= i < t.len() && (#[trigger] t[i]).id@ == id
}

/// The neighbor list a topology update assigns to `id`: the first entry
/// keyed by `id`, or the empty list when there is none.
pub open spec fn entry_peers(t: Seq<TopologyEntry>, id: Seq<char>) -> Seq<String>
    decreases t.len(),
{
    if t.len() == 0 {
        Seq::empty()
    } else if t[0].id@ == id {
        t[0].peers@
    } else {
        entry_peers(t.drop_first(), id)
    }
}

/// The first entry keyed by `id` gives the assigned list.
proof fn lemma_entry_peers_first(t: Seq<TopologyEntry>, i: int, id: Seq<char>)
    requires
        0 <= i < t.len(),
        t[i].id@ == id,
        forall|j: int| 0 <= j < i ==> (#[trigger] t[j]).id@ != id,
    ensures
        entry_peers(t, id) == t[i].peers@,
    decreases t.len(),
{
    if i > 0 {
        assert(t[0].id@ != id);
        assert(t.drop_first()[i - 1] == t[i]);
        lemma_entry_peers_first(t.drop_first(), i - 1, id);
    }
}

/// The index of the first topology entry keyed by `id`, if any.
fn find_topology(t: &Vec<TopologyEntry>, id: &String) -> (o: Option<usize>)
    ensures
        (o matches Some(i) ==> i < t@.len() && t@[i as int].id@ == id@ && (forall|j: int|
            0 <= j < i ==> (#[trigger] t@[j]).id@ != id@)),
        (o is None ==> forall|j: int| 0 <= j < t@.len() ==> (#[trigger] t@[j]).id@ != id@),
{
    let mut i: usize = 0;
    while i < t.len()
        invariant
            i <= t.len(),
            forall|j: int| 0 <= j < i ==> (#[trigger] t@[j]).id@ != id@,
        decreases t.len() - i,
    {
        if t[i].id == *id {
            return Some(i);
        }
        i += 1;
    }
    None
}

/// Appending a value not yet present keeps a sequence duplicate-free.
proof fn lemma_push_no_dup(s: Seq<u64>, x: u64)
    requires
        s.no_duplicates(),
        !s.contains(x),
    ensures
        s.push(x).no_duplicates(),
{
    let u = s.push(x);
    assert forall|i: int, j: int|
        0 <= i < u.len() && 0 <= j < u.len() && i != j implies u[i] != u[j] by {
        if i == s.len() as int {
            if u[j] == x {
                assert(s[j] == x);
                assert(s.contains(x));
            }
        } else if j == s.len() as int {
            if u[i] == x {
                assert(s[i] == x);
                assert(s.contains(x));
            }
        }
    }
}

/// Lays out the values in exactly one of `a` and `b`: the elements of `a`
/// absent from `b`, in order, then those of `b` absent from `a`.
fn sym_diff_vec(a: &Vec<u64>, b: &Vec<u64>) -> (r: Vec<u64>)
    requires
        a@.no_duplicates(),
        b@.no_duplicates(),
    ensures
        r@.no_duplicates(),
        r@.to_set() == sym_diff(a@.to_set(), b@.to_set()),
{
    let mut r: Vec<u64> = Vec::new();
    let mut i: usize = 0;
    while i < a.len()
        invariant
            i <= a.len(),
            a@.no_duplicates(),
            b@.no_duplicates(),
            r@.no_duplicates(),
            r@.to_set() == a@.take(i as int).to_set().difference(b@.to_set()),
        decreases a.len() - i,
    {
        let x = a[i];
        let ghost r0 = r@;
        if !contains_u64(b, x) {
            proof {
                if r0.contains(x) {
                    assert(r0.to_set().contains(x));
                    assert(a@.take(i as int).to_set().contains(x));
                    let j = choose|j: int| 0 <= j < i && a@.take(i as int)[j] == x;
                    assert(a@[j] == a@[i as int]);
                    assert(false);
                }
                lemma_push_no_dup(r0, x);
            }
            r.push(x);
            proof {
                r0.lemma_push_to_set_commute(x);
            }
        }
        proof {
            assert(a@.take(i + 1) =~= a@.take(i as int).push(a@[i as int]));
            a@.take(i as int).lemma_push_to_set_commute(a@[i as int]);
            assert(r@.to_set() =~= a@.take(i + 1).to_set().difference(b@.to_set()));
        }
        i += 1;
    }
    proof {
        assert(a@.take(a@.len() as int) =~= a@);
    }
    let ghost half = r@.to_set();
    let mut i: usize = 0;
    while i < b.len()
        invariant
            i <= b.len(),
            a@.no_duplicates(),
            b@.no_duplicates(),
            r@.no_duplicates(),
            half == a@.to_set().difference(b@.to_set()),
            r@.to_set() == half.union(b@.take(i as int).to_set().difference(a@.to_set())),
        decreases b.len() - i,
    {
        let x = b[i];
        let ghost r0 = r@;
        if !contains_u64(a, x) {
            proof {
                if r0.contains(x) {
                    assert(r0.to_set().contains(x));
                    if half.contains(x) {
                        assert(a@.to_set().contains(x));
                        assert(false);
                    }
                    assert(b@.take(i as int).to_set().contains(x));
                    let j = choose|j: int| 0 <= j < i && b@.take(i as int)[j] == x;
                    assert(b@[j] == b@[i as int]);
                    assert(false);
                }
                lemma_push_no_dup(r0, x);
            }
            r.push(x);
            proof {
                r0.lemma_push_to_set_commute(x);
            }
        }
        proof {
            assert(b@.take(i + 1) =~= b@.take(i as int).push(b@[i as int]));
            b@.take(i as int).lemma_push_to_set_commute(b@[i as int]);
            assert(r@.to_set() =~= half.union(b@.take(i + 1).to_set().difference(a@.to_set())));
        }
        i += 1;
    }
    proof {
        assert(b@.take(b@.len() as int) =~= b@);
        assert(r@.to_set() =~= sym_diff(a@.to_set(), b@.to_set()));
    }
    r
}

/// Appending a string extends the identifiers present by exactly its view.
proof fn lemma_id_in_push(s: Seq<String>, x: String, p: Seq<char>)
    ensures
        id_in(s.push(x), p) <==> (id_in(s, p) || x@ == p),
{
    if id_in(s.push(x), p) {
        let j = choose|j: int| 0 <= j < s.push(x).len() && s.push(x)[j]@ == p;
        if j < s.len() {
            assert(s[j]@ == p);
        }
    }
    if id_in(s, p) {
        let j = choose|j: int| 0 <= j < s.len() && s[j]@ == p;
        assert(s.push(x)[j]@ == p);
    }
    if x@ == p {
        assert(s.push(x)[s.len() as int]@ == p);
    }
}

/// Taking one more element extends the identifiers present by the view of
/// that element.
proof fn lemma_id_in_take_step(s: Seq<String>, i: int, p: Seq<char>)
    requires
        0 <= i < s.len(),
    ensures
        id_in(s.take(i + 1), p) <==> (id_in(s.take(i), p) || s[i]@ == p),
{
    assert(s.take(i + 1) =~= s.take(i).push(s[i]));
    lemma_id_in_push(s.take(i), s[i], p);
}

/// Copies the identifiers of `ids`, dropping repeated ones and, when given,
/// every occurrence of the excluded identifier.
fn dedup_ids(ids: &Vec<String>, excl: Option<&String>) -> (r: Vec<String>)
    ensures
        ids_of(r@).no_duplicates(),
        id_view_set(r@) == (match excl {
            Some(e) => id_view_set(ids@).remove(e@),
            None => id_view_set(ids@),
        }),
{
    let mut r: Vec<String> = Vec::new();
    let mut i: usize = 0;
    while i < ids.len()
        invariant
            i <= ids.len(),
            ids_of(r@).no_duplicates(),
            forall|p: Seq<char>| #[trigger]
                id_in(r@, p) <==> (id_in(ids@.take(i as int), p) && (excl matches Some(e) ==> p
                    != e@)),
        decreases ids.len() - i,
    {
        let nid = &ids[i];
        let excluded = match excl {
            Some(e) => *nid == *e,
            None => false,
        };
        if !excluded {
            let dup = contains_id(&r, nid);
            if !dup {
                let ghost r0 = r@;
                r.push(nid.clone());
                proof {
                    assert(r@ =~= r0.push(r@.last()));
                    assert(r@.last()@ == nid@);
                    assert(ids_of(r@) =~= ids_of(r0).push(nid@));
                    assert forall|p: Seq<char>| #[trigger] id_in(r@, p) implies (id_in(
                        ids@.take(i + 1),
                        p,
                    ) && (excl matches Some(e) ==> p != e@)) by {
                        lemma_id_in_push(r0, r@.last(), p);
                        lemma_id_in_take_step(ids@, i as int, p);
                    }
                    assert forall|p: Seq<char>|
                        id_in(ids@.take(i + 1), p) && (excl matches Some(e) ==> p
                            != e@) implies #[trigger] id_in(r@, p) by {
                        lemma_id_in_push(r0, r@.last(), p);
                        lemma_id_in_take_step(ids@, i as int, p);
                    }
                }
            } else {
                proof {
                    assert forall|p: Seq<char>| #[trigger]
                        id_in(r@, p) <==> (id_in(ids@.take(i + 1), p) && (excl matches Some(e)
                            ==> p != e@)) by {
                        lemma_id_in_take_step(ids@, i as int, p);
                    }
                }
            }
        } else {
            proof {
                assert forall|p: Seq<char>| #[trigger]
                    id_in(r@, p) <==> (id_in(ids@.take(i + 1), p) && (excl matches Some(e) ==> p
                        != e@)) by {
                    lemma_id_in_take_step(ids@, i as int, p);
                }
            }
        }
        i += 1;
    }
    proof {
        assert(ids@.take(ids@.len() as int) =~= ids@);
        match excl {
            Some(e) => {
                assert(id_view_set(r@) =~= id_view_set(ids@).remove(e@));
            },
            None => {
                assert(id_view_set(r@) =~= id_view_set(ids@));
            },
        }
    }
    r
}

/// The index of the first knowledge entry keyed by `id`, if any.
fn find_seen(s: &Vec<NeighborRecord>, id: &String) -> (o: Option<usize>)
    ensures
        (o matches Some(i) ==> i < s@.len() && s@[i as int].id@ == id@),
        (o is None ==> forall|j: int| 0 <= j < s@.len() ==> (#[trigger] s@[j]).id@ != id@),
{
    let mut i: usize = 0;
    while i < s.len()
        invariant
            i <= s.len(),
            forall|j: int| 0 <= j < i ==> (#[trigger] s@[j]).id@ != id@,
        decreases s.len() - i,
    {
        if s[i].id == *id {
            return Some(i);
        }
        i += 1;
    }
    None
}

/// The delivered set after accepting broadcast value `v`.
pub open spec fn delivered_after_broadcast(d: Set<u64>, v: u64) -> Set<u64> {
    d.insert(v)
}

/// The delivered set after merging a gossip payload `vs`.
pub open spec fn delivered_after_gossip(d: Set<u64>, vs: Set<u64>) -> Set<u64> {
    d.union(vs)
}

/// The sequence number an acknowledgment stamped from counter `c` carries.
pub open spec fn ack_seq(c: u64) -> int {
    c + 1
}

/// The fatal condition, if any, that `msg` raises against state `n`: a
/// topology update that does not assign `n` a neighbor list, or any event
/// other than initialization, gossip and the tick arriving outside the
/// running phase — initialization itself being undefined once running.
pub open spec fn fatal_of(n: Node, msg: Message<Request>) -> Option<FatalError> {
    match n.phase {
        Phase::Running => match msg.body {
            Request::Init { .. } => Some(FatalError::UnexpectedEvent),
            Request::Topology { topology, .. } => if has_entry(topology@, n.node_id@) {
                None
            } else {
                Some(FatalError::SelfAbsentFromTopology)
            },
            _ => None,
        },
        Phase::Uninitialized => match msg.body {
            Request::Init { .. } => None,
            Request::Gossip { .. } => None,
            Request::GossipInit => None,
            _ => Some(FatalError::UnexpectedEvent),
        },
        Phase::Stopped => match msg.body {
            Request::Gossip { .. } => None,
            Request::GossipInit => None,
            _ => Some(FatalError::UnexpectedEvent),
        },
    }
}

/// A sequence is a prefix of itself extended by one element.
proof fn lemma_prefix_push_one(a: Seq<Message<Response>>, x: Message<Response>)
    ensures
        a.is_prefix_of(a.push(x)),
{
    assert(a.push(x).subrange(0, a.len() as int) =~= a);
}

/// One neighbor extends the tick's records by its gossip record exactly
/// when a delta is owed to it.
pub proof fn lemma_tick_upto_step(n: Node, i: int)
    requires
        0 <= i < n.neighbor_ids().len(),
    ensures
        n.owes_gossip(n.neighbor_ids()[i]) ==> n.tick_records_upto(i + 1) == n.tick_records_upto(
            i,
        ).push(n.gossip_record(n.neighbor_ids()[i])),
        !n.owes_gossip(n.neighbor_ids()[i]) ==> n.tick_records_upto(i + 1) == n.tick_records_upto(
            i,
        ),
{
    reveal(Seq::filter);
    let ids = n.neighbor_ids();
    let p = ids[i];
    assert(ids.take(i + 1).drop_last() =~= ids.take(i));
    assert(ids.take(i + 1).last() == p);
    if n.owes_gossip(p) {
        assert(n.tick_targets_upto(i + 1) == n.tick_targets_upto(i).push(p));
        assert(n.tick_records_upto(i + 1) =~= n.tick_records_upto(i).push(n.gossip_record(p)));
    }
}

/// No neighbors, no tick records.
proof fn lemma_tick_upto_zero(n: Node)
    ensures
        n.tick_records_upto(0) == Seq::<RecordModel>::empty(),
{
    reveal(Seq::filter);
    assert(n.neighbor_ids().take(0) =~= Seq::<Seq<char>>::empty());
    assert(n.tick_targets_upto(0).len() == 0);
    assert(n.tick_records_upto(0) =~= Seq::<RecordModel>::empty());
}

/// A duplicate-free sequence lays out the empty set exactly when it is
/// empty.
proof fn lemma_to_set_empty_iff(s: Seq<u64>)
    ensures
        (s.to_set() == Set::<u64>::empty()) <==> s.len() == 0,
{
    if s.len() == 0 {
        assert(s.to_set() =~= Set::<u64>::empty());
    } else {
        assert(s.to_set().contains(s[0]));
    }
}

impl Node {
    /// Emits this reconciliation tick's gossip records into `buff`: one per
    /// neighbor owed a non-empty delta, in gossip order.
    fn emit_gossip(&self, buff: &mut Vec<Message<Response>>)
        requires
            self.wf(),
        ensures
            old(buff)@.is_prefix_of(final(buff)@),
            models_from(final(buff)@, old(buff)@.len() as int) == self.tick_records(),
            forall|k: int|
                old(buff)@.len() <= k < final(buff)@.len() ==> payload_no_dups(
                    #[trigger] final(buff)@[k],
                ),
    {
        let ghost prefix = buff@;
        proof {
            lemma_tick_upto_zero(*self);
            assert(buff@.subrange(prefix.len() as int, buff@.len() as int) =~= Seq::<
                Message<Response>,
            >::empty());
            assert(models_from(buff@, prefix.len() as int) =~= Seq::<RecordModel>::empty());
            assert(prefix.is_prefix_of(buff@)) by {
                assert(buff@.subrange(0, prefix.len() as int) =~= prefix);
            }
        }
        let mut i: usize = 0;
        while i < self.neighbors.len()
            invariant
                i <= self.neighbors.len(),
                self.wf(),
                prefix.len() <= buff@.len(),
                prefix.is_prefix_of(buff@),
                models_from(buff@, prefix.len() as int) == self.tick_records_upto(i as int),
                forall|k: int|
                    prefix.len() <= k < buff@.len() ==> payload_no_dups(#[trigger] buff@[k]),
            decreases self.neighbors.len() - i,
        {
            let p = &self.neighbors[i];
            proof {
                assert(self.neighbor_ids()[i as int] == p@);
            }
            let delta: Vec<u64> = match find_seen(&self.neighbors_seen, p) {
                Some(j) => {
                    proof {
                        lemma_lookup_at_index(self.neighbors_seen@, j as int);
                    }
                    sym_diff_vec(&self.messages, &self.neighbors_seen[j].seen)
                },
                None => {
                    proof {
                        lemma_lookup_absent(self.neighbors_seen@, p@);
                    }
                    let tmp: Vec<u64> = Vec::new();
                    proof {
                        assert(tmp@.to_set() =~= Set::<u64>::empty());
                        assert(tmp@.to_set() =~= self.seen_of(p@));
                    }
                    sym_diff_vec(&self.messages, &tmp)
                },
            };
            proof {
                assert(delta@.to_set() == self.delta_for(p@));
                lemma_to_set_empty_iff(delta@);
                lemma_tick_upto_step(*self, i as int);
            }
            let ghost buff0 = buff@;
            if delta.len() != 0 {
                proof {
                    assert(self.delta_for(p@).contains(delta@[0]));
                    assert(self.owes_gossip(p@));
                }
                let rec = Message {
                    src: self.node_id.clone(),
                    dest: p.clone(),
                    body: Response::Gossip { messages: delta },
                };
                proof {
                    assert(record_model(rec) == self.gossip_record(p@));
                }
                buff.push(rec);
                proof {
                    lemma_prefix_push_one(buff0, buff@.last());
                    assert(prefix.is_prefix_of(buff@)) by {
                        assert(buff@.subrange(0, prefix.len() as int) =~= buff0.subrange(
                            0,
                            prefix.len() as int,
                        ));
                    }
                    assert(models_from(buff@, prefix.len() as int) =~= models_from(
                        buff0,
                        prefix.len() as int,
                    ).push(record_model(buff@.last()))) by {
                        assert(buff@.subrange(prefix.len() as int, buff@.len() as int) =~= buff0
                            .subrange(prefix.len() as int, buff0.len() as int).push(buff@.last()));
                    }
                }
            } else {
                proof {
                    assert(self.delta_for(p@) == Set::<u64>::empty());
                    assert(!self.owes_gossip(p@));
                }
            }
            i += 1;
        }
        proof {
            assert(self.neighbor_ids().len() == self.neighbors@.len());
        }
    }

    /// Records that peer `from` is known to hold `values`, by unioning them
    /// into the belief kept for that peer.
    fn record_seen(&mut self, from: &String, values: &Vec<u64>)
        requires
            old(self).wf(),
        ensures
            final(self).wf(),
            final(self).seen_of(from@) == old(self).seen_of(from@).union(values@.to_set()),
            forall|p: Seq<char>|
                p != from@ ==> final(self).seen_of(p) == old(self).seen_of(p),
            final(self).next_msg_id == old(self).next_msg_id,
            final(self).node_id == old(self).node_id,
            final(self).phase == old(self).phase,
            final(self).messages == old(self).messages,
            final(self).neighbors == old(self).neighbors,
    {
        let ghost s0 = self.neighbors_seen@;
        match find_seen(&self.neighbors_seen, from) {
            Some(i) => {
                let mut seen = copy_u64s(&self.neighbors_seen[i].seen);
                merge_values(&mut seen, values);
                let rec = NeighborRecord { id: self.neighbors_seen[i].id.clone(), seen };
                proof {
                    assert(rec.id@ == s0[i as int].id@);
                }
                self.neighbors_seen[i] = rec;
                proof {
                    assert(seen_ids(self.neighbors_seen@) =~= seen_ids(s0));
                    lemma_lookup_at_index(s0, i as int);
                    assert forall|p: Seq<char>| true implies #[trigger] lookup_seen(
                        self.neighbors_seen@,
                        p,
                    ) == (if p == from@ {
                        lookup_seen(s0, p).union(values@.to_set())
                    } else {
                        lookup_seen(s0, p)
                    }) by {
                        lemma_lookup_update(s0, i as int, self.neighbors_seen@[i as int], p);
                    }
                }
            },
            None => {
                let mut seen: Vec<u64> = Vec::new();
                merge_values(&mut seen, values);
                let rec = NeighborRecord { id: from.clone(), seen };
                self.neighbors_seen.push(rec);
                proof {
                    assert(seen_ids(self.neighbors_seen@) =~= seen_ids(s0).push(from@));
                    lemma_lookup_absent(s0, from@);
                    assert(Seq::<u64>::empty().to_set() =~= Set::<u64>::empty());
                    assert(self.neighbors_seen@[s0.len() as int].seen@.to_set() =~= lookup_seen(
                        s0,
                        from@,
                    ).union(values@.to_set()));
                    assert forall|p: Seq<char>| true implies #[trigger] lookup_seen(
                        self.neighbors_seen@,
                        p,
                    ) == (if p == from@ {
                        lookup_seen(s0, p).union(values@.to_set())
                    } else {
                        lookup_seen(s0, p)
                    }) by {
                        lemma_lookup_push(s0, self.neighbors_seen@.last(), p);
                    }
                }
            },
        }
    }
}

/// Everything but the acknowledgment counter is unchanged between two
/// states.
pub open spec fn core_unchanged(pre: Node, post: Node) -> bool {
    &&& post.node_id == pre.node_id
    &&& post.phase == pre.phase
    &&& post.messages == pre.messages
    &&& post.neighbors == pre.neighbors
    &&& post.neighbors_seen == pre.neighbors_seen
}

/// The envelope an acknowledgment of `msg` travels in: addressed back to
/// its sender, from its recipient.
pub open spec fn ack_record(msg: Message<Request>, body: BodyModel) -> RecordModel {
    RecordModel { src: msg.dest@, dest: msg.src@, body }
}

/// Relies on uuid::Uuid::new_v4 for a fresh 128-bit random token, and on
/// uuid::Uuid's display form, which lays any uuid out as exactly thirty-six
/// characters (hyphenated lowercase hexadecimal).
#[verifier::external_body]
fn fresh_token() -> (r: String)
    ensures
        r@.len() == 36,
{
    uuid::Uuid::new_v4().to_string()
}

impl Node {
    /// Consumes one event and appends the records it produces: the
    /// per-event state machine of the protocol engine. Returns the fatal
    /// condition, if the event raises one, leaving state and output
    /// untouched.
    pub fn handler(&mut self, msg: Message<Request>, buff: &mut Vec<Message<Response>>) -> (r:
        Result<(), FatalError>)
        requires
            old(self).wf(),
            old(self).next_msg_id < u64::MAX,
        ensures
            final(self).wf(),
            old(self).delivered().subset_of(final(self).delivered()),
            final(self).next_msg_id >= old(self).next_msg_id,
            old(buff)@.is_prefix_of(final(buff)@),
            forall|k: int|
                old(buff)@.len() <= k < final(buff)@.len() ==> payload_no_dups(
                    #[trigger] final(buff)@[k],
                ),
            (r is Err) <==> (fatal_of(*old(self), msg) is Some),
            (r matches Err(e) ==> fatal_of(*old(self), msg) == Some(e)),
            r is Err ==> *final(self) == *old(self) && final(buff)@ == old(buff)@,
            old(self).phase is Running ==> (msg.body matches Request::Echo { msg_id, echo } ==> ({
                &&& final(self).next_msg_id == ack_seq(old(self).next_msg_id)
                &&& core_unchanged(*old(self), *final(self))
                &&& final(buff)@.len() == old(buff)@.len() + 1
                &&& record_model(final(buff)@.last()) == ack_record(
                    msg,
                    BodyModel::EchoOk {
                        msg_id: final(self).next_msg_id,
                        in_reply_to: msg_id,
                        echo: echo@,
                    },
                )
            })),
            old(self).phase is Uninitialized ==> (msg.body matches Request::Init {
                msg_id,
                node_id,
                node_ids,
            } ==> ({
                &&& final(self).phase is Running
                &&& final(self).node_id@ == node_id@
                &&& final(self).next_msg_id == ack_seq(old(self).next_msg_id)
                &&& final(self).messages == old(self).messages
                &&& final(self).neighbors_seen == old(self).neighbors_seen
                &&& id_view_set(final(self).neighbors@) == id_view_set(node_ids@).remove(node_id@)
                &&& final(buff)@.len() == old(buff)@.len() + 1
                &&& record_model(final(buff)@.last()) == ack_record(
                    msg,
                    BodyModel::InitOk { in_reply_to: msg_id, msg_id: final(self).next_msg_id },
                )
            })),
            old(self).phase is Running ==> (msg.body matches Request::Generate { msg_id } ==> ({
                &&& final(self).next_msg_id == ack_seq(old(self).next_msg_id)
                &&& core_unchanged(*old(self), *final(self))
                &&& final(buff)@.len() == old(buff)@.len() + 1
                &&& final(buff)@.last().src@ == msg.dest@
                &&& final(buff)@.last().dest@ == msg.src@
                &&& (body_model(final(buff)@.last().body) matches BodyModel::GenerateOk {
                    id,
                    msg_id: stamped,
                    in_reply_to,
                } && id.len() == 36 && stamped == final(self).next_msg_id && in_reply_to == msg_id)
            })),
            old(self).phase is Running ==> (msg.body matches Request::Topology { msg_id, topology }
                ==> has_entry(topology@, old(self).node_id@) ==> ({
                &&& final(self).next_msg_id == ack_seq(old(self).next_msg_id)
                &&& final(self).node_id == old(self).node_id
                &&& final(self).phase == old(self).phase
                &&& final(self).messages == old(self).messages
                &&& final(self).neighbors_seen == old(self).neighbors_seen
                &&& id_view_set(final(self).neighbors@) == id_view_set(
                    entry_peers(topology@, old(self).node_id@),
                )
                &&& final(buff)@.len() == old(buff)@.len() + 1
                &&& record_model(final(buff)@.last()) == ack_record(
                    msg,
                    BodyModel::TopologyOk { msg_id: final(self).next_msg_id, in_reply_to: msg_id },
                )
            })),
            old(self).phase is Running ==> (msg.body matches Request::Read { msg_id } ==> ({
                &&& final(self).next_msg_id == ack_seq(old(self).next_msg_id)
                &&& core_unchanged(*old(self), *final(self))
                &&& final(buff)@.len() == old(buff)@.len() + 1
                &&& record_model(final(buff)@.last()) == ack_record(
                    msg,
                    BodyModel::ReadOk {
                        msg_id: final(self).next_msg_id,
                        in_reply_to: msg_id,
                        messages: old(self).delivered(),
                    },
                )
            })),
            old(self).phase is Running ==> (msg.body matches Request::Broadcast { msg_id, message }
                ==> ({
                &&& final(self).next_msg_id == ack_seq(old(self).next_msg_id)
                &&& final(self).node_id == old(self).node_id
                &&& final(self).phase == old(self).phase
                &&& final(self).neighbors == old(self).neighbors
                &&& final(self).neighbors_seen == old(self).neighbors_seen
                &&& final(self).delivered() == delivered_after_broadcast(
                    old(self).delivered(),
                    message,
                )
                &&& final(buff)@.len() == old(buff)@.len() + 1
                &&& record_model(final(buff)@.last()) == ack_record(
                    msg,
                    BodyModel::BroadcastOk {
                        msg_id: final(self).next_msg_id,
                        in_reply_to: msg_id,
                    },
                )
            })),
            old(self).phase is Running ==> (msg.body matches Request::Gossip { messages } ==> ({
                &&& final(self).next_msg_id == ack_seq(old(self).next_msg_id)
                &&& final(self).node_id == old(self).node_id
                &&& final(self).phase == old(self).phase
                &&& final(self).neighbors == old(self).neighbors
                &&& final(self).delivered() == delivered_after_gossip(
                    old(self).delivered(),
                    messages@.to_set(),
                )
                &&& final(self).seen_of(msg.src@) == old(self).seen_of(msg.src@).union(
                    messages@.to_set(),
                )
                &&& (forall|p: Seq<char>|
                    p != msg.src@ ==> final(self).seen_of(p) == old(self).seen_of(p))
                &&& final(buff)@ == old(buff)@
            })),
            (old(self).phase is Running && msg.body is GossipInit) ==> ({
                &&& final(self).next_msg_id == ack_seq(old(self).next_msg_id)
                &&& core_unchanged(*old(self), *final(self))
                &&& models_from(final(buff)@, old(buff)@.len() as int) == old(self).tick_records()
            }),
            (old(self).phase is Running && msg.body is Shutdown) ==> ({
                &&& final(self).phase is Stopped
                &&& final(self).next_msg_id == old(self).next_msg_id
                &&& final(self).node_id == old(self).node_id
                &&& final(self).messages == old(self).messages
                &&& final(self).neighbors == old(self).neighbors
                &&& final(self).neighbors_seen == old(self).neighbors_seen
                &&& final(buff)@ == old(buff)@
            }),
            (!(old(self).phase is Running) && (msg.body matches Request::Gossip { .. }
                || msg.body is GossipInit)) ==> (*final(self) == *old(self) && final(buff)@ == old(
                buff,
            )@),
    {
        match self.phase {
            Phase::Running => match &msg.body {
                Request::Init { .. } => Err(FatalError::UnexpectedEvent),
                Request::Echo { msg_id, echo } => {
                    let ack = self.gen_msg_id();
                    let rec = msg.reply(
                        Response::EchoOk {
                            msg_id: ack,
                            in_reply_to: *msg_id,
                            echo: echo.clone(),
                        },
                    );
                    buff.push(rec);
                    proof {
                        lemma_prefix_push_one(old(buff)@, buff@.last());
                    }
                    Ok(())
                },
                Request::Generate { msg_id } => {
                    let ack = self.gen_msg_id();
                    let token = fresh_token();
                    let rec = msg.reply(
                        Response::GenerateOk { id: token, msg_id: ack, in_reply_to: *msg_id },
                    );
                    buff.push(rec);
                    proof {
                        lemma_prefix_push_one(old(buff)@, buff@.last());
                    }
                    Ok(())
                },
                Request::Topology { msg_id, topology } => {
                    match find_topology(topology, &self.node_id) {
                        Some(ti) => {
                            proof {
                                lemma_entry_peers_first(topology@, ti as int, self.node_id@);
                                assert(has_entry(topology@, self.node_id@));
                            }
                            let ack = self.gen_msg_id();
                            self.neighbors = dedup_ids(&topology[ti].peers, None);
                            let rec = msg.reply(
                                Response::TopologyOk { msg_id: ack, in_reply_to: *msg_id },
                            );
                            buff.push(rec);
                            proof {
                                lemma_prefix_push_one(old(buff)@, buff@.last());
                            }
                            Ok(())
                        },
                        None => Err(FatalError::SelfAbsentFromTopology),
                    }
                },
                Request::Read { msg_id } => {
                    let ack = self.gen_msg_id();
                    let snapshot = copy_u64s(&self.messages);
                    let rec = msg.reply(
                        Response::ReadOk {
                            msg_id: ack,
                            in_reply_to: *msg_id,
                            messages: snapshot,
                        },
                    );
                    buff.push(rec);
                    proof {
                        lemma_prefix_push_one(old(buff)@, buff@.last());
                    }
                    Ok(())
                },
                Request::Broadcast { msg_id, message } => {
                    let ack = self.gen_msg_id();
                    add_value(&mut self.messages, *message);
                    let rec = msg.reply(
                        Response::BroadcastOk { msg_id: ack, in_reply_to: *msg_id },
                    );
                    buff.push(rec);
                    proof {
                        lemma_prefix_push_one(old(buff)@, buff@.last());
                    }
                    Ok(())
                },
                Request::Gossip { messages } => {
                    let _ack = self.gen_msg_id();
                    merge_values(&mut self.messages, messages);
                    self.record_seen(&msg.src, messages);
                    Ok(())
                },
                Request::GossipInit => {
                    self.emit_gossip(buff);
                    let _ack = self.gen_msg_id();
                    Ok(())
                },
                Request::Shutdown => {
                    self.phase = Phase::Stopped;
                    Ok(())
                },
            },
            Phase::Uninitialized => match &msg.body {
                Request::Init { msg_id, node_id, node_ids } => {
                    let ack = self.gen_msg_id();
                    self.node_id = node_id.clone();
                    self.neighbors = dedup_ids(node_ids, Some(node_id));
                    self.phase = Phase::Running;
                    let rec = msg.reply(
                        Response::InitOk { in_reply_to: *msg_id, msg_id: ack },
                    );
                    buff.push(rec);
                    proof {
                        lemma_prefix_push_one(old(buff)@, buff@.last());
                    }
                    Ok(())
                },
                Request::Gossip { .. } => Ok(()),
                Request::GossipInit => Ok(()),
                _ => Err(FatalError::UnexpectedEvent),
            },
            Phase::Stopped => match &msg.body {
                Request::Gossip { .. } => Ok(()),
                Request::GossipInit => Ok(()),
                _ => Err(FatalError::UnexpectedEvent),
            },
        }
    }
}

} // verus!
