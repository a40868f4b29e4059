//! Tracking of the peer set from full and delta updates sent by control.
use crate::runtime::assoc::{AssocList, ExactKey};
use std::collections::HashMap;
use vstd::prelude::*;

verus! {

/// A node's public key, as raw bytes.
pub type NodeKey = [u8; 32];

/// A peer as an update carries it: its id, its node key, and the node itself.
pub struct PeerEntry<N> {
    pub id: i64,
    pub node_key: NodeKey,
    pub node: N,
}

/// A change to the peer set.
pub enum PeerUpdate<N> {
    /// The complete peer set, replacing the current one.
    Full(Vec<PeerEntry<N>>),
    /// Peers to add or replace, then ids of peers to remove.
    Delta { remove: Vec<i64>, upsert: Vec<PeerEntry<N>> },
}

/// The keys that an update added or replaced, and the keys it removed; each without repeats.
pub struct PeerChanges {
    pub upserts: Vec<NodeKey>,
    pub deletions: Vec<NodeKey>,
}

/// What handling an update yields: the changes, and the name requests that can now be answered.
pub struct UpdateOutcome<Q> {
    pub changes: PeerChanges,
    pub answer_now: Vec<Q>,
}

/// The peer map after filing each entry of `s` in turn, later entries winning.
pub open spec fn upserted_peers<N>(peers: Map<NodeKey, N>, s: Seq<PeerEntry<N>>) -> Map<NodeKey, N>
    decreases s.len(),
{
    if s.len() == 0 {
        peers
    } else {
        upserted_peers(peers, s.drop_last()).insert(s.last().node_key, s.last().node)
    }
}

/// The id map after filing each entry of `s` in turn, later entries winning.
pub open spec fn upserted_ids<N>(ids: Map<i64, NodeKey>, s: Seq<PeerEntry<N>>) -> Map<i64, NodeKey>
    decreases s.len(),
{
    if s.len() == 0 {
        ids
    } else {
        upserted_ids(ids, s.drop_last()).insert(s.last().id, s.last().node_key)
    }
}

/// The node keys that the entries of `s` carry.
pub open spec fn keys_of<N>(s: Seq<PeerEntry<N>>) -> Set<NodeKey>
    decreases s.len(),
{
    if s.len() == 0 {
        Set::empty()
    } else {
        keys_of(s.drop_last()).insert(s.last().node_key)
    }
}

/// The peer map, id map and removed keys after removing the peers with the ids of `r` in turn:
/// an id that is known takes its key out of both maps; an unknown id changes nothing.
pub open spec fn removed<N>(peers: Map<NodeKey, N>, ids: Map<i64, NodeKey>, r: Seq<i64>) -> (
    Map<NodeKey, N>,
    Map<i64, NodeKey>,
    Set<NodeKey>,
)
    decreases r.len(),
{
    if r.len() == 0 {
        (peers, ids, Set::empty())
    } else {
        let (p, i, d) = removed(peers, ids, r.drop_last());
        let id = r.last();
        if i.contains_key(id) {
            (p.remove(i[id]), i.remove(id), d.insert(i[id]))
        } else {
            (p, i, d)
        }
    }
}

/// The peer map and id map after `u`.
pub open spec fn updated_maps<N>(peers: Map<NodeKey, N>, ids: Map<i64, NodeKey>, u: PeerUpdate<N>) -> (
    Map<NodeKey, N>,
    Map<i64, NodeKey>,
) {
    match u {
        PeerUpdate::Full(nodes) => (
            upserted_peers(Map::empty(), nodes@),
            upserted_ids(Map::empty(), nodes@),
        ),
        PeerUpdate::Delta { remove, upsert } => {
            let (p, i, _d) = removed(
                upserted_peers(peers, upsert@),
                upserted_ids(ids, upsert@),
                remove@,
            );
            (p, i)
        },
    }
}

/// The keys that `u` adds or replaces.
pub open spec fn upserted_keys<N>(u: PeerUpdate<N>) -> Set<NodeKey> {
    match u {
        PeerUpdate::Full(nodes) => keys_of(nodes@),
        PeerUpdate::Delta { remove, upsert } => keys_of(upsert@),
    }
}

/// The keys that `u` removes: for a full update, the peers that it does not name again.
pub open spec fn deleted_keys<N>(peers: Map<NodeKey, N>, ids: Map<i64, NodeKey>, u: PeerUpdate<N>) -> Set<
    NodeKey,
> {
    match u {
        PeerUpdate::Full(nodes) => peers.dom().difference(keys_of(nodes@)),
        PeerUpdate::Delta { remove, upsert } => removed(
            upserted_peers(peers, upsert@),
            upserted_ids(ids, upsert@),
            remove@,
        ).2,
    }
}

proof fn lemma_upserted_push<N>(p: Map<NodeKey, N>, i: Map<i64, NodeKey>, s: Seq<PeerEntry<N>>, e: PeerEntry<N>)
    ensures
        upserted_peers(p, s.push(e)) == upserted_peers(p, s).insert(e.node_key, e.node),
        upserted_ids(i, s.push(e)) == upserted_ids(i, s).insert(e.id, e.node_key),
        keys_of(s.push(e)) == keys_of(s).insert(e.node_key),
{
    assert(s.push(e).drop_last() =~= s);
}

proof fn lemma_removed_push<N>(p: Map<NodeKey, N>, i: Map<i64, NodeKey>, r: Seq<i64>, id: i64)
    ensures
        removed(p, i, r.push(id)) == ({
            let (p2, i2, d2) = removed(p, i, r);
            if i2.contains_key(id) {
                (p2.remove(i2[id]), i2.remove(id), d2.insert(i2[id]))
            } else {
                (p2, i2, d2)
            }
        }),
{
    assert(r.push(id).drop_last() =~= r);
}

proof fn lemma_upserted_peers_lookup<N>(m: Map<NodeKey, N>, s: Seq<PeerEntry<N>>)
    ensures
        upserted_peers(m, s).dom() == m.dom().union(keys_of(s)),
        forall|k: NodeKey| !(#[trigger] keys_of(s).contains(k)) ==> upserted_peers(m, s).contains_key(k)
            == m.contains_key(k) && upserted_peers(m, s)[k] == m[k],
    decreases s.len(),
{
    if s.len() > 0 {
        lemma_upserted_peers_lookup(m, s.drop_last());
        assert(upserted_peers(m, s).dom() =~= m.dom().union(keys_of(s)));
    }
}

proof fn lemma_removed_lookup<N>(p: Map<NodeKey, N>, i: Map<i64, NodeKey>, r: Seq<i64>)
    ensures
        removed(p, i, r).0.dom() == p.dom().difference(removed(p, i, r).2),
        forall|k: NodeKey| #[trigger] removed(p, i, r).0.contains_key(k) ==> removed(p, i, r).0[k] == p[k],
    decreases r.len(),
{
    if r.len() > 0 {
        lemma_removed_lookup(p, i, r.drop_last());
        let (p2, i2, d2) = removed(p, i, r.drop_last());
        let id = r.last();
        if i2.contains_key(id) {
            assert(p2.remove(i2[id]).dom() =~= p.dom().difference(d2.insert(i2[id])));
        }
    }
}

/// After any update, no key that it reports as deleted is among the peers.
pub proof fn lemma_deleted_peers_gone<N>(peers: Map<NodeKey, N>, ids: Map<i64, NodeKey>, u: PeerUpdate<N>)
    ensures
        forall|k: NodeKey| #[trigger] deleted_keys(peers, ids, u).contains(k) ==> !updated_maps(
            peers,
            ids,
            u,
        ).0.contains_key(k),
{
    match u {
        PeerUpdate::Full(nodes) => {
            lemma_upserted_peers_lookup(Map::empty(), nodes@);
        },
        PeerUpdate::Delta { remove, upsert } => {
            lemma_removed_lookup(upserted_peers(peers, upsert@), upserted_ids(ids, upsert@), remove@);
        },
    }
}

/// After any update, each peer is one that the update reports as added or replaced, or one
/// that was there before and that the update left as it was.
pub proof fn lemma_untouched_peers_kept<N>(peers: Map<NodeKey, N>, ids: Map<i64, NodeKey>, u: PeerUpdate<N>)
    ensures
        forall|k: NodeKey| #[trigger]
            updated_maps(peers, ids, u).0.contains_key(k) && !upserted_keys(u).contains(k) ==> peers.contains_key(k)
                && updated_maps(peers, ids, u).0[k] == peers[k],
        forall|k: NodeKey|
            #![trigger peers.contains_key(k)]
            peers.contains_key(k) && !upserted_keys(u).contains(k) && !deleted_keys(peers, ids, u).contains(k)
                ==> updated_maps(peers, ids, u).0.contains_key(k) && updated_maps(peers, ids, u).0[k]
                == peers[k],
{
    match u {
        PeerUpdate::Full(nodes) => {
            lemma_upserted_peers_lookup(Map::empty(), nodes@);
        },
        PeerUpdate::Delta { remove, upsert } => {
            lemma_upserted_peers_lookup(peers, upsert@);
            lemma_removed_lookup(upserted_peers(peers, upsert@), upserted_ids(ids, upsert@), remove@);
        },
    }
}

/// A full update replaces the peer set: afterwards the peers are exactly the keys it names,
/// each with the last node it gives for that key, and every earlier peer that it does not
/// name is reported as deleted.
pub proof fn lemma_full_update_replaces<N>(peers: Map<NodeKey, N>, ids: Map<i64, NodeKey>, nodes: Vec<PeerEntry<N>>)
    ensures
        updated_maps(peers, ids, PeerUpdate::Full(nodes)).0.dom() == keys_of(nodes@),
        updated_maps(peers, ids, PeerUpdate::Full(nodes)).0 == upserted_peers(Map::empty(), nodes@),
        forall|k: NodeKey| #[trigger] peers.contains_key(k) ==> keys_of(nodes@).contains(k) || deleted_keys(
            peers,
            ids,
            PeerUpdate::Full(nodes),
        ).contains(k),
{
    lemma_upserted_peers_lookup(Map::empty(), nodes@);
    assert(Map::<NodeKey, N>::empty().dom().union(keys_of(nodes@)) =~= keys_of(nodes@));
}

/// Add `k` to the keys in `v`, unless it is there already.
fn push_unique(v: &mut Vec<NodeKey>, k: NodeKey)
    requires
        old(v)@.no_duplicates(),
    ensures
        final(v)@.no_duplicates(),
        final(v)@.to_set() == old(v)@.to_set().insert(k),
{
    let n = v.len();
    let mut i: usize = 0;
    while i < n
        invariant
            n == v@.len(),
            i <= n,
            v@ == old(v)@,
            v@.no_duplicates(),
            forall|j: int| 0 <= j < i ==> v@[j] != k,
        decreases n - i,
    {
        if v[i].same(&k) {
            proof {
                assert(v@.to_set().contains(k));
                assert(v@.to_set().insert(k) =~= v@.to_set());
            }
            return;
        }
        i = i + 1;
    }
    let ghost before = v@;
    v.push(k);
    proof {
        assert(!before.contains(k));
        assert forall|a: int, b: int| 0 <= a < v@.len() && 0 <= b < v@.len() && a != b implies v@[a]
            != v@[b] by {
            if a == before.len() as int {
                assert(v@[b] == before[b]);
            } else if b == before.len() as int {
                assert(v@[a] == before[a]);
            } else {
                assert(v@[a] == before[a] && v@[b] == before[b]);
            }
        }
        assert forall|x: NodeKey| #[trigger] v@.to_set().contains(x) <==> before.to_set().insert(
            k,
        ).contains(x) by {
            if v@.contains(x) {
                let j = choose|j: int| 0 <= j < v@.len() && v@[j] == x;
                if j < before.len() {
                    assert(before[j] == x);
                }
            }
            if before.contains(x) {
                let j = choose|j: int| 0 <= j < before.len() && before[j] == x;
                assert(v@[j] == x);
            }
            if x == k {
                assert(v@[before.len() as int] == k);
            }
        }
        assert(v@.to_set() =~= before.to_set().insert(k));
    }
}

/// Take `k` out of the keys in `v`, if it is there.
fn remove_key(v: &mut Vec<NodeKey>, k: &NodeKey)
    requires
        old(v)@.no_duplicates(),
    ensures
        final(v)@.no_duplicates(),
        final(v)@.to_set() == old(v)@.to_set().remove(*k),
{
    let n = v.len();
    let mut i: usize = 0;
    while i < n
        invariant
            n == v@.len(),
            i <= n,
            v@ == old(v)@,
            v@.no_duplicates(),
            forall|j: int| 0 <= j < i ==> v@[j] != *k,
        decreases n - i,
    {
        if v[i].same(k) {
            let ghost before = v@;
            v.remove(i);
            proof {
                assert forall|a: int, b: int|
                    0 <= a < v@.len() && 0 <= b < v@.len() && a != b implies v@[a] != v@[b] by {
                    let a2 = if a < i { a } else { a + 1 };
                    let b2 = if b < i { b } else { b + 1 };
                    assert(v@[a] == before[a2] && v@[b] == before[b2]);
                }
                assert forall|x: NodeKey| #[trigger] v@.to_set().contains(x) <==> before.to_set().remove(
                    *k,
                ).contains(x) by {
                    if v@.contains(x) {
                        let j = choose|j: int| 0 <= j < v@.len() && v@[j] == x;
                        let j2 = if j < i { j } else { j + 1 };
                        assert(before[j2] == x);
                        assert(j2 != i as int);
                        assert(before[i as int] == *k);
                    }
                    if before.contains(x) && x != *k {
                        let j = choose|j: int| 0 <= j < before.len() && before[j] == x;
                        assert(j != i as int);
                        if j < i {
                            assert(v@[j] == x);
                        } else {
                            assert(v@[j - 1] == x);
                        }
                    }
                }
                assert(v@.to_set() =~= before.to_set().remove(*k));
            }
            return;
        }
        i = i + 1;
    }
    proof {
        assert(!v@.contains(*k));
        assert(v@.to_set().remove(*k) =~= v@.to_set());
    }
}

/// `after` is `before` with the update `u` applied, which reported `changes`: the maps change
/// as `updated_maps` says, the changed keys are reported without repeats, an update has been
/// seen, and no request is held any more.
pub open spec fn update_applied<N, Q>(
    before: PeerTracker<N, Q>,
    after: PeerTracker<N, Q>,
    u: PeerUpdate<N>,
    changes: PeerChanges,
) -> bool {
    let (p, i) = updated_maps(before.peers(), before.ids(), u);
    &&& after.peers() == p
    &&& after.ids() == i
    &&& changes.upserts@.no_duplicates()
    &&& changes.upserts@.to_set() == upserted_keys(u)
    &&& changes.deletions@.no_duplicates()
    &&& changes.deletions@.to_set() == deleted_keys(before.peers(), before.ids(), u)
    &&& after.seen_state_update()
    &&& after.pending() == Seq::<Q>::empty()
}

/// `answer` answers `request` among `entries`: the key of the first peer for which `matches`
/// held, every earlier peer having failed it; or `None`, every peer having failed it.
pub open spec fn answers<N, Q, F: Fn(&N, &Q) -> bool>(
    entries: Seq<(NodeKey, N)>,
    matches: F,
    request: Q,
    answer: Option<NodeKey>,
) -> bool {
    match answer {
        None => forall|i: int|
            0 <= i < entries.len() ==> #[trigger] matches.ensures((&entries[i].1, &request), false),
        Some(k) => exists|i: int|
            0 <= i < entries.len() && entries[i].0 == k && matches.ensures((&entries[i].1, &request), true)
                && forall|j: int| 0 <= j < i ==> #[trigger] matches.ensures((&entries[j].1, &request), false),
    }
}

/// Tracks the peer set across updates from control, and holds requests for a peer by name
/// until the first update has come.
pub struct PeerTracker<N, Q> {
    peers: AssocList<NodeKey, N>,
    id_to_nodekey: HashMap<i64, NodeKey>,
    seen_state_update: bool,
    pending_requests: Vec<Q>,
}

impl<N, Q> PeerTracker<N, Q> {
    /// The known peers, by node key.
    pub closed spec fn peers(&self) -> Map<NodeKey, N> {
        self.peers.map()
    }

    /// The known peers, in the order in which they were filed.
    pub closed spec fn peer_entries(&self) -> Seq<(NodeKey, N)> {
        self.peers.entries()
    }

    /// The node key filed under each peer id.
    pub closed spec fn ids(&self) -> Map<i64, NodeKey> {
        self.id_to_nodekey@
    }

    /// Whether an update has been handled yet.
    pub closed spec fn seen_state_update(&self) -> bool {
        self.seen_state_update
    }

    /// The requests held until the first update, oldest first.
    pub closed spec fn pending(&self) -> Seq<Q> {
        self.pending_requests@
    }

    /// The tracker's invariant: both maps are well formed, and requests are held only
    /// before the first update.
    pub closed spec fn wf(&self) -> bool {
        &&& self.peers.wf()
        &&& self.seen_state_update ==> self.pending_requests@.len() == 0
    }

    /// A tracker that knows no peer and has seen no update.
    pub fn new() -> (r: PeerTracker<N, Q>)
        ensures
            r.wf(),
            r.peers() == Map::<NodeKey, N>::empty(),
            r.peer_entries().len() == 0,
            r.ids() == Map::<i64, NodeKey>::empty(),
            !r.seen_state_update(),
            r.pending() == Seq::<Q>::empty(),
    {
        PeerTracker {
            peers: AssocList::new(),
            id_to_nodekey: HashMap::new(),
            seen_state_update: false,
            pending_requests: Vec::new(),
        }
    }

    /// The number of known peers.
    pub fn len(&self) -> (r: usize)
        requires
            self.wf(),
        ensures
            r == self.peer_entries().len(),
            r == self.peers().len(),
    {
        proof {
            crate::runtime::assoc::lemma_assoc_len(self.peers.entries());
        }
        self.peers.len()
    }

    /// The peer filed under `key`.
    pub fn peer(&self, key: &NodeKey) -> (r: Option<&N>)
        requires
            self.wf(),
        ensures
            r is None <==> !self.peers().contains_key(*key),
            r is Some ==> *r.unwrap() == self.peers()[*key],
    {
        self.peers.get(key)
    }

    /// The known peers, in filing order, each with its key: the peer set to publish.
    pub fn peer_list(&self) -> (r: Vec<(NodeKey, &N)>)
        requires
            self.wf(),
        ensures
            r@.len() == self.peer_entries().len(),
            forall|i: int| 0 <= i < r@.len() ==> #[trigger] r@[i].0 == self.peer_entries()[i].0 && *r@[i].1
                == self.peer_entries()[i].1,
    {
        let mut r: Vec<(NodeKey, &N)> = Vec::new();
        let n = self.peers.len();
        let mut i: usize = 0;
        while i < n
            invariant
                n == self.peer_entries().len(),
                i <= n,
                r@.len() == i,
                forall|j: int| 0 <= j < i ==> #[trigger] r@[j].0 == self.peer_entries()[j].0 && *r@[j].1
                    == self.peer_entries()[j].1,
            decreases n - i,
        {
            r.push((self.peers.key_at(i), self.peers.value_at(i)));
            i = i + 1;
        }
        r
    }

    /// The answer to `request`: the key of the first known peer that `matches` it.
    fn lookup<F: Fn(&N, &Q) -> bool>(&self, request: &Q, matches: &F) -> (r: Option<NodeKey>)
        requires
            self.wf(),
            forall|n: &N, q: &Q| #[trigger] matches.requires((n, q)),
        ensures
            answers(self.peer_entries(), *matches, *request, r),
    {
        let n = self.peers.len();
        let mut i: usize = 0;
        while i < n
            invariant
                n == self.peer_entries().len(),
                i <= n,
                forall|m: &N, q: &Q| #[trigger] matches.requires((m, q)),
                forall|j: int| 0 <= j < i ==> #[trigger] matches.ensures((&self.peer_entries()[j].1, request), false),
            decreases n - i,
        {
            let node = self.peers.value_at(i);
            if matches(node, request) {
                return Some(self.peers.key_at(i));
            }
            i = i + 1;
        }
        None
    }

    /// Answer each of `requests`, in order, among the known peers.
    pub fn answer_requests<F: Fn(&N, &Q) -> bool>(&self, requests: Vec<Q>, matches: F) -> (r: Vec<(Q, Option<NodeKey>)>)
        requires
            self.wf(),
            forall|n: &N, q: &Q| #[trigger] matches.requires((n, q)),
        ensures
            r@.len() == requests@.len(),
            forall|j: int|
                0 <= j < r@.len() ==> (#[trigger] r@[j]).0 == requests@[j] && answers(
                    self.peer_entries(),
                    matches,
                    requests@[j],
                    r@[j].1,
                ),
    {
        let ghost all = requests@;
        let mut rest = requests;
        let mut r: Vec<(Q, Option<NodeKey>)> = Vec::new();
        let ghost mut k: int = 0;
        proof {
            assert(rest@ =~= all.subrange(0, all.len() as int));
        }
        while rest.len() > 0
            invariant
                self.wf(),
                forall|n: &N, q: &Q| #[trigger] matches.requires((n, q)),
                0 <= k <= all.len(),
                rest@ == all.subrange(k, all.len() as int),
                r@.len() == k,
                forall|j: int|
                    0 <= j < k ==> (#[trigger] r@[j]).0 == all[j] && answers(self.peer_entries(), matches, all[j], r@[j].1),
            decreases rest.len(),
        {
            let q = rest.remove(0);
            proof {
                assert(q == all[k]);
                assert(rest@ =~= all.subrange(k + 1, all.len() as int));
            }
            let answer = self.lookup(&q, &matches);
            r.push((q, answer));
            proof {
                k = k + 1;
            }
        }
        r
    }

    /// Apply an update from control as `handle_update` does, and answer the requests it
    /// releases among the updated peers: each held request gets exactly one answer.
    pub fn handle_update_and_answer<F: Fn(&N, &Q) -> bool>(&mut self, update: Option<PeerUpdate<N>>, matches: F) -> (r:
        Option<(PeerChanges, Vec<(Q, Option<NodeKey>)>)>)
        requires
            old(self).wf(),
            forall|n: &N, q: &Q| #[trigger] matches.requires((n, q)),
        ensures
            final(self).wf(),
            update is None ==> r is None && *final(self) == *old(self),
            update is Some ==> r is Some && update_applied(*old(self), *final(self), update.unwrap(), r.unwrap().0),
            update is Some ==> r.unwrap().1@.len() == old(self).pending().len() && forall|j: int|
                0 <= j < r.unwrap().1@.len() ==> (#[trigger] r.unwrap().1@[j]).0 == old(self).pending()[j]
                    && answers(final(self).peer_entries(), matches, old(self).pending()[j], r.unwrap().1@[j].1),
    {
        match self.handle_update(update) {
            None => None,
            Some(outcome) => {
                let answered = self.answer_requests(outcome.answer_now, matches);
                Some((outcome.changes, answered))
            },
        }
    }

    /// A request for a peer by name, answered at once among the known peers once an update
    /// has been seen; before that it is held (as `peer_by_name` does) and `None` is returned.
    pub fn peer_by_name_and_answer<F: Fn(&N, &Q) -> bool>(&mut self, request: Q, matches: F) -> (r: Option<
        (Q, Option<NodeKey>),
    >)
        requires
            old(self).wf(),
            forall|n: &N, q: &Q| #[trigger] matches.requires((n, q)),
        ensures
            final(self).wf(),
            final(self).peers() == old(self).peers(),
            final(self).peer_entries() == old(self).peer_entries(),
            final(self).ids() == old(self).ids(),
            final(self).seen_state_update() == old(self).seen_state_update(),
            !old(self).seen_state_update() ==> r is None && final(self).pending() == old(self).pending().push(request),
            old(self).seen_state_update() ==> r is Some && r.unwrap().0 == request && final(self).pending()
                == old(self).pending() && answers(old(self).peer_entries(), matches, request, r.unwrap().1),
    {
        match self.peer_by_name(request) {
            None => None,
            Some(q) => {
                let answer = self.lookup(&q, &matches);
                Some((q, answer))
            },
        }
    }

    /// A request for a peer by name. Before the first update the request is held, to be
    /// answered once that update has come, and `None` is returned; after it, the request is
    /// handed back to be answered now.
    pub fn peer_by_name(&mut self, request: Q) -> (r: Option<Q>)
        requires
            old(self).wf(),
        ensures
            final(self).wf(),
            final(self).peers() == old(self).peers(),
            final(self).peer_entries() == old(self).peer_entries(),
            final(self).ids() == old(self).ids(),
            final(self).seen_state_update() == old(self).seen_state_update(),
            old(self).seen_state_update() ==> r == Some(request) && final(self).pending() == old(self).pending(),
            !old(self).seen_state_update() ==> r is None && final(self).pending() == old(self).pending().push(request),
    {
        if !self.seen_state_update {
            self.pending_requests.push(request);
            return None;
        }
        Some(request)
    }

    /// The first known peer, in filing order, for which `matches` holds.
    pub fn find_peer<F: Fn(&N) -> bool>(&self, matches: F) -> (r: Option<&N>)
        requires
            self.wf(),
            forall|n: &N| #[trigger] matches.requires((n,)),
        ensures
            r is None ==> forall|i: int|
                0 <= i < self.peer_entries().len() ==> #[trigger] matches.ensures(
                    (&self.peer_entries()[i].1,),
                    false,
                ),
            r is Some ==> exists|i: int|
                0 <= i < self.peer_entries().len() && *r.unwrap() == self.peer_entries()[i].1
                    && matches.ensures((&self.peer_entries()[i].1,), true) && forall|j: int|
                    0 <= j < i ==> #[trigger] matches.ensures((&self.peer_entries()[j].1,), false),
    {
        let n = self.peers.len();
        let mut i: usize = 0;
        while i < n
            invariant
                n == self.peer_entries().len(),
                i <= n,
                forall|m: &N| #[trigger] matches.requires((m,)),
                forall|j: int| 0 <= j < i ==> #[trigger] matches.ensures((&self.peer_entries()[j].1,), false),
            decreases n - i,
        {
            let node = self.peers.value_at(i);
            if matches(node) {
                return Some(node);
            }
            i = i + 1;
        }
        None
    }

    /// Apply an update from control. An update without a peer change is ignored and gives
    /// `None`. Otherwise the peer set changes as `updated_maps` says, the changed keys come
    /// back, and with the first such update the held requests are handed back to be answered.
    pub fn handle_update(&mut self, update: Option<PeerUpdate<N>>) -> (r: Option<UpdateOutcome<Q>>)
        requires
            old(self).wf(),
        ensures
            final(self).wf(),
            update is None ==> r is None && *final(self) == *old(self),
            update is Some ==> r is Some && update_applied(*old(self), *final(self), update.unwrap(), r.unwrap().changes)
                && r.unwrap().answer_now@ == old(self).pending(),
    {
        broadcast use vstd::std_specs::hash::group_hash_axioms;

        let u = match update {
            None => return None,
            Some(u) => u,
        };
        let ghost gu = u;
        let ghost old_peers = self.peers.map();
        let ghost old_ids = self.id_to_nodekey@;
        let mut upserts: Vec<NodeKey> = Vec::new();
        let mut deletions: Vec<NodeKey>;
        match u {
            PeerUpdate::Full(nodes) => {
                deletions = self.peers.keys();
                self.peers.clear();
                self.id_to_nodekey.clear();
                let ghost all = nodes@;
                let ghost mut k: int = 0;
                let mut rest = nodes;
                proof {
                    assert(all.take(0) =~= Seq::<PeerEntry<N>>::empty());
                    assert(old_peers.dom().difference(Set::empty()) =~= old_peers.dom());
                    assert(rest@ =~= all.subrange(0, all.len() as int));
                }
                while rest.len() > 0
                    invariant
                        0 <= k <= all.len(),
                        rest@ == all.subrange(k, all.len() as int),
                        self.peers.wf(),
                        self.peers.map() == upserted_peers(Map::empty(), all.take(k)),
                        self.id_to_nodekey@ == upserted_ids(Map::empty(), all.take(k)),
                        upserts@.no_duplicates(),
                        upserts@.to_set() == keys_of(all.take(k)),
                        deletions@.no_duplicates(),
                        deletions@.to_set() == old_peers.dom().difference(keys_of(all.take(k))),
                        self.seen_state_update == old(self).seen_state_update,
                        self.pending_requests@ == old(self).pending_requests@,
                    decreases rest.len(),
                {
                    let e = rest.remove(0);
                    proof {
                        assert(e == all[k]);
                        assert(all.take(k + 1) =~= all.take(k).push(e));
                        lemma_upserted_push(Map::empty(), Map::empty(), all.take(k), e);
                        assert(old_peers.dom().difference(keys_of(all.take(k))).remove(e.node_key)
                            =~= old_peers.dom().difference(keys_of(all.take(k)).insert(e.node_key)));
                        assert(rest@ =~= all.subrange(k + 1, all.len() as int));
                    }
                    push_unique(&mut upserts, e.node_key);
                    remove_key(&mut deletions, &e.node_key);
                    self.id_to_nodekey.insert(e.id, e.node_key);
                    self.peers.insert(e.node_key, e.node);
                    proof {
                        k = k + 1;
                    }
                }
                proof {
                    assert(all.take(k) =~= all);
                }
            },
            PeerUpdate::Delta { remove, upsert } => {
                deletions = Vec::new();
                let ghost all = upsert@;
                let ghost mut k: int = 0;
                let mut rest = upsert;
                proof {
                    assert(all.take(0) =~= Seq::<PeerEntry<N>>::empty());
                    assert(rest@ =~= all.subrange(0, all.len() as int));
                }
                while rest.len() > 0
                    invariant
                        0 <= k <= all.len(),
                        rest@ == all.subrange(k, all.len() as int),
                        self.peers.wf(),
                        self.peers.map() == upserted_peers(old_peers, all.take(k)),
                        self.id_to_nodekey@ == upserted_ids(old_ids, all.take(k)),
                        upserts@.no_duplicates(),
                        upserts@.to_set() == keys_of(all.take(k)),
                        self.seen_state_update == old(self).seen_state_update,
                        self.pending_requests@ == old(self).pending_requests@,
                    decreases rest.len(),
                {
                    let e = rest.remove(0);
                    proof {
                        assert(e == all[k]);
                        assert(all.take(k + 1) =~= all.take(k).push(e));
                        lemma_upserted_push(old_peers, old_ids, all.take(k), e);
                        assert(rest@ =~= all.subrange(k + 1, all.len() as int));
                    }
                    self.id_to_nodekey.insert(e.id, e.node_key);
                    self.peers.insert(e.node_key, e.node);
                    push_unique(&mut upserts, e.node_key);
                    proof {
                        k = k + 1;
                    }
                }
                proof {
                    assert(all.take(k) =~= all);
                }
                let ghost p1 = self.peers.map();
                let ghost i1 = self.id_to_nodekey@;
                let n = remove.len();
                let mut j: usize = 0;
                proof {
                    assert(remove@.take(0) =~= Seq::<i64>::empty());
                }
                while j < n
                    invariant
                        n == remove@.len(),
                        j <= n,
                        self.peers.wf(),
                        removed(p1, i1, remove@.take(j as int)) == (
                            self.peers.map(),
                            self.id_to_nodekey@,
                            deletions@.to_set(),
                        ),
                        deletions@.no_duplicates(),
                        self.seen_state_update == old(self).seen_state_update,
                        self.pending_requests@ == old(self).pending_requests@,
                    decreases n - j,
                {
                    let id = remove[j];
                    proof {
                        assert(remove@.take(j + 1) =~= remove@.take(j as int).push(id));
                        lemma_removed_push(p1, i1, remove@.take(j as int), id);
                    }
                    match self.id_to_nodekey.remove(&id) {
                        Some(node_key) => {
                            let _ = self.peers.remove(&node_key);
                            push_unique(&mut deletions, node_key);
                        },
                        None => {},
                    }
                    j = j + 1;
                }
                proof {
                    assert(remove@.take(n as int) =~= remove@);
                }
            },
        }
        let mut answer_now: Vec<Q> = Vec::new();
        if !self.seen_state_update {
            self.seen_state_update = true;
            std::mem::swap(&mut answer_now, &mut self.pending_requests);
        }
        let changes = PeerChanges { upserts, deletions };
        assert(self.pending() =~= Seq::<Q>::empty());
        Some(UpdateOutcome { changes, answer_now })
    }
}

} // verus!
