//! Request tracker and SyncInfo tracker.
//!
//! RequestTracker: `record(id, peer)` notes that `peer` requested modifier `id`;
//! `fulfill(id)` returns and removes the requester; `purge_peer(peer)` removes
//! every request of `peer`.
//!
//! SyncTracker: `pair(inbound, outbound)` notes that `inbound`'s sync is handled
//! by `outbound`, dropping any earlier pairing of either peer on both sides; the
//! pairing is kept in both directions and the two directions always agree; `purge_peer(peer)` removes any pairing that involves `peer`.

use vstd::prelude::*;
use crate::types::{ModifierId, PeerId};
use crate::routing::assoc::{AssocMap, map_without_value};
use vstd::hash_map::HashMapWithView;

verus! {

broadcast use vstd::std_specs::hash::group_hash_axioms;

pub struct RequestTracker {
    pending: AssocMap<ModifierId, PeerId>,
}

impl View for RequestTracker {
    type V = Map<ModifierId, PeerId>;

    closed spec fn view(&self) -> Map<ModifierId, PeerId> {
        self.pending.map()
    }
}

impl RequestTracker {
    #[verifier::type_invariant]
    closed spec fn inv(&self) -> bool {
        self.pending.wf()
    }

    pub fn new() -> (t: Self)
        ensures
            t@ == Map::<ModifierId, PeerId>::empty(),
    {
        Self { pending: AssocMap::new() }
    }

    /// Records that `requester` asked for `modifier_id`.
    pub fn record(&mut self, modifier_id: ModifierId, requester: PeerId)
        ensures
            final(self)@ == old(self)@.insert(modifier_id, requester),
    {
        proof {
            use_type_invariant(&*self);
        }
        let mut pending = AssocMap::new();
        std::mem::swap(&mut pending, &mut self.pending);
        pending.insert(modifier_id, requester);
        self.pending = pending;
    }

    /// The peer waiting for `modifier_id`, if any.
    pub fn lookup(&self, modifier_id: &ModifierId) -> (r: Option<PeerId>)
        ensures
            r == (if self@.dom().contains(*modifier_id) {
                Some(self@[*modifier_id])
            } else {
                None::<PeerId>
            }),
    {
        proof {
            use_type_invariant(self);
        }
        self.pending.get(modifier_id)
    }

    /// Removes the request for `modifier_id` and returns its requester.
    pub fn fulfill(&mut self, modifier_id: &ModifierId) -> (r: Option<PeerId>)
        ensures
            final(self)@ == old(self)@.remove(*modifier_id),
            r == (if old(self)@.dom().contains(*modifier_id) {
                Some(old(self)@[*modifier_id])
            } else {
                None::<PeerId>
            }),
    {
        proof {
            use_type_invariant(&*self);
        }
        let mut pending = AssocMap::new();
        std::mem::swap(&mut pending, &mut self.pending);
        let r = pending.remove(modifier_id);
        self.pending = pending;
        r
    }

    /// Removes every request of `peer`.
    pub fn purge_peer(&mut self, peer: PeerId)
        ensures
            final(self)@ == map_without_value(old(self)@, peer),
    {
        proof {
            use_type_invariant(&*self);
        }
        let mut pending = AssocMap::new();
        std::mem::swap(&mut pending, &mut self.pending);
        pending.remove_value(&peer);
        self.pending = pending;
    }
}

/// A recorded request is fulfilled to its requester, and fulfilling it removes
/// it: the table is then as it was before, less any earlier request for the id.
pub proof fn lemma_record_fulfill(before: Map<ModifierId, PeerId>, id: ModifierId, requester: PeerId)
    ensures
        before.insert(id, requester).dom().contains(id),
        before.insert(id, requester)[id] == requester,
        before.insert(id, requester).remove(id) == before.remove(id),
{
    assert(before.insert(id, requester).remove(id) =~= before.remove(id));
}

/// The two directions of the sync pairings.
pub struct SyncView {
    /// inbound peer -> the outbound peer handling its sync
    pub to_outbound: Map<PeerId, PeerId>,
    /// outbound peer -> the inbound peer whose sync it handles
    pub to_inbound: Map<PeerId, PeerId>,
}

/// The two directions agree: each pairing is recorded both ways.
pub open spec fn pairs_consistent(to_outbound: Map<PeerId, PeerId>, to_inbound: Map<PeerId, PeerId>) -> bool {
    &&& forall|i: PeerId| #[trigger]
        to_outbound.dom().contains(i) ==> to_inbound.dom().contains(to_outbound[i])
            && to_inbound[to_outbound[i]] == i
    &&& forall|o: PeerId| #[trigger]
        to_inbound.dom().contains(o) ==> to_outbound.dom().contains(to_inbound[o])
            && to_outbound[to_inbound[o]] == o
}

/// The pairings after removing every pairing that involves `peer`.
pub open spec fn sync_purge(v: SyncView, peer: PeerId) -> SyncView {
    let a1 = v.to_outbound.remove(peer);
    let b1 = if v.to_outbound.dom().contains(peer) {
        v.to_inbound.remove(v.to_outbound[peer])
    } else {
        v.to_inbound
    };
    let a2 = if b1.dom().contains(peer) {
        a1.remove(b1[peer])
    } else {
        a1
    };
    let b2 = b1.remove(peer);
    SyncView { to_outbound: a2, to_inbound: b2 }
}

/// The pairings after pairing `inbound` with `outbound`: any earlier pairing
/// of either peer is dropped on both sides, then the new pairing is recorded
/// both ways.
pub open spec fn sync_pair(v: SyncView, inbound: PeerId, outbound: PeerId) -> SyncView {
    let w = sync_purge(sync_purge(v, inbound), outbound);
    SyncView {
        to_outbound: w.to_outbound.insert(inbound, outbound),
        to_inbound: w.to_inbound.insert(outbound, inbound),
    }
}

/// A table keyed by peer number, seen as a map on peers.
spec fn by_peer(m: Map<u64, PeerId>) -> Map<PeerId, PeerId> {
    Map::new(|p: PeerId| m.dom().contains(p.0), |p: PeerId| m[p.0])
}

proof fn lemma_by_peer_insert(m: Map<u64, PeerId>, k: PeerId, v: PeerId)
    ensures
        by_peer(m.insert(k.0, v)) == by_peer(m).insert(k, v),
{
    assert(by_peer(m.insert(k.0, v)) =~= by_peer(m).insert(k, v));
}

proof fn lemma_by_peer_remove(m: Map<u64, PeerId>, k: PeerId)
    ensures
        by_peer(m.remove(k.0)) == by_peer(m).remove(k),
{
    assert(by_peer(m.remove(k.0)) =~= by_peer(m).remove(k));
}

struct SyncMaps {
    inbound_to_outbound: HashMapWithView<u64, PeerId>,
    outbound_to_inbound: HashMapWithView<u64, PeerId>,
}

impl SyncMaps {
    fn empty() -> (m: Self)
        ensures
            by_peer(m.inbound_to_outbound@) == Map::<PeerId, PeerId>::empty(),
            by_peer(m.outbound_to_inbound@) == Map::<PeerId, PeerId>::empty(),
    {
        let m = SyncMaps { inbound_to_outbound: HashMapWithView::new(), outbound_to_inbound: HashMapWithView::new() };
        assert(by_peer(m.inbound_to_outbound@) =~= Map::<PeerId, PeerId>::empty());
        assert(by_peer(m.outbound_to_inbound@) =~= Map::<PeerId, PeerId>::empty());
        m
    }
}

pub struct SyncTracker {
    maps: SyncMaps,
}

impl View for SyncTracker {
    type V = SyncView;

    closed spec fn view(&self) -> SyncView {
        SyncView {
            to_outbound: by_peer(self.maps.inbound_to_outbound@),
            to_inbound: by_peer(self.maps.outbound_to_inbound@),
        }
    }
}

impl SyncTracker {
    #[verifier::type_invariant]
    closed spec fn inv(&self) -> bool {
        pairs_consistent(by_peer(self.maps.inbound_to_outbound@), by_peer(self.maps.outbound_to_inbound@))
    }

    pub fn new() -> (t: Self)
        ensures
            t@.to_outbound == Map::<PeerId, PeerId>::empty(),
            t@.to_inbound == Map::<PeerId, PeerId>::empty(),
            pairs_consistent(t@.to_outbound, t@.to_inbound),
    {
        Self { maps: SyncMaps::empty() }
    }

    /// Records that `inbound`'s sync is handled by `outbound`, dropping any
    /// earlier pairing of either peer on both sides.
    pub fn pair(&mut self, inbound: PeerId, outbound: PeerId)
        ensures
            final(self)@ == sync_pair(old(self)@, inbound, outbound),
            pairs_consistent(final(self)@.to_outbound, final(self)@.to_inbound),
    {
        self.purge_peer(inbound);
        self.purge_peer(outbound);
        proof {
            use_type_invariant(&*self);
            lemma_pair_consistent(self@, inbound, outbound);
            lemma_by_peer_insert(self.maps.inbound_to_outbound@, inbound, outbound);
            lemma_by_peer_insert(self.maps.outbound_to_inbound@, outbound, inbound);
        }
        let mut maps = SyncMaps::empty();
        std::mem::swap(&mut maps, &mut self.maps);
        maps.inbound_to_outbound.insert(inbound.0, outbound);
        maps.outbound_to_inbound.insert(outbound.0, inbound);
        self.maps = maps;
    }

    /// The outbound peer handling `inbound`'s sync, if any.
    pub fn outbound_for(&self, inbound: &PeerId) -> (r: Option<PeerId>)
        ensures
            r == (if self@.to_outbound.dom().contains(*inbound) {
                Some(self@.to_outbound[*inbound])
            } else {
                None::<PeerId>
            }),
    {
        match self.maps.inbound_to_outbound.get(&inbound.0) {
            Some(o) => Some(*o),
            None => None,
        }
    }

    /// The inbound peer whose sync `outbound` handles, if any.
    pub fn inbound_for(&self, outbound: &PeerId) -> (r: Option<PeerId>)
        ensures
            r == (if self@.to_inbound.dom().contains(*outbound) {
                Some(self@.to_inbound[*outbound])
            } else {
                None::<PeerId>
            }),
    {
        match self.maps.outbound_to_inbound.get(&outbound.0) {
            Some(i) => Some(*i),
            None => None,
        }
    }

    /// Removes any pairing involving `peer`, on either side.
    pub fn purge_peer(&mut self, peer: PeerId)
        ensures
            final(self)@ == sync_purge(old(self)@, peer),
            pairs_consistent(final(self)@.to_outbound, final(self)@.to_inbound),
    {
        proof {
            use_type_invariant(&*self);
            lemma_sync_purge_forgets(self@, peer);
        }
        let ghost v = self@;
        let mut maps = SyncMaps::empty();
        std::mem::swap(&mut maps, &mut self.maps);
        let ghost a0 = maps.inbound_to_outbound@;
        let ghost b0 = maps.outbound_to_inbound@;
        if let Some(outbound) = maps.inbound_to_outbound.remove(&peer.0) {
            proof {
                lemma_by_peer_remove(a0, peer);
            }
            let ghost b = maps.outbound_to_inbound@;
            if maps.outbound_to_inbound.remove(&outbound.0).is_some() {
                proof {
                    lemma_by_peer_remove(b, outbound);
                }
            }
        }
        let ghost a1 = maps.inbound_to_outbound@;
        let ghost b1 = maps.outbound_to_inbound@;
        if let Some(inbound) = maps.outbound_to_inbound.remove(&peer.0) {
            proof {
                lemma_by_peer_remove(b1, peer);
            }
            let ghost a = maps.inbound_to_outbound@;
            if maps.inbound_to_outbound.remove(&inbound.0).is_some() {
                proof {
                    lemma_by_peer_remove(a, inbound);
                }
            }
        }
        assert(by_peer(maps.inbound_to_outbound@) =~= sync_purge(v, peer).to_outbound);
        assert(by_peer(maps.outbound_to_inbound@) =~= sync_purge(v, peer).to_inbound);
        self.maps = maps;
    }
}

/// After `purge_peer`, no pairing involves the peer, on either side, as key or value.
pub proof fn lemma_sync_purge_forgets(v: SyncView, peer: PeerId)
    requires
        pairs_consistent(v.to_outbound, v.to_inbound),
    ensures
        !sync_purge(v, peer).to_outbound.dom().contains(peer),
        !sync_purge(v, peer).to_inbound.dom().contains(peer),
        forall|i: PeerId| #[trigger]
            sync_purge(v, peer).to_outbound.dom().contains(i) ==> sync_purge(v, peer).to_outbound[i]
                != peer,
        forall|o: PeerId| #[trigger]
            sync_purge(v, peer).to_inbound.dom().contains(o) ==> sync_purge(v, peer).to_inbound[o]
                != peer,
        pairs_consistent(sync_purge(v, peer).to_outbound, sync_purge(v, peer).to_inbound),
{
}

/// Recording a pairing on tables that agree keeps them in agreement.
proof fn lemma_pair_consistent(w: SyncView, inbound: PeerId, outbound: PeerId)
    requires
        pairs_consistent(w.to_outbound, w.to_inbound),
        !w.to_outbound.dom().contains(inbound),
        !w.to_inbound.dom().contains(outbound),
        forall|k: PeerId| #[trigger] w.to_outbound.dom().contains(k) ==> w.to_outbound[k] != outbound,
        forall|k: PeerId| #[trigger] w.to_inbound.dom().contains(k) ==> w.to_inbound[k] != inbound,
    ensures
        pairs_consistent(w.to_outbound.insert(inbound, outbound), w.to_inbound.insert(outbound, inbound)),
{
}

/// Pairing always leaves the two directions in agreement: afterwards each
/// peer finds the other, an earlier partner of either is no longer paired
/// with it, and every other pairing is one that was there before.
pub proof fn lemma_pair_lookup(v: SyncView, inbound: PeerId, outbound: PeerId)
    requires
        pairs_consistent(v.to_outbound, v.to_inbound),
    ensures
        ({
            let w = sync_pair(v, inbound, outbound);
            &&& pairs_consistent(w.to_outbound, w.to_inbound)
            &&& w.to_outbound.dom().contains(inbound) && w.to_outbound[inbound] == outbound
            &&& w.to_inbound.dom().contains(outbound) && w.to_inbound[outbound] == inbound
            &&& v.to_outbound.dom().contains(inbound) && v.to_outbound[inbound] != outbound
                ==> !w.to_inbound.dom().contains(v.to_outbound[inbound])
            &&& v.to_inbound.dom().contains(outbound) && v.to_inbound[outbound] != inbound
                ==> !w.to_outbound.dom().contains(v.to_inbound[outbound])
            &&& forall|k: PeerId| #[trigger]
                w.to_outbound.dom().contains(k) && k != inbound ==> v.to_outbound.dom().contains(k)
                    && w.to_outbound[k] == v.to_outbound[k]
            &&& forall|k: PeerId| #[trigger]
                w.to_inbound.dom().contains(k) && k != outbound ==> v.to_inbound.dom().contains(k)
                    && w.to_inbound[k] == v.to_inbound[k]
        }),
{
    let w1 = sync_purge(v, inbound);
    lemma_sync_purge_forgets(v, inbound);
    let w2 = sync_purge(w1, outbound);
    lemma_sync_purge_forgets(w1, outbound);
    lemma_pair_consistent(w2, inbound, outbound);
}

} // verus!
