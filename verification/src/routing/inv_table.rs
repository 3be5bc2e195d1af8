//! Inv table: maps modifier IDs to the peer that announced them.
//!
//! - `record(id, peer)`: afterwards `lookup(id) == Some(peer)`; the latest
//!   announcer wins.
//! - `lookup(id)`: the peer that most recently announced the modifier, or None.
//! - `purge_peer(peer)`: afterwards no entry maps to `peer`; the other entries stay.

use vstd::prelude::*;
use crate::types::{ModifierId, PeerId};
use crate::routing::assoc::{AssocMap, map_without_value, lemma_assoc_dom};

verus! {

pub struct InvTable {
    entries: AssocMap<ModifierId, PeerId>,
}

impl View for InvTable {
    type V = Map<ModifierId, PeerId>;

    closed spec fn view(&self) -> Map<ModifierId, PeerId> {
        self.entries.map()
    }
}

impl InvTable {
    #[verifier::type_invariant]
    closed spec fn inv(&self) -> bool {
        self.entries.wf()
    }

    pub fn new() -> (t: Self)
        ensures
            t@ == Map::<ModifierId, PeerId>::empty(),
    {
        Self { entries: AssocMap::new() }
    }

    /// Records that `peer` announced `modifier_id`.
    pub fn record(&mut self, modifier_id: ModifierId, peer: PeerId)
        ensures
            final(self)@ == old(self)@.insert(modifier_id, peer),
    {
        proof {
            use_type_invariant(&*self);
        }
        let mut entries = AssocMap::new();
        std::mem::swap(&mut entries, &mut self.entries);
        entries.insert(modifier_id, peer);
        self.entries = entries;
    }

    /// The peer that announced `modifier_id`, if any.
    pub fn lookup(&self, modifier_id: &ModifierId) -> (r: Option<PeerId>)
        ensures
            r == (if self@.dom().contains(*modifier_id) {
                Some(self@[*modifier_id])
            } else {
                None::<PeerId>
            }),
    {
        proof {
            use_type_invariant(self);
        }
        self.entries.get(modifier_id)
    }

    /// Removes every entry that maps to `peer`.
    pub fn purge_peer(&mut self, peer: PeerId)
        ensures
            final(self)@ == map_without_value(old(self)@, peer),
    {
        proof {
            use_type_invariant(&*self);
        }
        let mut entries = AssocMap::new();
        std::mem::swap(&mut entries, &mut self.entries);
        entries.remove_value(&peer);
        self.entries = entries;
    }

    pub fn is_empty(&self) -> (b: bool)
        ensures
            b == (self@ == Map::<ModifierId, PeerId>::empty()),
    {
        let n = self.entries.len();
        proof {
            if n > 0 {
                lemma_assoc_dom(self.entries.seq(), self.entries.seq()[0].0);
                assert(self@.dom().contains(self.entries.seq()[0].0));
            } else {
                assert(self.entries.seq() == Seq::<(ModifierId, PeerId)>::empty());
                assert(self@ == Map::<ModifierId, PeerId>::empty());
            }
        }
        n == 0
    }
}

/// After `record(id, peer)`, looking `id` up gives `peer`, and every other id
/// looks up as before.
pub proof fn lemma_record_lookup(before: Map<ModifierId, PeerId>, id: ModifierId, peer: PeerId, other: ModifierId)
    ensures
        before.insert(id, peer).dom().contains(id),
        before.insert(id, peer)[id] == peer,
        other != id ==> (before.insert(id, peer).dom().contains(other) <==> before.dom().contains(other)),
        other != id && before.dom().contains(other) ==> before.insert(id, peer)[other] == before[other],
{
}

/// After purging a peer, no entry maps to it.
pub proof fn lemma_purge_removes_peer(before: Map<ModifierId, PeerId>, peer: PeerId, id: ModifierId)
    requires
        map_without_value(before, peer).dom().contains(id),
    ensures
        map_without_value(before, peer)[id] != peer,
{
}

} // verus!
