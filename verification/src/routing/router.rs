//! Message routing: forwarding decisions, mode filtering, peer registry.
//!
//! - Inv and unknown messages go to every registered peer of the opposite
//!   direction (not back to the source); Inv ids are recorded in the Inv table.
//! - A ModifierRequest goes, id by id, to the peer that announced the id.
//! - A ModifierResponse goes, modifier by modifier, to the peer that requested it.
//! - SyncInfo from an inbound peer goes to the outbound peer it is paired with;
//!   an inbound peer not yet paired is first paired with the first outbound
//!   peer not yet paired. SyncInfo from an outbound peer goes to its paired
//!   inbound peer. Peers registered in Light mode have their SyncInfo and their
//!   requests for block sections dropped.
//! - GetPeers is answered directly with an empty Peers message.
//! - A disconnect removes the peer from the registry and from every table.
//! - Invariant: every table refers only to registered peers, and every action
//!   targets a registered peer.

use vstd::prelude::*;
use crate::types::{Direction, ModifierId, PeerId, ProxyMode};
use crate::protocol::messages::{
    ProtocolMessage, MessageView, is_block_modifier, is_block_modifier_type,
};
use crate::protocol::peer::{ProtocolEvent, EventView};
use crate::routing::assoc::{
    AssocMap, assoc_map, seq_insert, seq_remove_key, map_without_value, has_key, keys_distinct,
    lemma_assoc_dom, lemma_assoc_value, lemma_seq_remove_key, lemma_seq_insert,
};
use crate::routing::inv_table::InvTable;
use crate::routing::tracker::{
    RequestTracker, SyncTracker, SyncView, pairs_consistent, sync_pair, sync_purge, lemma_pair_lookup,
    lemma_sync_purge_forgets,
};

verus! {

/// How a registered peer is connected and through which listener mode.
#[derive(Debug, Clone, Copy, PartialEq, Eq, Structural)]
pub struct PeerEntry {
    pub direction: Direction,
    pub mode: ProxyMode,
}

/// A routing directive: send a message to a specific peer.
#[derive(Debug)]
pub enum Action {
    Send { target: PeerId, message: ProtocolMessage },
}

impl View for Action {
    type V = (PeerId, MessageView);

    open spec fn view(&self) -> (PeerId, MessageView) {
        match self {
            Action::Send { target, message } => (*target, message@),
        }
    }
}

/// The content of a router: its registry of peers in registration order, and
/// its tables.
pub struct RouterView {
    pub registry: Seq<(PeerId, PeerEntry)>,
    pub inv: Map<ModifierId, PeerId>,
    pub requests: Map<ModifierId, PeerId>,
    pub sync: SyncView,
}

/// The registered peers.
pub open spec fn peer_map(v: RouterView) -> Map<PeerId, PeerEntry> {
    assoc_map(v.registry)
}

/// The direction opposite to `d`.
pub open spec fn opposite(d: Direction) -> Direction {
    match d {
        Direction::Outbound => Direction::Inbound,
        Direction::Inbound => Direction::Outbound,
    }
}

/// Every table refers only to registered peers, the registry has no peer
/// twice, and the sync pairings agree in both directions.
pub open spec fn router_consistent(v: RouterView) -> bool {
    let pm = peer_map(v);
    &&& keys_distinct(v.registry)
    &&& forall|id: ModifierId| #[trigger] v.inv.dom().contains(id) ==> pm.dom().contains(v.inv[id])
    &&& forall|id: ModifierId| #[trigger]
        v.requests.dom().contains(id) ==> pm.dom().contains(v.requests[id])
    &&& forall|p: PeerId| #[trigger]
        v.sync.to_outbound.dom().contains(p) ==> pm.dom().contains(p) && pm.dom().contains(
            v.sync.to_outbound[p],
        )
    &&& pairs_consistent(v.sync.to_outbound, v.sync.to_inbound)
}

/// `msg` to every peer of the registry with direction `dir`, other than `source`,
/// in registry order.
pub open spec fn fanout(reg: Seq<(PeerId, PeerEntry)>, source: PeerId, dir: Direction, msg: MessageView) -> Seq<(PeerId, MessageView)>
    decreases reg.len(),
{
    if reg.len() == 0 {
        seq![]
    } else {
        let rest = fanout(reg.drop_last(), source, dir, msg);
        if reg.last().0 != source && reg.last().1.direction == dir {
            rest.push((reg.last().0, msg))
        } else {
            rest
        }
    }
}

/// The Inv table after `source` announced `ids`.
pub open spec fn record_all(inv: Map<ModifierId, PeerId>, ids: Seq<ModifierId>, source: PeerId) -> Map<ModifierId, PeerId>
    decreases ids.len(),
{
    if ids.len() == 0 {
        inv
    } else {
        record_all(inv, ids.drop_last(), source).insert(ids.last(), source)
    }
}

/// Routing a ModifierRequest from `source`, id by id: each id announced by a
/// peer other than `source` is requested from that peer, and `source` is noted
/// as its requester. The request table after, and the actions.
pub open spec fn route_requests(
    inv: Map<ModifierId, PeerId>,
    requests: Map<ModifierId, PeerId>,
    source: PeerId,
    modifier_type: u8,
    ids: Seq<ModifierId>,
) -> (Map<ModifierId, PeerId>, Seq<(PeerId, MessageView)>)
    decreases ids.len(),
{
    if ids.len() == 0 {
        (requests, seq![])
    } else {
        let (r, a) = route_requests(inv, requests, source, modifier_type, ids.drop_last());
        let id = ids.last();
        if inv.dom().contains(id) && inv[id] != source {
            (
                r.insert(id, source),
                a.push((inv[id], MessageView::ModifierRequest { modifier_type, ids: seq![id] })),
            )
        } else {
            (r, a)
        }
    }
}

/// Routing a ModifierResponse, modifier by modifier: each modifier with a
/// pending request goes to its requester and the request is removed. The
/// request table after, and the actions.
pub open spec fn route_responses(
    requests: Map<ModifierId, PeerId>,
    modifier_type: u8,
    mods: Seq<(ModifierId, Seq<u8>)>,
) -> (Map<ModifierId, PeerId>, Seq<(PeerId, MessageView)>)
    decreases mods.len(),
{
    if mods.len() == 0 {
        (requests, seq![])
    } else {
        let (r, a) = route_responses(requests, modifier_type, mods.drop_last());
        let m = mods.last();
        if r.dom().contains(m.0) {
            (
                r.remove(m.0),
                a.push((r[m.0], MessageView::ModifierResponse { modifier_type, modifiers: seq![m] })),
            )
        } else {
            (r, a)
        }
    }
}

/// The first outbound peer of the registry that handles no inbound peer's sync.
pub open spec fn first_unpaired_outbound(reg: Seq<(PeerId, PeerEntry)>, sync: SyncView) -> Option<PeerId>
    decreases reg.len(),
{
    if reg.len() == 0 {
        None
    } else if reg[0].1.direction == Direction::Outbound && !sync.to_inbound.dom().contains(reg[0].0) {
        Some(reg[0].0)
    } else {
        first_unpaired_outbound(reg.drop_first(), sync)
    }
}

/// Routing a message from `source`: the router after, and the actions. A
/// message from an unregistered peer changes nothing and goes nowhere.
pub open spec fn spec_route(v: RouterView, source: PeerId, m: MessageView) -> (RouterView, Seq<(PeerId, MessageView)>) {
    let pm = peer_map(v);
    if !pm.dom().contains(source) {
        (v, seq![])
    } else {
        let e = pm[source];
        match m {
            MessageView::Inv { modifier_type, ids } => (
                RouterView { inv: record_all(v.inv, ids, source), ..v },
                fanout(v.registry, source, opposite(e.direction), m),
            ),
            MessageView::ModifierRequest { modifier_type, ids } => if e.mode == ProxyMode::Light
                && is_block_modifier(modifier_type) {
                (v, seq![])
            } else {
                let (r, a) = route_requests(v.inv, v.requests, source, modifier_type, ids);
                (RouterView { requests: r, ..v }, a)
            },
            MessageView::ModifierResponse { modifier_type, modifiers } => {
                let (r, a) = route_responses(v.requests, modifier_type, modifiers);
                (RouterView { requests: r, ..v }, a)
            },
            MessageView::SyncInfo { body } => if e.mode == ProxyMode::Light {
                (v, seq![])
            } else {
                match e.direction {
                    Direction::Inbound => if v.sync.to_outbound.dom().contains(source) {
                        (v, seq![(v.sync.to_outbound[source], m)])
                    } else {
                        match first_unpaired_outbound(v.registry, v.sync) {
                            Some(o) => (RouterView { sync: sync_pair(v.sync, source, o), ..v }, seq![(o, m)]),
                            None => (v, seq![]),
                        }
                    },
                    Direction::Outbound => if v.sync.to_inbound.dom().contains(source) {
                        (v, seq![(v.sync.to_inbound[source], m)])
                    } else {
                        (v, seq![])
                    },
                }
            },
            MessageView::GetPeers => (v, seq![(source, MessageView::Peers { body: seq![] })]),
            MessageView::Peers { .. } => (v, seq![]),
            MessageView::Unknown { .. } => (v, fanout(v.registry, source, opposite(e.direction), m)),
        }
    }
}

/// Handling an event: the router after, and the actions.
pub open spec fn spec_handle(v: RouterView, ev: EventView) -> (RouterView, Seq<(PeerId, MessageView)>) {
    match ev {
        EventView::PeerConnected { .. } => (v, seq![]),
        EventView::PeerDisconnected { peer_id, .. } => (
            RouterView {
                registry: seq_remove_key(v.registry, peer_id),
                inv: map_without_value(v.inv, peer_id),
                requests: map_without_value(v.requests, peer_id),
                sync: sync_purge(v.sync, peer_id),
            },
            seq![],
        ),
        EventView::Message { peer_id, message } => spec_route(v, peer_id, message),
    }
}

// ---------------------------------------------------------------------------
// Laws of routing
// ---------------------------------------------------------------------------

/// Every action targets a registered peer.
pub open spec fn targets_registered(v: RouterView, actions: Seq<(PeerId, MessageView)>) -> bool {
    forall|i: int| 0 <= i < actions.len() ==> peer_map(v).dom().contains(#[trigger] actions[i].0)
}

proof fn lemma_fanout_targets(reg: Seq<(PeerId, PeerEntry)>, source: PeerId, dir: Direction, msg: MessageView)
    ensures
        forall|i: int|
            0 <= i < fanout(reg, source, dir, msg).len() ==> {
                let a = #[trigger] fanout(reg, source, dir, msg)[i];
                &&& has_key(reg, a.0)
                &&& a.0 != source
                &&& a.1 == msg
            },
    decreases reg.len(),
{
    if reg.len() > 0 {
        let d = reg.drop_last();
        lemma_fanout_targets(d, source, dir, msg);
        let f = fanout(reg, source, dir, msg);
        assert forall|i: int| 0 <= i < f.len() implies has_key(reg, #[trigger] f[i].0) by {
            if i < fanout(d, source, dir, msg).len() {
                let j = choose|j: int| 0 <= j < d.len() && d[j].0 == f[i].0;
                assert(reg[j].0 == f[i].0);
            } else {
                assert(reg[reg.len() - 1].0 == f[i].0);
            }
        }
    }
}

proof fn lemma_fanout_directions(reg: Seq<(PeerId, PeerEntry)>, source: PeerId, dir: Direction, msg: MessageView)
    ensures
        forall|i: int|
            0 <= i < fanout(reg, source, dir, msg).len() ==> exists|j: int|
                0 <= j < reg.len() && reg[j].0 == (#[trigger] fanout(reg, source, dir, msg)[i]).0
                    && reg[j].1.direction == dir,
    decreases reg.len(),
{
    if reg.len() > 0 {
        let d = reg.drop_last();
        lemma_fanout_directions(d, source, dir, msg);
        let f = fanout(reg, source, dir, msg);
        assert forall|i: int| 0 <= i < f.len() implies exists|j: int|
            0 <= j < reg.len() && reg[j].0 == (#[trigger] f[i]).0 && reg[j].1.direction == dir by {
            if i < fanout(d, source, dir, msg).len() {
                let j = choose|j: int|
                    0 <= j < d.len() && d[j].0 == fanout(d, source, dir, msg)[i].0 && d[j].1.direction == dir;
                assert(reg[j] == d[j]);
            } else {
                assert(reg[reg.len() - 1].0 == f[i].0);
            }
        }
    }
}

proof fn lemma_fanout_complete(reg: Seq<(PeerId, PeerEntry)>, source: PeerId, dir: Direction, msg: MessageView, j: int)
    requires
        0 <= j < reg.len(),
        reg[j].0 != source,
        reg[j].1.direction == dir,
    ensures
        exists|i: int| 0 <= i < fanout(reg, source, dir, msg).len() && (#[trigger] fanout(reg, source, dir, msg)[i]).0 == reg[j].0,
    decreases reg.len(),
{
    let f = fanout(reg, source, dir, msg);
    if j == reg.len() - 1 {
        assert(f[f.len() - 1].0 == reg[j].0);
    } else {
        let d = reg.drop_last();
        lemma_fanout_complete(d, source, dir, msg, j);
        let fd = fanout(d, source, dir, msg);
        let i = choose|i: int| 0 <= i < fd.len() && (#[trigger] fd[i]).0 == d[j].0;
        assert(f[i] == fd[i]);
    }
}

proof fn lemma_fanout_distinct(reg: Seq<(PeerId, PeerEntry)>, source: PeerId, dir: Direction, msg: MessageView)
    requires
        keys_distinct(reg),
    ensures
        forall|i: int, k: int|
            0 <= i < k < fanout(reg, source, dir, msg).len() ==> (#[trigger] fanout(reg, source, dir, msg)[i]).0
                != (#[trigger] fanout(reg, source, dir, msg)[k]).0,
    decreases reg.len(),
{
    if reg.len() > 0 {
        let d = reg.drop_last();
        lemma_fanout_distinct(d, source, dir, msg);
        lemma_fanout_targets(d, source, dir, msg);
        let fd = fanout(d, source, dir, msg);
        let f = fanout(reg, source, dir, msg);
        assert forall|i: int, k: int| 0 <= i < k < f.len() implies (#[trigger] f[i]).0 != (#[trigger] f[k]).0 by {
            if k < fd.len() {
                assert(f[i] == fd[i] && f[k] == fd[k]);
            } else {
                assert(f[i] == fd[i]);
                assert(has_key(d, fd[i].0));
                let jj = choose|jj: int| 0 <= jj < d.len() && d[jj].0 == fd[i].0;
                assert(reg[jj].0 != reg[reg.len() - 1].0);
            }
        }
    }
}

proof fn lemma_record_all_ids(inv: Map<ModifierId, PeerId>, ids: Seq<ModifierId>, source: PeerId)
    ensures
        forall|k: int| 0 <= k < ids.len() ==> record_all(inv, ids, source).dom().contains(#[trigger] ids[k])
            && record_all(inv, ids, source)[ids[k]] == source,
    decreases ids.len(),
{
    if ids.len() > 0 {
        let d = ids.drop_last();
        lemma_record_all_ids(inv, d, source);
        assert forall|k: int| 0 <= k < ids.len() implies record_all(inv, ids, source).dom().contains(#[trigger] ids[k])
            && record_all(inv, ids, source)[ids[k]] == source by {
            if k < d.len() {
                assert(ids[k] == d[k]);
            }
        }
    }
}

/// Inv and unknown messages are relayed unchanged to every registered peer of
/// the direction opposite to their source's, once each, and to no one else
/// (never back to the source). An Inv also attributes each of its ids to its
/// source.
pub proof fn lemma_gossip_targets(v: RouterView, source: PeerId, m: MessageView)
    requires
        router_consistent(v),
        peer_map(v).dom().contains(source),
        m is Inv || m is Unknown,
    ensures
        ({
            let acts = spec_route(v, source, m).1;
            let pm = peer_map(v);
            let dir = opposite(pm[source].direction);
            &&& forall|i: int|
                0 <= i < acts.len() ==> {
                    &&& (#[trigger] acts[i]).0 != source
                    &&& acts[i].1 == m
                    &&& pm.dom().contains(acts[i].0)
                    &&& pm[acts[i].0].direction == dir
                }
            &&& forall|p: PeerId|
                pm.dom().contains(p) && p != source && #[trigger] pm[p].direction == dir ==> exists|i: int|
                    0 <= i < acts.len() && (#[trigger] acts[i]).0 == p
            &&& forall|i: int, k: int| 0 <= i < k < acts.len() ==> (#[trigger] acts[i]).0 != (#[trigger] acts[k]).0
            &&& m matches MessageView::Inv { ids, .. } ==> forall|k: int|
                0 <= k < ids.len() ==> spec_route(v, source, m).0.inv.dom().contains(#[trigger] ids[k])
                    && spec_route(v, source, m).0.inv[ids[k]] == source
        }),
{
    let pm = peer_map(v);
    let dir = opposite(pm[source].direction);
    let acts = spec_route(v, source, m).1;
    assert(acts == fanout(v.registry, source, dir, m));
    lemma_fanout_targets(v.registry, source, dir, m);
    lemma_fanout_directions(v.registry, source, dir, m);
    lemma_fanout_distinct(v.registry, source, dir, m);
    assert forall|i: int| 0 <= i < acts.len() implies pm.dom().contains((#[trigger] acts[i]).0)
        && pm[acts[i].0].direction == dir by {
        let j = choose|j: int| 0 <= j < v.registry.len() && v.registry[j].0 == acts[i].0 && v.registry[j].1.direction == dir;
        lemma_assoc_value(v.registry, j);
    }
    assert forall|p: PeerId| pm.dom().contains(p) && p != source && #[trigger] pm[p].direction == dir implies exists|i: int|
        0 <= i < acts.len() && (#[trigger] acts[i]).0 == p by {
        lemma_assoc_dom(v.registry, p);
        let j = choose|j: int| 0 <= j < v.registry.len() && v.registry[j].0 == p;
        lemma_assoc_value(v.registry, j);
        lemma_fanout_complete(v.registry, source, dir, m, j);
    }
    if let MessageView::Inv { ids, .. } = m {
        lemma_record_all_ids(v.inv, ids, source);
    }
}

proof fn lemma_record_all_values(inv: Map<ModifierId, PeerId>, ids: Seq<ModifierId>, source: PeerId)
    ensures
        forall|id: ModifierId| #[trigger]
            record_all(inv, ids, source).dom().contains(id) ==> record_all(inv, ids, source)[id] == source
                || (inv.dom().contains(id) && record_all(inv, ids, source)[id] == inv[id]),
    decreases ids.len(),
{
    if ids.len() > 0 {
        lemma_record_all_values(inv, ids.drop_last(), source);
        let prev = record_all(inv, ids.drop_last(), source);
        let cur = record_all(inv, ids, source);
        assert forall|id: ModifierId| #[trigger] cur.dom().contains(id) implies cur[id] == source || (
        inv.dom().contains(id) && cur[id] == inv[id]) by {
            if id != ids.last() {
                assert(prev.dom().contains(id));
            }
        }
    }
}

proof fn lemma_route_requests_values(
    inv: Map<ModifierId, PeerId>,
    requests: Map<ModifierId, PeerId>,
    source: PeerId,
    modifier_type: u8,
    ids: Seq<ModifierId>,
)
    ensures
        ({
            let (r, a) = route_requests(inv, requests, source, modifier_type, ids);
            &&& forall|id: ModifierId| #[trigger]
                r.dom().contains(id) ==> r[id] == source || (requests.dom().contains(id) && r[id]
                    == requests[id])
            &&& forall|i: int|
                0 <= i < a.len() ==> exists|id: ModifierId| #[trigger]
                    inv.dom().contains(id) && inv[id] == (#[trigger] a[i]).0
        }),
    decreases ids.len(),
{
    if ids.len() > 0 {
        lemma_route_requests_values(inv, requests, source, modifier_type, ids.drop_last());
        let (r, a) = route_requests(inv, requests, source, modifier_type, ids.drop_last());
        let id = ids.last();
        if inv.dom().contains(id) && inv[id] != source {
            let a2 = a.push((inv[id], MessageView::ModifierRequest { modifier_type, ids: seq![id] }));
            assert forall|i: int| 0 <= i < a2.len() implies exists|x: ModifierId| #[trigger]
                inv.dom().contains(x) && inv[x] == (#[trigger] a2[i]).0 by {
                if i < a.len() {
                    assert(a2[i] == a[i]);
                } else {
                    assert(inv.dom().contains(id) && inv[id] == a2[i].0);
                }
            }
        }
    }
}

/// The id of the single modifier an action of `route_responses` carries.
spec fn response_id(m: MessageView) -> ModifierId {
    match m {
        MessageView::ModifierResponse { modifiers, .. } => modifiers[0].0,
        _ => arbitrary(),
    }
}

proof fn lemma_route_responses_values(
    requests: Map<ModifierId, PeerId>,
    modifier_type: u8,
    mods: Seq<(ModifierId, Seq<u8>)>,
)
    ensures
        ({
            let (r, a) = route_responses(requests, modifier_type, mods);
            &&& forall|id: ModifierId| #[trigger]
                r.dom().contains(id) ==> requests.dom().contains(id) && r[id] == requests[id]
            &&& forall|i: int|
                0 <= i < a.len() ==> requests.dom().contains(response_id((#[trigger] a[i]).1))
                    && requests[response_id(a[i].1)] == a[i].0
        }),
    decreases mods.len(),
{
    if mods.len() > 0 {
        lemma_route_responses_values(requests, modifier_type, mods.drop_last());
        let (r, a) = route_responses(requests, modifier_type, mods.drop_last());
        let m = mods.last();
        if r.dom().contains(m.0) {
            let r2 = r.remove(m.0);
            assert forall|id: ModifierId| #[trigger] r2.dom().contains(id) implies requests.dom().contains(id)
                && r2[id] == requests[id] by {
                assert(r.dom().contains(id));
            }
            let a2 = a.push((r[m.0], MessageView::ModifierResponse { modifier_type, modifiers: seq![m] }));
            assert forall|i: int| 0 <= i < a2.len() implies requests.dom().contains(
                response_id((#[trigger] a2[i]).1),
            ) && requests[response_id(a2[i].1)] == a2[i].0 by {
                if i < a.len() {
                    assert(a2[i] == a[i]);
                } else {
                    assert(response_id(a2[i].1) == m.0);
                }
            }
            assert(route_responses(requests, modifier_type, mods) == (r2, a2));
        } else {
            assert(route_responses(requests, modifier_type, mods) == (r, a));
        }
    }
}

proof fn lemma_first_unpaired_outbound(reg: Seq<(PeerId, PeerEntry)>, sync: SyncView)
    ensures
        first_unpaired_outbound(reg, sync) matches Some(o) ==> {
            &&& has_key(reg, o)
            &&& exists|j: int| 0 <= j < reg.len() && reg[j].0 == o && reg[j].1.direction == Direction::Outbound
            &&& !sync.to_inbound.dom().contains(o)
        },
    decreases reg.len(),
{
    if reg.len() > 0 {
        lemma_first_unpaired_outbound(reg.drop_first(), sync);
        if let Some(o) = first_unpaired_outbound(reg, sync) {
            if reg[0].0 != o || reg[0].1.direction != Direction::Outbound || sync.to_inbound.dom().contains(
                reg[0].0,
            ) {
                let j = choose|j: int|
                    0 <= j < reg.drop_first().len() && reg.drop_first()[j].0 == o
                        && reg.drop_first()[j].1.direction == Direction::Outbound;
                assert(reg[j + 1].0 == o && reg[j + 1].1.direction == Direction::Outbound);
            } else {
                assert(reg[0].0 == o);
            }
        }
    }
}

/// Routing a message keeps the router consistent and sends only to registered peers.
pub proof fn lemma_route_consistent(v: RouterView, source: PeerId, m: MessageView)
    requires
        router_consistent(v),
    ensures
        router_consistent(spec_route(v, source, m).0),
        targets_registered(v, spec_route(v, source, m).1),
        spec_route(v, source, m).0.registry == v.registry,
{
    let pm = peer_map(v);
    let (w, acts) = spec_route(v, source, m);
    if pm.dom().contains(source) {
        let e = pm[source];
        match m {
            MessageView::Inv { modifier_type, ids } => {
                lemma_record_all_values(v.inv, ids, source);
                lemma_fanout_targets(v.registry, source, opposite(e.direction), m);
                assert forall|i: int| 0 <= i < acts.len() implies pm.dom().contains(#[trigger] acts[i].0) by {
                    lemma_assoc_dom(v.registry, acts[i].0);
                }
            },
            MessageView::ModifierRequest { modifier_type, ids } => {
                lemma_route_requests_values(v.inv, v.requests, source, modifier_type, ids);
                assert forall|i: int| 0 <= i < acts.len() implies pm.dom().contains(#[trigger] acts[i].0) by {
                    let id = choose|id: ModifierId| #[trigger] v.inv.dom().contains(id) && v.inv[id] == acts[i].0;
                }
            },
            MessageView::ModifierResponse { modifier_type, modifiers } => {
                lemma_route_responses_values(v.requests, modifier_type, modifiers);
                assert forall|i: int| 0 <= i < acts.len() implies pm.dom().contains(#[trigger] acts[i].0) by {
                    assert(v.requests.dom().contains(response_id(acts[i].1)));
                }
            },
            MessageView::SyncInfo { body } => {
                if e.mode != ProxyMode::Light {
                    match e.direction {
                        Direction::Inbound => {
                            lemma_first_unpaired_outbound(v.registry, v.sync);
                            if !v.sync.to_outbound.dom().contains(source) {
                                if let Some(o) = first_unpaired_outbound(v.registry, v.sync) {
                                    lemma_assoc_dom(v.registry, o);
                                    lemma_pair_lookup(v.sync, source, o);
                                }
                            }
                        },
                        Direction::Outbound => {
                            if v.sync.to_inbound.dom().contains(source) {
                                let i = v.sync.to_inbound[source];
                                assert(v.sync.to_outbound.dom().contains(i));
                            }
                        },
                    }
                }
            },
            _ => {
                lemma_fanout_targets(v.registry, source, opposite(e.direction), m);
                assert forall|i: int| 0 <= i < acts.len() implies pm.dom().contains(#[trigger] acts[i].0) by {
                    lemma_assoc_dom(v.registry, acts[i].0);
                }
            },
        }
    }
}

/// Handling any event keeps the router consistent, and every action targets
/// a peer registered before the event.
pub proof fn lemma_handle_consistent(v: RouterView, ev: EventView)
    requires
        router_consistent(v),
    ensures
        router_consistent(spec_handle(v, ev).0),
        targets_registered(v, spec_handle(v, ev).1),
{
    match ev {
        EventView::PeerConnected { .. } => {},
        EventView::PeerDisconnected { peer_id, .. } => {
            let p = peer_id;
            let w = spec_handle(v, ev).0;
            lemma_seq_remove_key(v.registry, p);
            lemma_sync_purge_forgets(v.sync, p);
            assert(peer_map(w) == peer_map(v).remove(p));
            let s2 = sync_purge(v.sync, p);
            assert forall|q: PeerId| #[trigger] s2.to_outbound.dom().contains(q) implies v.sync.to_outbound.dom().contains(q)
                && s2.to_outbound[q] == v.sync.to_outbound[q] by {}
        },
        EventView::Message { peer_id, message } => {
            lemma_route_consistent(v, peer_id, message);
        },
    }
}

/// After a peer disconnects, it is not registered and no table refers to it.
pub proof fn lemma_disconnect_forgets(v: RouterView, p: PeerId, reason: Seq<char>)
    requires
        router_consistent(v),
    ensures
        ({
            let w = spec_handle(v, EventView::PeerDisconnected { peer_id: p, reason }).0;
            &&& !peer_map(w).dom().contains(p)
            &&& forall|id: ModifierId| #[trigger] w.inv.dom().contains(id) ==> w.inv[id] != p
            &&& forall|id: ModifierId| #[trigger] w.requests.dom().contains(id) ==> w.requests[id] != p
            &&& !w.sync.to_outbound.dom().contains(p)
            &&& !w.sync.to_inbound.dom().contains(p)
        }),
{
    lemma_seq_remove_key(v.registry, p);
    lemma_sync_purge_forgets(v.sync, p);
}

/// A peer is listed among the peers of direction `d` exactly when it is
/// registered with that direction.
pub proof fn lemma_peers_with_direction(reg: Seq<(PeerId, PeerEntry)>, d: Direction, p: PeerId)
    requires
        keys_distinct(reg),
    ensures
        peers_with_direction(reg, d).contains(p) <==> (assoc_map(reg).dom().contains(p)
            && assoc_map(reg)[p].direction == d),
    decreases reg.len(),
{
    if reg.len() > 0 {
        let dl = reg.drop_last();
        lemma_peers_with_direction(dl, d, p);
        lemma_assoc_dom(dl, p);
        let rest = peers_with_direction(dl, d);
        if p == reg.last().0 {
            if has_key(dl, p) {
                let j = choose|j: int| 0 <= j < dl.len() && dl[j].0 == p;
                assert(reg[j].0 == reg[reg.len() - 1].0);
            }
        }
        if reg.last().1.direction == d {
            assert(peers_with_direction(reg, d) == rest.push(reg.last().0));
            if p != reg.last().0 {
                assert(rest.push(reg.last().0).contains(p) ==> rest.contains(p)) by {
                    if rest.push(reg.last().0).contains(p) {
                        let k = choose|k: int| 0 <= k < rest.len() + 1 && rest.push(reg.last().0)[k] == p;
                        assert(rest[k] == p);
                    }
                }
            } else {
                assert(rest.push(reg.last().0)[rest.len() as int] == p);
            }
            if rest.contains(p) {
                let k = choose|k: int| 0 <= k < rest.len() && rest[k] == p;
                assert(rest.push(reg.last().0)[k] == p);
            }
        }
    }
}

/// Registering a peer: it is listed in exactly the direction it was registered
/// with, the count grows by one unless it was registered before, every other
/// registration stays, and the tables are untouched.
pub proof fn lemma_register_law(v: RouterView, p: PeerId, direction: Direction, mode: ProxyMode)
    requires
        router_consistent(v),
    ensures
        ({
            let w = seq_insert(v.registry, p, PeerEntry { direction, mode });
            &&& peers_with_direction(w, Direction::Outbound).contains(p) <==> direction == Direction::Outbound
            &&& peers_with_direction(w, Direction::Inbound).contains(p) <==> direction == Direction::Inbound
            &&& w.len() == v.registry.len() + if peer_map(v).dom().contains(p) { 0int } else { 1int }
            &&& assoc_map(w) == peer_map(v).insert(p, PeerEntry { direction, mode })
        }),
{
    let e = PeerEntry { direction, mode };
    let w = seq_insert(v.registry, p, e);
    lemma_seq_insert(v.registry, p, e);
    lemma_assoc_dom(v.registry, p);
    lemma_peers_with_direction(w, Direction::Outbound, p);
    lemma_peers_with_direction(w, Direction::Inbound, p);
}

/// After a peer disconnects it is listed in neither direction, and every
/// other registration stays as it was.
pub proof fn lemma_disconnect_unlists(v: RouterView, p: PeerId, reason: Seq<char>)
    requires
        router_consistent(v),
    ensures
        ({
            let w = spec_handle(v, EventView::PeerDisconnected { peer_id: p, reason }).0;
            &&& !peers_with_direction(w.registry, Direction::Outbound).contains(p)
            &&& !peers_with_direction(w.registry, Direction::Inbound).contains(p)
            &&& peer_map(w) == peer_map(v).remove(p)
        }),
{
    let w = spec_handle(v, EventView::PeerDisconnected { peer_id: p, reason }).0;
    lemma_seq_remove_key(v.registry, p);
    lemma_peers_with_direction(w.registry, Direction::Outbound, p);
    lemma_peers_with_direction(w.registry, Direction::Inbound, p);
}

/// A message from a peer that is not registered changes nothing and goes nowhere.
pub proof fn lemma_unregistered_source_ignored(v: RouterView, source: PeerId, m: MessageView)
    requires
        !peer_map(v).dom().contains(source),
    ensures
        spec_route(v, source, m) == (v, Seq::<(PeerId, MessageView)>::empty()),
{
}

/// GetPeers is answered with an empty Peers message to its source alone, and
/// Peers is dropped; neither changes the router.
pub proof fn lemma_peer_exchange(v: RouterView, source: PeerId, body: Seq<u8>)
    requires
        peer_map(v).dom().contains(source),
    ensures
        spec_route(v, source, MessageView::GetPeers) == (v, seq![(source, MessageView::Peers { body: seq![] })]),
        spec_route(v, source, MessageView::Peers { body }) == (v, Seq::<(PeerId, MessageView)>::empty()),
{
}

proof fn lemma_responses_settle(requests: Map<ModifierId, PeerId>, modifier_type: u8, mods: Seq<(ModifierId, Seq<u8>)>)
    ensures
        forall|k: int| 0 <= k < mods.len() ==> !route_responses(requests, modifier_type, mods).0.dom().contains(
            (#[trigger] mods[k]).0,
        ),
    decreases mods.len(),
{
    if mods.len() > 0 {
        let dl = mods.drop_last();
        lemma_responses_settle(requests, modifier_type, dl);
        assert forall|k: int| 0 <= k < mods.len() implies !route_responses(requests, modifier_type, mods).0.dom().contains(
            (#[trigger] mods[k]).0,
        ) by {
            if k < dl.len() {
                assert(mods[k] == dl[k]);
            }
        }
    }
}

proof fn lemma_responses_unrequested(requests: Map<ModifierId, PeerId>, modifier_type: u8, mods: Seq<(ModifierId, Seq<u8>)>)
    requires
        forall|k: int| 0 <= k < mods.len() ==> !requests.dom().contains((#[trigger] mods[k]).0),
    ensures
        route_responses(requests, modifier_type, mods) == (requests, Seq::<(PeerId, MessageView)>::empty()),
    decreases mods.len(),
{
    if mods.len() > 0 {
        let dl = mods.drop_last();
        assert forall|k: int| 0 <= k < dl.len() implies !requests.dom().contains((#[trigger] dl[k]).0) by {
            assert(dl[k] == mods[k]);
        }
        lemma_responses_unrequested(requests, modifier_type, dl);
        assert(!requests.dom().contains(mods[mods.len() - 1].0));
    }
}

/// Every modifier of a response whose request was pending is sent on once:
/// after the response its requests are settled, so the same response again
/// goes nowhere and changes nothing.
pub proof fn lemma_response_settles(v: RouterView, source: PeerId, modifier_type: u8, mods: Seq<(ModifierId, Seq<u8>)>)
    requires
        peer_map(v).dom().contains(source),
    ensures
        ({
            let m = MessageView::ModifierResponse { modifier_type, modifiers: mods };
            let v1 = spec_route(v, source, m).0;
            &&& forall|k: int| 0 <= k < mods.len() ==> !v1.requests.dom().contains((#[trigger] mods[k]).0)
            &&& spec_route(v1, source, m) == (v1, Seq::<(PeerId, MessageView)>::empty())
        }),
{
    let m = MessageView::ModifierResponse { modifier_type, modifiers: mods };
    let v1 = spec_route(v, source, m).0;
    lemma_responses_settle(v.requests, modifier_type, mods);
    lemma_responses_unrequested(v1.requests, modifier_type, mods);
}

/// The relay of one modifier: after peer `a` announces `id` and another peer
/// `b` asks for it, the request goes to `a` alone; when `a` then answers with
/// the modifier, the answer goes to `b` alone and the request is settled. A
/// light-mode peer asking for a block section is the one exception (its
/// request is dropped).
pub proof fn lemma_relay_roundtrip(
    v: RouterView,
    a: PeerId,
    b: PeerId,
    modifier_type: u8,
    id: ModifierId,
    data: Seq<u8>,
)
    requires
        router_consistent(v),
        peer_map(v).dom().contains(a),
        peer_map(v).dom().contains(b),
        a != b,
        !(peer_map(v)[b].mode == ProxyMode::Light && is_block_modifier(modifier_type)),
    ensures
        ({
            let v1 = spec_handle(
                v,
                EventView::Message { peer_id: a, message: MessageView::Inv { modifier_type, ids: seq![id] } },
            ).0;
            let (v2, acts2) = spec_handle(
                v1,
                EventView::Message {
                    peer_id: b,
                    message: MessageView::ModifierRequest { modifier_type, ids: seq![id] },
                },
            );
            let (v3, acts3) = spec_handle(
                v2,
                EventView::Message {
                    peer_id: a,
                    message: MessageView::ModifierResponse { modifier_type, modifiers: seq![(id, data)] },
                },
            );
            &&& acts2 == seq![(a, MessageView::ModifierRequest { modifier_type, ids: seq![id] })]
            &&& v2.requests.dom().contains(id) && v2.requests[id] == b
            &&& acts3 == seq![(b, MessageView::ModifierResponse { modifier_type, modifiers: seq![(id, data)] })]
            &&& !v3.requests.dom().contains(id)
        }),
{
    let ids = seq![id];
    assert(ids.drop_last() == Seq::<ModifierId>::empty());
    let v1 = spec_handle(
        v,
        EventView::Message { peer_id: a, message: MessageView::Inv { modifier_type, ids } },
    ).0;
    assert(record_all(v.inv, ids.drop_last(), a) == v.inv);
    assert(ids.last() == id);
    assert(record_all(v.inv, ids, a) == v.inv.insert(id, a));
    assert(v1.inv.dom().contains(id) && v1.inv[id] == a);
    assert(v1.registry == v.registry);
    let (r2, a2) = route_requests(v1.inv, v1.requests, b, modifier_type, ids);
    assert(route_requests(v1.inv, v1.requests, b, modifier_type, ids.drop_last()) == (
        v1.requests,
        Seq::<(PeerId, MessageView)>::empty(),
    ));
    assert(r2 == v1.requests.insert(id, b));
    let mods = seq![(id, data)];
    assert(mods.drop_last() == Seq::<(ModifierId, Seq<u8>)>::empty());
    assert(route_responses(r2, modifier_type, mods.drop_last()) == (
        r2,
        Seq::<(PeerId, MessageView)>::empty(),
    ));
}

/// Sync through the proxy: a full-mode inbound peer without a sync partner
/// that sends SyncInfo is paired with the first unpaired outbound peer, which
/// alone receives it; that outbound peer's SyncInfo then goes back to the
/// inbound peer alone.
pub proof fn lemma_sync_roundtrip(v: RouterView, i: PeerId, o: PeerId, body1: Seq<u8>, body2: Seq<u8>)
    requires
        router_consistent(v),
        peer_map(v).dom().contains(i),
        peer_map(v)[i].direction == Direction::Inbound,
        peer_map(v)[i].mode == ProxyMode::Full,
        !v.sync.to_outbound.dom().contains(i),
        first_unpaired_outbound(v.registry, v.sync) == Some(o),
        peer_map(v)[o].mode == ProxyMode::Full,
    ensures
        ({
            let (v1, acts1) = spec_handle(
                v,
                EventView::Message { peer_id: i, message: MessageView::SyncInfo { body: body1 } },
            );
            let (v2, acts2) = spec_handle(
                v1,
                EventView::Message { peer_id: o, message: MessageView::SyncInfo { body: body2 } },
            );
            &&& acts1 == seq![(o, MessageView::SyncInfo { body: body1 })]
            &&& v1.sync.to_outbound[i] == o
            &&& v1.sync.to_inbound[o] == i
            &&& acts2 == seq![(i, MessageView::SyncInfo { body: body2 })]
            &&& v2 == v1
        }),
{
    lemma_first_unpaired_outbound(v.registry, v.sync);
    let j = choose|j: int| 0 <= j < v.registry.len() && v.registry[j].0 == o && v.registry[j].1.direction == Direction::Outbound;
    lemma_assoc_value(v.registry, j);
}

/// A full-mode inbound peer that has a sync partner keeps syncing through it:
/// each of its SyncInfo messages goes to that outbound peer alone, and the
/// pairing stays as it is.
pub proof fn lemma_sync_repeat(v: RouterView, i: PeerId, body: Seq<u8>)
    requires
        peer_map(v).dom().contains(i),
        peer_map(v)[i].direction == Direction::Inbound,
        peer_map(v)[i].mode == ProxyMode::Full,
        v.sync.to_outbound.dom().contains(i),
    ensures
        spec_handle(v, EventView::Message { peer_id: i, message: MessageView::SyncInfo { body } }) == (
            v,
            seq![(v.sync.to_outbound[i], MessageView::SyncInfo { body })],
        ),
{
}

/// Some modifier of `mods` has id `id`.
pub open spec fn mods_have_id(mods: Seq<(ModifierId, Seq<u8>)>, id: ModifierId) -> bool {
    exists|k: int| 0 <= k < mods.len() && mods[k].0 == id
}

/// An id that the Inv table attributes to a peer other than `source`.
pub open spec fn announced_elsewhere(inv: Map<ModifierId, PeerId>, source: PeerId) -> spec_fn(ModifierId) -> bool {
    |id: ModifierId| inv.dom().contains(id) && inv[id] != source
}

/// For an id announced elsewhere, the request for it alone, sent to its announcer.
pub open spec fn request_to_announcer(inv: Map<ModifierId, PeerId>, source: PeerId, modifier_type: u8) -> spec_fn(
    ModifierId,
) -> Option<(PeerId, MessageView)> {
    |id: ModifierId|
        if inv.dom().contains(id) && inv[id] != source {
            Some((inv[id], MessageView::ModifierRequest { modifier_type, ids: seq![id] }))
        } else {
            None
        }
}

/// A modifier whose id has a pending request.
pub open spec fn has_pending(requests: Map<ModifierId, PeerId>) -> spec_fn((ModifierId, Seq<u8>)) -> bool {
    |m: (ModifierId, Seq<u8>)| requests.dom().contains(m.0)
}

/// For a modifier with a pending request, the response with it alone, sent to its requester.
pub open spec fn response_to_requester(requests: Map<ModifierId, PeerId>, modifier_type: u8) -> spec_fn(
    (ModifierId, Seq<u8>),
) -> Option<(PeerId, MessageView)> {
    |m: (ModifierId, Seq<u8>)|
        if requests.dom().contains(m.0) {
            Some((requests[m.0], MessageView::ModifierResponse { modifier_type, modifiers: seq![m] }))
        } else {
            None
        }
}

proof fn lemma_seq_contains_last<A>(s: Seq<A>, y: A)
    requires
        s.len() > 0,
    ensures
        s.contains(y) <==> (s.drop_last().contains(y) || y == s.last()),
{
    let d = s.drop_last();
    if s.contains(y) {
        let k = choose|k: int| 0 <= k < s.len() && s[k] == y;
        if k < d.len() {
            assert(d[k] == y);
        }
    }
    if d.contains(y) {
        let k = choose|k: int| 0 <= k < d.len() && d[k] == y;
        assert(s[k] == y);
    }
    if y == s.last() {
        assert(s[s.len() - 1] == y);
    }
}

proof fn lemma_requests_closed(
    inv: Map<ModifierId, PeerId>,
    requests: Map<ModifierId, PeerId>,
    source: PeerId,
    modifier_type: u8,
    ids: Seq<ModifierId>,
)
    ensures
        ({
            let (r, a) = route_requests(inv, requests, source, modifier_type, ids);
            let wanted = announced_elsewhere(inv, source);
            &&& a == ids.filter_map(request_to_announcer(inv, source, modifier_type))
            &&& a.len() == ids.filter(wanted).len()
            &&& forall|id: ModifierId| #[trigger]
                r.dom().contains(id) <==> (requests.dom().contains(id) || (ids.contains(id) && wanted(id)))
            &&& forall|id: ModifierId| #[trigger]
                r.dom().contains(id) ==> r[id] == if ids.contains(id) && wanted(id) {
                    source
                } else {
                    requests[id]
                }
        }),
    decreases ids.len(),
{
    let wanted = announced_elsewhere(inv, source);
    let f = request_to_announcer(inv, source, modifier_type);
    if ids.len() == 0 {
        reveal(Seq::filter);
        assert(ids.filter_map(f) == Seq::<(PeerId, MessageView)>::empty());
        assert(ids.filter(wanted) == ids);
    } else {
        let d = ids.drop_last();
        let x = ids.last();
        lemma_requests_closed(inv, requests, source, modifier_type, d);
        let (r0, a0) = route_requests(inv, requests, source, modifier_type, d);
        reveal(Seq::filter);
        assert(ids.filter(wanted) == if wanted(x) {
            d.filter(wanted).push(x)
        } else {
            d.filter(wanted)
        });
        assert forall|id: ModifierId| ids.contains(id) <==> (d.contains(id) || id == x) by {
            lemma_seq_contains_last(ids, id);
        }
        if wanted(x) {
            assert(ids.filter_map(f) == d.filter_map(f) + seq![f(x)->Some_0]);
            assert(a0.push(f(x)->Some_0) == a0 + seq![f(x)->Some_0]);
        } else {
            assert(ids.filter_map(f) == d.filter_map(f));
        }
    }
}

proof fn lemma_responses_closed(requests: Map<ModifierId, PeerId>, modifier_type: u8, mods: Seq<(ModifierId, Seq<u8>)>)
    requires
        forall|i: int, j: int| 0 <= i < j < mods.len() ==> mods[i].0 != mods[j].0,
    ensures
        ({
            let (r, a) = route_responses(requests, modifier_type, mods);
            &&& a == mods.filter_map(response_to_requester(requests, modifier_type))
            &&& a.len() == mods.filter(has_pending(requests)).len()
            &&& forall|id: ModifierId| #[trigger]
                r.dom().contains(id) <==> (requests.dom().contains(id) && !mods_have_id(mods, id))
            &&& forall|id: ModifierId| #[trigger] r.dom().contains(id) ==> r[id] == requests[id]
        }),
    decreases mods.len(),
{
    let pending = has_pending(requests);
    let f = response_to_requester(requests, modifier_type);
    if mods.len() == 0 {
        reveal(Seq::filter);
        assert(mods.filter_map(f) == Seq::<(PeerId, MessageView)>::empty());
        assert(mods.filter(pending) == mods);
    } else {
        let d = mods.drop_last();
        let x = mods.last();
        assert forall|i: int, j: int| 0 <= i < j < d.len() implies d[i].0 != d[j].0 by {
            assert(d[i] == mods[i] && d[j] == mods[j]);
        }
        lemma_responses_closed(requests, modifier_type, d);
        let (r0, a0) = route_responses(requests, modifier_type, d);
        reveal(Seq::filter);
        assert(mods.filter(pending) == if pending(x) {
            d.filter(pending).push(x)
        } else {
            d.filter(pending)
        });
        assert(!mods_have_id(d, x.0)) by {
            if mods_have_id(d, x.0) {
                let k = choose|k: int| 0 <= k < d.len() && d[k].0 == x.0;
                assert(d[k] == mods[k]);
                assert(mods[k].0 == mods[mods.len() - 1].0);
            }
        }
        assert forall|id: ModifierId| mods_have_id(mods, id) <==> (mods_have_id(d, id) || id == x.0) by {
            if mods_have_id(mods, id) {
                let k = choose|k: int| 0 <= k < mods.len() && mods[k].0 == id;
                if k < d.len() {
                    assert(d[k].0 == id);
                }
            }
            if mods_have_id(d, id) {
                let k = choose|k: int| 0 <= k < d.len() && d[k].0 == id;
                assert(d[k] == mods[k]);
            }
            if id == x.0 {
                assert(mods[mods.len() - 1].0 == id);
            }
        }
        if pending(x) {
            assert(r0.dom().contains(x.0));
            assert(r0[x.0] == requests[x.0]);
            assert(mods.filter_map(f) == d.filter_map(f) + seq![f(x)->Some_0]);
            assert(a0.push(f(x)->Some_0) == a0 + seq![f(x)->Some_0]);
        } else {
            assert(!r0.dom().contains(x.0));
            assert(mods.filter_map(f) == d.filter_map(f));
        }
    }
}

/// Relaying a ModifierRequest of any length from a registered peer (other
/// than a light-mode peer asking for block sections): every id that the Inv
/// table attributes to a peer other than the source gives exactly one action,
/// in the order of the ids, sending a request for that id alone to that peer;
/// no other action is made, so there are as many actions as such ids; each
/// such id is recorded as requested by the source, every other pending request
/// is kept, and nothing else changes.
pub proof fn lemma_request_relay(v: RouterView, source: PeerId, modifier_type: u8, ids: Seq<ModifierId>)
    requires
        peer_map(v).dom().contains(source),
        !(peer_map(v)[source].mode == ProxyMode::Light && is_block_modifier(modifier_type)),
    ensures
        ({
            let (w, acts) = spec_route(v, source, MessageView::ModifierRequest { modifier_type, ids });
            let wanted = announced_elsewhere(v.inv, source);
            &&& acts == ids.filter_map(request_to_announcer(v.inv, source, modifier_type))
            &&& acts.len() == ids.filter(wanted).len()
            &&& forall|id: ModifierId| #[trigger]
                w.requests.dom().contains(id) <==> (v.requests.dom().contains(id) || (ids.contains(id) && wanted(id)))
            &&& forall|id: ModifierId| #[trigger]
                w.requests.dom().contains(id) ==> w.requests[id] == if ids.contains(id) && wanted(id) {
                    source
                } else {
                    v.requests[id]
                }
            &&& w.registry == v.registry && w.inv == v.inv && w.sync == v.sync
        }),
{
    lemma_requests_closed(v.inv, v.requests, source, modifier_type, ids);
}

/// Relaying a ModifierResponse of any length whose modifiers have distinct
/// ids: every modifier whose id had a pending request is sent, alone, to its
/// requester, once, in the order of the modifiers; no other action is made, so
/// there are as many actions as such modifiers; exactly those requests are
/// removed, and nothing else changes.
pub proof fn lemma_response_relay(
    v: RouterView,
    source: PeerId,
    modifier_type: u8,
    mods: Seq<(ModifierId, Seq<u8>)>,
)
    requires
        peer_map(v).dom().contains(source),
        forall|i: int, j: int| 0 <= i < j < mods.len() ==> mods[i].0 != mods[j].0,
    ensures
        ({
            let (w, acts) = spec_route(v, source, MessageView::ModifierResponse { modifier_type, modifiers: mods });
            &&& acts == mods.filter_map(response_to_requester(v.requests, modifier_type))
            &&& acts.len() == mods.filter(has_pending(v.requests)).len()
            &&& forall|id: ModifierId| #[trigger]
                w.requests.dom().contains(id) <==> (v.requests.dom().contains(id) && !mods_have_id(mods, id))
            &&& forall|id: ModifierId| #[trigger] w.requests.dom().contains(id) ==> w.requests[id] == v.requests[id]
            &&& w.registry == v.registry && w.inv == v.inv && w.sync == v.sync
        }),
{
    lemma_responses_closed(v.requests, modifier_type, mods);
}

/// Registering a peer keeps the router consistent.
pub proof fn lemma_register_consistent(v: RouterView, p: PeerId, e: PeerEntry)
    requires
        router_consistent(v),
    ensures
        router_consistent(RouterView { registry: seq_insert(v.registry, p, e), ..v }),
{
    lemma_seq_insert(v.registry, p, e);
}

// ---------------------------------------------------------------------------
// The router
// ---------------------------------------------------------------------------

/// The peers of the registry with direction `d`, in registry order.
pub open spec fn peers_with_direction(reg: Seq<(PeerId, PeerEntry)>, d: Direction) -> Seq<PeerId>
    decreases reg.len(),
{
    if reg.len() == 0 {
        seq![]
    } else {
        let rest = peers_with_direction(reg.drop_last(), d);
        if reg.last().1.direction == d {
            rest.push(reg.last().0)
        } else {
            rest
        }
    }
}

/// The actions' content.
pub open spec fn actions_view(actions: Seq<Action>) -> Seq<(PeerId, MessageView)> {
    actions.map_values(|a: Action| a@)
}

struct RouterState {
    peers: AssocMap<PeerId, PeerEntry>,
    inv_table: InvTable,
    request_tracker: RequestTracker,
    sync_tracker: SyncTracker,
}

impl RouterState {
    spec fn rview(&self) -> RouterView {
        RouterView {
            registry: self.peers.seq(),
            inv: self.inv_table@,
            requests: self.request_tracker@,
            sync: self.sync_tracker@,
        }
    }

    fn empty() -> (st: Self)
        ensures
            st.peers.wf(),
            router_consistent(st.rview()),
            st.rview().registry == Seq::<(PeerId, PeerEntry)>::empty(),
            st.rview().inv == Map::<ModifierId, PeerId>::empty(),
            st.rview().requests == Map::<ModifierId, PeerId>::empty(),
            st.rview().sync.to_outbound == Map::<PeerId, PeerId>::empty(),
            st.rview().sync.to_inbound == Map::<PeerId, PeerId>::empty(),
    {
        RouterState {
            peers: AssocMap::new(),
            inv_table: InvTable::new(),
            request_tracker: RequestTracker::new(),
            sync_tracker: SyncTracker::new(),
        }
    }
}

fn opposite_direction(d: Direction) -> (r: Direction)
    ensures
        r == opposite(d),
{
    match d {
        Direction::Outbound => Direction::Inbound,
        Direction::Inbound => Direction::Outbound,
    }
}

/// `msg` to every registered peer with direction `dir` other than `source`.
fn fanout_exec(peers: &AssocMap<PeerId, PeerEntry>, source: PeerId, dir: Direction, msg: &ProtocolMessage) -> (actions: Vec<Action>)
    ensures
        actions_view(actions@) == fanout(peers.seq(), source, dir, msg@),
{
    let ghost reg = peers.seq();
    let mut actions: Vec<Action> = Vec::new();
    let mut i: usize = 0;
    assert(reg.take(0) == Seq::<(PeerId, PeerEntry)>::empty());
    while i < peers.len()
        invariant
            reg == peers.seq(),
            i <= reg.len(),
            actions_view(actions@) == fanout(reg.take(i as int), source, dir, msg@),
        decreases reg.len() - i,
    {
        let (pid, e) = peers.entry(i);
        let ghost before = actions_view(actions@);
        assert(reg.take(i + 1).drop_last() == reg.take(i as int));
        assert(reg.take(i + 1).last() == (pid, e));
        if pid != source && e.direction == dir {
            let m = msg.duplicate();
            let a = Action::Send { target: pid, message: m };
            actions.push(a);
            assert(actions_view(actions@) == before.push(a@));
        }
        i = i + 1;
    }
    assert(reg.take(reg.len() as int) == reg);
    actions
}

/// The first registered outbound peer that handles no inbound peer's sync.
fn first_unpaired_outbound_exec(st: &RouterState) -> (r: Option<PeerId>)
    ensures
        r == first_unpaired_outbound(st.rview().registry, st.rview().sync),
{
    let ghost reg = st.peers.seq();
    let ghost sync = st.sync_tracker@;
    let mut i: usize = 0;
    assert(reg.skip(0) == reg);
    while i < st.peers.len()
        invariant
            reg == st.peers.seq(),
            sync == st.sync_tracker@,
            i <= reg.len(),
            first_unpaired_outbound(reg, sync) == first_unpaired_outbound(reg.skip(i as int), sync),
        decreases reg.len() - i,
    {
        let (pid, e) = st.peers.entry(i);
        let ghost rest = reg.skip(i as int);
        assert(rest[0] == (pid, e));
        assert(rest.drop_first() == reg.skip(i + 1));
        if e.direction == Direction::Outbound {
            if st.sync_tracker.inbound_for(&pid).is_none() {
                return Some(pid);
            }
        }
        i = i + 1;
    }
    None
}

fn route_inv(
    st: &mut RouterState,
    source: PeerId,
    entry: PeerEntry,
    modifier_type: u8,
    ids: Vec<ModifierId>,
) -> (actions: Vec<Action>)
    requires
        old(st).peers.wf(),
        peer_map(old(st).rview()).dom().contains(source),
        peer_map(old(st).rview())[source] == entry,
    ensures
        final(st).peers.wf(),
        (final(st).rview(), actions_view(actions@)) == spec_route(
            old(st).rview(),
            source,
            MessageView::Inv { modifier_type, ids: ids@ },
        ),
{
    let ghost inv0 = st.inv_table@;
    let mut i: usize = 0;
    assert(ids@.take(0) == Seq::<ModifierId>::empty());
    while i < ids.len()
        invariant
            i <= ids@.len(),
            st.inv_table@ == record_all(inv0, ids@.take(i as int), source),
            st.peers == old(st).peers,
            st.request_tracker == old(st).request_tracker,
            st.sync_tracker == old(st).sync_tracker,
            inv0 == old(st).inv_table@,
        decreases ids.len() - i,
    {
        st.inv_table.record(ids[i], source);
        assert(ids@.take(i + 1).drop_last() == ids@.take(i as int));
        i = i + 1;
    }
    assert(ids@.take(ids@.len() as int) == ids@);
    let msg = ProtocolMessage::Inv { modifier_type, ids };
    fanout_exec(&st.peers, source, opposite_direction(entry.direction), &msg)
}

fn route_requests_exec(
    st: &mut RouterState,
    source: PeerId,
    modifier_type: u8,
    ids: Vec<ModifierId>,
) -> (actions: Vec<Action>)
    ensures
        final(st).peers == old(st).peers,
        final(st).inv_table == old(st).inv_table,
        final(st).sync_tracker == old(st).sync_tracker,
        (final(st).request_tracker@, actions_view(actions@)) == route_requests(
            old(st).inv_table@,
            old(st).request_tracker@,
            source,
            modifier_type,
            ids@,
        ),
{
    let ghost inv0 = st.inv_table@;
    let ghost req0 = st.request_tracker@;
    let mut actions: Vec<Action> = Vec::new();
    let mut i: usize = 0;
    assert(ids@.take(0) == Seq::<ModifierId>::empty());
    while i < ids.len()
        invariant
            i <= ids@.len(),
            st.peers == old(st).peers,
            st.inv_table == old(st).inv_table,
            st.sync_tracker == old(st).sync_tracker,
            inv0 == old(st).inv_table@,
            req0 == old(st).request_tracker@,
            (st.request_tracker@, actions_view(actions@)) == route_requests(
                inv0,
                req0,
                source,
                modifier_type,
                ids@.take(i as int),
            ),
        decreases ids.len() - i,
    {
        let id = ids[i];
        assert(ids@.take(i + 1).drop_last() == ids@.take(i as int));
        assert(ids@.take(i + 1).last() == id);
        let ghost before = actions_view(actions@);
        if let Some(target) = st.inv_table.lookup(&id) {
            if target != source {
                st.request_tracker.record(id, source);
                let mut one: Vec<ModifierId> = Vec::new();
                one.push(id);
                let a = Action::Send {
                    target,
                    message: ProtocolMessage::ModifierRequest { modifier_type, ids: one },
                };
                actions.push(a);
                assert(actions_view(actions@) == before.push(a@));
            }
        }
        i = i + 1;
    }
    assert(ids@.take(ids@.len() as int) == ids@);
    actions
}

fn route_responses_exec(
    st: &mut RouterState,
    modifier_type: u8,
    modifiers: Vec<(ModifierId, Vec<u8>)>,
) -> (actions: Vec<Action>)
    ensures
        final(st).peers == old(st).peers,
        final(st).inv_table == old(st).inv_table,
        final(st).sync_tracker == old(st).sync_tracker,
        (final(st).request_tracker@, actions_view(actions@)) == route_responses(
            old(st).request_tracker@,
            modifier_type,
            crate::protocol::messages::modifiers_view(modifiers@),
        ),
{
    let ghost req0 = st.request_tracker@;
    let ghost mods = crate::protocol::messages::modifiers_view(modifiers@);
    let mut actions: Vec<Action> = Vec::new();
    let mut i: usize = 0;
    assert(mods.take(0) == Seq::<(ModifierId, Seq<u8>)>::empty());
    while i < modifiers.len()
        invariant
            i <= modifiers@.len(),
            mods == crate::protocol::messages::modifiers_view(modifiers@),
            st.peers == old(st).peers,
            st.inv_table == old(st).inv_table,
            st.sync_tracker == old(st).sync_tracker,
            req0 == old(st).request_tracker@,
            (st.request_tracker@, actions_view(actions@)) == route_responses(
                req0,
                modifier_type,
                mods.take(i as int),
            ),
        decreases modifiers.len() - i,
    {
        let (id, data) = &modifiers[i];
        assert(mods.take(i + 1).drop_last() == mods.take(i as int));
        assert(mods.take(i + 1).last() == mods[i as int]);
        let ghost before = actions_view(actions@);
        if let Some(requester) = st.request_tracker.fulfill(id) {
            let mut one: Vec<(ModifierId, Vec<u8>)> = Vec::new();
            one.push((*id, crate::transport::cursor::copy_bytes(data.as_slice())));
            let a = Action::Send {
                target: requester,
                message: ProtocolMessage::ModifierResponse { modifier_type, modifiers: one },
            };
            assert(crate::protocol::messages::modifiers_view(one@) == seq![mods[i as int]]);
            actions.push(a);
            assert(actions_view(actions@) == before.push(a@));
        }
        i = i + 1;
    }
    assert(mods.take(mods.len() as int) == mods);
    actions
}

fn route_message(st: &mut RouterState, source: PeerId, message: ProtocolMessage) -> (actions: Vec<Action>)
    requires
        old(st).peers.wf(),
        router_consistent(old(st).rview()),
    ensures
        final(st).peers.wf(),
        (final(st).rview(), actions_view(actions@)) == spec_route(old(st).rview(), source, message@),
{
    proof {
        lemma_assoc_dom(st.peers.seq(), source);
    }
    let entry = match st.peers.get(&source) {
        Some(e) => e,
        None => {
            return Vec::new();
        },
    };
    match message {
        ProtocolMessage::Inv { modifier_type, ids } => route_inv(st, source, entry, modifier_type, ids),
        ProtocolMessage::ModifierRequest { modifier_type, ids } => {
            if entry.mode == ProxyMode::Light && is_block_modifier_type(modifier_type) {
                return Vec::new();
            }
            route_requests_exec(st, source, modifier_type, ids)
        },
        ProtocolMessage::ModifierResponse { modifier_type, modifiers } => {
            route_responses_exec(st, modifier_type, modifiers)
        },
        ProtocolMessage::SyncInfo { body } => {
            if entry.mode == ProxyMode::Light {
                return Vec::new();
            }
            let ghost m = MessageView::SyncInfo { body: body@ };
            match entry.direction {
                Direction::Inbound => {
                    if let Some(paired) = st.sync_tracker.outbound_for(&source) {
                        let mut actions: Vec<Action> = Vec::new();
                        actions.push(Action::Send { target: paired, message: ProtocolMessage::SyncInfo { body } });
                        assert(actions_view(actions@) == seq![(paired, m)]);
                        return actions;
                    }
                    match first_unpaired_outbound_exec(st) {
                        Some(outbound_id) => {
                            proof {
                                lemma_first_unpaired_outbound(st.peers.seq(), st.sync_tracker@);
                            }
                            st.sync_tracker.pair(source, outbound_id);
                            let mut actions: Vec<Action> = Vec::new();
                            actions.push(
                                Action::Send {
                                    target: outbound_id,
                                    message: ProtocolMessage::SyncInfo { body },
                                },
                            );
                            assert(actions_view(actions@) == seq![(outbound_id, m)]);
                            actions
                        },
                        None => Vec::new(),
                    }
                },
                Direction::Outbound => {
                    match st.sync_tracker.inbound_for(&source) {
                        Some(inbound) => {
                            let mut actions: Vec<Action> = Vec::new();
                            actions.push(
                                Action::Send { target: inbound, message: ProtocolMessage::SyncInfo { body } },
                            );
                            assert(actions_view(actions@) == seq![(inbound, m)]);
                            actions
                        },
                        None => Vec::new(),
                    }
                },
            }
        },
        ProtocolMessage::GetPeers => {
            let mut actions: Vec<Action> = Vec::new();
            actions.push(Action::Send { target: source, message: ProtocolMessage::Peers { body: Vec::new() } });
            assert(actions_view(actions@) == seq![(source, MessageView::Peers { body: seq![] })]);
            actions
        },
        ProtocolMessage::Peers { .. } => Vec::new(),
        ProtocolMessage::Unknown { code, body } => {
            let msg = ProtocolMessage::Unknown { code, body };
            fanout_exec(&st.peers, source, opposite_direction(entry.direction), &msg)
        },
    }
}

pub struct Router {
    state: RouterState,
}

impl View for Router {
    type V = RouterView;

    closed spec fn view(&self) -> RouterView {
        self.state.rview()
    }
}

impl Router {
    #[verifier::type_invariant]
    closed spec fn inv(&self) -> bool {
        &&& self.state.peers.wf()
        &&& router_consistent(self.state.rview())
    }

    pub fn new() -> (r: Self)
        ensures
            r@.registry == Seq::<(PeerId, PeerEntry)>::empty(),
            r@.inv == Map::<ModifierId, PeerId>::empty(),
            r@.requests == Map::<ModifierId, PeerId>::empty(),
            r@.sync.to_outbound == Map::<PeerId, PeerId>::empty(),
            r@.sync.to_inbound == Map::<PeerId, PeerId>::empty(),
            router_consistent(r@),
    {
        Router { state: RouterState::empty() }
    }

    /// Registers a peer with its direction and mode; a registered peer keeps its
    /// place in the registry and takes the new entry.
    pub fn register_peer(&mut self, peer_id: PeerId, direction: Direction, mode: ProxyMode)
        ensures
            final(self)@ == (RouterView {
                registry: seq_insert(old(self)@.registry, peer_id, PeerEntry { direction, mode }),
                ..old(self)@
            }),
            router_consistent(old(self)@),
            router_consistent(final(self)@),
    {
        proof {
            use_type_invariant(&*self);
            lemma_register_consistent(self@, peer_id, PeerEntry { direction, mode });
        }
        let mut st = RouterState::empty();
        std::mem::swap(&mut st, &mut self.state);
        st.peers.insert(peer_id, PeerEntry { direction, mode });
        self.state = st;
    }

    /// Handles a protocol event: updates the registry and tables and returns the
    /// messages to send.
    pub fn handle_event(&mut self, event: ProtocolEvent) -> (actions: Vec<Action>)
        ensures
            router_consistent(old(self)@),
            (final(self)@, actions_view(actions@)) == spec_handle(old(self)@, event@),
            router_consistent(final(self)@),
            targets_registered(old(self)@, actions_view(actions@)),
    {
        proof {
            use_type_invariant(&*self);
            lemma_handle_consistent(self@, event@);
        }
        let mut st = RouterState::empty();
        std::mem::swap(&mut st, &mut self.state);
        let actions = match event {
            ProtocolEvent::PeerConnected { .. } => Vec::new(),
            ProtocolEvent::PeerDisconnected { peer_id, .. } => {
                st.inv_table.purge_peer(peer_id);
                st.request_tracker.purge_peer(peer_id);
                st.sync_tracker.purge_peer(peer_id);
                st.peers.remove(&peer_id);
                Vec::new()
            },
            ProtocolEvent::Message { peer_id, message } => route_message(&mut st, peer_id, message),
        };
        self.state = st;
        actions
    }

    fn peers_in_direction(&self, d: Direction) -> (r: Vec<PeerId>)
        ensures
            r@ == peers_with_direction(self@.registry, d),
    {
        let ghost reg = self.state.peers.seq();
        let mut r: Vec<PeerId> = Vec::new();
        let mut i: usize = 0;
        assert(reg.take(0) == Seq::<(PeerId, PeerEntry)>::empty());
        while i < self.state.peers.len()
            invariant
                reg == self.state.peers.seq(),
                i <= reg.len(),
                r@ == peers_with_direction(reg.take(i as int), d),
            decreases reg.len() - i,
        {
            let (pid, e) = self.state.peers.entry(i);
            assert(reg.take(i + 1).drop_last() == reg.take(i as int));
            assert(reg.take(i + 1).last() == (pid, e));
            if e.direction == d {
                r.push(pid);
            }
            i = i + 1;
        }
        assert(reg.take(reg.len() as int) == reg);
        r
    }

    /// The registered outbound peers, in registration order.
    pub fn outbound_peers(&self) -> (r: Vec<PeerId>)
        ensures
            r@ == peers_with_direction(self@.registry, Direction::Outbound),
            router_consistent(self@),
    {
        proof {
            use_type_invariant(self);
        }
        self.peers_in_direction(Direction::Outbound)
    }

    /// The registered inbound peers, in registration order.
    pub fn inbound_peers(&self) -> (r: Vec<PeerId>)
        ensures
            r@ == peers_with_direction(self@.registry, Direction::Inbound),
            router_consistent(self@),
    {
        proof {
            use_type_invariant(self);
        }
        self.peers_in_direction(Direction::Inbound)
    }

    /// The number of registered peers.
    pub fn peer_count(&self) -> (n: usize)
        ensures
            n == self@.registry.len(),
            router_consistent(self@),
    {
        proof {
            use_type_invariant(self);
        }
        self.state.peers.len()
    }
}

} // verus!
