use ergo_proxy_node::protocol::messages::ProtocolMessage;
use ergo_proxy_node::protocol::peer::ProtocolEvent;
use ergo_proxy_node::routing::inv_table::InvTable;
use ergo_proxy_node::routing::router::{Action, Router};
use ergo_proxy_node::routing::tracker::{RequestTracker, SyncTracker};
use ergo_proxy_node::transport::handshake::PeerSpec;
use ergo_proxy_node::types::{Direction, PeerId, ProxyMode, Version};

fn targets(actions: &[Action]) -> Vec<PeerId> {
    actions.iter().map(|a| match a {
        Action::Send { target, .. } => *target,
    }).collect()
}

#[test]
fn inv_table_record_and_lookup() {
    let mut table = InvTable::new();
    let id = [0xaa; 32];
    table.record(id, PeerId(1));
    assert_eq!(table.lookup(&id), Some(PeerId(1)));
}

#[test]
fn inv_table_lookup_missing() {
    let table = InvTable::new();
    assert_eq!(table.lookup(&[0xbb; 32]), None);
}

#[test]
fn inv_table_latest_announcer_wins() {
    let mut table = InvTable::new();
    let id = [0xaa; 32];
    table.record(id, PeerId(1));
    table.record(id, PeerId(2));
    assert_eq!(table.lookup(&id), Some(PeerId(2)));
}

#[test]
fn inv_table_purge_peer() {
    let mut table = InvTable::new();
    table.record([0xaa; 32], PeerId(1));
    table.record([0xbb; 32], PeerId(1));
    table.record([0xcc; 32], PeerId(2));

    table.purge_peer(PeerId(1));

    assert_eq!(table.lookup(&[0xaa; 32]), None);
    assert_eq!(table.lookup(&[0xbb; 32]), None);
    assert_eq!(table.lookup(&[0xcc; 32]), Some(PeerId(2)));
}

#[test]
fn inv_table_invariant_no_disconnected_peers() {
    let mut table = InvTable::new();
    for i in 0..100 {
        let mut id = [0u8; 32];
        id[0] = i;
        table.record(id, PeerId(1));
    }
    table.purge_peer(PeerId(1));
    assert!(table.is_empty());
}

#[test]
fn request_tracker_record_and_lookup() {
    let mut tracker = RequestTracker::new();
    let id = [0xaa; 32];
    tracker.record(id, PeerId(5));
    assert_eq!(tracker.lookup(&id), Some(PeerId(5)));
}

#[test]
fn request_tracker_fulfill_removes_entry() {
    let mut tracker = RequestTracker::new();
    let id = [0xaa; 32];
    tracker.record(id, PeerId(5));
    let requester = tracker.fulfill(&id);
    assert_eq!(requester, Some(PeerId(5)));
    assert_eq!(tracker.lookup(&id), None);
}

#[test]
fn request_tracker_fulfill_missing() {
    let mut tracker = RequestTracker::new();
    assert_eq!(tracker.fulfill(&[0xbb; 32]), None);
}

#[test]
fn request_tracker_purge_peer() {
    let mut tracker = RequestTracker::new();
    tracker.record([0xaa; 32], PeerId(1));
    tracker.record([0xbb; 32], PeerId(2));
    tracker.record([0xcc; 32], PeerId(1));

    tracker.purge_peer(PeerId(1));

    assert_eq!(tracker.lookup(&[0xaa; 32]), None);
    assert_eq!(tracker.lookup(&[0xbb; 32]), Some(PeerId(2)));
    assert_eq!(tracker.lookup(&[0xcc; 32]), None);
}

#[test]
fn sync_tracker_pair_and_lookup() {
    let mut tracker = SyncTracker::new();
    tracker.pair(PeerId(1), PeerId(10));
    assert_eq!(tracker.outbound_for(&PeerId(1)), Some(PeerId(10)));
    assert_eq!(tracker.inbound_for(&PeerId(10)), Some(PeerId(1)));
}

#[test]
fn sync_tracker_purge_inbound() {
    let mut tracker = SyncTracker::new();
    tracker.pair(PeerId(1), PeerId(10));
    tracker.purge_peer(PeerId(1));
    assert_eq!(tracker.outbound_for(&PeerId(1)), None);
    assert_eq!(tracker.inbound_for(&PeerId(10)), None);
}

#[test]
fn sync_tracker_purge_outbound() {
    let mut tracker = SyncTracker::new();
    tracker.pair(PeerId(1), PeerId(10));
    tracker.purge_peer(PeerId(10));
    assert_eq!(tracker.outbound_for(&PeerId(1)), None);
    assert_eq!(tracker.inbound_for(&PeerId(10)), None);
}

#[test]
fn sync_tracker_purge_keeps_other_pairs() {
    let mut tracker = SyncTracker::new();
    tracker.pair(PeerId(1), PeerId(10));
    tracker.pair(PeerId(2), PeerId(20));
    tracker.purge_peer(PeerId(10));
    assert_eq!(tracker.outbound_for(&PeerId(2)), Some(PeerId(20)));
    assert_eq!(tracker.inbound_for(&PeerId(20)), Some(PeerId(2)));
}

#[test]
fn router_inv_from_outbound_forwards_to_inbound() {
    let mut router = Router::new();
    router.register_peer(PeerId(1), Direction::Outbound, ProxyMode::Full);
    router.register_peer(PeerId(2), Direction::Inbound, ProxyMode::Full);
    router.register_peer(PeerId(3), Direction::Inbound, ProxyMode::Full);

    let actions = router.handle_event(ProtocolEvent::Message {
        peer_id: PeerId(1),
        message: ProtocolMessage::Inv { modifier_type: 2, ids: vec![[0xaa; 32]] },
    });

    // Forwarded to both inbound peers, in registration order, not back to the source
    assert_eq!(targets(&actions), vec![PeerId(2), PeerId(3)]);
    for a in &actions {
        match a {
            Action::Send { message: ProtocolMessage::Inv { modifier_type, ids }, .. } => {
                assert_eq!(*modifier_type, 2);
                assert_eq!(ids, &vec![[0xaa; 32]]);
            }
            _ => panic!("Expected Inv"),
        }
    }
}

#[test]
fn router_inv_from_inbound_forwards_to_outbound() {
    let mut router = Router::new();
    router.register_peer(PeerId(1), Direction::Outbound, ProxyMode::Full);
    router.register_peer(PeerId(2), Direction::Inbound, ProxyMode::Full);
    router.register_peer(PeerId(3), Direction::Outbound, ProxyMode::Full);

    let actions = router.handle_event(ProtocolEvent::Message {
        peer_id: PeerId(2),
        message: ProtocolMessage::Inv { modifier_type: 2, ids: vec![[0xaa; 32]] },
    });
    assert_eq!(targets(&actions), vec![PeerId(1), PeerId(3)]);
}

#[test]
fn router_modifier_request_routes_via_inv_table() {
    let mut router = Router::new();
    router.register_peer(PeerId(1), Direction::Outbound, ProxyMode::Full);
    router.register_peer(PeerId(2), Direction::Inbound, ProxyMode::Full);

    router.handle_event(ProtocolEvent::Message {
        peer_id: PeerId(1),
        message: ProtocolMessage::Inv { modifier_type: 2, ids: vec![[0xaa; 32]] },
    });

    let actions = router.handle_event(ProtocolEvent::Message {
        peer_id: PeerId(2),
        message: ProtocolMessage::ModifierRequest { modifier_type: 2, ids: vec![[0xaa; 32]] },
    });
    assert_eq!(targets(&actions), vec![PeerId(1)]);
}

#[test]
fn router_modifier_request_splits_by_announcer() {
    let mut router = Router::new();
    router.register_peer(PeerId(1), Direction::Outbound, ProxyMode::Full);
    router.register_peer(PeerId(2), Direction::Outbound, ProxyMode::Full);
    router.register_peer(PeerId(3), Direction::Inbound, ProxyMode::Full);

    router.handle_event(ProtocolEvent::Message {
        peer_id: PeerId(1),
        message: ProtocolMessage::Inv { modifier_type: 2, ids: vec![[0xaa; 32]] },
    });
    router.handle_event(ProtocolEvent::Message {
        peer_id: PeerId(2),
        message: ProtocolMessage::Inv { modifier_type: 2, ids: vec![[0xbb; 32]] },
    });

    // One request per id, each to its announcer; an unknown id goes nowhere
    let actions = router.handle_event(ProtocolEvent::Message {
        peer_id: PeerId(3),
        message: ProtocolMessage::ModifierRequest {
            modifier_type: 2,
            ids: vec![[0xbb; 32], [0xcc; 32], [0xaa; 32]],
        },
    });
    assert_eq!(targets(&actions), vec![PeerId(2), PeerId(1)]);
    match &actions[0] {
        Action::Send { message: ProtocolMessage::ModifierRequest { ids, .. }, .. } => {
            assert_eq!(ids, &vec![[0xbb; 32]]);
        }
        _ => panic!("Expected ModifierRequest"),
    }
}

#[test]
fn router_request_not_sent_back_to_announcer() {
    let mut router = Router::new();
    router.register_peer(PeerId(1), Direction::Outbound, ProxyMode::Full);
    router.handle_event(ProtocolEvent::Message {
        peer_id: PeerId(1),
        message: ProtocolMessage::Inv { modifier_type: 2, ids: vec![[0xaa; 32]] },
    });
    let actions = router.handle_event(ProtocolEvent::Message {
        peer_id: PeerId(1),
        message: ProtocolMessage::ModifierRequest { modifier_type: 2, ids: vec![[0xaa; 32]] },
    });
    assert!(actions.is_empty());
}

#[test]
fn router_modifier_response_routes_to_requester() {
    let mut router = Router::new();
    router.register_peer(PeerId(1), Direction::Outbound, ProxyMode::Full);
    router.register_peer(PeerId(2), Direction::Inbound, ProxyMode::Full);

    router.handle_event(ProtocolEvent::Message {
        peer_id: PeerId(1),
        message: ProtocolMessage::Inv { modifier_type: 2, ids: vec![[0xaa; 32]] },
    });
    router.handle_event(ProtocolEvent::Message {
        peer_id: PeerId(2),
        message: ProtocolMessage::ModifierRequest { modifier_type: 2, ids: vec![[0xaa; 32]] },
    });

    let actions = router.handle_event(ProtocolEvent::Message {
        peer_id: PeerId(1),
        message: ProtocolMessage::ModifierResponse {
            modifier_type: 2,
            modifiers: vec![([0xaa; 32], vec![1, 2, 3])],
        },
    });
    assert_eq!(targets(&actions), vec![PeerId(2)]);
    match &actions[0] {
        Action::Send { message: ProtocolMessage::ModifierResponse { modifier_type, modifiers }, .. } => {
            assert_eq!(*modifier_type, 2);
            assert_eq!(modifiers, &vec![([0xaa; 32], vec![1, 2, 3])]);
        }
        _ => panic!("Expected ModifierResponse"),
    }

    // The request was fulfilled: a second response goes nowhere
    let actions = router.handle_event(ProtocolEvent::Message {
        peer_id: PeerId(1),
        message: ProtocolMessage::ModifierResponse {
            modifier_type: 2,
            modifiers: vec![([0xaa; 32], vec![1, 2, 3])],
        },
    });
    assert!(actions.is_empty());
}

#[test]
fn router_get_peers_handled_directly() {
    let mut router = Router::new();
    router.register_peer(PeerId(1), Direction::Outbound, ProxyMode::Full);

    let actions = router.handle_event(ProtocolEvent::Message {
        peer_id: PeerId(1),
        message: ProtocolMessage::GetPeers,
    });
    assert_eq!(actions.len(), 1);
    assert!(matches!(&actions[0], Action::Send { target, message: ProtocolMessage::Peers { body } }
        if *target == PeerId(1) && body.is_empty()));
}

#[test]
fn router_peers_message_is_dropped() {
    let mut router = Router::new();
    router.register_peer(PeerId(1), Direction::Outbound, ProxyMode::Full);
    router.register_peer(PeerId(2), Direction::Inbound, ProxyMode::Full);
    let actions = router.handle_event(ProtocolEvent::Message {
        peer_id: PeerId(1),
        message: ProtocolMessage::Peers { body: vec![0] },
    });
    assert!(actions.is_empty());
}

#[test]
fn router_light_mode_drops_sync_info() {
    let mut router = Router::new();
    router.register_peer(PeerId(1), Direction::Outbound, ProxyMode::Full);
    router.register_peer(PeerId(2), Direction::Inbound, ProxyMode::Light);

    let actions = router.handle_event(ProtocolEvent::Message {
        peer_id: PeerId(2),
        message: ProtocolMessage::SyncInfo { body: vec![1, 2, 3] },
    });
    assert!(actions.is_empty(), "Light mode should not forward SyncInfo");
}

#[test]
fn router_full_mode_forwards_sync_info() {
    let mut router = Router::new();
    router.register_peer(PeerId(1), Direction::Outbound, ProxyMode::Full);
    router.register_peer(PeerId(2), Direction::Inbound, ProxyMode::Full);

    let actions = router.handle_event(ProtocolEvent::Message {
        peer_id: PeerId(2),
        message: ProtocolMessage::SyncInfo { body: vec![1, 2, 3] },
    });
    assert!(!actions.is_empty(), "Full mode should forward SyncInfo");
}

#[test]
fn router_sync_info_pairs_with_free_outbound() {
    let mut router = Router::new();
    router.register_peer(PeerId(1), Direction::Outbound, ProxyMode::Full);
    router.register_peer(PeerId(2), Direction::Outbound, ProxyMode::Full);
    router.register_peer(PeerId(3), Direction::Inbound, ProxyMode::Full);
    router.register_peer(PeerId(4), Direction::Inbound, ProxyMode::Full);

    let a = router.handle_event(ProtocolEvent::Message {
        peer_id: PeerId(3),
        message: ProtocolMessage::SyncInfo { body: vec![1] },
    });
    assert_eq!(targets(&a), vec![PeerId(1)]);
    let b = router.handle_event(ProtocolEvent::Message {
        peer_id: PeerId(4),
        message: ProtocolMessage::SyncInfo { body: vec![2] },
    });
    assert_eq!(targets(&b), vec![PeerId(2)]);

    // A paired inbound peer's later SyncInfo goes to its partner, even with another outbound peer free
    router.register_peer(PeerId(5), Direction::Outbound, ProxyMode::Full);
    let again = router.handle_event(ProtocolEvent::Message {
        peer_id: PeerId(3),
        message: ProtocolMessage::SyncInfo { body: vec![3] },
    });
    assert_eq!(targets(&again), vec![PeerId(1)]);

    // Outbound answers go back to the paired inbound peer
    let c = router.handle_event(ProtocolEvent::Message {
        peer_id: PeerId(2),
        message: ProtocolMessage::SyncInfo { body: vec![9] },
    });
    assert_eq!(targets(&c), vec![PeerId(4)]);
}

#[test]
fn router_unknown_forwarded_to_opposite_direction() {
    let mut router = Router::new();
    router.register_peer(PeerId(1), Direction::Inbound, ProxyMode::Full);
    router.register_peer(PeerId(2), Direction::Outbound, ProxyMode::Full);
    router.register_peer(PeerId(3), Direction::Inbound, ProxyMode::Light);

    let actions = router.handle_event(ProtocolEvent::Message {
        peer_id: PeerId(2),
        message: ProtocolMessage::Unknown { code: 99, body: vec![7] },
    });
    assert_eq!(targets(&actions), vec![PeerId(1), PeerId(3)]);
    assert!(matches!(&actions[0], Action::Send { message: ProtocolMessage::Unknown { code: 99, body }, .. }
        if body == &vec![7]));
}

#[test]
fn router_message_from_unregistered_peer_is_dropped() {
    let mut router = Router::new();
    router.register_peer(PeerId(1), Direction::Inbound, ProxyMode::Full);
    let actions = router.handle_event(ProtocolEvent::Message {
        peer_id: PeerId(9),
        message: ProtocolMessage::GetPeers,
    });
    assert!(actions.is_empty());
}

#[test]
fn router_peer_disconnect_purges_state() {
    let mut router = Router::new();
    router.register_peer(PeerId(1), Direction::Outbound, ProxyMode::Full);
    router.register_peer(PeerId(2), Direction::Inbound, ProxyMode::Full);

    router.handle_event(ProtocolEvent::Message {
        peer_id: PeerId(1),
        message: ProtocolMessage::Inv { modifier_type: 2, ids: vec![[0xaa; 32]] },
    });

    router.handle_event(ProtocolEvent::PeerDisconnected {
        peer_id: PeerId(1),
        reason: "gone".into(),
    });

    let actions = router.handle_event(ProtocolEvent::Message {
        peer_id: PeerId(2),
        message: ProtocolMessage::ModifierRequest { modifier_type: 2, ids: vec![[0xaa; 32]] },
    });
    assert!(actions.is_empty(), "Should not route to disconnected peer");
    assert_eq!(router.peer_count(), 1);
    assert!(router.outbound_peers().is_empty());
}

#[test]
fn router_disconnect_unpairs_sync() {
    let mut router = Router::new();
    router.register_peer(PeerId(1), Direction::Outbound, ProxyMode::Full);
    router.register_peer(PeerId(2), Direction::Inbound, ProxyMode::Full);
    router.handle_event(ProtocolEvent::Message {
        peer_id: PeerId(2),
        message: ProtocolMessage::SyncInfo { body: vec![1] },
    });
    router.handle_event(ProtocolEvent::PeerDisconnected { peer_id: PeerId(2), reason: "bye".into() });
    let actions = router.handle_event(ProtocolEvent::Message {
        peer_id: PeerId(1),
        message: ProtocolMessage::SyncInfo { body: vec![2] },
    });
    assert!(actions.is_empty());
}

#[test]
fn router_peer_lists_follow_registration_order() {
    let mut router = Router::new();
    router.register_peer(PeerId(3), Direction::Inbound, ProxyMode::Full);
    router.register_peer(PeerId(1), Direction::Outbound, ProxyMode::Full);
    router.register_peer(PeerId(2), Direction::Inbound, ProxyMode::Light);
    router.register_peer(PeerId(4), Direction::Outbound, ProxyMode::Full);
    assert_eq!(router.inbound_peers(), vec![PeerId(3), PeerId(2)]);
    assert_eq!(router.outbound_peers(), vec![PeerId(1), PeerId(4)]);
    assert_eq!(router.peer_count(), 4);

    // Registering again replaces the entry in place
    router.register_peer(PeerId(3), Direction::Outbound, ProxyMode::Full);
    assert_eq!(router.peer_count(), 4);
    assert_eq!(router.outbound_peers(), vec![PeerId(3), PeerId(1), PeerId(4)]);
}

#[test]
fn router_peer_connected_does_nothing() {
    let mut router = Router::new();
    let spec = PeerSpec {
        agent: "test".into(),
        version: Version::new(6, 0, 3),
        name: "test-node".into(),
        address: None,
        features: vec![],
    };
    let actions = router.handle_event(ProtocolEvent::PeerConnected {
        peer_id: PeerId(1),
        spec,
        direction: Direction::Inbound,
    });
    assert!(actions.is_empty());
    assert_eq!(router.peer_count(), 0);
}

#[test]
fn router_light_mode_drops_block_requests_but_not_transactions() {
    let mut router = Router::new();
    router.register_peer(PeerId(1), Direction::Outbound, ProxyMode::Full);
    router.register_peer(PeerId(2), Direction::Inbound, ProxyMode::Light);

    for t in [1u8, 2, 3, 4, 5] {
        router.handle_event(ProtocolEvent::Message {
            peer_id: PeerId(1),
            message: ProtocolMessage::Inv { modifier_type: t, ids: vec![[t; 32]] },
        });
    }
    for t in [1u8, 3, 4, 5] {
        let actions = router.handle_event(ProtocolEvent::Message {
            peer_id: PeerId(2),
            message: ProtocolMessage::ModifierRequest { modifier_type: t, ids: vec![[t; 32]] },
        });
        assert!(actions.is_empty(), "light peer's request for type {} must be dropped", t);
    }
    let actions = router.handle_event(ProtocolEvent::Message {
        peer_id: PeerId(2),
        message: ProtocolMessage::ModifierRequest { modifier_type: 2, ids: vec![[2; 32]] },
    });
    assert_eq!(targets(&actions), vec![PeerId(1)]);
}

#[test]
fn router_full_mode_forwards_block_requests() {
    let mut router = Router::new();
    router.register_peer(PeerId(1), Direction::Outbound, ProxyMode::Full);
    router.register_peer(PeerId(2), Direction::Inbound, ProxyMode::Full);
    router.handle_event(ProtocolEvent::Message {
        peer_id: PeerId(1),
        message: ProtocolMessage::Inv { modifier_type: 1, ids: vec![[7; 32]] },
    });
    let actions = router.handle_event(ProtocolEvent::Message {
        peer_id: PeerId(2),
        message: ProtocolMessage::ModifierRequest { modifier_type: 1, ids: vec![[7; 32]] },
    });
    assert_eq!(targets(&actions), vec![PeerId(1)]);
}

#[test]
fn router_second_sync_info_goes_to_partner() {
    let mut router = Router::new();
    router.register_peer(PeerId(1), Direction::Outbound, ProxyMode::Full);
    router.register_peer(PeerId(2), Direction::Inbound, ProxyMode::Full);
    let first = router.handle_event(ProtocolEvent::Message {
        peer_id: PeerId(2),
        message: ProtocolMessage::SyncInfo { body: vec![1, 2, 3] },
    });
    assert_eq!(targets(&first), vec![PeerId(1)]);
    let second = router.handle_event(ProtocolEvent::Message {
        peer_id: PeerId(2),
        message: ProtocolMessage::SyncInfo { body: vec![7] },
    });
    assert_eq!(targets(&second), vec![PeerId(1)]);
    match &second[0] {
        Action::Send { message: ProtocolMessage::SyncInfo { body }, .. } => assert_eq!(body, &vec![7]),
        _ => panic!("expected SyncInfo"),
    }
}

#[test]
fn router_disconnect_after_repeated_sync_forgets_peer() {
    let mut router = Router::new();
    router.register_peer(PeerId(1), Direction::Outbound, ProxyMode::Full);
    router.register_peer(PeerId(2), Direction::Outbound, ProxyMode::Full);
    router.register_peer(PeerId(3), Direction::Inbound, ProxyMode::Full);
    for _ in 0..2 {
        router.handle_event(ProtocolEvent::Message {
            peer_id: PeerId(3),
            message: ProtocolMessage::SyncInfo { body: vec![1] },
        });
    }
    router.handle_event(ProtocolEvent::PeerDisconnected { peer_id: PeerId(3), reason: "gone".into() });
    for p in [PeerId(1), PeerId(2)] {
        let acts = router.handle_event(ProtocolEvent::Message {
            peer_id: p,
            message: ProtocolMessage::SyncInfo { body: vec![9] },
        });
        assert!(acts.is_empty());
    }
    assert_eq!(router.inbound_peers(), Vec::<PeerId>::new());
}

#[test]
fn sync_tracker_repairing_drops_old_pairing() {
    let mut t = SyncTracker::new();
    t.pair(PeerId(1), PeerId(10));
    t.pair(PeerId(1), PeerId(20));
    assert_eq!(t.outbound_for(&PeerId(1)), Some(PeerId(20)));
    assert_eq!(t.inbound_for(&PeerId(20)), Some(PeerId(1)));
    assert_eq!(t.inbound_for(&PeerId(10)), None);
    t.pair(PeerId(2), PeerId(20));
    assert_eq!(t.outbound_for(&PeerId(1)), None);
    assert_eq!(t.inbound_for(&PeerId(20)), Some(PeerId(2)));
}
