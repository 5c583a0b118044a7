use enxame_tracker::{
    AnnounceEvent, AnnounceRequest, Registry, SocketAddr, ANNOUNCE_INTERVAL, MAX_PEERS, PEER_TTL,
};

const SECOND: u64 = 1_000_000_000;

fn req(peer: u8, port: u16, left: u64, event: AnnounceEvent) -> AnnounceRequest {
    AnnounceRequest {
        info_hash: [1u8; 20],
        peer_id: [peer; 20],
        addr: SocketAddr::from(([10, 0, 0, peer], port)),
        left,
        event,
    }
}

fn to_swarm(hash: u8, mut req: AnnounceRequest) -> AnnounceRequest {
    req.info_hash = [hash; 20];
    req
}

#[test]
fn registers_peers_and_returns_others() {
    let mut r = Registry::new();
    let now: u64 = 5 * SECOND;
    // Seeder A announces to an empty swarm and gets no peers back.
    let resp = r.announce(&req(1, 6881, 0, AnnounceEvent::Started), now);
    assert_eq!(resp.peers, vec![]);
    assert_eq!(resp.complete, 1);
    assert_eq!(resp.incomplete, 0);
    // Leecher B announces and gets A back.
    let resp = r.announce(&req(2, 6882, 100, AnnounceEvent::Started), now);
    assert_eq!(resp.peers, vec![SocketAddr::from(([10, 0, 0, 1], 6881))]);
    assert_eq!(resp.complete, 1);
    assert_eq!(resp.incomplete, 1);
}

#[test]
fn stopped_removes_the_peer() {
    let mut r = Registry::new();
    let now: u64 = 0;
    r.announce(&req(1, 6881, 0, AnnounceEvent::Started), now);
    r.announce(&req(2, 6882, 0, AnnounceEvent::Started), now);
    let resp = r.announce(&req(1, 6881, 0, AnnounceEvent::Stopped), now);
    // After A stops, only B remains; A's own response excludes itself.
    assert_eq!(resp.complete, 1);
    assert_eq!(resp.incomplete, 0);
    assert_eq!(resp.peers, vec![SocketAddr::from(([10, 0, 0, 2], 6882))]);
}

#[test]
fn reaps_stale_peers() {
    let mut r = Registry::new();
    let t0: u64 = 7 * SECOND;
    r.announce(&req(1, 6881, 0, AnnounceEvent::Started), t0);
    let later = t0 + PEER_TTL + SECOND;
    r.reap(later);
    assert_eq!(r.swarm_count(), 0);
}

#[test]
fn constants_fit_together() {
    assert_eq!(ANNOUNCE_INTERVAL, 1800);
    assert_eq!(MAX_PEERS, 50);
    assert_eq!(PEER_TTL, 2 * 1800 * SECOND);
}

#[test]
fn a_new_registry_is_empty() {
    let r = Registry::new();
    assert_eq!(r.swarm_count(), 0);
    assert_eq!(r.peer_count(&[1u8; 20]), 0);
    assert_eq!(Registry::default().swarm_count(), 0);
}

#[test]
fn the_reply_gives_the_interval() {
    let mut r = Registry::new();
    let resp = r.announce(&req(1, 6881, 0, AnnounceEvent::Refresh), 0);
    assert_eq!(resp.interval, 1800);
}

#[test]
fn a_peer_goes_stale_at_the_limit_and_not_before() {
    let t0: u64 = 3 * SECOND;
    let mut r = Registry::new();
    r.announce(&req(1, 6881, 0, AnnounceEvent::Started), t0);
    r.reap(t0 + PEER_TTL - 1);
    assert_eq!(r.swarm_count(), 1);
    r.reap(t0 + PEER_TTL);
    assert_eq!(r.swarm_count(), 0);
}

#[test]
fn an_announce_drops_stale_peers_of_its_swarm() {
    let mut r = Registry::new();
    r.announce(&req(1, 6881, 0, AnnounceEvent::Started), 0);
    r.announce(&req(2, 6882, 0, AnnounceEvent::Started), SECOND);
    let resp = r.announce(&req(3, 6883, 9, AnnounceEvent::Started), PEER_TTL);
    assert_eq!(resp.complete, 1);
    assert_eq!(resp.incomplete, 1);
    assert_eq!(resp.peers, vec![SocketAddr::from(([10, 0, 0, 2], 6882))]);
}

#[test]
fn an_announce_leaves_other_swarms_alone() {
    let mut r = Registry::new();
    r.announce(&to_swarm(8, req(1, 6881, 0, AnnounceEvent::Started)), 0);
    r.announce(&to_swarm(9, req(2, 6882, 0, AnnounceEvent::Started)), PEER_TTL);
    // The stale peer of the other swarm is still there until a reap.
    assert_eq!(r.swarm_count(), 2);
    assert_eq!(r.peer_count(&[8u8; 20]), 1);
    r.reap(PEER_TTL);
    assert_eq!(r.swarm_count(), 1);
    assert_eq!(r.peer_count(&[8u8; 20]), 0);
    assert_eq!(r.peer_count(&[9u8; 20]), 1);
}

#[test]
fn a_peer_seen_later_than_now_is_fresh() {
    let mut r = Registry::new();
    r.announce(&req(1, 6881, 0, AnnounceEvent::Started), 2 * PEER_TTL);
    r.reap(0);
    assert_eq!(r.peer_count(&[1u8; 20]), 1);
}

#[test]
fn to_stop_in_an_unknown_swarm_tracks_it_without_peers() {
    let mut r = Registry::new();
    let resp = r.announce(&req(1, 6881, 0, AnnounceEvent::Stopped), 0);
    assert_eq!(resp.complete + resp.incomplete, 0);
    assert_eq!(r.swarm_count(), 1);
    r.reap(0);
    assert_eq!(r.swarm_count(), 0);
}

#[test]
fn an_announce_tracks_its_swarm() {
    let mut r = Registry::new();
    r.announce(&req(1, 6881, 0, AnnounceEvent::Started), 0);
    assert_eq!(r.swarm_count(), 1);
    // A tracked swarm stays one swarm, whatever the event is.
    r.announce(&req(2, 6882, 0, AnnounceEvent::Started), 0);
    r.announce(&req(1, 6881, 0, AnnounceEvent::Stopped), 0);
    r.announce(&req(2, 6882, 0, AnnounceEvent::Stopped), 0);
    assert_eq!(r.swarm_count(), 1);
    // One more swarm, also if the peer only stops.
    r.announce(&to_swarm(2, req(1, 6881, 0, AnnounceEvent::Stopped)), 0);
    assert_eq!(r.swarm_count(), 2);
    r.announce(&to_swarm(3, req(1, 6881, 5, AnnounceEvent::Refresh)), 0);
    assert_eq!(r.swarm_count(), 3);
}

#[test]
fn to_announce_again_replaces_the_entry() {
    let mut r = Registry::new();
    r.announce(&req(1, 6881, 100, AnnounceEvent::Started), 0);
    let resp = r.announce(&req(1, 7000, 0, AnnounceEvent::Completed), 1);
    assert_eq!(resp.complete, 1);
    assert_eq!(resp.incomplete, 0);
    let resp = r.announce(&req(2, 6882, 5, AnnounceEvent::Started), 2);
    assert_eq!(resp.peers, vec![SocketAddr::from(([10, 0, 0, 1], 7000))]);
}

#[test]
fn to_announce_the_same_twice_is_to_announce_it_once() {
    let mut r = Registry::new();
    r.announce(&req(2, 6882, 5, AnnounceEvent::Started), 0);
    let once = r.announce(&req(1, 6881, 0, AnnounceEvent::Started), 1);
    let twice = r.announce(&req(1, 6881, 0, AnnounceEvent::Started), 1);
    assert_eq!(once, twice);
    assert_eq!(r.peer_count(&[1u8; 20]), 2);
}

#[test]
fn to_stop_undoes_an_announce() {
    let mut with = Registry::new();
    let mut without = Registry::new();
    with.announce(&req(2, 6882, 5, AnnounceEvent::Started), 0);
    without.announce(&req(2, 6882, 5, AnnounceEvent::Started), 0);
    with.announce(&req(1, 6881, 0, AnnounceEvent::Started), 1);
    let a = with.announce(&req(1, 6881, 0, AnnounceEvent::Stopped), 2);
    let b = without.announce(&req(1, 6881, 0, AnnounceEvent::Stopped), 2);
    assert_eq!(a, b);
    assert_eq!(with.peer_count(&[1u8; 20]), 1);
}

#[test]
fn a_reply_names_at_most_fifty_others() {
    let mut r = Registry::new();
    for peer in 0u8..60 {
        r.announce(&req(peer, 7000, u64::from(peer % 3), AnnounceEvent::Started), 0);
    }
    let resp = r.announce(&req(30, 7000, 0, AnnounceEvent::Refresh), 0);
    assert_eq!(resp.complete, 20);
    assert_eq!(resp.incomplete, 40);
    assert_eq!(resp.peers.len(), 50);
    for (i, a) in resp.peers.iter().enumerate() {
        assert_ne!(*a, SocketAddr::from(([10, 0, 0, 30], 7000)));
        for b in &resp.peers[i + 1..] {
            assert_ne!(a, b);
        }
    }
}

#[test]
fn a_reply_names_every_other_peer_of_a_small_swarm() {
    let mut r = Registry::new();
    for peer in [9u8, 3, 200, 17, 4] {
        r.announce(&req(peer, 7000, 1, AnnounceEvent::Started), 0);
    }
    let resp = r.announce(&req(17, 7000, 1, AnnounceEvent::Refresh), 0);
    assert_eq!(resp.peers.len(), 4);
    for peer in [9u8, 3, 200, 4] {
        assert!(resp.peers.contains(&SocketAddr::from(([10, 0, 0, peer], 7000))));
    }
}

#[test]
fn a_punctual_peer_is_kept() {
    let mut r = Registry::new();
    let mut now: u64 = 0;
    for _ in 0..5 {
        r.announce(&req(1, 6881, 0, AnnounceEvent::Refresh), now);
        now += 1800 * SECOND;
        r.reap(now);
        assert_eq!(r.peer_count(&[1u8; 20]), 1);
    }
}

#[test]
fn to_reap_twice_is_to_reap_once() {
    let mut r = Registry::new();
    r.announce(&req(1, 6881, 0, AnnounceEvent::Started), 0);
    r.announce(&req(2, 6882, 0, AnnounceEvent::Started), 9 * SECOND);
    r.reap(PEER_TTL);
    assert_eq!(r.peer_count(&[1u8; 20]), 1);
    r.reap(PEER_TTL);
    assert_eq!(r.peer_count(&[1u8; 20]), 1);
    assert_eq!(r.swarm_count(), 1);
}

#[test]
fn the_order_of_reap_and_announce_does_not_matter_to_the_swarm() {
    let mut a = Registry::new();
    let mut b = Registry::new();
    for r in [&mut a, &mut b] {
        r.announce(&req(1, 6881, 0, AnnounceEvent::Started), 0);
        r.announce(&req(2, 6882, 4, AnnounceEvent::Started), SECOND);
    }
    a.reap(PEER_TTL);
    let first = a.announce(&req(3, 6883, 4, AnnounceEvent::Started), PEER_TTL);
    let second = b.announce(&req(3, 6883, 4, AnnounceEvent::Started), PEER_TTL);
    b.reap(PEER_TTL);
    assert_eq!(first, second);
    assert_eq!(a.peer_count(&[1u8; 20]), 2);
    assert_eq!(b.peer_count(&[1u8; 20]), 2);
}

#[test]
fn many_swarms_are_told_apart() {
    let mut r = Registry::new();
    for hash in [200u8, 3, 90, 255, 0, 17] {
        for peer in 0..=hash / 50 {
            r.announce(&to_swarm(hash, req(peer, 6881, 0, AnnounceEvent::Started)), 0);
        }
    }
    assert_eq!(r.swarm_count(), 6);
    for hash in [200u8, 3, 90, 255, 0, 17] {
        assert_eq!(r.peer_count(&[hash; 20]), usize::from(hash / 50) + 1);
    }
    assert_eq!(r.peer_count(&[1u8; 20]), 0);
}

#[test]
fn identities_that_differ_in_the_last_byte_are_different() {
    let mut r = Registry::new();
    for last in [5u8, 1, 9] {
        let mut announce = req(1, 6881, 0, AnnounceEvent::Started);
        announce.peer_id[19] = last;
        r.announce(&announce, 0);
    }
    assert_eq!(r.peer_count(&[1u8; 20]), 3);
}
