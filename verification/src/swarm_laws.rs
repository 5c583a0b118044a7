//! What holds of announces and reaping, whatever the swarms.

use vstd::prelude::*;

use crate::addr::SocketAddr;
use crate::announce::{AnnounceEvent, AnnounceRequest, ANNOUNCE_INTERVAL, MAX_PEERS, PEER_TTL};
use crate::registry::{
    after_announce, announced, chosen_from, fresh, is_countable, is_fresh, is_selection, leechers,
    lemma_announced_len, lemma_counts_bounded, reaped, seeders, swarm_of, PeerEntry,
    Registry,
};

verus! {

/// Law: a peer that announces anything but that it stops is in the swarm
/// afterwards, as it announced itself.
pub proof fn announcer_is_registered(
    swarms: Map<Seq<u8>, Map<Seq<u8>, PeerEntry>>,
    req: AnnounceRequest,
    now: u64,
)
    requires
        req.event != AnnounceEvent::Stopped,
    ensures
        after_announce(swarms, req, now)[req.info_hash@].contains_key(req.peer_id@),
        after_announce(swarms, req, now)[req.info_hash@][req.peer_id@] == (PeerEntry {
            addr: req.addr,
            is_seeder: req.left == 0,
            last_seen: now,
        }),
{
}

/// Law: a peer that stops is not in the swarm afterwards.
pub proof fn stopped_peer_is_removed(
    swarms: Map<Seq<u8>, Map<Seq<u8>, PeerEntry>>,
    req: AnnounceRequest,
    now: u64,
)
    requires
        req.event == AnnounceEvent::Stopped,
    ensures
        !after_announce(swarms, req, now)[req.info_hash@].contains_key(req.peer_id@),
{
}

/// Law: an announce keeps every other peer of its swarm as it was, unless the
/// peer has gone stale.
pub proof fn other_peers_are_kept(
    swarms: Map<Seq<u8>, Map<Seq<u8>, PeerEntry>>,
    req: AnnounceRequest,
    now: u64,
    id: Seq<u8>,
)
    requires
        id != req.peer_id@,
    ensures
        ({
            let before = swarm_of(swarms, req.info_hash@);
            let after = after_announce(swarms, req, now)[req.info_hash@];
            &&& after.contains_key(id) <==> before.contains_key(id) && is_fresh(now)(before[id])
            &&& after.contains_key(id) ==> after[id] == before[id]
        }),
{
}

/// Law: an announce changes no swarm but its own.
pub proof fn other_swarms_are_untouched(
    swarms: Map<Seq<u8>, Map<Seq<u8>, PeerEntry>>,
    req: AnnounceRequest,
    now: u64,
    info_hash: Seq<u8>,
)
    requires
        info_hash != req.info_hash@,
    ensures
        after_announce(swarms, req, now).contains_key(info_hash) == swarms.contains_key(info_hash),
        swarm_of(after_announce(swarms, req, now), info_hash) == swarm_of(swarms, info_hash),
{
}

/// Law: no stale peer is left in a swarm after an announce.
pub proof fn announce_leaves_fresh_peers(
    swarms: Map<Seq<u8>, Map<Seq<u8>, PeerEntry>>,
    req: AnnounceRequest,
    now: u64,
    id: Seq<u8>,
)
    requires
        after_announce(swarms, req, now)[req.info_hash@].contains_key(id),
    ensures
        is_fresh(now)(after_announce(swarms, req, now)[req.info_hash@][id]),
{
}

/// Law: to announce the same twice is to announce it once.
pub proof fn announce_is_idempotent(
    swarms: Map<Seq<u8>, Map<Seq<u8>, PeerEntry>>,
    req: AnnounceRequest,
    now: u64,
)
    ensures
        after_announce(after_announce(swarms, req, now), req, now) == after_announce(
            swarms,
            req,
            now,
        ),
{
    let once = announced(swarm_of(swarms, req.info_hash@), req, now);
    assert(announced(once, req, now) =~= once);
    assert(after_announce(after_announce(swarms, req, now), req, now) =~= after_announce(
        swarms,
        req,
        now,
    ));
}

/// Law: to stop undoes what the same peer announced: the swarm is as if the
/// peer had only stopped.
pub proof fn stop_undoes_announce(
    swarms: Map<Seq<u8>, Map<Seq<u8>, PeerEntry>>,
    start: AnnounceRequest,
    stop: AnnounceRequest,
    then: u64,
    now: u64,
)
    requires
        start.info_hash@ == stop.info_hash@,
        start.peer_id@ == stop.peer_id@,
        stop.event == AnnounceEvent::Stopped,
        then <= now,
    ensures
        after_announce(after_announce(swarms, start, then), stop, now) == after_announce(
            swarms,
            stop,
            now,
        ),
{
    let swarm = swarm_of(swarms, start.info_hash@);
    assert(announced(announced(swarm, start, then), stop, now) =~= announced(swarm, stop, now));
    assert(after_announce(after_announce(swarms, start, then), stop, now) =~= after_announce(
        swarms,
        stop,
        now,
    ));
}

/// Law: every peer of a swarm is counted once, as a seeder or as a leecher.
pub proof fn counts_cover_the_swarm(swarm: Map<Seq<u8>, PeerEntry>)
    requires
        swarm.dom().finite(),
    ensures
        seeders(swarm).len() + leechers(swarm).len() == swarm.len(),
        seeders(swarm).disjoint(leechers(swarm)),
{
    swarm.dom().lemma_len_filter(|id: Seq<u8>| swarm[id].is_seeder);
    swarm.dom().lemma_len_filter(|id: Seq<u8>| !swarm[id].is_seeder);
    vstd::set_lib::lemma_set_disjoint_lens(seeders(swarm), leechers(swarm));
    assert(seeders(swarm) + leechers(swarm) =~= swarm.dom());
}

/// Law: a peer that announces nothing left to download is counted as a
/// seeder, and any other as a leecher.
pub proof fn announcer_is_counted(
    swarms: Map<Seq<u8>, Map<Seq<u8>, PeerEntry>>,
    req: AnnounceRequest,
    now: u64,
)
    requires
        req.event != AnnounceEvent::Stopped,
    ensures
        seeders(after_announce(swarms, req, now)[req.info_hash@]).contains(req.peer_id@) == (
        req.left == 0),
        leechers(after_announce(swarms, req, now)[req.info_hash@]).contains(req.peer_id@) == (
        req.left != 0),
{
}

/// Law: a reply names at most `MAX_PEERS` peers.
pub proof fn selection_is_bounded(
    peers: Seq<SocketAddr>,
    swarm: Map<Seq<u8>, PeerEntry>,
    announcer: Seq<u8>,
)
    requires
        is_selection(peers, swarm, announcer),
    ensures
        peers.len() <= MAX_PEERS,
{
}

/// Law: each address in a reply is that of a peer of the swarm other than the
/// announcer.
pub proof fn selection_names_others(
    peers: Seq<SocketAddr>,
    swarm: Map<Seq<u8>, PeerEntry>,
    announcer: Seq<u8>,
    i: int,
)
    requires
        is_selection(peers, swarm, announcer),
        0 <= i < peers.len(),
    ensures
        exists|id: Seq<u8>| #[trigger]
            swarm.contains_key(id) && id != announcer && swarm[id].addr == peers[i],
{
    let ids = choose|ids: Seq<Seq<u8>>| #[trigger]
        chosen_from(ids, swarm, announcer) && peers == ids.map_values(
            |id: Seq<u8>| swarm[id].addr,
        );
    assert(swarm.contains_key(ids[i]));
    assert(peers[i] == swarm[ids[i]].addr);
}

/// Law: in a swarm of at most `MAX_PEERS` others, a reply names every one of
/// them.
pub proof fn small_swarm_is_named_whole(
    peers: Seq<SocketAddr>,
    swarm: Map<Seq<u8>, PeerEntry>,
    announcer: Seq<u8>,
    id: Seq<u8>,
)
    requires
        is_selection(peers, swarm, announcer),
        swarm.dom().finite(),
        swarm.dom().remove(announcer).len() <= MAX_PEERS,
        swarm.contains_key(id),
        id != announcer,
    ensures
        peers.contains(swarm[id].addr),
        peers.len() == swarm.dom().remove(announcer).len(),
{
    let ids = choose|ids: Seq<Seq<u8>>| #[trigger]
        chosen_from(ids, swarm, announcer) && peers == ids.map_values(
            |id: Seq<u8>| swarm[id].addr,
        );
    let others = swarm.dom().remove(announcer);
    ids.unique_seq_to_set();
    assert(ids.to_set().subset_of(others));
    vstd::set_lib::lemma_subset_equality(ids.to_set(), others);
    assert(ids.to_set().contains(id));
    let k = ids.index_of(id);
    assert(peers[k] == swarm[id].addr);
}

/// Law: reaping keeps the fresh peers, and only them.
pub proof fn reap_keeps_fresh_peers(
    swarms: Map<Seq<u8>, Map<Seq<u8>, PeerEntry>>,
    now: u64,
    info_hash: Seq<u8>,
    id: Seq<u8>,
)
    ensures
        ({
            let before = swarm_of(swarms, info_hash);
            let after = swarm_of(reaped(swarms, now), info_hash);
            &&& after.contains_key(id) <==> before.contains_key(id) && is_fresh(now)(before[id])
            &&& after.contains_key(id) ==> after[id] == before[id]
        }),
{
    if swarms.contains_key(info_hash) {
        let left = fresh(swarms[info_hash], now);
        if left.contains_key(id) {
            assert(!left.dom().is_empty());
        }
    }
}

/// Law: after reaping, every swarm that is tracked has a peer.
pub proof fn reap_leaves_no_empty_swarm(
    swarms: Map<Seq<u8>, Map<Seq<u8>, PeerEntry>>,
    now: u64,
    info_hash: Seq<u8>,
)
    requires
        reaped(swarms, now).contains_key(info_hash),
    ensures
        exists|id: Seq<u8>| #[trigger] reaped(swarms, now)[info_hash].contains_key(id),
{
    let left = reaped(swarms, now)[info_hash];
    assert(left == fresh(swarms[info_hash], now));
    if forall|id: Seq<u8>| !left.contains_key(id) {
        assert(left.dom() =~= Set::empty());
    }
    let id = left.dom().choose();
    assert(reaped(swarms, now)[info_hash].contains_key(id));
}

/// Law: a later reaping makes an earlier one unnecessary; in particular, to
/// reap twice is to reap once.
pub proof fn later_reap_subsumes(
    swarms: Map<Seq<u8>, Map<Seq<u8>, PeerEntry>>,
    then: u64,
    now: u64,
)
    requires
        then <= now,
    ensures
        reaped(reaped(swarms, then), now) == reaped(swarms, now),
{
    let left = reaped(reaped(swarms, then), now);
    let goal = reaped(swarms, now);
    assert forall|info_hash: Seq<u8>| swarms.contains_key(info_hash) implies fresh(
        fresh(swarms[info_hash], then),
        now,
    ) == fresh(swarms[info_hash], now) by {
        assert(fresh(fresh(swarms[info_hash], then), now) =~= fresh(swarms[info_hash], now));
    }
    assert forall|info_hash: Seq<u8>| left.contains_key(info_hash) == goal.contains_key(
        info_hash,
    ) by {
        if goal.contains_key(info_hash) {
            let last = fresh(swarms[info_hash], now);
            let id = last.dom().choose();
            assert(last.contains_key(id)) by {
                if forall|i: Seq<u8>| !last.contains_key(i) {
                    assert(last.dom() =~= Set::empty());
                }
            }
            assert(fresh(swarms[info_hash], then).contains_key(id));
            assert(!fresh(swarms[info_hash], then).dom().is_empty());
        }
    }
    assert(left =~= goal);
}

/// Law: when every peer has been silent for `PEER_TTL`, reaping leaves
/// nothing.
pub proof fn silent_swarms_are_reaped(
    swarms: Map<Seq<u8>, Map<Seq<u8>, PeerEntry>>,
    now: u64,
)
    requires
        forall|info_hash: Seq<u8>, id: Seq<u8>|
            swarms.contains_key(info_hash) && #[trigger] swarms[info_hash].contains_key(id)
                ==> swarms[info_hash][id].last_seen + PEER_TTL <= now,
    ensures
        reaped(swarms, now) == Map::<Seq<u8>, Map<Seq<u8>, PeerEntry>>::empty(),
{
    assert forall|info_hash: Seq<u8>| !reaped(swarms, now).contains_key(info_hash) by {
        if swarms.contains_key(info_hash) {
            assert(fresh(swarms[info_hash], now).dom() =~= Set::empty());
        }
    }
    assert(reaped(swarms, now) =~= Map::empty());
}

/// Law: a peer that announces again within the interval that it was asked
/// for does not go stale, nor does one that is less than a whole interval
/// late.
pub proof fn punctual_peer_is_kept(peer: PeerEntry, now: u64)
    requires
        now < peer.last_seen + 2 * ANNOUNCE_INTERVAL * 1_000_000_000,
    ensures
        is_fresh(now)(peer),
{
}

/// Law: what reaping at any time would drop, an announce to that swarm at the
/// same time drops too: the order of the two does not matter to the swarm.
pub proof fn reap_and_announce_commute(
    swarms: Map<Seq<u8>, Map<Seq<u8>, PeerEntry>>,
    req: AnnounceRequest,
    now: u64,
)
    ensures
        swarm_of(reaped(after_announce(swarms, req, now), now), req.info_hash@) == swarm_of(
            after_announce(reaped(swarms, now), req, now),
            req.info_hash@,
        ),
{
    let hash = req.info_hash@;
    let a = swarm_of(reaped(after_announce(swarms, req, now), now), hash);
    let b = swarm_of(after_announce(reaped(swarms, now), req, now), hash);
    assert forall|id: Seq<u8>| a.contains_key(id) == b.contains_key(id) && (a.contains_key(id)
        ==> a[id] == b[id]) by {
        reap_keeps_fresh_peers(after_announce(swarms, req, now), now, hash, id);
        reap_keeps_fresh_peers(swarms, now, hash, id);
        if id != req.peer_id@ {
            other_peers_are_kept(swarms, req, now, id);
            other_peers_are_kept(reaped(swarms, now), req, now, id);
        }
    }
    assert(a =~= b);
}

/// Peers selected from the same swarm for the same announcer are equally many.
proof fn lemma_selections_equally_long(
    a: Seq<SocketAddr>,
    b: Seq<SocketAddr>,
    swarm: Map<Seq<u8>, PeerEntry>,
    announcer: Seq<u8>,
)
    requires
        is_selection(a, swarm, announcer),
        is_selection(b, swarm, announcer),
    ensures
        a.len() == b.len(),
{
}

/// Law: an announce can be repeated at the same time. The second one leaves
/// the swarms as the first one did, can be counted if the first one could, and
/// is answered with the same counts and as many peers.
pub proof fn repeated_announce_is_answered_alike(
    swarms: Map<Seq<u8>, Map<Seq<u8>, PeerEntry>>,
    req: AnnounceRequest,
    now: u64,
    peers1: Seq<SocketAddr>,
    peers2: Seq<SocketAddr>,
)
    requires
        ({
            let once = after_announce(swarms, req, now);
            let twice = after_announce(once, req, now);
            &&& is_selection(peers1, once[req.info_hash@], req.peer_id@)
            &&& is_selection(peers2, twice[req.info_hash@], req.peer_id@)
        }),
    ensures
        ({
            let once = after_announce(swarms, req, now);
            let twice = after_announce(once, req, now);
            &&& twice == once
            &&& is_countable(once[req.info_hash@]) ==> is_countable(twice[req.info_hash@])
            &&& seeders(twice[req.info_hash@]).len() == seeders(once[req.info_hash@]).len()
            &&& leechers(twice[req.info_hash@]).len() == leechers(once[req.info_hash@]).len()
            &&& peers1.len() == peers2.len()
        }),
{
    announce_is_idempotent(swarms, req, now);
    lemma_selections_equally_long(
        peers1,
        peers2,
        after_announce(swarms, req, now)[req.info_hash@],
        req.peer_id@,
    );
}

/// Law: to stop undoes a start at the same time, and does no harm where there
/// was none. From the same swarms, a start and a stop leave what the stop alone
/// leaves: the peer is gone. Both stops can be counted if the start could, and
/// both are answered with the same counts and as many peers.
pub proof fn stop_is_answered_alike(
    swarms: Map<Seq<u8>, Map<Seq<u8>, PeerEntry>>,
    start: AnnounceRequest,
    stop: AnnounceRequest,
    now: u64,
    peers1: Seq<SocketAddr>,
    peers2: Seq<SocketAddr>,
)
    requires
        start.info_hash@ == stop.info_hash@,
        start.peer_id@ == stop.peer_id@,
        start.event != AnnounceEvent::Stopped,
        stop.event == AnnounceEvent::Stopped,
        swarm_of(swarms, start.info_hash@).dom().finite(),
        ({
            let started = after_announce(swarms, start, now);
            let stopped = after_announce(started, stop, now);
            &&& is_selection(peers1, stopped[stop.info_hash@], stop.peer_id@)
            &&& is_selection(
                peers2,
                after_announce(swarms, stop, now)[stop.info_hash@],
                stop.peer_id@,
            )
        }),
    ensures
        ({
            let started = after_announce(swarms, start, now);
            let stopped = after_announce(started, stop, now);
            let only_stopped = after_announce(swarms, stop, now);
            &&& stopped == only_stopped
            &&& !stopped[stop.info_hash@].contains_key(stop.peer_id@)
            &&& is_countable(started[start.info_hash@]) ==> is_countable(stopped[stop.info_hash@])
            &&& is_countable(started[start.info_hash@]) ==> is_countable(
                only_stopped[stop.info_hash@],
            )
            &&& seeders(stopped[stop.info_hash@]).len() == seeders(
                only_stopped[stop.info_hash@],
            ).len()
            &&& leechers(stopped[stop.info_hash@]).len() == leechers(
                only_stopped[stop.info_hash@],
            ).len()
            &&& peers1.len() == peers2.len()
        }),
{
    let hash = start.info_hash@;
    let started = after_announce(swarms, start, now)[hash];
    let stopped = after_announce(swarms, stop, now)[hash];
    stop_undoes_announce(swarms, start, stop, now, now);
    stopped_peer_is_removed(swarms, stop, now);
    lemma_selections_equally_long(peers1, peers2, stopped, stop.peer_id@);
    lemma_announced_len(swarm_of(swarms, hash), start, now);
    lemma_counts_bounded(started);
    assert forall|id: Seq<u8>| stopped.contains_key(id) implies started.contains_key(id)
        && started[id] == stopped[id] by {
        other_peers_are_kept(swarms, start, now, id);
        other_peers_are_kept(swarms, stop, now, id);
    }
    assert(seeders(stopped).subset_of(seeders(started)));
    assert(leechers(stopped).subset_of(leechers(started)));
    vstd::set_lib::lemma_len_subset(seeders(stopped), seeders(started));
    vstd::set_lib::lemma_len_subset(leechers(stopped), leechers(started));
}

/// Law: an announce, whatever its event, tracks its swarm and drops none: one
/// more swarm is tracked after it if its swarm was not tracked before, and as
/// many as before if it was.
pub proof fn announce_tracks_its_swarm(
    swarms: Map<Seq<u8>, Map<Seq<u8>, PeerEntry>>,
    req: AnnounceRequest,
    now: u64,
)
    requires
        swarms.dom().finite(),
    ensures
        after_announce(swarms, req, now).dom() == swarms.dom().insert(req.info_hash@),
        after_announce(swarms, req, now).len() == if swarms.contains_key(req.info_hash@) {
            swarms.len()
        } else {
            swarms.len() + 1
        },
{
    assert(after_announce(swarms, req, now).dom() =~= swarms.dom().insert(req.info_hash@));
}

/// Law: a reply names as many peers as it can: all the others of a swarm, or
/// `MAX_PEERS` of them, each of a different identity, and by its own address.
pub proof fn selection_is_as_large_as_can_be(
    peers: Seq<SocketAddr>,
    swarm: Map<Seq<u8>, PeerEntry>,
    announcer: Seq<u8>,
)
    requires
        is_selection(peers, swarm, announcer),
        swarm.dom().finite(),
    ensures
        swarm.dom().remove(announcer).len() >= 50 ==> peers.len() == 50,
        swarm.dom().remove(announcer).len() <= 50 ==> peers.len() == swarm.dom().remove(
            announcer,
        ).len(),
        exists|ids: Seq<Seq<u8>>|
            {
                &&& #[trigger] ids.no_duplicates()
                &&& ids.len() == peers.len()
                &&& forall|k: int|
                    0 <= k < ids.len() ==> {
                        &&& swarm.contains_key(#[trigger] ids[k])
                        &&& ids[k] != announcer
                        &&& swarm[ids[k]].addr == peers[k]
                    }
            },
{
    let ids = choose|ids: Seq<Seq<u8>>| #[trigger]
        chosen_from(ids, swarm, announcer) && peers == ids.map_values(
            |id: Seq<u8>| swarm[id].addr,
        );
    assert(ids.no_duplicates());
    assert(forall|k: int| 0 <= k < ids.len() ==> peers[k] == swarm[#[trigger] ids[k]].addr);
}

/// Law: a peer goes stale an hour, which is two announce intervals, after its
/// last announce, and not before.
pub proof fn peer_is_fresh_for_an_hour(peer: PeerEntry, now: u64)
    ensures
        is_fresh(now)(peer) <==> now < peer.last_seen + 60 * 60 * 1_000_000_000,
        60 * 60 == 2 * ANNOUNCE_INTERVAL,
{
}

/// Law: the swarm of an info-hash has the peers that are tracked for it, and
/// no others.
pub proof fn swarm_is_what_is_tracked(
    swarms: Map<Seq<u8>, Map<Seq<u8>, PeerEntry>>,
    info_hash: Seq<u8>,
)
    ensures
        swarms.contains_key(info_hash) ==> swarm_of(swarms, info_hash) == swarms[info_hash],
        !swarms.contains_key(info_hash) ==> swarm_of(swarms, info_hash).dom() == Set::<
            Seq<u8>,
        >::empty(),
{
}

/// Law: an announce changes one peer of one swarm: the peer that it is from is
/// entered as it announces itself, or leaves if it stops; the other peers of
/// its swarm stay as they are for an hour from their last announce; and other
/// swarms stay as they are. The swarm is tracked afterwards.
pub proof fn announce_changes_one_peer(
    swarms: Map<Seq<u8>, Map<Seq<u8>, PeerEntry>>,
    req: AnnounceRequest,
    now: u64,
    info_hash: Seq<u8>,
    id: Seq<u8>,
)
    ensures
        ({
            let after = after_announce(swarms, req, now);
            let was = swarms.contains_key(info_hash) && swarms[info_hash].contains_key(id);
            let is = after.contains_key(info_hash) && after[info_hash].contains_key(id);
            &&& after.contains_key(info_hash) <==> swarms.contains_key(info_hash) || info_hash
                == req.info_hash@
            &&& if info_hash != req.info_hash@ {
                swarms.contains_key(info_hash) ==> after[info_hash] == swarms[info_hash]
            } else if id != req.peer_id@ {
                &&& is <==> was && now < swarms[info_hash][id].last_seen + 60 * 60 * 1_000_000_000
                &&& is ==> after[info_hash][id] == swarms[info_hash][id]
            } else {
                &&& is <==> req.event != AnnounceEvent::Stopped
                &&& is ==> after[info_hash][id].addr == req.addr
                &&& is ==> after[info_hash][id].is_seeder == (req.left == 0)
                &&& is ==> after[info_hash][id].last_seen == now
            }
        }),
{
}

/// Law: reaping drops the peers whose last announce is an hour ago, keeps the
/// others as they are, and keeps the swarms in which a peer is left, and only
/// those.
pub proof fn reaping_drops_what_is_silent(
    swarms: Map<Seq<u8>, Map<Seq<u8>, PeerEntry>>,
    now: u64,
    info_hash: Seq<u8>,
    id: Seq<u8>,
)
    ensures
        ({
            let after = reaped(swarms, now);
            let was = swarms.contains_key(info_hash) && swarms[info_hash].contains_key(id);
            let is = after.contains_key(info_hash) && after[info_hash].contains_key(id);
            &&& is <==> was && now < swarms[info_hash][id].last_seen + 60 * 60 * 1_000_000_000
            &&& is ==> after[info_hash][id] == swarms[info_hash][id]
            &&& after.contains_key(info_hash) ==> exists|left: Seq<u8>| #[trigger]
                after[info_hash].contains_key(left)
        }),
{
    reap_keeps_fresh_peers(swarms, now, info_hash, id);
    if reaped(swarms, now).contains_key(info_hash) {
        reap_leaves_no_empty_swarm(swarms, now, info_hash);
    }
}

/// Law: the seeders of a swarm are its peers that have nothing left to
/// download, and its leechers are the others.
pub proof fn seeders_have_nothing_left(swarm: Map<Seq<u8>, PeerEntry>, id: Seq<u8>)
    ensures
        seeders(swarm).contains(id) <==> swarm.contains_key(id) && swarm[id].is_seeder,
        leechers(swarm).contains(id) <==> swarm.contains_key(id) && !swarm[id].is_seeder,
{
}

/// Law: a peer that is new to a swarm adds one to the count of seeders or to
/// that of leechers, as it is one, and nothing to the other; and a swarm of no
/// peers has none of either.
pub proof fn new_peer_is_counted_once(
    swarm: Map<Seq<u8>, PeerEntry>,
    id: Seq<u8>,
    entry: PeerEntry,
)
    requires
        swarm.dom().finite(),
        !swarm.contains_key(id),
    ensures
        seeders(swarm.insert(id, entry)).len() == seeders(swarm).len() + if entry.is_seeder {
            1nat
        } else {
            0nat
        },
        leechers(swarm.insert(id, entry)).len() == leechers(swarm).len() + if entry.is_seeder {
            0nat
        } else {
            1nat
        },
        seeders(Map::empty()).len() == 0,
        leechers(Map::empty()).len() == 0,
{
    let more = swarm.insert(id, entry);
    lemma_counts_bounded(swarm);
    lemma_counts_bounded(more);
    if entry.is_seeder {
        assert(seeders(more) =~= seeders(swarm).insert(id));
        assert(leechers(more) =~= leechers(swarm));
    } else {
        assert(seeders(more) =~= seeders(swarm));
        assert(leechers(more) =~= leechers(swarm).insert(id));
    }
    assert(seeders(Map::<Seq<u8>, PeerEntry>::empty()) =~= Set::empty());
    assert(leechers(Map::<Seq<u8>, PeerEntry>::empty()) =~= Set::empty());
}

/// Law: there is room in every swarm until its peers are as many as 63 bits
/// can count, and a swarm can be counted until its seeders or its leechers are
/// more than that.
pub proof fn room_ends_with_the_counters(registry: Registry, info_hash: Seq<u8>)
    ensures
        !registry@.contains_key(info_hash) ==> registry.has_room(info_hash),
        registry@.contains_key(info_hash) ==> (registry.has_room(info_hash)
            <==> registry@[info_hash].len() < 0x7fff_ffff_ffff_ffff),
        registry@.contains_key(info_hash) ==> (is_countable(registry@[info_hash]) <==> seeders(
            registry@[info_hash],
        ).len() <= 0x7fff_ffff_ffff_ffff && leechers(registry@[info_hash]).len()
            <= 0x7fff_ffff_ffff_ffff),
{
    assert(Map::<Seq<u8>, PeerEntry>::empty().dom() =~= Set::empty());
}

/// Law: peers find each other: one that announced is named, by the address that
/// it announced, to another that announces to the same swarm within the hour,
/// if the swarm has at most `MAX_PEERS` others.
pub proof fn recent_peer_is_named_to_the_next(
    swarms: Map<Seq<u8>, Map<Seq<u8>, PeerEntry>>,
    first: AnnounceRequest,
    earlier: u64,
    second: AnnounceRequest,
    now: u64,
    peers: Seq<SocketAddr>,
)
    requires
        first.info_hash@ == second.info_hash@,
        first.peer_id@ != second.peer_id@,
        first.event != AnnounceEvent::Stopped,
        now < earlier + 60 * 60 * 1_000_000_000,
        ({
            let swarm = after_announce(
                after_announce(swarms, first, earlier),
                second,
                now,
            )[second.info_hash@];
            &&& swarm.dom().finite()
            &&& swarm.dom().remove(second.peer_id@).len() <= MAX_PEERS
            &&& is_selection(peers, swarm, second.peer_id@)
        }),
    ensures
        peers.contains(first.addr),
{
    let between = after_announce(swarms, first, earlier);
    let hash = first.info_hash@;
    let swarm = after_announce(between, second, now)[hash];
    announce_changes_one_peer(swarms, first, earlier, hash, first.peer_id@);
    announce_changes_one_peer(between, second, now, hash, first.peer_id@);
    small_swarm_is_named_whole(peers, swarm, second.peer_id@, first.peer_id@);
}

} // verus!
