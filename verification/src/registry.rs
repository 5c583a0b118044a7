//! The swarms and their peers.
//!
//! Times are nanoseconds on a clock that does not go back; the caller reads
//! the clock.

use vstd::prelude::*;

use crate::addr::SocketAddr;
use crate::announce::{AnnounceEvent, AnnounceRequest, ANNOUNCE_INTERVAL, MAX_PEERS, PEER_TTL};
use crate::bytes::equal;
use crate::id_map::{kept, lemma_ids, IdMap};
use crate::response::AnnounceResponse;

verus! {

/// What the registry knows of a peer.
#[derive(Debug, Clone, Copy)]
pub struct PeerEntry {
    /// Where the peer can be reached.
    pub addr: SocketAddr,
    /// Whether the peer has nothing left to download.
    pub is_seeder: bool,
    /// When the peer last announced.
    pub last_seen: u64,
}

/// How long ago `since` is at `now`; no time has passed since a later moment.
pub open spec fn elapsed(now: u64, since: u64) -> int {
    if now >= since {
        now - since
    } else {
        0
    }
}

/// Which peers have not gone stale at `now`.
pub open spec fn is_fresh(now: u64) -> spec_fn(PeerEntry) -> bool {
    |peer: PeerEntry| elapsed(now, peer.last_seen) < PEER_TTL
}

/// The peers of `swarm` that have not gone stale at `now`.
pub open spec fn fresh(swarm: Map<Seq<u8>, PeerEntry>, now: u64) -> Map<Seq<u8>, PeerEntry> {
    kept(swarm, is_fresh(now))
}

/// The swarm of an info-hash; one that is not tracked has no peers.
pub open spec fn swarm_of(
    swarms: Map<Seq<u8>, Map<Seq<u8>, PeerEntry>>,
    info_hash: Seq<u8>,
) -> Map<Seq<u8>, PeerEntry> {
    if swarms.contains_key(info_hash) {
        swarms[info_hash]
    } else {
        Map::empty()
    }
}

/// What an announce at `now` makes of its swarm: a peer that stops leaves,
/// any other is entered anew, and stale peers leave.
pub open spec fn announced(
    swarm: Map<Seq<u8>, PeerEntry>,
    req: AnnounceRequest,
    now: u64,
) -> Map<Seq<u8>, PeerEntry> {
    fresh(
        if req.event == AnnounceEvent::Stopped {
            swarm.remove(req.peer_id@)
        } else {
            swarm.insert(
                req.peer_id@,
                PeerEntry { addr: req.addr, is_seeder: req.left == 0, last_seen: now },
            )
        },
        now,
    )
}

/// The swarms after an announce at `now`. The swarm that it names is tracked
/// from then on, with or without peers.
pub open spec fn after_announce(
    swarms: Map<Seq<u8>, Map<Seq<u8>, PeerEntry>>,
    req: AnnounceRequest,
    now: u64,
) -> Map<Seq<u8>, Map<Seq<u8>, PeerEntry>> {
    swarms.insert(req.info_hash@, announced(swarm_of(swarms, req.info_hash@), req, now))
}

/// The swarms that are left when stale peers leave at `now`: those in which
/// a peer is left.
pub open spec fn reaped(
    swarms: Map<Seq<u8>, Map<Seq<u8>, PeerEntry>>,
    now: u64,
) -> Map<Seq<u8>, Map<Seq<u8>, PeerEntry>> {
    Map::new(
        |info_hash: Seq<u8>|
            swarms.contains_key(info_hash) && !fresh(swarms[info_hash], now).is_empty(),
        |info_hash: Seq<u8>| fresh(swarms[info_hash], now),
    )
}

/// The seeders of a swarm.
pub open spec fn seeders(swarm: Map<Seq<u8>, PeerEntry>) -> Set<Seq<u8>> {
    swarm.dom().filter(|id: Seq<u8>| swarm[id].is_seeder)
}

/// The leechers of a swarm.
pub open spec fn leechers(swarm: Map<Seq<u8>, PeerEntry>) -> Set<Seq<u8>> {
    swarm.dom().filter(|id: Seq<u8>| !swarm[id].is_seeder)
}

/// Whether the seeders and the leechers of a swarm can be counted in 64 bits
/// with a sign, as a reply counts them.
pub open spec fn is_countable(swarm: Map<Seq<u8>, PeerEntry>) -> bool {
    seeders(swarm).len() <= i64::MAX && leechers(swarm).len() <= i64::MAX
}

/// Whether `ids` are different peers of `swarm` other than `announcer`: all
/// of them, or as many as a reply names.
pub open spec fn chosen_from(
    ids: Seq<Seq<u8>>,
    swarm: Map<Seq<u8>, PeerEntry>,
    announcer: Seq<u8>,
) -> bool {
    let others = swarm.dom().remove(announcer).len();
    &&& ids.no_duplicates()
    &&& forall|k: int|
        0 <= k < ids.len() ==> swarm.contains_key(#[trigger] ids[k]) && ids[k] != announcer
    &&& ids.len() == if others < MAX_PEERS {
        others
    } else {
        MAX_PEERS as nat
    }
}

/// Whether `peers` are the addresses of peers that a reply to `announcer`
/// may name. Which peers of a large swarm these are, and in which order, is
/// left open.
pub open spec fn is_selection(
    peers: Seq<SocketAddr>,
    swarm: Map<Seq<u8>, PeerEntry>,
    announcer: Seq<u8>,
) -> bool {
    exists|ids: Seq<Seq<u8>>| #[trigger]
        chosen_from(ids, swarm, announcer) && peers == ids.map_values(
            |id: Seq<u8>| swarm[id].addr,
        )
}

/// An announce adds at most one peer to its swarm.
pub proof fn lemma_announced_len(swarm: Map<Seq<u8>, PeerEntry>, req: AnnounceRequest, now: u64)
    requires
        swarm.dom().finite(),
    ensures
        announced(swarm, req, now).dom().finite(),
        announced(swarm, req, now).len() <= swarm.len() + 1,
{
    let all = swarm.dom().insert(req.peer_id@);
    assert(announced(swarm, req, now).dom().subset_of(all));
    vstd::set_lib::lemma_set_subset_finite(all, announced(swarm, req, now).dom());
    vstd::set_lib::lemma_len_subset(announced(swarm, req, now).dom(), all);
}

/// A swarm has no more seeders and no more leechers than peers.
pub proof fn lemma_counts_bounded(swarm: Map<Seq<u8>, PeerEntry>)
    requires
        swarm.dom().finite(),
    ensures
        seeders(swarm).finite(),
        leechers(swarm).finite(),
        seeders(swarm).len() <= swarm.len(),
        leechers(swarm).len() <= swarm.len(),
{
    swarm.dom().lemma_len_filter(|id: Seq<u8>| swarm[id].is_seeder);
    swarm.dom().lemma_len_filter(|id: Seq<u8>| !swarm[id].is_seeder);
}

/// Whether a peer has not gone stale at `now`.
fn still_fresh(peer: &PeerEntry, now: u64) -> (r: bool)
    ensures
        r == is_fresh(now)(*peer),
{
    peer.last_seen >= now || now - peer.last_seen < PEER_TTL
}

/// Drops the stale peers of a swarm.
fn reap_swarm(swarm: &mut IdMap<PeerEntry>, now: u64)
    requires
        old(swarm).wf(),
    ensures
        final(swarm).wf(),
        final(swarm)@ == fresh(old(swarm)@, now),
{
    let keep = |peer: &PeerEntry| -> (r: bool)
        ensures
            r == is_fresh(now)(*peer),
        { still_fresh(peer, now) };
    swarm.retain(keep, Ghost(is_fresh(now)));
}

/// Enters an announce into its swarm.
fn update_swarm(swarm: &mut IdMap<PeerEntry>, req: &AnnounceRequest, now: u64)
    requires
        old(swarm).wf(),
    ensures
        final(swarm).wf(),
        final(swarm)@ == announced(old(swarm)@, *req, now),
{
    if req.event == AnnounceEvent::Stopped {
        swarm.remove(&req.peer_id);
    } else {
        swarm.insert(
            req.peer_id,
            PeerEntry { addr: req.addr, is_seeder: req.left == 0, last_seen: now },
        );
    }
    reap_swarm(swarm, now);
}

/// Counts a swarm and selects peers for `announcer`.
fn describe_swarm(swarm: &IdMap<PeerEntry>, announcer: &[u8; 20]) -> (r: AnnounceResponse)
    requires
        swarm.wf(),
        is_countable(swarm@),
    ensures
        r.interval == ANNOUNCE_INTERVAL,
        r.complete == seeders(swarm@).len(),
        r.incomplete == leechers(swarm@).len(),
        is_selection(r.peers@, swarm@, announcer@),
{
    let n: usize = swarm.len();
    let mut complete: i64 = 0;
    let mut incomplete: i64 = 0;
    let mut peers: Vec<SocketAddr> = Vec::new();
    let ghost ids = swarm.ids();
    let ghost values = swarm.values();
    let ghost mut seeding: Set<Seq<u8>> = Set::empty();
    let ghost mut leeching: Set<Seq<u8>> = Set::empty();
    let ghost mut chosen: Seq<Seq<u8>> = Seq::empty();
    // How many of the peers so far are not the announcer.
    let ghost mut others: nat = 0;
    proof {
        lemma_ids(*swarm);
        lemma_counts_bounded(swarm@);
    }
    let mut i: usize = 0;
    while i < n
        invariant
            i <= n == ids.len() == values.len(),
            is_countable(swarm@),
            seeders(swarm@).finite(),
            leechers(swarm@).finite(),
            ids == swarm.ids(),
            values == swarm.values(),
            ids.no_duplicates(),
            forall|k: int|
                0 <= k < n ==> swarm@.contains_key(#[trigger] ids[k]) && swarm@[ids[k]] == values[k],
            complete >= 0,
            incomplete >= 0,
            complete + incomplete == i,
            seeding.finite(),
            seeding.len() == complete,
            forall|id: Seq<u8>| #[trigger]
                seeding.contains(id) <==> exists|k: int|
                    0 <= k < i && #[trigger] ids[k] == id && values[k].is_seeder,
            leeching.finite(),
            leeching.len() == incomplete,
            forall|id: Seq<u8>| #[trigger]
                leeching.contains(id) <==> exists|k: int|
                    0 <= k < i && #[trigger] ids[k] == id && !values[k].is_seeder,
            chosen.no_duplicates(),
            forall|c: int|
                0 <= c < chosen.len() ==> {
                    &&& #[trigger] chosen[c] != announcer@
                    &&& exists|k: int| 0 <= k < i && ids[k] == chosen[c]
                },
            peers@ == chosen.map_values(|id: Seq<u8>| swarm@[id].addr),
            others == i - if exists|k: int| 0 <= k < i && ids[k] == announcer@ {
                1int
            } else {
                0int
            },
            chosen.len() == if others < MAX_PEERS {
                others
            } else {
                MAX_PEERS as nat
            },
        decreases n - i,
    {
        let id: &[u8; 20] = swarm.id_at(i);
        let entry: &PeerEntry = swarm.value_at(i);
        let ghost now_id = ids[i as int];
        assert(forall|k: int| 0 <= k < i ==> #[trigger] ids[k] != now_id);
        if entry.is_seeder {
            proof {
                seeding = seeding.insert(now_id);
                assert(seeding.subset_of(seeders(swarm@)));
                vstd::set_lib::lemma_len_subset(seeding, seeders(swarm@));
            }
            complete += 1;
        } else {
            proof {
                leeching = leeching.insert(now_id);
                assert(leeching.subset_of(leechers(swarm@)));
                vstd::set_lib::lemma_len_subset(leeching, leechers(swarm@));
            }
            incomplete += 1;
        }
        let is_announcer: bool = equal(id, announcer);
        if !is_announcer && peers.len() < MAX_PEERS {
            peers.push(entry.addr);
            proof {
                chosen = chosen.push(now_id);
            }
            assert(peers@ =~= chosen.map_values(|id: Seq<u8>| swarm@[id].addr));
        }
        proof {
            if !is_announcer {
                others = others + 1;
            }
        }
        i += 1;
    }
    proof {
        assert(seeding =~= seeders(swarm@));
        assert(leeching =~= leechers(swarm@));
        assert(chosen_from(chosen, swarm@, announcer@));
    }
    AnnounceResponse { interval: ANNOUNCE_INTERVAL, complete, incomplete, peers }
}

/// The swarms that the tracker knows of, and the peers in each.
pub struct Registry {
    swarms: IdMap<IdMap<PeerEntry>>,
}

impl View for Registry {
    type V = Map<Seq<u8>, Map<Seq<u8>, PeerEntry>>;

    closed spec fn view(&self) -> Map<Seq<u8>, Map<Seq<u8>, PeerEntry>> {
        self.swarms@.map_values(|swarm: IdMap<PeerEntry>| swarm@)
    }
}

impl Registry {
    /// What holds of every registry.
    pub closed spec fn wf(self) -> bool {
        &&& self.swarms.wf()
        &&& forall|i: int|
            0 <= i < self.swarms.values().len() ==> (#[trigger] self.swarms.values()[i]).wf()
    }

    /// Whether the swarm of `info_hash` can take one more peer, whoever it is,
    /// and still be counted in a reply.
    pub open spec fn has_room(self, info_hash: Seq<u8>) -> bool {
        swarm_of(self@, info_hash).len() < i64::MAX
    }

    /// Law: a registry tracks finitely many swarms of finitely many peers.
    pub proof fn is_finite(self, info_hash: Seq<u8>)
        requires
            self.wf(),
        ensures
            self@.dom().finite(),
            swarm_of(self@, info_hash).dom().finite(),
    {
        lemma_ids(self.swarms);
        assert(self@.dom() =~= self.swarms@.dom());
        if self@.contains_key(info_hash) {
            let i = self.swarms.ids().index_of(info_hash);
            assert(self.swarms.ids()[i] == info_hash);
            lemma_ids(self.swarms.values()[i]);
        }
    }

    /// An empty registry.
    #[must_use]
    pub fn new() -> (r: Self)
        ensures
            r.wf(),
            r@ == Map::<Seq<u8>, Map<Seq<u8>, PeerEntry>>::empty(),
    {
        let r = Registry { swarms: IdMap::new() };
        proof {
            lemma_ids(r.swarms);
            assert(r.swarms.ids().len() == 0);
        }
        assert(r@ =~= Map::<Seq<u8>, Map<Seq<u8>, PeerEntry>>::empty());
        r
    }

    /// How many swarms are tracked.
    #[must_use]
    pub fn swarm_count(&self) -> (n: usize)
        requires
            self.wf(),
        ensures
            n == self@.len(),
    {
        assert(self@.dom() =~= self.swarms@.dom());
        self.swarms.len()
    }

    /// How many peers the swarm of `info_hash` has.
    #[must_use]
    pub fn peer_count(&self, info_hash: &[u8; 20]) -> (n: usize)
        requires
            self.wf(),
        ensures
            n == swarm_of(self@, info_hash@).len(),
    {
        proof {
            lemma_ids(self.swarms);
        }
        match self.swarms.find(info_hash) {
            Some(i) => self.swarms.value_at(i).len(),
            None => 0,
        }
    }

    /// Processes an announce at `now`: updates its swarm, and selects peers
    /// to reply with. The swarm must be one that a reply can count; it is
    /// enough that it has room.
    pub fn announce(&mut self, req: &AnnounceRequest, now: u64) -> (r: AnnounceResponse)
        requires
            old(self).wf(),
            old(self).has_room(req.info_hash@) || is_countable(
                after_announce(old(self)@, *req, now)[req.info_hash@],
            ),
        ensures
            final(self).wf(),
            final(self)@ == after_announce(old(self)@, *req, now),
            r.interval == ANNOUNCE_INTERVAL,
            r.complete == seeders(final(self)@[req.info_hash@]).len(),
            r.incomplete == leechers(final(self)@[req.info_hash@]).len(),
            is_selection(r.peers@, final(self)@[req.info_hash@], req.peer_id@),
    {
        let ghost before = swarm_of(self@, req.info_hash@);
        let ghost after = announced(before, *req, now);
        proof {
            lemma_ids(self.swarms);
        }
        let i: usize = match self.swarms.find(&req.info_hash) {
            Some(i) => i,
            None => self.swarms.insert(req.info_hash, IdMap::new()),
        };
        let ghost opened = *self;
        proof {
            lemma_ids(self.swarms);
            assert(self.swarms.values()[i as int]@ == before);
            lemma_ids(self.swarms.values()[i as int]);
            lemma_announced_len(before, *req, now);
            lemma_counts_bounded(after);
            assert forall|j: int| 0 <= j < self.swarms.values().len() implies (
            #[trigger] self.swarms.values()[j]).wf() by {
                let id = self.swarms.ids()[j];
                if j != i {
                    assert(old(self).swarms@.contains_key(id));
                    assert(old(self).swarms.ids().contains(id));
                    let k = old(self).swarms.ids().index_of(id);
                    assert(old(self).swarms.values()[k].wf());
                }
            }
        }
        let swarm: &mut IdMap<PeerEntry> = self.swarms.value_at_mut(i);
        update_swarm(swarm, req, now);
        proof {
            lemma_ids(self.swarms);
            assert(self.swarms.ids() == opened.swarms.ids());
        }
        describe_swarm(self.swarms.value_at(i), &req.peer_id)
    }

    /// Drops the stale peers of every swarm at `now`, and the swarms that
    /// this leaves without peers.
    pub fn reap(&mut self, now: u64)
        requires
            old(self).wf(),
        ensures
            final(self).wf(),
            final(self)@ == reaped(old(self)@, now),
    {
        let n: usize = self.swarms.len();
        proof {
            lemma_ids(self.swarms);
        }
        let mut i: usize = 0;
        while i < n
            invariant
                i <= n,
                self.swarms.ids() == old(self).swarms.ids(),
                self.swarms.values().len() == n == self.swarms.ids().len(),
                old(self).swarms.values().len() == n,
                forall|j: int|
                    0 <= j < n ==> (#[trigger] old(self).swarms.values()[j]).wf(),
                forall|j: int| 0 <= j < n ==> (#[trigger] self.swarms.values()[j]).wf(),
                forall|j: int|
                    0 <= j < i ==> (#[trigger] self.swarms.values()[j])@ == fresh(
                        old(self).swarms.values()[j]@,
                        now,
                    ),
                forall|j: int|
                    i <= j < n ==> (#[trigger] self.swarms.values()[j])
                        == old(self).swarms.values()[j],
            decreases n - i,
        {
            let swarm: &mut IdMap<PeerEntry> = self.swarms.value_at_mut(i);
            reap_swarm(swarm, now);
            i += 1;
        }
        let ghost thinned = *self;
        let ghost populated = |swarm: IdMap<PeerEntry>| swarm.ids().len() != 0;
        let keep = |swarm: &IdMap<PeerEntry>| -> (r: bool)
            ensures
                r == (swarm.ids().len() != 0),
            { !swarm.is_empty() };
        assert(self.swarms.wf());
        self.swarms.retain(keep, Ghost(populated));
        proof {
            lemma_ids(thinned.swarms);
            lemma_ids(self.swarms);
            let goal = reaped(old(self)@, now);
            assert forall|id: Seq<u8>| old(self).swarms@.contains_key(id) implies {
                &&& thinned.swarms@.contains_key(id)
                &&& thinned.swarms@[id]@ == fresh(old(self)@[id], now)
                &&& thinned.swarms@[id].wf()
                &&& thinned.swarms@[id]@.is_empty() == (thinned.swarms@[id].ids().len() == 0)
            } by {
                let j = old(self).swarms.ids().index_of(id);
                assert(old(self).swarms.ids()[j] == id);
                assert(thinned.swarms.values()[j].wf());
                lemma_ids(thinned.swarms.values()[j]);
                let dom = thinned.swarms.values()[j]@.dom();
                if dom.len() == 0 {
                    assert(dom =~= Set::empty());
                }
            }
            assert(forall|id: Seq<u8>|
                thinned.swarms@.contains_key(id) ==> old(self).swarms@.contains_key(id));
            assert(self@ =~= goal);
            assert forall|j: int| 0 <= j < self.swarms.values().len() implies (
            #[trigger] self.swarms.values()[j]).wf() by {
                let id = self.swarms.ids()[j];
                assert(self.swarms@.contains_key(id));
                assert(thinned.swarms@.contains_key(id));
            }
        }
    }
}

impl Default for Registry {
    /// An empty registry.
    fn default() -> (r: Self)
        ensures
            r.wf(),
            r@ == Map::<Seq<u8>, Map<Seq<u8>, PeerEntry>>::empty(),
    {
        Registry::new()
    }
}

} // verus!
