//! What holds of whole exchanges: a request as it is received, and the
//! response to it.

use vstd::prelude::*;

use crate::addr::{IpAddr, SocketAddr};
use crate::announce::{AnnounceRequest, ANNOUNCE_INTERVAL, MAX_PEERS};
use crate::ascii::{CR, LF, QUESTION, SPACE};
use crate::bytes::{
    before, first_index, lemma_first_index, lemma_first_index_holds, lemma_text_ascii, occurs,
    occurs_at, text,
};
use crate::http::{
    answered, answers_announce, framed, head_end, is_complete, responded, routed, Route, RouteView,
    MAX_HEAD,
};
use crate::registry::{
    after_announce, chosen_from, is_selection, leechers, lemma_announced_len, seeders, swarm_of,
    PeerEntry, Registry,
};
use crate::request::{port_value, query_value, request_target, requested, RequestView};
use crate::request_laws::request_line_reads_back;
use crate::response::{failure_encoding, response_encoding};
use crate::text_laws::text_is_cut_at_its_separator;

verus! {

/// Law: a request that is refused is refused for one of four reasons.
pub proof fn refusal_has_a_reason(received: Seq<u8>, peer: SocketAddr, reason: Seq<char>)
    requires
        routed(received, peer) == RouteView::Refuse(reason),
    ensures
        reason == "unknown endpoint"@ || reason == "missing or malformed info_hash"@ || reason
            == "missing or malformed peer_id"@ || reason == "missing port"@,
{
}

/// Law: only a request to announce with two 20-byte identities and a port is
/// taken as an announce.
pub proof fn announce_has_its_fields(received: Seq<u8>, peer: SocketAddr, req: RequestView)
    requires
        routed(received, peer) == RouteView::Announce(req),
    ensures
        ({
            let (path, query) = request_target(before(received, CR)).unwrap();
            &&& path == text("/announce")
            &&& query_value(query, "info_hash") == Some(req.info_hash)
            &&& query_value(query, "peer_id") == Some(req.peer_id)
            &&& port_value(query_value(query, "port")) == Some(req.port)
            &&& req.info_hash.len() == 20
            &&& req.peer_id.len() == 20
        }),
{
}

/// Law: a complete request stays complete, whatever arrives after it.
pub proof fn complete_request_stays_complete(received: Seq<u8>, chunk: Seq<u8>, more: Seq<u8>)
    requires
        is_complete(received, chunk),
        chunk.len() > 0,
    ensures
        is_complete(received + more, more),
{
    let end = head_end();
    if occurs(received, end) {
        let i = choose|i: int| occurs_at(received, end, i);
        assert((received + more).subrange(i, i + end.len()) =~= received.subrange(
            i,
            i + end.len(),
        ));
        assert(occurs_at(received + more, end, i));
    }
}

/// Law: a request for `/announce` is routed as its query says: to the announce
/// that the query makes, or to a refusal for the reason that it makes none.
pub proof fn announce_target_is_routed(received: Seq<u8>, peer: SocketAddr, query: Seq<u8>)
    requires
        request_target(before(received, CR)) == Some((text("/announce"), query)),
    ensures
        routed(received, peer) == match requested(query, peer) {
            Ok(req) => RouteView::Announce(req),
            Err(reason) => RouteView::Refuse(reason),
        },
{
}

/// Law: what follows the first line of a request does not matter.
pub proof fn only_the_first_line_is_routed(a: Seq<u8>, b: Seq<u8>, peer: SocketAddr)
    requires
        before(a, CR) == before(b, CR),
    ensures
        routed(a, peer) == routed(b, peer),
{
}

/// A byte string up to a separator is the same in whatever it starts.
proof fn lemma_before_prefix(part: Seq<u8>, whole: Seq<u8>, sep: u8)
    requires
        part.is_prefix_of(whole),
        first_index(part, sep) < part.len(),
    ensures
        before(part, sep) == before(whole, sep),
{
    let k = first_index(part, sep);
    lemma_first_index_holds(part, sep);
    assert(forall|j: int| 0 <= j < part.len() ==> part[j] == whole[j]);
    lemma_first_index(whole, sep, k);
    assert(part.take(k) =~= whole.take(k));
}

/// A request whose head has ended has a first line that has ended.
proof fn lemma_head_has_line(s: Seq<u8>)
    requires
        occurs(s, head_end()),
    ensures
        first_index(s, CR) < s.len(),
{
    let i = choose|i: int| occurs_at(s, head_end(), i);
    assert(s.subrange(i, i + 4)[0] == s[i]);
    assert(head_end()[0] == CR);
    lemma_first_index_holds(s, CR);
}

/// Whether `received` is what is read from `stream` as one request, where
/// `chunk` is the last read, which made the request complete. A read that
/// brings nothing is the end of the stream.
pub open spec fn is_read_from(received: Seq<u8>, stream: Seq<u8>, chunk: Seq<u8>) -> bool {
    &&& received.is_prefix_of(stream)
    &&& is_complete(received, chunk)
    &&& chunk.len() == 0 ==> received == stream
}

/// Whether the head of the request in `stream` ends within `MAX_HEAD` bytes.
pub open spec fn has_head(stream: Seq<u8>) -> bool {
    exists|i: int| #[trigger] occurs_at(stream, head_end(), i) && i + 4 <= MAX_HEAD
}

/// Law: however a stream is cut into chunks, the request that is read from it
/// has the first line of the stream, if the head ends within `MAX_HEAD` bytes.
pub proof fn chunks_do_not_matter(stream: Seq<u8>, received: Seq<u8>, chunk: Seq<u8>)
    requires
        is_read_from(received, stream, chunk),
        has_head(stream),
    ensures
        before(received, CR) == before(stream, CR),
{
    if !occurs(received, head_end()) {
        let i = choose|i: int| #[trigger]
            occurs_at(stream, head_end(), i) && i + 4 <= MAX_HEAD;
        assert(received.subrange(i, i + 4) =~= stream.subrange(i, i + 4));
        assert(occurs_at(received, head_end(), i));
    }
    lemma_head_has_line(received);
    lemma_before_prefix(received, stream, CR);
}

/// Requests that say the same are the same.
proof fn lemma_same_request(a: AnnounceRequest, b: AnnounceRequest)
    requires
        a@ == b@,
    ensures
        a == b,
{
    assert(a.info_hash =~= b.info_hash) by {
        assert(forall|i: int| 0 <= i < 20 ==> a.info_hash@[i] == b.info_hash@[i]);
    }
    assert(a.peer_id =~= b.peer_id) by {
        assert(forall|i: int| 0 <= i < 20 ==> a.peer_id@[i] == b.peer_id@[i]);
    }
    lemma_same_ip(a, b);
}

/// Requests of the same IP address hold it alike.
proof fn lemma_same_ip(a: AnnounceRequest, b: AnnounceRequest)
    requires
        a.addr.ip@ == b.addr.ip@,
    ensures
        a.addr.ip == b.addr.ip,
{
    match (a.addr.ip, b.addr.ip) {
        (IpAddr::V4(x), IpAddr::V4(y)) => {
            assert(x@ == y@);
            assert(x =~= y) by {
                assert(forall|i: int| 0 <= i < 4 ==> x@[i] == y@[i]);
            }
        },
        (IpAddr::V6(x), IpAddr::V6(y)) => {
            assert(x@ == y@);
            assert(x =~= y) by {
                assert(forall|i: int| 0 <= i < 8 ==> x@[i] == y@[i]);
            }
        },
        _ => {},
    }
}

/// Law: a request for `/announce` whose query makes an announce is answered as
/// that one announce is, and leaves the swarms as that one announce leaves
/// them.
pub proof fn announce_is_carried_out(
    old_swarms: Map<Seq<u8>, Map<Seq<u8>, PeerEntry>>,
    new_swarms: Map<Seq<u8>, Map<Seq<u8>, PeerEntry>>,
    received: Seq<u8>,
    peer: SocketAddr,
    now: u64,
    response: Seq<u8>,
    query: Seq<u8>,
    req: AnnounceRequest,
)
    requires
        responded(old_swarms, new_swarms, received, peer, now, response),
        request_target(before(received, CR)) == Some((text("/announce"), query)),
        requested(query, peer) == Ok::<RequestView, Seq<char>>(req@),
    ensures
        new_swarms == after_announce(old_swarms, req, now),
        exists|body: Seq<u8>| #[trigger]
            answers_announce(body, new_swarms[req.info_hash@], req.peer_id@) && response == framed(
                body,
            ),
{
    let (route, body) = choose|route: Route, body: Seq<u8>|
        {
            &&& route@ == routed(received, peer)
            &&& #[trigger] answered(old_swarms, new_swarms, route, now, body)
            &&& response == framed(body)
        };
    match route {
        Route::Announce(routed_req) => {
            lemma_same_request(routed_req, req);
        },
        _ => {},
    }
    assert(answers_announce(body, new_swarms[req.info_hash@], req.peer_id@));
}

/// Law: a request for `/announce` whose query makes no announce is answered
/// with the reason, and changes nothing.
pub proof fn malformed_announce_is_refused(
    old_swarms: Map<Seq<u8>, Map<Seq<u8>, PeerEntry>>,
    new_swarms: Map<Seq<u8>, Map<Seq<u8>, PeerEntry>>,
    received: Seq<u8>,
    peer: SocketAddr,
    now: u64,
    response: Seq<u8>,
    query: Seq<u8>,
    reason: &str,
)
    requires
        responded(old_swarms, new_swarms, received, peer, now, response),
        request_target(before(received, CR)) == Some((text("/announce"), query)),
        requested(query, peer) == Err::<RequestView, Seq<char>>(reason@),
    ensures
        new_swarms == old_swarms,
        response == framed(failure_encoding(text(reason))),
{
}

/// The same peers, in whatever order, have the same addresses, up to their
/// order.
proof fn lemma_same_addresses(
    a: Seq<Seq<u8>>,
    b: Seq<Seq<u8>>,
    addr: spec_fn(Seq<u8>) -> SocketAddr,
)
    requires
        a.no_duplicates(),
        b.no_duplicates(),
        forall|id: Seq<u8>| a.contains(id) <==> b.contains(id),
    ensures
        a.map_values(addr).to_multiset() == b.map_values(addr).to_multiset(),
    decreases a.len(),
{
    broadcast use vstd::seq_lib::group_to_multiset_ensures;

    if a.len() == 0 {
        if b.len() > 0 {
            assert(b.contains(b[0]));
        }
        assert(a.map_values(addr) =~= b.map_values(addr));
    } else {
        let last = a.last();
        assert(a.contains(last));
        let j = b.index_of(last);
        let rest = b.remove(j);
        let start = a.drop_last();
        assert forall|id: Seq<u8>| start.contains(id) <==> rest.contains(id) by {
            if start.contains(id) {
                let k = start.index_of(id);
                assert(a[k] == id);
                assert(a.contains(id));
                let m = b.index_of(id);
                assert(rest[if m < j {
                    m
                } else {
                    m - 1
                }] == id);
            }
            if rest.contains(id) {
                let m = rest.index_of(id);
                assert(b[if m < j {
                    m
                } else {
                    m + 1
                }] == id);
                assert(b.contains(id));
                let k = a.index_of(id);
                assert(start[k] == id);
            }
        }
        lemma_same_addresses(start, rest, addr);
        let mapped = b.map_values(addr);
        assert(a.map_values(addr) =~= start.map_values(addr).push(addr(last)));
        assert(rest.map_values(addr) =~= mapped.remove(j));
        assert(mapped[j] == addr(last));
        assert(mapped.contains(addr(last)));
        assert(mapped.to_multiset() =~= mapped.to_multiset().remove(addr(last)).insert(addr(last)));
    }
}

/// Law: in a swarm of at most `MAX_PEERS` others, any two replies to the same
/// announcer name the same peers, up to their order.
pub proof fn small_swarm_is_named_alike(
    a: Seq<SocketAddr>,
    b: Seq<SocketAddr>,
    swarm: Map<Seq<u8>, PeerEntry>,
    announcer: Seq<u8>,
)
    requires
        is_selection(a, swarm, announcer),
        is_selection(b, swarm, announcer),
        swarm.dom().finite(),
        swarm.dom().remove(announcer).len() <= MAX_PEERS,
    ensures
        a.to_multiset() == b.to_multiset(),
{
    let addr = |id: Seq<u8>| swarm[id].addr;
    let ids_a = choose|ids: Seq<Seq<u8>>| #[trigger]
        chosen_from(ids, swarm, announcer) && a == ids.map_values(|id: Seq<u8>| swarm[id].addr);
    let ids_b = choose|ids: Seq<Seq<u8>>| #[trigger]
        chosen_from(ids, swarm, announcer) && b == ids.map_values(|id: Seq<u8>| swarm[id].addr);
    lemma_chosen_whole(ids_a, swarm, announcer);
    lemma_chosen_whole(ids_b, swarm, announcer);
    assert forall|id: Seq<u8>| ids_a.contains(id) <==> ids_b.contains(id) by {
        assert(ids_a.to_set().contains(id) == ids_b.to_set().contains(id));
    }
    lemma_same_addresses(ids_a, ids_b, addr);
}

/// In a swarm of at most `MAX_PEERS` others, all of them are chosen.
proof fn lemma_chosen_whole(
    ids: Seq<Seq<u8>>,
    swarm: Map<Seq<u8>, PeerEntry>,
    announcer: Seq<u8>,
)
    requires
        chosen_from(ids, swarm, announcer),
        swarm.dom().finite(),
        swarm.dom().remove(announcer).len() <= MAX_PEERS,
    ensures
        ids.to_set() == swarm.dom().remove(announcer),
{
    let others = swarm.dom().remove(announcer);
    ids.unique_seq_to_set();
    assert(ids.to_set().subset_of(others));
    vstd::set_lib::lemma_subset_equality(ids.to_set(), others);
}

/// Whether `response` reports these counts and names `peers`.
pub open spec fn reports(
    response: Seq<u8>,
    complete: int,
    incomplete: int,
    peers: Seq<SocketAddr>,
) -> bool {
    response == framed(
        response_encoding(ANNOUNCE_INTERVAL as int, complete, incomplete, peers),
    )
}

/// Whether two responses are the same, up to the order in which they name
/// peers.
pub open spec fn is_same_up_to_order(a: Seq<u8>, b: Seq<u8>) -> bool {
    a == b || exists|
        complete: int,
        incomplete: int,
        peers_a: Seq<SocketAddr>,
        peers_b: Seq<SocketAddr>,
    |
        {
            &&& #[trigger] reports(a, complete, incomplete, peers_a)
            &&& #[trigger] reports(b, complete, incomplete, peers_b)
            &&& peers_a.to_multiset() == peers_b.to_multiset()
        }
}

/// Whether the request asks for no announce, or for one to a swarm that then
/// has at most `MAX_PEERS` others.
pub open spec fn names_all(
    new_swarms: Map<Seq<u8>, Map<Seq<u8>, PeerEntry>>,
    received: Seq<u8>,
    peer: SocketAddr,
) -> bool {
    routed(received, peer) matches RouteView::Announce(req)
        ==> new_swarms[req.info_hash].dom().remove(req.peer_id).len() <= MAX_PEERS
}

/// Law: only the first line of a request decides on the exchange. Two requests
/// with the same first line, from the same peer at the same time, take a
/// registry to the same swarms; and their responses are the same up to the
/// order of peers, where these are all named.
pub proof fn same_first_line_is_answered_alike(
    registry: Registry,
    swarms_a: Map<Seq<u8>, Map<Seq<u8>, PeerEntry>>,
    swarms_b: Map<Seq<u8>, Map<Seq<u8>, PeerEntry>>,
    received_a: Seq<u8>,
    received_b: Seq<u8>,
    peer: SocketAddr,
    now: u64,
    response_a: Seq<u8>,
    response_b: Seq<u8>,
)
    requires
        registry.wf(),
        responded(registry@, swarms_a, received_a, peer, now, response_a),
        responded(registry@, swarms_b, received_b, peer, now, response_b),
        before(received_a, CR) == before(received_b, CR),
    ensures
        swarms_a == swarms_b,
        names_all(swarms_a, received_a, peer) ==> is_same_up_to_order(response_a, response_b),
{
    let (route_a, body_a) = choose|route: Route, body: Seq<u8>|
        {
            &&& route@ == routed(received_a, peer)
            &&& #[trigger] answered(registry@, swarms_a, route, now, body)
            &&& response_a == framed(body)
        };
    let (route_b, body_b) = choose|route: Route, body: Seq<u8>|
        {
            &&& route@ == routed(received_b, peer)
            &&& #[trigger] answered(registry@, swarms_b, route, now, body)
            &&& response_b == framed(body)
        };
    assert(route_a@ == route_b@);
    match (route_a, route_b) {
        (Route::Announce(req_a), Route::Announce(req_b)) => {
            lemma_same_request(req_a, req_b);
            let swarm = swarms_a[req_a.info_hash@];
            let announcer = req_a.peer_id@;
            registry.is_finite(req_a.info_hash@);
            lemma_announced_len(swarm_of(registry@, req_a.info_hash@), req_a, now);
            let complete = seeders(swarm).len() as int;
            let incomplete = leechers(swarm).len() as int;
            let a = choose|peers: Seq<SocketAddr>| #[trigger]
                is_selection(peers, swarm, announcer) && body_a == response_encoding(
                    ANNOUNCE_INTERVAL as int,
                    complete,
                    incomplete,
                    peers,
                );
            let b = choose|peers: Seq<SocketAddr>| #[trigger]
                is_selection(peers, swarm, announcer) && body_b == response_encoding(
                    ANNOUNCE_INTERVAL as int,
                    complete,
                    incomplete,
                    peers,
                );
            if names_all(swarms_a, received_a, peer) {
                small_swarm_is_named_alike(a, b, swarm, announcer);
                assert(reports(response_a, complete, incomplete, a));
                assert(reports(response_b, complete, incomplete, b));
            }
        },
        _ => {},
    }
}

/// Law: neither headers, nor what follows them, nor how the bytes arrive,
/// decide on the exchange. Two streams whose heads end within `MAX_HEAD` bytes
/// and that agree up to their first carriage return, from the same peer at the
/// same time, take a registry to the same swarms; and their responses are the
/// same up to the order of peers, where these are all named.
pub proof fn headers_and_chunks_do_not_matter(
    registry: Registry,
    swarms_a: Map<Seq<u8>, Map<Seq<u8>, PeerEntry>>,
    swarms_b: Map<Seq<u8>, Map<Seq<u8>, PeerEntry>>,
    stream_a: Seq<u8>,
    stream_b: Seq<u8>,
    received_a: Seq<u8>,
    received_b: Seq<u8>,
    chunk_a: Seq<u8>,
    chunk_b: Seq<u8>,
    peer: SocketAddr,
    now: u64,
    response_a: Seq<u8>,
    response_b: Seq<u8>,
)
    requires
        registry.wf(),
        has_head(stream_a),
        has_head(stream_b),
        before(stream_a, CR) == before(stream_b, CR),
        is_read_from(received_a, stream_a, chunk_a),
        is_read_from(received_b, stream_b, chunk_b),
        responded(registry@, swarms_a, received_a, peer, now, response_a),
        responded(registry@, swarms_b, received_b, peer, now, response_b),
    ensures
        swarms_a == swarms_b,
        names_all(swarms_a, received_a, peer) ==> is_same_up_to_order(response_a, response_b),
{
    chunks_do_not_matter(stream_a, received_a, chunk_a);
    chunks_do_not_matter(stream_b, received_b, chunk_b);
    same_first_line_is_answered_alike(
        registry,
        swarms_a,
        swarms_b,
        received_a,
        received_b,
        peer,
        now,
        response_a,
        response_b,
    );
}

/// Law: a request is complete when the stream ends, when it holds an empty
/// line, or when it has more than 8192 bytes, and not before.
pub proof fn request_is_complete_at_its_empty_line(received: Seq<u8>, chunk: Seq<u8>)
    ensures
        is_complete(received, chunk) <==> {
            ||| chunk.len() == 0
            ||| received.len() > 8192
            ||| exists|i: int|
                {
                    &&& 0 <= i
                    &&& i + 3 < received.len()
                    &&& #[trigger] received[i] == CR
                    &&& received[i + 1] == LF
                    &&& received[i + 2] == CR
                    &&& received[i + 3] == LF
                }
        },
{
    if occurs(received, head_end()) {
        let i = choose|i: int| occurs_at(received, head_end(), i);
        let here = received.subrange(i, i + 4);
        assert(here[0] == received[i] && here[1] == received[i + 1] && here[2] == received[i + 2]
            && here[3] == received[i + 3]);
        assert(received[i] == CR);
    }
    if exists|i: int|
        {
            &&& 0 <= i
            &&& i + 3 < received.len()
            &&& #[trigger] received[i] == CR
            &&& received[i + 1] == LF
            &&& received[i + 2] == CR
            &&& received[i + 3] == LF
        } {
        let i = choose|i: int|
            {
                &&& 0 <= i
                &&& i + 3 < received.len()
                &&& #[trigger] received[i] == CR
                &&& received[i + 1] == LF
                &&& received[i + 2] == CR
                &&& received[i + 3] == LF
            };
        assert(received.subrange(i, i + 4) =~= head_end());
        assert(occurs_at(received, head_end(), i));
    }
}

/// Law: what a request is for is decided by its path alone: `/announce` is as
/// its query says, `/scrape` is a scrape whatever its query, and any other
/// path, or none, is an unknown endpoint.
pub proof fn path_decides_the_route(received: Seq<u8>, peer: SocketAddr)
    ensures
        ({
            let route = routed(received, peer);
            match request_target(before(received, CR)) {
                Some((path, query)) => {
                    &&& path == text("/scrape") ==> route == RouteView::Scrape
                    &&& path != text("/scrape") ==> route != RouteView::Scrape
                    &&& path != text("/announce") && path != text("/scrape") ==> route
                        == RouteView::Refuse("unknown endpoint"@)
                    &&& path == text("/announce") ==> match requested(query, peer) {
                        Ok(req) => route == RouteView::Announce(req),
                        Err(reason) => route == RouteView::Refuse(reason),
                    }
                },
                None => route == RouteView::Refuse("unknown endpoint"@),
            }
        }),
{
    reveal_strlit("/announce");
    reveal_strlit("/scrape");
    lemma_text_ascii("/announce");
    lemma_text_ascii("/scrape");
    assert(text("/announce").len() == 9 && text("/scrape").len() == 7);
}

/// Law: the announce that a client sends is the one that is carried out: a
/// request that is written with a method, `/announce`, a query and whatever
/// else follows is routed to the announce that the query makes.
pub proof fn sent_announce_is_routed(
    method: Seq<u8>,
    query: Seq<u8>,
    version: Seq<u8>,
    more: Seq<u8>,
    peer: SocketAddr,
    req: RequestView,
)
    requires
        forall|i: int| 0 <= i < method.len() ==> method[i] != SPACE && method[i] != CR,
        forall|i: int| 0 <= i < query.len() ==> query[i] != SPACE && query[i] != CR,
        forall|i: int| 0 <= i < version.len() ==> version[i] != CR,
        requested(query, peer) == Ok::<RequestView, Seq<char>>(req),
    ensures
        routed(
            method + seq![SPACE] + text("/announce") + seq![QUESTION] + query + seq![SPACE]
                + version + seq![CR] + more,
            peer,
        ) == RouteView::Announce(req),
{
    let path = text("/announce");
    reveal_strlit("/announce");
    lemma_text_ascii("/announce");
    assert(forall|i: int|
        0 <= i < path.len() ==> path[i] != SPACE && path[i] != QUESTION && path[i] != CR);
    let line = method + seq![SPACE] + path + seq![QUESTION] + query + seq![SPACE] + version;
    lemma_line(method, path, query, version);
    request_line_reads_back(method, path, query, version);
    text_is_cut_at_its_separator(line, CR, more);
}

/// A line that is joined of parts without carriage returns has none.
proof fn lemma_line(method: Seq<u8>, path: Seq<u8>, query: Seq<u8>, version: Seq<u8>)
    requires
        forall|i: int| 0 <= i < method.len() ==> method[i] != CR,
        forall|i: int| 0 <= i < path.len() ==> path[i] != CR,
        forall|i: int| 0 <= i < query.len() ==> query[i] != CR,
        forall|i: int| 0 <= i < version.len() ==> version[i] != CR,
    ensures
        ({
            let line = method + seq![SPACE] + path + seq![QUESTION] + query + seq![SPACE] + version;
            forall|i: int| 0 <= i < line.len() ==> line[i] != CR
        }),
{
}

/// Law: a request that asks for no announce changes nothing. A scrape is
/// answered with no files, and a refusal with its reason.
pub proof fn only_an_announce_changes_swarms(
    old_swarms: Map<Seq<u8>, Map<Seq<u8>, PeerEntry>>,
    new_swarms: Map<Seq<u8>, Map<Seq<u8>, PeerEntry>>,
    received: Seq<u8>,
    peer: SocketAddr,
    now: u64,
    response: Seq<u8>,
    reason: &str,
)
    requires
        responded(old_swarms, new_swarms, received, peer, now, response),
    ensures
        routed(received, peer) == RouteView::Scrape ==> new_swarms == old_swarms && response
            == framed(text("d5:filesdee")),
        routed(received, peer) == RouteView::Refuse(reason@) ==> new_swarms == old_swarms
            && response == framed(failure_encoding(text(reason))),
{
}

/// Law: an announce is told of its swarm as it leaves it: to announce again in
/// half an hour, how many seeders and leechers there are, and who some of the
/// others are.
pub proof fn announce_is_told_of_its_swarm(
    old_swarms: Map<Seq<u8>, Map<Seq<u8>, PeerEntry>>,
    new_swarms: Map<Seq<u8>, Map<Seq<u8>, PeerEntry>>,
    received: Seq<u8>,
    peer: SocketAddr,
    now: u64,
    response: Seq<u8>,
    req: AnnounceRequest,
)
    requires
        responded(old_swarms, new_swarms, received, peer, now, response),
        routed(received, peer) == RouteView::Announce(req@),
    ensures
        new_swarms == after_announce(old_swarms, req, now),
        exists|peers: Seq<SocketAddr>| #[trigger]
            is_selection(peers, new_swarms[req.info_hash@], req.peer_id@) && response == framed(
                response_encoding(
                    1800,
                    seeders(new_swarms[req.info_hash@]).len() as int,
                    leechers(new_swarms[req.info_hash@]).len() as int,
                    peers,
                ),
            ),
{
    let (route, body) = choose|route: Route, body: Seq<u8>|
        {
            &&& route@ == routed(received, peer)
            &&& #[trigger] answered(old_swarms, new_swarms, route, now, body)
            &&& response == framed(body)
        };
    match route {
        Route::Announce(routed_req) => {
            lemma_same_request(routed_req, req);
        },
        _ => {},
    }
}

/// Law: a route says what it holds.
pub proof fn route_says_what_it_holds(req: AnnounceRequest, reason: &'static str)
    ensures
        Route::Announce(req)@ == RouteView::Announce(req@),
        Route::Scrape@ == RouteView::Scrape,
        Route::Refuse(reason)@ == RouteView::Refuse(reason@),
{
}

} // verus!
