//! One HTTP exchange: when a request is complete, what it asks for, and what
//! is sent back.

use vstd::prelude::*;

use crate::addr::SocketAddr;
use crate::announce::{AnnounceRequest, ANNOUNCE_INTERVAL};
use crate::ascii::{CR, LF};
use crate::bytes::{before, equal, find_part, occurs, take_before, text};
use crate::number::{decimal, decimal_text};
use crate::registry::{
    after_announce, is_countable, is_selection, leechers, seeders, PeerEntry, Registry,
};
use crate::request::{
    build_announce, parse_request_target, request_target, requested, RequestView,
};
use crate::response::{failure_encoding, response_encoding, AnnounceResponse};

verus! {

/// A request longer than this is taken as complete.
pub const MAX_HEAD: usize = 8192;

/// The empty line that ends the head of a request.
pub open spec fn head_end() -> Seq<u8> {
    seq![CR, LF, CR, LF]
}

/// Whether a request is complete when `chunk` was the last to arrive, and
/// `received` is all that arrived: the stream has ended, the head has ended,
/// or the request is too long.
pub open spec fn is_complete(received: Seq<u8>, chunk: Seq<u8>) -> bool {
    ||| chunk.len() == 0
    ||| occurs(received, head_end())
    ||| received.len() > MAX_HEAD
}

/// What a connection has received of a request.
pub struct RequestBuffer {
    received: Vec<u8>,
}

impl View for RequestBuffer {
    type V = Seq<u8>;

    closed spec fn view(&self) -> Seq<u8> {
        self.received@
    }
}

impl RequestBuffer {
    /// Nothing received yet.
    pub fn new() -> (r: Self)
        ensures
            r@ == Seq::<u8>::empty(),
    {
        RequestBuffer { received: Vec::new() }
    }

    /// Adds the bytes of one read, none at the end of the stream, and tells
    /// whether the request is complete.
    pub fn receive(&mut self, chunk: &[u8]) -> (complete: bool)
        ensures
            final(self)@ == old(self)@ + chunk@,
            complete == is_complete(final(self)@, chunk@),
    {
        self.received.extend_from_slice(chunk);
        assert(self@ =~= old(self)@ + chunk@);
        let end: [u8; 4] = [CR, LF, CR, LF];
        assert(end@ =~= head_end());
        chunk.len() == 0 || find_part(&self.received, &end).is_some() || self.received.len()
            > MAX_HEAD
    }

    /// All that was received.
    pub fn as_slice(&self) -> (r: &[u8])
        ensures
            r@ == self@,
    {
        self.received.as_slice()
    }
}

/// What a request asks for.
#[derive(Debug, Clone)]
pub enum Route {
    /// To announce a peer.
    Announce(AnnounceRequest),
    /// To scrape the tracker.
    Scrape,
    /// Nothing that can be granted, for this reason.
    Refuse(&'static str),
}

/// What a request asks for.
pub enum RouteView {
    Announce(RequestView),
    Scrape,
    Refuse(Seq<char>),
}

impl View for Route {
    type V = RouteView;

    open spec fn view(&self) -> RouteView {
        match *self {
            Route::Announce(req) => RouteView::Announce(req@),
            Route::Scrape => RouteView::Scrape,
            Route::Refuse(reason) => RouteView::Refuse(reason@),
        }
    }
}

/// What the request in `received` from `peer` asks for.
pub open spec fn routed(received: Seq<u8>, peer: SocketAddr) -> RouteView {
    match request_target(before(received, CR)) {
        Some((path, query)) => if path == text("/announce") {
            match requested(query, peer) {
                Ok(req) => RouteView::Announce(req),
                Err(reason) => RouteView::Refuse(reason),
            }
        } else if path == text("/scrape") {
            RouteView::Scrape
        } else {
            RouteView::Refuse("unknown endpoint"@)
        },
        None => RouteView::Refuse("unknown endpoint"@),
    }
}

/// What is sent back with `body`.
pub open spec fn framed(body: Seq<u8>) -> Seq<u8> {
    text("HTTP/1.0 200 OK\r\nContent-Type: text/plain\r\nContent-Length: ") + decimal(body.len())
        + text("\r\nConnection: close\r\n\r\n") + body
}

/// Tells what the request in `received` from `peer` asks for.
pub fn route(received: &[u8], peer: SocketAddr) -> (r: Route)
    ensures
        r@ == routed(received@, peer),
{
    match parse_request_target(take_before(received, CR)) {
        Some((path, query)) => {
            if equal(&path, "/announce".as_bytes()) {
                match build_announce(&query, peer) {
                    Ok(req) => Route::Announce(req),
                    Err(reason) => Route::Refuse(reason),
                }
            } else if equal(&path, "/scrape".as_bytes()) {
                Route::Scrape
            } else {
                Route::Refuse("unknown endpoint")
            }
        },
        None => Route::Refuse("unknown endpoint"),
    }
}

/// Whether `body` is the answer to an announce that left its swarm as `swarm`.
pub open spec fn answers_announce(
    body: Seq<u8>,
    swarm: Map<Seq<u8>, PeerEntry>,
    announcer: Seq<u8>,
) -> bool {
    exists|peers: Seq<SocketAddr>| #[trigger]
        is_selection(peers, swarm, announcer) && body == response_encoding(
            ANNOUNCE_INTERVAL as int,
            seeders(swarm).len() as int,
            leechers(swarm).len() as int,
            peers,
        )
}

/// Whether `body` answers `route` at `now`, and takes the swarms from `old_swarms`
/// to `new_swarms`. Only an announce changes the swarms. A scrape is answered
/// with statistics of no swarm at all.
pub open spec fn answered(
    old_swarms: Map<Seq<u8>, Map<Seq<u8>, PeerEntry>>,
    new_swarms: Map<Seq<u8>, Map<Seq<u8>, PeerEntry>>,
    route: Route,
    now: u64,
    body: Seq<u8>,
) -> bool {
    match route {
        Route::Announce(req) => {
            &&& new_swarms == after_announce(old_swarms, req, now)
            &&& answers_announce(body, new_swarms[req.info_hash@], req.peer_id@)
        },
        Route::Scrape => {
            &&& new_swarms == old_swarms
            &&& body == text("d5:filesdee")
        },
        Route::Refuse(reason) => {
            &&& new_swarms == old_swarms
            &&& body == failure_encoding(text(reason))
        },
    }
}

/// Whether `response` is what is sent back for the request in `received` from
/// `peer` at `now`, and takes the swarms from `old_swarms` to `new_swarms`.
pub open spec fn responded(
    old_swarms: Map<Seq<u8>, Map<Seq<u8>, PeerEntry>>,
    new_swarms: Map<Seq<u8>, Map<Seq<u8>, PeerEntry>>,
    received: Seq<u8>,
    peer: SocketAddr,
    now: u64,
    response: Seq<u8>,
) -> bool {
    exists|route: Route, body: Seq<u8>|
        {
            &&& route@ == routed(received, peer)
            &&& #[trigger] answered(old_swarms, new_swarms, route, now, body)
            &&& response == framed(body)
        }
}

/// Answers what a request asks for at `now`. The swarm of an announce must be
/// one that a reply can count; it is enough that it has room.
pub fn answer(registry: &mut Registry, route: &Route, now: u64) -> (body: Vec<u8>)
    requires
        old(registry).wf(),
        *route matches Route::Announce(req) ==> old(registry).has_room(req.info_hash@)
            || is_countable(after_announce(old(registry)@, req, now)[req.info_hash@]),
    ensures
        final(registry).wf(),
        answered(old(registry)@, final(registry)@, *route, now, body@),
{
    match route {
        Route::Announce(req) => {
            let r: AnnounceResponse = registry.announce(req, now);
            r.to_bencode()
        },
        Route::Scrape => vstd::slice::slice_to_vec("d5:filesdee".as_bytes()),
        Route::Refuse(reason) => AnnounceResponse::failure(reason),
    }
}

/// Frames `body` as an HTTP response.
pub fn http_response(body: &[u8]) -> (r: Vec<u8>)
    ensures
        r@ == framed(body@),
{
    let mut r: Vec<u8> = vstd::slice::slice_to_vec(
        "HTTP/1.0 200 OK\r\nContent-Type: text/plain\r\nContent-Length: ".as_bytes(),
    );
    r.extend_from_slice(&decimal_text(body.len() as u64));
    r.extend_from_slice("\r\nConnection: close\r\n\r\n".as_bytes());
    r.extend_from_slice(body);
    assert(r@ =~= framed(body@));
    r
}

/// Responds to the request in `received` from `peer` at `now`. There is no
/// response, and nothing changes, where an announce goes to a swarm of which
/// no reply could count one peer more.
pub fn respond(
    registry: &mut Registry,
    received: &[u8],
    peer: SocketAddr,
    now: u64,
) -> (response: Option<Vec<u8>>)
    requires
        old(registry).wf(),
    ensures
        final(registry).wf(),
        response is Some <==> (routed(received@, peer) matches RouteView::Announce(req)
            ==> old(registry).has_room(req.info_hash)),
        match response {
            Some(response) => responded(
                old(registry)@,
                final(registry)@,
                received@,
                peer,
                now,
                response@,
            ),
            None => final(registry)@ == old(registry)@,
        },
{
    let route: Route = route(received, peer);
    if let Route::Announce(req) = &route {
        if registry.peer_count(&req.info_hash) as u64 >= i64::MAX as u64 {
            return None;
        }
    }
    let body: Vec<u8> = answer(registry, &route, now);
    Some(http_response(&body))
}

} // verus!
