//! Reading an announce from the request line of an HTTP request.

use vstd::prelude::*;

use crate::addr::{ip_text, parse_ip, IpAddr, IpView, SocketAddr};
use crate::announce::{event_text, AnnounceEvent, AnnounceRequest};
use crate::ascii::{AMPERSAND, EQUALS, QUESTION, SPACE};
use crate::bytes::{after, before, equal, pieces, split, take_after, take_before, text};
use crate::number::{ascii_u64, u64_text};
use crate::percent::{decoded, percent_decode};

verus! {

/// The path and the query of a request line's target, the second of its
/// space-separated words.
pub open spec fn request_target(line: Seq<u8>) -> Option<(Seq<u8>, Seq<u8>)> {
    let words = pieces(line, SPACE);
    if words.len() >= 2 {
        Some((before(words[1], QUESTION), after(words[1], QUESTION)))
    } else {
        None
    }
}

/// The value that the last pair for `key` gives it, decoded.
pub open spec fn last_value(pairs: Seq<Seq<u8>>, key: Seq<u8>) -> Option<Seq<u8>>
    decreases pairs.len(),
{
    if pairs.len() == 0 {
        None
    } else if before(pairs.last(), EQUALS) == key {
        Some(decoded(after(pairs.last(), EQUALS)))
    } else {
        last_value(pairs.drop_last(), key)
    }
}

/// The value of `key` in a query, where later values replace earlier ones.
pub open spec fn query_value(query: Seq<u8>, key: &str) -> Option<Seq<u8>> {
    last_value(pieces(query, AMPERSAND), text(key))
}

/// A value that is a 20-byte identity.
pub open spec fn id_value(value: Option<Seq<u8>>) -> Option<Seq<u8>> {
    match value {
        Some(id) => if id.len() == 20 {
            Some(id)
        } else {
            None
        },
        None => None,
    }
}

/// A value that is a port number.
pub open spec fn port_value(value: Option<Seq<u8>>) -> Option<u16> {
    match value {
        Some(digits) => match u64_text(digits) {
            Some(n) => if n <= u16::MAX {
                Some(n as u16)
            } else {
                None
            },
            None => None,
        },
        None => None,
    }
}

/// A value that is a number of bytes; one that is none counts as zero.
pub open spec fn left_value(value: Option<Seq<u8>>) -> u64 {
    match value {
        Some(digits) => match u64_text(digits) {
            Some(n) => n,
            None => 0,
        },
        None => 0,
    }
}

/// A value that is an event.
pub open spec fn event_value(value: Option<Seq<u8>>) -> AnnounceEvent {
    match value {
        Some(name) => event_text(name),
        None => AnnounceEvent::Refresh,
    }
}

/// A value that is an IP address.
pub open spec fn ip_value(value: Option<Seq<u8>>) -> Option<IpView> {
    match value {
        Some(addr) => ip_text(addr),
        None => None,
    }
}

/// What an announce says.
pub struct RequestView {
    pub info_hash: Seq<u8>,
    pub peer_id: Seq<u8>,
    pub ip: IpView,
    pub port: u16,
    pub left: u64,
    pub event: AnnounceEvent,
}

impl View for AnnounceRequest {
    type V = RequestView;

    open spec fn view(&self) -> RequestView {
        RequestView {
            info_hash: self.info_hash@,
            peer_id: self.peer_id@,
            ip: self.addr.ip@,
            port: self.addr.port,
            left: self.left,
            event: self.event,
        }
    }
}

/// The announce that a query from `peer` makes, or why it makes none.
pub open spec fn requested(query: Seq<u8>, peer: SocketAddr) -> Result<RequestView, Seq<char>> {
    match (
        id_value(query_value(query, "info_hash")),
        id_value(query_value(query, "peer_id")),
        port_value(query_value(query, "port")),
    ) {
        (None, _, _) => Err("missing or malformed info_hash"@),
        (_, None, _) => Err("missing or malformed peer_id"@),
        (_, _, None) => Err("missing port"@),
        (Some(info_hash), Some(peer_id), Some(port)) => Ok(
            RequestView {
                info_hash,
                peer_id,
                ip: match ip_value(query_value(query, "ip")) {
                    Some(ip) => ip,
                    None => peer.ip@,
                },
                port,
                left: left_value(query_value(query, "left")),
                event: event_value(query_value(query, "event")),
            },
        ),
    }
}

/// The path and the query of a request line such as `GET /path?query HTTP/1.0`.
pub fn parse_request_target(line: &[u8]) -> (r: Option<(Vec<u8>, Vec<u8>)>)
    ensures
        match r {
            Some((path, query)) => request_target(line@) == Some((path@, query@)),
            None => request_target(line@) is None,
        },
{
    let words: Vec<&[u8]> = split(line, SPACE);
    if words.len() < 2 {
        return None;
    }
    let target: &[u8] = words[1];
    let path: Vec<u8> = vstd::slice::slice_to_vec(take_before(target, QUESTION));
    let query: Vec<u8> = vstd::slice::slice_to_vec(take_after(target, QUESTION));
    Some((path, query))
}

/// The 20-byte identity that `value` is, if it is one.
fn to_id(value: &Vec<u8>) -> (r: Option<[u8; 20]>)
    ensures
        match r {
            Some(id) => id_value(Some(value@)) == Some(id@),
            None => id_value(Some(value@)) is None,
        },
{
    if value.len() != 20 {
        return None;
    }
    let mut id: [u8; 20] = [0u8;20];
    let mut i: usize = 0;
    while i < 20
        invariant
            i <= 20,
            value@.len() == 20,
            forall|j: int| 0 <= j < i ==> id@[j] == value@[j],
        decreases 20 - i,
    {
        id[i] = value[i];
        i += 1;
    }
    assert(id@ =~= value@);
    Some(id)
}

/// Reads an announce from a query. The IP address is that of the connected
/// `peer`, unless the query gives another.
pub fn build_announce(query: &[u8], peer: SocketAddr) -> (r: Result<AnnounceRequest, &'static str>)
    ensures
        match r {
            Ok(req) => requested(query@, peer) == Ok::<RequestView, Seq<char>>(req@),
            Err(reason) => requested(query@, peer) == Err::<RequestView, Seq<char>>(reason@),
        },
{
    let mut info_hash: Option<[u8; 20]> = None;
    let mut peer_id: Option<[u8; 20]> = None;
    let mut port: Option<u16> = None;
    let mut left: u64 = 0;
    let mut event: AnnounceEvent = AnnounceEvent::Refresh;
    let mut ip: Option<IpAddr> = None;

    let pairs: Vec<&[u8]> = split(query, AMPERSAND);
    let ghost texts = pieces(query@, AMPERSAND);
    let mut i: usize = 0;
    while i < pairs.len()
        invariant
            i <= pairs@.len() == texts.len(),
            forall|k: int| 0 <= k < pairs@.len() ==> (#[trigger] pairs@[k])@ == texts[k],
            match info_hash {
                Some(id) => id_value(last_value(texts.take(i as int), text("info_hash"))) == Some(id@),
                None => id_value(last_value(texts.take(i as int), text("info_hash"))) is None,
            },
            match peer_id {
                Some(id) => id_value(last_value(texts.take(i as int), text("peer_id"))) == Some(id@),
                None => id_value(last_value(texts.take(i as int), text("peer_id"))) is None,
            },
            port == port_value(last_value(texts.take(i as int), text("port"))),
            left == left_value(last_value(texts.take(i as int), text("left"))),
            event == event_value(last_value(texts.take(i as int), text("event"))),
            match ip {
                Some(ip) => ip_value(last_value(texts.take(i as int), text("ip"))) == Some(ip@),
                None => ip_value(last_value(texts.take(i as int), text("ip"))) is None,
            },
        decreases pairs@.len() - i,
    {
        let key: &[u8] = take_before(pairs[i], EQUALS);
        let value: Vec<u8> = percent_decode(take_after(pairs[i], EQUALS));
        assert(texts.take(i + 1).drop_last() =~= texts.take(i as int));
        assert(texts.take(i + 1).last() == texts[i as int]);
        if equal(key, "info_hash".as_bytes()) {
            info_hash = to_id(&value);
        }
        if equal(key, "peer_id".as_bytes()) {
            peer_id = to_id(&value);
        }
        if equal(key, "port".as_bytes()) {
            port = match ascii_u64(&value) {
                Some(n) => if n <= u16::MAX as u64 {
                    Some(n as u16)
                } else {
                    None
                },
                None => None,
            };
        }
        if equal(key, "left".as_bytes()) {
            left = match ascii_u64(&value) {
                Some(n) => n,
                None => 0,
            };
        }
        if equal(key, "event".as_bytes()) {
            event = AnnounceEvent::parse_bytes(&value);
        }
        if equal(key, "ip".as_bytes()) {
            ip = parse_ip(&value);
        }
        i += 1;
    }
    assert(texts.take(i as int) =~= texts);

    let info_hash: [u8; 20] = match info_hash {
        Some(id) => id,
        None => {
            return Err("missing or malformed info_hash");
        },
    };
    let peer_id: [u8; 20] = match peer_id {
        Some(id) => id,
        None => {
            return Err("missing or malformed peer_id");
        },
    };
    let port: u16 = match port {
        Some(port) => port,
        None => {
            return Err("missing port");
        },
    };
    let ip: IpAddr = match ip {
        Some(ip) => ip,
        None => peer.ip,
    };
    Ok(AnnounceRequest { info_hash, peer_id, addr: SocketAddr::new(ip, port), left, event })
}

} // verus!
