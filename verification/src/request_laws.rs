//! What holds of reading requests.

use vstd::prelude::*;

use crate::addr::{ip_text, IpView, SocketAddr};
use crate::announce::{event_text, AnnounceEvent, AnnounceRequest};
use crate::ascii::{AMPERSAND, EQUALS, PERCENT, QUESTION, SPACE};
use crate::bytes::{
    after, before, is_free, lemma_first_index, lemma_single_piece, lemma_text_ascii, pieces,
    pieces_of_joined, text,
};
use crate::number::{decimal, decimal_reads_back, is_digit, u64_text, u64_text_of_decimal};
use crate::percent::{decoded, escaped, escaped_decodes, hex_digit, plain_decodes};
use crate::request::{last_value, query_value, request_target, requested, RequestView};
use crate::text_laws::{text_is_cut_at_its_separator, text_without_separator_is_not_cut};

verus! {

/// Law: a later pair for a key replaces what earlier ones gave it, and does
/// not matter to any other key.
pub proof fn later_pair_replaces(query: Seq<u8>, pair: Seq<u8>, key: &str)
    requires
        is_free(pair, AMPERSAND),
    ensures
        query_value(query + seq![AMPERSAND] + pair, key) == if before(pair, EQUALS) == text(key) {
            Some(decoded(after(pair, EQUALS)))
        } else {
            query_value(query, key)
        },
{
    pieces_of_joined(query, AMPERSAND, pair);
    lemma_single_piece(pair, AMPERSAND);
    let pairs = pieces(query + seq![AMPERSAND] + pair, AMPERSAND);
    assert(pairs.drop_last() =~= pieces(query, AMPERSAND));
    assert(pairs.last() == pair);
}

/// Law: a pair whose key the tracker does not know changes nothing.
pub proof fn unknown_key_is_ignored(query: Seq<u8>, pair: Seq<u8>, peer: SocketAddr)
    requires
        is_free(pair, AMPERSAND),
        before(pair, EQUALS) != text("info_hash"),
        before(pair, EQUALS) != text("peer_id"),
        before(pair, EQUALS) != text("port"),
        before(pair, EQUALS) != text("left"),
        before(pair, EQUALS) != text("event"),
        before(pair, EQUALS) != text("ip"),
    ensures
        requested(query + seq![AMPERSAND] + pair, peer) == requested(query, peer),
{
    later_pair_replaces(query, pair, "info_hash");
    later_pair_replaces(query, pair, "peer_id");
    later_pair_replaces(query, pair, "port");
    later_pair_replaces(query, pair, "left");
    later_pair_replaces(query, pair, "event");
    later_pair_replaces(query, pair, "ip");
}

/// A pair for another key does not matter to a key, wherever it stands.
proof fn lemma_other_pair(pairs: Seq<Seq<u8>>, i: int, pair: Seq<u8>, key: Seq<u8>)
    requires
        0 <= i <= pairs.len(),
        before(pair, EQUALS) != key,
    ensures
        last_value(pairs.insert(i, pair), key) == last_value(pairs, key),
    decreases pairs.len(),
{
    let more = pairs.insert(i, pair);
    if i == pairs.len() {
        assert(more.drop_last() =~= pairs);
        assert(more.last() == pair);
    } else {
        lemma_other_pair(pairs.drop_last(), i, pair, key);
        assert(more.drop_last() =~= pairs.drop_last().insert(i, pair));
        assert(more.last() == pairs.last());
    }
}

/// Law: a pair whose key the tracker does not know changes nothing, at
/// whatever place among the other pairs it stands.
pub proof fn unknown_key_is_ignored_anywhere(
    without: Seq<u8>,
    with: Seq<u8>,
    i: int,
    pair: Seq<u8>,
    peer: SocketAddr,
)
    requires
        0 <= i <= pieces(without, AMPERSAND).len(),
        pieces(with, AMPERSAND) == pieces(without, AMPERSAND).insert(i, pair),
        before(pair, EQUALS) != text("info_hash"),
        before(pair, EQUALS) != text("peer_id"),
        before(pair, EQUALS) != text("port"),
        before(pair, EQUALS) != text("left"),
        before(pair, EQUALS) != text("event"),
        before(pair, EQUALS) != text("ip"),
    ensures
        requested(with, peer) == requested(without, peer),
{
    let pairs = pieces(without, AMPERSAND);
    lemma_other_pair(pairs, i, pair, text("info_hash"));
    lemma_other_pair(pairs, i, pair, text("peer_id"));
    lemma_other_pair(pairs, i, pair, text("port"));
    lemma_other_pair(pairs, i, pair, text("left"));
    lemma_other_pair(pairs, i, pair, text("event"));
    lemma_other_pair(pairs, i, pair, text("ip"));
}

/// A pair of a query.
pub open spec fn pair(key: &str, value: Seq<u8>) -> Seq<u8> {
    text(key) + seq![EQUALS] + value
}

/// What an announce calls its event; a refresh goes without a name.
pub open spec fn event_name(event: AnnounceEvent) -> Seq<u8> {
    match event {
        AnnounceEvent::Started => text("started"),
        AnnounceEvent::Stopped => text("stopped"),
        AnnounceEvent::Completed => text("completed"),
        AnnounceEvent::Refresh => Seq::empty(),
    }
}

/// The query of an announce, as a client writes it.
pub open spec fn announce_query(
    info_hash: Seq<u8>,
    peer_id: Seq<u8>,
    port: u16,
    left: u64,
    event: AnnounceEvent,
) -> Seq<u8> {
    pair("info_hash", escaped(info_hash)) + seq![AMPERSAND] + pair("peer_id", escaped(peer_id))
        + seq![AMPERSAND] + pair("port", decimal(port as nat)) + seq![AMPERSAND] + pair(
        "left",
        decimal(left as nat),
    ) + seq![AMPERSAND] + pair("event", event_name(event))
}

/// The keys that the tracker knows hold no separators, and no two are equal.
proof fn lemma_keys()
    ensures
        forall|key: &str|
            key == "info_hash" || key == "peer_id" || key == "port" || key == "left" || key
                == "event" || key == "ip" ==> {
                &&& is_free(#[trigger] text(key), EQUALS)
                &&& is_free(text(key), AMPERSAND)
            },
        text("info_hash").len() == 9,
        text("peer_id").len() == 7,
        text("port").len() == 4,
        text("left").len() == 4,
        text("event").len() == 5,
        text("ip").len() == 2,
        text("port") != text("left"),
{
    reveal_strlit("info_hash");
    reveal_strlit("peer_id");
    reveal_strlit("port");
    reveal_strlit("left");
    reveal_strlit("event");
    reveal_strlit("ip");
    lemma_text_ascii("info_hash");
    lemma_text_ascii("peer_id");
    lemma_text_ascii("port");
    lemma_text_ascii("left");
    lemma_text_ascii("event");
    lemma_text_ascii("ip");
    assert(text("port")[0] != text("left")[0]);
}

/// A pair is read as it was written.
proof fn lemma_pair(key: &str, value: Seq<u8>)
    requires
        is_free(text(key), EQUALS),
        is_free(text(key), AMPERSAND),
        is_free(value, AMPERSAND),
    ensures
        before(pair(key, value), EQUALS) == text(key),
        after(pair(key, value), EQUALS) == value,
        is_free(pair(key, value), AMPERSAND),
{
    let s = pair(key, value);
    assert(forall|i: int| 0 <= i < text(key).len() ==> s[i] == text(key)[i]);
    lemma_first_index(s, EQUALS, text(key).len() as int);
    assert(before(s, EQUALS) =~= text(key));
    assert(after(s, EQUALS) =~= value);
}

/// What a pair gives to each of the keys that the tracker knows.
proof fn lemma_pair_joined(query: Seq<u8>, key: &str, value: Seq<u8>)
    requires
        is_free(text(key), EQUALS),
        is_free(text(key), AMPERSAND),
        is_free(value, AMPERSAND),
    ensures
        forall|other: &str|
            other == "info_hash" || other == "peer_id" || other == "port" || other == "left"
                || other == "event" || other == "ip" ==> #[trigger] query_value(
                query + seq![AMPERSAND] + pair(key, value),
                other,
            ) == if text(key) == text(other) {
                Some(decoded(value))
            } else {
                query_value(query, other)
            },
{
    lemma_pair(key, value);
    later_pair_replaces(query, pair(key, value), "info_hash");
    later_pair_replaces(query, pair(key, value), "peer_id");
    later_pair_replaces(query, pair(key, value), "port");
    later_pair_replaces(query, pair(key, value), "left");
    later_pair_replaces(query, pair(key, value), "event");
    later_pair_replaces(query, pair(key, value), "ip");
}

/// An escaped byte string holds no separators.
proof fn lemma_escaped_free(s: Seq<u8>)
    ensures
        is_free(escaped(s), AMPERSAND),
    decreases s.len(),
{
    if s.len() > 0 {
        lemma_escaped_free(s.skip(1));
        let head = seq![PERCENT, hex_digit((s[0] / 16) as u8), hex_digit((s[0] % 16) as u8)];
        assert(escaped(s) == head + escaped(s.skip(1)));
        assert forall|i: int| 0 <= i < escaped(s).len() implies escaped(s)[i] != AMPERSAND by {
            if i >= 3 {
                assert(escaped(s)[i] == escaped(s.skip(1))[i - 3]);
            }
        }
    }
}

/// A number in decimal holds no separators, and decodes to itself.
proof fn lemma_decimal_plain(n: nat)
    ensures
        is_free(decimal(n), AMPERSAND),
        decoded(decimal(n)) == decimal(n),
{
    decimal_reads_back(n);
    assert(forall|i: int|
        0 <= i < decimal(n).len() ==> is_digit(#[trigger] decimal(n)[i], 10));
    plain_decodes(decimal(n));
}

/// The name of an event holds no separators, decodes to itself and names the
/// event.
proof fn lemma_event_name(event: AnnounceEvent)
    ensures
        is_free(event_name(event), AMPERSAND),
        decoded(event_name(event)) == event_name(event),
        event_text(event_name(event)) == event,
{
    reveal_strlit("started");
    reveal_strlit("stopped");
    reveal_strlit("completed");
    lemma_text_ascii("started");
    lemma_text_ascii("stopped");
    lemma_text_ascii("completed");
    assert(text("started")[2] != text("stopped")[2]);
    assert(text("started").len() == 7 && text("completed").len() == 9 && text("stopped").len()
        == 7);
    plain_decodes(event_name(event));
}

/// Law: the announce that a client writes into a query is the announce that
/// is read from it, whatever bytes the identities are made of.
pub proof fn announce_query_reads_back(
    info_hash: Seq<u8>,
    peer_id: Seq<u8>,
    port: u16,
    left: u64,
    event: AnnounceEvent,
    peer: SocketAddr,
)
    requires
        info_hash.len() == 20,
        peer_id.len() == 20,
    ensures
        requested(announce_query(info_hash, peer_id, port, left, event), peer) == Ok::<
            RequestView,
            Seq<char>,
        >(RequestView { info_hash, peer_id, ip: peer.ip@, port, left, event }),
{
    lemma_keys();
    lemma_escaped_free(info_hash);
    lemma_escaped_free(peer_id);
    escaped_decodes(info_hash);
    escaped_decodes(peer_id);
    lemma_decimal_plain(port as nat);
    lemma_decimal_plain(left as nat);
    u64_text_of_decimal(port as u64);
    u64_text_of_decimal(left);
    lemma_event_name(event);

    let q1 = pair("info_hash", escaped(info_hash));
    lemma_pair("info_hash", escaped(info_hash));
    lemma_single_piece(q1, AMPERSAND);
    assert forall|key: &str| #[trigger] query_value(q1, key) == if text(key) == text("info_hash") {
        Some(info_hash)
    } else {
        None
    } by {
        let pairs = pieces(q1, AMPERSAND);
        assert(pairs.last() == q1);
        assert(last_value(pairs.drop_last(), text(key)) is None);
    }
    let q2 = q1 + seq![AMPERSAND] + pair("peer_id", escaped(peer_id));
    lemma_pair_joined(q1, "peer_id", escaped(peer_id));
    let q3 = q2 + seq![AMPERSAND] + pair("port", decimal(port as nat));
    lemma_pair_joined(q2, "port", decimal(port as nat));
    let q4 = q3 + seq![AMPERSAND] + pair("left", decimal(left as nat));
    lemma_pair_joined(q3, "left", decimal(left as nat));
    let q5 = q4 + seq![AMPERSAND] + pair("event", event_name(event));
    lemma_pair_joined(q4, "event", event_name(event));
    assert(query_value(q5, "info_hash") == Some(info_hash));
    assert(query_value(q5, "peer_id") == Some(peer_id));
    assert(query_value(q5, "port") == Some(decimal(port as nat)));
    assert(query_value(q5, "left") == Some(decimal(left as nat)));
    assert(query_value(q5, "event") == Some(event_name(event)));
    assert(query_value(q5, "ip") is None);
}

/// Law: an IP address in the query takes the place of that of the connection,
/// and changes nothing else.
pub proof fn ip_in_query_wins(query: Seq<u8>, value: Seq<u8>, peer: SocketAddr, ip: IpView)
    requires
        is_free(value, AMPERSAND),
        ip_text(decoded(value)) == Some(ip),
    ensures
        requested(query + seq![AMPERSAND] + pair("ip", value), peer) == match requested(
            query,
            peer,
        ) {
            Ok(req) => Ok::<RequestView, Seq<char>>(RequestView { ip, ..req }),
            Err(reason) => Err(reason),
        },
{
    lemma_keys();
    lemma_pair_joined(query, "ip", value);
    let all = query + seq![AMPERSAND] + pair("ip", value);
    assert(query_value(all, "info_hash") == query_value(query, "info_hash"));
    assert(query_value(all, "peer_id") == query_value(query, "peer_id"));
    assert(query_value(all, "port") == query_value(query, "port"));
    assert(query_value(all, "left") == query_value(query, "left"));
    assert(query_value(all, "event") == query_value(query, "event"));
    assert(query_value(all, "ip") == Some(decoded(value)));
}

/// The target of a request line, up to its question mark and after it.
proof fn lemma_target(method: Seq<u8>, target: Seq<u8>, rest: Seq<u8>)
    requires
        is_free(method, SPACE),
        is_free(target, SPACE),
    ensures
        request_target(method + seq![SPACE] + target + seq![SPACE] + rest) == Some(
            (before(target, QUESTION), after(target, QUESTION)),
        ),
        request_target(method + seq![SPACE] + target) == Some(
            (before(target, QUESTION), after(target, QUESTION)),
        ),
{
    lemma_single_piece(method, SPACE);
    lemma_single_piece(target, SPACE);
    pieces_of_joined(method, SPACE, target);
    pieces_of_joined(method + seq![SPACE] + target, SPACE, rest);
}

/// Law: a request line that is written with a method, a path and a query reads
/// back as that path and that query, however long they are, whatever the
/// method is, and whether or not more follows.
pub proof fn request_line_reads_back(
    method: Seq<u8>,
    path: Seq<u8>,
    query: Seq<u8>,
    rest: Seq<u8>,
)
    requires
        forall|i: int| 0 <= i < method.len() ==> method[i] != SPACE,
        forall|i: int| 0 <= i < path.len() ==> path[i] != SPACE && path[i] != QUESTION,
        forall|i: int| 0 <= i < query.len() ==> query[i] != SPACE,
    ensures
        request_target(
            method + seq![SPACE] + path + seq![QUESTION] + query + seq![SPACE] + rest,
        ) == Some((path, query)),
        request_target(method + seq![SPACE] + path + seq![QUESTION] + query) == Some((path, query)),
{
    let target = path + seq![QUESTION] + query;
    assert(is_free(target, SPACE));
    lemma_target(method, target, rest);
    text_is_cut_at_its_separator(path, QUESTION, query);
    assert(method + seq![SPACE] + path + seq![QUESTION] + query =~= method + seq![SPACE] + target);
    assert(method + seq![SPACE] + path + seq![QUESTION] + query + seq![SPACE] + rest =~= method
        + seq![SPACE] + target + seq![SPACE] + rest);
}

/// Law: a request line that is written without a query reads back as its path
/// and no query, and one of a single word has no target.
pub proof fn plain_request_line_reads_back(method: Seq<u8>, path: Seq<u8>, rest: Seq<u8>)
    requires
        forall|i: int| 0 <= i < method.len() ==> method[i] != SPACE,
        forall|i: int| 0 <= i < path.len() ==> path[i] != SPACE && path[i] != QUESTION,
    ensures
        request_target(method + seq![SPACE] + path + seq![SPACE] + rest) == Some(
            (path, Seq::<u8>::empty()),
        ),
        request_target(method + seq![SPACE] + path) == Some((path, Seq::<u8>::empty())),
        request_target(method) is None,
{
    lemma_target(method, path, rest);
    text_without_separator_is_not_cut(path, QUESTION);
    assert(after(path, QUESTION) =~= Seq::empty());
    lemma_single_piece(method, SPACE);
}

/// Law: a query of one pair gives its key the decoded value, and no other key
/// any.
pub proof fn single_pair_is_read(key: &str, written: Seq<u8>, value: Seq<u8>)
    requires
        forall|i: int|
            0 <= i < written.len() ==> written[i] != EQUALS && written[i] != AMPERSAND,
        forall|i: int| 0 <= i < value.len() ==> value[i] != AMPERSAND,
    ensures
        query_value(written + seq![EQUALS] + value, key) == if written == text(key) {
            Some(decoded(value))
        } else {
            None
        },
        query_value(written, key) == if written == text(key) {
            Some(Seq::<u8>::empty())
        } else {
            None
        },
{
    let s = written + seq![EQUALS] + value;
    assert(is_free(s, AMPERSAND));
    lemma_single_piece(s, AMPERSAND);
    lemma_single_piece(written, AMPERSAND);
    text_is_cut_at_its_separator(written, EQUALS, value);
    text_without_separator_is_not_cut(written, EQUALS);
    assert(decoded(after(written, EQUALS)) =~= Seq::empty());
    assert(last_value(seq![s].drop_last(), text(key)) is None);
    assert(last_value(seq![written].drop_last(), text(key)) is None);
}

/// Law: of the pairs of a query, the last one for a key counts: a pair that is
/// written after others gives its key the decoded value, and leaves what the
/// others give to other keys.
pub proof fn last_pair_is_read(query: Seq<u8>, key: &str, written: Seq<u8>, value: Seq<u8>)
    requires
        forall|i: int|
            0 <= i < written.len() ==> written[i] != EQUALS && written[i] != AMPERSAND,
        forall|i: int| 0 <= i < value.len() ==> value[i] != AMPERSAND,
    ensures
        query_value(query + seq![AMPERSAND] + written + seq![EQUALS] + value, key) == if written
            == text(key) {
            Some(decoded(value))
        } else {
            query_value(query, key)
        },
        query_value(query + seq![AMPERSAND] + written, key) == if written == text(key) {
            Some(Seq::<u8>::empty())
        } else {
            query_value(query, key)
        },
{
    let s = written + seq![EQUALS] + value;
    assert(is_free(s, AMPERSAND));
    text_is_cut_at_its_separator(written, EQUALS, value);
    text_without_separator_is_not_cut(written, EQUALS);
    assert(decoded(after(written, EQUALS)) =~= Seq::empty());
    later_pair_replaces(query, s, key);
    later_pair_replaces(query, written, key);
    assert(query + seq![AMPERSAND] + written + seq![EQUALS] + value =~= query + seq![AMPERSAND]
        + s);
}

/// Law: a query makes an announce if, and only if, it gives two identities of
/// 20 bytes and a port of 16 bits; and the announce says what the query says:
/// nothing readable of what is left is nothing left, no event that has a name
/// is a refresh, and no readable IP address is that of the connection.
pub proof fn announce_says_what_its_query_says(query: Seq<u8>, peer: SocketAddr, req: RequestView)
    ensures
        requested(query, peer) == Ok::<RequestView, Seq<char>>(req) <==> {
            &&& query_value(query, "info_hash") == Some(req.info_hash)
            &&& req.info_hash.len() == 20
            &&& query_value(query, "peer_id") == Some(req.peer_id)
            &&& req.peer_id.len() == 20
            &&& match query_value(query, "port") {
                Some(digits) => u64_text(digits) == Some(req.port as u64),
                None => false,
            }
            &&& match query_value(query, "left") {
                Some(digits) => match u64_text(digits) {
                    Some(n) => n == req.left,
                    None => req.left == 0,
                },
                None => req.left == 0,
            }
            &&& match query_value(query, "event") {
                Some(name) => event_text(name) == req.event,
                None => req.event == AnnounceEvent::Refresh,
            }
            &&& match query_value(query, "ip") {
                Some(written) => match ip_text(written) {
                    Some(ip) => ip == req.ip,
                    None => req.ip == peer.ip@,
                },
                None => req.ip == peer.ip@,
            }
        },
{
}

/// Law: a query that makes no announce is refused for the first of these that
/// it lacks: the identity of a swarm, that of a peer, and a port.
pub proof fn first_fault_is_named(query: Seq<u8>, peer: SocketAddr)
    ensures
        ({
            let swarm = match query_value(query, "info_hash") {
                Some(id) => id.len() == 20,
                None => false,
            };
            let identity = match query_value(query, "peer_id") {
                Some(id) => id.len() == 20,
                None => false,
            };
            let port = match query_value(query, "port") {
                Some(digits) => match u64_text(digits) {
                    Some(n) => n < 0x1_0000,
                    None => false,
                },
                None => false,
            };
            let got = requested(query, peer);
            &&& !swarm ==> got == Err::<RequestView, Seq<char>>("missing or malformed info_hash"@)
            &&& swarm && !identity ==> got == Err::<RequestView, Seq<char>>(
                "missing or malformed peer_id"@,
            )
            &&& swarm && identity && !port ==> got == Err::<RequestView, Seq<char>>("missing port"@)
            &&& swarm && identity && port ==> got is Ok
        }),
{
}

/// Law: what a query says last of what is left to download, in decimal, is
/// what the announce says, and nothing else of it changes.
pub proof fn left_in_query_wins(query: Seq<u8>, left: u64, peer: SocketAddr)
    ensures
        requested(query + seq![AMPERSAND] + pair("left", decimal(left as nat)), peer)
            == match requested(query, peer) {
            Ok(req) => Ok::<RequestView, Seq<char>>(RequestView { left, ..req }),
            Err(reason) => Err(reason),
        },
{
    lemma_keys();
    lemma_decimal_plain(left as nat);
    u64_text_of_decimal(left);
    lemma_pair_joined(query, "left", decimal(left as nat));
    let all = query + seq![AMPERSAND] + pair("left", decimal(left as nat));
    assert(query_value(all, "info_hash") == query_value(query, "info_hash"));
    assert(query_value(all, "peer_id") == query_value(query, "peer_id"));
    assert(query_value(all, "port") == query_value(query, "port"));
    assert(query_value(all, "left") == Some(decimal(left as nat)));
    assert(query_value(all, "event") == query_value(query, "event"));
    assert(query_value(all, "ip") == query_value(query, "ip"));
}

/// Law: the event that a query names last is that of the announce, and nothing
/// else of it changes.
pub proof fn event_in_query_wins(query: Seq<u8>, event: AnnounceEvent, peer: SocketAddr)
    ensures
        requested(query + seq![AMPERSAND] + pair("event", event_name(event)), peer)
            == match requested(query, peer) {
            Ok(req) => Ok::<RequestView, Seq<char>>(RequestView { event, ..req }),
            Err(reason) => Err(reason),
        },
{
    lemma_keys();
    lemma_event_name(event);
    lemma_pair_joined(query, "event", event_name(event));
    let all = query + seq![AMPERSAND] + pair("event", event_name(event));
    assert(query_value(all, "info_hash") == query_value(query, "info_hash"));
    assert(query_value(all, "peer_id") == query_value(query, "peer_id"));
    assert(query_value(all, "port") == query_value(query, "port"));
    assert(query_value(all, "left") == query_value(query, "left"));
    assert(query_value(all, "event") == Some(event_name(event)));
    assert(query_value(all, "ip") == query_value(query, "ip"));
}

/// Law: the port that a query gives last is that of the announce, and nothing
/// else of it changes.
pub proof fn port_in_query_wins(query: Seq<u8>, port: u16, peer: SocketAddr)
    requires
        requested(query, peer) is Ok,
    ensures
        requested(query + seq![AMPERSAND] + pair("port", decimal(port as nat)), peer) == Ok::<
            RequestView,
            Seq<char>,
        >(RequestView { port, ..requested(query, peer)->Ok_0 }),
{
    lemma_keys();
    lemma_decimal_plain(port as nat);
    u64_text_of_decimal(port as u64);
    lemma_pair_joined(query, "port", decimal(port as nat));
    let all = query + seq![AMPERSAND] + pair("port", decimal(port as nat));
    assert(query_value(all, "info_hash") == query_value(query, "info_hash"));
    assert(query_value(all, "peer_id") == query_value(query, "peer_id"));
    assert(query_value(all, "port") == Some(decimal(port as nat)));
    assert(query_value(all, "left") == query_value(query, "left"));
    assert(query_value(all, "event") == query_value(query, "event"));
    assert(query_value(all, "ip") == query_value(query, "ip"));
}

/// Law: an announce says what its fields hold.
pub proof fn announce_says_what_it_holds(req: AnnounceRequest)
    ensures
        req@.info_hash == req.info_hash@,
        req@.peer_id == req.peer_id@,
        req@.ip == req.addr.ip@,
        req@.port == req.addr.port,
        req@.left == req.left,
        req@.event == req.event,
{
}

} // verus!
