//! What the tracker replies to an announce.

use vstd::prelude::*;

use crate::addr::{IpAddr, SocketAddr};
use crate::bytes::{lemma_text_ascii, text};
use crate::order::{lemma_precedes_at, precedes};
use crate::wire::{dict_encoding, encode_dict, entries_view, Value, ValueView};

verus! {

/// The tracker's reply.
#[derive(Debug, Clone, PartialEq, Eq)]
pub struct AnnounceResponse {
    /// Seconds until the next announce.
    pub interval: i64,
    /// Seeders in the swarm.
    pub complete: i64,
    /// Leechers in the swarm.
    pub incomplete: i64,
    /// Peers to try, without the announcer.
    pub peers: Vec<SocketAddr>,
}

/// An address in compact form: the octets of an IPv4 address, then the port,
/// most significant byte first. An IPv6 address has no compact form.
pub open spec fn compact_addr(addr: SocketAddr) -> Seq<u8> {
    match addr.ip {
        IpAddr::V4(octets) => octets@ + seq![(addr.port / 256) as u8, (addr.port % 256) as u8],
        IpAddr::V6(_) => Seq::empty(),
    }
}

/// Addresses in compact form, one after the other.
pub open spec fn compact(peers: Seq<SocketAddr>) -> Seq<u8>
    decreases peers.len(),
{
    if peers.len() == 0 {
        Seq::empty()
    } else {
        compact(peers.drop_last()) + compact_addr(peers.last())
    }
}

/// A reply on the wire.
pub open spec fn response_encoding(
    interval: int,
    complete: int,
    incomplete: int,
    peers: Seq<SocketAddr>,
) -> Seq<u8> {
    dict_encoding(
        seq![
            (text("complete"), ValueView::Int(complete)),
            (text("incomplete"), ValueView::Int(incomplete)),
            (text("interval"), ValueView::Int(interval)),
            (text("peers"), ValueView::Bytes(compact(peers))),
        ],
    )
}

/// A refusal on the wire.
pub open spec fn failure_encoding(reason: Seq<u8>) -> Seq<u8> {
    dict_encoding(seq![(text("failure reason"), ValueView::Bytes(reason))])
}

/// The keys of a reply are in the order of dictionary keys.
pub proof fn lemma_keys_in_order()
    ensures
        precedes(text("complete"), text("incomplete")),
        precedes(text("complete"), text("interval")),
        precedes(text("complete"), text("peers")),
        precedes(text("incomplete"), text("interval")),
        precedes(text("incomplete"), text("peers")),
        precedes(text("interval"), text("peers")),
{
    reveal_strlit("complete");
    reveal_strlit("incomplete");
    reveal_strlit("interval");
    reveal_strlit("peers");
    lemma_text_ascii("complete");
    lemma_text_ascii("incomplete");
    lemma_text_ascii("interval");
    lemma_text_ascii("peers");
    lemma_precedes_at(text("complete"), text("incomplete"), 0);
    lemma_precedes_at(text("complete"), text("interval"), 0);
    lemma_precedes_at(text("complete"), text("peers"), 0);
    lemma_precedes_at(text("incomplete"), text("interval"), 2);
    lemma_precedes_at(text("incomplete"), text("peers"), 0);
    lemma_precedes_at(text("interval"), text("peers"), 0);
}

/// Addresses in compact form.
fn compact_peers(peers: &Vec<SocketAddr>) -> (r: Vec<u8>)
    ensures
        r@ == compact(peers@),
{
    let mut r: Vec<u8> = Vec::new();
    let mut i: usize = 0;
    while i < peers.len()
        invariant
            i <= peers@.len(),
            r@ == compact(peers@.take(i as int)),
        decreases peers@.len() - i,
    {
        let ghost before = r@;
        if let IpAddr::V4(octets) = peers[i].ip {
            r.push(octets[0]);
            r.push(octets[1]);
            r.push(octets[2]);
            r.push(octets[3]);
            r.push((peers[i].port / 256) as u8);
            r.push((peers[i].port % 256) as u8);
        }
        assert(peers@.take(i + 1).drop_last() =~= peers@.take(i as int));
        assert(r@ =~= before + compact_addr(peers@[i as int]));
        i += 1;
    }
    assert(peers@.take(i as int) =~= peers@);
    r
}

impl AnnounceResponse {
    /// The reply in bencode, with its IPv4 peers in compact form.
    #[must_use]
    pub fn to_bencode(&self) -> (r: Vec<u8>)
        ensures
            r@ == response_encoding(
                self.interval as int,
                self.complete as int,
                self.incomplete as int,
                self.peers@,
            ),
    {
        let mut entries: Vec<(Vec<u8>, Value)> = Vec::new();
        entries.push(
            (vstd::slice::slice_to_vec("complete".as_bytes()), Value::Int(self.complete)),
        );
        entries.push(
            (vstd::slice::slice_to_vec("incomplete".as_bytes()), Value::Int(self.incomplete)),
        );
        entries.push(
            (vstd::slice::slice_to_vec("interval".as_bytes()), Value::Int(self.interval)),
        );
        entries.push(
            (
                vstd::slice::slice_to_vec("peers".as_bytes()),
                Value::Bytes(compact_peers(&self.peers)),
            ),
        );
        proof {
            lemma_keys_in_order();
            assert(entries_view(entries@) =~= seq![
                (text("complete"), ValueView::Int(self.complete as int)),
                (text("incomplete"), ValueView::Int(self.incomplete as int)),
                (text("interval"), ValueView::Int(self.interval as int)),
                (text("peers"), ValueView::Bytes(compact(self.peers@))),
            ]);
        }
        encode_dict(entries)
    }

    /// A refusal in bencode.
    #[must_use]
    pub fn failure(reason: &str) -> (r: Vec<u8>)
        ensures
            r@ == failure_encoding(text(reason)),
    {
        let mut entries: Vec<(Vec<u8>, Value)> = Vec::new();
        entries.push(
            (
                vstd::slice::slice_to_vec("failure reason".as_bytes()),
                Value::Bytes(vstd::slice::slice_to_vec(reason.as_bytes())),
            ),
        );
        assert(entries_view(entries@) =~= seq![
            (text("failure reason"), ValueView::Bytes(text(reason))),
        ]);
        encode_dict(entries)
    }
}

} // verus!
