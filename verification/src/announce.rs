//! What a peer announces.

use vstd::prelude::*;

use crate::addr::SocketAddr;
use crate::bytes::{equal, lemma_text_injective, text};

verus! {

/// How often a peer is asked to announce again, in seconds.
pub const ANNOUNCE_INTERVAL: i64 = 1800;

/// The most peers that a reply names.
pub const MAX_PEERS: usize = 50;

/// How long a peer is kept without an announce, in nanoseconds: twice the
/// announce interval.
pub const PEER_TTL: u64 = 3_600_000_000_000;

/// The `event` that a peer reports.
#[derive(Debug, Clone, Copy, PartialEq, Eq, Structural)]
pub enum AnnounceEvent {
    /// First announce for this swarm.
    Started,
    /// Graceful leave: the peer is removed.
    Stopped,
    /// Download finished: a leecher became a seeder.
    Completed,
    /// A periodic refresh.
    Refresh,
}

/// The event that a query value names. A value that names none, be it UTF-8
/// or not, is a refresh.
pub open spec fn event_text(value: Seq<u8>) -> AnnounceEvent {
    if value == text("started") {
        AnnounceEvent::Started
    } else if value == text("stopped") {
        AnnounceEvent::Stopped
    } else if value == text("completed") {
        AnnounceEvent::Completed
    } else {
        AnnounceEvent::Refresh
    }
}

impl AnnounceEvent {
    /// Reads the `event` of a query.
    #[must_use]
    pub fn parse(s: &str) -> (r: Self)
        ensures
            r == (if s@ == "started"@ {
                AnnounceEvent::Started
            } else if s@ == "stopped"@ {
                AnnounceEvent::Stopped
            } else if s@ == "completed"@ {
                AnnounceEvent::Completed
            } else {
                AnnounceEvent::Refresh
            }),
            r == event_text(text(s)),
    {
        proof {
            lemma_text_injective(s, "started");
            lemma_text_injective(s, "stopped");
            lemma_text_injective(s, "completed");
        }
        Self::parse_bytes(s.as_bytes())
    }

    /// Reads the `event` of a query from its bytes.
    #[must_use]
    pub fn parse_bytes(value: &[u8]) -> (r: Self)
        ensures
            r == event_text(value@),
    {
        if equal(value, "started".as_bytes()) {
            AnnounceEvent::Started
        } else if equal(value, "stopped".as_bytes()) {
            AnnounceEvent::Stopped
        } else if equal(value, "completed".as_bytes()) {
            AnnounceEvent::Completed
        } else {
            AnnounceEvent::Refresh
        }
    }
}

/// One announce from a peer.
#[derive(Debug, Clone)]
pub struct AnnounceRequest {
    /// The identity of the swarm.
    pub info_hash: [u8; 20],
    /// The identity of the peer.
    pub peer_id: [u8; 20],
    /// Where the peer can be reached.
    pub addr: SocketAddr,
    /// Bytes left to download; a seeder has none left.
    pub left: u64,
    /// The reported event.
    pub event: AnnounceEvent,
}

} // verus!
