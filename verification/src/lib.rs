//! The core of a BitTorrent tracker: who is in which swarm, what an announce
//! changes, and what is sent back. It does no input or output of its own, and
//! is told what time it is.
//!
//! A connection collects a request in an [`http::RequestBuffer`] and sends what
//! [`http::respond`] makes of it from the [`Registry`]. The steps of that are
//! [`http::route`], which tells what the request is for, [`http::answer`], which
//! answers it, and [`http::http_response`], which frames the answer.

pub mod addr;
pub mod addr_laws;
pub mod announce;
pub mod ascii;
pub mod bytes;
pub mod exchange_laws;
pub mod http;
pub mod id_map;
pub mod number;
pub mod order;
pub mod percent;
pub mod registry;
pub mod request;
pub mod request_laws;
pub mod response;
pub mod swarm_laws;
pub mod text_laws;
pub mod wire;
pub mod wire_laws;

pub use addr::{IpAddr, SocketAddr};
pub use announce::{AnnounceEvent, AnnounceRequest, ANNOUNCE_INTERVAL, MAX_PEERS, PEER_TTL};
pub use registry::Registry;
pub use response::AnnounceResponse;
