//! Peer addresses, and the text that IP addresses are written as.

use vstd::prelude::*;

use crate::ascii::{COLON, DIGIT_0, DOT};
use crate::bytes::{find_part, first_part, pieces, split};
use crate::number::{is_number, number_value, short_number};

verus! {

/// An IP address.
#[derive(Debug, Clone, Copy, PartialEq, Eq)]
pub enum IpAddr {
    /// The four octets of an IPv4 address.
    V4([u8; 4]),
    /// The eight groups of an IPv6 address.
    V6([u16; 8]),
}

/// The numbers that make up an IP address.
pub enum IpView {
    V4(Seq<u8>),
    V6(Seq<u16>),
}

impl View for IpAddr {
    type V = IpView;

    open spec fn view(&self) -> IpView {
        match *self {
            IpAddr::V4(octets) => IpView::V4(octets@),
            IpAddr::V6(groups) => IpView::V6(groups@),
        }
    }
}

/// An IP address and a port.
#[derive(Debug, Clone, Copy, PartialEq, Eq)]
pub struct SocketAddr {
    pub ip: IpAddr,
    pub port: u16,
}

impl SocketAddr {
    /// The address of `port` at `ip`.
    pub fn new(ip: IpAddr, port: u16) -> (r: Self)
        ensures
            r.ip == ip,
            r.port == port,
    {
        SocketAddr { ip, port }
    }
}

impl From<([u8; 4], u16)> for SocketAddr {
    /// The address of a port at an IPv4 address.
    fn from(v4: ([u8; 4], u16)) -> (r: Self) {
        SocketAddr { ip: IpAddr::V4(v4.0), port: v4.1 }
    }
}

impl vstd::std_specs::convert::FromSpecImpl<([u8; 4], u16)> for SocketAddr {
    open spec fn obeys_from_spec() -> bool {
        true
    }

    open spec fn from_spec(v4: ([u8; 4], u16)) -> Self {
        SocketAddr { ip: IpAddr::V4(v4.0), port: v4.1 }
    }
}

/// What `s` reads as: a number up to 255 in decimal, of one to three digits
/// without leading zeros.
pub open spec fn octet_text(s: Seq<u8>) -> Option<u8> {
    if is_number(s, 10) && s.len() <= 3 && (s[0] == DIGIT_0 ==> s.len() == 1) && number_value(s, 10)
        <= 255 {
        Some(number_value(s, 10) as u8)
    } else {
        None
    }
}

/// What `s` reads as: four octets between dots.
pub open spec fn v4_text(s: Seq<u8>) -> Option<Seq<u8>> {
    let parts = pieces(s, DOT);
    if parts.len() == 4 && forall|i: int|
        0 <= i < 4 ==> octet_text(#[trigger] parts[i]) is Some {
        Some(Seq::new(4, |i: int| octet_text(parts[i]).unwrap()))
    } else {
        None
    }
}

/// What `s` reads as: one to four hexadecimal digits.
pub open spec fn group_text(s: Seq<u8>) -> Option<u16> {
    if is_number(s, 16) && s.len() <= 4 {
        Some(number_value(s, 16) as u16)
    } else {
        None
    }
}

/// What the parts of a colon-separated list read as: a group each, but that
/// the last one, where `v4_end` allows it, may be an IPv4 address that stands
/// for two groups.
pub open spec fn groups_text(parts: Seq<Seq<u8>>, v4_end: bool) -> Option<Seq<u16>>
    decreases parts.len(),
{
    if parts.len() == 0 {
        Some(Seq::empty())
    } else if v4_end && parts.len() == 1 && v4_text(parts[0]) is Some {
        let octets = v4_text(parts[0]).unwrap();
        Some(
            seq![
                (octets[0] * 256 + octets[1]) as u16,
                (octets[2] * 256 + octets[3]) as u16,
            ],
        )
    } else {
        match (group_text(parts[0]), groups_text(parts.skip(1), v4_end)) {
            (Some(group), Some(rest)) => Some(seq![group] + rest),
            _ => None,
        }
    }
}

/// What `s` reads as: nothing, or groups between colons.
pub open spec fn run_text(s: Seq<u8>, v4_end: bool) -> Option<Seq<u16>> {
    if s.len() == 0 {
        Some(Seq::empty())
    } else {
        groups_text(pieces(s, COLON), v4_end)
    }
}

/// What `s` reads as: eight groups, of which a double colon may stand for
/// one or more zero groups.
pub open spec fn v6_text(s: Seq<u8>) -> Option<Seq<u16>> {
    match first_part(s, seq![COLON, COLON]) {
        None => match run_text(s, true) {
            Some(groups) => if groups.len() == 8 {
                Some(groups)
            } else {
                None
            },
            None => None,
        },
        Some(i) => match (run_text(s.take(i), false), run_text(s.skip(i + 2), true)) {
            (Some(head), Some(tail)) => if head.len() + tail.len() <= 7 {
                Some(head + Seq::new((8 - head.len() - tail.len()) as nat, |k: int| 0u16) + tail)
            } else {
                None
            },
            _ => None,
        },
    }
}

/// What `s` reads as: an IPv4 or an IPv6 address.
pub open spec fn ip_text(s: Seq<u8>) -> Option<IpView> {
    match v4_text(s) {
        Some(octets) => Some(IpView::V4(octets)),
        None => match v6_text(s) {
            Some(groups) => Some(IpView::V6(groups)),
            None => None,
        },
    }
}

/// Reads one octet of an IPv4 address.
fn parse_octet(s: &[u8]) -> (r: Option<u8>)
    ensures
        r == octet_text(s@),
{
    match short_number(s, 10, 3) {
        Some(value) => {
            if value > 255 || (s[0] == DIGIT_0 && s.len() > 1) {
                None
            } else {
                Some(value as u8)
            }
        },
        None => None,
    }
}

/// Reads an IPv4 address.
pub fn parse_v4(s: &[u8]) -> (r: Option<[u8; 4]>)
    ensures
        match r {
            Some(octets) => v4_text(s@) == Some(octets@),
            None => v4_text(s@) is None,
        },
{
    let parts: Vec<&[u8]> = split(s, DOT);
    if parts.len() != 4 {
        return None;
    }
    let ghost texts = pieces(s@, DOT);
    let a: Option<u8> = parse_octet(parts[0]);
    let b: Option<u8> = parse_octet(parts[1]);
    let c: Option<u8> = parse_octet(parts[2]);
    let d: Option<u8> = parse_octet(parts[3]);
    match (a, b, c, d) {
        (Some(a), Some(b), Some(c), Some(d)) => {
            let octets: [u8; 4] = [a, b, c, d];
            assert(octets@ =~= Seq::new(4, |i: int| octet_text(texts[i]).unwrap()));
            Some(octets)
        },
        _ => {
            assert(octet_text(texts[0]) is None || octet_text(texts[1]) is None || octet_text(
                texts[2],
            ) is None || octet_text(texts[3]) is None);
            None
        },
    }
}

/// Reads groups between colons.
fn parse_run(s: &[u8], v4_end: bool) -> (r: Option<Vec<u16>>)
    ensures
        match r {
            Some(groups) => run_text(s@, v4_end) == Some(groups@),
            None => run_text(s@, v4_end) is None,
        },
{
    let mut groups: Vec<u16> = Vec::new();
    if s.len() == 0 {
        assert(groups@ =~= Seq::empty());
        return Some(groups);
    }
    let parts: Vec<&[u8]> = split(s, COLON);
    let ghost texts = pieces(s@, COLON);
    let mut i: usize = 0;
    assert(texts.skip(0) =~= texts);
    assert(forall|rest: Seq<u16>| groups@ + rest =~= rest);
    while i < parts.len()
        invariant
            i <= parts@.len() == texts.len(),
            forall|k: int| 0 <= k < parts@.len() ==> (#[trigger] parts@[k])@ == texts[k],
            groups_text(texts, v4_end) == match groups_text(texts.skip(i as int), v4_end) {
                Some(rest) => Some(groups@ + rest),
                None => None,
            },
            texts == pieces(s@, COLON),
            s@.len() > 0,
        decreases parts@.len() - i,
    {
        let part: &[u8] = parts[i];
        let ghost here = texts.skip(i as int);
        assert(here[0] == texts[i as int]);
        if v4_end && i + 1 == parts.len() {
            if let Some(octets) = parse_v4(part) {
                let ghost before = groups@;
                groups.push(octets[0] as u16 * 256 + octets[1] as u16);
                groups.push(octets[2] as u16 * 256 + octets[3] as u16);
                assert(groups@ =~= before + groups_text(here, v4_end).unwrap());
                return Some(groups);
            }
        }
        match short_number(part, 16, 4) {
            Some(group) => {
                let ghost before = groups@;
                groups.push(group as u16);
                assert(here.skip(1) =~= texts.skip(i + 1));
                assert(forall|rest: Seq<u16>|
                    #![trigger groups@ + rest]
                    before + (seq![group as u16] + rest) =~= groups@ + rest);
            },
            None => {
                return None;
            },
        }
        i += 1;
    }
    assert(groups@ + Seq::<u16>::empty() =~= groups@);
    Some(groups)
}

/// Reads an IPv6 address.
pub fn parse_v6(s: &[u8]) -> (r: Option<[u16; 8]>)
    ensures
        match r {
            Some(groups) => v6_text(s@) == Some(groups@),
            None => v6_text(s@) is None,
        },
{
    let gap: [u8; 2] = [COLON, COLON];
    assert(gap@ =~= seq![COLON, COLON]);
    let groups: Vec<u16> = match find_part(s, &gap) {
        None => match parse_run(s, true) {
            Some(groups) => groups,
            None => {
                return None;
            },
        },
        Some(i) => {
            let len: usize = s.len();
            let before: &[u8] = vstd::slice::slice_subrange(s, 0, i);
            let after: &[u8] = vstd::slice::slice_subrange(s, i + 2, len);
            assert(before@ =~= s@.take(i as int));
            assert(after@ =~= s@.skip(i + 2));
            let mut head: Vec<u16> = match parse_run(before, false) {
                Some(head) => head,
                None => {
                    return None;
                },
            };
            let mut tail: Vec<u16> = match parse_run(after, true) {
                Some(tail) => tail,
                None => {
                    return None;
                },
            };
            if head.len() > 7 || tail.len() > 7 - head.len() {
                return None;
            }
            let ghost start = head@;
            while head.len() + tail.len() < 8
                invariant
                    start.len() <= head@.len(),
                    head@.len() + tail@.len() <= 8,
                    head@ =~= start + Seq::new((head@.len() - start.len()) as nat, |k: int| 0u16),
                decreases 8 - head@.len(),
            {
                head.push(0);
            }
            head.append(&mut tail);
            head
        },
    };
    if groups.len() != 8 {
        return None;
    }
    let r: [u16; 8] = [
        groups[0],
        groups[1],
        groups[2],
        groups[3],
        groups[4],
        groups[5],
        groups[6],
        groups[7],
    ];
    assert(r@ =~= groups@);
    Some(r)
}

/// Reads an IP address.
pub fn parse_ip(s: &[u8]) -> (r: Option<IpAddr>)
    ensures
        match r {
            Some(ip) => ip_text(s@) == Some(ip@),
            None => ip_text(s@) is None,
        },
{
    match parse_v4(s) {
        Some(octets) => Some(IpAddr::V4(octets)),
        None => match parse_v6(s) {
            Some(groups) => Some(IpAddr::V6(groups)),
            None => None,
        },
    }
}

} // verus!
