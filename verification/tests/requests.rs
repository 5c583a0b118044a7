use enxame_tracker::addr::{parse_ip, parse_v4, parse_v6};
use enxame_tracker::number::{ascii_u64, decimal_text, hex};
use enxame_tracker::percent::percent_decode;
use enxame_tracker::request::{build_announce, parse_request_target};
use enxame_tracker::{AnnounceEvent, IpAddr, SocketAddr};

fn peer() -> SocketAddr {
    SocketAddr::from(([1, 2, 3, 4], 9999))
}

fn ids() -> String {
    format!("info_hash={}&peer_id={}", "%41".repeat(20), "%42".repeat(20))
}

#[test]
fn parses_request_target() {
    let (path, query) = parse_request_target(b"GET /announce?info_hash=x HTTP/1.1").unwrap();
    assert_eq!(path, b"/announce");
    assert_eq!(query, b"info_hash=x");
}

#[test]
fn builds_announce_from_query() {
    // info_hash and peer_id as 20 escaped bytes each (0x41 is 'A').
    let ih: String = "%41".repeat(20);
    let pid: String = "%42".repeat(20);
    let q = format!("info_hash={ih}&peer_id={pid}&port=6881&left=100&event=started");
    let req = build_announce(q.as_bytes(), SocketAddr::from(([1, 2, 3, 4], 9999))).unwrap();
    assert_eq!(req.info_hash, [0x41u8; 20]);
    assert_eq!(req.peer_id, [0x42u8; 20]);
    // The address is that of the socket, the port that of the query.
    assert_eq!(req.addr, SocketAddr::from(([1, 2, 3, 4], 6881)));
    assert_eq!(req.left, 100);
    assert_eq!(req.event, AnnounceEvent::Started);
}

#[test]
fn rejects_missing_fields() {
    assert!(build_announce(b"port=6881", SocketAddr::from(([1, 2, 3, 4], 9999))).is_err());
}

#[test]
fn request_target_edge_cases() {
    assert_eq!(parse_request_target(b""), None);
    assert_eq!(parse_request_target(b"GET"), None);
    assert_eq!(parse_request_target(b"GET "), Some((vec![], vec![])));
    assert_eq!(parse_request_target(b"GET  /x"), Some((vec![], vec![])));
    assert_eq!(parse_request_target(b"GET /x"), Some((b"/x".to_vec(), vec![])));
    assert_eq!(
        parse_request_target(b"GET /x?a?b y"),
        Some((b"/x".to_vec(), b"a?b".to_vec()))
    );
    assert_eq!(parse_request_target(b"GET /x? HTTP"), Some((b"/x".to_vec(), vec![])));
}

#[test]
fn each_missing_field_has_its_reason() {
    let reason = |query: &str| build_announce(query.as_bytes(), peer()).unwrap_err();
    let ih = "%41".repeat(20);
    let pid = "%42".repeat(20);
    assert_eq!(reason(""), "missing or malformed info_hash");
    assert_eq!(reason("info_hash=abc&peer_id=x"), "missing or malformed info_hash");
    assert_eq!(
        reason(&format!("peer_id={pid}&port=1&info_hash={ih}%41")),
        "missing or malformed info_hash"
    );
    assert_eq!(reason(&format!("info_hash={ih}")), "missing or malformed peer_id");
    assert_eq!(
        reason(&format!("info_hash={ih}&peer_id=short&port=1")),
        "missing or malformed peer_id"
    );
    assert_eq!(reason(&ids()), "missing port");
    assert_eq!(reason(&format!("{}&port=65536", ids())), "missing port");
    assert_eq!(reason(&format!("{}&port=-1", ids())), "missing port");
    assert_eq!(reason(&format!("{}&port=", ids())), "missing port");
    assert_eq!(reason(&format!("{}&port", ids())), "missing port");
}

#[test]
fn defaults_of_a_query() {
    let req = build_announce(format!("{}&port=65535", ids()).as_bytes(), peer()).unwrap();
    assert_eq!(req.left, 0);
    assert_eq!(req.event, AnnounceEvent::Refresh);
    assert_eq!(req.addr, SocketAddr::from(([1, 2, 3, 4], 65535)));
    let req = build_announce(format!("{}&port=1&left=many", ids()).as_bytes(), peer()).unwrap();
    assert_eq!(req.left, 0);
    let req =
        build_announce(format!("{}&port=1&event=Started", ids()).as_bytes(), peer()).unwrap();
    assert_eq!(req.event, AnnounceEvent::Refresh);
    let req =
        build_announce(format!("{}&port=1&event=%ff", ids()).as_bytes(), peer()).unwrap();
    assert_eq!(req.event, AnnounceEvent::Refresh);
}

#[test]
fn a_later_value_replaces_an_earlier_one() {
    let q = format!("{}&port=1&port=2&left=5&left=7&event=started&event=stopped", ids());
    let req = build_announce(q.as_bytes(), peer()).unwrap();
    assert_eq!(req.addr.port, 2);
    assert_eq!(req.left, 7);
    assert_eq!(req.event, AnnounceEvent::Stopped);
    // Also where the later one is malformed.
    let q = format!("{}&port=1&info_hash=no", ids());
    assert_eq!(
        build_announce(q.as_bytes(), peer()).unwrap_err(),
        "missing or malformed info_hash"
    );
    let q = format!("{}&port=1&ip=9.9.9.9&ip=nowhere", ids());
    assert_eq!(build_announce(q.as_bytes(), peer()).unwrap().addr.ip, IpAddr::V4([1, 2, 3, 4]));
}

#[test]
fn unknown_keys_are_ignored() {
    let q = format!("{}&port=1&compact=1&&numwant=50&PORT=9&key", ids());
    let req = build_announce(q.as_bytes(), peer()).unwrap();
    assert_eq!(req.addr, SocketAddr::from(([1, 2, 3, 4], 1)));
}

#[test]
fn an_unknown_key_is_ignored_wherever_it_stands() {
    let query = format!("{}&port=1&left=7&event=completed&ip=9.9.9.9", ids());
    let pairs: Vec<&str> = query.split('&').collect();
    let plain = build_announce(query.as_bytes(), peer()).unwrap();
    assert_eq!(plain.left, 7);
    for unknown in ["compact=1", "ports=9", "key", "", "=port=9"] {
        for i in 0..=pairs.len() {
            let mut more = pairs.clone();
            more.insert(i, unknown);
            let req = build_announce(more.join("&").as_bytes(), peer()).unwrap();
            assert_eq!(req.info_hash, plain.info_hash);
            assert_eq!(req.peer_id, plain.peer_id);
            assert_eq!(req.addr, plain.addr);
            assert_eq!(req.left, plain.left);
            assert_eq!(req.event, plain.event);
        }
    }
}

#[test]
fn the_ip_of_a_query_wins() {
    let q = format!("{}&port=1&ip=203.0.113.9", ids());
    let req = build_announce(q.as_bytes(), peer()).unwrap();
    assert_eq!(req.addr, SocketAddr::from(([203, 0, 113, 9], 1)));
    let q = format!("{}&port=1&ip=2001%3Adb8%3a%3a1", ids());
    let req = build_announce(q.as_bytes(), peer()).unwrap();
    assert_eq!(req.addr.ip, IpAddr::V6([0x2001, 0xdb8, 0, 0, 0, 0, 0, 1]));
    let q = format!("{}&port=1&ip=203.0.113", ids());
    let req = build_announce(q.as_bytes(), peer()).unwrap();
    assert_eq!(req.addr.ip, IpAddr::V4([1, 2, 3, 4]));
}

#[test]
fn events_by_name() {
    assert_eq!(AnnounceEvent::parse("started"), AnnounceEvent::Started);
    assert_eq!(AnnounceEvent::parse("stopped"), AnnounceEvent::Stopped);
    assert_eq!(AnnounceEvent::parse("completed"), AnnounceEvent::Completed);
    assert_eq!(AnnounceEvent::parse(""), AnnounceEvent::Refresh);
    assert_eq!(AnnounceEvent::parse("STARTED"), AnnounceEvent::Refresh);
    assert_eq!(AnnounceEvent::parse("started "), AnnounceEvent::Refresh);
    assert_eq!(AnnounceEvent::parse("empty"), AnnounceEvent::Refresh);
}

#[test]
fn percent_decoding() {
    assert_eq!(percent_decode(b"%41%62c"), b"Abc".to_vec());
    assert_eq!(percent_decode(b"a+b%2Bc%2bd"), b"a b+c+d".to_vec());
    assert_eq!(percent_decode(b"%00%fF"), vec![0x00, 0xff]);
    // A percent sign without its digits stands for itself.
    assert_eq!(percent_decode(b"%"), b"%".to_vec());
    assert_eq!(percent_decode(b"%4"), b"%4".to_vec());
    assert_eq!(percent_decode(b"%4g%41"), b"%4gA".to_vec());
    assert_eq!(percent_decode(b"%%41"), b"%A".to_vec());
    assert_eq!(percent_decode(b"%4%41"), b"%4A".to_vec());
    assert_eq!(percent_decode(b""), Vec::<u8>::new());
}

#[test]
fn every_escaped_byte_decodes() {
    for byte in 0u8..=255 {
        let upper = format!("%{:02X}", byte);
        let lower = format!("%{:02x}", byte);
        assert_eq!(percent_decode(upper.as_bytes()), vec![byte]);
        assert_eq!(percent_decode(lower.as_bytes()), vec![byte]);
    }
    assert_eq!(percent_decode(b"%aB%Cd%EF%01"), vec![0xab, 0xcd, 0xef, 0x01]);
}

#[test]
fn hexadecimal_digits() {
    assert_eq!(hex(b'0'), Some(0));
    assert_eq!(hex(b'9'), Some(9));
    assert_eq!(hex(b'a'), Some(10));
    assert_eq!(hex(b'f'), Some(15));
    assert_eq!(hex(b'A'), Some(10));
    assert_eq!(hex(b'F'), Some(15));
    for c in [b'/', b':', b'@', b'G', b'`', b'g', 0x00, 0xff] {
        assert_eq!(hex(c), None);
    }
}

#[test]
fn decimal_numbers() {
    assert_eq!(ascii_u64(b"0"), Some(0));
    assert_eq!(ascii_u64(b"6881"), Some(6881));
    assert_eq!(ascii_u64(b"+7"), Some(7));
    assert_eq!(ascii_u64(b"0000000000000000000000012"), Some(12));
    assert_eq!(ascii_u64(b"18446744073709551615"), Some(u64::MAX));
    assert_eq!(ascii_u64(b"18446744073709551616"), None);
    assert_eq!(ascii_u64(b"99999999999999999999"), None);
    for text in ["", "+", "-1", "++1", "1+", " 1", "1 ", "0x1", "1_000", "a"] {
        assert_eq!(ascii_u64(text.as_bytes()), None);
    }
    assert_eq!(ascii_u64(b"1\xff"), None);
}

#[test]
fn decimal_text_reads_back() {
    for n in [0u64, 9, 10, 99, 100, 6881, 1 << 40, u64::MAX] {
        let text = decimal_text(n);
        assert_eq!(text, format!("{}", n).into_bytes());
        assert_eq!(ascii_u64(&text), Some(n));
    }
}

#[test]
fn ipv4_text() {
    assert_eq!(parse_v4(b"0.0.0.0"), Some([0, 0, 0, 0]));
    assert_eq!(parse_v4(b"255.255.255.255"), Some([255, 255, 255, 255]));
    assert_eq!(parse_v4(b"127.0.0.1"), Some([127, 0, 0, 1]));
    for text in [
        "", "1", "1.2.3", "1.2.3.4.5", "256.0.0.1", "255.0.0", "1.2.3.", ".1.2.3", "1..2.3",
        "01.2.3.4", "1.2.3.00", "1.2.3.0000", "a.b.c.d", " 1.2.3.4", "1.2.3.4 ", "+1.2.3.4",
        "1.2.3.4:80", "::1",
    ] {
        assert_eq!(parse_v4(text.as_bytes()), None);
    }
}

#[test]
fn ipv6_text() {
    assert_eq!(parse_v6(b"::"), Some([0; 8]));
    assert_eq!(parse_v6(b"::1"), Some([0, 0, 0, 0, 0, 0, 0, 1]));
    assert_eq!(parse_v6(b"1::"), Some([1, 0, 0, 0, 0, 0, 0, 0]));
    assert_eq!(parse_v6(b"0:0:0:0:0:0:0:0"), Some([0; 8]));
    assert_eq!(
        parse_v6(b"2a02:6b8::11:11"),
        Some([0x2a02, 0x6b8, 0, 0, 0, 0, 0x11, 0x11])
    );
    assert_eq!(parse_v6(b"1:2:3:4:5:6:7:8"), Some([1, 2, 3, 4, 5, 6, 7, 8]));
    assert_eq!(parse_v6(b"1:2:3:4:5:6:7::"), Some([1, 2, 3, 4, 5, 6, 7, 0]));
    assert_eq!(parse_v6(b"::2:3:4:5:6:7:8"), Some([0, 2, 3, 4, 5, 6, 7, 8]));
    assert_eq!(parse_v6(b"ABCD::00ef"), Some([0xabcd, 0, 0, 0, 0, 0, 0, 0xef]));
    // The last two groups may be written as an IPv4 address.
    assert_eq!(
        parse_v6(b"::192.0.2.33"),
        Some([0, 0, 0, 0, 0, 0, 49152, 545])
    );
    assert_eq!(
        parse_v6(b"::ffff:192.0.2.33"),
        Some([0, 0, 0, 0, 0, 0xffff, 49152, 545])
    );
    assert_eq!(
        parse_v6(b"64:ff9b::192.0.2.33"),
        Some([0x64, 0xff9b, 0, 0, 0, 0, 49152, 545])
    );
    assert_eq!(
        parse_v6(b"2001:db8:122:c000:2:2100:192.0.2.33"),
        Some([0x2001, 0xdb8, 0x122, 0xc000, 2, 0x2100, 49152, 545])
    );
    for text in [
        "",
        ":",
        ":::",
        "::00000",
        "1:2:3:4:5:6:7",
        "1:2:3:4:5:6:7:8:9",
        "1:2:3:4:5:6::7:8",
        "1:2:3:4:5:6:7::8",
        "::1:2:3:4:5:6:7:8",
        "1:2::6::8",
        "1:2::6:",
        ":1:2::6",
        "::1::",
        "g::",
        "::g",
        "1:2:3:4:5:6:7:1.2.3.4",
        "::1:2:3:4:5:6:1.2.3.4",
        "1.2.3.4::",
        "::1.2.3.4:5",
        "::127.0.0.256",
        "::127.0.0.01",
        "::1.2.3",
        "[::1]",
        "::1%eth0",
    ] {
        assert_eq!(parse_v6(text.as_bytes()), None, "{}", text);
    }
}

#[test]
fn ip_text_of_either_version() {
    assert_eq!(parse_ip(b"10.1.2.3"), Some(IpAddr::V4([10, 1, 2, 3])));
    assert_eq!(parse_ip(b"::ffff"), Some(IpAddr::V6([0, 0, 0, 0, 0, 0, 0, 0xffff])));
    assert_eq!(parse_ip(b"::ffff:1.2.3.4"), Some(IpAddr::V6([0, 0, 0, 0, 0, 0xffff, 0x102, 0x304])));
    assert_eq!(parse_ip(b"localhost"), None);
    assert_eq!(parse_ip(b""), None);
    assert_eq!(parse_ip(b"1.2.3.4\xff"), None);
}

#[test]
fn a_written_announce_reads_back() {
    let mut info_hash = [0u8; 20];
    let mut peer_id = [0u8; 20];
    for i in 0..20u8 {
        info_hash[usize::from(i)] = i.wrapping_mul(37);
        peer_id[usize::from(i)] = 255 - i.wrapping_mul(13);
    }
    info_hash[3] = b'&';
    info_hash[4] = b'=';
    info_hash[5] = b'%';
    info_hash[6] = b'+';
    let escape = |bytes: &[u8]| {
        let mut s = String::new();
        for b in bytes {
            s.push_str(&format!("%{:02X}", b));
        }
        s
    };
    let q = format!(
        "info_hash={}&peer_id={}&port={}&left={}&event={}",
        escape(&info_hash),
        escape(&peer_id),
        51413,
        u64::MAX,
        "completed"
    );
    let req = build_announce(q.as_bytes(), peer()).unwrap();
    assert_eq!(req.info_hash, info_hash);
    assert_eq!(req.peer_id, peer_id);
    assert_eq!(req.addr, SocketAddr::from(([1, 2, 3, 4], 51413)));
    assert_eq!(req.left, u64::MAX);
    assert_eq!(req.event, AnnounceEvent::Completed);
}

#[test]
fn written_addresses_read_back() {
    for octets in [[0u8, 9, 10, 99], [100, 199, 200, 255], [1, 1, 1, 1]] {
        let text = format!("{}.{}.{}.{}", octets[0], octets[1], octets[2], octets[3]);
        assert_eq!(parse_ip(text.as_bytes()), Some(IpAddr::V4(octets)));
    }
    for groups in [[0u16, 1, 0xf, 0x10, 0xff, 0x100, 0xfff, 0x1000], [0xffff; 8], [0; 8]] {
        let mut text = String::new();
        for (i, group) in groups.iter().enumerate() {
            if i > 0 {
                text.push(':');
            }
            text.push_str(&format!("{:x}", group));
        }
        assert_eq!(parse_ip(text.as_bytes()), Some(IpAddr::V6(groups)));
    }
}

#[test]
fn a_double_colon_stands_for_the_missing_zeros() {
    for zeros_at in 0..8usize {
        // The groups before the gap, one zero group, and those after it.
        let mut text = String::new();
        let mut expected = [0u16; 8];
        for i in 0..zeros_at {
            text.push_str(&format!("{}{:x}", if i > 0 { ":" } else { "" }, i + 1));
            expected[i] = (i + 1) as u16;
        }
        text.push_str("::");
        for i in zeros_at + 1..8 {
            text.push_str(&format!("{}{:x}", if i > zeros_at + 1 { ":" } else { "" }, i + 1));
            expected[i] = (i + 1) as u16;
        }
        assert_eq!(parse_v6(text.as_bytes()), Some(expected));
    }
}
