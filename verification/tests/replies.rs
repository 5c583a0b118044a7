use bencode::util::ByteString;
use bencode::Bencode;
use enxame_tracker::{AnnounceResponse, IpAddr, SocketAddr};

fn get<'a>(value: &'a Bencode, key: &str) -> Option<&'a Bencode> {
    match value {
        Bencode::Dict(dict) => dict.get(&ByteString::from_str(key)),
        _ => None,
    }
}

#[test]
fn response_bencodes_compact_peers() {
    let resp = AnnounceResponse {
        interval: 1800,
        complete: 1,
        incomplete: 2,
        peers: vec![SocketAddr::from(([1, 2, 3, 4], 6881))],
    };
    let bytes = resp.to_bencode();
    let parsed = bencode::from_buffer(&bytes).unwrap();
    assert_eq!(get(&parsed, "interval"), Some(&Bencode::Number(1800)));
    let peers = get(&parsed, "peers").unwrap();
    // 6881 is 0x1ae1.
    assert_eq!(peers, &Bencode::ByteString(vec![1, 2, 3, 4, 0x1a, 0xe1]));
    assert_eq!(get(&parsed, "complete"), Some(&Bencode::Number(1)));
    assert_eq!(get(&parsed, "incomplete"), Some(&Bencode::Number(2)));
}

#[test]
fn a_reply_has_these_bytes() {
    let resp = AnnounceResponse {
        interval: 1800,
        complete: 1,
        incomplete: 2,
        peers: vec![
            SocketAddr::from(([1, 2, 3, 4], 6881)),
            SocketAddr::from(([255, 0, 9, 8], 65535)),
        ],
    };
    let mut expected =
        b"d8:completei1e10:incompletei2e8:intervali1800e5:peers12:".to_vec();
    expected.extend_from_slice(&[1, 2, 3, 4, 0x1a, 0xe1, 255, 0, 9, 8, 0xff, 0xff]);
    expected.extend_from_slice(b"e");
    assert_eq!(resp.to_bencode(), expected);
}

#[test]
fn a_reply_without_peers_has_an_empty_string() {
    let resp = AnnounceResponse { interval: 0, complete: 0, incomplete: 0, peers: vec![] };
    assert_eq!(
        resp.to_bencode(),
        b"d8:completei0e10:incompletei0e8:intervali0e5:peers0:e".to_vec()
    );
}

#[test]
fn numbers_of_either_sign_are_written_in_full() {
    let resp = AnnounceResponse {
        interval: i64::MIN,
        complete: i64::MAX,
        incomplete: -7,
        peers: vec![],
    };
    assert_eq!(
        resp.to_bencode(),
        b"d8:completei9223372036854775807e10:incompletei-7e8:intervali-9223372036854775808e5:peers0:e"
            .to_vec()
    );
}

#[test]
fn ipv6_peers_are_left_out_of_the_compact_form() {
    let v6 = SocketAddr::new(IpAddr::V6([0x2001, 0xdb8, 0, 0, 0, 0, 0, 1]), 6881);
    let resp = AnnounceResponse {
        interval: 1,
        complete: 2,
        incomplete: 3,
        peers: vec![v6, SocketAddr::from(([1, 2, 3, 4], 80)), v6],
    };
    let mut expected = b"d8:completei2e10:incompletei3e8:intervali1e5:peers6:".to_vec();
    expected.extend_from_slice(&[1, 2, 3, 4, 0, 80]);
    expected.extend_from_slice(b"e");
    assert_eq!(resp.to_bencode(), expected);
}

#[test]
fn a_refusal_has_these_bytes() {
    assert_eq!(
        AnnounceResponse::failure("missing port"),
        b"d14:failure reason12:missing porte".to_vec()
    );
    assert_eq!(AnnounceResponse::failure(""), b"d14:failure reason0:e".to_vec());
    // The length is that of the bytes.
    assert_eq!(
        AnnounceResponse::failure("n\u{e3}o"),
        b"d14:failure reason4:n\xc3\xa3oe".to_vec()
    );
}

#[test]
fn a_refusal_reads_back() {
    let parsed = bencode::from_buffer(&AnnounceResponse::failure("unknown endpoint")).unwrap();
    assert_eq!(
        get(&parsed, "failure reason"),
        Some(&Bencode::ByteString(b"unknown endpoint".to_vec()))
    );
    assert_eq!(get(&parsed, "peers"), None);
}
