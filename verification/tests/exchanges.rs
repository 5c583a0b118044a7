use enxame_tracker::http::{answer, http_response, respond, route, RequestBuffer, Route};
use enxame_tracker::{AnnounceEvent, AnnounceResponse, Registry, SocketAddr};

fn peer() -> SocketAddr {
    SocketAddr::from(([1, 2, 3, 4], 9999))
}

fn announce_request(id: u8, left: u64) -> Vec<u8> {
    format!(
        "GET /announce?info_hash={}&peer_id={}&port=6881&left={}&event=started HTTP/1.1\r\nHost: t\r\n\r\n",
        "%41".repeat(20),
        format!("%{:02x}", id).repeat(20),
        left
    )
    .into_bytes()
}

#[test]
fn a_request_is_complete_at_its_empty_line() {
    let mut buffer = RequestBuffer::new();
    assert!(!buffer.receive(b"GET / HTTP/1.0\r\n"));
    assert!(!buffer.receive(b"Host: t\r"));
    assert!(!buffer.receive(b"\n\r"));
    assert!(buffer.receive(b"\n"));
    assert_eq!(buffer.as_slice(), b"GET / HTTP/1.0\r\nHost: t\r\n\r\n");
    // It stays complete.
    assert!(buffer.receive(b"more"));
}

#[test]
fn a_request_is_complete_at_the_end_of_the_stream() {
    let mut buffer = RequestBuffer::new();
    assert!(!buffer.receive(b"GET /"));
    assert!(buffer.receive(b""));
    assert_eq!(buffer.as_slice(), b"GET /");
    assert!(RequestBuffer::new().receive(b""));
}

#[test]
fn a_long_request_is_complete() {
    let mut buffer = RequestBuffer::new();
    assert!(!buffer.receive(&[b'x'; 8192]));
    assert!(buffer.receive(b"x"));
    assert_eq!(buffer.as_slice().len(), 8193);
}

#[test]
fn routes() {
    match route(&announce_request(7, 3), peer()) {
        Route::Announce(req) => {
            assert_eq!(req.info_hash, [0x41u8; 20]);
            assert_eq!(req.peer_id, [7u8; 20]);
            assert_eq!(req.addr, SocketAddr::from(([1, 2, 3, 4], 6881)));
            assert_eq!(req.left, 3);
            assert_eq!(req.event, AnnounceEvent::Started);
        }
        other => panic!("{:?}", other),
    }
    assert!(matches!(route(b"GET /scrape HTTP/1.0\r\n\r\n", peer()), Route::Scrape));
    assert!(matches!(route(b"GET /scrape?info_hash=x HTTP/1.0\r\n\r\n", peer()), Route::Scrape));
    for unknown in [
        "",
        "\r\n",
        "GET",
        "GET / HTTP/1.0\r\n\r\n",
        "GET /announce/ HTTP/1.0\r\n\r\n",
        "GET\r\n /announce",
    ] {
        assert!(matches!(
            route(unknown.as_bytes(), peer()),
            Route::Refuse("unknown endpoint")
        ));
    }
    assert!(matches!(
        route(b"GET /announce HTTP/1.0\r\n\r\n", peer()),
        Route::Refuse("missing or malformed info_hash")
    ));
}

#[test]
fn an_announce_is_answered_from_the_registry() {
    let mut registry = Registry::new();
    let first = answer(&mut registry, &route(&announce_request(1, 0), peer()), 0);
    assert_eq!(
        first,
        b"d8:completei1e10:incompletei0e8:intervali1800e5:peers0:e".to_vec()
    );
    let second = answer(&mut registry, &route(&announce_request(2, 5), peer()), 0);
    let mut expected = b"d8:completei1e10:incompletei1e8:intervali1800e5:peers6:".to_vec();
    expected.extend_from_slice(&[1, 2, 3, 4, 0x1a, 0xe1]);
    expected.extend_from_slice(b"e");
    assert_eq!(second, expected);
    assert_eq!(registry.peer_count(&[0x41u8; 20]), 2);
}

#[test]
fn a_scrape_is_answered_with_no_files() {
    let mut registry = Registry::new();
    assert_eq!(answer(&mut registry, &Route::Scrape, 0), b"d5:filesdee".to_vec());
    assert_eq!(registry.swarm_count(), 0);
}

#[test]
fn a_refused_request_is_told_why_and_changes_nothing() {
    let mut registry = Registry::new();
    answer(&mut registry, &route(&announce_request(1, 0), peer()), 0);
    let body = answer(&mut registry, &route(b"GET /x HTTP/1.0\r\n\r\n", peer()), 9);
    assert_eq!(body, AnnounceResponse::failure("unknown endpoint"));
    let body = answer(&mut registry, &route(b"GET /announce?port=1 HTTP/1.0\r\n\r\n", peer()), 9);
    assert_eq!(body, AnnounceResponse::failure("missing or malformed info_hash"));
    assert_eq!(registry.swarm_count(), 1);
    assert_eq!(registry.peer_count(&[0x41u8; 20]), 1);
}

#[test]
fn a_response_has_these_bytes() {
    assert_eq!(
        http_response(b"d5:filesdee"),
        b"HTTP/1.0 200 OK\r\nContent-Type: text/plain\r\nContent-Length: 11\r\nConnection: close\r\n\r\nd5:filesdee"
            .to_vec()
    );
    assert_eq!(
        http_response(b""),
        b"HTTP/1.0 200 OK\r\nContent-Type: text/plain\r\nContent-Length: 0\r\nConnection: close\r\n\r\n"
            .to_vec()
    );
}

#[test]
fn a_request_is_responded_to() {
    let mut registry = Registry::new();
    assert_eq!(
        respond(&mut registry, &announce_request(1, 0), peer(), 0),
        Some(http_response(b"d8:completei1e10:incompletei0e8:intervali1800e5:peers0:e"))
    );
    assert_eq!(registry.peer_count(&[0x41u8; 20]), 1);
    assert_eq!(
        respond(&mut registry, b"GET /scrape HTTP/1.0\r\n\r\n", peer(), 1),
        Some(
            b"HTTP/1.0 200 OK\r\nContent-Type: text/plain\r\nContent-Length: 11\r\nConnection: close\r\n\r\nd5:filesdee"
                .to_vec()
        )
    );
    assert_eq!(
        respond(&mut registry, b"GET /x HTTP/1.0\r\n\r\n", peer(), 2),
        Some(http_response(&AnnounceResponse::failure("unknown endpoint")))
    );
    assert_eq!(
        respond(&mut registry, b"GET /announce?port=1 HTTP/1.0\r\n\r\n", peer(), 3),
        Some(http_response(&AnnounceResponse::failure("missing or malformed info_hash")))
    );
    assert_eq!(registry.swarm_count(), 1);
    assert_eq!(registry.peer_count(&[0x41u8; 20]), 1);
}

#[test]
fn an_announce_over_http_is_the_announce_of_its_query() {
    let query = format!(
        "info_hash={}&peer_id={}&port=6881&left=5&event=started",
        "%41".repeat(20),
        "%02".repeat(20)
    );
    let received = format!("GET /announce?{} HTTP/1.1\r\nHost: t\r\n\r\n", query);
    let mut over_http = Registry::new();
    let mut direct = Registry::new();
    for registry in [&mut over_http, &mut direct] {
        respond(registry, &announce_request(1, 0), peer(), 0);
    }
    let req = enxame_tracker::request::build_announce(query.as_bytes(), peer()).unwrap();
    let body = direct.announce(&req, 9).to_bencode();
    assert_eq!(
        respond(&mut over_http, received.as_bytes(), peer(), 9),
        Some(http_response(&body))
    );
    assert_eq!(over_http.peer_count(&[0x41u8; 20]), direct.peer_count(&[0x41u8; 20]));
    assert_eq!(over_http.swarm_count(), direct.swarm_count());
}

#[test]
fn headers_and_chunks_change_nothing() {
    let line = announce_request(3, 0);
    let end = line.windows(2).position(|w| w == b"\r\n").unwrap();
    let mut plain = line[..end].to_vec();
    plain.extend_from_slice(b"\r\n\r\n");
    let mut long = line[..end].to_vec();
    long.extend_from_slice(b"\r\nHost: other\r\nAccept: */*\r\n\r\ntrailing bytes");
    let mut responses = Vec::new();
    for (stream, size) in [(&plain, 1), (&plain, 2048), (&long, 1), (&long, 7), (&long, 2048)] {
        let mut buffer = RequestBuffer::new();
        for chunk in stream.chunks(size) {
            if buffer.receive(chunk) {
                break;
            }
        }
        let mut registry = Registry::new();
        respond(&mut registry, &announce_request(1, 0), peer(), 0);
        responses.push(respond(&mut registry, buffer.as_slice(), peer(), 5));
        assert_eq!(registry.peer_count(&[0x41u8; 20]), 2);
        assert_eq!(registry.swarm_count(), 1);
    }
    let mut expected = b"d8:completei2e10:incompletei0e8:intervali1800e5:peers6:".to_vec();
    expected.extend_from_slice(&[1, 2, 3, 4, 0x1a, 0xe1]);
    expected.extend_from_slice(b"e");
    for response in responses {
        assert_eq!(response, Some(http_response(&expected)));
    }
}
