use bitrufus_core::bencode::{bencode_failure, bencode_peers};
use bitrufus_core::peers::{parse_compact_peers, PeerAddr};
use bitrufus_core::proxy::{
    announce_params, empty_peers_response, http_response_head, is_self, parse_announce_query,
    peers_response, percent_decodable, percent_decode, plan_request, proxy_announce_url,
    plan_forward, read_step, reannounce_interval, request_is_decodable, request_query, to_20_bytes, ForwardStep,
    upstream_tracker_texts, upstream_trackers, ProxyStep, ReadStep, TrackerUrl,
};

fn v4(a: u8, b: u8, c: u8, d: u8, port: u16) -> PeerAddr {
    PeerAddr::V4 { ip: [a, b, c, d], port }
}

fn db8_1(port: u16) -> PeerAddr {
    PeerAddr::V6 { ip: [0x20, 0x01, 0x0d, 0xb8, 0, 0, 0, 0, 0, 0, 0, 0, 0, 0, 0, 1], port }
}

fn tracker(u: &url::Url) -> TrackerUrl {
    TrackerUrl {
        text: u.to_string(),
        host: u.host_str().map(|h| h.to_string()),
        port: u.port(),
    }
}

#[test]
fn request_query_extracts_announce_query() {
    let req = b"GET /announce?info_hash=%01&port=51413 HTTP/1.1\r\nHost: x\r\n\r\n";
    assert_eq!(request_query(req), Some("info_hash=%01&port=51413"));
    assert_eq!(request_query(b"POST /announce?x=1 HTTP/1.1\r\n\r\n"), None);
    assert_eq!(request_query(b"GET /announce HTTP/1.1\r\n\r\n"), None);
}

#[test]
fn request_query_edge_cases() {
    assert_eq!(request_query(b"GET /a?x=1 HTTP/1.1"), None);
    assert_eq!(request_query(b"GET /a?b?c HTTP/1.1\r\n"), Some("b?c"));
    assert_eq!(request_query(b"GET /a? HTTP/1.1\r\n"), Some(""));
    assert_eq!(request_query(b"GET\r\n"), None);
    assert_eq!(request_query(b"GET /a?\xff HTTP/1.1\r\n"), None);
}

#[test]
fn percent_decode_binary_roundtrip() {
    assert_eq!(percent_decode("%1b%ed%f2A+B"), vec![0x1b, 0xed, 0xf2, b'A', b' ', b'B']);
    assert_eq!(percent_decode("abc"), b"abc".to_vec());
    assert_eq!(percent_decode("ab%2"), b"ab%2".to_vec());
}

#[test]
fn percent_decode_keeps_bad_escapes() {
    assert_eq!(percent_decode("%zz%41"), b"%zzA".to_vec());
    assert_eq!(percent_decode("%"), b"%".to_vec());
    assert!(percent_decodable(b"%41"));
}

#[test]
fn to_20_bytes_needs_exactly_twenty() {
    assert_eq!(to_20_bytes(&[7u8; 20]), Some([7u8; 20]));
    assert_eq!(to_20_bytes(&[7u8; 19]), None);
    assert_eq!(to_20_bytes(&[7u8; 21]), None);
}

#[test]
fn bencode_peers_roundtrips_through_compact_parser() {
    let peers = vec![v4(1, 2, 3, 4, 6881), db8_1(51413)];
    let body = bencode_peers(900, &peers);
    let parsed = parse_compact_peers(&body);
    assert_eq!(parsed, peers);
    let s = String::from_utf8_lossy(&body);
    assert!(s.starts_with("d8:completei0e10:incompletei0e8:intervali900e5:peers"));
}

#[test]
fn bencode_peers_exact_bytes() {
    let body = bencode_peers(300, &[v4(1, 2, 3, 4, 6881)]);
    let mut expected = b"d8:completei0e10:incompletei0e8:intervali300e5:peers6:".to_vec();
    expected.extend_from_slice(&[1, 2, 3, 4, 0x1A, 0xE1]);
    expected.push(b'e');
    assert_eq!(body, expected);
    let empty = bencode_peers(300, &[]);
    assert_eq!(empty, b"d8:completei0e10:incompletei0e8:intervali300e5:peers0:e".to_vec());
}

#[test]
fn bencode_failure_shape() {
    assert_eq!(bencode_failure("bad request"), b"d14:failure reason11:bad requeste".to_vec());
}

#[test]
fn self_url_is_excluded() {
    assert!(is_self(&tracker(&url::Url::parse("http://127.0.0.1:9999/announce").unwrap()), 9999));
    assert!(is_self(&tracker(&url::Url::parse("http://localhost:9999/announce").unwrap()), 9999));
    assert!(!is_self(&tracker(&url::Url::parse("http://127.0.0.1:1234/announce").unwrap()), 9999));
    assert!(!is_self(&tracker(&url::Url::parse("http://bt3.t-ru.org/ann").unwrap()), 9999));
}

#[test]
fn upstream_trackers_skip_the_proxy() {
    let list = vec![
        tracker(&url::Url::parse("http://127.0.0.1:9999/announce").unwrap()),
        tracker(&url::Url::parse("http://bt3.t-ru.org/ann").unwrap()),
    ];
    assert_eq!(upstream_trackers(&list, 9999), vec!["http://bt3.t-ru.org/ann".to_string()]);
    let texts = vec![
        "http://localhost:9999/announce".to_string(),
        "not a url".to_string(),
        "http://bt3.t-ru.org/ann".to_string(),
        "udp://tracker.example:80".to_string(),
    ];
    assert_eq!(
        upstream_tracker_texts(&texts, 9999),
        vec!["http://bt3.t-ru.org/ann".to_string(), "udp://tracker.example:80".to_string()]
    );
}

#[test]
fn upstream_tracker_texts_normalizes_serialization() {
    let texts = vec!["HTTP://Example.COM".to_string()];
    assert_eq!(upstream_tracker_texts(&texts, 1), vec!["http://example.com/".to_string()]);
}

#[test]
fn parse_announce_query_reads_fields() {
    let q = format!(
        "info_hash={}&peer_id={}&port=6881&uploaded=5&downloaded=6&left=7&event=started&junk",
        "%aa".repeat(20),
        "B".repeat(20)
    );
    let a = parse_announce_query(&q);
    assert_eq!(a.info_hash, Some([0xaa; 20]));
    assert_eq!(a.peer_id, Some([b'B'; 20]));
    assert_eq!(a.port, 6881);
    assert_eq!(a.uploaded, 5);
    assert_eq!(a.downloaded, 6);
    assert_eq!(a.left, 7);
    assert_eq!(a.event, Some("started".to_string()));
}

#[test]
fn parse_announce_query_defaults() {
    let a = parse_announce_query("port=x&left=&info_hash=%01");
    assert_eq!(a.info_hash, None);
    assert_eq!(a.peer_id, None);
    assert_eq!(a.port, 0);
    assert_eq!(a.uploaded, 0);
    assert_eq!(a.left, 1);
    assert_eq!(a.event, None);
    let b = parse_announce_query("port=1&port=2&port=70000");
    assert_eq!(b.port, 0);
}

#[test]
fn plan_request_outcomes() {
    match plan_request(b"POST /announce?x=1 HTTP/1.1\r\n\r\n") {
        ProxyStep::Respond(b) => assert_eq!(b, bencode_failure("bad request")),
        _ => panic!("expected a failure response"),
    }
    match plan_request(b"GET /announce?port=1 HTTP/1.1\r\n\r\n") {
        ProxyStep::Respond(b) => assert_eq!(b, bencode_failure("missing info_hash")),
        _ => panic!("expected a failure response"),
    }
    let req = format!("GET /announce?info_hash={}&port=9 HTTP/1.1\r\n\r\n", "%01".repeat(20));
    assert!(request_is_decodable(req.as_bytes()));
    match plan_request(req.as_bytes()) {
        ProxyStep::Announce { info_hash, query } => {
            assert_eq!(info_hash, [1u8; 20]);
            assert_eq!(query.port, 9);
        }
        _ => panic!("expected an announce"),
    }
}

#[test]
fn announce_params_fill_port_and_peer_id() {
    let q = parse_announce_query("port=0&left=3");
    let p = announce_params([9u8; 20], &q, Some(4242));
    assert_eq!(p.port, 4242);
    assert_eq!(p.peer_id, [b'0'; 20]);
    assert_eq!(p.left, 3);
    let p = announce_params([9u8; 20], &q, None);
    assert_eq!(p.port, 0);
    let q = parse_announce_query("port=7");
    assert_eq!(announce_params([9u8; 20], &q, Some(4242)).port, 7);
}

#[test]
fn response_interval_depends_on_peers() {
    assert_eq!(reannounce_interval(&[]), 300);
    assert_eq!(reannounce_interval(&[v4(1, 2, 3, 4, 1)]), 900);
    assert_eq!(peers_response(&[]), empty_peers_response());
    assert_eq!(
        empty_peers_response(),
        b"d8:completei0e10:incompletei0e8:intervali300e5:peers0:e".to_vec()
    );
    assert!(String::from_utf8_lossy(&peers_response(&[v4(1, 2, 3, 4, 1)])).contains("intervali900e"));
}

#[test]
fn proxy_url_and_http_head() {
    assert_eq!(proxy_announce_url(51000), "http://127.0.0.1:51000/announce");
    assert_eq!(
        http_response_head(12),
        b"HTTP/1.1 200 OK\r\nContent-Type: text/plain\r\nContent-Length: 12\r\nConnection: close\r\n\r\n"
            .to_vec()
    );
}

#[test]
fn read_step_tracks_head() {
    assert_eq!(read_step(b"GET / HTTP/1.1\r\n\r\n"), ReadStep::Complete);
    assert_eq!(read_step(b"GET / HTTP/1.1\r\n"), ReadStep::ReadMore);
    assert_eq!(read_step(&vec![b'a'; 8193]), ReadStep::TooLarge);
    assert_eq!(read_step(&vec![b'a'; 8192]), ReadStep::ReadMore);
}

#[test]
fn proxy_answers_empty_when_session_missing() {
    let req = format!("GET /announce?info_hash={}&port=1 HTTP/1.1\r\nHost: x\r\n\r\n", "%01".repeat(20));
    let body = match plan_request(req.as_bytes()) {
        ProxyStep::Announce { info_hash, query } => {
            match plan_forward(info_hash, &query, None, 9999, None) {
                ForwardStep::Respond(b) => b,
                ForwardStep::Announce { .. } => panic!("no session: nothing to announce"),
            }
        }
        ProxyStep::Respond(_) => panic!("the request is well formed"),
    };
    let mut response = http_response_head(body.len());
    response.extend_from_slice(&body);
    let response = String::from_utf8(response).unwrap();
    assert!(response.starts_with("HTTP/1.1 200 OK"), "got: {response}");
    assert!(
        response.ends_with("d8:completei0e10:incompletei0e8:intervali300e5:peers0:e"),
        "got: {response}"
    );
}

#[test]
fn forward_plan_skips_torrents_without_upstream() {
    let q = parse_announce_query("port=0&left=0&event=started");
    let only_self = vec!["http://127.0.0.1:9999/announce".to_string()];
    assert!(matches!(
        plan_forward([2u8; 20], &q, Some(only_self.as_slice()), 9999, Some(6881)),
        ForwardStep::Respond(b) if b == empty_peers_response()
    ));
    let both = vec!["http://127.0.0.1:9999/announce".to_string(), "http://t.example/a".to_string()];
    match plan_forward([2u8; 20], &q, Some(both.as_slice()), 9999, Some(6881)) {
        ForwardStep::Announce { trackers, params } => {
            assert_eq!(trackers, vec!["http://t.example/a".to_string()]);
            assert_eq!(params.port, 6881);
            assert_eq!(params.info_hash, [2u8; 20]);
            assert_eq!(params.left, 0);
            assert_eq!(params.event, Some("started".to_string()));
        }
        ForwardStep::Respond(_) => panic!("expected an announce"),
    }
}

#[test]
fn percent_decode_uppercase_and_plain_text() {
    assert_eq!(percent_decode("%1B%ED%F2"), vec![0x1b, 0xed, 0xf2]);
    assert_eq!(percent_decode("plain-text_~."), b"plain-text_~.".to_vec());
    let input = "%41%4a+b%";
    assert!(percent_decode(input).len() <= input.len());
}
