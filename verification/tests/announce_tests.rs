use bitrufus_core::announce::{
    announce_url, announce_url_with_peer_id, announce_urls, forwarded_announce_url,
    is_http_tracker_url, peer_id, peer_id_from_nanos, AnnounceParams,
};
use bitrufus_core::peers::{find_bencode_bytes, parse_compact_peers, sort_dedup_peers, PeerAddr};

fn v4(a: u8, b: u8, c: u8, d: u8, port: u16) -> PeerAddr {
    PeerAddr::V4 { ip: [a, b, c, d], port }
}

fn db8_1(port: u16) -> PeerAddr {
    PeerAddr::V6 { ip: [0x20, 0x01, 0x0d, 0xb8, 0, 0, 0, 0, 0, 0, 0, 0, 0, 0, 0, 1], port }
}

#[test]
fn parses_compact_v4_peers() {
    let mut body = b"d8:intervali1800e5:peers12:".to_vec();
    body.extend_from_slice(&[1, 2, 3, 4, 0x1A, 0xE1]);
    body.extend_from_slice(&[5, 6, 7, 8, 0x00, 0x50]);
    body.extend_from_slice(b"e");
    let peers = parse_compact_peers(&body);
    assert_eq!(peers, vec![v4(1, 2, 3, 4, 6881), v4(5, 6, 7, 8, 80)]);
}

#[test]
fn skips_zero_ports_and_truncated_chunks() {
    let mut body = b"d5:peers11:".to_vec();
    body.extend_from_slice(&[1, 2, 3, 4, 0, 0]);
    body.extend_from_slice(&[9, 9, 9, 9, 9]);
    body.extend_from_slice(b"e");
    assert!(parse_compact_peers(&body).is_empty());
}

#[test]
fn non_compact_peer_list_yields_nothing() {
    let body = b"d5:peersld2:ip7:1.2.3.44:porti6881eeee";
    assert!(parse_compact_peers(body).is_empty());
}

#[test]
fn failure_response_yields_nothing() {
    let body = b"d14:failure reason13:not authorizede";
    assert!(parse_compact_peers(body).is_empty());
}

#[test]
fn announce_url_shape() {
    let url = announce_url("http://tr.example/ann", &[0xAB; 20], 6881);
    assert!(url.starts_with("http://tr.example/ann?info_hash=%ab%ab"));
    assert!(url.contains("&port=6881&"));
    assert!(url.contains("&left=1&"));
    assert!(url.contains("&compact=1"));
    assert!(url.contains("peer_id=-BR0100-"));
}

#[test]
fn announce_url_exact_with_fixed_peer_id() {
    let url = announce_url_with_peer_id("http://t/a", &[1u8; 20], 7, "-BR0100-000000000000");
    let hash = "%01".repeat(20);
    assert_eq!(
        url,
        format!(
            "http://t/a?info_hash={hash}&peer_id=-BR0100-000000000000&port=7&uploaded=0&downloaded=0&left=1&event=started&compact=1"
        )
    );
}

#[test]
fn announce_url_keeps_existing_query() {
    let url = announce_url_with_peer_id("http://t/a?k=v", &[0u8; 20], 1, "p");
    assert!(url.starts_with("http://t/a?k=v&info_hash=%00"));
}

#[test]
fn peer_id_has_prefix_and_twenty_bytes() {
    let id = peer_id();
    assert_eq!(id.len(), 20);
    assert!(id.starts_with("-BR0100-"));
    assert!(id[8..].bytes().all(|b| b.is_ascii_hexdigit()));
}

#[test]
fn peer_id_from_nanos_spells_low_digits() {
    assert_eq!(peer_id_from_nanos(0xabc), "-BR0100-000000000abc");
    assert_eq!(peer_id_from_nanos(0x1234_5678_9abc_def0_1234), "-BR0100-9abcdef01234");
}

#[test]
fn only_http_trackers_are_announced() {
    assert!(is_http_tracker_url("http://a/b"));
    assert!(is_http_tracker_url("https://a/b"));
    assert!(!is_http_tracker_url("udp://a:80"));
    let trackers = vec![
        "udp://x:1".to_string(),
        "http://a/ann".to_string(),
        "https://b/ann?x=1".to_string(),
    ];
    let urls = announce_urls(&trackers, &[0u8; 20], 5);
    assert_eq!(urls.len(), 2);
    assert!(urls[0].starts_with("http://a/ann?info_hash="));
    assert!(urls[1].starts_with("https://b/ann?x=1&info_hash="));
}

#[test]
fn forwarded_announce_keeps_client_fields() {
    let params = AnnounceParams {
        info_hash: [0x41; 20],
        peer_id: [0x42; 20],
        port: 51413,
        uploaded: 10,
        downloaded: 20,
        left: 30,
        event: Some("stopped".to_string()),
    };
    let url = forwarded_announce_url("http://t/a", &params);
    assert_eq!(
        url,
        format!(
            "http://t/a?info_hash={}&peer_id={}&port=51413&uploaded=10&downloaded=20&left=30&event=stopped&compact=1",
            "%41".repeat(20),
            "%42".repeat(20)
        )
    );
    let no_event = AnnounceParams { event: None, ..params };
    let url = forwarded_announce_url("http://t/a", &no_event);
    assert!(url.ends_with("&left=30&compact=1"));
}

#[test]
fn find_bencode_bytes_reads_string_after_key() {
    assert_eq!(find_bencode_bytes(b"d5:peers3:abce", b"5:peers"), Some(&b"abc"[..]));
    assert_eq!(find_bencode_bytes(b"d5:peers9:abce", b"5:peers"), None);
    assert_eq!(find_bencode_bytes(b"d5:peersx:abce", b"5:peers"), None);
    assert_eq!(find_bencode_bytes(b"de", b"5:peers"), None);
}

#[test]
fn parses_compact_v6_peers() {
    let mut body = b"d6:peers618:".to_vec();
    body.extend_from_slice(&[0x20, 0x01, 0x0d, 0xb8, 0, 0, 0, 0, 0, 0, 0, 0, 0, 0, 0, 1]);
    body.extend_from_slice(&[0xC8, 0xD5]);
    body.extend_from_slice(b"e");
    assert_eq!(parse_compact_peers(&body), vec![db8_1(51413)]);
}

#[test]
fn sort_dedup_orders_and_drops_duplicates() {
    let peers = vec![
        v4(5, 6, 7, 8, 80),
        db8_1(1),
        v4(1, 2, 3, 4, 6881),
        v4(5, 6, 7, 8, 80),
        v4(1, 2, 3, 4, 10),
    ];
    assert_eq!(
        sort_dedup_peers(&peers),
        vec![v4(1, 2, 3, 4, 10), v4(1, 2, 3, 4, 6881), v4(5, 6, 7, 8, 80), db8_1(1)]
    );
}
