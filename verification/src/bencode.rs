//! Bencoded announce responses: the peer list in compact form, and failures.

use vstd::prelude::*;
use vstd::string::StringSliceAdditionalSpecFns;

use crate::peers::{
    be16, bencode_bytes_after, compact_entries, compact_peers, find_first, lemma_find_from_none,
    lemma_find_from_none_means_absent, lemma_find_from_some, lemma_parse_dec_digits, peers6_key,
    peers_key, PeerAddr,
};
use crate::textual::{dec_digits, lemma_dec_digits_ascii, push_dec};

verus! {

/// `d8:completei0e10:incompletei0e8:intervali`
pub const RESPONSE_HEAD: [u8; 41] = [
    100, 56, 58, 99, 111, 109, 112, 108, 101, 116, 101, 105, 48, 101, 49, 48, 58, 105, 110, 99,
    111, 109, 112, 108, 101, 116, 101, 105, 48, 101, 56, 58, 105, 110, 116, 101, 114, 118, 97,
    108, 105,
];

/// `e5:peers`: closes the interval integer and opens the IPv4 peer string.
pub const PEERS_SECTION: [u8; 8] = [101, 53, 58, 112, 101, 101, 114, 115];

/// `6:peers6`
pub const PEERS6_KEY: [u8; 8] = [54, 58, 112, 101, 101, 114, 115, 54];

/// `d14:failure reason`
pub const FAILURE_HEAD: [u8; 18] = [
    100, 49, 52, 58, 102, 97, 105, 108, 117, 114, 101, 32, 114, 101, 97, 115, 111, 110,
];

/// Big-endian bytes of a port.
pub open spec fn port_bytes(port: u16) -> Seq<u8> {
    seq![(port / 256) as u8, (port % 256) as u8]
}

/// Compact encoding of one peer: address octets, then the port.
pub open spec fn peer_bytes(p: PeerAddr) -> Seq<u8> {
    match p {
        PeerAddr::V4 { ip, port } => ip@ + port_bytes(port),
        PeerAddr::V6 { ip, port } => ip@ + port_bytes(port),
    }
}

/// Concatenated compact entries of the IPv4 peers (`v4`) or of the IPv6 peers (`!v4`).
pub open spec fn compact_blob(peers: Seq<PeerAddr>, v4: bool) -> Seq<u8>
    decreases peers.len(),
{
    if peers.len() == 0 {
        seq![]
    } else {
        compact_blob(peers.drop_last(), v4) + if peers.last().is_v4() == v4 {
            peer_bytes(peers.last())
        } else {
            seq![]
        }
    }
}

/// A bencoded string: decimal length, `:`, the bytes.
pub open spec fn bstring(b: Seq<u8>) -> Seq<u8> {
    dec_digits(b.len()) + seq![58u8] + b
}

/// Everything of an announce response up to the end of the IPv4 peer string.
pub open spec fn announce_head(interval: nat, peers: Seq<PeerAddr>) -> Seq<u8> {
    RESPONSE_HEAD@ + dec_digits(interval) + PEERS_SECTION@ + bstring(compact_blob(peers, true))
}

/// The announce response for `interval` and `peers`: keys in lexicographic order,
/// `complete`/`incomplete` zero, `peers` always present, `peers6` only when non-empty.
pub open spec fn announce_body(interval: nat, peers: Seq<PeerAddr>) -> Seq<u8> {
    let v6 = compact_blob(peers, false);
    announce_head(interval, peers) + (if v6.len() > 0 {
        PEERS6_KEY@ + bstring(v6)
    } else {
        seq![]
    }) + seq![101u8]
}

/// The failure response carrying `reason`.
pub open spec fn failure_body(reason: Seq<u8>) -> Seq<u8> {
    FAILURE_HEAD@ + bstring(reason) + seq![101u8]
}

fn push_bstring(out: &mut Vec<u8>, b: &[u8])
    ensures
        final(out)@ == old(out)@ + bstring(b@),
{
    push_dec(out, b.len() as u64);
    out.push(58u8);
    out.extend_from_slice(b);
}

/// Bencoded announce response with the given re-announce interval and peers in compact
/// form (IPv4 entries under `peers`, IPv6 entries under `peers6`).
pub fn bencode_peers(interval: u64, peers: &[PeerAddr]) -> (r: Vec<u8>)
    ensures
        r@ == announce_body(interval as nat, peers@),
{
    let mut v4: Vec<u8> = Vec::new();
    let mut v6: Vec<u8> = Vec::new();
    let mut i: usize = 0;
    while i < peers.len()
        invariant
            i <= peers@.len(),
            v4@ == compact_blob(peers@.take(i as int), true),
            v6@ == compact_blob(peers@.take(i as int), false),
        decreases peers@.len() - i,
    {
        assert(peers@.take(i + 1).drop_last() =~= peers@.take(i as int));
        match peers[i] {
            PeerAddr::V4 { ip, port } => {
                v4.extend_from_slice(ip.as_slice());
                v4.push((port / 256) as u8);
                v4.push((port % 256) as u8);
                assert(v4@ =~= compact_blob(peers@.take(i as int), true) + ip@ + port_bytes(port));
            },
            PeerAddr::V6 { ip, port } => {
                v6.extend_from_slice(ip.as_slice());
                v6.push((port / 256) as u8);
                v6.push((port % 256) as u8);
                assert(v6@ =~= compact_blob(peers@.take(i as int), false) + ip@ + port_bytes(port));
            },
        }
        i = i + 1;
    }
    assert(peers@.take(i as int) =~= peers@);
    let mut out: Vec<u8> = Vec::new();
    out.extend_from_slice(RESPONSE_HEAD.as_slice());
    push_dec(&mut out, interval);
    out.extend_from_slice(PEERS_SECTION.as_slice());
    push_bstring(&mut out, v4.as_slice());
    if v6.len() > 0 {
        out.extend_from_slice(PEERS6_KEY.as_slice());
        push_bstring(&mut out, v6.as_slice());
    }
    out.push(101u8);
    assert(out@ =~= announce_body(interval as nat, peers@));
    out
}

/// Failure response for a reason given as bytes.
pub fn failure_response(reason: &[u8]) -> (r: Vec<u8>)
    ensures
        r@ == failure_body(reason@),
{
    let mut out: Vec<u8> = Vec::new();
    out.extend_from_slice(FAILURE_HEAD.as_slice());
    push_bstring(&mut out, reason);
    out.push(101u8);
    assert(out@ =~= failure_body(reason@));
    out
}

/// Bencoded failure response: `d14:failure reason<len>:<reason>e`.
pub fn bencode_failure(reason: &str) -> (r: Vec<u8>)
    ensures
        r@ == failure_body(reason.spec_bytes()),
{
    failure_response(reason.as_bytes())
}

} // verus!

verus! {

/// The peers of the given family (`v4` or not) whose port is not 0, in order.
pub open spec fn live_peers(peers: Seq<PeerAddr>, v4: bool) -> Seq<PeerAddr>
    decreases peers.len(),
{
    if peers.len() == 0 {
        seq![]
    } else {
        live_peers(peers.drop_last(), v4) + if peers.last().is_v4() == v4 && peers.last().port_of()
            != 0 {
            seq![peers.last()]
        } else {
            seq![]
        }
    }
}

pub open spec fn family_width(v4: bool) -> int {
    if v4 {
        6
    } else {
        18
    }
}

proof fn lemma_compact_entries_concat(a: Seq<u8>, b: Seq<u8>, w: int)
    requires
        w == 6 || w == 18,
        (a.len() as int) % w == 0,
    ensures
        compact_entries(a + b, w) == compact_entries(a, w) + compact_entries(b, w),
    decreases a.len(),
{
    if a.len() == 0 {
        assert(a + b =~= b);
        assert(compact_entries(a, w) =~= seq![]);
    } else {
        assert(a.len() >= w);
        assert((a + b).skip(w) =~= a.skip(w) + b);
        assert((a.skip(w).len() as int) % w == 0);
        lemma_compact_entries_concat(a.skip(w), b, w);
        assert forall|k: int| 0 <= k < w implies (a + b)[k] == a[k] by {}
    }
}

proof fn lemma_compact_entry(p: PeerAddr, v4: bool)
    requires
        p.is_v4() == v4,
    ensures
        peer_bytes(p).len() == family_width(v4),
        compact_entries(peer_bytes(p), family_width(v4)) == if p.port_of() != 0 {
            seq![p]
        } else {
            seq![]
        },
{
    let v = peer_bytes(p);
    let w = family_width(v4);
    assert(v.skip(w) =~= seq![]);
    assert(compact_entries(v.skip(w), w) =~= seq![]);
    match p {
        PeerAddr::V4 { ip, port } => {
            assert(be16(v[4], v[5]) == port);
            let a: [u8; 4] = [v[0], v[1], v[2], v[3]];
            assert(a =~= ip);
        },
        PeerAddr::V6 { ip, port } => {
            assert(be16(v[16], v[17]) == port);
            let a: [u8; 16] = [
                v[0],
                v[1],
                v[2],
                v[3],
                v[4],
                v[5],
                v[6],
                v[7],
                v[8],
                v[9],
                v[10],
                v[11],
                v[12],
                v[13],
                v[14],
                v[15],
            ];
            assert(a =~= ip);
        },
    }
}

/// Decoding the compact entries of one family gives back that family's live peers.
pub proof fn lemma_compact_blob_entries(peers: Seq<PeerAddr>, v4: bool)
    ensures
        (compact_blob(peers, v4).len() as int) % family_width(v4) == 0,
        compact_entries(compact_blob(peers, v4), family_width(v4)) == live_peers(peers, v4),
    decreases peers.len(),
{
    let w = family_width(v4);
    if peers.len() == 0 {
        assert(compact_entries(seq![], w) =~= seq![]);
    } else {
        let front = compact_blob(peers.drop_last(), v4);
        lemma_compact_blob_entries(peers.drop_last(), v4);
        let p = peers.last();
        if p.is_v4() == v4 {
            lemma_compact_entry(p, v4);
            lemma_compact_entries_concat(front, peer_bytes(p), w);
        } else {
            assert(compact_blob(peers, v4) =~= front);
        }
    }
}

} // verus!

verus! {

proof fn lemma_body_finds_peers(interval: nat, peers: Seq<PeerAddr>)
    ensures
        ({
            let body = announce_body(interval, peers);
            let at = (RESPONSE_HEAD@.len() + dec_digits(interval).len() + 1) as int;
            &&& find_first(body, peers_key()) == Some(at)
            &&& body.skip(at + 7) == bstring(compact_blob(peers, true)) + body.skip(
                announce_head(interval, peers).len() as int,
            )
        }),
{
    let body = announce_body(interval, peers);
    let digits = dec_digits(interval);
    let at = (RESPONSE_HEAD@.len() + digits.len() + 1) as int;
    let head = announce_head(interval, peers);
    lemma_dec_digits_ascii(interval);
    assert(RESPONSE_HEAD@.len() == 41);
    assert(body.subrange(at, at + 7) =~= peers_key());
    assert forall|m: int| 0 <= m < at implies #[trigger] body.subrange(m, m + 7) != peers_key() by {
        let w = body.subrange(m, m + 7);
        if m < 41 {
            assert(w[0] == RESPONSE_HEAD@[m]);
            assert(RESPONSE_HEAD@[m] != 53u8);
        } else if m < 41 + digits.len() - 1 {
            assert(w[1] == digits[m + 1 - 41]);
        } else if m == 41 + digits.len() - 1 {
            assert(w[1] == 101u8);
        } else {
            assert(w[0] == 101u8);
        }
    }
    lemma_find_from_some(body, peers_key(), 0, at);
    assert(body.skip(at + 7) =~= bstring(compact_blob(peers, true)) + body.skip(head.len() as int));
}

} // verus!

verus! {

proof fn lemma_bytes_after(body: Seq<u8>, key: Seq<u8>, at: int, blob: Seq<u8>, tail: Seq<u8>)
    requires
        0 <= at,
        find_first(body, key) == Some(at),
        at + key.len() <= body.len(),
        body.skip(at + key.len()) == bstring(blob) + tail,
        body.len() <= usize::MAX,
    ensures
        bencode_bytes_after(body, key) == Some(blob),
{
    let rest = body.skip(at + key.len());
    let digits = dec_digits(blob.len());
    lemma_dec_digits_ascii(blob.len());
    let colon = digits.len() as int;
    assert(rest.subrange(colon, colon + 1) =~= seq![58u8]);
    assert forall|m: int| 0 <= m < colon implies #[trigger] rest.subrange(m, m + 1) != seq![58u8] by {
        assert(rest.subrange(m, m + 1)[0] == digits[m]);
    }
    lemma_find_from_some(rest, seq![58u8], 0, colon);
    assert(rest.take(colon) =~= digits);
    lemma_parse_dec_digits(blob.len(), usize::MAX as nat);
    assert(rest.subrange(colon + 1, colon + 1 + blob.len()) =~= blob);
}

/// The `peers6` key does not already occur where a parser would find it first: in the
/// IPv4 section, or (when there are IPv6 peers) straddling the end of the IPv4 section.
pub open spec fn peers6_unambiguous(interval: nat, peers: Seq<PeerAddr>) -> bool {
    if compact_blob(peers, false).len() > 0 {
        find_first(announce_head(interval, peers) + seq![54u8], peers6_key()) is None
    } else {
        find_first(announce_head(interval, peers), peers6_key()) is None
    }
}

proof fn lemma_body_finds_peers6(interval: nat, peers: Seq<PeerAddr>)
    requires
        peers6_unambiguous(interval, peers),
    ensures
        ({
            let body = announce_body(interval, peers);
            let head = announce_head(interval, peers);
            let v6 = compact_blob(peers, false);
            &&& v6.len() > 0 ==> find_first(body, peers6_key()) == Some(head.len() as int)
                && body.skip(head.len() as int + 8) == bstring(v6) + seq![101u8]
            &&& v6.len() == 0 ==> find_first(body, peers6_key()) is None
        }),
{
    let body = announce_body(interval, peers);
    let head = announce_head(interval, peers);
    let probe = head + seq![54u8];
    let key = peers6_key();
    let v6 = compact_blob(peers, false);
    let n = head.len() as int;
    if v6.len() > 0 {
        assert forall|m: int| 0 <= m && m + 8 <= n + 1 && m + 8 <= body.len() implies
            #[trigger] body.subrange(m, m + 8) != key by {
            lemma_find_from_none_means_absent(probe, key, 0, m);
            assert(body.subrange(m, m + 8) =~= probe.subrange(m, m + 8));
        }
        assert(body.subrange(n, n + 8) =~= key);
        assert forall|m: int| 0 <= m < n implies #[trigger] body.subrange(m, m + 8) != key by {
            if m + 8 > n + 1 {
                let t = n - m;
                assert(body.subrange(m, m + 8)[t] == 54u8);
                assert(key[t] != 54u8);
            }
        }
        lemma_find_from_some(body, key, 0, n);
        assert(body.skip(n + 8) =~= bstring(v6) + seq![101u8]);
    } else {
        assert(body =~= head + seq![101u8]);
        assert forall|m: int| 0 <= m && m + 8 <= body.len() implies
            #[trigger] body.subrange(m, m + 8) != key by {
            if m + 8 <= n {
                lemma_find_from_none_means_absent(head, key, 0, m);
                assert(body.subrange(m, m + 8) =~= head.subrange(m, m + 8));
            } else {
                assert(body.subrange(m, m + 8)[7] == 101u8);
            }
        }
        lemma_find_from_none(body, key, 0);
    }
}

/// Parsing an announce response built by `bencode_peers` gives back its IPv4 peers and
/// then its IPv6 peers, each in the order given, leaving out peers whose port is 0.
/// The response must not already spell the `peers6` key where the parser looks for it
/// (see [`peers6_unambiguous`]), which a crafted IPv4 address list can do.
pub proof fn law_bencode_peers_roundtrip(interval: nat, peers: Seq<PeerAddr>)
    requires
        peers6_unambiguous(interval, peers),
        announce_body(interval, peers).len() <= usize::MAX,
    ensures
        compact_peers(announce_body(interval, peers)) == live_peers(peers, true) + live_peers(
            peers,
            false,
        ),
{
    let body = announce_body(interval, peers);
    let head = announce_head(interval, peers);
    let v4 = compact_blob(peers, true);
    let v6 = compact_blob(peers, false);
    let at = (RESPONSE_HEAD@.len() + dec_digits(interval).len() + 1) as int;
    lemma_body_finds_peers(interval, peers);
    lemma_bytes_after(body, peers_key(), at, v4, body.skip(head.len() as int));
    lemma_compact_blob_entries(peers, true);
    lemma_compact_blob_entries(peers, false);
    lemma_body_finds_peers6(interval, peers);
    if v6.len() > 0 {
        lemma_bytes_after(body, peers6_key(), head.len() as int, v6, seq![101u8]);
    } else {
        assert(compact_entries(v6, 18) =~= seq![]);
    }
}

} // verus!
