//! Tracker announce requests: the announce URL for a torrent, the client's peer id,
//! and the per-tracker plan of an announce round.

use vstd::prelude::*;

use crate::textual::{
    append_ascii, ascii_chars, chars_of, dec_digits, hex_fixed, lemma_dec_digits_ascii,
    lemma_hex_fixed_shape, push_char, push_dec, push_hex_fixed,
};

verus! {

/// `info_hash=`
pub const INFO_HASH_FIELD: [u8; 10] = [
    105, 110, 102, 111, 95, 104, 97, 115, 104, 61,
];

/// `&peer_id=`
pub const PEER_ID_FIELD: [u8; 9] = [
    38, 112, 101, 101, 114, 95, 105, 100, 61,
];

/// `&port=`
pub const PORT_FIELD: [u8; 6] = [
    38, 112, 111, 114, 116, 61,
];

/// `&uploaded=0&downloaded=0&left=1&event=started&compact=1`
pub const STARTED_TAIL: [u8; 55] = [
    38, 117, 112, 108, 111, 97, 100, 101, 100, 61, 48, 38, 100, 111, 119, 110, 108, 111, 97,
    100, 101, 100, 61, 48, 38, 108, 101, 102, 116, 61, 49, 38, 101, 118, 101, 110, 116, 61, 115,
    116, 97, 114, 116, 101, 100, 38, 99, 111, 109, 112, 97, 99, 116, 61, 49,
];

/// `-BR0100-`
pub const PEER_ID_PREFIX: [u8; 8] = [
    45, 66, 82, 48, 49, 48, 48, 45,
];

/// `http://`
pub const HTTP_SCHEME: [u8; 7] = [
    104, 116, 116, 112, 58, 47, 47,
];

/// `https://`
pub const HTTPS_SCHEME: [u8; 8] = [
    104, 116, 116, 112, 115, 58, 47, 47,
];

/// Percent-encoding of every byte: `%` and two lowercase hexadecimal digits.
pub open spec fn pct_encoded(b: Seq<u8>) -> Seq<u8>
    decreases b.len(),
{
    if b.len() == 0 {
        seq![]
    } else {
        pct_encoded(b.drop_last()) + seq![37u8] + hex_fixed(b.last() as nat, 2)
    }
}

/// The separator that starts our query parameters: `&` when the tracker URL already
/// carries a query, `?` otherwise.
pub open spec fn query_separator(tracker: Seq<char>) -> char {
    if tracker.contains('?') {
        '&'
    } else {
        '?'
    }
}

/// The peer id derived from a clock reading: the fixed client prefix and the low
/// 48 bits of the nanosecond count as 12 lowercase hexadecimal digits.
pub open spec fn peer_id_text(nanos: u128) -> Seq<char> {
    ascii_chars(PEER_ID_PREFIX@ + hex_fixed((nanos & 0xffff_ffff_ffffu128) as nat, 12))
}

/// The `started` announce URL of a torrent on `tracker`.
pub open spec fn announce_text(
    tracker: Seq<char>,
    info_hash: Seq<u8>,
    listen_port: u16,
    peer_id: Seq<char>,
) -> Seq<char> {
    tracker + seq![query_separator(tracker)] + ascii_chars(INFO_HASH_FIELD@ + pct_encoded(info_hash)
        + PEER_ID_FIELD@) + peer_id + ascii_chars(PORT_FIELD@ + dec_digits(listen_port as nat)
        + STARTED_TAIL@)
}

/// Whether `s` starts with the ASCII bytes of `prefix`.
pub open spec fn has_ascii_prefix(s: Seq<char>, prefix: Seq<u8>) -> bool {
    s.len() >= prefix.len() && s.take(prefix.len() as int) == ascii_chars(prefix)
}

/// Trackers reached over HTTP(S); UDP and other schemes are left to the session itself.
pub open spec fn is_http_tracker(t: Seq<char>) -> bool {
    has_ascii_prefix(t, HTTP_SCHEME@) || has_ascii_prefix(t, HTTPS_SCHEME@)
}

fn contains_char(s: &str, c: char) -> (r: bool)
    ensures
        r == s@.contains(c),
{
    let v = chars_of(s);
    let mut i: usize = 0;
    while i < v.len()
        invariant
            v@ == s@,
            i <= v@.len(),
            forall|k: int| 0 <= k < i ==> v@[k] != c,
        decreases v@.len() - i,
    {
        if v[i] == c {
            return true;
        }
        i = i + 1;
    }
    false
}

fn starts_with_ascii(s: &str, prefix: &[u8]) -> (r: bool)
    ensures
        r == has_ascii_prefix(s@, prefix@),
{
    let v = chars_of(s);
    if v.len() < prefix.len() {
        return false;
    }
    let mut i: usize = 0;
    while i < prefix.len()
        invariant
            v@ == s@,
            prefix@.len() <= v@.len(),
            i <= prefix@.len(),
            forall|k: int| 0 <= k < i ==> v@[k] == prefix@[k] as char,
        decreases prefix@.len() - i,
    {
        if v[i] != prefix[i] as char {
            assert(s@.take(prefix@.len() as int)[i as int] != ascii_chars(prefix@)[i as int]);
            return false;
        }
        i = i + 1;
    }
    assert(s@.take(prefix@.len() as int) =~= ascii_chars(prefix@));
    true
}

/// Whether a tracker is announced to over HTTP(S) by this client.
pub fn is_http_tracker_url(tracker: &str) -> (r: bool)
    ensures
        r == is_http_tracker(tracker@),
{
    starts_with_ascii(tracker, HTTP_SCHEME.as_slice()) || starts_with_ascii(
        tracker,
        HTTPS_SCHEME.as_slice(),
    )
}

fn push_pct_encoded(out: &mut Vec<u8>, b: &[u8])
    ensures
        final(out)@ == old(out)@ + pct_encoded(b@),
{
    let ghost start = out@;
    let mut i: usize = 0;
    while i < b.len()
        invariant
            i <= b@.len(),
            out@ == start + pct_encoded(b@.take(i as int)),
        decreases b@.len() - i,
    {
        assert(b@.take(i + 1).drop_last() =~= b@.take(i as int));
        out.push(37u8);
        push_hex_fixed(out, b[i] as u64, 2);
        i = i + 1;
        assert(out@ =~= start + pct_encoded(b@.take(i as int)));
    }
    assert(b@.take(i as int) =~= b@);
}

proof fn lemma_pct_encoded_ascii(b: Seq<u8>)
    ensures
        forall|i: int| 0 <= i < pct_encoded(b).len() ==> #[trigger] pct_encoded(b)[i] < 128,
    decreases b.len(),
{
    if b.len() > 0 {
        let e = pct_encoded(b);
        let f = pct_encoded(b.drop_last());
        let h = hex_fixed(b.last() as nat, 2);
        lemma_pct_encoded_ascii(b.drop_last());
        lemma_hex_fixed_shape(b.last() as nat, 2);
        assert forall|i: int| 0 <= i < e.len() implies e[i] < 128 by {
            if i < f.len() {
                assert(e[i] == f[i]);
            } else if i > f.len() {
                assert(e[i] == h[i - f.len() - 1]);
            }
        }
    }
}

/// Appends ASCII bytes (all below 128) to a string.
fn append_ascii_checked(s: &mut String, b: &[u8])
    requires
        forall|i: int| 0 <= i < b@.len() ==> b@[i] < 128,
    ensures
        final(s)@ == old(s)@ + ascii_chars(b@),
{
    append_ascii(s, b);
}

/// The `started` announce URL for `tracker` with the given peer id.
pub fn announce_url_with_peer_id(
    tracker: &str,
    info_hash: &[u8; 20],
    listen_port: u16,
    peer_id: &str,
) -> (r: String)
    ensures
        r@ == announce_text(tracker@, info_hash@, listen_port, peer_id@),
{
    let mut s = String::new();
    s.append(tracker);
    if contains_char(tracker, '?') {
        push_char(&mut s, '&');
    } else {
        push_char(&mut s, '?');
    }
    let mut q: Vec<u8> = Vec::new();
    q.extend_from_slice(INFO_HASH_FIELD.as_slice());
    push_pct_encoded(&mut q, info_hash.as_slice());
    q.extend_from_slice(PEER_ID_FIELD.as_slice());
    proof {
        lemma_pct_encoded_ascii(info_hash@);
        assert(q@ =~= INFO_HASH_FIELD@ + pct_encoded(info_hash@) + PEER_ID_FIELD@);
        assert forall|i: int| 0 <= i < q@.len() implies q@[i] < 128 by {
            if i >= INFO_HASH_FIELD@.len() && i < INFO_HASH_FIELD@.len() + pct_encoded(
                info_hash@,
            ).len() {
                assert(q@[i] == pct_encoded(info_hash@)[i - INFO_HASH_FIELD@.len()]);
            }
        }
    }
    append_ascii_checked(&mut s, q.as_slice());
    s.append(peer_id);
    let mut t: Vec<u8> = Vec::new();
    t.extend_from_slice(PORT_FIELD.as_slice());
    push_dec(&mut t, listen_port as u64);
    t.extend_from_slice(STARTED_TAIL.as_slice());
    proof {
        lemma_dec_digits_ascii(listen_port as nat);
        assert(t@ =~= PORT_FIELD@ + dec_digits(listen_port as nat) + STARTED_TAIL@);
        assert forall|i: int| 0 <= i < t@.len() implies t@[i] < 128 by {
            if i >= PORT_FIELD@.len() && i < PORT_FIELD@.len() + dec_digits(
                listen_port as nat,
            ).len() {
                assert(t@[i] == dec_digits(listen_port as nat)[i - PORT_FIELD@.len()]);
            }
        }
    }
    append_ascii_checked(&mut s, t.as_slice());
    assert(s@ =~= announce_text(tracker@, info_hash@, listen_port, peer_id@));
    s
}

} // verus!

verus! {

/// The peer id for a clock reading of `nanos` nanoseconds.
pub fn peer_id_from_nanos(nanos: u128) -> (r: String)
    ensures
        r@ == peer_id_text(nanos),
{
    let mut b: Vec<u8> = Vec::new();
    b.extend_from_slice(PEER_ID_PREFIX.as_slice());
    let low = (nanos & 0xffff_ffff_ffffu128) as u64;
    assert(nanos & 0xffff_ffff_ffffu128 <= 0xffff_ffff_ffffu128) by (bit_vector);
    push_hex_fixed(&mut b, low, 12);
    proof {
        lemma_hex_fixed_shape(low as nat, 12);
        assert(b@ =~= PEER_ID_PREFIX@ + hex_fixed(low as nat, 12));
        assert forall|i: int| 0 <= i < b@.len() implies b@[i] < 128 by {
            if i >= 8 {
                assert(b@[i] == hex_fixed(low as nat, 12)[i - 8]);
            }
        }
    }
    let mut s = String::new();
    append_ascii(&mut s, b.as_slice());
    s
}

/// Azureus-style peer id: the client prefix and 12 hexadecimal digits taken from the
/// clock, which is unique enough for tracker bookkeeping. A clock before the Unix epoch
/// counts as 0.
pub fn peer_id() -> (r: String)
    ensures
        exists|nanos: u128| r@ == peer_id_text(nanos),
{
    let nanos = match crate::clock::system_clock_nanos() {
        Ok(n) => n,
        Err(_) => 0,
    };
    peer_id_from_nanos(nanos)
}

/// `url` is the `started` announce URL for `tracker` under some peer id from the clock.
pub open spec fn is_started_announce(
    url: Seq<char>,
    tracker: Seq<char>,
    info_hash: Seq<u8>,
    listen_port: u16,
) -> bool {
    exists|nanos: u128| url == announce_text(tracker, info_hash, listen_port, peer_id_text(nanos))
}

/// The `started` announce URL of a torrent on `tracker`, with a fresh peer id.
pub fn announce_url(tracker: &str, info_hash: &[u8; 20], listen_port: u16) -> (r: String)
    ensures
        is_started_announce(r@, tracker@, info_hash@, listen_port),
{
    let id = peer_id();
    announce_url_with_peer_id(tracker, info_hash, listen_port, id.as_str())
}

/// The HTTP(S) trackers of a list, in order.
pub open spec fn http_trackers(trackers: Seq<Seq<char>>) -> Seq<Seq<char>>
    decreases trackers.len(),
{
    if trackers.len() == 0 {
        seq![]
    } else {
        http_trackers(trackers.drop_last()) + if is_http_tracker(trackers.last()) {
            seq![trackers.last()]
        } else {
            seq![]
        }
    }
}

pub open spec fn texts(v: Seq<String>) -> Seq<Seq<char>> {
    v.map_values(|s: String| s@)
}

/// The announce URLs of one announce round: one per HTTP(S) tracker, in order; the
/// other trackers are skipped.
pub fn announce_urls(trackers: &[String], info_hash: &[u8; 20], listen_port: u16) -> (r: Vec<
    String,
>)
    ensures
        r@.len() == http_trackers(texts(trackers@)).len(),
        forall|k: int|
            0 <= k < r@.len() ==> is_started_announce(
                #[trigger] r@[k]@,
                http_trackers(texts(trackers@))[k],
                info_hash@,
                listen_port,
            ),
{
    let mut out: Vec<String> = Vec::new();
    let mut i: usize = 0;
    while i < trackers.len()
        invariant
            i <= trackers@.len(),
            out@.len() == http_trackers(texts(trackers@.take(i as int))).len(),
            forall|k: int|
                0 <= k < out@.len() ==> is_started_announce(
                    #[trigger] out@[k]@,
                    http_trackers(texts(trackers@.take(i as int)))[k],
                    info_hash@,
                    listen_port,
                ),
        decreases trackers@.len() - i,
    {
        let ghost before = http_trackers(texts(trackers@.take(i as int)));
        assert(texts(trackers@.take(i + 1)).drop_last() =~= texts(trackers@.take(i as int)));
        assert(texts(trackers@.take(i + 1)).last() == trackers@[i as int]@);
        let t = trackers[i].as_str();
        if is_http_tracker_url(t) {
            let url = announce_url(t, info_hash, listen_port);
            out.push(url);
            assert(http_trackers(texts(trackers@.take(i + 1))) =~= before.push(trackers@[i as int]@));
        } else {
            assert(http_trackers(texts(trackers@.take(i + 1))) =~= before);
        }
        i = i + 1;
    }
    assert(trackers@.take(i as int) =~= trackers@);
    out
}

} // verus!

verus! {

/// `&uploaded=`
pub const UPLOADED_FIELD: [u8; 10] = [
    38, 117, 112, 108, 111, 97, 100, 101, 100, 61,
];

/// `&downloaded=`
pub const DOWNLOADED_FIELD: [u8; 12] = [
    38, 100, 111, 119, 110, 108, 111, 97, 100, 101, 100, 61,
];

/// `&left=`
pub const LEFT_FIELD: [u8; 6] = [
    38, 108, 101, 102, 116, 61,
];

/// `&event=`
pub const EVENT_FIELD: [u8; 7] = [
    38, 101, 118, 101, 110, 116, 61,
];

/// `&compact=1`
pub const COMPACT_TAIL: [u8; 10] = [
    38, 99, 111, 109, 112, 97, 99, 116, 61, 49,
];

/// Parameters of an announce forwarded on behalf of a torrent of the session.
#[derive(Clone, Debug)]
pub struct AnnounceParams {
    pub info_hash: [u8; 20],
    pub peer_id: [u8; 20],
    pub port: u16,
    pub uploaded: u64,
    pub downloaded: u64,
    pub left: u64,
    pub event: Option<String>,
}

/// The announce URL that forwards `p` to `tracker`: ids percent-encoded, counters in
/// decimal, the event as it was received, and a request for the compact peer list.
pub open spec fn forwarded_text(tracker: Seq<char>, p: AnnounceParams) -> Seq<char> {
    tracker + seq![query_separator(tracker)] + ascii_chars(INFO_HASH_FIELD@ + pct_encoded(
        p.info_hash@,
    ) + PEER_ID_FIELD@ + pct_encoded(p.peer_id@) + PORT_FIELD@ + dec_digits(p.port as nat)
        + UPLOADED_FIELD@ + dec_digits(p.uploaded as nat) + DOWNLOADED_FIELD@ + dec_digits(
        p.downloaded as nat,
    ) + LEFT_FIELD@ + dec_digits(p.left as nat)) + match p.event {
        Some(e) => ascii_chars(EVENT_FIELD@) + e@,
        None => seq![],
    } + ascii_chars(COMPACT_TAIL@)
}

proof fn lemma_dec_below_128(n: nat)
    ensures
        forall|i: int| 0 <= i < dec_digits(n).len() ==> #[trigger] dec_digits(n)[i] < 128,
{
    lemma_dec_digits_ascii(n);
}

/// Appends the decimal digits of `n`, tracking that the buffer stays ASCII.
fn push_dec_ascii(out: &mut Vec<u8>, n: u64)
    requires
        forall|i: int| 0 <= i < old(out)@.len() ==> old(out)@[i] < 128,
    ensures
        final(out)@ == old(out)@ + dec_digits(n as nat),
        forall|i: int| 0 <= i < final(out)@.len() ==> final(out)@[i] < 128,
{
    let ghost before = out@;
    push_dec(out, n);
    proof {
        lemma_dec_below_128(n as nat);
        assert forall|i: int| 0 <= i < out@.len() implies out@[i] < 128 by {
            if i >= before.len() {
                assert(out@[i] == dec_digits(n as nat)[i - before.len()]);
            }
        }
    }
}

/// Appends the percent-encoding of `b`, tracking that the buffer stays ASCII.
fn push_pct_ascii(out: &mut Vec<u8>, b: &[u8])
    requires
        forall|i: int| 0 <= i < old(out)@.len() ==> old(out)@[i] < 128,
    ensures
        final(out)@ == old(out)@ + pct_encoded(b@),
        forall|i: int| 0 <= i < final(out)@.len() ==> final(out)@[i] < 128,
{
    let ghost before = out@;
    push_pct_encoded(out, b);
    proof {
        lemma_pct_encoded_ascii(b@);
        assert forall|i: int| 0 <= i < out@.len() implies out@[i] < 128 by {
            if i >= before.len() {
                assert(out@[i] == pct_encoded(b@)[i - before.len()]);
            }
        }
    }
}

/// Appends ASCII constant bytes, tracking that the buffer stays ASCII.
fn push_const_ascii(out: &mut Vec<u8>, c: &[u8])
    requires
        forall|i: int| 0 <= i < old(out)@.len() ==> old(out)@[i] < 128,
        forall|i: int| 0 <= i < c@.len() ==> c@[i] < 128,
    ensures
        final(out)@ == old(out)@ + c@,
        forall|i: int| 0 <= i < final(out)@.len() ==> final(out)@[i] < 128,
{
    let ghost before = out@;
    out.extend_from_slice(c);
    assert forall|i: int| 0 <= i < out@.len() implies out@[i] < 128 by {
        if i >= before.len() {
            assert(out@[i] == c@[i - before.len()]);
        }
    }
}

/// The announce URL that forwards `params` to `tracker`.
pub fn forwarded_announce_url(tracker: &str, params: &AnnounceParams) -> (r: String)
    ensures
        r@ == forwarded_text(tracker@, *params),
{
    let mut s = String::new();
    s.append(tracker);
    if contains_char(tracker, '?') {
        push_char(&mut s, '&');
    } else {
        push_char(&mut s, '?');
    }
    let mut q: Vec<u8> = Vec::new();
    push_const_ascii(&mut q, INFO_HASH_FIELD.as_slice());
    push_pct_ascii(&mut q, params.info_hash.as_slice());
    push_const_ascii(&mut q, PEER_ID_FIELD.as_slice());
    push_pct_ascii(&mut q, params.peer_id.as_slice());
    push_const_ascii(&mut q, PORT_FIELD.as_slice());
    push_dec_ascii(&mut q, params.port as u64);
    push_const_ascii(&mut q, UPLOADED_FIELD.as_slice());
    push_dec_ascii(&mut q, params.uploaded);
    push_const_ascii(&mut q, DOWNLOADED_FIELD.as_slice());
    push_dec_ascii(&mut q, params.downloaded);
    push_const_ascii(&mut q, LEFT_FIELD.as_slice());
    push_dec_ascii(&mut q, params.left);
    append_ascii(&mut s, q.as_slice());
    match &params.event {
        Some(e) => {
            append_ascii(&mut s, EVENT_FIELD.as_slice());
            s.append(e.as_str());
        },
        None => {},
    }
    append_ascii(&mut s, COMPACT_TAIL.as_slice());
    assert(s@ =~= forwarded_text(tracker@, *params));
    s
}

/// The forwarding URLs for a list of trackers.
pub open spec fn forwarded_all(trackers: Seq<Seq<char>>, p: AnnounceParams) -> Seq<Seq<char>>
    decreases trackers.len(),
{
    if trackers.len() == 0 {
        seq![]
    } else {
        forwarded_all(trackers.drop_last(), p).push(forwarded_text(trackers.last(), p))
    }
}

/// The forwarding URLs of one proxied announce: one per HTTP(S) tracker, in order.
pub fn forwarded_announce_urls(trackers: &[String], params: &AnnounceParams) -> (r: Vec<String>)
    ensures
        texts(r@) == forwarded_all(http_trackers(texts(trackers@)), *params),
{
    let mut out: Vec<String> = Vec::new();
    let mut i: usize = 0;
    while i < trackers.len()
        invariant
            i <= trackers@.len(),
            texts(out@) == forwarded_all(http_trackers(texts(trackers@.take(i as int))), *params),
        decreases trackers@.len() - i,
    {
        let ghost before = http_trackers(texts(trackers@.take(i as int)));
        assert(texts(trackers@.take(i + 1)).drop_last() =~= texts(trackers@.take(i as int)));
        assert(texts(trackers@.take(i + 1)).last() == trackers@[i as int]@);
        let t = trackers[i].as_str();
        let ghost prev = out@;
        if is_http_tracker_url(t) {
            let url = forwarded_announce_url(t, params);
            out.push(url);
            let ghost now = http_trackers(texts(trackers@.take(i + 1)));
            assert(now =~= before.push(trackers@[i as int]@));
            assert(now.drop_last() =~= before);
            assert(texts(out@) =~= texts(prev).push(url@));
        } else {
            assert(http_trackers(texts(trackers@.take(i + 1))) =~= before);
        }
        i = i + 1;
    }
    assert(trackers@.take(i as int) =~= trackers@);
    out
}

} // verus!
