//! Peer addresses and the compact peer lists of tracker responses
//! (BEP 23 `peers` as 6-byte entries, BEP 7 `peers6` as 18-byte entries).

use vstd::prelude::*;
use vstd::slice::slice_subrange;

verus! {

/// A peer endpoint: an IPv4 or IPv6 address (network byte order) and a port.
#[derive(Clone, Copy, Debug, PartialEq, Eq)]
pub enum PeerAddr {
    V4 { ip: [u8; 4], port: u16 },
    V6 { ip: [u8; 16], port: u16 },
}

impl PeerAddr {
    pub open spec fn port_of(self) -> u16 {
        match self {
            PeerAddr::V4 { port, .. } => port,
            PeerAddr::V6 { port, .. } => port,
        }
    }

    pub open spec fn is_v4(self) -> bool {
        self is V4
    }
}

/// Big-endian value of two bytes.
pub open spec fn be16(hi: u8, lo: u8) -> u16 {
    (hi as nat * 256 + lo as nat) as u16
}

/// Index of the first occurrence of `key` in `buf` at or after `from`.
pub open spec fn find_from(buf: Seq<u8>, key: Seq<u8>, from: int) -> Option<int>
    decreases buf.len() + 1 - from,
{
    if from < 0 || from + key.len() > buf.len() {
        None
    } else if buf.subrange(from, from + key.len()) == key {
        Some(from)
    } else {
        find_from(buf, key, from + 1)
    }
}

/// Index of the first occurrence of `key` in `buf`.
pub open spec fn find_first(buf: Seq<u8>, key: Seq<u8>) -> Option<int> {
    find_from(buf, key, 0)
}

pub open spec fn is_digit(b: u8) -> bool {
    48 <= b <= 57
}

/// Value of a string of decimal digits.
pub open spec fn digits_value(d: Seq<u8>) -> nat
    decreases d.len(),
{
    if d.len() == 0 {
        0
    } else {
        digits_value(d.drop_last()) * 10 + (d.last() - 48) as nat
    }
}

/// The digits of an unsigned number, after an optional leading `+`.
pub open spec fn unsigned_digits(b: Seq<u8>) -> Seq<u8> {
    if b.len() > 0 && b[0] == 43 {
        b.skip(1)
    } else {
        b
    }
}

pub open spec fn all_digits(d: Seq<u8>) -> bool {
    forall|i: int| 0 <= i < d.len() ==> is_digit(#[trigger] d[i])
}

/// What `str::parse` gives for an unsigned integer type whose largest value is `max`:
/// an optional `+`, then one or more decimal digits whose value does not exceed `max`.
pub open spec fn parse_uint(b: Seq<u8>, max: nat) -> Option<nat> {
    let d = unsigned_digits(b);
    if d.len() > 0 && all_digits(d) && digits_value(d) <= max {
        Some(digits_value(d))
    } else {
        None
    }
}

/// The byte string that follows the first `key` in `buf`, read as `<len>:<bytes>`.
pub open spec fn bencode_bytes_after(buf: Seq<u8>, key: Seq<u8>) -> Option<Seq<u8>> {
    match find_first(buf, key) {
        None => None,
        Some(p) => {
            let rest = buf.skip(p + key.len());
            match find_first(rest, seq![58u8]) {
                None => None,
                Some(colon) => match parse_uint(rest.take(colon), usize::MAX as nat) {
                    None => None,
                    Some(len) => if colon + 1 + len <= rest.len() && colon + 1 + len
                        <= usize::MAX {
                        Some(rest.subrange(colon + 1, colon + 1 + len))
                    } else {
                        None
                    },
                },
            }
        },
    }
}

pub proof fn lemma_digits_value_prefix(d: Seq<u8>, j: int)
    requires
        0 <= j <= d.len(),
    ensures
        digits_value(d.take(j)) <= digits_value(d),
    decreases d.len(),
{
    if j < d.len() {
        lemma_digits_value_prefix(d.drop_last(), j);
        assert(d.drop_last().take(j) =~= d.take(j));
    } else {
        assert(d.take(j) =~= d);
    }
}

/// First index of `key` in `buf`, scanning windows left to right.
pub fn find_window(buf: &[u8], key: &[u8]) -> (r: Option<usize>)
    requires
        key@.len() > 0,
    ensures
        r matches Some(p) ==> find_first(buf@, key@) == Some(p as int) && p + key@.len()
            <= buf@.len() && buf@.subrange(p as int, p + key@.len()) == key@,
        r is None ==> find_first(buf@, key@) is None,
{
    let mut j: usize = 0;
    if key.len() > buf.len() {
        return None;
    }
    let last = buf.len() - key.len();
    while j <= last
        invariant
            key@.len() > 0,
            key@.len() <= buf@.len(),
            buf@.len() <= usize::MAX,
            last == buf@.len() - key@.len(),
            j <= last + 1,
            find_first(buf@, key@) == find_from(buf@, key@, j as int),
        decreases last + 1 - j,
    {
        let mut k: usize = 0;
        while k < key.len()
            invariant
                j <= last,
                j + key@.len() <= buf@.len(),
                buf@.len() <= usize::MAX,
                key@.len() <= buf@.len(),
                last == buf@.len() - key@.len(),
                k <= key@.len(),
                buf@.subrange(j as int, j + k) =~= key@.subrange(0, k as int),
            ensures
                k == key@.len() || (k < key@.len() && buf@[j + k] != key@[k as int]),
            decreases key@.len() - k,
        {
            if buf[j + k] != key[k] {
                break;
            }
            assert(buf@.subrange(j as int, j + k + 1) =~= buf@.subrange(j as int, j + k).push(
                buf@[j + k],
            ));
            assert(key@.subrange(0, k + 1) =~= key@.subrange(0, k as int).push(key@[k as int]));
            k = k + 1;
        }
        if k == key.len() {
            assert(key@.subrange(0, key@.len() as int) =~= key@);
            return Some(j);
        }
        assert(buf@.subrange(j as int, j + key@.len())[k as int] != key@[k as int]);
        j = j + 1;
    }
    None
}

/// `str::parse` into an unsigned integer type whose largest value is `max`.
pub fn parse_bounded(b: &[u8], max: u64) -> (r: Option<u64>)
    ensures
        r matches Some(v) ==> parse_uint(b@, max as nat) == Some(v as nat),
        r is None ==> parse_uint(b@, max as nat) is None,
{
    let start: usize = if b.len() > 0 && b[0] == 43 {
        1
    } else {
        0
    };
    let ghost d = unsigned_digits(b@);
    assert(d =~= b@.subrange(start as int, b@.len() as int));
    if start >= b.len() {
        assert(d.len() == 0);
        return None;
    }
    let mut v: u64 = 0;
    let mut i: usize = start;
    while i < b.len()
        invariant
            start <= i <= b@.len(),
            d == unsigned_digits(b@),
            d =~= b@.subrange(start as int, b@.len() as int),
            forall|m: int| 0 <= m < i - start ==> is_digit(#[trigger] d[m]),
            v as nat == digits_value(d.take(i - start)),
            v <= max,
        decreases b@.len() - i,
    {
        let c = b[i];
        if c < 48 || c > 57 {
            assert(!is_digit(d[i - start]));
            assert(!all_digits(d));
            return None;
        }
        assert(d.take(i - start + 1).drop_last() =~= d.take(i - start));
        let digit = (c - 48) as u64;
        if digit > max || v > (max - digit) / 10 {
            proof {
                assert(d.take(i - start + 1).last() == c);
                assert(digits_value(d.take(i - start + 1)) == v * 10 + digit);
                if digit <= max {
                    assert(v * 10 + digit > max) by (nonlinear_arith)
                        requires
                            v > (max - digit) / 10,
                            digit <= 9,
                            digit <= max,
                    ;
                }
                lemma_digits_value_prefix(d, i - start + 1);
            }
            return None;
        }
        proof {
            assert(v * 10 + digit <= max) by (nonlinear_arith)
                requires
                    v <= (max - digit) / 10,
                    digit <= max,
            ;
        }
        v = v * 10 + digit;
        i = i + 1;
    }
    assert(d.take(i - start) =~= d);
    Some(v)
}

/// `str::parse::<usize>` on the given bytes: `None` unless they spell a number that fits.
pub(crate) fn parse_usize(b: &[u8]) -> (r: Option<usize>)
    ensures
        r matches Some(v) ==> parse_uint(b@, usize::MAX as nat) == Some(v as nat),
        r is None ==> parse_uint(b@, usize::MAX as nat) is None,
{
    match parse_bounded(b, usize::MAX as u64) {
        Some(v) => Some(v as usize),
        None => None,
    }
}

/// Finds the bencoded `key` and returns the byte-string value following it
/// (`<len>:<bytes>`). Tracker responses are small flat dictionaries, so a plain search
/// for the `N:key` pattern suffices; when the length prefix does not parse or the value
/// would run past the end, the result is `None`.
pub fn find_bencode_bytes<'a>(buf: &'a [u8], key: &[u8]) -> (r: Option<&'a [u8]>)
    requires
        key@.len() > 0,
    ensures
        r matches Some(v) ==> bencode_bytes_after(buf@, key@) == Some(v@),
        r is None ==> bencode_bytes_after(buf@, key@) is None,
{
    let p = match find_window(buf, key) {
        Some(p) => p,
        None => return None,
    };
    let blen = buf.len();
    assert(p + key@.len() <= buf@.len());
    let after_key = p + key.len();
    let rest = slice_subrange(buf, after_key, blen);
    assert(rest@ =~= buf@.skip(p + key@.len()));
    let colon_key: [u8; 1] = [58u8];
    assert(colon_key@ =~= seq![58u8]);
    let colon = match find_window(rest, colon_key.as_slice()) {
        Some(c) => c,
        None => return None,
    };
    let digits = slice_subrange(rest, 0, colon);
    assert(digits@ =~= rest@.take(colon as int));
    let len = match parse_usize(digits) {
        Some(l) => l,
        None => return None,
    };
    if len > usize::MAX - (colon + 1) {
        return None;
    }
    let end = colon + 1 + len;
    if end > rest.len() {
        return None;
    }
    Some(slice_subrange(rest, colon + 1, end))
}

/// Decodes `len / width` whole entries of a compact peer list.
pub open spec fn compact_entries(v: Seq<u8>, width: int) -> Seq<PeerAddr>
    decreases v.len(),
{
    if width <= 0 || v.len() < width {
        seq![]
    } else {
        let rest = compact_entries(v.skip(width), width);
        let port = be16(v[width - 2], v[width - 1]);
        if port == 0 {
            rest
        } else if width == 6 {
            seq![PeerAddr::V4 { ip: [v[0], v[1], v[2], v[3]], port }] + rest
        } else {
            seq![
                PeerAddr::V6 {
                    ip: [
                        v[0],
                        v[1],
                        v[2],
                        v[3],
                        v[4],
                        v[5],
                        v[6],
                        v[7],
                        v[8],
                        v[9],
                        v[10],
                        v[11],
                        v[12],
                        v[13],
                        v[14],
                        v[15],
                    ],
                    port,
                },
            ] + rest
        }
    }
}

pub open spec fn peers_key() -> Seq<u8> {
    seq![53u8, 58, 112, 101, 101, 114, 115]
}

pub open spec fn peers6_key() -> Seq<u8> {
    seq![54u8, 58, 112, 101, 101, 114, 115, 54]
}

/// Peers of a tracker response: the IPv4 entries of `5:peers`, then the IPv6 entries of
/// `6:peers6`; trailing partial entries and entries with port 0 are left out.
pub open spec fn compact_peers(body: Seq<u8>) -> Seq<PeerAddr> {
    let v4 = match bencode_bytes_after(body, peers_key()) {
        Some(v) => compact_entries(v, 6),
        None => seq![],
    };
    let v6 = match bencode_bytes_after(body, peers6_key()) {
        Some(v) => compact_entries(v, 18),
        None => seq![],
    };
    v4 + v6
}

} // verus!

verus! {

fn push_compact_entries(out: &mut Vec<PeerAddr>, v: &[u8], width: usize)
    requires
        width == 6 || width == 18,
    ensures
        final(out)@ == old(out)@ + compact_entries(v@, width as int),
{
    let ghost start = out@;
    let mut i: usize = 0;
    let n = v.len();
    assert(v@.skip(0) =~= v@);
    while width <= n - i
        invariant
            width == 6 || width == 18,
            i <= v@.len(),
            n == v@.len(),
            out@ + compact_entries(v@.skip(i as int), width as int) == start + compact_entries(
                v@,
                width as int,
            ),
        decreases v@.len() - i,
    {
        let ghost rest = v@.skip(i as int);
        assert(rest.skip(width as int) =~= v@.skip(i + width));
        let port = (v[i + width - 2] as u16) * 256 + v[i + width - 1] as u16;
        assert(port == be16(rest[width - 2], rest[width - 1]));
        if port != 0 {
            if width == 6 {
                let p = PeerAddr::V4 { ip: [v[i], v[i + 1], v[i + 2], v[i + 3]], port };
                assert(p == PeerAddr::V4 { ip: [rest[0], rest[1], rest[2], rest[3]], port });
                out.push(p);
            } else {
                let p = PeerAddr::V6 {
                    ip: [
                        v[i],
                        v[i + 1],
                        v[i + 2],
                        v[i + 3],
                        v[i + 4],
                        v[i + 5],
                        v[i + 6],
                        v[i + 7],
                        v[i + 8],
                        v[i + 9],
                        v[i + 10],
                        v[i + 11],
                        v[i + 12],
                        v[i + 13],
                        v[i + 14],
                        v[i + 15],
                    ],
                    port,
                };
                out.push(p);
            }
        }
        i = i + width;
    }
    assert(compact_entries(v@.skip(i as int), width as int) =~= seq![]);
}

/// Extracts peers from a bencoded tracker response in compact form: the `peers` string
/// as 6-byte IPv4 entries, then the `peers6` string as 18-byte IPv6 entries. A response
/// without these keys, or in the non-compact list form, yields no peers.
pub fn parse_compact_peers(body: &[u8]) -> (r: Vec<PeerAddr>)
    ensures
        r@ == compact_peers(body@),
{
    let mut out: Vec<PeerAddr> = Vec::new();
    let k4: [u8; 7] = [53, 58, 112, 101, 101, 114, 115];
    assert(k4@ =~= peers_key());
    if let Some(v4) = find_bencode_bytes(body, k4.as_slice()) {
        push_compact_entries(&mut out, v4, 6);
    }
    let k6: [u8; 8] = [54, 58, 112, 101, 101, 114, 115, 54];
    assert(k6@ =~= peers6_key());
    if let Some(v6) = find_bencode_bytes(body, k6.as_slice()) {
        push_compact_entries(&mut out, v6, 18);
    }
    assert(out@ =~= compact_peers(body@));
    out
}

} // verus!

verus! {

pub proof fn lemma_find_from_none(buf: Seq<u8>, key: Seq<u8>, j: int)
    requires
        0 <= j,
        forall|m: int|
            j <= m && m + key.len() <= buf.len() ==> #[trigger] buf.subrange(m, m + key.len()) != key,
    ensures
        find_from(buf, key, j) is None,
    decreases buf.len() + 1 - j,
{
    if j + key.len() <= buf.len() {
        lemma_find_from_none(buf, key, j + 1);
    }
}

pub proof fn lemma_find_from_some(buf: Seq<u8>, key: Seq<u8>, j: int, p: int)
    requires
        0 <= j <= p,
        p + key.len() <= buf.len(),
        buf.subrange(p, p + key.len()) == key,
        forall|m: int| j <= m < p ==> #[trigger] buf.subrange(m, m + key.len()) != key,
    ensures
        find_from(buf, key, j) == Some(p),
    decreases p - j,
{
    if j < p {
        lemma_find_from_some(buf, key, j + 1, p);
    }
}

pub proof fn lemma_find_from_none_means_absent(buf: Seq<u8>, key: Seq<u8>, j: int, m: int)
    requires
        0 <= j <= m,
        m + key.len() <= buf.len(),
        find_from(buf, key, j) is None,
    ensures
        buf.subrange(m, m + key.len()) != key,
    decreases m - j,
{
    if j < m {
        lemma_find_from_none_means_absent(buf, key, j + 1, m);
    }
}

/// Reading back a decimal spelling gives the number.
pub proof fn lemma_parse_dec_digits(n: nat, max: nat)
    requires
        n <= max,
    ensures
        parse_uint(crate::textual::dec_digits(n), max) == Some(n),
        all_digits(crate::textual::dec_digits(n)),
        digits_value(crate::textual::dec_digits(n)) == n,
    decreases n,
{
    let d = crate::textual::dec_digits(n);
    crate::textual::lemma_dec_digits_ascii(n);
    if n >= 10 {
        lemma_parse_dec_digits(n / 10, max);
        assert(d.drop_last() =~= crate::textual::dec_digits(n / 10));
        assert(d.last() == 48 + n % 10);
        assert(digits_value(d) == digits_value(crate::textual::dec_digits(n / 10)) * 10 + n % 10);
        assert((n / 10) * 10 + n % 10 == n);
    } else {
        assert(d.drop_last() =~= seq![]);
        assert(digits_value(d.drop_last()) == 0);
    }
    assert(d[0] != 43);
    assert(unsigned_digits(d) == d);
}

} // verus!

verus! {

/// Lexicographic order of byte strings of the same length.
pub open spec fn bytes_lt(a: Seq<u8>, b: Seq<u8>) -> bool
    decreases a.len(),
{
    if a.len() == 0 || b.len() == 0 {
        false
    } else if a[0] != b[0] {
        a[0] < b[0]
    } else {
        bytes_lt(a.skip(1), b.skip(1))
    }
}

/// The order of socket addresses: every IPv4 address before every IPv6 address, then by
/// address octets, then by port.
pub open spec fn peer_lt(a: PeerAddr, b: PeerAddr) -> bool {
    match (a, b) {
        (PeerAddr::V4 { .. }, PeerAddr::V6 { .. }) => true,
        (PeerAddr::V6 { .. }, PeerAddr::V4 { .. }) => false,
        (PeerAddr::V4 { ip: i1, port: p1 }, PeerAddr::V4 { ip: i2, port: p2 }) => bytes_lt(i1@, i2@)
            || (i1@ == i2@ && p1 < p2),
        (PeerAddr::V6 { ip: i1, port: p1 }, PeerAddr::V6 { ip: i2, port: p2 }) => bytes_lt(i1@, i2@)
            || (i1@ == i2@ && p1 < p2),
    }
}

proof fn lemma_bytes_lt_irreflexive(a: Seq<u8>)
    ensures
        !bytes_lt(a, a),
    decreases a.len(),
{
    if a.len() > 0 {
        lemma_bytes_lt_irreflexive(a.skip(1));
    }
}

proof fn lemma_bytes_lt_transitive(a: Seq<u8>, b: Seq<u8>, c: Seq<u8>)
    requires
        a.len() == b.len() == c.len(),
        bytes_lt(a, b),
        bytes_lt(b, c),
    ensures
        bytes_lt(a, c),
    decreases a.len(),
{
    if a[0] == b[0] && b[0] == c[0] {
        lemma_bytes_lt_transitive(a.skip(1), b.skip(1), c.skip(1));
    }
}

proof fn lemma_bytes_lt_total(a: Seq<u8>, b: Seq<u8>)
    requires
        a.len() == b.len(),
        a != b,
    ensures
        bytes_lt(a, b) || bytes_lt(b, a),
    decreases a.len(),
{
    if a.len() == 0 {
        assert(a =~= b);
    } else if a[0] == b[0] {
        if a.skip(1) == b.skip(1) {
            assert(a =~= b) by {
                assert forall|i: int| 0 <= i < a.len() implies a[i] == b[i] by {
                    if i > 0 {
                        assert(a[i] == a.skip(1)[i - 1]);
                        assert(b[i] == b.skip(1)[i - 1]);
                    }
                }
            }
        }
        lemma_bytes_lt_total(a.skip(1), b.skip(1));
    }
}

proof fn lemma_bytes_lt_asymmetric(a: Seq<u8>, b: Seq<u8>)
    requires
        bytes_lt(a, b),
    ensures
        !bytes_lt(b, a),
    decreases a.len(),
{
    if a[0] == b[0] {
        lemma_bytes_lt_asymmetric(a.skip(1), b.skip(1));
    }
}

/// `peer_lt` is a strict total order.
pub proof fn lemma_peer_order(a: PeerAddr, b: PeerAddr, c: PeerAddr)
    ensures
        !peer_lt(a, a),
        peer_lt(a, b) ==> !peer_lt(b, a),
        peer_lt(a, b) && peer_lt(b, c) ==> peer_lt(a, c),
        a != b ==> peer_lt(a, b) || peer_lt(b, a),
{
    match a {
        PeerAddr::V4 { ip, .. } => lemma_bytes_lt_irreflexive(ip@),
        PeerAddr::V6 { ip, .. } => lemma_bytes_lt_irreflexive(ip@),
    }
    match (a, b) {
        (PeerAddr::V4 { ip: i1, port: p1 }, PeerAddr::V4 { ip: i2, port: p2 }) => {
            if bytes_lt(i1@, i2@) {
                lemma_bytes_lt_asymmetric(i1@, i2@);
            }
            if a != b {
                if i1@ == i2@ {
                    assert(i1 =~= i2);
                } else {
                    lemma_bytes_lt_total(i1@, i2@);
                }
            }
            if bytes_lt(i1@, i2@) && i1@ == i2@ {
                lemma_bytes_lt_irreflexive(i1@);
            }
            if bytes_lt(i2@, i1@) && i1@ == i2@ {
                lemma_bytes_lt_irreflexive(i1@);
            }
        },
        (PeerAddr::V6 { ip: i1, port: p1 }, PeerAddr::V6 { ip: i2, port: p2 }) => {
            if bytes_lt(i1@, i2@) {
                lemma_bytes_lt_asymmetric(i1@, i2@);
            }
            if a != b {
                if i1@ == i2@ {
                    assert(i1 =~= i2);
                } else {
                    lemma_bytes_lt_total(i1@, i2@);
                }
            }
            if bytes_lt(i1@, i2@) && i1@ == i2@ {
                lemma_bytes_lt_irreflexive(i1@);
            }
            if bytes_lt(i2@, i1@) && i1@ == i2@ {
                lemma_bytes_lt_irreflexive(i1@);
            }
        },
        _ => {},
    }
    match (a, b, c) {
        (PeerAddr::V4 { ip: i1, .. }, PeerAddr::V4 { ip: i2, .. }, PeerAddr::V4 { ip: i3, .. }) => {
            if bytes_lt(i1@, i2@) && bytes_lt(i2@, i3@) {
                lemma_bytes_lt_transitive(i1@, i2@, i3@);
            }
        },
        (PeerAddr::V6 { ip: i1, .. }, PeerAddr::V6 { ip: i2, .. }, PeerAddr::V6 { ip: i3, .. }) => {
            if bytes_lt(i1@, i2@) && bytes_lt(i2@, i3@) {
                lemma_bytes_lt_transitive(i1@, i2@, i3@);
            }
        },
        _ => {},
    }
}

} // verus!

verus! {

fn octets_lt(a: &[u8], b: &[u8]) -> (r: bool)
    requires
        a@.len() == b@.len(),
    ensures
        r == bytes_lt(a@, b@),
{
    let mut i: usize = 0;
    assert(a@.skip(0) =~= a@);
    assert(b@.skip(0) =~= b@);
    assert(a@.take(0) =~= b@.take(0));
    while i < a.len()
        invariant
            a@.len() == b@.len(),
            i <= a@.len(),
            a@.take(i as int) == b@.take(i as int),
            bytes_lt(a@, b@) == bytes_lt(a@.skip(i as int), b@.skip(i as int)),
        decreases a@.len() - i,
    {
        assert(a@.skip(i as int)[0] == a@[i as int]);
        assert(b@.skip(i as int)[0] == b@[i as int]);
        if a[i] != b[i] {
            return a[i] < b[i];
        }
        assert(a@.skip(i as int).skip(1) =~= a@.skip(i + 1));
        assert(b@.skip(i as int).skip(1) =~= b@.skip(i + 1));
        assert(a@.take(i + 1) =~= a@.take(i as int).push(a@[i as int]));
        assert(b@.take(i + 1) =~= b@.take(i as int).push(b@[i as int]));
        i = i + 1;
    }
    false
}

/// Whether `a` comes before `b` in socket-address order.
pub fn peer_less(a: &PeerAddr, b: &PeerAddr) -> (r: bool)
    ensures
        r == peer_lt(*a, *b),
{
    match (a, b) {
        (PeerAddr::V4 { .. }, PeerAddr::V6 { .. }) => true,
        (PeerAddr::V6 { .. }, PeerAddr::V4 { .. }) => false,
        (PeerAddr::V4 { ip: i1, port: p1 }, PeerAddr::V4 { ip: i2, port: p2 }) => {
            if octets_lt(i1.as_slice(), i2.as_slice()) {
                true
            } else if octets_lt(i2.as_slice(), i1.as_slice()) {
                proof {
                    lemma_bytes_lt_asymmetric(i2@, i1@);
                    if i1@ == i2@ {
                        lemma_bytes_lt_irreflexive(i1@);
                    }
                }
                false
            } else {
                proof {
                    if i1@ != i2@ {
                        lemma_bytes_lt_total(i1@, i2@);
                    }
                }
                *p1 < *p2
            }
        },
        (PeerAddr::V6 { ip: i1, port: p1 }, PeerAddr::V6 { ip: i2, port: p2 }) => {
            if octets_lt(i1.as_slice(), i2.as_slice()) {
                true
            } else if octets_lt(i2.as_slice(), i1.as_slice()) {
                proof {
                    lemma_bytes_lt_asymmetric(i2@, i1@);
                    if i1@ == i2@ {
                        lemma_bytes_lt_irreflexive(i1@);
                    }
                }
                false
            } else {
                proof {
                    if i1@ != i2@ {
                        lemma_bytes_lt_total(i1@, i2@);
                    }
                }
                *p1 < *p2
            }
        },
    }
}

/// The peers strictly increase in socket-address order (hence hold no duplicates).
pub open spec fn strictly_sorted(s: Seq<PeerAddr>) -> bool {
    forall|i: int, j: int| 0 <= i < j < s.len() ==> peer_lt(#[trigger] s[i], #[trigger] s[j])
}

/// The union of the peers that trackers returned, sorted in socket-address order with
/// duplicates removed.
pub fn sort_dedup_peers(peers: &[PeerAddr]) -> (r: Vec<PeerAddr>)
    ensures
        strictly_sorted(r@),
        forall|p: PeerAddr| r@.contains(p) <==> peers@.contains(p),
{
    let mut out: Vec<PeerAddr> = Vec::new();
    let mut k: usize = 0;
    while k < peers.len()
        invariant
            k <= peers@.len(),
            strictly_sorted(out@),
            forall|p: PeerAddr| out@.contains(p) <==> peers@.take(k as int).contains(p),
        decreases peers@.len() - k,
    {
        let p = peers[k];
        let mut j: usize = 0;
        while j < out.len() && peer_less(&out[j], &p)
            invariant
                j <= out@.len(),
                forall|m: int| 0 <= m < j ==> peer_lt(#[trigger] out@[m], p),
            decreases out@.len() - j,
        {
            j = j + 1;
        }
        let ghost before = out@;
        proof {
            assert(peers@.take(k + 1) =~= peers@.take(k as int).push(p));
        }
        if j < out.len() && !peer_less(&p, &out[j]) {
            proof {
                lemma_peer_order(out@[j as int], p, p);
                assert(out@[j as int] == p);
                assert forall|q: PeerAddr| out@.contains(q) <==> peers@.take(k + 1).contains(q) by {
                    if q == p {
                        assert(out@[j as int] == q);
                    }
                    if peers@.take(k + 1).contains(q) && q != p {
                        let idx = choose|idx: int| 0 <= idx < k + 1 && #[trigger] peers@.take(k + 1)[idx] == q;
                        assert(peers@.take(k as int)[idx] == q);
                    }
                }
            }
        } else {
            out.insert(j, p);
            proof {
                assert forall|a: int, b: int| 0 <= a < b < out@.len() implies peer_lt(
                    #[trigger] out@[a],
                    #[trigger] out@[b],
                ) by {
                    if b == j as int {
                        assert(out@[a] == before[a]);
                    } else if a == j as int {
                        assert(out@[b] == before[b - 1]);
                        if j < before.len() {
                            lemma_peer_order(p, before[j as int], before[j as int]);
                            if b - 1 > j {
                                lemma_peer_order(p, before[j as int], before[b - 1]);
                            }
                        }
                    } else if a < j && b > j {
                        assert(out@[a] == before[a]);
                        assert(out@[b] == before[b - 1]);
                    } else if b < j {
                        assert(out@[a] == before[a]);
                        assert(out@[b] == before[b]);
                    } else {
                        assert(out@[a] == before[a - 1]);
                        assert(out@[b] == before[b - 1]);
                    }
                }
                assert forall|q: PeerAddr| out@.contains(q) <==> peers@.take(k + 1).contains(q) by {
                    if out@.contains(q) {
                        let idx = choose|idx: int| 0 <= idx < out@.len() && #[trigger] out@[idx] == q;
                        if idx == j {
                            assert(peers@.take(k + 1)[k as int] == q);
                        } else {
                            if idx < j {
                                assert(before[idx] == q);
                            } else {
                                assert(before[idx - 1] == q);
                            }
                            assert(before.contains(q));
                            assert(peers@.take(k as int).contains(q));
                            let w = choose|w: int| 0 <= w < k && #[trigger] peers@.take(k as int)[w] == q;
                            assert(peers@.take(k + 1)[w] == q);
                        }
                    }
                    if peers@.take(k + 1).contains(q) {
                        if q == p {
                            assert(out@[j as int] == q);
                        } else {
                            let idx = choose|idx: int| 0 <= idx < k + 1 && #[trigger] peers@.take(k + 1)[idx] == q;
                            assert(peers@.take(k as int)[idx] == q);
                            assert(peers@.take(k as int).contains(q));
                            assert(before.contains(q));
                            let bi = choose|bi: int| 0 <= bi < before.len() && #[trigger] before[bi] == q;
                            if bi < j {
                                assert(out@[bi] == q);
                            } else {
                                assert(out@[bi + 1] == q);
                            }
                        }
                    }
                }
            }
        }
        k = k + 1;
    }
    assert(peers@.take(k as int) =~= peers@);
    out
}

} // verus!

verus! {

proof fn lemma_entries_have_ports(v: Seq<u8>, width: int)
    ensures
        forall|k: int|
            0 <= k < compact_entries(v, width).len() ==> #[trigger] compact_entries(
                v,
                width,
            )[k].port_of() != 0,
    decreases v.len(),
{
    if width > 0 && v.len() >= width {
        lemma_entries_have_ports(v.skip(width), width);
        let rest = compact_entries(v.skip(width), width);
        let all = compact_entries(v, width);
        assert forall|k: int| 0 <= k < all.len() implies #[trigger] all[k].port_of() != 0 by {
            if all.len() != rest.len() && k > 0 {
                assert(all[k] == rest[k - 1]);
            }
        }
    }
}

/// Every peer read from a tracker response has a non-zero port: entries announcing port 0
/// are never handed out.
pub proof fn law_parsed_peers_have_ports(body: Seq<u8>)
    ensures
        forall|k: int|
            0 <= k < compact_peers(body).len() ==> #[trigger] compact_peers(body)[k].port_of() != 0,
{
    let v4 = match bencode_bytes_after(body, peers_key()) {
        Some(v) => compact_entries(v, 6),
        None => seq![],
    };
    let v6 = match bencode_bytes_after(body, peers6_key()) {
        Some(v) => compact_entries(v, 18),
        None => seq![],
    };
    match bencode_bytes_after(body, peers_key()) {
        Some(v) => lemma_entries_have_ports(v, 6),
        None => {},
    }
    match bencode_bytes_after(body, peers6_key()) {
        Some(v) => lemma_entries_have_ports(v, 18),
        None => {},
    }
    assert forall|k: int| 0 <= k < compact_peers(body).len() implies #[trigger] compact_peers(
        body,
    )[k].port_of() != 0 by {
        if k < v4.len() {
            assert(compact_peers(body)[k] == v4[k]);
        } else {
            assert(compact_peers(body)[k] == v6[k - v4.len()]);
        }
    }
}

} // verus!
