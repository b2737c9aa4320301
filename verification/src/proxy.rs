//! The local announce proxy's request handling: the HTTP request line, the announce
//! query, and the decisions between reading a request and answering it.

use vstd::prelude::*;
use vstd::slice::slice_subrange;
use vstd::string::StringSliceAdditionalSpecFns;
use vstd::utf8::{encode_utf8, encode_utf8_valid_utf8, is_char_boundary, is_continuation_byte, valid_utf8};

use crate::announce::AnnounceParams;
use crate::bencode::{announce_body, bencode_peers};
use crate::guard::pairs_view;
use crate::peers::{find_first, find_window, parse_bounded, parse_uint, PeerAddr};
use crate::textual::{
    append_ascii, ascii_chars, dec_digits, lemma_boundary_after_ascii, lemma_boundary_by_byte,
    lemma_dec_digits_ascii, push_dec, str_cut, utf8_str,
};

verus! {

/// `GET`
pub const GET_METHOD: [u8; 3] = [
    71, 69, 84,
];

/// The request line: the bytes before the first CRLF.
pub open spec fn request_line(req: Seq<u8>) -> Option<Seq<u8>> {
    match find_first(req, seq![13u8, 10u8]) {
        Some(e) => Some(req.take(e)),
        None => None,
    }
}

/// Byte range of the query in a request line `GET <path>?<query> ...`: the method must be
/// exactly `GET`, the path is the second space-separated part, and the query is what
/// follows its first `?`.
pub open spec fn query_range(line: Seq<u8>) -> Option<(int, int)> {
    match find_first(line, seq![32u8]) {
        None => None,
        Some(s1) => if line.take(s1) != GET_METHOD@ {
            None
        } else {
            let after = line.skip(s1 + 1);
            let plen = match find_first(after, seq![32u8]) {
                Some(s2) => s2,
                None => after.len() as int,
            };
            match find_first(after.take(plen), seq![63u8]) {
                None => None,
                Some(q) => Some((s1 + 1 + q + 1, s1 + 1 + plen)),
            }
        },
    }
}

/// The query bytes of an announce request, when its request line is valid UTF-8 and has
/// the expected shape.
pub open spec fn request_query_bytes(req: Seq<u8>) -> Option<Seq<u8>> {
    match request_line(req) {
        None => None,
        Some(line) => if !valid_utf8(line) {
            None
        } else {
            match query_range(line) {
                None => None,
                Some((a, b)) => Some(line.subrange(a, b)),
            }
        },
    }
}

/// Extracts the query string from `GET /announce?<query> HTTP/1.1`.
pub fn request_query(request: &[u8]) -> (r: Option<&str>)
    ensures
        r is Some <==> request_query_bytes(request@) is Some,
        r matches Some(q) ==> request_query_bytes(request@) == Some(q.spec_bytes()),
{
    let crlf: [u8; 2] = [13u8, 10u8];
    assert(crlf@ =~= seq![13u8, 10u8]);
    let line_end = match find_window(request, crlf.as_slice()) {
        Some(e) => e,
        None => return None,
    };
    let line_bytes = slice_subrange(request, 0, line_end);
    assert(line_bytes@ =~= request@.take(line_end as int));
    let line = match utf8_str(line_bytes) {
        Some(l) => l,
        None => return None,
    };
    let w = line.as_bytes();
    let ghost lw = line_bytes@;
    assert(w@ == lw);
    let space: [u8; 1] = [32u8];
    assert(space@ =~= seq![32u8]);
    let s1 = match find_window(w, space.as_slice()) {
        Some(s) => s,
        None => return None,
    };
    let method = slice_subrange(w, 0, s1);
    if method.len() != 3 || method[0] != GET_METHOD[0] || method[1] != GET_METHOD[1] || method[2]
        != GET_METHOD[2] {
        assert(method@ != GET_METHOD@) by {
            if method@.len() == 3 {
                if method@[0] != GET_METHOD@[0] {
                } else if method@[1] != GET_METHOD@[1] {
                } else {
                    assert(method@[2] != GET_METHOD@[2]);
                }
            }
        }
        assert(method@ =~= lw.take(s1 as int));
        return None;
    }
    assert(method@ =~= GET_METHOD@);
    assert(method@ =~= lw.take(s1 as int));
    let after = slice_subrange(w, s1 + 1, w.len());
    assert(after@ =~= lw.skip(s1 + 1));
    let plen = match find_window(after, space.as_slice()) {
        Some(s2) => s2,
        None => after.len(),
    };
    let path = slice_subrange(after, 0, plen);
    assert(path@ =~= after@.take(plen as int));
    let question: [u8; 1] = [63u8];
    assert(question@ =~= seq![63u8]);
    let q = match find_window(path, question.as_slice()) {
        Some(q) => q,
        None => return None,
    };
    let a = s1 + 1 + q + 1;
    let b = s1 + 1 + plen;
    proof {
        assert(path@.subrange(q as int, q + 1)[0] == 63u8);
        assert(lw[a - 1] == path@[q as int]);
        lemma_boundary_after_ascii(lw, a - 1);
        lemma_boundary_by_byte(lw, b as int);
        if plen < after@.len() {
            assert(lw[b as int] == after@[plen as int]);
            assert(after@.subrange(plen as int, plen + 1)[0] == 32u8);
        }
    }
    let query = str_cut(line, a, b);
    Some(query)
}

} // verus!

verus! {

/// Value of a hexadecimal digit, either case.
pub open spec fn hex_value(b: u8) -> Option<u8> {
    if 48 <= b <= 57 {
        Some((b - 48) as u8)
    } else if 97 <= b <= 102 {
        Some((b - 87) as u8)
    } else if 65 <= b <= 70 {
        Some((b - 55) as u8)
    } else {
        None
    }
}

/// `u8::from_str_radix` in base 16 on the two bytes of an escape: two hexadecimal digits,
/// or a `+` sign and one digit.
pub open spec fn escape_value(c1: u8, c2: u8) -> Option<u8> {
    if c1 == 43 {
        hex_value(c2)
    } else {
        match (hex_value(c1), hex_value(c2)) {
            (Some(h), Some(l)) => Some((h * 16 + l) as u8),
            _ => None,
        }
    }
}

/// Percent-decoding of form-encoded bytes: `%` and two hexadecimal digits give that byte,
/// `+` gives a space, anything else is kept. `None` where the escape's two bytes would cut
/// a character in half, which `str` slicing refuses.
pub open spec fn percent_decoded(b: Seq<u8>) -> Option<Seq<u8>>
    decreases b.len(),
{
    if b.len() == 0 {
        Some(seq![])
    } else if b[0] == 37 && b.len() > 2 && b.len() > 3 && is_continuation_byte(b[3]) {
        None
    } else if b[0] == 37 && b.len() > 2 && escape_value(b[1], b[2]) is Some {
        match percent_decoded(b.skip(3)) {
            Some(r) => Some(seq![escape_value(b[1], b[2])->0] + r),
            None => None,
        }
    } else {
        match percent_decoded(b.skip(1)) {
            Some(r) => Some(seq![if b[0] == 43 { 32u8 } else { b[0] }] + r),
            None => None,
        }
    }
}

pub(crate) fn hex_value_of(b: u8) -> (r: Option<u8>)
    ensures
        r == hex_value(b),
{
    if 48 <= b && b <= 57 {
        Some(b - 48)
    } else if 97 <= b && b <= 102 {
        Some(b - 87)
    } else if 65 <= b && b <= 70 {
        Some(b - 55)
    } else {
        None
    }
}

fn escape_value_of(c1: u8, c2: u8) -> (r: Option<u8>)
    ensures
        r == escape_value(c1, c2),
{
    if c1 == 43 {
        hex_value_of(c2)
    } else {
        match (hex_value_of(c1), hex_value_of(c2)) {
            (Some(h), Some(l)) => Some(h * 16 + l),
            _ => None,
        }
    }
}

/// Decodes a percent-encoded query value into raw bytes (`+` is a space).
pub fn percent_decode(s: &str) -> (r: Vec<u8>)
    requires
        percent_decoded(s.spec_bytes()) is Some,
    ensures
        Some(r@) == percent_decoded(s.spec_bytes()),
{
    let bytes = s.as_bytes();
    let ghost b = bytes@;
    let mut out: Vec<u8> = Vec::with_capacity(bytes.len());
    let mut i: usize = 0;
    assert(b.skip(0) =~= b);
    while i < bytes.len()
        invariant
            b == bytes@,
            i <= b.len(),
            percent_decoded(b.skip(i as int)) is Some,
            out@ + percent_decoded(b.skip(i as int))->0 == percent_decoded(b)->0,
        decreases b.len() - i,
    {
        let ghost rest = b.skip(i as int);
        if bytes[i] == 37 && bytes.len() - i > 2 {
            if let Some(v) = escape_value_of(bytes[i + 1], bytes[i + 2]) {
                assert(rest.skip(3) =~= b.skip(i + 3));
                out.push(v);
                i = i + 3;
                assert(out@ + percent_decoded(b.skip(i as int))->0 =~= percent_decoded(b)->0);
                continue;
            }
        }
        assert(rest.skip(1) =~= b.skip(i + 1));
        out.push(if bytes[i] == 43 {
            32u8
        } else {
            bytes[i]
        });
        i = i + 1;
        assert(out@ + percent_decoded(b.skip(i as int))->0 =~= percent_decoded(b)->0);
    }
    assert(b.skip(i as int) =~= seq![]);
    assert(out@ =~= percent_decoded(b)->0);
    out
}

/// The 20-byte array holding `v`, when `v` has exactly 20 bytes.
pub fn to_20_bytes(v: &[u8]) -> (r: Option<[u8; 20]>)
    ensures
        r is Some <==> v@.len() == 20,
        r matches Some(a) ==> a@ == v@,
{
    if v.len() != 20 {
        return None;
    }
    let mut out = [0u8; 20];
    let mut i: usize = 0;
    while i < 20
        invariant
            v@.len() == 20,
            i <= 20,
            forall|k: int| 0 <= k < i ==> out@[k] == v@[k],
        decreases 20 - i,
    {
        out[i] = v[i];
        i = i + 1;
    }
    assert(out@ =~= v@);
    Some(out)
}

} // verus!

verus! {

proof fn lemma_pct_encoded_concat(a: Seq<u8>, b: Seq<u8>)
    ensures
        crate::announce::pct_encoded(a + b) == crate::announce::pct_encoded(a)
            + crate::announce::pct_encoded(b),
    decreases b.len(),
{
    if b.len() == 0 {
        assert(a + b =~= a);
        assert(crate::announce::pct_encoded(b) =~= seq![]);
        assert(crate::announce::pct_encoded(a) + seq![] =~= crate::announce::pct_encoded(a));
    } else {
        lemma_pct_encoded_concat(a, b.drop_last());
        assert((a + b).drop_last() =~= a + b.drop_last());
    }
}

proof fn lemma_escape_of_hex(v: u8)
    ensures
        crate::announce::pct_encoded(seq![v]) == seq![
            37u8,
            crate::textual::hex_digit(v as nat / 16),
            crate::textual::hex_digit(v as nat % 16),
        ],
        escape_value(
            crate::textual::hex_digit(v as nat / 16),
            crate::textual::hex_digit(v as nat % 16),
        ) == Some(v),
{
    let n = v as nat;
    assert(seq![v].drop_last() =~= seq![]);
    assert(crate::announce::pct_encoded(seq![]) =~= seq![]);
    assert((n / 16) / 16 == 0 && (n / 16) % 16 == n / 16);
    assert(crate::textual::hex_fixed(n / 16 / 16, 0) =~= seq![]);
    assert(crate::textual::hex_fixed(n / 16, 1) =~= seq![crate::textual::hex_digit(n / 16)]);
    assert(crate::textual::hex_fixed(n, 2) =~= seq![
        crate::textual::hex_digit(n / 16),
        crate::textual::hex_digit(n % 16),
    ]);
    assert(crate::announce::pct_encoded(seq![v]) =~= seq![
        37u8,
        crate::textual::hex_digit(n / 16),
        crate::textual::hex_digit(n % 16),
    ]);
    assert(n / 16 * 16 + n % 16 == n);
}

/// Hexadecimal digit of a nibble, uppercase (`upper`) or lowercase.
pub open spec fn hex_digit_in_case(v: nat, upper: bool) -> u8 {
    if v < 10 {
        (48 + v) as u8
    } else if upper {
        (55 + v) as u8
    } else {
        (87 + v) as u8
    }
}

/// Percent-encoding of every byte as `%` and two hexadecimal digits of the given case.
pub open spec fn pct_encoded_in_case(b: Seq<u8>, upper: bool) -> Seq<u8>
    decreases b.len(),
{
    if b.len() == 0 {
        seq![]
    } else {
        seq![
            37u8,
            hex_digit_in_case(b[0] as nat / 16, upper),
            hex_digit_in_case(b[0] as nat % 16, upper),
        ] + pct_encoded_in_case(b.skip(1), upper)
    }
}

/// Percent-decoding undoes percent-encoding whatever the case of its hexadecimal digits.
pub proof fn law_percent_decode_roundtrip_any_case(x: Seq<u8>, upper: bool)
    ensures
        percent_decoded(pct_encoded_in_case(x, upper)) == Some(x),
    decreases x.len(),
{
    let e = pct_encoded_in_case(x, upper);
    if x.len() == 0 {
        assert(e =~= seq![]);
    } else {
        let n = x[0] as nat;
        let tail = x.skip(1);
        law_percent_decode_roundtrip_any_case(tail, upper);
        let et = pct_encoded_in_case(tail, upper);
        assert(n / 16 < 16 && n % 16 < 16);
        assert(escape_value(hex_digit_in_case(n / 16, upper), hex_digit_in_case(n % 16, upper))
            == Some(x[0])) by {
            assert(n / 16 * 16 + n % 16 == n);
        }
        if et.len() > 0 {
            assert(et[0] == 37u8);
            assert(e[3] == et[0]);
        }
        assert(e.skip(3) =~= et);
        assert(seq![x[0]] + tail =~= x);
    }
}

/// Text without `%` and `+` decodes to itself.
pub proof fn law_percent_decode_plain_text(b: Seq<u8>)
    requires
        forall|i: int| 0 <= i < b.len() ==> #[trigger] b[i] != 37u8 && b[i] != 43u8,
    ensures
        percent_decoded(b) == Some(b),
    decreases b.len(),
{
    if b.len() > 0 {
        assert(b[0] != 37u8 && b[0] != 43u8);
        assert forall|i: int| 0 <= i < b.skip(1).len() implies #[trigger] b.skip(1)[i] != 37u8
            && b.skip(1)[i] != 43u8 by {
            assert(b.skip(1)[i] == b[i + 1]);
        }
        law_percent_decode_plain_text(b.skip(1));
        assert(seq![b[0]] + b.skip(1) =~= b);
    }
}

/// Decoding never lengthens the text.
pub proof fn law_percent_decode_not_longer(b: Seq<u8>)
    ensures
        percent_decoded(b) matches Some(d) ==> d.len() <= b.len(),
    decreases b.len(),
{
    if b.len() > 0 {
        if b[0] == 37 && b.len() > 2 {
            law_percent_decode_not_longer(b.skip(3));
        }
        law_percent_decode_not_longer(b.skip(1));
    }
}

/// Percent-decoding undoes the percent-encoding of announce URLs: the info hash that an
/// announce carries is read back byte for byte by the proxy.
#[verifier::spinoff_prover]
#[verifier::rlimit(40)]
pub proof fn law_percent_decode_roundtrip(x: Seq<u8>)
    ensures
        percent_decoded(crate::announce::pct_encoded(x)) == Some(x),
    decreases x.len(),
{
    let e = crate::announce::pct_encoded(x);
    if x.len() == 0 {
        assert(e =~= seq![]);
    } else {
        let x0 = x[0];
        let tail = x.skip(1);
        assert(x =~= seq![x0] + tail);
        lemma_pct_encoded_concat(seq![x0], tail);
        lemma_escape_of_hex(x0);
        law_percent_decode_roundtrip(tail);
        let et = crate::announce::pct_encoded(tail);
        assert(e == crate::announce::pct_encoded(seq![x0]) + et);
        if et.len() > 0 {
            lemma_escape_of_hex(tail[0]);
            assert(et =~= crate::announce::pct_encoded(seq![tail[0]]) + crate::announce::pct_encoded(
                tail.skip(1),
            )) by {
                assert(tail =~= seq![tail[0]] + tail.skip(1));
                lemma_pct_encoded_concat(seq![tail[0]], tail.skip(1));
                lemma_escape_of_hex(tail[0]);
            }
            assert(et[0] == 37u8);
            assert(e[3] == et[0]);
        }
        assert(e.skip(3) =~= et);
    }
}

} // verus!

verus! {

/// `info_hash`
pub const INFO_HASH_KEY: [u8; 9] = [
    105, 110, 102, 111, 95, 104, 97, 115, 104,
];

/// `peer_id`
pub const PEER_ID_KEY: [u8; 7] = [
    112, 101, 101, 114, 95, 105, 100,
];

/// `port`
pub const PORT_KEY: [u8; 4] = [
    112, 111, 114, 116,
];

/// `uploaded`
pub const UPLOADED_KEY: [u8; 8] = [
    117, 112, 108, 111, 97, 100, 101, 100,
];

/// `downloaded`
pub const DOWNLOADED_KEY: [u8; 10] = [
    100, 111, 119, 110, 108, 111, 97, 100, 101, 100,
];

/// `left`
pub const LEFT_KEY: [u8; 4] = [
    108, 101, 102, 116,
];

/// `event`
pub const EVENT_KEY: [u8; 5] = [
    101, 118, 101, 110, 116,
];

/// The announce parameters read from a proxied request's query.
#[derive(Clone, Debug)]
pub struct AnnounceQuery {
    pub info_hash: Option<[u8; 20]>,
    pub peer_id: Option<[u8; 20]>,
    pub port: u16,
    pub uploaded: u64,
    pub downloaded: u64,
    pub left: u64,
    pub event: Option<String>,
}

/// Mathematical model of [`AnnounceQuery`]; the event is kept as its UTF-8 bytes.
pub struct QueryModel {
    pub info_hash: Option<Seq<u8>>,
    pub peer_id: Option<Seq<u8>>,
    pub port: nat,
    pub uploaded: nat,
    pub downloaded: nat,
    pub left: nat,
    pub event: Option<Seq<u8>>,
}

impl View for AnnounceQuery {
    type V = QueryModel;

    open spec fn view(&self) -> QueryModel {
        QueryModel {
            info_hash: match self.info_hash {
                Some(a) => Some(a@),
                None => None,
            },
            peer_id: match self.peer_id {
                Some(a) => Some(a@),
                None => None,
            },
            port: self.port as nat,
            uploaded: self.uploaded as nat,
            downloaded: self.downloaded as nat,
            left: self.left as nat,
            event: match self.event {
                Some(e) => Some(encode_utf8(e@)),
                None => None,
            },
        }
    }
}

/// Values before any parameter is read: no ids, port 0, nothing transferred, 1 byte left.
pub open spec fn query_defaults() -> QueryModel {
    QueryModel {
        info_hash: None,
        peer_id: None,
        port: 0,
        uploaded: 0,
        downloaded: 0,
        left: 1,
        event: None,
    }
}

/// The pieces of `b` between occurrences of `sep` (empty pieces included).
pub open spec fn split_on(b: Seq<u8>, sep: u8) -> Seq<Seq<u8>>
    decreases b.len(),
{
    match find_first(b, seq![sep]) {
        None => seq![b],
        Some(i) => if 0 <= i < b.len() {
            seq![b.take(i)] + split_on(b.skip(i + 1), sep)
        } else {
            seq![b]
        },
    }
}

/// A 20-byte id given percent-encoded, or `None` when it does not decode to 20 bytes.
pub open spec fn decoded_id(value: Seq<u8>) -> Option<Seq<u8>> {
    match percent_decoded(value) {
        Some(d) => if d.len() == 20 {
            Some(d)
        } else {
            None
        },
        None => None,
    }
}

pub open spec fn number_or(value: Seq<u8>, max: nat, default: nat) -> nat {
    match parse_uint(value, max) {
        Some(v) => v,
        None => default,
    }
}

/// Reading one `key=value` parameter; a piece without `=` and unknown keys change
/// nothing, and a later parameter overrides an earlier one.
pub open spec fn apply_pair(m: QueryModel, pair: Seq<u8>) -> QueryModel {
    match find_first(pair, seq![61u8]) {
        None => m,
        Some(e) => {
            let key = pair.take(e);
            let value = pair.skip(e + 1);
            if key == INFO_HASH_KEY@ {
                QueryModel { info_hash: decoded_id(value), ..m }
            } else if key == PEER_ID_KEY@ {
                QueryModel { peer_id: decoded_id(value), ..m }
            } else if key == PORT_KEY@ {
                QueryModel { port: number_or(value, u16::MAX as nat, 0), ..m }
            } else if key == UPLOADED_KEY@ {
                QueryModel { uploaded: number_or(value, u64::MAX as nat, 0), ..m }
            } else if key == DOWNLOADED_KEY@ {
                QueryModel { downloaded: number_or(value, u64::MAX as nat, 0), ..m }
            } else if key == LEFT_KEY@ {
                QueryModel { left: number_or(value, u64::MAX as nat, 1), ..m }
            } else if key == EVENT_KEY@ {
                QueryModel { event: Some(value), ..m }
            } else {
                m
            }
        },
    }
}

/// Reading the parameters in order.
pub open spec fn apply_pairs(pairs: Seq<Seq<u8>>) -> QueryModel
    decreases pairs.len(),
{
    if pairs.len() == 0 {
        query_defaults()
    } else {
        apply_pair(apply_pairs(pairs.drop_last()), pairs.last())
    }
}

/// The parameters of a query string.
pub open spec fn query_model(q: Seq<u8>) -> QueryModel {
    apply_pairs(split_on(q, 38u8))
}

/// The id parameters of a piece can be decoded (see [`percent_decoded`]).
pub open spec fn pair_decodable(pair: Seq<u8>) -> bool {
    match find_first(pair, seq![61u8]) {
        None => true,
        Some(e) => {
            let key = pair.take(e);
            (key == INFO_HASH_KEY@ || key == PEER_ID_KEY@) ==> percent_decoded(pair.skip(e + 1))
                is Some
        },
    }
}

/// Every id parameter of the query can be decoded.
pub open spec fn query_decodable(q: Seq<u8>) -> bool {
    forall|i: int| 0 <= i < split_on(q, 38u8).len() ==> pair_decodable(#[trigger] split_on(q, 38u8)[i])
}

pub(crate) fn bytes_eq(a: &[u8], b: &[u8]) -> (r: bool)
    ensures
        r == (a@ == b@),
{
    if a.len() != b.len() {
        return false;
    }
    let mut i: usize = 0;
    while i < a.len()
        invariant
            a@.len() == b@.len(),
            i <= a@.len(),
            forall|k: int| 0 <= k < i ==> a@[k] == b@[k],
        decreases a@.len() - i,
    {
        if a[i] != b[i] {
            return false;
        }
        i = i + 1;
    }
    assert(a@ =~= b@);
    true
}

} // verus!

verus! {

fn read_pair(st: &mut AnnounceQuery, query: &str, a: usize, b: usize)
    requires
        a <= b <= query.spec_bytes().len(),
        is_char_boundary(query.spec_bytes(), a as int),
        is_char_boundary(query.spec_bytes(), b as int),
        pair_decodable(query.spec_bytes().subrange(a as int, b as int)),
    ensures
        final(st)@ == apply_pair(old(st)@, query.spec_bytes().subrange(a as int, b as int)),
{
    let ghost qb = query.spec_bytes();
    proof {
        encode_utf8_valid_utf8(query@);
    }
    let bytes = query.as_bytes();
    let pair = slice_subrange(bytes, a, b);
    let equals: [u8; 1] = [61u8];
    assert(equals@ =~= seq![61u8]);
    let eq = match find_window(pair, equals.as_slice()) {
        Some(e) => e,
        None => return ,
    };
    let key = slice_subrange(pair, 0, eq);
    assert(key@ =~= pair@.take(eq as int));
    proof {
        assert(pair@.subrange(eq as int, eq + 1)[0] == 61u8);
        assert(qb[a + eq] == pair@[eq as int]);
        lemma_boundary_after_ascii(qb, a + eq);
    }
    let value = str_cut(query, a + eq + 1, b);
    let ghost vb = pair@.skip(eq + 1);
    assert(value.spec_bytes() =~= vb);
    if bytes_eq(key, INFO_HASH_KEY.as_slice()) {
        let d = percent_decode(value);
        st.info_hash = to_20_bytes(d.as_slice());
    } else if bytes_eq(key, PEER_ID_KEY.as_slice()) {
        let d = percent_decode(value);
        st.peer_id = to_20_bytes(d.as_slice());
    } else if bytes_eq(key, PORT_KEY.as_slice()) {
        st.port = match parse_bounded(value.as_bytes(), 65535) {
            Some(v) => v as u16,
            None => 0,
        };
    } else if bytes_eq(key, UPLOADED_KEY.as_slice()) {
        st.uploaded = match parse_bounded(value.as_bytes(), u64::MAX) {
            Some(v) => v,
            None => 0,
        };
    } else if bytes_eq(key, DOWNLOADED_KEY.as_slice()) {
        st.downloaded = match parse_bounded(value.as_bytes(), u64::MAX) {
            Some(v) => v,
            None => 0,
        };
    } else if bytes_eq(key, LEFT_KEY.as_slice()) {
        st.left = match parse_bounded(value.as_bytes(), u64::MAX) {
            Some(v) => v,
            None => 1,
        };
    } else if bytes_eq(key, EVENT_KEY.as_slice()) {
        st.event = Some(String::from_str(value));
    }
}

/// Reads the announce parameters of a query string (`key=value` pairs joined by `&`).
/// Ids are percent-decoded and kept only when they are 20 bytes long; numbers that do not
/// parse fall back to 0 (`left` to 1); later parameters override earlier ones.
pub fn parse_announce_query(query: &str) -> (r: AnnounceQuery)
    requires
        query_decodable(query.spec_bytes()),
    ensures
        r@ == query_model(query.spec_bytes()),
{
    let ghost qb = query.spec_bytes();
    proof {
        encode_utf8_valid_utf8(query@);
        lemma_boundary_by_byte(qb, 0);
    }
    let bytes = query.as_bytes();
    let n = bytes.len();
    let mut st = AnnounceQuery {
        info_hash: None,
        peer_id: None,
        port: 0,
        uploaded: 0,
        downloaded: 0,
        left: 1,
        event: None,
    };
    let amp: [u8; 1] = [38u8];
    assert(amp@ =~= seq![38u8]);
    let mut pos: usize = 0;
    let ghost mut done: Seq<Seq<u8>> = seq![];
    assert(qb.skip(0) =~= qb);
    loop
        invariant_except_break
            is_char_boundary(qb, pos as int),
            done + split_on(qb.skip(pos as int), 38u8) == split_on(qb, 38u8),
            st@ == apply_pairs(done),
        invariant
            n == qb.len(),
            qb == query.spec_bytes(),
            bytes@ == qb,
            amp@ == seq![38u8],
            valid_utf8(qb),
            pos <= n,
            query_decodable(qb),
        ensures
            st@ == query_model(qb),
        decreases n - pos,
    {
        let rest = slice_subrange(bytes, pos, n);
        assert(rest@ =~= qb.skip(pos as int));
        let ghost total = split_on(qb, 38u8);
        match find_window(rest, amp.as_slice()) {
            Some(i) => {
                let end = pos + i;
                proof {
                    assert(rest@.subrange(i as int, i + 1)[0] == 38u8);
                    assert(qb[end as int] == 38u8);
                    lemma_boundary_by_byte(qb, end as int);
                    lemma_boundary_after_ascii(qb, end as int);
                    assert(rest@.take(i as int) =~= qb.subrange(pos as int, end as int));
                    assert(rest@.skip(i + 1) =~= qb.skip(end + 1));
                    assert(total[done.len() as int] == qb.subrange(pos as int, end as int));
                }
                read_pair(&mut st, query, pos, end);
                proof {
                    let piece = qb.subrange(pos as int, end as int);
                    assert(done.push(piece).drop_last() =~= done);
                    assert(done.push(piece) + split_on(qb.skip(end + 1), 38u8) =~= total);
                    done = done.push(piece);
                }
                pos = end + 1;
            },
            None => {
                proof {
                    lemma_boundary_by_byte(qb, n as int);
                    assert(qb.subrange(pos as int, n as int) =~= rest@);
                    assert(total[done.len() as int] == rest@);
                }
                read_pair(&mut st, query, pos, n);
                proof {
                    assert(done.push(rest@).drop_last() =~= done);
                    assert(done.push(rest@) =~= total);
                }
                break;
            },
        }
    }
    st
}

} // verus!

verus! {

/// `bad request`
pub const BAD_REQUEST: [u8; 11] = [
    98, 97, 100, 32, 114, 101, 113, 117, 101, 115, 116,
];

/// `missing info_hash`
pub const MISSING_INFO_HASH: [u8; 17] = [
    109, 105, 115, 115, 105, 110, 103, 32, 105, 110, 102, 111, 95, 104, 97, 115, 104,
];

/// Whether `percent_decode` accepts the value (see [`percent_decoded`]).
pub fn percent_decodable(b: &[u8]) -> (r: bool)
    ensures
        r == percent_decoded(b@) is Some,
{
    let mut i: usize = 0;
    assert(b@.skip(0) =~= b@);
    while i < b.len()
        invariant
            i <= b@.len(),
            percent_decoded(b@.skip(i as int)) is Some <==> percent_decoded(b@) is Some,
        decreases b@.len() - i,
    {
        let ghost rest = b@.skip(i as int);
        if b[i] == 37 && b.len() - i > 2 {
            if b.len() - i > 3 && 0x80 <= b[i + 3] && b[i + 3] <= 0xbf {
                return false;
            }
            if escape_value_of(b[i + 1], b[i + 2]).is_some() {
                assert(rest.skip(3) =~= b@.skip(i + 3));
                i = i + 3;
                continue;
            }
        }
        assert(rest.skip(1) =~= b@.skip(i + 1));
        i = i + 1;
    }
    assert(b@.skip(i as int) =~= seq![]);
    true
}

/// Whether every id parameter of the query can be decoded.
pub fn query_is_decodable(query: &[u8]) -> (r: bool)
    ensures
        r == query_decodable(query@),
{
    let n = query.len();
    let amp: [u8; 1] = [38u8];
    assert(amp@ =~= seq![38u8]);
    let equals: [u8; 1] = [61u8];
    assert(equals@ =~= seq![61u8]);
    let mut pos: usize = 0;
    let ghost mut done: Seq<Seq<u8>> = seq![];
    let ghost total = split_on(query@, 38u8);
    assert(query@.skip(0) =~= query@);
    loop
        invariant_except_break
            done + split_on(query@.skip(pos as int), 38u8) == total,
            forall|k: int| 0 <= k < done.len() ==> pair_decodable(#[trigger] done[k]),
        invariant
            n == query@.len(),
            pos <= n,
            amp@ == seq![38u8],
            equals@ == seq![61u8],
            total == split_on(query@, 38u8),
        ensures
            forall|k: int| 0 <= k < total.len() ==> pair_decodable(#[trigger] total[k]),
        decreases n - pos,
    {
        let rest = slice_subrange(query, pos, n);
        assert(rest@ =~= query@.skip(pos as int));
        let (end, last) = match find_window(rest, amp.as_slice()) {
            Some(i) => (pos + i, false),
            None => (n, true),
        };
        let pair = slice_subrange(query, pos, end);
        let ghost piece = pair@;
        proof {
            if !last {
                assert(rest@.take(end - pos) =~= piece);
                assert(rest@.skip(end - pos + 1) =~= query@.skip(end + 1));
            } else {
                assert(rest@ =~= piece);
            }
            assert(total[done.len() as int] == piece);
        }
        let ok = match find_window(pair, equals.as_slice()) {
            None => true,
            Some(e) => {
                let key = slice_subrange(pair, 0, e);
                assert(key@ =~= piece.take(e as int));
                let value = slice_subrange(pair, e + 1, pair.len());
                assert(value@ =~= piece.skip(e + 1));
                if bytes_eq(key, INFO_HASH_KEY.as_slice()) || bytes_eq(key, PEER_ID_KEY.as_slice()) {
                    percent_decodable(value)
                } else {
                    true
                }
            },
        };
        if !ok {
            assert(!pair_decodable(total[done.len() as int]));
            return false;
        }
        proof {
            assert(done.push(piece).drop_last() =~= done);
            done = done.push(piece);
        }
        if last {
            assert(done =~= total);
            break;
        }
        pos = end + 1;
    }
    true
}

/// The request's query, if any, can be read without cutting a character in half.
pub open spec fn request_decodable(req: Seq<u8>) -> bool {
    request_query_bytes(req) matches Some(q) ==> query_decodable(q)
}

/// Whether [`plan_request`] may be called on the request.
pub fn request_is_decodable(request: &[u8]) -> (r: bool)
    ensures
        r == request_decodable(request@),
{
    match request_query(request) {
        None => true,
        Some(q) => query_is_decodable(q.as_bytes()),
    }
}

/// What the proxy does with a request: answer it outright, or announce upstream.
pub enum ProxyStep {
    Respond(Vec<u8>),
    Announce { info_hash: [u8; 20], query: AnnounceQuery },
}

/// First decision on a proxied request: a request that is not `GET ...?<query>` gets a
/// `bad request` failure, a query without a usable `info_hash` a `missing info_hash`
/// failure; otherwise the parameters go on to the upstream announce.
pub fn plan_request(request: &[u8]) -> (r: ProxyStep)
    requires
        request_decodable(request@),
    ensures
        request_query_bytes(request@) is None ==> (r matches ProxyStep::Respond(b) && b@
            == crate::bencode::failure_body(BAD_REQUEST@)),
        request_query_bytes(request@) matches Some(q) ==> {
            let m = query_model(q);
            match m.info_hash {
                None => r matches ProxyStep::Respond(b) && b@ == crate::bencode::failure_body(
                    MISSING_INFO_HASH@,
                ),
                Some(h) => r matches ProxyStep::Announce { info_hash, query } && info_hash@ == h
                    && query@ == m,
            }
        },
{
    let q = match request_query(request) {
        Some(q) => q,
        None => {
            return ProxyStep::Respond(crate::bencode::failure_response(BAD_REQUEST.as_slice()));
        },
    };
    let query = parse_announce_query(q);
    match query.info_hash {
        Some(info_hash) => ProxyStep::Announce { info_hash, query },
        None => ProxyStep::Respond(crate::bencode::failure_response(MISSING_INFO_HASH.as_slice())),
    }
}

} // verus!

verus! {

/// `127.0.0.1`
pub const LOOPBACK_IP: [u8; 9] = [
    49, 50, 55, 46, 48, 46, 48, 46, 49,
];

/// `localhost`
pub const LOCALHOST: [u8; 9] = [
    108, 111, 99, 97, 108, 104, 111, 115, 116,
];

/// What `url::Url::parse` reads from a text, or `None` when the text is not a URL: the
/// URL's serialization, its host, its explicit port, its scheme, and the form-decoded
/// key/value pairs of its query, each as UTF-8 bytes.
pub uninterp spec fn parsed_url(text: Seq<char>) -> Option<
    (Seq<char>, Option<Seq<char>>, Option<u16>, Seq<u8>, Seq<(Seq<u8>, Seq<u8>)>),
>;

pub open spec fn opt_text(o: Option<String>) -> Option<Seq<char>> {
    match o {
        Some(s) => Some(s@),
        None => None,
    }
}

/// A tracker URL, reduced to what the proxy reads of it: its serialization, its host and
/// its port when that is not the scheme's default.
#[derive(Clone, Debug)]
pub struct TrackerUrl {
    pub text: String,
    pub host: Option<String>,
    pub port: Option<u16>,
}

/// A URL as read by `url::Url::parse`: what the proxy reads of it as a tracker, its scheme,
/// and its query's decoded pairs.
pub struct ParsedUrl {
    pub tracker: TrackerUrl,
    pub scheme: Vec<u8>,
    pub query_pairs: Vec<(Vec<u8>, Vec<u8>)>,
}

/// `url::Url::parse` on `text`, keeping `to_string()`, `host_str()`, `port()`, `scheme()`
/// and the pairs of `query_pairs()` of the parsed URL; `None` when the text is not a URL.
#[verifier::external_body]
pub(crate) fn parse_url(text: &str) -> (r: Option<ParsedUrl>)
    ensures
        r matches Some(u) ==> parsed_url(text@) == Some(
            (
                u.tracker.text@,
                opt_text(u.tracker.host),
                u.tracker.port,
                u.scheme@,
                pairs_view(u.query_pairs@),
            ),
        ),
        r is None ==> parsed_url(text@) is None,
{
    let u = match url::Url::parse(text) {
        Ok(u) => u,
        Err(_) => return None,
    };
    let host = u.host_str().map(|h| h.to_string());
    let tracker = TrackerUrl { text: u.to_string(), host, port: u.port() };
    let query_pairs = u.query_pairs().map(|(k, v)| (k.as_bytes().to_vec(), v.as_bytes().to_vec()));
    Some(ParsedUrl { tracker, scheme: u.scheme().as_bytes().to_vec(), query_pairs: query_pairs.collect() })
}

/// A host and port that are this proxy's: loopback host (`127.0.0.1` or `localhost`) and
/// its port.
pub open spec fn proxy_address(host: Option<Seq<char>>, port: Option<u16>, own_port: u16) -> bool {
    &&& host matches Some(h) && (h == crate::textual::ascii_chars(LOOPBACK_IP@) || h
        == crate::textual::ascii_chars(LOCALHOST@))
    &&& port == Some(own_port)
}

/// The URL points at this proxy.
pub open spec fn points_at_proxy(url: TrackerUrl, own_port: u16) -> bool {
    proxy_address(opt_text(url.host), url.port, own_port)
}

fn text_is(s: &str, b: &[u8]) -> (r: bool)
    ensures
        r == (s@ == crate::textual::ascii_chars(b@)),
{
    let v = crate::textual::chars_of(s);
    if v.len() != b.len() {
        return false;
    }
    let mut i: usize = 0;
    while i < v.len()
        invariant
            v@ == s@,
            v@.len() == b@.len(),
            i <= v@.len(),
            forall|k: int| 0 <= k < i ==> v@[k] == b@[k] as char,
        decreases v@.len() - i,
    {
        if v[i] != b[i] as char {
            assert(crate::textual::ascii_chars(b@)[i as int] == b@[i as int] as char);
            return false;
        }
        i = i + 1;
    }
    assert(s@ =~= crate::textual::ascii_chars(b@));
    true
}

/// Whether a tracker URL is this proxy itself, so that it is never announced to.
pub fn is_self(url: &TrackerUrl, own_port: u16) -> (r: bool)
    ensures
        r == points_at_proxy(*url, own_port),
{
    let loopback = match &url.host {
        Some(h) => text_is(h.as_str(), LOOPBACK_IP.as_slice()) || text_is(
            h.as_str(),
            LOCALHOST.as_slice(),
        ),
        None => false,
    };
    loopback && url.port == Some(own_port)
}

/// The trackers to forward to: all but the proxy itself, by their text.
pub open spec fn upstream_texts(trackers: Seq<TrackerUrl>, own_port: u16) -> Seq<Seq<char>>
    decreases trackers.len(),
{
    if trackers.len() == 0 {
        seq![]
    } else {
        upstream_texts(trackers.drop_last(), own_port) + if points_at_proxy(
            trackers.last(),
            own_port,
        ) {
            seq![]
        } else {
            seq![trackers.last().text@]
        }
    }
}

/// The torrent's trackers except the proxy itself, in order.
pub fn upstream_trackers(trackers: &[TrackerUrl], own_port: u16) -> (r: Vec<String>)
    ensures
        crate::announce::texts(r@) == upstream_texts(trackers@, own_port),
{
    let mut out: Vec<String> = Vec::new();
    let mut i: usize = 0;
    while i < trackers.len()
        invariant
            i <= trackers@.len(),
            crate::announce::texts(out@) == upstream_texts(trackers@.take(i as int), own_port),
        decreases trackers@.len() - i,
    {
        assert(trackers@.take(i + 1).drop_last() =~= trackers@.take(i as int));
        if !is_self(&trackers[i], own_port) {
            let t = trackers[i].text.clone();
            out.push(t);
        }
        i = i + 1;
        assert(crate::announce::texts(out@) =~= upstream_texts(trackers@.take(i as int), own_port));
    }
    assert(trackers@.take(i as int) =~= trackers@);
    out
}

/// The trackers to forward to, from their texts: each text that `url::Url::parse` reads as
/// a URL not pointing at this proxy, by the URL's serialization.
pub open spec fn upstream_of_texts(texts: Seq<String>, own_port: u16) -> Seq<Seq<char>>
    decreases texts.len(),
{
    if texts.len() == 0 {
        seq![]
    } else {
        upstream_of_texts(texts.drop_last(), own_port) + match parsed_url(texts.last()@) {
            Some((s, h, p, _, _)) => if proxy_address(h, p, own_port) {
                seq![]
            } else {
                seq![s]
            },
            None => seq![],
        }
    }
}

/// The torrent's trackers, given as texts, except the proxy itself and texts that are not
/// URLs, in order.
pub fn upstream_tracker_texts(trackers: &[String], own_port: u16) -> (r: Vec<String>)
    ensures
        crate::announce::texts(r@) == upstream_of_texts(trackers@, own_port),
{
    let mut out: Vec<String> = Vec::new();
    let mut i: usize = 0;
    while i < trackers.len()
        invariant
            i <= trackers@.len(),
            crate::announce::texts(out@) == upstream_of_texts(trackers@.take(i as int), own_port),
        decreases trackers@.len() - i,
    {
        assert(trackers@.take(i + 1).drop_last() =~= trackers@.take(i as int));
        match parse_url(trackers[i].as_str()) {
            Some(u) => {
                if !is_self(&u.tracker, own_port) {
                    out.push(u.tracker.text);
                }
            },
            None => {},
        }
        i = i + 1;
        assert(crate::announce::texts(out@) =~= upstream_of_texts(
            trackers@.take(i as int),
            own_port,
        ));
    }
    assert(trackers@.take(i as int) =~= trackers@);
    out
}

} // verus!

verus! {

/// `\r\n\r\n`
pub const HEADER_END: [u8; 4] = [
    13, 10, 13, 10,
];

/// `http://127.0.0.1:`
pub const PROXY_URL_HEAD: [u8; 17] = [
    104, 116, 116, 112, 58, 47, 47, 49, 50, 55, 46, 48, 46, 48, 46, 49, 58,
];

/// `/announce`
pub const ANNOUNCE_PATH: [u8; 9] = [
    47, 97, 110, 110, 111, 117, 110, 99, 101,
];

/// `HTTP/1.1 200 OK\r\nContent-Type: text/plain\r\nContent-Length: `
pub const RESPONSE_STATUS: [u8; 59] = [
    72, 84, 84, 80, 47, 49, 46, 49, 32, 50, 48, 48, 32, 79, 75, 13, 10, 67, 111, 110, 116, 101,
    110, 116, 45, 84, 121, 112, 101, 58, 32, 116, 101, 120, 116, 47, 112, 108, 97, 105, 110, 13,
    10, 67, 111, 110, 116, 101, 110, 116, 45, 76, 101, 110, 103, 116, 104, 58, 32,
];

/// `\r\nConnection: close\r\n\r\n`
pub const RESPONSE_CLOSE: [u8; 23] = [
    13, 10, 67, 111, 110, 110, 101, 99, 116, 105, 111, 110, 58, 32, 99, 108, 111, 115, 101, 13,
    10, 13, 10,
];

/// Re-announce interval asked of the session when peers were found: short enough to keep
/// the swarm fresh on long downloads, long enough not to hammer upstream trackers.
pub const INTERVAL_WITH_PEERS: u64 = 900;

/// Re-announce interval when there is nothing useful to return (no session yet, unknown
/// torrent, no upstream tracker, or no peers): come back sooner.
pub const INTERVAL_EMPTY: u64 = 300;

/// Largest request head read before the request is given up.
pub const MAX_REQUEST_BYTES: usize = 8192;

/// The interval to answer with, given whether upstream trackers returned any peer.
pub fn reannounce_interval(peers: &[PeerAddr]) -> (r: u64)
    ensures
        r == if peers@.len() == 0 {
            INTERVAL_EMPTY
        } else {
            INTERVAL_WITH_PEERS
        },
{
    if peers.len() == 0 {
        INTERVAL_EMPTY
    } else {
        INTERVAL_WITH_PEERS
    }
}

/// The answer to a proxied announce: the merged upstream peers and the matching interval.
pub fn peers_response(peers: &[PeerAddr]) -> (r: Vec<u8>)
    ensures
        r@ == announce_body(
            if peers@.len() == 0 {
                INTERVAL_EMPTY as nat
            } else {
                INTERVAL_WITH_PEERS as nat
            },
            peers@,
        ),
{
    bencode_peers(reannounce_interval(peers), peers)
}

/// The answer when the announce cannot be forwarded: no peers, retry soon.
pub fn empty_peers_response() -> (r: Vec<u8>)
    ensures
        r@ == announce_body(INTERVAL_EMPTY as nat, seq![]),
{
    let none: Vec<PeerAddr> = Vec::new();
    bencode_peers(INTERVAL_EMPTY, none.as_slice())
}

/// `p` is what the proxy forwards upstream for a request with `query` about `info_hash`.
/// While a torrent is paused or resolving the session announces port 0; the session's real
/// listen port is put in its place (0 when it has none). A missing peer id becomes twenty
/// `0` characters.
pub open spec fn forwards(
    info_hash: [u8; 20],
    query: AnnounceQuery,
    listen_port: Option<u16>,
    p: AnnounceParams,
) -> bool {
    &&& p.info_hash == info_hash
    &&& query.peer_id matches Some(x) ==> p.peer_id == x
    &&& query.peer_id is None ==> p.peer_id@ == Seq::new(20, |i: int| 48u8)
    &&& p.port == if query.port == 0 {
        match listen_port {
            Some(x) => x,
            None => 0,
        }
    } else {
        query.port
    }
    &&& p.uploaded == query.uploaded
    &&& p.downloaded == query.downloaded
    &&& p.left == query.left
    &&& p.event == query.event
}

/// The upstream announce parameters for a proxied request (see [`forwards`]).
pub fn announce_params(info_hash: [u8; 20], query: &AnnounceQuery, listen_port: Option<u16>) -> (r:
    AnnounceParams)
    ensures
        forwards(info_hash, *query, listen_port, r),
{
    let port = if query.port == 0 {
        match listen_port {
            Some(p) => p,
            None => 0,
        }
    } else {
        query.port
    };
    let peer_id = match query.peer_id {
        Some(p) => p,
        None => {
            let z = [48u8; 20];
            assert(z@ =~= Seq::new(20, |i: int| 48u8));
            z
        },
    };
    let r = AnnounceParams {
        info_hash,
        peer_id,
        port,
        uploaded: query.uploaded,
        downloaded: query.downloaded,
        left: query.left,
        event: query.event.clone(),
    };
    assert(forwards(info_hash, *query, listen_port, r));
    r
}

/// What the proxy does with a request for a torrent, once its query is read.
pub enum ForwardStep {
    /// Answer at once.
    Respond(Vec<u8>),
    /// Announce to these trackers with these parameters, then answer with the peers found.
    Announce { trackers: Vec<String>, params: AnnounceParams },
}

/// Second decision on a proxied request: when the session does not know the torrent
/// (`torrent_trackers` is `None`) or the torrent has no tracker besides the proxy, answer
/// with no peers and a short retry interval; otherwise announce to those trackers.
pub fn plan_forward(
    info_hash: [u8; 20],
    query: &AnnounceQuery,
    torrent_trackers: Option<&[String]>,
    own_port: u16,
    listen_port: Option<u16>,
) -> (r: ForwardStep)
    ensures
        match torrent_trackers {
            None => r matches ForwardStep::Respond(b) && b@ == announce_body(
                INTERVAL_EMPTY as nat,
                seq![],
            ),
            Some(ts) => if upstream_of_texts(ts@, own_port).len() == 0 {
                r matches ForwardStep::Respond(b) && b@ == announce_body(INTERVAL_EMPTY as nat, seq![])
            } else {
                r matches ForwardStep::Announce { trackers, params } && crate::announce::texts(
                    trackers@,
                ) == upstream_of_texts(ts@, own_port) && forwards(
                    info_hash,
                    *query,
                    listen_port,
                    params,
                )
            },
        },
{
    let ts = match torrent_trackers {
        None => return ForwardStep::Respond(empty_peers_response()),
        Some(ts) => ts,
    };
    let trackers = upstream_tracker_texts(ts, own_port);
    if trackers.len() == 0 {
        return ForwardStep::Respond(empty_peers_response());
    }
    let params = announce_params(info_hash, query, listen_port);
    ForwardStep::Announce { trackers, params }
}

/// The proxy's own announce URL, registered with the session as a tracker.
pub fn proxy_announce_url(port: u16) -> (r: String)
    ensures
        r@ == ascii_chars(PROXY_URL_HEAD@ + dec_digits(port as nat) + ANNOUNCE_PATH@),
{
    let mut b: Vec<u8> = Vec::new();
    b.extend_from_slice(PROXY_URL_HEAD.as_slice());
    push_dec(&mut b, port as u64);
    b.extend_from_slice(ANNOUNCE_PATH.as_slice());
    proof {
        lemma_dec_digits_ascii(port as nat);
        assert(b@ =~= PROXY_URL_HEAD@ + dec_digits(port as nat) + ANNOUNCE_PATH@);
        assert forall|i: int| 0 <= i < b@.len() implies b@[i] < 128 by {
            if 17 <= i < 17 + dec_digits(port as nat).len() {
                assert(b@[i] == dec_digits(port as nat)[i - 17]);
            }
        }
    }
    let mut s = String::new();
    append_ascii(&mut s, b.as_slice());
    s
}

/// Status line and headers of the proxy's answer to a body of `body_len` bytes.
pub fn http_response_head(body_len: usize) -> (r: Vec<u8>)
    ensures
        r@ == RESPONSE_STATUS@ + dec_digits(body_len as nat) + RESPONSE_CLOSE@,
{
    let mut out: Vec<u8> = Vec::new();
    out.extend_from_slice(RESPONSE_STATUS.as_slice());
    push_dec(&mut out, body_len as u64);
    out.extend_from_slice(RESPONSE_CLOSE.as_slice());
    out
}

/// Where reading a request head stands.
#[derive(Clone, Copy, Debug, PartialEq, Eq, Structural)]
pub enum ReadStep {
    /// The blank line ending the head has arrived.
    Complete,
    /// More than the allowed bytes arrived without the head ending.
    TooLarge,
    /// The head is not complete yet: read more.
    ReadMore,
}

/// The next step of reading a request head from what has been read so far.
pub fn read_step(buf: &[u8]) -> (r: ReadStep)
    ensures
        r == if find_first(buf@, HEADER_END@) is Some {
            ReadStep::Complete
        } else if buf@.len() > MAX_REQUEST_BYTES {
            ReadStep::TooLarge
        } else {
            ReadStep::ReadMore
        },
{
    if find_window(buf, HEADER_END.as_slice()).is_some() {
        ReadStep::Complete
    } else if buf.len() > MAX_REQUEST_BYTES {
        ReadStep::TooLarge
    } else {
        ReadStep::ReadMore
    }
}

} // verus!

verus! {

/// `url` is what the proxy announces to for the tracker text `t`: the serialization of the
/// URL read from `t`, which does not point at the proxy.
pub open spec fn announced_for(t: String, url: Seq<char>, own_port: u16) -> bool {
    parsed_url(t@) matches Some((s, h, p, _, _)) && s == url && !proxy_address(h, p, own_port)
}

/// `url` is what the proxy announces to for one of the tracker texts.
pub open spec fn announced_for_some(texts: Seq<String>, url: Seq<char>, own_port: u16) -> bool {
    exists|j: int| 0 <= j < texts.len() && #[trigger] announced_for(texts[j], url, own_port)
}

/// The proxy never forwards an announce to itself: each tracker it announces to comes from
/// one of the torrent's tracker texts, read as a URL that does not point at the proxy.
pub proof fn law_never_announces_to_itself(texts: Seq<String>, own_port: u16)
    ensures
        forall|k: int|
            0 <= k < upstream_of_texts(texts, own_port).len() ==> announced_for_some(
                texts,
                #[trigger] upstream_of_texts(texts, own_port)[k],
                own_port,
            ),
    decreases texts.len(),
{
    if texts.len() > 0 {
        let front = texts.drop_last();
        let prev = upstream_of_texts(front, own_port);
        law_never_announces_to_itself(front, own_port);
        let r = upstream_of_texts(texts, own_port);
        assert forall|k: int| 0 <= k < r.len() implies announced_for_some(
            texts,
            #[trigger] r[k],
            own_port,
        ) by {
            if k < prev.len() {
                assert(r[k] == prev[k]);
                assert(announced_for_some(front, prev[k], own_port));
                let j = choose|j: int|
                    0 <= j < front.len() && #[trigger] announced_for(front[j], prev[k], own_port);
                assert(texts[j] == front[j]);
                assert(announced_for(texts[j], r[k], own_port));
            } else {
                let j = texts.len() - 1;
                assert(texts[j] == texts.last());
                assert(announced_for(texts[j], r[k], own_port));
            }
        }
    }
}

} // verus!

verus! {

proof fn lemma_one_parameter(key: Seq<u8>, n: nat)
    requires
        key.len() > 0,
        forall|i: int| 0 <= i < key.len() ==> #[trigger] key[i] != 61u8 && key[i] != 38u8,
    ensures
        ({
            let q = key + seq![61u8] + dec_digits(n);
            &&& split_on(q, 38u8) == seq![q]
            &&& find_first(q, seq![61u8]) == Some(key.len() as int)
            &&& q.take(key.len() as int) == key
            &&& q.skip(key.len() as int + 1) == dec_digits(n)
        }),
{
    let q = key + seq![61u8] + dec_digits(n);
    lemma_dec_digits_ascii(n);
    assert forall|m: int| 0 <= m && m + 1 <= q.len() implies #[trigger] q.subrange(m, m + 1)
        != seq![38u8] by {
        assert(q.subrange(m, m + 1)[0] == q[m]);
        if m >= key.len() + 1 {
            assert(q[m] == dec_digits(n)[m - key.len() - 1]);
        }
    }
    crate::peers::lemma_find_from_none(q, seq![38u8], 0);
    assert forall|m: int| 0 <= m < key.len() implies #[trigger] q.subrange(m, m + 1) != seq![
        61u8,
    ] by {
        assert(q.subrange(m, m + 1)[0] == key[m]);
    }
    assert(q.subrange(key.len() as int, key.len() as int + 1) =~= seq![61u8]);
    crate::peers::lemma_find_from_some(q, seq![61u8], 0, key.len() as int);
    assert(q.take(key.len() as int) =~= key);
    assert(q.skip(key.len() as int + 1) =~= dec_digits(n));
}

/// Every counter of an announce reads back any 64-bit value written in decimal, and the
/// port any 16-bit value: `left=N`, `uploaded=N`, `downloaded=N` and `port=N` give `N`.
pub proof fn law_counters_read_back(n: u64, port: u16)
    ensures
        query_model(LEFT_KEY@ + seq![61u8] + dec_digits(n as nat)).left == n,
        query_model(UPLOADED_KEY@ + seq![61u8] + dec_digits(n as nat)).uploaded == n,
        query_model(DOWNLOADED_KEY@ + seq![61u8] + dec_digits(n as nat)).downloaded == n,
        query_model(PORT_KEY@ + seq![61u8] + dec_digits(port as nat)).port == port,
{
    crate::peers::lemma_parse_dec_digits(n as nat, u64::MAX as nat);
    crate::peers::lemma_parse_dec_digits(port as nat, u16::MAX as nat);
    lemma_one_parameter(LEFT_KEY@, n as nat);
    lemma_one_parameter(UPLOADED_KEY@, n as nat);
    lemma_one_parameter(DOWNLOADED_KEY@, n as nat);
    lemma_one_parameter(PORT_KEY@, port as nat);
    let ql = LEFT_KEY@ + seq![61u8] + dec_digits(n as nat);
    let qu = UPLOADED_KEY@ + seq![61u8] + dec_digits(n as nat);
    let qd = DOWNLOADED_KEY@ + seq![61u8] + dec_digits(n as nat);
    let qp = PORT_KEY@ + seq![61u8] + dec_digits(port as nat);
    assert(seq![ql].drop_last() =~= Seq::<Seq<u8>>::empty());
    assert(seq![qu].drop_last() =~= Seq::<Seq<u8>>::empty());
    assert(seq![qd].drop_last() =~= Seq::<Seq<u8>>::empty());
    assert(seq![qp].drop_last() =~= Seq::<Seq<u8>>::empty());
    assert(UPLOADED_KEY@ != INFO_HASH_KEY@ && UPLOADED_KEY@ != PEER_ID_KEY@ && UPLOADED_KEY@
        != PORT_KEY@) by {
        assert(UPLOADED_KEY@.len() != INFO_HASH_KEY@.len());
        assert(UPLOADED_KEY@.len() != PEER_ID_KEY@.len());
        assert(UPLOADED_KEY@.len() != PORT_KEY@.len());
    }
    assert(DOWNLOADED_KEY@ != INFO_HASH_KEY@ && DOWNLOADED_KEY@ != PEER_ID_KEY@
        && DOWNLOADED_KEY@ != PORT_KEY@ && DOWNLOADED_KEY@ != UPLOADED_KEY@) by {
        assert(DOWNLOADED_KEY@.len() != INFO_HASH_KEY@.len());
        assert(DOWNLOADED_KEY@.len() != PEER_ID_KEY@.len());
        assert(DOWNLOADED_KEY@.len() != PORT_KEY@.len());
        assert(DOWNLOADED_KEY@.len() != UPLOADED_KEY@.len());
    }
    assert(LEFT_KEY@ != INFO_HASH_KEY@ && LEFT_KEY@ != PEER_ID_KEY@ && LEFT_KEY@ != PORT_KEY@
        && LEFT_KEY@ != UPLOADED_KEY@ && LEFT_KEY@ != DOWNLOADED_KEY@) by {
        assert(LEFT_KEY@.len() != INFO_HASH_KEY@.len());
        assert(LEFT_KEY@.len() != PEER_ID_KEY@.len());
        assert(LEFT_KEY@[0] != PORT_KEY@[0]);
        assert(LEFT_KEY@.len() != UPLOADED_KEY@.len());
        assert(LEFT_KEY@.len() != DOWNLOADED_KEY@.len());
    }
    assert(PORT_KEY@ != INFO_HASH_KEY@ && PORT_KEY@ != PEER_ID_KEY@) by {
        assert(PORT_KEY@.len() != INFO_HASH_KEY@.len());
        assert(PORT_KEY@.len() != PEER_ID_KEY@.len());
    }
}

} // verus!

verus! {

/// A tracker text that reads as a URL not pointing at the proxy is forwarded to, by the
/// URL's serialization, whatever its scheme; one pointing at the proxy, or a text that is
/// not a URL, is not.
pub proof fn law_upstream_keeps_other_urls(t: String, own_port: u16)
    ensures
        parsed_url(t@) matches Some((s, h, p, _, _)) ==> (!proxy_address(h, p, own_port)
            ==> upstream_of_texts(seq![t], own_port) == seq![s]),
        parsed_url(t@) matches Some((_, h, p, _, _)) ==> (proxy_address(h, p, own_port)
            ==> upstream_of_texts(seq![t], own_port) == Seq::<Seq<char>>::empty()),
        parsed_url(t@) is None ==> upstream_of_texts(seq![t], own_port) == Seq::<
            Seq<char>,
        >::empty(),
{
    assert(seq![t].drop_last() =~= Seq::<String>::empty());
    assert(upstream_of_texts(Seq::<String>::empty(), own_port) =~= Seq::<Seq<char>>::empty());
    match parsed_url(t@) {
        Some((s, h, p, _, _)) => {
            if !proxy_address(h, p, own_port) {
                assert(Seq::<Seq<char>>::empty() + seq![s] =~= seq![s]);
            } else {
                assert(Seq::<Seq<char>>::empty() + Seq::<Seq<char>>::empty() =~= Seq::<
                    Seq<char>,
                >::empty());
            }
        },
        None => {
            assert(Seq::<Seq<char>>::empty() + Seq::<Seq<char>>::empty() =~= Seq::<
                Seq<char>,
            >::empty());
        },
    }
}

/// The trackers forwarded to from a list are those of its parts, in order: each text is
/// judged on its own.
pub proof fn law_upstream_of_concatenation(a: Seq<String>, b: Seq<String>, own_port: u16)
    ensures
        upstream_of_texts(a + b, own_port) == upstream_of_texts(a, own_port) + upstream_of_texts(
            b,
            own_port,
        ),
    decreases b.len(),
{
    if b.len() == 0 {
        assert(a + b =~= a);
        assert(upstream_of_texts(a, own_port) + upstream_of_texts(b, own_port) =~= upstream_of_texts(
            a,
            own_port,
        ));
    } else {
        law_upstream_of_concatenation(a, b.drop_last(), own_port);
        assert((a + b).drop_last() =~= a + b.drop_last());
        assert((a + b).last() == b.last());
        let tail = match parsed_url(b.last()@) {
            Some((s, h, p, _, _)) => if proxy_address(h, p, own_port) {
                Seq::<Seq<char>>::empty()
            } else {
                seq![s]
            },
            None => Seq::<Seq<char>>::empty(),
        };
        assert(upstream_of_texts(a, own_port) + upstream_of_texts(b.drop_last(), own_port) + tail
            =~= upstream_of_texts(a, own_port) + (upstream_of_texts(b.drop_last(), own_port) + tail));
    }
}

} // verus!
