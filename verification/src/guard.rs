//! Inputs on which librqbit's parsers are known to panic or to exhaust the stack: magnet
//! links whose info hash decodes from base32 to the wrong number of bytes or whose file
//! selection could never fit in memory, and `.torrent` files that break off inside a list
//! or dictionary, nest too deeply, or declare a string length that overflows the parser's
//! arithmetic. Such inputs are never accepted by those parsers; the library refuses them
//! itself.

use vstd::prelude::*;
use vstd::slice::slice_subrange;

use crate::peers::{is_digit, parse_uint, parse_usize};
use crate::proxy::bytes_eq;

verus! {

/// Index of the first `c` in `b` at or after `from`.
pub open spec fn byte_from(b: Seq<u8>, c: u8, from: int) -> Option<int>
    decreases b.len() - from,
{
    if from < 0 || from >= b.len() {
        None
    } else if b[from] == c {
        Some(from)
    } else {
        byte_from(b, c, from + 1)
    }
}

pub proof fn lemma_byte_from(b: Seq<u8>, c: u8, from: int)
    requires
        0 <= from,
    ensures
        byte_from(b, c, from) matches Some(i) ==> from <= i < b.len() && b[i] == c && forall|m: int|
            from <= m < i ==> b[m] != c,
        byte_from(b, c, from) is None ==> forall|m: int| from <= m < b.len() ==> b[m] != c,
    decreases b.len() - from,
{
    if from < b.len() && b[from] != c {
        lemma_byte_from(b, c, from + 1);
    }
}

fn find_byte(b: &[u8], c: u8, from: usize) -> (r: Option<usize>)
    requires
        from <= b@.len(),
    ensures
        match byte_from(b@, c, from as int) {
            Some(i) => r == Some(i as usize),
            None => r is None,
        },
{
    let mut i = from;
    while i < b.len()
        invariant
            from <= i <= b@.len(),
            byte_from(b@, c, from as int) == byte_from(b@, c, i as int),
        decreases b@.len() - i,
    {
        if b[i] == c {
            return Some(i);
        }
        i = i + 1;
    }
    None
}

} // verus!

verus! {

/// `magnet`
pub const MAGNET_SCHEME: [u8; 6] = [109, 97, 103, 110, 101, 116];

/// `so`
pub const SO_KEY: [u8; 2] = [115, 111];

/// `xt`
pub const XT_KEY: [u8; 2] = [120, 116];

/// `urn:btih:`
pub const BTIH_PREFIX: [u8; 9] = [117, 114, 110, 58, 98, 116, 105, 104, 58];

/// `urn:btmh:1220`
pub const BTMH_PREFIX: [u8; 13] = [117, 114, 110, 58, 98, 116, 109, 104, 58, 49, 50, 50, 48];

pub open spec fn all_ascii(r: Seq<u8>) -> bool {
    forall|m: int| 0 <= m < r.len() ==> #[trigger] r[m] < 128
}

/// A 56-character base32 text that decodes, if at all, to exactly 32 bytes: no padding
/// before its last four characters, which are all padding.
pub open spec fn padded_sha256_base32(r: Seq<u8>) -> bool {
    &&& forall|m: int| 0 <= m < 52 ==> #[trigger] r[m] != 61u8
    &&& r.skip(52) == seq![61u8, 61u8, 61u8, 61u8]
}

/// An `xt` value whose hash would be decoded from base32 into the wrong number of bytes,
/// which librqbit does not check before copying: a 32-character BitTorrent v1 hash holding
/// padding, or a 56-character ASCII BitTorrent v2 hash not padded to exactly 32 bytes.
pub open spec fn hash_decode_may_panic(v: Seq<u8>) -> bool {
    ||| v.len() == 41 && v.take(9) == BTIH_PREFIX@ && v.skip(9).contains(61u8)
    ||| v.len() == 69 && v.take(13) == BTMH_PREFIX@ && all_ascii(v.skip(13))
        && !padded_sha256_base32(v.skip(13))
}

/// Most file indexes a selection can hold: a vector of more `usize` values would need
/// more than `isize::MAX` bytes.
pub open spec fn max_selected_files() -> int {
    isize::MAX as int / (usize::BITS as int / 8)
}

/// How many file indexes one item of an `so` value adds to the selection: `a-b` adds
/// `b - a + 1` (none when `a > b`), a single index adds one; an item that does not parse
/// adds none.
pub open spec fn so_item_count(item: Seq<u8>) -> nat {
    if item.len() == 0 {
        0
    } else {
        match byte_from(item, 45, 0) {
            Some(d) => match (
                parse_uint(item.take(d), usize::MAX as nat),
                parse_uint(item.skip(d + 1), usize::MAX as nat),
            ) {
                (Some(a), Some(b)) => if a <= b {
                    (b - a + 1) as nat
                } else {
                    0
                },
                _ => 0,
            },
            None => if parse_uint(item, usize::MAX as nat) is Some {
                1
            } else {
                0
            },
        }
    }
}

/// How many file indexes the `,`-separated items of an `so` value add, from byte `start`.
pub open spec fn so_count_from(v: Seq<u8>, start: int) -> nat
    decreases v.len() - start,
{
    if start < 0 || start > v.len() {
        0
    } else {
        match byte_from(v, 44, start) {
            None => so_item_count(v.subrange(start, v.len() as int)),
            Some(c) => if start <= c < v.len() {
                so_item_count(v.subrange(start, c)) + so_count_from(v, c + 1)
            } else {
                0
            },
        }
    }
}

/// How many file indexes all `so` pairs of a magnet query add to the selection.
pub open spec fn selected_file_count(ps: Seq<(Seq<u8>, Seq<u8>)>) -> nat
    decreases ps.len(),
{
    if ps.len() == 0 {
        0
    } else {
        selected_file_count(ps.drop_last()) + if ps.last().0 == SO_KEY@ {
            so_count_from(ps.last().1, 0)
        } else {
            0
        }
    }
}

/// A magnet link, given by its URL scheme and decoded query pairs, on which
/// `librqbit::Magnet::parse` panics or fails: an `xt` hash that would be decoded into the
/// wrong number of bytes, or `so` selections whose indexes could never fit in a vector.
pub open spec fn magnet_link_hazard(scheme: Seq<u8>, ps: Seq<(Seq<u8>, Seq<u8>)>) -> bool {
    &&& scheme == MAGNET_SCHEME@
    &&& {
        ||| exists|k: int|
            0 <= k < ps.len() && ps[k].0 == XT_KEY@ && #[trigger] hash_decode_may_panic(ps[k].1)
        ||| selected_file_count(ps) > max_selected_files()
    }
}

/// The pairs, by their bytes.
pub open spec fn pairs_view(ps: Seq<(Vec<u8>, Vec<u8>)>) -> Seq<(Seq<u8>, Seq<u8>)> {
    ps.map_values(|p: (Vec<u8>, Vec<u8>)| (p.0@, p.1@))
}

/// `n`, or one past the largest selection when it is larger.
pub open spec fn capped(n: nat) -> nat {
    if n > max_selected_files() {
        (max_selected_files() + 1) as nat
    } else {
        n
    }
}

} // verus!

verus! {

fn all_ascii_from(v: &[u8], from: usize) -> (r: bool)
    requires
        from <= v@.len(),
    ensures
        r == all_ascii(v@.skip(from as int)),
{
    let mut i = from;
    while i < v.len()
        invariant
            from <= i <= v@.len(),
            forall|m: int| from <= m < i ==> v@[m] < 128,
        decreases v@.len() - i,
    {
        if v[i] >= 128 {
            assert(v@.skip(from as int)[i - from] == v@[i as int]);
            return false;
        }
        i = i + 1;
    }
    assert forall|m: int| 0 <= m < v@.skip(from as int).len() implies #[trigger] v@.skip(
        from as int,
    )[m] < 128 by {
        assert(v@.skip(from as int)[m] == v@[m + from]);
    }
    true
}

fn padded_hash(v: &[u8]) -> (r: bool)
    requires
        v@.len() == 69,
    ensures
        r == padded_sha256_base32(v@.skip(13)),
{
    let ghost r = v@.skip(13);
    let mut i: usize = 13;
    while i < 65
        invariant
            13 <= i <= 65,
            v@.len() == 69,
            r == v@.skip(13),
            forall|m: int| 0 <= m < i - 13 ==> r[m] != 61u8,
        decreases 65 - i,
    {
        if v[i] == 61 {
            assert(r[i - 13] == 61u8);
            return false;
        }
        i = i + 1;
    }
    let tail = v[65] == 61 && v[66] == 61 && v[67] == 61 && v[68] == 61;
    if tail {
        assert(r.skip(52) =~= seq![61u8, 61u8, 61u8, 61u8]);
    } else {
        proof {
            if r.skip(52) == seq![61u8, 61u8, 61u8, 61u8] {
                assert(r.skip(52)[0] == v@[65] && r.skip(52)[1] == v@[66]);
                assert(r.skip(52)[2] == v@[67] && r.skip(52)[3] == v@[68]);
            }
        }
    }
    tail
}

fn hash_may_panic(v: &[u8]) -> (r: bool)
    ensures
        r == hash_decode_may_panic(v@),
{
    let mut v1 = false;
    if v.len() == 41 {
        let head = slice_subrange(v, 0, 9);
        assert(head@ =~= v@.take(9));
        if bytes_eq(head, BTIH_PREFIX.as_slice()) {
            proof {
                lemma_byte_from(v@, 61, 9);
            }
            match find_byte(v, 61, 9) {
                Some(m) => {
                    assert(v@.skip(9)[m - 9] == 61u8);
                    v1 = true;
                },
                None => {
                    assert forall|k: int| 0 <= k < v@.skip(9).len() implies v@.skip(9)[k]
                        != 61u8 by {
                        assert(v@.skip(9)[k] == v@[k + 9]);
                    }
                },
            }
        }
    }
    let mut v2 = false;
    if v.len() == 69 {
        let head = slice_subrange(v, 0, 13);
        assert(head@ =~= v@.take(13));
        if bytes_eq(head, BTMH_PREFIX.as_slice()) {
            v2 = all_ascii_from(v, 13) && !padded_hash(v);
        }
    }
    v1 || v2
}

fn selection_limit() -> (r: usize)
    ensures
        r == max_selected_files(),
        2 <= r,
        2 * r + 2 <= usize::MAX,
{
    assert(usize::BITS == 32 || usize::BITS == 64);
    if usize::BITS == 64 {
        assert(isize::MAX == 0x7fff_ffff_ffff_ffff && usize::MAX == 0xffff_ffff_ffff_ffff);
        (isize::MAX as usize) / 8
    } else {
        assert(isize::MAX == 0x7fff_ffff && usize::MAX == 0xffff_ffff);
        (isize::MAX as usize) / 4
    }
}

fn item_count_capped(item: &[u8], limit: usize) -> (r: usize)
    requires
        limit == max_selected_files(),
        2 <= limit,
    ensures
        r == capped(so_item_count(item@)),
{
    if item.len() == 0 {
        return 0;
    }
    proof {
        lemma_byte_from(item@, 45, 0);
    }
    match find_byte(item, 45, 0) {
        Some(d) => {
            let a_bytes = slice_subrange(item, 0, d);
            let b_bytes = slice_subrange(item, d + 1, item.len());
            assert(a_bytes@ =~= item@.take(d as int));
            assert(b_bytes@ =~= item@.skip(d + 1));
            match (parse_usize(a_bytes), parse_usize(b_bytes)) {
                (Some(a), Some(b)) => {
                    if a <= b {
                        if b - a >= limit {
                            limit + 1
                        } else {
                            b - a + 1
                        }
                    } else {
                        0
                    }
                },
                _ => 0,
            }
        },
        None => {
            if parse_usize(item).is_some() {
                1
            } else {
                0
            }
        },
    }
}

fn so_count_capped(v: &[u8], limit: usize) -> (r: usize)
    requires
        limit == max_selected_files(),
        2 <= limit,
        2 * limit + 2 <= usize::MAX,
    ensures
        r == capped(so_count_from(v@, 0)),
{
    let mut acc: usize = 0;
    let ghost mut exact: nat = 0;
    let mut start: usize = 0;
    let mut finished = false;
    let n = v.len();
    while !finished
        invariant
            n == v@.len(),
            start <= v@.len(),
            limit == max_selected_files(),
            2 <= limit,
            2 * limit + 2 <= usize::MAX,
            !finished ==> so_count_from(v@, 0) == exact + so_count_from(v@, start as int),
            finished ==> so_count_from(v@, 0) == exact,
            acc == capped(exact),
        decreases v@.len() - start + if finished {
            0int
        } else {
            1int
        },
    {
        proof {
            lemma_byte_from(v@, 44, start as int);
        }
        let end = match find_byte(v, 44, start) {
            Some(c) => {
                assert(byte_from(v@, 44, start as int) == Some(c as int));
                c
            },
            None => v.len(),
        };
        let item = slice_subrange(v, start, end);
        assert(item@ =~= v@.subrange(start as int, end as int));
        let n = item_count_capped(item, limit);
        proof {
            exact = exact + so_item_count(v@.subrange(start as int, end as int));
        }
        let sum = acc + n;
        acc = if sum > limit {
            limit + 1
        } else {
            sum
        };
        if end < v.len() {
            start = end + 1;
        } else {
            finished = true;
        }
    }
    acc
}

/// Whether a magnet link, given by its URL scheme and decoded query pairs, is one that
/// `librqbit::Magnet::parse` panics or fails on (see [`magnet_link_hazard`]).
pub fn magnet_parts_hazardous(scheme: &[u8], pairs: &[(Vec<u8>, Vec<u8>)]) -> (r: bool)
    ensures
        r == magnet_link_hazard(scheme@, pairs_view(pairs@)),
{
    if !bytes_eq(scheme, MAGNET_SCHEME.as_slice()) {
        return false;
    }
    let limit = selection_limit();
    let ghost ps = pairs_view(pairs@);
    let mut total: usize = 0;
    let mut i: usize = 0;
    while i < pairs.len()
        invariant
            i <= pairs@.len(),
            scheme@ == MAGNET_SCHEME@,
            ps == pairs_view(pairs@),
            limit == max_selected_files(),
            2 <= limit,
            2 * limit + 2 <= usize::MAX,
            forall|k: int|
                0 <= k < i ==> !(ps[k].0 == XT_KEY@ && #[trigger] hash_decode_may_panic(ps[k].1)),
            total == capped(selected_file_count(ps.take(i as int))),
        decreases pairs@.len() - i,
    {
        let (k, v) = &pairs[i];
        assert(ps[i as int] == (k@, v@));
        if bytes_eq(k.as_slice(), XT_KEY.as_slice()) && hash_may_panic(v.as_slice()) {
            assert(ps[i as int].0 == XT_KEY@ && hash_decode_may_panic(ps[i as int].1));
            return true;
        }
        assert(ps.take(i + 1).drop_last() =~= ps.take(i as int));
        let n = if bytes_eq(k.as_slice(), SO_KEY.as_slice()) {
            so_count_capped(v.as_slice(), limit)
        } else {
            0
        };
        let sum = total + n;
        total = if sum > limit {
            limit + 1
        } else {
            sum
        };
        i = i + 1;
    }
    assert(ps.take(i as int) =~= ps);
    total > limit
}

} // verus!

verus! {

/// Deepest nesting of lists and dictionaries accepted in a `.torrent` file. The parser
/// recurses once per level and has no limit of its own, so deeper files can exhaust its
/// stack.
pub const MAX_BENCODE_DEPTH: usize = 512;

/// Walking the bencode tokens of a `.torrent` file from `p` with `depth` containers open,
/// as librqbit's deserializer reads them: the walk reaches the end of the bytes between
/// tokens with a container still open, opens more than [`MAX_BENCODE_DEPTH`] containers,
/// or meets a string whose declared length overflows `usize` arithmetic
/// (`length + digits + 1` past `usize::MAX`). It ends without any of these at the `e` that
/// closes the outermost dictionary, at a byte the deserializer refuses, or at an integer
/// or string running past the end, which the deserializer reports as an error.
pub open spec fn bencode_hazard_from(b: Seq<u8>, p: int, depth: nat) -> bool
    decreases b.len() - p,
{
    if p < 0 || p >= b.len() {
        depth > 0
    } else if b[p] == 100 || b[p] == 108 {
        if depth + 1 > MAX_BENCODE_DEPTH {
            true
        } else {
            bencode_hazard_from(b, p + 1, depth + 1)
        }
    } else if b[p] == 101 {
        if depth <= 1 {
            false
        } else {
            bencode_hazard_from(b, p + 1, (depth - 1) as nat)
        }
    } else if b[p] == 105 {
        match byte_from(b, 101, p + 1) {
            None => false,
            Some(e) => if p < e < b.len() {
                bencode_hazard_from(b, e + 1, depth)
            } else {
                false
            },
        }
    } else if is_digit(b[p]) {
        match byte_from(b, 58, p) {
            None => false,
            Some(k) => if p <= k < b.len() {
                match parse_uint(b.subrange(p, k), usize::MAX as nat) {
                    None => false,
                    Some(len) => if len + (k - p) + 1 > usize::MAX {
                        true
                    } else if k + 1 + len > b.len() {
                        false
                    } else {
                        bencode_hazard_from(b, k + 1 + len, depth)
                    },
                }
            } else {
                false
            },
        }
    } else {
        false
    }
}

/// A `.torrent` file that `librqbit::torrent_from_bytes` may panic on or exhaust its
/// stack on: a dictionary whose structure breaks off before it closes, nests too deeply,
/// or declares a string length overflowing the parser's arithmetic (see
/// [`bencode_hazard_from`]). No such file is ever accepted by that parser.
pub open spec fn torrent_hazard(b: Seq<u8>) -> bool {
    b.len() > 0 && b[0] == 100 && bencode_hazard_from(b, 1, 1)
}

/// Whether a `.torrent` file is one `librqbit::torrent_from_bytes` may panic on (see
/// [`torrent_hazard`]).
pub fn torrent_file_is_hazardous(b: &[u8]) -> (r: bool)
    ensures
        r == torrent_hazard(b@),
{
    if b.len() == 0 || b[0] != 100 {
        return false;
    }
    let mut p: usize = 1;
    let mut depth: usize = 1;
    while p < b.len()
        invariant
            1 <= p <= b@.len(),
            1 <= depth <= p,
            b@.len() > 0 && b@[0] == 100,
            torrent_hazard(b@) == bencode_hazard_from(b@, p as int, depth as nat),
        decreases b@.len() - p,
    {
        let c = b[p];
        if c == 100 || c == 108 {
            if depth + 1 > MAX_BENCODE_DEPTH {
                return true;
            }
            depth = depth + 1;
            p = p + 1;
        } else if c == 101 {
            if depth <= 1 {
                return false;
            }
            depth = depth - 1;
            p = p + 1;
        } else if c == 105 {
            proof {
                lemma_byte_from(b@, 101, p + 1);
            }
            match find_byte(b, 101, p + 1) {
                None => {
                    return false;
                },
                Some(e) => {
                    assert(byte_from(b@, 101, p + 1) == Some(e as int));
                    p = e + 1;
                },
            }
        } else if 48 <= c && c <= 57 {
            proof {
                lemma_byte_from(b@, 58, p as int);
            }
            match find_byte(b, 58, p) {
                None => {
                    return false;
                },
                Some(k) => {
                    assert(byte_from(b@, 58, p as int) == Some(k as int));
                    let digits = slice_subrange(b, p, k);
                    assert(digits@ =~= b@.subrange(p as int, k as int));
                    match parse_usize(digits) {
                        None => {
                            return false;
                        },
                        Some(len) => {
                            if len > usize::MAX - (k - p) - 1 {
                                return true;
                            }
                            if len > b.len() - (k + 1) {
                                return false;
                            }
                            p = k + 1 + len;
                        },
                    }
                },
            }
        } else {
            return false;
        }
    }
    true
}

} // verus!

verus! {

proof fn lemma_byte_from_at(b: Seq<u8>, c: u8, from: int, k: int)
    requires
        0 <= from <= k < b.len(),
        b[k] == c,
        forall|m: int| from <= m < k ==> b[m] != c,
    ensures
        byte_from(b, c, from) == Some(k),
    decreases k - from,
{
    if from < k {
        lemma_byte_from_at(b, c, from + 1, k);
    }
}

/// A string whose declared length fits in the file and in the parser's arithmetic never
/// makes a `.torrent` file hazardous, however long it is: the walk goes on after it as if
/// it were not there.
pub proof fn law_fitting_string_is_no_hazard(b: Seq<u8>, p: int, k: int, len: nat, depth: nat)
    requires
        0 <= p < k < b.len(),
        is_digit(b[p]),
        b[k] == 58u8,
        parse_uint(b.subrange(p, k), usize::MAX as nat) == Some(len),
        len + (k - p) + 1 <= usize::MAX,
        k + 1 + len <= b.len(),
    ensures
        bencode_hazard_from(b, p, depth) == bencode_hazard_from(b, k + 1 + len, depth),
{
    let d = b.subrange(p, k);
    assert(d[0] == b[p]);
    assert(crate::peers::unsigned_digits(d) == d);
    assert forall|m: int| p <= m < k implies b[m] != 58u8 by {
        assert(d[m - p] == b[m]);
        assert(is_digit(d[m - p]));
    }
    lemma_byte_from_at(b, 58, p, k);
}

} // verus!
