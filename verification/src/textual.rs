//! Digit encodings and string building blocks shared by the wire formats.

use vstd::prelude::*;
use vstd::string::StringSliceAdditionalSpecFns;
use vstd::utf8::*;

verus! {

/// The characters of an ASCII byte string.
pub open spec fn ascii_chars(b: Seq<u8>) -> Seq<char> {
    b.map_values(|x: u8| x as char)
}

/// Shortest decimal spelling of `n`, as ASCII digit bytes.
pub open spec fn dec_digits(n: nat) -> Seq<u8>
    decreases n,
{
    if n < 10 {
        seq![(48 + n) as u8]
    } else {
        dec_digits(n / 10).push((48 + n % 10) as u8)
    }
}

/// Lowercase hexadecimal digit for a nibble.
pub open spec fn hex_digit(v: nat) -> u8 {
    if v < 10 {
        (48 + v) as u8
    } else {
        (87 + v) as u8
    }
}

/// The `width` low hexadecimal digits of `n`, most significant first, zero padded.
pub open spec fn hex_fixed(n: nat, width: nat) -> Seq<u8>
    decreases width,
{
    if width == 0 {
        seq![]
    } else {
        hex_fixed(n / 16, (width - 1) as nat).push(hex_digit(n % 16))
    }
}

pub proof fn lemma_dec_digits_ascii(n: nat)
    ensures
        dec_digits(n).len() > 0,
        forall|i: int| 0 <= i < dec_digits(n).len() ==> 48 <= #[trigger] dec_digits(n)[i] <= 57,
    decreases n,
{
    if n >= 10 {
        lemma_dec_digits_ascii(n / 10);
    }
}

pub proof fn lemma_hex_fixed_shape(n: nat, width: nat)
    ensures
        hex_fixed(n, width).len() == width,
        forall|i: int|
            0 <= i < width ==> {
                let c = #[trigger] hex_fixed(n, width)[i];
                (48 <= c <= 57) || (97 <= c <= 102)
            },
    decreases width,
{
    if width > 0 {
        lemma_hex_fixed_shape(n / 16, (width - 1) as nat);
    }
}

/// Appends the decimal spelling of `n` to a byte buffer.
pub fn push_dec(out: &mut Vec<u8>, n: u64)
    ensures
        final(out)@ == old(out)@ + dec_digits(n as nat),
    decreases n,
{
    if n >= 10 {
        push_dec(out, n / 10);
    }
    out.push((48 + n % 10) as u8);
}

/// `String::push`: appends one character.
#[verifier::external_body]
pub(crate) fn push_char(s: &mut String, c: char)
    ensures
        final(s)@ == old(s)@.push(c),
{
    s.push(c);
}

/// Appends ASCII bytes to a string, one character per byte.
pub fn append_ascii(s: &mut String, b: &[u8])
    requires
        forall|i: int| 0 <= i < b@.len() ==> b@[i] < 128,
    ensures
        final(s)@ == old(s)@ + ascii_chars(b@),
{
    let ghost start = s@;
    let mut i: usize = 0;
    while i < b.len()
        invariant
            i <= b@.len(),
            s@ == start + ascii_chars(b@.subrange(0, i as int)),
        decreases b@.len() - i,
    {
        push_char(s, b[i] as char);
        i = i + 1;
        assert(b@.subrange(0, i as int) =~= b@.subrange(0, (i - 1) as int).push(b@[i - 1]));
        assert(ascii_chars(b@.subrange(0, i as int)) =~= ascii_chars(
            b@.subrange(0, (i - 1) as int),
        ).push(b@[i - 1] as char));
    }
    assert(b@.subrange(0, i as int) =~= b@);
}

/// Appends the characters of `t` to a string.
pub fn append_text(s: &mut String, t: &str)
    ensures
        final(s)@ == old(s)@ + t@,
{
    let ghost start = s@;
    let cs = chars_of(t);
    let mut i: usize = 0;
    while i < cs.len()
        invariant
            cs@ == t@,
            i <= cs@.len(),
            s@ == start + cs@.take(i as int),
        decreases cs@.len() - i,
    {
        push_char(s, cs[i]);
        i = i + 1;
        assert(start + cs@.take(i as int) =~= (start + cs@.take(i - 1)).push(cs@[i - 1]));
    }
    assert(cs@.take(i as int) =~= t@);
}

/// Appends the decimal spelling of `n` to a string.
pub fn append_dec(s: &mut String, n: u64)
    ensures
        final(s)@ == old(s)@ + ascii_chars(dec_digits(n as nat)),
{
    let mut digits: Vec<u8> = Vec::new();
    push_dec(&mut digits, n);
    proof {
        lemma_dec_digits_ascii(n as nat);
        assert(digits@ =~= dec_digits(n as nat));
    }
    append_ascii(s, digits.as_slice());
}

/// Appends the `width` low hexadecimal digits of `n` (lowercase, zero padded).
pub fn push_hex_fixed(out: &mut Vec<u8>, n: u64, width: u32)
    ensures
        final(out)@ == old(out)@ + hex_fixed(n as nat, width as nat),
    decreases width,
{
    if width > 0 {
        push_hex_fixed(out, n / 16, width - 1);
        let d = n % 16;
        if d < 10 {
            out.push((48 + d) as u8);
        } else {
            out.push((87 + d) as u8);
        }
    }
}

/// `std::str::from_utf8`: the string whose encoding is `b`, when `b` is valid UTF-8.
#[verifier::external_body]
pub(crate) fn utf8_str(b: &[u8]) -> (r: Option<&str>)
    ensures
        r is Some <==> valid_utf8(b@),
        r matches Some(s) ==> s.spec_bytes() == b@,
{
    std::str::from_utf8(b).ok()
}

} // verus!

verus! {

/// The characters of `s`, in order.
pub fn chars_of(s: &str) -> (v: Vec<char>)
    ensures
        v@ == s@,
{
    let mut v: Vec<char> = Vec::new();
    for c in it: s.chars()
        invariant
            v@ == it.seq().take(it.index()),
            it.seq() == s@,
    {
        v.push(c);
        assert(it.seq().take(it.index() + 1) =~= it.seq().take(it.index()).push(c));
    }
    assert(v@ =~= s@);
    v
}

} // verus!

verus! {

/// In valid UTF-8, a position is a character boundary exactly when it is the end or
/// holds a byte that is not a continuation byte.
pub proof fn lemma_boundary_by_byte(w: Seq<u8>, i: int)
    requires
        valid_utf8(w),
        0 <= i <= w.len(),
    ensures
        is_char_boundary(w, i) <==> (i == w.len() || !is_continuation_byte(w[i])),
{
    is_char_boundary_start_end_of_seq(w);
    if i < w.len() {
        is_char_boundary_iff_not_is_continuation_byte(w, i);
    }
}

/// In valid UTF-8, the position after an ASCII byte is a character boundary.
pub proof fn lemma_boundary_after_ascii(w: Seq<u8>, i: int)
    requires
        valid_utf8(w),
        0 <= i < w.len(),
        w[i] < 128,
    ensures
        is_char_boundary(w, i + 1),
    decreases w.len(),
{
    lemma_boundary_by_byte(w, i);
    if i == 0 {
        reveal_with_fuel(is_char_boundary, 2);
    } else {
        let l = length_of_first_scalar(w);
        let rest = pop_first_scalar(w);
        assert(is_char_boundary(rest, i - l));
        assert(i - l >= 0) by {
            if i - l < 0 {
                assert(!is_char_boundary(rest, i - l));
            }
        }
        assert(rest[i - l] == w[i]);
        lemma_boundary_after_ascii(rest, i - l);
    }
}

/// The substring of `s` between two byte positions that are character boundaries.
pub fn str_cut(s: &str, a: usize, b: usize) -> (r: &str)
    requires
        a <= b <= s.spec_bytes().len(),
        is_char_boundary(s.spec_bytes(), a as int),
        is_char_boundary(s.spec_bytes(), b as int),
    ensures
        r.spec_bytes() == s.spec_bytes().subrange(a as int, b as int),
{
    let ghost w = s.spec_bytes();
    proof {
        encode_utf8_valid_utf8(s@);
    }
    let (head, _) = s.split_at(b);
    let ghost hw = head.spec_bytes();
    proof {
        valid_utf8_split(w, b as int);
        assert(hw =~= w.subrange(0, b as int));
        lemma_boundary_by_byte(w, a as int);
        lemma_boundary_by_byte(hw, a as int);
        if a < b {
            assert(hw[a as int] == w[a as int]);
        }
    }
    let (_, r) = head.split_at(a);
    assert(r.spec_bytes() =~= w.subrange(a as int, b as int));
    r
}

} // verus!

verus! {

pub proof fn lemma_push_contains<A>(s: Seq<A>, x: A, y: A)
    ensures
        s.push(x).contains(y) <==> (s.contains(y) || x == y),
{
    if s.contains(y) {
        let i = choose|i: int| 0 <= i < s.len() && s[i] == y;
        assert(s.push(x)[i] == y);
    }
    if x == y {
        assert(s.push(x)[s.len() as int] == y);
    }
    if s.push(x).contains(y) {
        let i = choose|i: int| 0 <= i < s.push(x).len() && s.push(x)[i] == y;
        if i < s.len() {
            assert(s[i] == y);
        }
    }
}

} // verus!
