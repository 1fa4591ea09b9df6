//! Character-level helpers shared by the parsers and printers of the crate:
//! character classes, trimming, decimal numerals and string building.

use vstd::prelude::*;

verus! {

/// Appends one character to a `String` (std `String::push`).
/// The contract claims what the std documentation states: the character is
/// added at the end and nothing else changes.
#[verifier::external_body]
pub(crate) fn push_char(s: &mut String, c: char)
    ensures
        final(s)@ == old(s)@.push(c),
{
    s.push(c);
}

/// The characters of `s`, in order.
pub fn chars_of(s: &str) -> (res: Vec<char>)
    ensures
        res@ == s@,
{
    let mut res: Vec<char> = Vec::new();
    for c in it: s.chars()
        invariant
            res@ == it.seq().take(it.index() as int),
    {
        res.push(c);
    }
    res
}

/// Appends the characters `v[lo..hi]` to `out`.
pub(crate) fn push_range(out: &mut String, v: &Vec<char>, lo: usize, hi: usize)
    requires
        lo <= hi <= v@.len(),
    ensures
        final(out)@ == old(out)@ + v@.subrange(lo as int, hi as int),
{
    let mut i = lo;
    while i < hi
        invariant
            lo <= i <= hi <= v@.len(),
            out@ == old(out)@ + v@.subrange(lo as int, i as int),
        decreases hi - i,
    {
        push_char(out, v[i]);
        assert(v@.subrange(lo as int, i + 1) =~= v@.subrange(lo as int, i as int).push(v@[i as int]));
        i = i + 1;
    }
}

/// Appends all characters of `s` to `out`.
pub(crate) fn push_str(out: &mut String, s: &str)
    ensures
        final(out)@ == old(out)@ + s@,
{
    let v = chars_of(s);
    push_range(out, &v, 0, v.len());
    assert(v@.subrange(0, v@.len() as int) =~= v@);
}

/// A string made of the characters `v[lo..hi]`.
pub(crate) fn string_of_range(v: &Vec<char>, lo: usize, hi: usize) -> (res: String)
    requires
        lo <= hi <= v@.len(),
    ensures
        res@ == v@.subrange(lo as int, hi as int),
{
    let mut out = String::new();
    push_range(&mut out, v, lo, hi);
    out
}

/// Rust's `char::is_whitespace`: membership in the Unicode `White_Space`
/// property.
pub open spec fn is_white_space(c: char) -> bool {
    let v = c as u32;
    ||| (0x9 <= v && v <= 0xd)
    ||| v == 0x20
    ||| v == 0x85
    ||| v == 0xa0
    ||| v == 0x1680
    ||| (0x2000 <= v && v <= 0x200a)
    ||| v == 0x2028
    ||| v == 0x2029
    ||| v == 0x202f
    ||| v == 0x205f
    ||| v == 0x3000
}

/// Decides `is_white_space`.
pub fn white_space(c: char) -> (r: bool)
    ensures
        r == is_white_space(c),
{
    let v = c as u32;
    (0x9 <= v && v <= 0xd) || v == 0x20 || v == 0x85 || v == 0xa0 || v == 0x1680 || (0x2000 <= v
        && v <= 0x200a) || v == 0x2028 || v == 0x2029 || v == 0x202f || v == 0x205f || v == 0x3000
}

/// A decimal digit in the Unicode sense (general category `Nd`, Unicode
/// 16.0), the class that `\d` denotes in a Unicode-aware pattern.
pub open spec fn is_unicode_digit(c: char) -> bool {
    let v = c as u32;
    ||| (0x30 <= v && v <= 0x39)
    ||| (0x660 <= v && v <= 0x669)
    ||| (0x6f0 <= v && v <= 0x6f9)
    ||| (0x7c0 <= v && v <= 0x7c9)
    ||| (0x966 <= v && v <= 0x96f)
    ||| (0x9e6 <= v && v <= 0x9ef)
    ||| (0xa66 <= v && v <= 0xa6f)
    ||| (0xae6 <= v && v <= 0xaef)
    ||| (0xb66 <= v && v <= 0xb6f)
    ||| (0xbe6 <= v && v <= 0xbef)
    ||| (0xc66 <= v && v <= 0xc6f)
    ||| (0xce6 <= v && v <= 0xcef)
    ||| (0xd66 <= v && v <= 0xd6f)
    ||| (0xde6 <= v && v <= 0xdef)
    ||| (0xe50 <= v && v <= 0xe59)
    ||| (0xed0 <= v && v <= 0xed9)
    ||| (0xf20 <= v && v <= 0xf29)
    ||| (0x1040 <= v && v <= 0x1049)
    ||| (0x1090 <= v && v <= 0x1099)
    ||| (0x17e0 <= v && v <= 0x17e9)
    ||| (0x1810 <= v && v <= 0x1819)
    ||| (0x1946 <= v && v <= 0x194f)
    ||| (0x19d0 <= v && v <= 0x19d9)
    ||| (0x1a80 <= v && v <= 0x1a89)
    ||| (0x1a90 <= v && v <= 0x1a99)
    ||| (0x1b50 <= v && v <= 0x1b59)
    ||| (0x1bb0 <= v && v <= 0x1bb9)
    ||| (0x1c40 <= v && v <= 0x1c49)
    ||| (0x1c50 <= v && v <= 0x1c59)
    ||| (0xa620 <= v && v <= 0xa629)
    ||| (0xa8d0 <= v && v <= 0xa8d9)
    ||| (0xa900 <= v && v <= 0xa909)
    ||| (0xa9d0 <= v && v <= 0xa9d9)
    ||| (0xa9f0 <= v && v <= 0xa9f9)
    ||| (0xaa50 <= v && v <= 0xaa59)
    ||| (0xabf0 <= v && v <= 0xabf9)
    ||| (0xff10 <= v && v <= 0xff19)
    ||| (0x104a0 <= v && v <= 0x104a9)
    ||| (0x10d30 <= v && v <= 0x10d39)
    ||| (0x10d40 <= v && v <= 0x10d49)
    ||| (0x11066 <= v && v <= 0x1106f)
    ||| (0x110f0 <= v && v <= 0x110f9)
    ||| (0x11136 <= v && v <= 0x1113f)
    ||| (0x111d0 <= v && v <= 0x111d9)
    ||| (0x112f0 <= v && v <= 0x112f9)
    ||| (0x11450 <= v && v <= 0x11459)
    ||| (0x114d0 <= v && v <= 0x114d9)
    ||| (0x11650 <= v && v <= 0x11659)
    ||| (0x116c0 <= v && v <= 0x116c9)
    ||| (0x116d0 <= v && v <= 0x116e3)
    ||| (0x11730 <= v && v <= 0x11739)
    ||| (0x118e0 <= v && v <= 0x118e9)
    ||| (0x11950 <= v && v <= 0x11959)
    ||| (0x11bf0 <= v && v <= 0x11bf9)
    ||| (0x11c50 <= v && v <= 0x11c59)
    ||| (0x11d50 <= v && v <= 0x11d59)
    ||| (0x11da0 <= v && v <= 0x11da9)
    ||| (0x11f50 <= v && v <= 0x11f59)
    ||| (0x16130 <= v && v <= 0x16139)
    ||| (0x16a60 <= v && v <= 0x16a69)
    ||| (0x16ac0 <= v && v <= 0x16ac9)
    ||| (0x16b50 <= v && v <= 0x16b59)
    ||| (0x16d70 <= v && v <= 0x16d79)
    ||| (0x1ccf0 <= v && v <= 0x1ccf9)
    ||| (0x1d7ce <= v && v <= 0x1d7ff)
    ||| (0x1e140 <= v && v <= 0x1e149)
    ||| (0x1e2f0 <= v && v <= 0x1e2f9)
    ||| (0x1e4f0 <= v && v <= 0x1e4f9)
    ||| (0x1e5f1 <= v && v <= 0x1e5fa)
    ||| (0x1e950 <= v && v <= 0x1e959)
    ||| (0x1fbf0 <= v && v <= 0x1fbf9)
}

/// Decides `is_unicode_digit`.
pub fn unicode_digit(c: char) -> (r: bool)
    ensures
        r == is_unicode_digit(c),
{
    let v = c as u32;
    (0x30 <= v && v <= 0x39)
        || (0x660 <= v && v <= 0x669)
        || (0x6f0 <= v && v <= 0x6f9)
        || (0x7c0 <= v && v <= 0x7c9)
        || (0x966 <= v && v <= 0x96f)
        || (0x9e6 <= v && v <= 0x9ef)
        || (0xa66 <= v && v <= 0xa6f)
        || (0xae6 <= v && v <= 0xaef)
        || (0xb66 <= v && v <= 0xb6f)
        || (0xbe6 <= v && v <= 0xbef)
        || (0xc66 <= v && v <= 0xc6f)
        || (0xce6 <= v && v <= 0xcef)
        || (0xd66 <= v && v <= 0xd6f)
        || (0xde6 <= v && v <= 0xdef)
        || (0xe50 <= v && v <= 0xe59)
        || (0xed0 <= v && v <= 0xed9)
        || (0xf20 <= v && v <= 0xf29)
        || (0x1040 <= v && v <= 0x1049)
        || (0x1090 <= v && v <= 0x1099)
        || (0x17e0 <= v && v <= 0x17e9)
        || (0x1810 <= v && v <= 0x1819)
        || (0x1946 <= v && v <= 0x194f)
        || (0x19d0 <= v && v <= 0x19d9)
        || (0x1a80 <= v && v <= 0x1a89)
        || (0x1a90 <= v && v <= 0x1a99)
        || (0x1b50 <= v && v <= 0x1b59)
        || (0x1bb0 <= v && v <= 0x1bb9)
        || (0x1c40 <= v && v <= 0x1c49)
        || (0x1c50 <= v && v <= 0x1c59)
        || (0xa620 <= v && v <= 0xa629)
        || (0xa8d0 <= v && v <= 0xa8d9)
        || (0xa900 <= v && v <= 0xa909)
        || (0xa9d0 <= v && v <= 0xa9d9)
        || (0xa9f0 <= v && v <= 0xa9f9)
        || (0xaa50 <= v && v <= 0xaa59)
        || (0xabf0 <= v && v <= 0xabf9)
        || (0xff10 <= v && v <= 0xff19)
        || (0x104a0 <= v && v <= 0x104a9)
        || (0x10d30 <= v && v <= 0x10d39)
        || (0x10d40 <= v && v <= 0x10d49)
        || (0x11066 <= v && v <= 0x1106f)
        || (0x110f0 <= v && v <= 0x110f9)
        || (0x11136 <= v && v <= 0x1113f)
        || (0x111d0 <= v && v <= 0x111d9)
        || (0x112f0 <= v && v <= 0x112f9)
        || (0x11450 <= v && v <= 0x11459)
        || (0x114d0 <= v && v <= 0x114d9)
        || (0x11650 <= v && v <= 0x11659)
        || (0x116c0 <= v && v <= 0x116c9)
        || (0x116d0 <= v && v <= 0x116e3)
        || (0x11730 <= v && v <= 0x11739)
        || (0x118e0 <= v && v <= 0x118e9)
        || (0x11950 <= v && v <= 0x11959)
        || (0x11bf0 <= v && v <= 0x11bf9)
        || (0x11c50 <= v && v <= 0x11c59)
        || (0x11d50 <= v && v <= 0x11d59)
        || (0x11da0 <= v && v <= 0x11da9)
        || (0x11f50 <= v && v <= 0x11f59)
        || (0x16130 <= v && v <= 0x16139)
        || (0x16a60 <= v && v <= 0x16a69)
        || (0x16ac0 <= v && v <= 0x16ac9)
        || (0x16b50 <= v && v <= 0x16b59)
        || (0x16d70 <= v && v <= 0x16d79)
        || (0x1ccf0 <= v && v <= 0x1ccf9)
        || (0x1d7ce <= v && v <= 0x1d7ff)
        || (0x1e140 <= v && v <= 0x1e149)
        || (0x1e2f0 <= v && v <= 0x1e2f9)
        || (0x1e4f0 <= v && v <= 0x1e4f9)
        || (0x1e5f1 <= v && v <= 0x1e5fa)
        || (0x1e950 <= v && v <= 0x1e959)
        || (0x1fbf0 <= v && v <= 0x1fbf9)
}

/// An ASCII digit `0`..`9`.
pub open spec fn is_ascii_digit(c: char) -> bool {
    '0' <= c && c <= '9'
}

/// The value of an ASCII digit.
pub open spec fn digit_value(c: char) -> int {
    c as int - '0' as int
}

/// The ASCII digit whose value is `d` (for `0 <= d < 10`).
pub open spec fn digit_char(d: int) -> char {
    (d + '0' as int) as char
}

/// The decimal numeral of `n`, without sign or leading zeros.
pub open spec fn decimal(n: nat) -> Seq<char>
    decreases n,
{
    if n < 10 {
        seq![digit_char(n as int)]
    } else {
        decimal(n / 10).push(digit_char((n % 10) as int))
    }
}

/// Appends the decimal numeral of `n` to `out`.
pub(crate) fn push_decimal(out: &mut String, n: u64)
    ensures
        final(out)@ == old(out)@ + decimal(n as nat),
    decreases n,
{
    if n >= 10 {
        push_decimal(out, n / 10);
    }
    let d = (n % 10) as u8;
    let c = (d + 48u8) as char;
    push_char(out, c);
    assert(old(out)@ + decimal(n as nat) =~= out@);
}

/// Number of white-space characters at the start of `s`.
pub open spec fn leading_ws(s: Seq<char>) -> nat
    decreases s.len(),
{
    if s.len() > 0 && is_white_space(s[0]) {
        1 + leading_ws(s.drop_first())
    } else {
        0
    }
}

/// Number of white-space characters at the end of `s`.
pub open spec fn trailing_ws(s: Seq<char>) -> nat
    decreases s.len(),
{
    if s.len() > 0 && is_white_space(s.last()) {
        1 + trailing_ws(s.drop_last())
    } else {
        0
    }
}

/// `s` without leading and trailing white space (std `str::trim`).
pub open spec fn trim(s: Seq<char>) -> Seq<char> {
    let t = s.skip(leading_ws(s) as int);
    t.take(t.len() - trailing_ws(t))
}

proof fn lemma_leading_ws(s: Seq<char>, a: int)
    requires
        0 <= a <= s.len(),
        forall|k: int| 0 <= k < a ==> is_white_space(#[trigger] s[k]),
        a == s.len() || !is_white_space(s[a]),
    ensures
        leading_ws(s) == a,
    decreases a,
{
    if a > 0 {
        let t = s.drop_first();
        assert forall|k: int| 0 <= k < a - 1 implies is_white_space(#[trigger] t[k]) by {
            assert(t[k] == s[k + 1]);
        }
        lemma_leading_ws(t, a - 1);
    }
}

proof fn lemma_trailing_ws(s: Seq<char>, b: int)
    requires
        0 <= b <= s.len(),
        forall|k: int| b <= k < s.len() ==> is_white_space(#[trigger] s[k]),
        b == 0 || !is_white_space(s[b - 1]),
    ensures
        trailing_ws(s) == s.len() - b,
    decreases s.len() - b,
{
    if b < s.len() {
        let t = s.drop_last();
        assert forall|k: int| b <= k < t.len() implies is_white_space(#[trigger] t[k]) by {
            assert(t[k] == s[k]);
        }
        lemma_trailing_ws(t, b);
    }
}

/// The bounds of `trim(v[lo..hi])` inside `v`.
pub(crate) fn trim_bounds(v: &Vec<char>, lo: usize, hi: usize) -> (res: (usize, usize))
    requires
        lo <= hi <= v@.len(),
    ensures
        lo <= res.0 <= res.1 <= hi,
        v@.subrange(res.0 as int, res.1 as int) == trim(v@.subrange(lo as int, hi as int)),
{
    let ghost s = v@.subrange(lo as int, hi as int);
    let mut a = lo;
    while a < hi && white_space(v[a])
        invariant
            lo <= a <= hi <= v@.len(),
            forall|k: int| lo <= k < a ==> is_white_space(#[trigger] v@[k]),
        decreases hi - a,
    {
        a = a + 1;
    }
    proof {
        assert forall|k: int| 0 <= k < a - lo implies is_white_space(#[trigger] s[k]) by {
            assert(s[k] == v@[lo + k]);
        }
        lemma_leading_ws(s, a - lo);
    }
    let mut b = hi;
    while b > a && white_space(v[b - 1])
        invariant
            lo <= a <= b <= hi <= v@.len(),
            forall|k: int| b <= k < hi ==> is_white_space(#[trigger] v@[k]),
        decreases b - a,
    {
        b = b - 1;
    }
    proof {
        let t = s.skip(a - lo);
        assert(t =~= v@.subrange(a as int, hi as int));
        assert forall|k: int| b - a <= k < t.len() implies is_white_space(#[trigger] t[k]) by {
            assert(t[k] == v@[a + k]);
        }
        lemma_trailing_ws(t, b - a);
        assert(t.take(t.len() - trailing_ws(t)) =~= v@.subrange(a as int, b as int));
    }
    (a, b)
}

proof fn lemma_leading_ws_bounds(s: Seq<char>)
    ensures
        leading_ws(s) <= s.len(),
        leading_ws(s) < s.len() ==> !is_white_space(s[leading_ws(s) as int]),
    decreases s.len(),
{
    if s.len() > 0 && is_white_space(s[0]) {
        let t = s.drop_first();
        lemma_leading_ws_bounds(t);
        if leading_ws(s) < s.len() {
            assert(t[leading_ws(t) as int] == s[leading_ws(s) as int]);
        }
    }
}

proof fn lemma_trailing_ws_bounds(s: Seq<char>)
    ensures
        trailing_ws(s) <= s.len(),
        trailing_ws(s) < s.len() ==> !is_white_space(s[s.len() - 1 - trailing_ws(s)]),
    decreases s.len(),
{
    if s.len() > 0 && is_white_space(s.last()) {
        let t = s.drop_last();
        lemma_trailing_ws_bounds(t);
        if trailing_ws(s) < s.len() {
            assert(t[t.len() - 1 - trailing_ws(t)] == s[s.len() - 1 - trailing_ws(s)]);
        }
    }
}

/// Trimming keeps a contiguous part of the text: `trim(s)` is
/// `s[a..a + trim(s).len()]` for some `a`, and trimming twice is trimming
/// once.
pub proof fn lemma_trim_idempotent(s: Seq<char>)
    ensures
        trim(trim(s)) == trim(s),
        exists|a: int|
            0 <= a && a + trim(s).len() <= s.len() && trim(s) == #[trigger] s.subrange(
                a,
                a + trim(s).len(),
            ),
{
    lemma_leading_ws_bounds(s);
    let a = leading_ws(s) as int;
    let u = s.skip(a);
    lemma_trailing_ws_bounds(u);
    let t = trim(s);
    assert(t == u.take(u.len() - trailing_ws(u)));
    assert(t =~= s.subrange(a, a + t.len()));
    if t.len() > 0 {
        assert(t[0] == s[a]);
        assert(t[t.len() - 1] == u[u.len() - 1 - trailing_ws(u)]);
        assert(leading_ws(t) == 0);
        assert(t.last() == t[t.len() - 1]);
        assert(trailing_ws(t) == 0);
        assert(t.skip(0) =~= t);
        assert(t.take(t.len() as int) =~= t);
    } else {
        assert(t.skip(0) =~= t);
    }
}

/// The text that `bytes` encode in UTF-8 (std `str::from_utf8`): `None`
/// exactly when the bytes are not valid UTF-8, as the std documentation
/// states.
#[verifier::external_body]
pub(crate) fn text_of_bytes(bytes: &[u8]) -> (res: Option<&str>)
    ensures
        (res is Some) == vstd::utf8::valid_utf8(bytes@),
        res matches Some(t) ==> t@ == vstd::utf8::decode_utf8(bytes@),
{
    match std::str::from_utf8(bytes) {
        Ok(t) => Some(t),
        Err(_) => None,
    }
}

} // verus!
