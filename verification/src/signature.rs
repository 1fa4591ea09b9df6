//! Commit signatures (author or committer) in the one-line form that patch
//! files carry: `Name <email> seconds +hhmm`.

use vstd::prelude::*;

use crate::git::{crud_trim, new_git_signature, refused_signature_field, GitSignature};
use crate::text::{
    chars_of, decimal, digit_char, digit_value, is_ascii_digit, is_unicode_digit, push_char,
    push_decimal, push_str, string_of_range, unicode_digit,
};

verus! {

/// The value of a run of ASCII digits (0 for the empty run).
pub open spec fn digits_value(s: Seq<char>) -> int
    decreases s.len(),
{
    if s.len() == 0 {
        0
    } else {
        10 * digits_value(s.drop_last()) + digit_value(s.last())
    }
}

/// Every character of `s` is an ASCII digit.
pub open spec fn all_ascii_digits(s: Seq<char>) -> bool {
    forall|k: int| 0 <= k < s.len() ==> is_ascii_digit(#[trigger] s[k])
}

/// The integer that std's `from_str` reads from `s`: an optional `+` or `-`
/// followed by one or more ASCII digits; `None` for anything else.
pub open spec fn int_of_text(s: Seq<char>) -> Option<int> {
    if s.len() > 0 && (s[0] == '+' || s[0] == '-') {
        let rest = s.skip(1);
        if rest.len() > 0 && all_ascii_digits(rest) {
            Some(if s[0] == '-' { -digits_value(rest) } else { digits_value(rest) })
        } else {
            None
        }
    } else if s.len() > 0 && all_ascii_digits(s) {
        Some(digits_value(s))
    } else {
        None
    }
}

/// What `i64::from_str` gives for `s`.
pub open spec fn i64_of_text(s: Seq<char>) -> Option<i64> {
    match int_of_text(s) {
        Some(v) => if i64::MIN <= v <= i64::MAX {
            Some(v as i64)
        } else {
            None
        },
        None => None,
    }
}

/// What `i32::from_str` gives for the two-character text `a b`.
pub open spec fn small_int(a: char, b: char) -> Option<int> {
    int_of_text(seq![a, b])
}

/// Number of bytes of the UTF-8 encoding of `c`.
pub open spec fn utf8_width(c: char) -> nat {
    let v = c as u32;
    if v <= 0x7f {
        1
    } else if v <= 0x7ff {
        2
    } else if v <= 0xffff {
        3
    } else {
        4
    }
}

/// Number of bytes of the UTF-8 encoding of `s`.
pub open spec fn utf8_len(s: Seq<char>) -> nat
    decreases s.len(),
{
    if s.len() == 0 {
        0
    } else {
        utf8_len(s.drop_last()) + utf8_width(s.last())
    }
}

/// The inputs on which reading a time zone would slice a text in the middle
/// of a character: five bytes that start with a sign, where byte 3 is not
/// the start of a character.
pub open spec fn timezone_slice_breaks(s: Seq<char>) -> bool {
    &&& utf8_len(s) == 5
    &&& s.len() > 0
    &&& (s[0] == '+' || s[0] == '-')
    &&& !(s.len() >= 2 && (utf8_width(s[1]) == 2 || (s.len() >= 3 && utf8_width(s[1]) == 1
        && utf8_width(s[2]) == 1)))
}

/// The offset in minutes that a time zone text `[+-]hhmm` denotes: the sign,
/// then hours and minutes each read as a two-character integer. Any text of
/// another length, or with another first character, gives `None` (a text of
/// five bytes but fewer characters holds a character of two or more bytes
/// in one of the halves, which then does not read as an integer).
pub open spec fn timezone_value(s: Seq<char>) -> Option<int> {
    if s.len() == 5 && (s[0] == '+' || s[0] == '-') {
        match (small_int(s[1], s[2]), small_int(s[3], s[4])) {
            (Some(h), Some(m)) => Some(if s[0] == '-' { -(h * 60 + m) } else { h * 60 + m }),
            _ => None,
        }
    } else {
        None
    }
}

/// A two-digit numeral: a leading zero for values below ten.
pub open spec fn two_digits(n: nat) -> Seq<char> {
    if decimal(n).len() < 2 {
        seq!['0'] + decimal(n)
    } else {
        decimal(n)
    }
}

/// The absolute value of an offset.
pub open spec fn abs_int(v: int) -> nat {
    (if v < 0 { -v } else { v }) as nat
}

/// The time zone text of an offset in minutes: a sign (`+` for zero and
/// above), the hours with at least two digits, the minutes with two.
pub open spec fn timezone_text(offset: int) -> Seq<char> {
    let a = abs_int(offset);
    seq![if offset >= 0 { '+' } else { '-' }] + two_digits(a / 60) + two_digits(a % 60)
}

/// Reads the time zone of a signature, `[+-]hhmm`, as an offset in minutes.
/// `-0000` reads as 0, like `+0000`, so the two cannot be told apart.
pub fn parse_timezone(tz_str: &str) -> (res: Option<i32>)
    requires
        !timezone_slice_breaks(tz_str@),
    ensures
        match timezone_value(tz_str@) {
            Some(v) => res == Some(v as i32),
            None => res is None,
        },
        tz_str@.len() == 5 && (tz_str@[0] == '+' || tz_str@[0] == '-') && zone_digits(tz_str@)
            ==> res == Some(
            (if tz_str@[0] == '-' {
                -zone_digits_minutes(tz_str@)
            } else {
                zone_digits_minutes(tz_str@)
            }) as i32,
        ),
{
    proof {
        if tz_str@.len() == 5 && (tz_str@[0] == '+' || tz_str@[0] == '-') && zone_digits(tz_str@) {
            lemma_timezone_value_digits(tz_str@);
        }
    }
    assert(tz_str@.subrange(0, tz_str@.len() as int) =~= tz_str@);
    let v = chars_of(tz_str);
    read_timezone(&v, 0, v.len())
}

/// Reads a two-character integer as `i32::from_str` does.
fn read_small_int(a: char, b: char) -> (res: Option<i32>)
    ensures
        match small_int(a, b) {
            Some(v) => res == Some(v as i32) && -9 <= v <= 99,
            None => res is None,
        },
{
    let ghost s = seq![a, b];
    proof {
        assert(s.skip(1) =~= seq![b]);
        assert(seq![b].drop_last() =~= Seq::<char>::empty());
        assert(s.drop_last() =~= seq![a]);
        assert(seq![a].drop_last() =~= Seq::<char>::empty());
        assert(digits_value(Seq::<char>::empty()) == 0);
        assert(seq![b].last() == b);
        assert(seq![a].last() == a);
        assert(s.last() == b);
        assert(digits_value(seq![b]) == digit_value(b));
        assert(digits_value(seq![a]) == digit_value(a));
        assert(digits_value(s) == 10 * digit_value(a) + digit_value(b));
    }
    if '0' <= b && b <= '9' {
        let db = (b as u32 - '0' as u32) as i32;
        if '0' <= a && a <= '9' {
            let da = (a as u32 - '0' as u32) as i32;
            assert(all_ascii_digits(s));
            Some(da * 10 + db)
        } else if a == '+' || a == '-' {
            assert(all_ascii_digits(s.skip(1)));
            if a == '+' {
                Some(db)
            } else {
                Some(-db)
            }
        } else {
            assert(!is_ascii_digit(s[0]));
            None
        }
    } else {
        assert(!is_ascii_digit(s[1]));
        assert(!is_ascii_digit(s.skip(1)[0]));
        None
    }
}

proof fn lemma_decimal_len(n: nat)
    ensures
        decimal(n).len() >= 1,
        n < 10 <==> decimal(n).len() < 2,
    decreases n,
{
    if n >= 10 {
        lemma_decimal_len(n / 10);
    }
}

/// Appends the two-digit numeral of `n`.
fn push_two_digits(out: &mut String, n: u64)
    ensures
        final(out)@ == old(out)@ + two_digits(n as nat),
{
    proof {
        lemma_decimal_len(n as nat);
    }
    if n < 10 {
        push_char(out, '0');
    }
    push_decimal(out, n);
    assert(final(out)@ =~= old(out)@ + two_digits(n as nat)) by {
        if n < 10 {
            assert(old(out)@.push('0') + decimal(n as nat) =~= old(out)@ + (seq!['0'] + decimal(
                n as nat,
            )));
        }
    }
}

/// The time zone text of an offset in minutes: sign, hours with at least
/// two digits, minutes with two.
pub fn format_timezone(offset_minutes: i32) -> (res: String)
    requires
        offset_minutes != i32::MIN,
    ensures
        res@ == timezone_text(offset_minutes as int),
        res@.len() > 0 && res@[0] == (if offset_minutes >= 0 {
            '+'
        } else {
            '-'
        }),
        -5999 <= offset_minutes <= 5999 ==> ({
            let a = if offset_minutes < 0 {
                -offset_minutes
            } else {
                offset_minutes as int
            };
            &&& res@.len() == 5
            &&& zone_digits_minutes(res@) == a
            &&& zone_digits(res@)
        }),
{
    proof {
        if -5999 <= offset_minutes <= 5999 {
            lemma_timezone_text_chars(offset_minutes as int);
            let a = abs_int(offset_minutes as int);
            assert(60 * (10 * (a / 600) + (a / 60) % 10) + 10 * ((a % 60) / 10) + (a % 60) % 10
                == a) by (nonlinear_arith)
                requires
                    0 <= a;
        }
    }
    let mut out = String::new();
    let sign = if offset_minutes >= 0 { '+' } else { '-' };
    push_char(&mut out, sign);
    let abs_offset: u64 = if offset_minutes < 0 {
        (-offset_minutes) as u64
    } else {
        offset_minutes as u64
    };
    assert(abs_offset == abs_int(offset_minutes as int));
    push_two_digits(&mut out, abs_offset / 60);
    push_two_digits(&mut out, abs_offset % 60);
    assert(out@ =~= timezone_text(offset_minutes as int));
    out
}

proof fn lemma_digit_char(d: int)
    requires
        0 <= d < 10,
    ensures
        is_ascii_digit(digit_char(d)),
        digit_value(digit_char(d)) == d,
{
}

proof fn lemma_digit_char_of_value(c: char)
    requires
        is_ascii_digit(c),
    ensures
        digit_char(digit_value(c)) == c,
{
}

proof fn lemma_two_digits(n: nat)
    requires
        n < 100,
    ensures
        two_digits(n) == seq![digit_char((n / 10) as int), digit_char((n % 10) as int)],
{
    lemma_decimal_len(n);
    if n < 10 {
        assert(decimal(n) == seq![digit_char(n as int)]);
        assert(seq!['0'] + seq![digit_char(n as int)] =~= seq![digit_char(0), digit_char(n as int)]);
    } else {
        assert(decimal(n / 10) == seq![digit_char((n / 10) as int)]);
        assert(decimal(n) =~= seq![digit_char((n / 10) as int), digit_char((n % 10) as int)]);
    }
}

proof fn lemma_small_int_digits(a: char, b: char)
    requires
        is_ascii_digit(a),
        is_ascii_digit(b),
    ensures
        small_int(a, b) == Some(10 * digit_value(a) + digit_value(b)),
{
    let s = seq![a, b];
    assert(s.drop_last() =~= seq![a]);
    assert(seq![a].drop_last() =~= Seq::<char>::empty());
    assert(digits_value(Seq::<char>::empty()) == 0);
    assert(seq![a].last() == a);
    assert(s.last() == b);
    assert(s[0] == a && s[1] == b);
    assert(digits_value(seq![a]) == digit_value(a));
    assert(digits_value(s) == 10 * digit_value(a) + digit_value(b));
    assert(all_ascii_digits(s));
}

/// The magnitude in minutes of a time zone text whose characters 1 to 4 are
/// ASCII digits `h1 h2 m1 m2`: `60 * h1h2 + m1m2`, reading each character
/// by its code point.
pub open spec fn zone_digits_minutes(t: Seq<char>) -> int {
    60 * (10 * (t[1] as int - 48) + (t[2] as int - 48)) + 10 * (t[3] as int - 48) + (t[4] as int
        - 48)
}

/// Characters 1 to 4 of `t` are ASCII digits, by code point.
pub open spec fn zone_digits(t: Seq<char>) -> bool {
    forall|k: int| 1 <= k < 5 ==> 48 <= #[trigger] (t[k] as int) <= 57
}

/// The time zone text of an offset of less than 100 hours is five
/// characters: `+` for an offset of zero or more and `-` for a negative one,
/// then the two digits of the whole hours of its size and the two digits of
/// the remaining minutes.
pub proof fn lemma_timezone_text_chars(offset: int)
    requires
        -5999 <= offset <= 5999,
    ensures
        timezone_text(offset).len() == 5,
        timezone_text(offset)[0] == (if offset >= 0 {
            '+'
        } else {
            '-'
        }),
        ({
            let a = if offset < 0 {
                -offset
            } else {
                offset
            };
            let t = timezone_text(offset);
            &&& t[1] as int == 48 + a / 600
            &&& t[2] as int == 48 + (a / 60) % 10
            &&& t[3] as int == 48 + (a % 60) / 10
            &&& t[4] as int == 48 + (a % 60) % 10
        }),
{
    let a = abs_int(offset);
    let h = a / 60;
    let m = a % 60;
    lemma_two_digits(h);
    lemma_two_digits(m);
    lemma_digit_char((h / 10) as int);
    lemma_digit_char((h % 10) as int);
    lemma_digit_char((m / 10) as int);
    lemma_digit_char((m % 10) as int);
    assert(h / 10 == a / 600);
    let t = timezone_text(offset);
    assert(t[1] == digit_char((h / 10) as int));
    assert(t[2] == digit_char((h % 10) as int));
    assert(t[3] == digit_char((m / 10) as int));
    assert(t[4] == digit_char((m % 10) as int));
}

/// A time zone text made of a sign and four ASCII digits `h1 h2 m1 m2`
/// reads as `60 * h1h2 + m1m2` minutes, negated exactly when the sign is
/// `-`: the sign alone decides the sign of the offset.
pub proof fn lemma_timezone_value_digits(t: Seq<char>)
    requires
        t.len() == 5,
        t[0] == '+' || t[0] == '-',
        zone_digits(t),
    ensures
        timezone_value(t) == Some(
            if t[0] == '-' {
                -zone_digits_minutes(t)
            } else {
                zone_digits_minutes(t)
            },
        ),
{
    assert(48 <= t[1] as int <= 57);
    assert(48 <= t[2] as int <= 57);
    assert(48 <= t[3] as int <= 57);
    assert(48 <= t[4] as int <= 57);
    lemma_small_int_digits(t[1], t[2]);
    lemma_small_int_digits(t[3], t[4]);
}

/// Printing an offset of less than 100 hours and reading it back gives the
/// offset again.
pub proof fn lemma_timezone_roundtrip(offset: int)
    requires
        -5999 <= offset <= 5999,
    ensures
        timezone_value(timezone_text(offset)) == Some(offset),
{
    let a = abs_int(offset);
    let h = a / 60;
    let m = a % 60;
    lemma_two_digits(h);
    lemma_two_digits(m);
    lemma_digit_char((h / 10) as int);
    lemma_digit_char((h % 10) as int);
    lemma_digit_char((m / 10) as int);
    lemma_digit_char((m % 10) as int);
    let t = timezone_text(offset);
    lemma_small_int_digits(t[1], t[2]);
    lemma_small_int_digits(t[3], t[4]);
    assert(t[1] == digit_char((h / 10) as int));
    assert(t[3] == digit_char((m / 10) as int));
    assert(t[4] == digit_char((m % 10) as int));
}

/// Reading a canonical time zone text and printing the offset gives the
/// text again. `-0000` is the exception: it reads as 0, which prints as
/// `+0000`.
pub proof fn lemma_timezone_text_roundtrip(t: Seq<char>)
    requires
        t.len() == 5,
        t[0] == '+' || t[0] == '-',
        is_ascii_digit(t[1]),
        is_ascii_digit(t[2]),
        is_ascii_digit(t[3]),
        is_ascii_digit(t[4]),
        10 * digit_value(t[3]) + digit_value(t[4]) < 60,
        t != seq!['-', '0', '0', '0', '0'],
    ensures
        timezone_value(t) matches Some(v) && timezone_text(v) == t,
{
    lemma_small_int_digits(t[1], t[2]);
    lemma_small_int_digits(t[3], t[4]);
    let h = 10 * digit_value(t[1]) + digit_value(t[2]);
    let m = 10 * digit_value(t[3]) + digit_value(t[4]);
    let v = if t[0] == '-' { -(h * 60 + m) } else { h * 60 + m };
    assert(timezone_value(t) == Some(v));
    if t[0] == '-' && h * 60 + m == 0 {
        assert(t =~= seq!['-', '0', '0', '0', '0']);
    }
    let a = abs_int(v);
    assert(a == h * 60 + m);
    assert(a / 60 == h && a % 60 == m) by (nonlinear_arith)
        requires
            a == h * 60 + m,
            0 <= m < 60,
            0 <= h,
    ;
    lemma_two_digits(h as nat);
    lemma_two_digits(m as nat);
    lemma_digit_char_of_value(t[1]);
    lemma_digit_char_of_value(t[2]);
    lemma_digit_char_of_value(t[3]);
    lemma_digit_char_of_value(t[4]);
    assert(timezone_text(v) =~= t);
}

/// `s` holds no newline.
pub open spec fn no_newline(s: Seq<char>) -> bool {
    forall|k: int| 0 <= k < s.len() ==> s[k] != '\n'
}

/// Every character of `s` is a Unicode decimal digit.
pub open spec fn all_unicode_digits(s: Seq<char>) -> bool {
    forall|k: int| 0 <= k < s.len() ==> is_unicode_digit(#[trigger] s[k])
}

/// The seconds field of a signature: an optional `-`, then one or more
/// decimal digits.
pub open spec fn seconds_shape(s: Seq<char>) -> bool {
    ||| (s.len() >= 1 && all_unicode_digits(s))
    ||| (s.len() >= 2 && s[0] == '-' && all_unicode_digits(s.skip(1)))
}

/// The time zone field of a signature: a sign, then four decimal digits.
pub open spec fn timezone_shape(s: Seq<char>) -> bool {
    &&& s.len() == 5
    &&& (s[0] == '+' || s[0] == '-')
    &&& all_unicode_digits(s.skip(1))
}

/// The one-line form of a signature made of the four fields.
pub open spec fn signature_layout(
    name: Seq<char>,
    email: Seq<char>,
    seconds: Seq<char>,
    tz: Seq<char>,
) -> Seq<char> {
    name + seq![' ', '<'] + email + seq!['>', ' '] + seconds + seq![' '] + tz
}

/// `s` reads as a signature with these fields: `Name <email> seconds tz`,
/// with name and email not empty and free of newlines.
pub open spec fn is_signature_split(
    s: Seq<char>,
    name: Seq<char>,
    email: Seq<char>,
    seconds: Seq<char>,
    tz: Seq<char>,
) -> bool {
    &&& s == signature_layout(name, email, seconds, tz)
    &&& name.len() > 0
    &&& email.len() > 0
    &&& no_newline(name)
    &&& no_newline(email)
    &&& seconds_shape(seconds)
    &&& timezone_shape(tz)
}

/// The way of reading `s` as a signature that a greedy name takes: of all
/// readings, the one with the longest name.
pub open spec fn is_chosen_split(
    s: Seq<char>,
    name: Seq<char>,
    email: Seq<char>,
    seconds: Seq<char>,
    tz: Seq<char>,
) -> bool {
    &&& is_signature_split(s, name, email, seconds, tz)
    &&& forall|n2: Seq<char>, e2: Seq<char>, s2: Seq<char>, t2: Seq<char>|
        #[trigger] is_signature_split(s, n2, e2, s2, t2) ==> n2.len() <= name.len()
}

/// `s` can be read as a signature at all.
pub open spec fn matches_signature(s: Seq<char>) -> bool {
    exists|n: Seq<char>, e: Seq<char>, sc: Seq<char>, t: Seq<char>|
        #[trigger] is_signature_split(s, n, e, sc, t)
}

proof fn lemma_layout_facts(n: Seq<char>, e: Seq<char>, sc: Seq<char>, t: Seq<char>)
    ensures
        ({
            let s = signature_layout(n, e, sc, t);
            let l = n.len() as int;
            let m = e.len() as int;
            let q = sc.len() as int;
            &&& s.len() == l + m + q + 5 + t.len()
            &&& s.subrange(0, l) == n
            &&& s[l] == ' '
            &&& s[l + 1] == '<'
            &&& s.subrange(l + 2, l + 2 + m) == e
            &&& s[l + 2 + m] == '>'
            &&& s[l + 3 + m] == ' '
            &&& s.subrange(l + 4 + m, l + 4 + m + q) == sc
            &&& s[l + 4 + m + q] == ' '
            &&& s.subrange(l + 5 + m + q, s.len() as int) == t
        }),
{
    let s = signature_layout(n, e, sc, t);
    let l = n.len() as int;
    let m = e.len() as int;
    let q = sc.len() as int;
    let a = n + seq![' ', '<'];
    let b = a + e;
    let c = b + seq!['>', ' '];
    let d = c + sc;
    let f = d + seq![' '];
    assert(s == f + t);
    assert(s.subrange(0, l) =~= n);
    assert(s.subrange(l + 2, l + 2 + m) =~= e);
    assert(s.subrange(l + 4 + m, l + 4 + m + q) =~= sc);
    assert(s.subrange(l + 5 + m + q, s.len() as int) =~= t);
}

proof fn lemma_seconds_chars(sc: Seq<char>, k: int)
    requires
        seconds_shape(sc),
        0 <= k < sc.len(),
    ensures
        sc[k] == '-' || is_unicode_digit(sc[k]),
        k > 0 ==> is_unicode_digit(sc[k]),
        sc[0] != '-' ==> is_unicode_digit(sc[k]),
{
    if sc.len() >= 2 && sc[0] == '-' && all_unicode_digits(sc.skip(1)) && k > 0 {
        assert(sc.skip(1)[k - 1] == sc[k]);
    }
}

/// Facts that every reading of `s` as a signature shares.
proof fn lemma_split_facts(s: Seq<char>, n: Seq<char>, e: Seq<char>, sc: Seq<char>, t: Seq<char>)
    requires
        is_signature_split(s, n, e, sc, t),
    ensures
        ({
            let len = s.len() as int;
            let js = len - 6 - sc.len();
            let l = n.len() as int;
            &&& len >= 13
            &&& s[len - 6] == ' '
            &&& t == s.subrange(len - 5, len)
            &&& sc == s.subrange(js, len - 6)
            &&& js == l + e.len() + 4
            &&& s[js - 1] == ' '
            &&& s[js - 2] == '>'
            &&& 1 <= l
            &&& l + 2 < js - 2
            &&& s[l] == ' '
            &&& s[l + 1] == '<'
            &&& n == s.subrange(0, l)
            &&& e == s.subrange(l + 2, js - 2)
            &&& forall|k: int| 0 <= k < js - 2 ==> s[k] != '\n'
        }),
{
    lemma_layout_facts(n, e, sc, t);
    let l = n.len() as int;
    let m = e.len() as int;
    assert forall|k: int| 0 <= k < l + m + 2 implies s[k] != '\n' by {
        if k < l {
            assert(s.subrange(0, l)[k] == s[k]);
        } else if k >= l + 2 {
            assert(s.subrange(l + 2, l + 2 + m)[k - l - 2] == s[k]);
        }
    }
}

/// Two readings of the same text agree on the seconds and the time zone.
proof fn lemma_split_tail(
    s: Seq<char>,
    n1: Seq<char>,
    e1: Seq<char>,
    sc1: Seq<char>,
    t1: Seq<char>,
    n2: Seq<char>,
    e2: Seq<char>,
    sc2: Seq<char>,
    t2: Seq<char>,
)
    requires
        is_signature_split(s, n1, e1, sc1, t1),
        is_signature_split(s, n2, e2, sc2, t2),
    ensures
        sc1 == sc2,
        t1 == t2,
        n1.len() + e1.len() == n2.len() + e2.len(),
{
    lemma_split_facts(s, n1, e1, sc1, t1);
    lemma_split_facts(s, n2, e2, sc2, t2);
    let len = s.len() as int;
    if sc1.len() < sc2.len() {
        let p = len - 7 - sc1.len();
        let js2 = len - 6 - sc2.len();
        assert(s[p] == ' ');
        assert(sc2[p - js2] == s[p]);
        lemma_seconds_chars(sc2, p - js2);
        assert(false);
    } else if sc2.len() < sc1.len() {
        let p = len - 7 - sc2.len();
        let js1 = len - 6 - sc1.len();
        assert(s[p] == ' ');
        assert(sc1[p - js1] == s[p]);
        lemma_seconds_chars(sc1, p - js1);
        assert(false);
    }
}

/// The chosen reading of a text is unique.
pub proof fn lemma_chosen_split_unique(
    s: Seq<char>,
    n1: Seq<char>,
    e1: Seq<char>,
    sc1: Seq<char>,
    t1: Seq<char>,
    n2: Seq<char>,
    e2: Seq<char>,
    sc2: Seq<char>,
    t2: Seq<char>,
)
    requires
        is_chosen_split(s, n1, e1, sc1, t1),
        is_chosen_split(s, n2, e2, sc2, t2),
    ensures
        n1 == n2,
        e1 == e2,
        sc1 == sc2,
        t1 == t2,
{
    lemma_split_tail(s, n1, e1, sc1, t1, n2, e2, sc2, t2);
    assert(is_signature_split(s, n2, e2, sc2, t2));
    assert(is_signature_split(s, n1, e1, sc1, t1));
    assert(n1.len() == n2.len());
    lemma_split_facts(s, n1, e1, sc1, t1);
    lemma_split_facts(s, n2, e2, sc2, t2);
}

/// Every reading of `s` as a signature starts its seconds at `j`.
pub open spec fn readings_start_seconds_at(s: Seq<char>, j: int) -> bool {
    forall|a: Seq<char>, b: Seq<char>, c: Seq<char>, e: Seq<char>|
        #[trigger] is_signature_split(s, a, b, c, e) ==> j == s.len() - 6 - c.len()
}

proof fn lemma_none_short(s: Seq<char>)
    requires
        s.len() < 13,
    ensures
        !matches_signature(s),
{
    assert forall|a: Seq<char>, b: Seq<char>, c: Seq<char>, d: Seq<char>|
        !#[trigger] is_signature_split(s, a, b, c, d) by {
        if is_signature_split(s, a, b, c, d) {
            lemma_split_facts(s, a, b, c, d);
        }
    }
}

proof fn lemma_tz_checks(s: Seq<char>)
    requires
        s.len() >= 13,
    ensures
        matches_signature(s) ==> {
            let n = s.len() as int;
            &&& s[n - 6] == ' '
            &&& (s[n - 5] == '+' || s[n - 5] == '-')
            &&& is_unicode_digit(s[n - 4])
            &&& is_unicode_digit(s[n - 3])
            &&& is_unicode_digit(s[n - 2])
            &&& is_unicode_digit(s[n - 1])
        },
        ({
            let n = s.len() as int;
            &&& s[n - 6] == ' '
            &&& (s[n - 5] == '+' || s[n - 5] == '-')
            &&& is_unicode_digit(s[n - 4])
            &&& is_unicode_digit(s[n - 3])
            &&& is_unicode_digit(s[n - 2])
            &&& is_unicode_digit(s[n - 1])
        }) ==> timezone_shape(s.subrange(s.len() - 5, s.len() as int)),
{
    let n = s.len() as int;
    if matches_signature(s) {
        let (a, b, c, d) = choose|a: Seq<char>, b: Seq<char>, c: Seq<char>, d: Seq<char>|
            #[trigger] is_signature_split(s, a, b, c, d);
        lemma_split_facts(s, a, b, c, d);
        assert(d.skip(1)[0] == s[n - 4]);
        assert(d.skip(1)[1] == s[n - 3]);
        assert(d.skip(1)[2] == s[n - 2]);
        assert(d.skip(1)[3] == s[n - 1]);
    }
    let tz = s.subrange(n - 5, n);
    assert forall|y: int| 0 <= y < tz.skip(1).len() implies #[trigger] tz.skip(1)[y] == s[n - 4
        + y] by {}
}

/// Where the seconds start, given the run of digits `s[d..len - 6]` that
/// the scan found.
pub open spec fn seconds_start(s: Seq<char>, d: int) -> int {
    if d > 0 && s[d - 1] == '-' {
        d - 1
    } else {
        d
    }
}

proof fn lemma_seconds_scan(s: Seq<char>, d: int)
    requires
        s.len() >= 13,
        0 <= d <= s.len() - 6,
        forall|x: int| d <= x < s.len() - 6 ==> is_unicode_digit(#[trigger] s[x]),
        d == 0 || !is_unicode_digit(s[d - 1]),
    ensures
        readings_start_seconds_at(s, seconds_start(s, d)),
        matches_signature(s) ==> d < s.len() - 6,
        d < s.len() - 6 ==> seconds_shape(s.subrange(seconds_start(s, d), s.len() - 6)),
{
    let n = s.len() as int;
    let k = n - 6;
    let j = seconds_start(s, d);
    assert forall|a: Seq<char>, b: Seq<char>, c: Seq<char>, e: Seq<char>|
        #[trigger] is_signature_split(s, a, b, c, e) implies j == n - 6 - c.len() && d < k by {
        lemma_split_facts(s, a, b, c, e);
        let js = n - 6 - c.len();
        if c[0] == '-' {
            assert(s[js] == c[0]);
            assert(!is_unicode_digit('-'));
            if d > js + 1 {
                lemma_seconds_chars(c, d - 1 - js);
                assert(c[d - 1 - js] == s[d - 1]);
            }
            if d < js + 1 {
                assert(is_unicode_digit(s[js]));
            }
        } else {
            assert(s[js - 1] == ' ');
            assert(!is_unicode_digit(' '));
            if d > js {
                lemma_seconds_chars(c, d - 1 - js);
                assert(c[d - 1 - js] == s[d - 1]);
            }
            if d < js {
                assert(is_unicode_digit(s[js - 1]));
            }
            lemma_seconds_chars(c, 0);
            assert(c[0] == s[js]);
        }
    }
    if matches_signature(s) {
        let (a, b, c, e) = choose|a: Seq<char>, b: Seq<char>, c: Seq<char>, e: Seq<char>|
            #[trigger] is_signature_split(s, a, b, c, e);
        assert(d < k);
    }
    if d < k {
        let secs = s.subrange(j, k);
        if j == d - 1 {
            assert forall|y: int| 0 <= y < secs.skip(1).len() implies is_unicode_digit(
                #[trigger] secs.skip(1)[y],
            ) by {
                assert(secs.skip(1)[y] == s[d + y]);
            }
        } else {
            assert forall|y: int| 0 <= y < secs.len() implies is_unicode_digit(#[trigger] secs[y]) by {
                assert(secs[y] == s[d + y]);
            }
        }
    }
}

proof fn lemma_none_after_seconds(s: Seq<char>, j: int)
    requires
        s.len() >= 13,
        readings_start_seconds_at(s, j),
        j < 2 || s[j - 1] != ' ' || s[j - 2] != '>' || j - 2 < 4,
    ensures
        !matches_signature(s),
{
    assert forall|a: Seq<char>, b: Seq<char>, c: Seq<char>, e: Seq<char>|
        !#[trigger] is_signature_split(s, a, b, c, e) by {
        if is_signature_split(s, a, b, c, e) {
            lemma_split_facts(s, a, b, c, e);
        }
    }
}

proof fn lemma_none_newline(s: Seq<char>, j: int, x: int)
    requires
        readings_start_seconds_at(s, j),
        0 <= x < j - 2,
        s[x] == '\n',
    ensures
        !matches_signature(s),
{
    assert forall|a: Seq<char>, b: Seq<char>, c: Seq<char>, e: Seq<char>|
        !#[trigger] is_signature_split(s, a, b, c, e) by {
        if is_signature_split(s, a, b, c, e) {
            lemma_split_facts(s, a, b, c, e);
        }
    }
}

proof fn lemma_none_name(s: Seq<char>, j: int)
    requires
        readings_start_seconds_at(s, j),
        forall|y: int| 1 <= y <= j - 5 ==> !(s[y] == ' ' && #[trigger] s[y + 1] == '<'),
    ensures
        !matches_signature(s),
{
    assert forall|a: Seq<char>, b: Seq<char>, c: Seq<char>, e: Seq<char>|
        !#[trigger] is_signature_split(s, a, b, c, e) by {
        if is_signature_split(s, a, b, c, e) {
            lemma_split_facts(s, a, b, c, e);
            let la = a.len() as int;
            assert(s[la] == ' ' && s[la + 1] == '<');
        }
    }
}

#[verifier::rlimit(30)]
proof fn lemma_found(s: Seq<char>, i: int, j: int)
    requires
        s.len() >= 13,
        1 <= i <= j - 5,
        j <= s.len() - 6,
        s[i] == ' ',
        s[i + 1] == '<',
        s[j - 2] == '>',
        s[j - 1] == ' ',
        s[s.len() - 6] == ' ',
        forall|x: int| 0 <= x < j - 2 ==> s[x] != '\n',
        seconds_shape(s.subrange(j, s.len() - 6)),
        timezone_shape(s.subrange(s.len() - 5, s.len() as int)),
        forall|y: int| i < y <= j - 5 ==> !(s[y] == ' ' && #[trigger] s[y + 1] == '<'),
    ensures
        is_chosen_split(
            s,
            s.subrange(0, i),
            s.subrange(i + 2, j - 2),
            s.subrange(j, s.len() - 6),
            s.subrange(s.len() - 5, s.len() as int),
        ),
{
    let len = s.len() as int;
    let name = s.subrange(0, i);
    let email = s.subrange(i + 2, j - 2);
    let secs = s.subrange(j, len - 6);
    let tz = s.subrange(len - 5, len);
    assert(s =~= signature_layout(name, email, secs, tz)) by {
        lemma_layout_facts(name, email, secs, tz);
        let t = signature_layout(name, email, secs, tz);
        assert forall|x: int| 0 <= x < len implies #[trigger] t[x] == s[x] by {
            if x < i {
                assert(t.subrange(0, i)[x] == t[x]);
            } else if i + 2 <= x < j - 2 {
                assert(t.subrange(i + 2, j - 2)[x - i - 2] == t[x]);
            } else if j <= x < len - 6 {
                assert(t.subrange(j, len - 6)[x - j] == t[x]);
            } else if len - 5 <= x {
                assert(t.subrange(len - 5, len)[x - len + 5] == t[x]);
            }
        }
    }
    assert forall|y: int| 0 <= y < name.len() implies name[y] != '\n' by {
        assert(name[y] == s[y]);
    }
    assert forall|y: int| 0 <= y < email.len() implies email[y] != '\n' by {
        assert(email[y] == s[i + 2 + y]);
    }
    assert(is_signature_split(s, name, email, secs, tz));
    assert forall|a: Seq<char>, b: Seq<char>, c: Seq<char>, e: Seq<char>|
        #[trigger] is_signature_split(s, a, b, c, e) implies a.len() <= name.len() by {
        lemma_split_facts(s, a, b, c, e);
        lemma_split_tail(s, a, b, c, e, name, email, secs, tz);
        let la = a.len() as int;
        if la > i {
            assert(s[la] == ' ' && s[la + 1] == '<');
        }
    }
}

/// Finds how `v` reads as a signature: `Some((i, j))` when the name is
/// `v[0..i]`, the email `v[i + 2..j - 2]`, the seconds `v[j..len - 6]` and
/// the time zone the last five characters, taking the longest name;
/// `None` when `v` does not read as a signature.
fn split_signature(v: &Vec<char>) -> (res: Option<(usize, usize)>)
    ensures
        res is None ==> !matches_signature(v@),
        res matches Some((i, j)) ==> {
            let len = v@.len() as int;
            &&& 1 <= i
            &&& i + 2 < j - 2
            &&& j <= len - 6
            &&& is_chosen_split(
                v@,
                v@.subrange(0, i as int),
                v@.subrange(i + 2, j - 2),
                v@.subrange(j as int, len - 6),
                v@.subrange(len - 5, len),
            )
        },
{
    let n = v.len();
    if n < 13 {
        proof {
            lemma_none_short(v@);
        }
        return None;
    }
    proof {
        lemma_tz_checks(v@);
    }
    let k = n - 6;
    let tz_ok = v[k] == ' ' && (v[n - 5] == '+' || v[n - 5] == '-') && unicode_digit(v[n - 4])
        && unicode_digit(v[n - 3]) && unicode_digit(v[n - 2]) && unicode_digit(v[n - 1]);
    if !tz_ok {
        return None;
    }
    // The seconds: the run of digits that ends before the last space, with
    // an optional minus sign in front.
    let mut d = k;
    while d > 0 && unicode_digit(v[d - 1])
        invariant
            0 <= d <= k < n,
            n == v@.len(),
            k == n - 6,
            forall|x: int| d <= x < k ==> is_unicode_digit(#[trigger] v@[x]),
        decreases d,
    {
        d = d - 1;
    }
    let j = if d > 0 && v[d - 1] == '-' { d - 1 } else { d };
    proof {
        lemma_seconds_scan(v@, d as int);
    }
    if d == k {
        return None;
    }
    if j < 2 || v[j - 1] != ' ' || v[j - 2] != '>' || j - 2 < 4 {
        proof {
            lemma_none_after_seconds(v@, j as int);
        }
        return None;
    }
    let p_end = j - 2;
    let mut x: usize = 0;
    while x < p_end
        invariant
            p_end == j - 2,
            j <= k,
            k == n - 6,
            n == v@.len(),
            0 <= x <= p_end,
            readings_start_seconds_at(v@, j as int),
            forall|y: int| 0 <= y < x ==> v@[y] != '\n',
        decreases p_end - x,
    {
        if v[x] == '\n' {
            proof {
                lemma_none_newline(v@, j as int, x as int);
            }
            return None;
        }
        x = x + 1;
    }
    // The longest name: the last ` <` that leaves a non-empty email.
    let mut i = p_end - 3;
    while i >= 1
        invariant
            p_end == j - 2,
            4 <= p_end,
            j <= k,
            k == n - 6,
            n == v@.len(),
            0 <= i <= p_end - 3,
            readings_start_seconds_at(v@, j as int),
            v@[j - 2] == '>',
            v@[j - 1] == ' ',
            v@[k as int] == ' ',
            forall|y: int| 0 <= y < p_end ==> v@[y] != '\n',
            seconds_shape(v@.subrange(j as int, k as int)),
            timezone_shape(v@.subrange(n - 5, n as int)),
            forall|y: int| i < y <= p_end - 3 ==> !(v@[y] == ' ' && #[trigger] v@[y + 1] == '<'),
        decreases i,
    {
        if v[i] == ' ' && v[i + 1] == '<' {
            proof {
                lemma_found(v@, i as int, j as int);
            }
            return Some((i, j));
        }
        i = i - 1;
    }
    proof {
        lemma_none_name(v@, j as int);
    }
    None
}

pub(crate) proof fn lemma_digits_value_step(s: Seq<char>, k: int)
    requires
        0 <= k < s.len(),
    ensures
        digits_value(s.take(k + 1)) == 10 * digits_value(s.take(k)) + digit_value(s[k]),
{
    assert(s.take(k + 1).drop_last() =~= s.take(k));
}

pub(crate) proof fn lemma_digits_value_grows(s: Seq<char>, k: int)
    requires
        0 <= k <= s.len(),
        all_ascii_digits(s),
    ensures
        digits_value(s.take(k)) <= digits_value(s),
        digits_value(s.take(k)) >= 0,
    decreases s.len() - k,
{
    if k < s.len() {
        lemma_digits_value_grows(s, k + 1);
        lemma_digits_value_step(s, k);
        assert(is_ascii_digit(s[k]));
    } else {
        assert(s.take(k) =~= s);
        lemma_digits_value_nonneg(s);
    }
}

proof fn lemma_digits_value_nonneg(s: Seq<char>)
    requires
        all_ascii_digits(s),
    ensures
        digits_value(s) >= 0,
    decreases s.len(),
{
    if s.len() > 0 {
        let t = s.drop_last();
        assert(all_ascii_digits(t)) by {
            assert forall|k: int| 0 <= k < t.len() implies is_ascii_digit(#[trigger] t[k]) by {
                assert(t[k] == s[k]);
            }
        }
        lemma_digits_value_nonneg(t);
        assert(is_ascii_digit(s[s.len() - 1]));
    }
}

/// Reads `v[lo..hi]` as `i64::from_str` does.
fn read_i64(v: &Vec<char>, lo: usize, hi: usize) -> (res: Option<i64>)
    requires
        lo <= hi <= v@.len(),
    ensures
        res == i64_of_text(v@.subrange(lo as int, hi as int)),
{
    let ghost s = v@.subrange(lo as int, hi as int);
    if lo >= hi {
        return None;
    }
    let neg = v[lo] == '-';
    let signed = neg || v[lo] == '+';
    let start = if signed { lo + 1 } else { lo };
    let ghost rest = v@.subrange(start as int, hi as int);
    proof {
        assert(s[0] == v@[lo as int]);
        if signed {
            assert(s.skip(1) =~= rest);
        } else {
            assert(s =~= rest);
        }
    }
    if start >= hi {
        return None;
    }
    let mut acc: u64 = 0;
    let mut i = start;
    assert(rest.take(0) =~= Seq::<char>::empty());
    while i < hi
        invariant
            lo <= start <= i <= hi <= v@.len(),
            rest == v@.subrange(start as int, hi as int),
            s == v@.subrange(lo as int, hi as int),
            s.len() > 0,
            rest.len() > 0,
            neg == (s[0] == '-'),
            signed == (s[0] == '-' || s[0] == '+'),
            signed ==> s.skip(1) == rest,
            !signed ==> s == rest,
            acc as int == digits_value(rest.take(i - start)),
            acc <= 9223372036854775808u64,
            forall|x: int| 0 <= x < i - start ==> is_ascii_digit(#[trigger] rest[x]),
        decreases hi - i,
    {
        let c = v[i];
        assert(rest[i - start] == c);
        if !('0' <= c && c <= '9') {
            assert(!all_ascii_digits(rest));
            return None;
        }
        let d = (c as u32 - '0' as u32) as u64;
        proof {
            lemma_digits_value_step(rest, i - start);
        }
        if acc > 922337203685477580u64 || (acc == 922337203685477580u64 && d > 8) {
            proof {
                if all_ascii_digits(rest) {
                    lemma_digits_value_grows(rest, i - start + 1);
                }
            }
            return None;
        }
        acc = acc * 10 + d;
        i = i + 1;
    }
    assert(rest.take(hi - start) =~= rest);
    assert(all_ascii_digits(rest));
    if neg {
        if acc == 9223372036854775808u64 {
            Some(i64::MIN)
        } else {
            Some(-(acc as i64))
        }
    } else if acc <= 9223372036854775807u64 {
        Some(acc as i64)
    } else {
        None
    }
}

/// Reads `v[lo..hi]` as a time zone.
fn read_timezone(v: &Vec<char>, lo: usize, hi: usize) -> (res: Option<i32>)
    requires
        lo <= hi <= v@.len(),
    ensures
        match timezone_value(v@.subrange(lo as int, hi as int)) {
            Some(t) => res == Some(t as i32),
            None => res is None,
        },
{
    let ghost s = v@.subrange(lo as int, hi as int);
    if hi - lo != 5 {
        return None;
    }
    assert(s[0] == v@[lo as int] && s[1] == v@[lo + 1] && s[2] == v@[lo + 2]);
    assert(s[3] == v@[lo + 3] && s[4] == v@[lo + 4]);
    let sign: i32 = if v[lo] == '+' {
        1
    } else if v[lo] == '-' {
        -1
    } else {
        return None;
    };
    let hours = match read_small_int(v[lo + 1], v[lo + 2]) {
        Some(h) => h,
        None => return None,
    };
    let minutes = match read_small_int(v[lo + 3], v[lo + 4]) {
        Some(m) => m,
        None => return None,
    };
    Some(sign * (hours * 60 + minutes))
}

/// A commit signature: who, with which email, and when (seconds since the
/// epoch and the offset of the local time zone in minutes).
pub struct SignatureData {
    pub name: String,
    pub email: String,
    pub seconds: i64,
    pub offset_minutes: i32,
}

/// Why a text is not a signature.
#[derive(Debug, PartialEq, Eq, Clone, Copy)]
pub enum SignatureError {
    /// The text is not of the form `Name <email> seconds +hhmm`.
    Malformed,
    /// The seconds do not read as a 64-bit integer.
    InvalidSeconds,
    /// The time zone does not read as an offset.
    InvalidTimezone,
}

/// The fields of the chosen reading of `s` (meaningful when `s` matches).
pub open spec fn chosen_fields(s: Seq<char>) -> (Seq<char>, Seq<char>, Seq<char>, Seq<char>) {
    choose|n: Seq<char>, e: Seq<char>, c: Seq<char>, t: Seq<char>| is_chosen_split(s, n, e, c, t)
}

/// What reading `s` as a signature gives: the name, the email, the seconds
/// and the offset of the chosen reading, or the first field that fails.
pub open spec fn signature_outcome(s: Seq<char>) -> Result<
    (Seq<char>, Seq<char>, i64, i32),
    SignatureError,
> {
    if !matches_signature(s) {
        Err(SignatureError::Malformed)
    } else {
        let (n, e, c, t) = chosen_fields(s);
        match i64_of_text(c) {
            None => Err(SignatureError::InvalidSeconds),
            Some(secs) => match timezone_value(t) {
                None => Err(SignatureError::InvalidTimezone),
                Some(o) => Ok((n, e, secs, o as i32)),
            },
        }
    }
}

/// The decimal text of an integer, with a `-` in front of negative ones.
pub open spec fn int_text(v: int) -> Seq<char> {
    if v < 0 {
        seq!['-'] + decimal((-v) as nat)
    } else {
        decimal(v as nat)
    }
}

/// The one-line text of a signature.
pub open spec fn signature_text(
    name: Seq<char>,
    email: Seq<char>,
    seconds: i64,
    offset_minutes: i32,
) -> Seq<char> {
    signature_layout(name, email, int_text(seconds as int), timezone_text(offset_minutes as int))
}

impl SignatureData {
    /// A signature made of its four fields.
    pub fn new(name: String, email: String, seconds: i64, offset_minutes: i32) -> (res: SignatureData)
        ensures
            res.name == name,
            res.email == email,
            res.seconds == seconds,
            res.offset_minutes == offset_minutes,
    {
        SignatureData { name, email, seconds, offset_minutes }
    }

    /// A signature from the fields that a repository reports: a name or an
    /// email that is not valid text is taken as empty.
    pub fn from_reported(
        name: Option<String>,
        email: Option<String>,
        seconds: i64,
        offset_minutes: i32,
    ) -> (res: SignatureData)
        ensures
            res.name@ == (match name {
                Some(n) => n@,
                None => Seq::<char>::empty(),
            }),
            res.email@ == (match email {
                Some(e) => e@,
                None => Seq::<char>::empty(),
            }),
            res.seconds == seconds,
            res.offset_minutes == offset_minutes,
    {
        let name = match name {
            Some(n) => n,
            None => String::new(),
        };
        let email = match email {
            Some(e) => e,
            None => String::new(),
        };
        SignatureData { name, email, seconds, offset_minutes }
    }

    /// Reads a signature from its one-line text `Name <email> seconds +hhmm`.
    /// The name is the longest one that leaves a well-formed rest; name and
    /// email are not empty and hold no newline; the seconds are an optional
    /// `-` and decimal digits, the time zone a sign and four decimal digits.
    /// A text of another form is `Malformed`; seconds that do not read as a
    /// 64-bit integer give `InvalidSeconds`, a time zone that does not read
    /// as an offset `InvalidTimezone`.
    pub fn parse(s: &str) -> (res: Result<SignatureData, SignatureError>)
        ensures
            match signature_outcome(s@) {
                Ok((n, e, secs, o)) => res matches Ok(sig) && sig.name@ == n && sig.email@ == e
                    && sig.seconds == secs && sig.offset_minutes == o,
                Err(err) => res matches Err(r) && r == err,
            },
    {
        let v = chars_of(s);
        let n = v.len();
        match split_signature(&v) {
            None => Err(SignatureError::Malformed),
            Some((i, j)) => {
                proof {
                    let ghost len = n as int;
                    let a = v@.subrange(0, i as int);
                    let b = v@.subrange(i + 2, j - 2);
                    let c = v@.subrange(j as int, len - 6);
                    let t = v@.subrange(len - 5, len);
                    assert(is_signature_split(v@, a, b, c, t));
                    let (a2, b2, c2, t2) = chosen_fields(v@);
                    assert(is_chosen_split(v@, a2, b2, c2, t2));
                    lemma_chosen_split_unique(v@, a, b, c, t, a2, b2, c2, t2);
                }
                let seconds = match read_i64(&v, j, n - 6) {
                    Some(x) => x,
                    None => return Err(SignatureError::InvalidSeconds),
                };
                let offset_minutes = match read_timezone(&v, n - 5, n) {
                    Some(x) => x,
                    None => return Err(SignatureError::InvalidTimezone),
                };
                let name = string_of_range(&v, 0, i);
                let email = string_of_range(&v, i + 2, j - 2);
                Ok(SignatureData { name, email, seconds, offset_minutes })
            },
        }
    }

    /// The signature as git2 takes it for a commit: refused exactly when
    /// the name or the email is one that git cannot take; otherwise it holds
    /// the name and email trimmed of git's filler characters, and the
    /// seconds and offset of this signature.
    pub fn as_signature(&self) -> (res: Result<GitSignature, git2::Error>)
        ensures
            res is Ok <==> !refused_signature_field(self.name@) && !refused_signature_field(
                self.email@,
            ),
            res matches Ok(g) ==> g.held() == (
                crud_trim(self.name@),
                crud_trim(self.email@),
                self.seconds,
                self.offset_minutes,
            ),
    {
        new_git_signature(self.name.as_str(), self.email.as_str(), self.seconds, self.offset_minutes)
    }

    /// The one-line text of the signature: `Name <email> seconds +hhmm`.
    pub fn to_text(&self) -> (res: String)
        requires
            self.offset_minutes != i32::MIN,
        ensures
            res@ == signature_text(self.name@, self.email@, self.seconds, self.offset_minutes),
    {
        let mut out = String::new();
        push_str(&mut out, self.name.as_str());
        push_char(&mut out, ' ');
        push_char(&mut out, '<');
        push_str(&mut out, self.email.as_str());
        push_char(&mut out, '>');
        push_char(&mut out, ' ');
        if self.seconds < 0 {
            push_char(&mut out, '-');
            let magnitude: u64 = if self.seconds == i64::MIN {
                9223372036854775808u64
            } else {
                (-self.seconds) as u64
            };
            push_decimal(&mut out, magnitude);
        } else {
            push_decimal(&mut out, self.seconds as u64);
        }
        push_char(&mut out, ' ');
        let tz = format_timezone(self.offset_minutes);
        push_str(&mut out, tz.as_str());
        assert(out@ =~= signature_text(self.name@, self.email@, self.seconds, self.offset_minutes));
        out
    }
}

impl std::str::FromStr for SignatureData {
    type Err = SignatureError;

    fn from_str(s: &str) -> (res: Result<SignatureData, SignatureError>)
        ensures
            match signature_outcome(s@) {
                Ok((n, e, secs, o)) => res matches Ok(sig) && sig.name@ == n && sig.email@ == e
                    && sig.seconds == secs && sig.offset_minutes == o,
                Err(err) => res matches Err(r) && r == err,
            },
    {
        SignatureData::parse(s)
    }
}

pub(crate) proof fn lemma_decimal_digits(n: nat)
    ensures
        decimal(n).len() >= 1,
        all_ascii_digits(decimal(n)),
        digits_value(decimal(n)) == n,
    decreases n,
{
    let d = decimal(n);
    if n < 10 {
        lemma_digit_char(n as int);
        assert(d.drop_last() =~= Seq::<char>::empty());
        assert(digits_value(Seq::<char>::empty()) == 0);
    } else {
        lemma_decimal_digits(n / 10);
        lemma_digit_char((n % 10) as int);
        assert(d.drop_last() =~= decimal(n / 10));
        assert forall|k: int| 0 <= k < d.len() implies is_ascii_digit(#[trigger] d[k]) by {
            if k < d.len() - 1 {
                assert(d[k] == decimal(n / 10)[k]);
            }
        }
    }
}

proof fn lemma_ascii_digits_are_unicode(s: Seq<char>)
    requires
        all_ascii_digits(s),
    ensures
        all_unicode_digits(s),
{
    assert forall|k: int| 0 <= k < s.len() implies is_unicode_digit(#[trigger] s[k]) by {
        assert(is_ascii_digit(s[k]));
    }
}

proof fn lemma_int_text(v: i64)
    ensures
        seconds_shape(int_text(v as int)),
        i64_of_text(int_text(v as int)) == Some(v),
{
    let t = int_text(v as int);
    if v < 0 {
        let d = decimal((-v) as nat);
        lemma_decimal_digits((-v) as nat);
        lemma_ascii_digits_are_unicode(d);
        assert(t.skip(1) =~= d);
        assert(t[0] == '-');
    } else {
        let d = decimal(v as nat);
        lemma_decimal_digits(v as nat);
        lemma_ascii_digits_are_unicode(d);
        assert(is_ascii_digit(d[0]));
    }
}

proof fn lemma_timezone_text_shape(offset: int)
    requires
        -5999 <= offset <= 5999,
    ensures
        timezone_shape(timezone_text(offset)),
{
    let a = abs_int(offset);
    lemma_two_digits(a / 60);
    lemma_two_digits(a % 60);
    lemma_digit_char(((a / 60) / 10) as int);
    lemma_digit_char(((a / 60) % 10) as int);
    lemma_digit_char(((a % 60) / 10) as int);
    lemma_digit_char(((a % 60) % 10) as int);
    let t = timezone_text(offset);
    assert(t.len() == 5);
    assert forall|k: int| 0 <= k < t.skip(1).len() implies is_unicode_digit(
        #[trigger] t.skip(1)[k],
    ) by {
        assert(t.skip(1)[k] == t[k + 1]);
        assert(is_ascii_digit(t[k + 1]));
    }
}

/// ` <` does not occur in `s`.
pub open spec fn lacks_open_bracket(s: Seq<char>) -> bool {
    forall|k: int| 0 <= k < s.len() - 1 ==> !(s[k] == ' ' && #[trigger] s[k + 1] == '<')
}

proof fn lemma_no_newline_add(a: Seq<char>, b: Seq<char>)
    requires
        no_newline(a),
        no_newline(b),
    ensures
        no_newline(a + b),
{
    assert forall|k: int| 0 <= k < (a + b).len() implies (a + b)[k] != '\n' by {
        if k < a.len() {
            assert((a + b)[k] == a[k]);
        } else {
            assert((a + b)[k] == b[k - a.len()]);
        }
    }
}

proof fn lemma_digits_no_newline(s: Seq<char>)
    requires
        all_unicode_digits(s),
    ensures
        no_newline(s),
{
    assert forall|k: int| 0 <= k < s.len() implies s[k] != '\n' by {
        assert(is_unicode_digit(s[k]));
    }
}

/// Every character of `s` is one of `0` to `9`, by code point.
pub open spec fn decimal_digits_only(s: Seq<char>) -> bool {
    forall|k: int| 0 <= k < s.len() ==> 48 <= #[trigger] (s[k] as int) <= 57
}

/// The value of a numeral grows digit by digit: no digits are worth 0, and
/// one more digit `c` at the end multiplies the value by ten and adds the
/// digit's worth, `c - '0'`.
pub proof fn lemma_numeral_value(d: Seq<char>, c: char)
    requires
        48 <= c as int <= 57,
    ensures
        digits_value(Seq::<char>::empty()) == 0,
        digits_value(d.push(c)) == 10 * digits_value(d) + (c as int - 48),
{
    assert(d.push(c).drop_last() =~= d);
}

/// `i64::from_str` on a numeral that fits: the numeral alone, or with `+`
/// in front, reads as its value, and with `-` in front as the value
/// negated.
pub proof fn lemma_i64_of_numeral(d: Seq<char>)
    requires
        d.len() > 0,
        decimal_digits_only(d),
        digits_value(d) <= i64::MAX,
    ensures
        i64_of_text(d) == Some(digits_value(d) as i64),
        i64_of_text(seq!['+'] + d) == Some(digits_value(d) as i64),
        i64_of_text(seq!['-'] + d) == Some((-digits_value(d)) as i64),
        0 <= digits_value(d),
{
    assert(all_ascii_digits(d)) by {
        assert forall|k: int| 0 <= k < d.len() implies is_ascii_digit(#[trigger] d[k]) by {
            assert(48 <= d[k] as int <= 57);
        }
    }
    lemma_digits_value_nonneg(d);
    assert((seq!['+'] + d).skip(1) =~= d);
    assert((seq!['-'] + d).skip(1) =~= d);
    assert(!(d[0] == '+' || d[0] == '-')) by {
        assert(48 <= d[0] as int <= 57);
    }
}

proof fn lemma_decimal_no_leading_zero(n: nat)
    requires
        n > 0,
    ensures
        decimal(n)[0] != '0',
    decreases n,
{
    if n >= 10 {
        lemma_decimal_no_leading_zero(n / 10);
        lemma_decimal_digits(n / 10);
        assert(decimal(n)[0] == decimal(n / 10)[0]);
    }
}

/// The text that a signature gives its seconds: for zero and above the
/// plain decimal numeral of the value, without a leading zero; below zero a
/// `-` and the numeral of the value's size.
pub proof fn lemma_int_text_numeral(v: int)
    ensures
        v >= 0 ==> ({
            let t = int_text(v);
            &&& t.len() > 0
            &&& decimal_digits_only(t)
            &&& digits_value(t) == v
            &&& (v > 0 ==> t[0] != '0')
        }),
        v < 0 ==> ({
            let t = int_text(v);
            &&& t.len() > 1
            &&& t[0] == '-'
            &&& decimal_digits_only(t.skip(1))
            &&& digits_value(t.skip(1)) == -v
            &&& t[1] != '0'
        }),
{
    let n: nat = if v < 0 {
        (-v) as nat
    } else {
        v as nat
    };
    lemma_decimal_digits(n);
    let d = decimal(n);
    assert forall|k: int| 0 <= k < d.len() implies 48 <= #[trigger] (d[k] as int) <= 57 by {
        assert(is_ascii_digit(d[k]));
    }
    if n > 0 {
        lemma_decimal_no_leading_zero(n);
    }
    if v < 0 {
        let t = int_text(v);
        assert(t.skip(1) =~= d);
        assert(t[1] == d[0]);
    }
}

/// The text of a signature is one line when its name and email are.
pub(crate) proof fn lemma_signature_text_one_line(
    name: Seq<char>,
    email: Seq<char>,
    seconds: i64,
    offset: i32,
)
    requires
        no_newline(name),
        no_newline(email),
        -5999 <= offset <= 5999,
    ensures
        no_newline(signature_text(name, email, seconds, offset)),
{
    let c = int_text(seconds as int);
    let t = timezone_text(offset as int);
    lemma_int_text(seconds);
    lemma_timezone_text_shape(offset as int);
    if c.len() >= 1 && all_unicode_digits(c) {
        lemma_digits_no_newline(c);
    } else {
        lemma_digits_no_newline(c.skip(1));
        assert(c =~= seq![c[0]] + c.skip(1));
        lemma_no_newline_add(seq![c[0]], c.skip(1));
    }
    lemma_digits_no_newline(t.skip(1));
    assert(t =~= seq![t[0]] + t.skip(1));
    lemma_no_newline_add(seq![t[0]], t.skip(1));
    lemma_no_newline_add(name, seq![' ', '<']);
    lemma_no_newline_add(name + seq![' ', '<'], email);
    lemma_no_newline_add(name + seq![' ', '<'] + email, seq!['>', ' ']);
    lemma_no_newline_add(name + seq![' ', '<'] + email + seq!['>', ' '], c);
    lemma_no_newline_add(name + seq![' ', '<'] + email + seq!['>', ' '] + c, seq![' ']);
    lemma_no_newline_add(name + seq![' ', '<'] + email + seq!['>', ' '] + c + seq![' '], t);
}

/// Printing a signature and reading the text back gives the same
/// signature, provided name and email are not empty and hold no newline,
/// the email holds no ` <` (the name is read as the longest that fits), and
/// the offset is less than 100 hours.
pub proof fn lemma_signature_roundtrip(name: Seq<char>, email: Seq<char>, seconds: i64, offset: i32)
    requires
        name.len() > 0,
        email.len() > 0,
        no_newline(name),
        no_newline(email),
        lacks_open_bracket(email),
        -5999 <= offset <= 5999,
    ensures
        signature_outcome(signature_text(name, email, seconds, offset)) == Ok::<
            (Seq<char>, Seq<char>, i64, i32),
            SignatureError,
        >((name, email, seconds, offset)),
{
    let s = signature_text(name, email, seconds, offset);
    let c = int_text(seconds as int);
    let t = timezone_text(offset as int);
    lemma_int_text(seconds);
    lemma_timezone_text_shape(offset as int);
    lemma_timezone_roundtrip(offset as int);
    assert(is_signature_split(s, name, email, c, t));
    lemma_layout_facts(name, email, c, t);
    let l = name.len() as int;
    assert forall|a: Seq<char>, b: Seq<char>, c2: Seq<char>, t2: Seq<char>|
        #[trigger] is_signature_split(s, a, b, c2, t2) implies a.len() <= name.len() by {
        lemma_split_facts(s, a, b, c2, t2);
        lemma_split_tail(s, a, b, c2, t2, name, email, c, t);
        let la = a.len() as int;
        if la > l {
            assert(s[la] == ' ' && s[la + 1] == '<');
            if la >= l + 2 {
                let m = email.len() as int;
                assert(la + 2 < l + m + 2);
                assert(s.subrange(l + 2, l + 2 + m)[la - l - 2] == s[la]);
                assert(s.subrange(l + 2, l + 2 + m)[la - l - 1] == s[la + 1]);
                assert(email[la - l - 2] == ' ');
                assert(email[(la - l - 2) + 1] == '<');
                assert(false);
            }
        }
    }
    assert(is_chosen_split(s, name, email, c, t));
    let (a2, b2, c2, t2) = chosen_fields(s);
    lemma_chosen_split_unique(s, name, email, c, t, a2, b2, c2, t2);
}

proof fn lemma_utf8_len_lower(s: Seq<char>)
    ensures
        utf8_len(s) >= s.len(),
        utf8_len(s) == s.len() ==> forall|k: int| 0 <= k < s.len() ==> #[trigger] utf8_width(s[k]) == 1,
    decreases s.len(),
{
    if s.len() > 0 {
        let t = s.drop_last();
        lemma_utf8_len_lower(t);
        if utf8_len(s) == s.len() {
            assert forall|k: int| 0 <= k < s.len() implies #[trigger] utf8_width(s[k]) == 1 by {
                if k < t.len() {
                    assert(t[k] == s[k]);
                }
            }
        }
    }
}

/// The time zone field of any text read as a signature can be read without
/// slicing it inside a character.
pub proof fn lemma_timezone_field_never_breaks(tz: Seq<char>)
    requires
        timezone_shape(tz),
    ensures
        !timezone_slice_breaks(tz),
{
    lemma_utf8_len_lower(tz);
    if utf8_len(tz) == 5 {
        assert(utf8_width(tz[1]) == 1);
        assert(utf8_width(tz[2]) == 1);
    }
}

} // verus!
