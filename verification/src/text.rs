//! Numbers and truth values as text.

use vstd::prelude::*;
use vstd::string::{StrSliceExecFns, StringExecFns};

verus! {

/// The character of the decimal digit `d`.
pub open spec fn digit_char(d: int) -> char {
    if d == 0 {
        '0'
    } else if d == 1 {
        '1'
    } else if d == 2 {
        '2'
    } else if d == 3 {
        '3'
    } else if d == 4 {
        '4'
    } else if d == 5 {
        '5'
    } else if d == 6 {
        '6'
    } else if d == 7 {
        '7'
    } else if d == 8 {
        '8'
    } else {
        '9'
    }
}

/// The decimal digits of `n`, most significant first, without leading zeros.
pub open spec fn digits(n: nat) -> Seq<char>
    decreases n,
{
    if n < 10 {
        seq![digit_char(n as int)]
    } else {
        digits(n / 10).push(digit_char((n % 10) as int))
    }
}

/// `v` in decimal, with a minus sign in front when it is negative.
pub open spec fn decimal(v: int) -> Seq<char> {
    if v < 0 {
        seq!['-'] + digits((-v) as nat)
    } else {
        digits(v as nat)
    }
}

/// `v` as the word `true` or `false`.
pub open spec fn truth_text(v: bool) -> Seq<char> {
    if v {
        "true"@
    } else {
        "false"@
    }
}

/// The text of one decimal digit.
fn digit_str(d: u64) -> (s: &'static str)
    requires
        d < 10,
    ensures
        s@ == seq![digit_char(d as int)],
{
    proof {
        reveal_strlit("0");
        reveal_strlit("1");
        reveal_strlit("2");
        reveal_strlit("3");
        reveal_strlit("4");
        reveal_strlit("5");
        reveal_strlit("6");
        reveal_strlit("7");
        reveal_strlit("8");
        reveal_strlit("9");
    }
    let s = if d == 0 {
        "0"
    } else if d == 1 {
        "1"
    } else if d == 2 {
        "2"
    } else if d == 3 {
        "3"
    } else if d == 4 {
        "4"
    } else if d == 5 {
        "5"
    } else if d == 6 {
        "6"
    } else if d == 7 {
        "7"
    } else if d == 8 {
        "8"
    } else {
        "9"
    };
    assert(s@ =~= seq![digit_char(d as int)]);
    s
}

/// `n` in decimal.
pub fn nat_to_string(n: u64) -> (s: String)
    ensures
        s@ == digits(n as nat),
    decreases n,
{
    if n < 10 {
        String::from_str(digit_str(n))
    } else {
        let mut s = nat_to_string(n / 10);
        s.append(digit_str(n % 10));
        assert(s@ =~= digits(n as nat));
        s
    }
}

/// `v` in decimal, with a minus sign in front when it is negative.
pub fn int_to_string(v: i32) -> (s: String)
    ensures
        s@ == decimal(v as int),
{
    let wide: i64 = v as i64;
    if wide < 0 {
        let magnitude: u64 = (-wide) as u64;
        let mut s = String::from_str("-");
        let tail = nat_to_string(magnitude);
        s.append(tail.as_str());
        proof {
            reveal_strlit("-");
            assert(s@ =~= decimal(v as int));
        }
        s
    } else {
        nat_to_string(wide as u64)
    }
}

/// `v` as the word `true` or `false`.
pub fn bool_to_string(v: bool) -> (s: String)
    ensures
        s@ == truth_text(v),
{
    if v {
        String::from_str("true")
    } else {
        String::from_str("false")
    }
}

/// The three texts one after the other.
pub fn concat3(a: &str, b: &str, c: &str) -> (s: String)
    ensures
        s@ == a@ + b@ + c@,
{
    let mut s = String::from_str(a);
    s.append(b);
    s.append(c);
    s
}

/// The text that formatting a string with `{:?}` gives: the string in
/// double quotes, with the characters that need it escaped.
pub uninterp spec fn quoted(text: Seq<char>) -> Seq<char>;

/// Formats `text` with `{:?}`, the `Debug` form that std gives a `str`. The
/// contract names the result and says no more of it.
#[verifier::external_body]
pub(crate) fn quote(text: &str) -> (out: String)
    ensures
        out@ == quoted(text@),
{
    format!("{:?}", text)
}

/// The texts of `parts` one after the other, with `separator` between each two.
pub open spec fn joined(parts: Seq<Seq<char>>, separator: Seq<char>) -> Seq<char>
    decreases parts.len(),
{
    if parts.len() == 0 {
        Seq::empty()
    } else if parts.len() == 1 {
        parts[0]
    } else {
        joined(parts.drop_last(), separator) + separator + parts.last()
    }
}

/// Whether `c` is one of the decimal digits `0` to `9`.
pub open spec fn is_digit(c: char) -> bool {
    '0' <= c <= '9'
}

/// The number that the decimal digits `s` write, or `None` where `s` is empty
/// or holds anything but digits.
pub open spec fn number_value(s: Seq<char>) -> Option<nat>
    decreases s.len(),
{
    if s.len() == 0 {
        None
    } else if !is_digit(s.last()) {
        None
    } else if s.len() == 1 {
        Some((s.last() as u32 - '0' as u32) as nat)
    } else {
        match number_value(s.drop_last()) {
            Some(v) => Some(10 * v + (s.last() as u32 - '0' as u32) as nat),
            None => None,
        }
    }
}

/// The integer that `s` writes in decimal, with an optional sign in front.
pub open spec fn signed_value(s: Seq<char>) -> Option<int> {
    if s.len() > 0 && s[0] == '-' {
        match number_value(s.skip(1)) {
            Some(v) => Some(-(v as int)),
            None => None,
        }
    } else if s.len() > 0 && s[0] == '+' {
        match number_value(s.skip(1)) {
            Some(v) => Some(v as int),
            None => None,
        }
    } else {
        match number_value(s) {
            Some(v) => Some(v as int),
            None => None,
        }
    }
}

/// The 32-bit integer that `s` writes: decimal digits with an optional
/// sign in front, and a value in range. Anything else is `None`.
pub open spec fn parsed_i32(s: Seq<char>) -> Option<i32> {
    match signed_value(s) {
        Some(v) => if i32::MIN <= v <= i32::MAX {
            Some(v as i32)
        } else {
            None
        },
        None => None,
    }
}

/// The length that `s` writes: decimal digits with an optional `+` in
/// front, and a value that fits the machine's word. Anything else is `None`.
pub open spec fn parsed_usize(s: Seq<char>) -> Option<usize> {
    if s.len() > 0 && s[0] == '-' {
        None
    } else {
        match signed_value(s) {
            Some(v) => if v <= usize::MAX {
                Some(v as usize)
            } else {
                None
            },
            None => None,
        }
    }
}

/// What the digits of `text` from position `start` on write, if it is at most `limit`.
fn parse_digits(text: &str, start: usize, limit: u64) -> (value: Option<u64>)
    requires
        start <= text@.len(),
    ensures
        value == (match number_value(text@.skip(start as int)) {
            Some(v) => if v <= limit {
                Some(v as u64)
            } else {
                None
            },
            None => None,
        }),
{
    let len: usize = text.unicode_len();
    let ghost digits = text@.skip(start as int);
    if start == len {
        return None;
    }
    let mut acc: u64 = 0;
    let mut too_big = false;
    let mut i: usize = start;
    while i < len
        invariant
            start <= i <= len == text@.len(),
            start < len,
            digits == text@.skip(start as int),
            acc <= limit,
            i == start ==> acc == 0 && !too_big,
            i > start ==> (match number_value(digits.take(i - start)) {
                Some(v) => if too_big {
                    v > limit
                } else {
                    v == acc
                },
                None => false,
            }),
        decreases len - i,
    {
        let c = text.get_char(i);
        proof {
            let next = digits.take(i - start + 1);
            assert(next.drop_last() =~= digits.take(i - start));
            assert(next.last() == c);
        }
        if !(c >= '0' && c <= '9') {
            proof {
                lemma_number_value_none(digits, i - start + 1);
                assert(digits.take(digits.len() as int) =~= digits);
            }
            return None;
        }
        let d: u64 = (c as u32 - '0' as u32) as u64;
        if !too_big {
            if d > limit || acc > (limit - d) / 10 {
                too_big = true;
            } else {
                acc = acc * 10 + d;
            }
        }
        i += 1;
    }
    proof {
        assert(digits.take(digits.len() as int) =~= digits);
    }
    if too_big {
        None
    } else {
        Some(acc)
    }
}

/// Digits that write no number up to position `k` write none as a whole.
proof fn lemma_number_value_none(s: Seq<char>, k: int)
    requires
        0 < k <= s.len(),
        number_value(s.take(k)) is None,
    ensures
        number_value(s) is None,
    decreases s.len() - k,
{
    if k < s.len() {
        assert(s.take(k + 1).drop_last() =~= s.take(k));
        lemma_number_value_none(s, k + 1);
    } else {
        assert(s.take(k) =~= s);
    }
}

/// The 32-bit integer that `text` writes, if it writes one.
pub fn parse_i32(text: &str) -> (value: Option<i32>)
    ensures
        value == parsed_i32(text@),
{
    let len: usize = text.unicode_len();
    if len > 0 && text.get_char(0) == '-' {
        match parse_digits(text, 1, 2147483648) {
            Some(v) => Some((-(v as i64)) as i32),
            None => None,
        }
    } else if len > 0 && text.get_char(0) == '+' {
        match parse_digits(text, 1, 2147483647) {
            Some(v) => Some(v as i32),
            None => None,
        }
    } else {
        proof {
            assert(text@.skip(0) =~= text@);
        }
        match parse_digits(text, 0, 2147483647) {
            Some(v) => Some(v as i32),
            None => None,
        }
    }
}

/// The length that `text` writes, if it writes one.
pub fn parse_usize(text: &str) -> (value: Option<usize>)
    ensures
        value == parsed_usize(text@),
{
    let len: usize = text.unicode_len();
    let limit: u64 = usize::MAX as u64;
    if len > 0 && text.get_char(0) == '-' {
        None
    } else if len > 0 && text.get_char(0) == '+' {
        match parse_digits(text, 1, limit) {
            Some(v) => Some(v as usize),
            None => None,
        }
    } else {
        proof {
            assert(text@.skip(0) =~= text@);
        }
        match parse_digits(text, 0, limit) {
            Some(v) => Some(v as usize),
            None => None,
        }
    }
}

} // verus!
