//! Reading a count typed by the user: surrounding white space is ignored, the
//! rest must be a decimal number that fits in `usize`, and anything else gives
//! way to a default.

use vstd::prelude::*;
use vstd::string::StrSliceExecFns;

verus! {

/// The number of rows of pegs when none is given.
pub const DEFAULT_ROWS: usize = 9;

/// The number of balls when none is given.
pub const DEFAULT_BALLS: usize = 1028;

/// The characters with the Unicode `White_Space` property.
pub open spec fn is_white_space(c: char) -> bool {
    let u = c as u32;
    ||| 0x09 <= u <= 0x0d
    ||| u == 0x20
    ||| u == 0x85
    ||| u == 0xa0
    ||| u == 0x1680
    ||| 0x2000 <= u <= 0x200a
    ||| u == 0x2028
    ||| u == 0x2029
    ||| u == 0x202f
    ||| u == 0x205f
    ||| u == 0x3000
}

/// `s` without its leading white space.
pub open spec fn trim_front(s: Seq<char>) -> Seq<char>
    decreases s.len(),
{
    if s.len() > 0 && is_white_space(s[0]) {
        trim_front(s.skip(1))
    } else {
        s
    }
}

/// `s` without its trailing white space.
pub open spec fn trim_back(s: Seq<char>) -> Seq<char>
    decreases s.len(),
{
    if s.len() > 0 && is_white_space(s.last()) {
        trim_back(s.drop_last())
    } else {
        s
    }
}

/// `s` without leading or trailing white space.
pub open spec fn trimmed(s: Seq<char>) -> Seq<char> {
    trim_back(trim_front(s))
}

pub open spec fn is_digit(c: char) -> bool {
    '0' <= c <= '9'
}

pub open spec fn digit_value(c: char) -> nat {
    (c as u32 - '0' as u32) as nat
}

/// The number that a sequence of decimal digits writes.
pub open spec fn digits_value(s: Seq<char>) -> nat
    decreases s.len(),
{
    if s.len() == 0 {
        0
    } else {
        digits_value(s.drop_last()) * 10 + digit_value(s.last())
    }
}

/// The digits of an unsigned decimal number: an optional `+` followed by at
/// least one digit, and nothing else.
pub open spec fn unsigned_digits(s: Seq<char>) -> Seq<char> {
    if s.len() > 0 && s[0] == '+' {
        s.skip(1)
    } else {
        s
    }
}

/// The unsigned decimal number that `s` writes, if it writes one.
pub open spec fn parse_unsigned(s: Seq<char>) -> Option<nat> {
    let body = unsigned_digits(s);
    if body.len() > 0 && forall|i: int| 0 <= i < body.len() ==> is_digit(#[trigger] body[i]) {
        Some(digits_value(body))
    } else {
        None
    }
}

/// The count that a line of input writes once trimmed, if it writes one that
/// fits in `usize`.
pub open spec fn line_count(line: Seq<char>) -> Option<usize> {
    match parse_unsigned(trimmed(line)) {
        Some(v) => if v <= usize::MAX {
            Some(v as usize)
        } else {
            None
        },
        None => None,
    }
}

/// The count that a line of input gives: the number it writes, or `default`
/// where it writes none or one too large for `usize`.
pub open spec fn read_count(line: Seq<char>, default: usize) -> usize {
    match line_count(line) {
        Some(v) => v,
        None => default,
    }
}

/// A line that, once trimmed, writes no number that fits in `usize` reads as
/// the default; one that does reads as that number.
pub proof fn lemma_invalid_reads_default(line: Seq<char>, default: usize)
    ensures
        line_count(line) is None ==> read_count(line, default) == default,
        line_count(line) is Some ==> read_count(line, default) == line_count(line)->0,
{
}

/// Whether `c` is white space.
pub fn white_space(c: char) -> (r: bool)
    ensures
        r == is_white_space(c),
{
    let u = c as u32;
    (0x09 <= u && u <= 0x0d) || u == 0x20 || u == 0x85 || u == 0xa0 || u == 0x1680 || (0x2000 <= u
        && u <= 0x200a) || u == 0x2028 || u == 0x2029 || u == 0x202f || u == 0x205f || u == 0x3000
}

/// Reads a count from a line of input, substituting `default` where the line
/// holds none.
pub fn parse_count_or_default(line: &str, default: usize) -> (r: usize)
    ensures
        r == read_count(line@, default),
{
    match parse_count(line) {
        Some(v) => v,
        None => default,
    }
}

/// Reads a count from a line of input: the line, trimmed, must be a decimal
/// number (optionally after `+`) that fits in `usize`.
pub fn parse_count(line: &str) -> (r: Option<usize>)
    ensures
        r == line_count(line@),
{
    let ghost s = line@;
    let n = line.unicode_len();
    let mut lo: usize = 0;
    assert(s.subrange(0, n as int) =~= s);
    while lo < n && white_space(line.get_char(lo))
        invariant
            s == line@,
            n == s.len(),
            lo <= n,
            trim_front(s) == trim_front(s.subrange(lo as int, n as int)),
        decreases n - lo,
    {
        assert(s.subrange(lo as int, n as int).skip(1) =~= s.subrange(lo + 1, n as int));
        lo = lo + 1;
    }
    let ghost front = s.subrange(lo as int, n as int);
    assert(trim_front(s) == front);
    let mut hi: usize = n;
    while hi > lo && white_space(line.get_char(hi - 1))
        invariant
            s == line@,
            n == s.len(),
            lo <= hi <= n,
            trimmed(s) == trim_back(s.subrange(lo as int, hi as int)),
        decreases hi - lo,
    {
        assert(s.subrange(lo as int, hi as int).drop_last() =~= s.subrange(lo as int, hi - 1));
        hi = hi - 1;
    }
    let ghost t = s.subrange(lo as int, hi as int);
    assert(trimmed(s) == t);
    let mut start: usize = lo;
    if start < hi && line.get_char(start) == '+' {
        start = start + 1;
    }
    let ghost body = s.subrange(start as int, hi as int);
    assert(unsigned_digits(t) =~= body);
    if start == hi {
        return None;
    }
    let mut value: usize = 0;
    let mut too_big: bool = false;
    let mut k: usize = start;
    while k < hi
        invariant
            s == line@,
            n == s.len(),
            start <= k <= hi <= n,
            body == s.subrange(start as int, hi as int),
            unsigned_digits(trimmed(s)) == body,
            forall|i: int| 0 <= i < k - start ==> is_digit(#[trigger] body[i]),
            !too_big ==> value == digits_value(body.take(k - start)),
            too_big ==> digits_value(body.take(k - start)) > usize::MAX,
        decreases hi - k,
    {
        let c = line.get_char(k);
        if !('0' <= c && c <= '9') {
            assert(!is_digit(body[k - start]));
            return None;
        }
        let d = (c as u32 - '0' as u32) as usize;
        assert(body.take(k - start + 1).drop_last() =~= body.take(k - start));
        assert(body.take(k - start + 1).last() == c);
        if !too_big {
            if value <= (usize::MAX - d) / 10 {
                value = value * 10 + d;
            } else {
                too_big = true;
            }
        }
        k = k + 1;
    }
    assert(body.take(k - start) =~= body);
    if too_big {
        None
    } else {
        Some(value)
    }
}

} // verus!
