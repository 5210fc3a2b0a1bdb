//! Decimal text: rendering integers and reading a count typed by a user.
use vstd::prelude::*;

verus! {

/// The character of a decimal digit `d` in `0..10`.
pub open spec fn digit_char(d: int) -> char {
    if d == 0 { '0' }
    else if d == 1 { '1' }
    else if d == 2 { '2' }
    else if d == 3 { '3' }
    else if d == 4 { '4' }
    else if d == 5 { '5' }
    else if d == 6 { '6' }
    else if d == 7 { '7' }
    else if d == 8 { '8' }
    else { '9' }
}

/// The decimal digits of `n`, most significant first, without leading zeros.
pub open spec fn decimal(n: nat) -> Seq<char>
    decreases n,
{
    if n < 10 {
        seq![digit_char(n as int)]
    } else {
        decimal(n / 10).push(digit_char((n % 10) as int))
    }
}

/// The decimal text of `v`: a minus sign before the digits when `v` is negative.
pub open spec fn signed_decimal(v: int) -> Seq<char> {
    if v < 0 {
        seq!['-'] + decimal((-v) as nat)
    } else {
        decimal(v as nat)
    }
}

fn digit(d: u32) -> (c: char)
    requires
        d < 10,
    ensures
        c == digit_char(d as int),
{
    if d == 0 { '0' }
    else if d == 1 { '1' }
    else if d == 2 { '2' }
    else if d == 3 { '3' }
    else if d == 4 { '4' }
    else if d == 5 { '5' }
    else if d == 6 { '6' }
    else if d == 7 { '7' }
    else if d == 8 { '8' }
    else { '9' }
}

/// Appends the decimal digits of `n` to `out`.
pub fn push_decimal(out: &mut Vec<char>, n: u32)
    ensures
        final(out)@ == old(out)@ + decimal(n as nat),
    decreases n,
{
    if n < 10 {
        out.push(digit(n));
        assert(decimal(n as nat) == seq![digit_char(n as int)]);
        assert(final(out)@ =~= old(out)@ + decimal(n as nat));
    } else {
        push_decimal(out, n / 10);
        out.push(digit(n % 10));
        assert(final(out)@ =~= old(out)@ + decimal(n as nat));
    }
}

/// Appends the decimal text of `v` to `out`, with a minus sign when negative.
pub fn push_signed_decimal(out: &mut Vec<char>, v: i32)
    ensures
        final(out)@ == old(out)@ + signed_decimal(v as int),
{
    if v < 0 {
        out.push('-');
        let magnitude: u32 = if v == i32::MIN { 2147483648u32 } else { (-v) as u32 };
        push_decimal(out, magnitude);
        assert(final(out)@ =~= old(out)@ + signed_decimal(v as int));
    } else {
        push_decimal(out, v as u32);
    }
}

/// Unicode `White_Space`, the characters that `str::trim` removes.
pub open spec fn is_white_space(c: char) -> bool {
    ('\u{9}' <= c && c <= '\u{d}') || c == ' ' || c == '\u{85}' || c == '\u{a0}'
        || c == '\u{1680}' || ('\u{2000}' <= c && c <= '\u{200a}') || c == '\u{2028}'
        || c == '\u{2029}' || c == '\u{202f}' || c == '\u{205f}' || c == '\u{3000}'
}

/// `s` without its leading white space.
pub open spec fn trim_start(s: Seq<char>) -> Seq<char>
    decreases s.len(),
{
    if s.len() > 0 && is_white_space(s[0]) {
        trim_start(s.drop_first())
    } else {
        s
    }
}

/// `s` without its trailing white space.
pub open spec fn trim_end(s: Seq<char>) -> Seq<char>
    decreases s.len(),
{
    if s.len() > 0 && is_white_space(s.last()) {
        trim_end(s.drop_last())
    } else {
        s
    }
}

/// `s` without white space at either end.
pub open spec fn trimmed(s: Seq<char>) -> Seq<char> {
    trim_end(trim_start(s))
}

pub open spec fn is_digit(c: char) -> bool {
    '0' <= c && c <= '9'
}

pub open spec fn digit_value(c: char) -> int {
    c as int - '0' as int
}

/// The number that the decimal digits `d` spell, most significant first.
pub open spec fn digits_value(d: Seq<char>) -> int
    decreases d.len(),
{
    if d.len() == 0 {
        0
    } else {
        digits_value(d.drop_last()) * 10 + digit_value(d.last())
    }
}

/// Whether `t` has the shape of a decimal integer: an optional `+` or `-`
/// followed by one or more digits.
pub open spec fn is_integer_text(t: Seq<char>) -> bool {
    let body = unsigned_part(t);
    body.len() > 0 && forall|i: int| 0 <= i < body.len() ==> is_digit(#[trigger] body[i])
}

/// Whether `t` starts with a minus sign.
pub open spec fn is_negative_text(t: Seq<char>) -> bool {
    t.len() > 0 && t[0] == '-'
}

/// `t` without a leading sign.
pub open spec fn unsigned_part(t: Seq<char>) -> Seq<char> {
    if t.len() > 0 && (t[0] == '-' || t[0] == '+') {
        t.drop_first()
    } else {
        t
    }
}

/// The integer that `t` spells, where `is_integer_text(t)`.
pub open spec fn integer_value(t: Seq<char>) -> int {
    if is_negative_text(t) {
        -digits_value(unsigned_part(t))
    } else {
        digits_value(unsigned_part(t))
    }
}

/// Why a line of text is no record count.
#[derive(Debug, Clone, Copy, PartialEq, Eq, Structural)]
pub enum CountError {
    /// Nothing but white space.
    Empty,
    /// Something other than an optional sign followed by decimal digits.
    InvalidDigit,
    /// A well-formed integer too large for `i32`.
    PosOverflow,
    /// A well-formed integer too small for `i32`.
    NegOverflow,
}

/// What reading a count from `line` gives.
pub open spec fn count_result(line: Seq<char>) -> Result<i32, CountError> {
    let t = trimmed(line);
    if t.len() == 0 {
        Err(CountError::Empty)
    } else if !is_integer_text(t) {
        Err(CountError::InvalidDigit)
    } else if integer_value(t) > i32::MAX {
        Err(CountError::PosOverflow)
    } else if integer_value(t) < i32::MIN {
        Err(CountError::NegOverflow)
    } else {
        Ok(integer_value(t) as i32)
    }
}

proof fn lemma_trim_start_suffix(s: Seq<char>, k: int)
    requires
        0 <= k <= s.len(),
        forall|i: int| 0 <= i < k ==> is_white_space(#[trigger] s[i]),
    ensures
        trim_start(s) == trim_start(s.subrange(k, s.len() as int)),
    decreases k,
{
    if k > 0 {
        assert(is_white_space(s[0]));
        let r = s.drop_first();
        assert forall|i: int| 0 <= i < k - 1 implies is_white_space(#[trigger] r[i]) by {
            assert(r[i] == s[i + 1]);
        }
        lemma_trim_start_suffix(r, k - 1);
        assert(r.subrange(k - 1, r.len() as int) =~= s.subrange(k, s.len() as int));
    } else {
        assert(s.subrange(0, s.len() as int) =~= s);
    }
}

proof fn lemma_trim_end_prefix(s: Seq<char>, k: int)
    requires
        0 <= k <= s.len(),
        forall|i: int| k <= i < s.len() ==> is_white_space(#[trigger] s[i]),
    ensures
        trim_end(s) == trim_end(s.subrange(0, k)),
    decreases s.len() - k,
{
    if k < s.len() {
        assert(is_white_space(s.last()));
        let r = s.drop_last();
        assert forall|i: int| k <= i < r.len() implies is_white_space(#[trigger] r[i]) by {
            assert(r[i] == s[i]);
        }
        lemma_trim_end_prefix(r, k);
        assert(r.subrange(0, k) =~= s.subrange(0, k));
    } else {
        assert(s.subrange(0, k) =~= s);
    }
}

fn white_space(c: char) -> (r: bool)
    ensures
        r == is_white_space(c),
{
    ('\u{9}' <= c && c <= '\u{d}') || c == ' ' || c == '\u{85}' || c == '\u{a0}'
        || c == '\u{1680}' || ('\u{2000}' <= c && c <= '\u{200a}') || c == '\u{2028}'
        || c == '\u{2029}' || c == '\u{202f}' || c == '\u{205f}' || c == '\u{3000}'
}

/// Reads a record count from one line of input: white space at either end
/// is ignored, then an optional sign and decimal digits must follow, and the
/// value must fit in `i32`.
pub fn parse_count(line: &str) -> (r: Result<i32, CountError>)
    ensures
        r == count_result(line@),
{
    let len = line.unicode_len();
    let mut lo: usize = 0;
    while lo < len && white_space(line.get_char(lo))
        invariant
            len == line@.len(),
            lo <= len,
            forall|i: int| 0 <= i < lo ==> is_white_space(#[trigger] line@[i]),
        decreases len - lo,
    {
        lo = lo + 1;
    }
    let mut hi: usize = len;
    while hi > lo && white_space(line.get_char(hi - 1))
        invariant
            len == line@.len(),
            lo <= hi <= len,
            forall|i: int| hi <= i < len ==> is_white_space(#[trigger] line@[i]),
        decreases hi,
    {
        hi = hi - 1;
    }
    let ghost s = line@;
    let ghost t = s.subrange(lo as int, hi as int);
    proof {
        lemma_trim_start_suffix(s, lo as int);
        let rest = s.subrange(lo as int, s.len() as int);
        if lo < len {
            assert(rest[0] == s[lo as int]);
            assert(!is_white_space(rest[0]));
            assert(trim_start(s) == rest);
        } else {
            assert(rest.len() == 0);
        }
        assert(trim_start(s) == rest);
        assert forall|i: int| hi - lo <= i < rest.len() implies is_white_space(#[trigger] rest[i]) by {
            assert(rest[i] == s[i + lo]);
        }
        lemma_trim_end_prefix(rest, hi - lo);
        assert(rest.subrange(0, hi - lo) =~= t);
        if hi > lo {
            assert(t.last() == s[hi - 1]);
        }
        assert(trimmed(s) == t);
    }
    if hi == lo {
        return Err(CountError::Empty);
    }
    let first = line.get_char(lo);
    let negative = first == '-';
    let start: usize = if first == '-' || first == '+' { lo + 1 } else { lo };
    let ghost body = unsigned_part(t);
    assert(body =~= s.subrange(start as int, hi as int));
    if start == hi {
        return Err(CountError::InvalidDigit);
    }
    // The magnitude, capped just past the largest one that can fit.
    let mut value: i64 = 0;
    let mut capped = false;
    let mut k: usize = start;
    while k < hi
        invariant
            len == line@.len(),
            lo < start <= hi <= len || (lo == start && start < hi <= len),
            start <= k <= hi,
            body == s.subrange(start as int, hi as int),
            body == unsigned_part(t),
            t == s.subrange(lo as int, hi as int),
            trimmed(line@) == t,
            lo < hi,
            s == line@,
            forall|i: int| start <= i < k ==> is_digit(#[trigger] s[i]),
            0 <= value <= 2147483648,
            capped ==> digits_value(s.subrange(start as int, k as int)) > 2147483648,
            !capped ==> value == digits_value(s.subrange(start as int, k as int)),
        decreases hi - k,
    {
        let c = line.get_char(k);
        if !('0' <= c && c <= '9') {
            assert(!is_digit(body[k - start]));
            assert(t.len() > 0 && !is_integer_text(t));
            return Err(CountError::InvalidDigit);
        }
        let d = (c as u32 - '0' as u32) as i64;
        let ghost prev = s.subrange(start as int, k as int);
        let ghost next = s.subrange(start as int, k + 1);
        assert(next.drop_last() =~= prev);
        assert(next.last() == c);
        proof {
            assert(digits_value(next) == digits_value(prev) * 10 + digit_value(c));
            if capped {
                assert(digits_value(prev) * 10 + digit_value(c) > 2147483648) by (nonlinear_arith)
                    requires
                        digits_value(prev) > 2147483648,
                        digit_value(c) >= 0,
                ;
            }
        }
        if !capped {
            let grown = value * 10 + d;
            if grown > 2147483648 {
                capped = true;
                value = 2147483648;
            } else {
                value = grown;
            }
        }
        k = k + 1;
    }
    assert(s.subrange(start as int, hi as int) =~= body);
    assert(is_integer_text(t));
    assert(is_negative_text(t) == negative);
    if negative {
        if capped || value > 2147483648 {
            Err(CountError::NegOverflow)
        } else {
            Ok((-value) as i32)
        }
    } else {
        if capped || value > 2147483647 {
            Err(CountError::PosOverflow)
        } else {
            Ok(value as i32)
        }
    }
}

} // verus!
