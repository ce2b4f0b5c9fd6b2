//! Decimal integers: reading them in the syntax that Rust's `FromStr` accepts for
//! signed integers, and writing them out.
use vstd::prelude::*;

verus! {

/// `c` is one of the ASCII digits `0` to `9`.
pub open spec fn is_digit(c: char) -> bool {
    '0' <= c && c <= '9'
}

/// The value of the ASCII digit `c`.
pub open spec fn digit_value(c: char) -> int {
    c as int - '0' as int
}

/// Every character of `s` is an ASCII digit.
pub open spec fn all_digits(s: Seq<char>) -> bool {
    forall|i: int| 0 <= i < s.len() ==> is_digit(#[trigger] s[i])
}

/// The number that the digit string `s` denotes in base ten (0 for the empty string).
pub open spec fn digits_value(s: Seq<char>) -> int
    decreases s.len(),
{
    if s.len() == 0 {
        0
    } else {
        digits_value(s.drop_last()) * 10 + digit_value(s.last())
    }
}

/// The integer that `s` spells: an optional `+` or `-` sign followed by one or more
/// ASCII digits and nothing else. `None` for any other text.
pub open spec fn spec_parse_int(s: Seq<char>) -> Option<int> {
    let signed = s.len() > 0 && (s[0] == '+' || s[0] == '-');
    let digits = if signed { s.skip(1) } else { s };
    if digits.len() > 0 && all_digits(digits) {
        if signed && s[0] == '-' {
            Some(-digits_value(digits))
        } else {
            Some(digits_value(digits))
        }
    } else {
        None
    }
}

/// What Rust's `str::parse` gives for an integer type whose values are `lo..=hi`:
/// the value of `s` when it is well formed and in range.
pub open spec fn spec_parse_bounded(s: Seq<char>, lo: int, hi: int) -> Option<int> {
    match spec_parse_int(s) {
        Some(v) => if lo <= v <= hi {
            Some(v)
        } else {
            None
        },
        None => None,
    }
}

/// The character of the decimal digit `d`.
pub open spec fn digit_char(d: int) -> char {
    (d + '0' as int) as char
}

/// The base-ten digits of `n`, most significant first, with no leading zero.
pub open spec fn nat_digits(n: nat) -> Seq<char>
    decreases n,
{
    if n < 10 {
        seq![digit_char(n as int)]
    } else {
        nat_digits(n / 10).push(digit_char((n % 10) as int))
    }
}

/// How `Display` writes the integer `v`: a `-` for negative values, then the digits.
pub open spec fn decimal(v: int) -> Seq<char> {
    if v < 0 {
        seq!['-'] + nat_digits((-v) as nat)
    } else {
        nat_digits(v as nat)
    }
}

proof fn lemma_digits_value_nonneg(s: Seq<char>)
    requires
        all_digits(s),
    ensures
        digits_value(s) >= 0,
    decreases s.len(),
{
    if s.len() > 0 {
        lemma_digits_value_nonneg(s.drop_last());
    }
}

/// A digit string denotes at least as much as any of its prefixes.
proof fn lemma_digits_value_prefix(s: Seq<char>, k: int)
    requires
        all_digits(s),
        0 <= k <= s.len(),
    ensures
        digits_value(s.take(k)) <= digits_value(s),
    decreases s.len() - k,
{
    if k < s.len() {
        lemma_digits_value_prefix(s, k + 1);
        let t = s.take(k + 1);
        assert(t.drop_last() =~= s.take(k));
        lemma_digits_value_nonneg(s.take(k));
    } else {
        assert(s.take(k) =~= s);
    }
}

/// Reads `s` as an integer in `-max_neg..=max_pos`, as Rust's `str::parse` does for an
/// integer type with that range.
pub fn parse_bounded(s: &[char], max_neg: u64, max_pos: u64) -> (r: Option<i64>)
    requires
        max_neg <= 0x8000_0000,
        max_pos <= 0x8000_0000,
    ensures
        match spec_parse_bounded(s@, -(max_neg as int), max_pos as int) {
            Some(v) => r == Some(v as i64),
            None => r is None,
        },
{
    let len = s.len();
    let signed = len > 0 && (s[0] == '+' || s[0] == '-');
    let negative = signed && s[0] == '-';
    let first: usize = if signed { 1 } else { 0 };
    let ghost digits = if signed { s@.skip(1) } else { s@ };
    if first >= len {
        return None;
    }
    let cap: u64 = if negative { max_neg } else { max_pos };
    let mut value: u64 = 0;
    let mut i: usize = first;
    while i < len
        invariant
            first <= i <= len,
            len == s@.len(),
            first == (if signed { 1int } else { 0int }),
            signed == (s@.len() > 0 && (s@[0] == '+' || s@[0] == '-')),
            negative == (signed && s@[0] == '-'),
            cap == (if negative { max_neg } else { max_pos }),
            max_neg <= 0x8000_0000,
            max_pos <= 0x8000_0000,
            digits =~= s@.skip(first as int),
            all_digits(digits.take(i - first)),
            value == digits_value(digits.take(i - first)),
            value <= cap,
            cap <= 0x8000_0000,
        decreases len - i,
    {
        let c = s[i];
        if !('0' <= c && c <= '9') {
            assert(!is_digit(digits[i - first]));
            return None;
        }
        let d = (c as u64) - ('0' as u64);
        let ghost prev = digits.take(i - first);
        value = value * 10 + d;
        i += 1;
        proof {
            let cur = digits.take(i - first);
            assert(cur.drop_last() =~= prev);
            assert(cur.last() == c);
        }
        if value > cap {
            proof {
                let cur = digits.take(i - first);
                assert(value == digits_value(cur));
                if all_digits(digits) {
                    lemma_digits_value_prefix(digits, i - first);
                    assert(digits_value(digits) >= value);
                    assert(digits.len() > 0);
                    assert(digits == (if signed { s@.skip(1) } else { s@ }));
                    assert(spec_parse_int(s@) == Some(if negative { -digits_value(digits) } else { digits_value(digits) }));
                }
            }
            return None;
        }
    }
    assert(digits.take(i - first) =~= digits);
    if negative {
        Some(-(value as i64))
    } else {
        Some(value as i64)
    }
}

/// Reads `s` as an `i32`, as `str::parse::<i32>` does.
pub fn parse_i32(s: &[char]) -> (r: Option<i32>)
    ensures
        match spec_parse_bounded(s@, i32::MIN as int, i32::MAX as int) {
            Some(v) => r == Some(v as i32),
            None => r is None,
        },
{
    match parse_bounded(s, 0x8000_0000, 0x7fff_ffff) {
        Some(v) => Some(v as i32),
        None => None,
    }
}

/// Reads `s` as an `i16`, as `str::parse::<i16>` does.
pub fn parse_i16(s: &[char]) -> (r: Option<i16>)
    ensures
        match spec_parse_bounded(s@, i16::MIN as int, i16::MAX as int) {
            Some(v) => r == Some(v as i16),
            None => r is None,
        },
{
    match parse_bounded(s, 0x8000, 0x7fff) {
        Some(v) => Some(v as i16),
        None => None,
    }
}

/// Appends the base-ten digits of `n` to `s`.
pub fn push_digits(s: &mut String, n: u64)
    ensures
        final(s)@ == old(s)@ + nat_digits(n as nat),
    decreases n,
{
    if n >= 10 {
        push_digits(s, n / 10);
    }
    let d = (n % 10) as u8;
    let c = (d + 48) as char;
    assert(c == digit_char((n % 10) as int));
    s.push(c);
    assert(s@ =~= old(s)@ + nat_digits(n as nat));
}

/// Appends the decimal form of `v` to `s`, as `Display` writes it.
pub fn push_decimal(s: &mut String, v: i64)
    ensures
        final(s)@ == old(s)@ + decimal(v as int),
{
    if v < 0 {
        s.push('-');
        let magnitude: u64 = if v == i64::MIN {
            0x8000_0000_0000_0000
        } else {
            (-v) as u64
        };
        push_digits(s, magnitude);
        assert(s@ =~= old(s)@ + decimal(v as int));
    } else {
        push_digits(s, v as u64);
    }
}

proof fn lemma_digit_char(d: int)
    requires
        0 <= d <= 9,
    ensures
        is_digit(digit_char(d)),
        digit_value(digit_char(d)) == d,
        (digit_char(d) == '0') == (d == 0),
{
    assert(('0' as int) == 48);
    assert((d + 48) as char as int == d + 48);
}

/// The digits of `n` are digits, denote `n`, and start with `0` only when `n` is 0.
pub proof fn lemma_nat_digits(n: nat)
    ensures
        all_digits(nat_digits(n)),
        digits_value(nat_digits(n)) == n,
        nat_digits(n).len() >= 1,
        n > 0 ==> nat_digits(n)[0] != '0',
        n == 0 ==> nat_digits(n) == seq!['0'],
    decreases n,
{
    if n < 10 {
        lemma_digit_char(n as int);
        assert(nat_digits(n).drop_last() =~= Seq::<char>::empty());
        assert(digits_value(nat_digits(n)) == digits_value(nat_digits(n).drop_last()) * 10
            + digit_value(nat_digits(n).last()));
    } else {
        let q = n / 10;
        let r = n % 10;
        lemma_nat_digits(q as nat);
        lemma_digit_char(r as int);
        let s = nat_digits(n);
        assert(s.drop_last() =~= nat_digits(q as nat));
        assert(n == q * 10 + r);
        assert(s.last() == digit_char(r as int));
        assert(digits_value(s) == digits_value(s.drop_last()) * 10 + digit_value(s.last()));
        assert(s[0] == nat_digits(q as nat)[0]);
        assert forall|i: int| 0 <= i < s.len() implies is_digit(#[trigger] s[i]) by {
            if i < s.len() - 1 {
                assert(s[i] == nat_digits(q as nat)[i]);
            }
        }
    }
}

/// Reading back what `decimal` writes gives the value: `str::parse` undoes `Display`.
pub proof fn lemma_parse_decimal(v: int)
    ensures
        spec_parse_int(decimal(v)) == Some(v),
{
    if v < 0 {
        let m = (-v) as nat;
        lemma_nat_digits(m);
        let s = decimal(v);
        assert(s.skip(1) =~= nat_digits(m));
        assert(s[0] == '-');
    } else {
        lemma_nat_digits(v as nat);
        let s = decimal(v);
        assert(s[0] != '+' && s[0] != '-') by {
            assert(is_digit(s[0]));
        }
    }
}

/// Text that reads as an integer is not empty and holds only a sign and digits.
pub proof fn lemma_parse_int_chars(s: Seq<char>)
    requires
        spec_parse_int(s) is Some,
    ensures
        s.len() > 0,
        forall|i: int| 0 <= i < s.len() ==> is_digit(#[trigger] s[i]) || s[i] == '+' || s[i] == '-',
{
    let signed = s.len() > 0 && (s[0] == '+' || s[0] == '-');
    let digits = if signed { s.skip(1) } else { s };
    assert forall|i: int| 0 <= i < s.len() implies is_digit(#[trigger] s[i]) || s[i] == '+' || s[i] == '-' by {
        if signed {
            if i > 0 {
                assert(s[i] == digits[i - 1]);
            }
        } else {
            assert(s[i] == digits[i]);
        }
    }
}

} // verus!
