//! Decimal numbers in text: reading and writing.

use vstd::prelude::*;
use crate::text::chars_of;

verus! {

pub open spec fn is_digit(c: char) -> bool {
    '0' as int <= c as int <= '9' as int
}

/// Every character is a decimal digit, and there is one.
pub open spec fn is_numeral(s: Seq<char>) -> bool {
    s.len() > 0 && forall|i: int| 0 <= i < s.len() ==> is_digit(#[trigger] s[i])
}

/// The number that a sequence of digits stands for.
pub open spec fn numeral(s: Seq<char>) -> nat
    decreases s.len(),
{
    if s.len() == 0 {
        0
    } else {
        (numeral(s.drop_last()) * 10 + (s.last() as int - '0' as int)) as nat
    }
}

/// The number that a text gives to an unsigned integer type with the given maximum
/// (`str::parse`): digits, after at most one plus sign.
pub open spec fn unsigned(s: Seq<char>, max: nat) -> Option<nat> {
    let t = if s.len() > 0 && s[0] == '+' { s.skip(1) } else { s };
    if is_numeral(t) && numeral(t) <= max {
        Some(numeral(t))
    } else {
        None
    }
}

/// The number that a text gives to a signed 32-bit integer (`str::parse`): digits, after at
/// most one sign.
pub open spec fn signed(s: Seq<char>) -> Option<int> {
    if s.len() > 0 && s[0] == '-' {
        let t = s.skip(1);
        if is_numeral(t) && numeral(t) <= 0x8000_0000 {
            Some(-(numeral(t) as int))
        } else {
            None
        }
    } else {
        match unsigned(s, 0x7fff_ffff) {
            Some(n) => Some(n as int),
            None => None,
        }
    }
}

pub open spec fn digit_char(d: nat) -> char {
    (d + '0' as int) as char
}

/// The shortest sequence of digits that stands for a number.
pub open spec fn decimal(n: nat) -> Seq<char>
    decreases n,
{
    if n < 10 {
        seq![digit_char(n)]
    } else {
        decimal(n / 10).push(digit_char(n % 10))
    }
}

proof fn lemma_numeral_prefix(s: Seq<char>, k: int)
    requires
        is_numeral(s),
        0 <= k <= s.len(),
    ensures
        numeral(s.take(k)) <= numeral(s),
    decreases s.len() - k,
{
    if k == s.len() {
        assert(s.take(k) =~= s);
    } else {
        lemma_numeral_prefix(s, k + 1);
        let t = s.take(k + 1);
        assert(t.drop_last() =~= s.take(k));
        assert(is_digit(s[k]));
    }
}

/// The number that a decimal numeral stands for is the number it was written from.
pub proof fn decimal_reads_back(n: nat)
    ensures
        is_numeral(decimal(n)),
        numeral(decimal(n)) == n,
        decimal(n)[0] != '+',
        forall|max: nat| #![trigger unsigned(decimal(n), max)]
            unsigned(decimal(n), max) == (if n <= max { Some(n) } else { None }),
    decreases n,
{
    let s = decimal(n);
    if n < 10 {
        assert(s.drop_last() =~= seq![]);
        assert(numeral(s.drop_last()) == 0);
        assert(is_digit(s[0]));
    } else {
        decimal_reads_back(n / 10);
        let t = decimal(n / 10);
        assert(s.drop_last() =~= t);
        assert forall|i: int| 0 <= i < s.len() implies is_digit(#[trigger] s[i]) by {
            if i < t.len() {
                assert(s[i] == t[i]);
                assert(is_digit(t[i]));
            }
        }
        assert(s[0] == t[0]);
    }
}

/// The digits from one index on as a number, unless they exceed the maximum.
fn read_digits(v: &Vec<char>, from: usize, max: u64) -> (r: Option<u64>)
    requires
        from <= v@.len(),
    ensures
        ({
            let t = v@.skip(from as int);
            match r {
                Some(n) => is_numeral(t) && numeral(t) == n && n <= max,
                None => !is_numeral(t) || numeral(t) > max,
            }
        }),
{
    let ghost t = v@.skip(from as int);
    if from == v.len() {
        return None;
    }
    let mut value: u64 = 0;
    let mut i: usize = from;
    assert(t.take(0) =~= seq![]);
    while i < v.len()
        invariant
            from <= i <= v@.len(),
            t == v@.skip(from as int),
            t.len() > 0,
            forall|j: int| 0 <= j < i - from ==> is_digit(#[trigger] t[j]),
            value == numeral(t.take(i - from)),
            value <= max,
        decreases v@.len() - i,
    {
        let c = v[i];
        assert(t[i - from] == c);
        if !('0' <= c && c <= '9') {
            return None;
        }
        let d: u64 = (c as u32 - '0' as u32) as u64;
        let ghost next = t.take(i - from + 1);
        assert(next.drop_last() =~= t.take(i - from));
        let wide: u128 = value as u128 * 10 + d as u128;
        assert(wide == numeral(next));
        if wide > max as u128 {
            proof {
                if is_numeral(t) {
                    lemma_numeral_prefix(t, i - from + 1);
                }
            }
            return None;
        }
        value = wide as u64;
        i += 1;
    }
    assert(t.take(i - from) =~= t);
    Some(value)
}

spec fn lift(r: Option<u64>) -> Option<nat> {
    match r {
        Some(n) => Some(n as nat),
        None => None,
    }
}

/// The unsigned 64-bit number that a text gives.
pub open spec fn number_u64(s: Seq<char>) -> Option<u64> {
    match unsigned(s, u64::MAX as nat) {
        Some(n) => Some(n as u64),
        None => None,
    }
}

/// The unsigned 32-bit number that a text gives.
pub open spec fn number_u32(s: Seq<char>) -> Option<u32> {
    match unsigned(s, u32::MAX as nat) {
        Some(n) => Some(n as u32),
        None => None,
    }
}

/// The signed 32-bit number that a text gives.
pub open spec fn number_i32(s: Seq<char>) -> Option<i32> {
    match signed(s) {
        Some(n) => Some(n as i32),
        None => None,
    }
}

fn read_unsigned(s: &str, max: u64) -> (r: Option<u64>)
    ensures
        lift(r) == unsigned(s@, max as nat),
{
    let v = chars_of(s);
    if v.len() > 0 && v[0] == '+' {
        read_digits(&v, 1, max)
    } else {
        assert(v@.skip(0) =~= v@);
        read_digits(&v, 0, max)
    }
}

/// Reads an unsigned 64-bit number.
pub fn parse_u64(s: &str) -> (r: Option<u64>)
    ensures
        r == number_u64(s@),
{
    read_unsigned(s, u64::MAX)
}

/// Reads an unsigned 32-bit number.
pub fn parse_u32(s: &str) -> (r: Option<u32>)
    ensures
        r == number_u32(s@),
{
    match read_unsigned(s, 0xffff_ffff) {
        Some(n) => Some(n as u32),
        None => None,
    }
}

/// Reads a signed 32-bit number.
pub fn parse_i32(s: &str) -> (r: Option<i32>)
    ensures
        r == number_i32(s@),
{
    let v = chars_of(s);
    if v.len() > 0 && v[0] == '-' {
        match read_digits(&v, 1, 0x8000_0000) {
            Some(n) => Some((-(n as i64)) as i32),
            None => None,
        }
    } else {
        match read_unsigned(s, 0x7fff_ffff) {
            Some(n) => Some(n as i32),
            None => None,
        }
    }
}

/// Writes a number in decimal.
pub fn decimal_text(n: u128) -> (r: String)
    ensures
        r@ == decimal(n as nat),
    decreases n,
{
    let last: char = (48u8 + (n % 10) as u8) as char;
    assert(last == digit_char((n % 10) as nat));
    if n < 10 {
        let mut out = String::new();
        out.push(last);
        assert(out@ =~= seq![digit_char(n as nat)]);
        out
    } else {
        let mut out = decimal_text(n / 10);
        out.push(last);
        out
    }
}

/// A number with or without a sign reads back, as far as it fits.
pub proof fn signed_number_reads_back(n: nat)
    ensures
        n <= i32::MAX ==> number_i32(decimal(n)) == Some(n as i32),
        0 < n <= 0x8000_0000 ==> number_i32(seq!['-'] + decimal(n)) == Some((0 - n) as i32),
        n <= u32::MAX ==> number_u32(seq!['+'] + decimal(n)) == Some(n as u32),
        n <= u32::MAX ==> number_u32(decimal(n)) == Some(n as u32),
        n > u32::MAX ==> number_u32(decimal(n)) is None,
        n <= u64::MAX ==> number_u64(decimal(n)) == Some(n as u64),
        n > u64::MAX ==> number_u64(decimal(n)) is None,
{
    decimal_reads_back(n);
    let s = decimal(n);
    assert(is_digit(s[0]));
    assert((seq!['-'] + s).skip(1) =~= s);
    assert((seq!['+'] + s).skip(1) =~= s);
}

/// A text with anything but digits behind an optional sign, or without any, is no number.
pub proof fn other_text_is_no_number(s: Seq<char>, i: int)
    requires
        s.len() == 0 || (0 <= i < s.len() && !is_digit(s[i]) && (i > 0 || (s[0] != '+' && s[0] != '-'))),
    ensures
        number_u32(s) is None,
        number_u64(s) is None,
        number_i32(s) is None,
{
    if s.len() > 0 {
        if i > 0 {
            assert(s.skip(1)[i - 1] == s[i]);
        }
    }
}

}
