//! Text as sequences of characters, and numbers in decimal.

use vstd::prelude::*;

verus! {

/// The characters of `s`.
pub fn chars_of(s: &str) -> (chars: Vec<char>)
    ensures
        chars@ == s@,
{
    let mut chars: Vec<char> = Vec::new();
    for c in it: s.chars()
        invariant
            it.seq() == s@,
            chars@ == it.seq().take(it.index()),
    {
        chars.push(c);
        assert(it.seq().take(it.index() + 1) =~= it.seq().take(it.index()).push(c));
    }
    assert(s@.take(s@.len() as int) =~= s@);
    chars
}

/// `String::push`: appends the character `c` to the end of `s`.
#[verifier::external_body]
fn push_char(s: &mut String, c: char)
    ensures
        final(s)@ == old(s)@.push(c),
{
    s.push(c)
}

/// The string of the characters `chars`.
pub fn string_of(chars: &[char]) -> (s: String)
    ensures
        s@ == chars@,
{
    let mut s = String::new();
    let mut i: usize = 0;
    while i < chars.len()
        invariant
            0 <= i <= chars@.len(),
            s@ == chars@.take(i as int),
        decreases chars@.len() - i,
    {
        push_char(&mut s, chars[i]);
        assert(chars@.take(i + 1) =~= chars@.take(i as int).push(chars@[i as int]));
        i += 1;
    }
    assert(chars@.take(chars@.len() as int) =~= chars@);
    s
}

/// The decimal digit for `d`, which is below ten.
pub open spec fn digit_char(d: int) -> char {
    if d == 0 {
        '0'
    } else if d == 1 {
        '1'
    } else if d == 2 {
        '2'
    } else if d == 3 {
        '3'
    } else if d == 4 {
        '4'
    } else if d == 5 {
        '5'
    } else if d == 6 {
        '6'
    } else if d == 7 {
        '7'
    } else if d == 8 {
        '8'
    } else {
        '9'
    }
}

/// The decimal digits of `n`, without leading zeros.
pub open spec fn digits(n: nat) -> Seq<char>
    decreases n,
{
    if n < 10 {
        seq![digit_char(n as int)]
    } else {
        digits(n / 10).push(digit_char((n % 10) as int))
    }
}

/// `n` in decimal, with a minus sign where it is negative.
pub open spec fn decimal(n: int) -> Seq<char> {
    if n < 0 {
        seq!['-'] + digits((-n) as nat)
    } else {
        digits(n as nat)
    }
}

fn digit_of(d: u128) -> (c: char)
    requires
        d < 10,
    ensures
        c == digit_char(d as int),
{
    if d == 0 {
        '0'
    } else if d == 1 {
        '1'
    } else if d == 2 {
        '2'
    } else if d == 3 {
        '3'
    } else if d == 4 {
        '4'
    } else if d == 5 {
        '5'
    } else if d == 6 {
        '6'
    } else if d == 7 {
        '7'
    } else if d == 8 {
        '8'
    } else {
        '9'
    }
}

/// Appends `n` in decimal to `out`.
pub fn push_decimal(out: &mut Vec<char>, n: i128)
    ensures
        final(out)@ == old(out)@ + decimal(n as int),
{
    if n < 0 {
        out.push('-');
        push_digits(out, (-(n + 1)) as u128 + 1);
        assert(old(out)@.push('-') + digits((-n) as nat) =~= old(out)@ + (seq!['-'] + digits(
            (-n) as nat,
        )));
    } else {
        push_digits(out, n as u128);
    }
}

/// Appends the decimal digits of `magnitude` to `out`.
pub fn push_digits(out: &mut Vec<char>, magnitude: u128)
    ensures
        final(out)@ == old(out)@ + digits(magnitude as nat),
{
    // the digits come out lowest first
    let mut lowest_first: Vec<char> = Vec::new();
    let mut rest = magnitude;
    while rest >= 10
        invariant
            digits(magnitude as nat) == digits(rest as nat) + lowest_first@.reverse(),
        decreases rest,
    {
        let digit = digit_of(rest % 10);
        proof {
            assert(lowest_first@.push(digit).reverse() =~= seq![digit] + lowest_first@.reverse());
            assert(digits(rest as nat) == digits((rest / 10) as nat).push(digit));
            assert(digits((rest / 10) as nat).push(digit) + lowest_first@.reverse() =~= digits(
                (rest / 10) as nat,
            ) + (seq![digit] + lowest_first@.reverse()));
        }
        lowest_first.push(digit);
        rest = rest / 10;
    }
    let digit = digit_of(rest);
    proof {
        assert(lowest_first@.push(digit).reverse() =~= seq![digit] + lowest_first@.reverse());
    }
    lowest_first.push(digit);
    assert(lowest_first@.reverse() == digits(magnitude as nat));
    let ghost before = out@;
    let mut i = lowest_first.len();
    while i > 0
        invariant
            0 <= i <= lowest_first@.len(),
            out@ == before + lowest_first@.reverse().take(lowest_first@.len() - i),
        decreases i,
    {
        i -= 1;
        out.push(lowest_first[i]);
        assert(lowest_first@.reverse().take(lowest_first@.len() - i) =~= lowest_first@.reverse().take(
            lowest_first@.len() - i - 1,
        ).push(lowest_first@[i as int]));
    }
    proof {
        assert(lowest_first@.reverse().take(lowest_first@.len() as int) =~= lowest_first@.reverse());
    }
}

/// The value of the decimal digit `c`, or `None` where it is no digit.
pub open spec fn digit_value(c: char) -> Option<int> {
    if c == '0' {
        Some(0int)
    } else if c == '1' {
        Some(1int)
    } else if c == '2' {
        Some(2int)
    } else if c == '3' {
        Some(3int)
    } else if c == '4' {
        Some(4int)
    } else if c == '5' {
        Some(5int)
    } else if c == '6' {
        Some(6int)
    } else if c == '7' {
        Some(7int)
    } else if c == '8' {
        Some(8int)
    } else if c == '9' {
        Some(9int)
    } else {
        None
    }
}

/// Every character of `s` is a decimal digit.
pub open spec fn all_digits(s: Seq<char>) -> bool {
    forall|i: int| 0 <= i < s.len() ==> digit_value(#[trigger] s[i]) is Some
}

/// The number that the decimal digits `s` stand for.
pub open spec fn digits_value(s: Seq<char>) -> int
    decreases s.len(),
{
    if s.len() == 0 {
        0
    } else {
        digits_value(s.drop_last()) * 10 + match digit_value(s.last()) {
            Some(d) => d,
            None => 0,
        }
    }
}

/// The 32-bit number that `s` is in decimal: a sign, if any, and then digits
/// only, at least one. `None` where `s` is not of this form or the number
/// does not fit.
pub open spec fn parsed_i32(s: Seq<char>) -> Option<int> {
    let signed = s.len() > 0 && (s[0] == '-' || s[0] == '+');
    let body = if signed {
        s.skip(1)
    } else {
        s
    };
    let value = if signed && s[0] == '-' {
        -digits_value(body)
    } else {
        digits_value(body)
    };
    if body.len() > 0 && all_digits(body) && i32::MIN <= value <= i32::MAX {
        Some(value)
    } else {
        None
    }
}

fn value_of(c: char) -> (d: Option<i64>)
    ensures
        match d {
            Some(d) => digit_value(c) == Some(d as int) && 0 <= d <= 9,
            None => digit_value(c) is None,
        },
{
    if c == '0' {
        Some(0)
    } else if c == '1' {
        Some(1)
    } else if c == '2' {
        Some(2)
    } else if c == '3' {
        Some(3)
    } else if c == '4' {
        Some(4)
    } else if c == '5' {
        Some(5)
    } else if c == '6' {
        Some(6)
    } else if c == '7' {
        Some(7)
    } else if c == '8' {
        Some(8)
    } else if c == '9' {
        Some(9)
    } else {
        None
    }
}

/// Reads `s` as a 32-bit number in decimal.
pub fn parse_i32(s: &[char]) -> (n: Option<i32>)
    ensures
        match n {
            Some(n) => parsed_i32(s@) == Some(n as int),
            None => parsed_i32(s@) is None,
        },
{
    let signed = s.len() > 0 && (s[0] == '-' || s[0] == '+');
    let negative = signed && s[0] == '-';
    let start: usize = if signed {
        1
    } else {
        0
    };
    if s.len() == start {
        return None;
    }
    let ghost body = s@.skip(start as int);
    assert(s@.skip(0) =~= s@);
    let limit: i64 = 0x8000_0000;
    let mut value: i64 = 0;
    let mut too_big = false;
    let mut i: usize = start;
    while i < s.len()
        invariant
            start <= i <= s@.len(),
            body == s@.skip(start as int),
            body == (if s@.len() > 0 && (s@[0] == '-' || s@[0] == '+') {
                s@.skip(1)
            } else {
                s@
            }),
            all_digits(body.take(i - start)),
            limit == 0x8000_0000,
            0 <= value <= limit,
            !too_big ==> value == digits_value(body.take(i - start)),
            too_big ==> digits_value(body.take(i - start)) > limit,
        decreases s@.len() - i,
    {
        let ghost before = body.take(i - start);
        let ghost after = body.take(i + 1 - start);
        assert(after.drop_last() =~= before);
        assert(after.last() == s@[i as int]);
        match value_of(s[i]) {
            Some(d) => {
                proof {
                    assert forall|j: int| 0 <= j < after.len() implies digit_value(
                        #[trigger] after[j],
                    ) is Some by {
                        if j < before.len() {
                            assert(after[j] == before[j]);
                        }
                    }
                }
                if !too_big {
                    value = value * 10 + d;
                    if value > limit {
                        too_big = true;
                        value = limit;
                    }
                }
            },
            None => {
                proof {
                    assert(body[i - start] == s@[i as int]);
                    assert(digit_value(body[i - start]) is None);
                    assert(!all_digits(body));
                }
                return None;
            },
        }
        i += 1;
    }
    assert(body.take(body.len() as int) =~= body);
    if too_big {
        None
    } else if negative {
        Some((-value) as i32)
    } else if value == limit {
        None
    } else {
        Some(value as i32)
    }
}

/// The number up to `max` that `s` is in decimal: a plus sign, if any, and
/// then digits only, at least one. `None` where `s` is not of this form or
/// the number is greater than `max`.
pub open spec fn parsed_unsigned(s: Seq<char>, max: int) -> Option<int> {
    let body = if s.len() > 0 && s[0] == '+' {
        s.skip(1)
    } else {
        s
    };
    if body.len() > 0 && all_digits(body) && digits_value(body) <= max {
        Some(digits_value(body))
    } else {
        None
    }
}

/// Reads `s` as a number in decimal that is not greater than `max`.
pub fn parse_unsigned(s: &[char], max: u64) -> (n: Option<u64>)
    ensures
        match n {
            Some(n) => parsed_unsigned(s@, max as int) == Some(n as int),
            None => parsed_unsigned(s@, max as int) is None,
        },
{
    let start: usize = if s.len() > 0 && s[0] == '+' {
        1
    } else {
        0
    };
    if s.len() == start {
        return None;
    }
    let ghost body = s@.skip(start as int);
    assert(s@.skip(0) =~= s@);
    let mut value: u128 = 0;
    let mut too_big = false;
    let mut i: usize = start;
    while i < s.len()
        invariant
            start <= i <= s@.len(),
            body == s@.skip(start as int),
            body == (if s@.len() > 0 && s@[0] == '+' {
                s@.skip(1)
            } else {
                s@
            }),
            all_digits(body.take(i - start)),
            0 <= value <= max,
            !too_big ==> value == digits_value(body.take(i - start)),
            too_big ==> digits_value(body.take(i - start)) > max,
        decreases s@.len() - i,
    {
        let ghost before = body.take(i - start);
        let ghost after = body.take(i + 1 - start);
        assert(after.drop_last() =~= before);
        assert(after.last() == s@[i as int]);
        match value_of(s[i]) {
            Some(d) => {
                proof {
                    assert forall|j: int| 0 <= j < after.len() implies digit_value(
                        #[trigger] after[j],
                    ) is Some by {
                        if j < before.len() {
                            assert(after[j] == before[j]);
                        }
                    }
                }
                if !too_big {
                    value = value * 10 + d as u128;
                    if value > max as u128 {
                        too_big = true;
                        value = max as u128;
                    }
                }
            },
            None => {
                proof {
                    assert(body[i - start] == s@[i as int]);
                    assert(digit_value(body[i - start]) is None);
                    assert(!all_digits(body));
                }
                return None;
            },
        }
        i += 1;
    }
    assert(body.take(body.len() as int) =~= body);
    if too_big {
        None
    } else {
        Some(value as u64)
    }
}

} // verus!
