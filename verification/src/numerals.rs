//! Numbers as decimal texts.

use crate::binary64;
use crate::binary64::{Binary64, INFINITE, MANTISSA_END};
use crate::text::chars_of;
use vstd::arithmetic::power2::*;
use vstd::prelude::*;

verus! {

/// The character of a decimal digit.
pub open spec fn digit_char(digit: nat) -> char {
    (48 + digit) as char
}

/// A natural number in decimal.
pub open spec fn decimal(number: nat) -> Seq<char>
    decreases number,
{
    if number < 10 {
        seq![digit_char(number)]
    } else {
        decimal(number / 10).push(digit_char(number % 10))
    }
}

/// The number that a row of decimal digits stands for, lowest digit first.
pub open spec fn row_value(row: Seq<u8>) -> nat
    decreases row.len(),
{
    if row.len() == 0 {
        0
    } else {
        row[0] as nat + 10 * row_value(row.drop_first())
    }
}

/// Whether these are decimal digits without superfluous zeros, lowest digit first.
spec fn is_row(row: Seq<u8>) -> bool {
    &&& row.len() > 0
    &&& forall|i: int| 0 <= i < row.len() ==> #[trigger] row[i] < 10
    &&& row.len() > 1 ==> row.last() > 0
}

/// A row reads, from its end, as the decimal text of its value.
proof fn lemma_row_reads(row: Seq<u8>)
    requires
        is_row(row),
    ensures
        decimal(row_value(row)) == Seq::new(
            row.len(),
            |i: int| digit_char(row[row.len() - 1 - i] as nat),
        ),
        row.last() > 0 ==> row_value(row) > 0,
    decreases row.len(),
{
    let text = Seq::new(row.len(), |i: int| digit_char(row[row.len() - 1 - i] as nat));
    if row.len() == 1 {
        assert(row_value(row.drop_first()) == 0);
        assert(text =~= seq![digit_char(row[0] as nat)]);
    } else {
        let rest = row.drop_first();
        assert forall|i: int| 0 <= i < rest.len() implies #[trigger] rest[i] < 10 by {
            assert(rest[i] == row[i + 1]);
        }
        assert(rest.last() == row.last());
        lemma_row_reads(rest);
        let upper = Seq::new(rest.len(), |i: int| digit_char(rest[rest.len() - 1 - i] as nat));
        assert(text =~= upper.push(digit_char(row[0] as nat)));
    }
}

/// What one more digit at the end of a row adds.
pub(crate) proof fn lemma_row_value_push(row: Seq<u8>, digit: u8)
    ensures
        row_value(row.push(digit)) == row_value(row) + vstd::arithmetic::power::pow(
            10,
            row.len(),
        ) * digit,
    decreases row.len(),
{
    let longer = row.push(digit);
    vstd::arithmetic::power::lemma_pow0(10);
    if row.len() == 0 {
        assert(longer.drop_first() =~= Seq::<u8>::empty());
        assert(row_value(longer.drop_first()) == 0);
    } else {
        assert(longer.drop_first() =~= row.drop_first().push(digit));
        lemma_row_value_push(row.drop_first(), digit);
        let less = (row.len() - 1) as nat;
        vstd::arithmetic::power::lemma_pow1(10);
        vstd::arithmetic::power::lemma_pow_adds(10, 1, less);
        let p = vstd::arithmetic::power::pow(10, less);
        assert(10 * (p * digit) == (10 * p) * digit) by (nonlinear_arith);
    }
}

/// The decimal digits of a number, lowest first.
fn row_of(number: u64) -> (row: Vec<u8>)
    ensures
        is_row(row@),
        row_value(row@) == number,
{
    let mut row: Vec<u8> = Vec::new();
    let mut left: u64 = number;
    let ghost mut scale: int = 1;
    proof {
        vstd::arithmetic::power::lemma_pow0(10);
        assert(row_value(row@) == 0);
    }
    while left >= 10
        invariant
            forall|i: int| 0 <= i < row@.len() ==> #[trigger] row@[i] < 10,
            scale == vstd::arithmetic::power::pow(10, row@.len()),
            number == row_value(row@) + scale * left,
            row@.len() > 0 ==> left > 0,
        decreases left,
    {
        let digit: u8 = (left % 10) as u8;
        proof {
            lemma_row_value_push(row@, digit);
            vstd::arithmetic::power::lemma_pow1(10);
            vstd::arithmetic::power::lemma_pow_adds(10, row@.len(), 1);
            let tens = left / 10;
            assert(scale * left == scale * digit + (scale * 10) * tens) by (nonlinear_arith)
                requires
                    left == 10 * tens + digit,
            ;
            scale = scale * 10;
        }
        row.push(digit);
        left = left / 10;
    }
    proof {
        lemma_row_value_push(row@, left as u8);
    }
    row.push(left as u8);
    row
}

/// Double the number that digits stand for, keeping their count, and give what is carried beyond
/// them.
pub(crate) fn double_digits(row: &mut Vec<u8>) -> (carry: u8)
    requires
        forall|i: int| 0 <= i < old(row)@.len() ==> #[trigger] old(row)@[i] < 10,
    ensures
        final(row)@.len() == old(row)@.len(),
        forall|i: int| 0 <= i < final(row)@.len() ==> #[trigger] final(row)@[i] < 10,
        carry <= 1,
        row_value(final(row)@) + vstd::arithmetic::power::pow(10, old(row)@.len()) * carry == 2
            * row_value(old(row)@),
        carry == 0 && old(row)@.len() > 0 && old(row)@.last() > 0 ==> final(row)@.last() > 0,
{
    let mut doubled: Vec<u8> = Vec::new();
    let mut carry: u8 = 0;
    let mut i: usize = 0;
    let ghost mut scale: int = 1;
    let ghost digits = row@;
    proof {
        vstd::arithmetic::power::lemma_pow0(10);
        assert(row_value(doubled@) == 0);
        assert(digits.take(0) =~= Seq::<u8>::empty());
        assert(row_value(digits.take(0)) == 0);
    }
    while i < row.len()
        invariant
            row@ == digits,
            forall|j: int| 0 <= j < digits.len() ==> #[trigger] digits[j] < 10,
            i <= digits.len(),
            doubled@.len() == i,
            carry <= 1,
            forall|j: int| 0 <= j < i ==> #[trigger] doubled@[j] < 10,
            scale == vstd::arithmetic::power::pow(10, i as nat),
            row_value(doubled@) + scale * carry == 2 * row_value(digits.take(i as int)),
            i > 0 && carry == 0 && digits[i - 1] > 0 ==> doubled@[i - 1] > 0,
        decreases digits.len() - i,
    {
        let twice: u8 = 2 * row[i] + carry;
        let digit: u8 = twice % 10;
        proof {
            lemma_row_value_push(doubled@, digit);
            assert(digits.take(i + 1) =~= digits.take(i as int).push(digits[i as int]));
            lemma_row_value_push(digits.take(i as int), digits[i as int]);
            vstd::arithmetic::power::lemma_pow1(10);
            vstd::arithmetic::power::lemma_pow_adds(10, i as nat, 1);
            let next = twice / 10;
            let d = digits[i as int];
            assert(scale * digit + (scale * 10) * next == scale * carry + 2 * (scale * d))
                by (nonlinear_arith)
                requires
                    10 * next + digit == 2 * d + carry,
            ;
            scale = scale * 10;
        }
        doubled.push(digit);
        carry = twice / 10;
        i = i + 1;
    }
    proof {
        assert(digits.take(digits.len() as int) =~= digits);
    }
    *row = doubled;
    carry
}

/// Double the number that a row of digits stands for.
fn double_row(row: &mut Vec<u8>)
    requires
        is_row(old(row)@),
        old(row)@.last() > 0,
    ensures
        is_row(final(row)@),
        final(row)@.last() > 0,
        row_value(final(row)@) == 2 * row_value(old(row)@),
{
    let carry: u8 = double_digits(row);
    let ghost scale = vstd::arithmetic::power::pow(10, row@.len());
    if carry > 0 {
        proof {
            lemma_row_value_push(row@, carry);
        }
        row.push(carry);
    } else {
        proof {
            assert(scale * carry == 0) by (nonlinear_arith)
                requires
                    carry == 0,
            ;
        }
    }
}

/// Append the decimal text of a row of digits.
fn push_row(out: &mut String, row: &Vec<u8>)
    requires
        is_row(row@),
    ensures
        final(out)@ == old(out)@ + decimal(row_value(row@)),
{
    let ghost start = out@;
    let ghost text = decimal(row_value(row@));
    let mut left: usize = row.len();
    proof {
        lemma_row_reads(row@);
        assert(start + text.take(0) =~= start);
    }
    while left > 0
        invariant
            is_row(row@),
            left <= row@.len(),
            text == Seq::new(row@.len(), |i: int| digit_char(row@[row@.len() - 1 - i] as nat)),
            out@ == start + text.take(row@.len() - left),
        decreases left,
    {
        let digit: u8 = row[left - 1];
        proof {
            let done = row@.len() - left;
            assert(text.take(done + 1) =~= text.take(done).push(digit_char(digit as nat)));
            assert(start + text.take(done + 1) =~= (start + text.take(done)).push(
                digit_char(digit as nat),
            ));
        }
        out.push((48 + digit) as char);
        left = left - 1;
    }
    proof {
        assert(text.take(row@.len() as int) =~= text);
    }
}

/// Append a number in decimal.
pub fn push_number(out: &mut String, number: u64)
    ensures
        final(out)@ == old(out)@ + decimal(number as nat),
{
    let row: Vec<u8> = row_of(number);
    push_row(out, &row);
}

/// A number below a hundred with two digits.
pub open spec fn two_digits(number: nat) -> Seq<char> {
    if number < 10 {
        "0"@ + decimal(number)
    } else {
        decimal(number)
    }
}

/// Append a number below a hundred with two digits.
pub fn push_two_digits(out: &mut String, number: u8)
    requires
        number < 100,
    ensures
        final(out)@ == old(out)@ + two_digits(number as nat),
{
    let ghost start = out@;
    if number < 10 {
        out.append("0");
    }
    push_number(out, number as u64);
    proof {
        assert(out@ =~= start + two_digits(number as nat));
    }
}

/// An integer in decimal, with a sign where it is negative.
pub open spec fn signed_decimal(number: int) -> Seq<char> {
    if number < 0 {
        "-"@ + decimal((-number) as nat)
    } else {
        decimal(number as nat)
    }
}

/// Append an integer in decimal, with a sign where it is negative.
pub fn push_integer(out: &mut String, number: i64)
    ensures
        final(out)@ == old(out)@ + signed_decimal(number as int),
{
    if number < 0 {
        let ghost start = out@;
        out.append("-");
        push_number(out, (-(number as i128)) as u64);
        proof {
            assert(out@ =~= start + ("-"@ + decimal((-number) as nat)));
        }
    } else {
        push_number(out, number as u64);
    }
}

// ---------------------------------------------------------------------------------------------
// One digit after the point
// ---------------------------------------------------------------------------------------------

/// The text of a number with one digit after the point.
pub open spec fn one_decimal(number: Binary64) -> Seq<char> {
    if number.is_nan() {
        "NaN"@
    } else {
        let sign: Seq<char> = if number.negative() {
            seq!['-']
        } else {
            Seq::empty()
        };
        if number.is_infinite() {
            sign + "inf"@
        } else {
            let tenths = binary64::tenths_of(number);
            sign + decimal(tenths / 10) + seq!['.', digit_char(tenths % 10)]
        }
    }
}

/// Append a number with one digit after the point.
pub fn push_one_decimal(out: &mut String, number: Binary64)
    ensures
        final(out)@ == old(out)@ + one_decimal(number),
{
    let ghost start = out@;
    let pattern: u64 = number.unsigned();
    if pattern > INFINITE {
        out.append("NaN");
        return;
    }
    let ghost sign: Seq<char> = if number.negative() {
        seq!['-']
    } else {
        Seq::empty()
    };
    if number.is_negative() {
        out.push('-');
    }
    assert(out@ =~= start + sign);
    if pattern == INFINITE {
        out.append("inf");
        proof {
            assert(out@ =~= start + (sign + "inf"@));
        }
        return;
    }
    let (m, r) = binary64::split(pattern);
    let ghost mag = number.magnitude();
    proof {
        binary64::lemma_parts(pattern as nat);
        binary64::lemma_edges();
        lemma_pow2_pos(1074);
        lemma_pow2_pos(r as nat);
    }
    if r >= 1074 {
        let mut row: Vec<u8> = row_of(m);
        let mut left: u32 = r - 1074;
        let ghost rise = (r - 1074) as nat;
        proof {
            lemma_row_nonzero(row@);
            assert(m * pow2(0) == m) by (nonlinear_arith)
                requires
                    pow2(0) == 1,
            ;
            assert((rise - left) as nat == 0);
        }
        while left > 0
            invariant
                is_row(row@),
                row@.last() > 0,
                left <= rise,
                row_value(row@) == m * pow2((rise - left) as nat),
            decreases left,
        {
            proof {
                lemma_pow2_unfold((rise - left + 1) as nat);
                assert(2 * (m * pow2((rise - left) as nat)) == m * pow2((rise - left + 1) as nat))
                    by (nonlinear_arith)
                    requires
                        pow2((rise - left + 1) as nat) == 2 * pow2((rise - left) as nat),
                ;
            }
            double_row(&mut row);
            left = left - 1;
        }
        let ghost count = row_value(row@);
        proof {
            lemma_pow2_adds(rise, 1074);
            assert(10 * mag == binary64::one() * (10 * count) + 0) by (nonlinear_arith)
                requires
                    mag == m as nat * pow2(r as nat),
                    count == m as nat * pow2(rise),
                    pow2(r as nat) == pow2(rise) * binary64::one(),
            ;
            binary64::lemma_quotient_unique(10 * mag, binary64::one(), 10 * count, 0);
            assert(binary64::tenths_of(number) == 10 * count);
        }
        push_row(out, &row);
        out.append(".0");
        proof {
            reveal_strlit(".0");
            assert(".0"@ =~= seq!['.', digit_char(0)]);
            assert(out@ =~= start + (sign + decimal(count) + seq!['.', digit_char(0)]));
        }
    } else {
        let tenths: u64 = small_tenths(m, r);
        proof {
            lemma_small_tenths(m, r, mag);
        }
        push_number(out, tenths / 10);
        let digit: u8 = (tenths % 10) as u8;
        out.push('.');
        out.push((48 + digit) as char);
        proof {
            let t = tenths as nat;
            assert(out@ =~= start + (sign + decimal(t / 10) + seq!['.', digit_char(t % 10)]));
        }
    }
}

proof fn lemma_row_nonzero(row: Seq<u8>)
    requires
        is_row(row),
        row_value(row) > 0,
    ensures
        row.last() > 0,
{
    if row.len() == 1 {
        assert(row_value(row.drop_first()) == 0);
    }
}

/// The tenths of a number with digits below the point, by its mantissa.
spec fn small_tenths_spec(m: u64, r: u32) -> nat {
    binary64::half_even(10 * m as nat, pow2((1074 - r) as nat))
}

proof fn lemma_small_tenths(m: u64, r: u32, mag: nat)
    requires
        r < 1074,
        mag == m * pow2(r as nat),
    ensures
        small_tenths_spec(m, r) == binary64::half_even(10 * mag, binary64::one()),
{
    let drop = (1074 - r) as nat;
    lemma_pow2_adds(drop, r as nat);
    lemma_pow2_pos(drop);
    lemma_pow2_pos(r as nat);
    assert(10 * mag == (10 * m as nat) * pow2(r as nat)) by (nonlinear_arith)
        requires
            mag == m as nat * pow2(r as nat),
    ;
    binary64::lemma_half_even_scaled(10 * m as nat, pow2(drop), pow2(r as nat));
}

fn small_tenths(m: u64, r: u32) -> (tenths: u64)
    requires
        r < 1074,
        m < MANTISSA_END,
    ensures
        tenths == small_tenths_spec(m, r),
{
    let drop: u32 = 1074 - r;
    proof {
        lemma2_to64();
        lemma2_to64_rest();
        lemma_pow2_pos(drop as nat);
    }
    if drop > 60 {
        proof {
            lemma_pow2_strictly_increases(60, drop as nat);
            binary64::lemma_quotient_unique(10 * m as nat, pow2(drop as nat), 0, 10 * m as nat);
        }
        return 0;
    }
    proof {
        if drop < 60 {
            lemma_pow2_strictly_increases(drop as nat, 60);
        }
    }
    let power: u64 = binary64::power_of_two(drop) as u64;
    let quotient: u64 = (10 * m) / power;
    let twice_rest: u64 = 2 * ((10 * m) % power);
    if twice_rest < power || (twice_rest == power && quotient % 2 == 0) {
        quotient
    } else {
        quotient + 1
    }
}

// ---------------------------------------------------------------------------------------------
// Reading
// ---------------------------------------------------------------------------------------------

/// The number that decimal digits stand for, where they are nothing but digits.
pub open spec fn digits_value(s: Seq<char>) -> Option<nat>
    decreases s.len(),
{
    if s.len() == 0 {
        Some(0)
    } else if !('0' <= s.last() <= '9') {
        None
    } else {
        match digits_value(s.drop_last()) {
            Some(upper) => Some((10 * upper + (s.last() as u32 - 48)) as nat),
            None => None,
        }
    }
}

/// The 32-bit number that a text stands for: decimal digits, perhaps after a plus sign.
pub open spec fn parsed_u32(s: Seq<char>) -> Option<u32> {
    let digits = if s.len() > 0 && s[0] == '+' {
        s.drop_first()
    } else {
        s
    };
    if digits.len() == 0 {
        None
    } else {
        match digits_value(digits) {
            Some(number) => if number <= u32::MAX {
                Some(number as u32)
            } else {
                None
            },
            None => None,
        }
    }
}

proof fn lemma_digits_prefix(s: Seq<char>, end: int)
    requires
        0 <= end <= s.len(),
    ensures
        digits_value(s.take(end)) is None ==> digits_value(s) is None,
        digits_value(s) matches Some(number) ==> digits_value(s.take(end)) is Some
            && digits_value(s.take(end))->0 <= number,
    decreases s.len() - end,
{
    if end == s.len() {
        assert(s.take(end) =~= s);
    } else {
        assert(s.take(end + 1).drop_last() =~= s.take(end));
        lemma_digits_prefix(s, end + 1);
    }
}

/// The 32-bit number that a text stands for.
pub fn parse_u32(s: &str) -> (number: Option<u32>)
    ensures
        number == parsed_u32(s@),
{
    let chars: Vec<char> = chars_of(s);
    let start: usize = if chars.len() > 0 && chars[0] == '+' {
        1
    } else {
        0
    };
    let ghost digits = chars@.skip(start as int);
    proof {
        if start == 1 {
            assert(digits =~= s@.drop_first());
        } else {
            assert(digits =~= s@);
        }
    }
    if chars.len() == start {
        return None;
    }
    let mut number: u64 = 0;
    let mut i: usize = start;
    assert(digits.take(0) =~= Seq::<char>::empty());
    while i < chars.len()
        invariant
            start <= i <= chars@.len(),
            digits == chars@.skip(start as int),
            number <= u32::MAX,
            digits_value(digits.take(i - start)) == Some(number as nat),
            digits.len() > 0,
            parsed_u32(s@) == (match digits_value(digits) {
                Some(n) => if n <= u32::MAX {
                    Some(n as u32)
                } else {
                    None
                },
                None => None,
            }),
        decreases chars@.len() - i,
    {
        let c: char = chars[i];
        proof {
            assert(digits.take(i - start + 1).drop_last() =~= digits.take(i - start));
            assert(digits.take(i - start + 1).last() == c);
            lemma_digits_prefix(digits, i - start + 1);
        }
        if !('0' <= c && c <= '9') {
            return None;
        }
        number = 10 * number + (c as u32 - 48) as u64;
        if number > u32::MAX as u64 {
            return None;
        }
        i = i + 1;
    }
    assert(digits.take(digits.len() as int) =~= digits);
    Some(number as u32)
}


// ---------------------------------------------------------------------------------------------
// Writing and reading
// ---------------------------------------------------------------------------------------------

/// What a natural number is written as reads as that number: it is nothing but digits, without
/// superfluous zeros before it.
pub proof fn law_decimals_are_read_back(number: nat)
    ensures
        decimal(number).len() > 0,
        digits_value(decimal(number)) == Some(number),
        forall|i: int| 0 <= i < decimal(number).len() ==> '0' <= #[trigger] decimal(number)[i] <= '9',
        number > 0 ==> decimal(number)[0] != '0',
        parsed_u32(decimal(number)) == (if number <= u32::MAX {
            Some(number as u32)
        } else {
            None
        }),
    decreases number,
{
    let text = decimal(number);
    let last = (number % 10) as nat;
    assert(digit_char(last) as u32 == 48 + last && '0' <= digit_char(last) <= '9');
    assert(text.last() == digit_char(last));
    if number < 10 {
        assert(text.drop_last() =~= Seq::<char>::empty());
        assert(digits_value(text.drop_last()) == Some(0nat));
    } else {
        law_decimals_are_read_back(number / 10);
        let upper = decimal(number / 10);
        assert(text.drop_last() =~= upper);
        assert forall|i: int| 0 <= i < text.len() implies '0' <= #[trigger] text[i] <= '9' by {
            if i < upper.len() {
                assert(text[i] == upper[i]);
            }
        }
    }
    assert(text[0] != '+');
}

/// No two natural numbers are written alike.
pub proof fn law_decimals_are_told_apart(a: nat, b: nat)
    requires
        decimal(a) == decimal(b),
    ensures
        a == b,
{
    law_decimals_are_read_back(a);
    law_decimals_are_read_back(b);
}

proof fn lemma_only_digits_have_values(s: Seq<char>, i: int)
    requires
        0 <= i < s.len(),
        !('0' <= s[i] <= '9'),
    ensures
        digits_value(s) is None,
    decreases s.len(),
{
    if i < s.len() - 1 {
        lemma_only_digits_have_values(s.drop_last(), i);
    }
}

/// A text that holds anything but digits, or none of them, is no number. A plus sign may stand
/// before the digits.
pub proof fn law_only_digits_are_numbers(s: Seq<char>)
    ensures
        s.len() == 0 ==> parsed_u32(s) is None,
        forall|i: int|
            0 <= i < s.len() && !('0' <= #[trigger] s[i] <= '9') && !(i == 0 && s[i] == '+')
                ==> parsed_u32(s) is None,
        s.len() > 0 && s[0] != '+' ==> parsed_u32(seq!['+'] + s) == parsed_u32(s),
{
    assert forall|i: int|
        0 <= i < s.len() && !('0' <= #[trigger] s[i] <= '9') && !(i == 0 && s[i]
            == '+') implies parsed_u32(s) is None by {
        if s[0] == '+' {
            assert(s.drop_first()[i - 1] == s[i]);
            lemma_only_digits_have_values(s.drop_first(), i - 1);
        } else {
            lemma_only_digits_have_values(s, i);
        }
    }
    if s.len() > 0 {
        assert((seq!['+'] + s).drop_first() =~= s);
    }
}

/// Zeros before a number do not change it.
pub proof fn law_leading_zeros_do_not_count(s: Seq<char>)
    ensures
        digits_value(seq!['0'] + s) == digits_value(s),
    decreases s.len(),
{
    let longer = seq!['0'] + s;
    if s.len() == 0 {
        assert(longer.drop_last() =~= Seq::<char>::empty());
        assert(digits_value(longer.drop_last()) == Some(0nat));
        assert(longer.last() == '0');
    } else {
        law_leading_zeros_do_not_count(s.drop_last());
        assert(longer.drop_last() =~= seq!['0'] + s.drop_last());
        assert(longer.last() == s.last());
    }
}

/// A number below a hundred is written with two digits, which read as that number.
pub proof fn law_two_digits_are_two(number: nat)
    requires
        number < 100,
    ensures
        two_digits(number).len() == 2,
        digits_value(two_digits(number)) == Some(number),
{
    reveal_strlit("0");
    law_decimals_are_read_back(number);
    if number < 10 {
        assert("0"@ =~= seq!['0']);
        law_leading_zeros_do_not_count(decimal(number));
    } else {
        assert(decimal(number / 10).len() == 1);
    }
}

/// A finite number is written with one digit behind the point, which is rounded: without the sign and
/// the point, the digits are how many tenths lie nearest to the number.
pub proof fn law_shown_numbers_are_the_nearest_tenths(number: Binary64)
    requires
        number.is_finite(),
    ensures
        ({
            let text = one_decimal(number);
            let body = if number.negative() {
                text.drop_first()
            } else {
                text
            };
            let n = body.len() as int;
            let digits = body.take(n - 2).push(body.last());
            let tenths = digits_value(digits)->0 as int;
            &&& n >= 3
            &&& number.negative() ==> text.len() > 0 && text[0] == '-'
            &&& body[n - 2] == '.'
            &&& digits_value(digits) is Some
            &&& -binary64::one() <= 2 * (tenths * binary64::one() - 10 * number.magnitude())
                <= binary64::one()
        }),
{
    let text = one_decimal(number);
    let tenths = binary64::tenths_of(number);
    let whole = decimal(tenths / 10);
    law_decimals_are_read_back(tenths / 10);
    let last = digit_char(tenths % 10);
    assert('0' <= last <= '9' && last as u32 == 48 + tenths % 10);
    let body = if number.negative() {
        text.drop_first()
    } else {
        text
    };
    assert(body =~= whole + seq!['.', last]);
    let digits = body.take(body.len() - 2).push(body.last());
    assert(digits =~= whole.push(last));
    assert(digits.drop_last() =~= whole);
    let (num, one) = ((10 * number.magnitude()) as int, binary64::one() as int);
    lemma_pow2_pos(1074);
    vstd::arithmetic::div_mod::lemma_fundamental_div_mod(num, one);
    let q = num / one;
    assert(one * q == q * one && (q + 1) * one == q * one + one) by (nonlinear_arith);
}

/// A number in the middle between two tenths is written as the one of them that is even.
pub proof fn law_numbers_between_two_tenths_are_shown_as_the_even_one(number: Binary64, count: nat)
    requires
        number.is_finite(),
        20 * number.magnitude() == (2 * count + 1) * binary64::one(),
    ensures
        ({
            let even = if count % 2 == 0 {
                count
            } else {
                count + 1
            };
            one_decimal(number) == (if number.negative() {
                seq!['-']
            } else {
                Seq::<char>::empty()
            }) + decimal(even / 10) + seq!['.', digit_char(even % 10)]
        }),
{
    let one = binary64::one() as int;
    lemma_pow2_pos(1073);
    lemma_pow2_unfold(1074);
    let (num, half) = (10 * number.magnitude() as int, pow2(1073) as int);
    assert(num == one * count + half) by (nonlinear_arith)
        requires
            2 * num == (2 * count + 1) * one,
            one == 2 * half,
    ;
    vstd::arithmetic::div_mod::lemma_fundamental_div_mod_converse(num, one, count as int, half);
}

/// An integer is written with a minus sign exactly where it is below zero.
pub proof fn law_integers_are_written_with_their_sign(number: int)
    ensures
        number >= 0 ==> digits_value(signed_decimal(number)) == Some(number as nat),
        number < 0 ==> signed_decimal(number).len() > 0 && signed_decimal(number)[0] == '-'
            && digits_value(signed_decimal(number).drop_first()) == Some((-number) as nat),
{
    reveal_strlit("-");
    if number >= 0 {
        law_decimals_are_read_back(number as nat);
    } else {
        law_decimals_are_read_back((-number) as nat);
        assert(signed_decimal(number).drop_first() =~= decimal((-number) as nat));
    }
}

}
