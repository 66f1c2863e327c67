//! Numbers that users write, such as the temperature of an alert.

use crate::binary64;
use crate::binary64::{Binary64, IMPLICIT, INFINITE, MANTISSA_END};
use crate::numerals;
use crate::numerals::double_digits;
use crate::rounding;
use crate::text;
use crate::text::{chars_of, equals_ignoring_case, text_of};
use vstd::arithmetic::power::pow;
use vstd::arithmetic::power2::*;
use vstd::prelude::*;

verus! {

// ---------------------------------------------------------------------------------------------
// What a text stands for
// ---------------------------------------------------------------------------------------------

/// Whether a character is a decimal digit.
pub open spec fn is_digit(c: char) -> bool {
    '0' <= c <= '9'
}

/// Whether a character is a sign.
pub open spec fn is_sign(c: char) -> bool {
    c == '+' || c == '-'
}

/// Where the digits end that stand from some place on.
pub open spec fn digits_end(s: Seq<char>, from: int) -> int
    decreases s.len() - from,
{
    if 0 <= from < s.len() && is_digit(s[from]) {
        digits_end(s, from + 1)
    } else {
        from
    }
}

/// A number as it is written.
pub enum Written {
    /// An infinity, or what is no number.
    Unbounded,
    /// Digits, of which this many stand before the point. There can be more places before the
    /// point than digits, and the point can stand before the first digit.
    Decimal { negative: bool, digits: Seq<char>, point: int },
}

/// Where the sign ends, if there is one at this place.
pub open spec fn sign_end(s: Seq<char>, from: int) -> int {
    if 0 <= from < s.len() && is_sign(s[from]) {
        from + 1
    } else {
        from
    }
}

/// The exponent that stands from some place on: an optional sign and digits, and nothing else.
pub open spec fn exponent_at(s: Seq<char>, from: int) -> Option<int> {
    let start = sign_end(s, from);
    if start < s.len() && digits_end(s, start) == s.len() {
        let size = numerals::digits_value(s.skip(start))->0 as int;
        if s[from] == '-' {
            Some(-size)
        } else {
            Some(size)
        }
    } else {
        None
    }
}

/// The number that a text without its sign stands for: digits with an optional point among them or
/// at their ends, and an optional exponent; or one of three words.
pub open spec fn written_unsigned(s: Seq<char>, negative: bool) -> Option<Written> {
    let whole_end = digits_end(s, 0);
    let has_point = whole_end < s.len() && s[whole_end] == '.';
    let end = if has_point {
        digits_end(s, whole_end + 1)
    } else {
        whole_end
    };
    let digits = if has_point {
        s.take(whole_end) + s.subrange(whole_end + 1, end)
    } else {
        s.take(whole_end)
    };
    if text::same_ignoring_case(s, "inf"@) || text::same_ignoring_case(s, "infinity"@)
        || text::same_ignoring_case(s, "nan"@) {
        Some(Written::Unbounded)
    } else if digits.len() == 0 {
        None
    } else if end == s.len() {
        Some(Written::Decimal { negative, digits, point: whole_end })
    } else if s[end] == 'e' || s[end] == 'E' {
        match exponent_at(s, end + 1) {
            Some(exponent) => Some(
                Written::Decimal { negative, digits, point: whole_end + exponent },
            ),
            None => None,
        }
    } else {
        None
    }
}

/// The number that a text stands for, where it is one.
pub open spec fn written(s: Seq<char>) -> Option<Written> {
    written_unsigned(s.skip(sign_end(s, 0)), s.len() > 0 && s[0] == '-')
}

/// The double precision number nearest to digits with a point.
pub open spec fn nearest_number(negative: bool, digits: Seq<char>, point: int) -> Binary64 {
    let number = numerals::digits_value(digits)->0;
    let size = digits.len() as int;
    if point >= size {
        binary64::rounded(
            negative,
            (number * pow(10, (point - size) as nat)) as nat * binary64::one(),
            1,
        )
    } else {
        binary64::rounded(
            negative,
            number * binary64::one(),
            pow(10, (size - point) as nat) as nat,
        )
    }
}

// ---------------------------------------------------------------------------------------------
// Scanning
// ---------------------------------------------------------------------------------------------

proof fn lemma_digits_end(s: Seq<char>, from: int)
    requires
        0 <= from <= s.len(),
    ensures
        from <= digits_end(s, from) <= s.len(),
        forall|i: int| from <= i < digits_end(s, from) ==> is_digit(#[trigger] s[i]),
        digits_end(s, from) < s.len() ==> !is_digit(s[digits_end(s, from)]),
    decreases s.len() - from,
{
    if from < s.len() && is_digit(s[from]) {
        lemma_digits_end(s, from + 1);
    }
}

/// Find where the digits end that stand from some place on.
fn find_digits_end(chars: &Vec<char>, from: usize) -> (end: usize)
    requires
        from <= chars@.len(),
    ensures
        end == digits_end(chars@, from as int),
        from <= end <= chars@.len(),
{
    let mut end: usize = from;
    while end < chars.len() && '0' <= chars[end] && chars[end] <= '9'
        invariant
            from <= end <= chars@.len(),
            digits_end(chars@, from as int) == digits_end(chars@, end as int),
        decreases chars@.len() - end,
    {
        end = end + 1;
    }
    end
}

/// The value of digits is that of those before the last one, and the last one.
proof fn lemma_digits_value(s: Seq<char>)
    requires
        forall|i: int| 0 <= i < s.len() ==> is_digit(#[trigger] s[i]),
    ensures
        numerals::digits_value(s) is Some,
    decreases s.len(),
{
    if s.len() > 0 {
        assert forall|i: int| 0 <= i < s.len() - 1 implies is_digit(#[trigger] s.drop_last()[i]) by {
            assert(s[i] == s.drop_last()[i]);
        }
        lemma_digits_value(s.drop_last());
    }
}

/// An exponent or a place beyond this size is as good as any larger one.
pub const FAR: i128 = 0x400_0000_0000_0000_0000_0000;

/// Whether an integer stands for another one: it is the same, or both are far off on one side.
pub open spec fn stands_for(found: int, exact: int) -> bool {
    ||| found == exact
    ||| found >= FAR - 0x2_0000_0000_0000_0000 && exact >= FAR - 0x2_0000_0000_0000_0000
    ||| found <= 0x2_0000_0000_0000_0000 - FAR && exact <= 0x2_0000_0000_0000_0000 - FAR
}

/// Read the value of digits, up to a size beyond which all are alike.
fn read_digits(chars: &Vec<char>, from: usize) -> (size: i128)
    requires
        from <= chars@.len(),
        forall|i: int| from <= i < chars@.len() ==> is_digit(#[trigger] chars@[i]),
    ensures
        0 <= size <= 16 * FAR,
        numerals::digits_value(chars@.skip(from as int)) is Some,
        ({
            let exact = numerals::digits_value(chars@.skip(from as int))->0;
            size == exact || (size >= FAR && exact >= FAR)
        }),
{
    let ghost digits = chars@.skip(from as int);
    let mut size: i128 = 0;
    let mut i: usize = from;
    assert(digits.take(0) =~= Seq::<char>::empty());
    while i < chars.len()
        invariant
            from <= i <= chars@.len(),
            digits == chars@.skip(from as int),
            forall|j: int| from <= j < chars@.len() ==> is_digit(#[trigger] chars@[j]),
            0 <= size <= 16 * FAR,
            numerals::digits_value(digits.take(i - from)) is Some,
            ({
                let exact = numerals::digits_value(digits.take(i - from))->0;
                size == exact || (size >= FAR && exact >= FAR)
            }),
        decreases chars@.len() - i,
    {
        let c: char = chars[i];
        proof {
            assert(digits.take(i - from + 1).drop_last() =~= digits.take(i - from));
            assert(digits.take(i - from + 1).last() == c);
        }
        if size < FAR {
            size = 10 * size + (c as u32 - 48) as i128;
        }
        i = i + 1;
    }
    assert(digits.take(digits.len() as int) =~= digits);
    size
}

/// A number as it was read.
#[derive(Debug)]
enum Scanned {
    /// An infinity, or what is no number.
    Unbounded,
    /// Digits, and where the point stands among them or how far beside them.
    Decimal { negative: bool, digits: Vec<char>, point: i128 },
}

/// Whether this was read of what is written.
spec fn is_scan(scanned: Option<Scanned>, meant: Option<Written>) -> bool {
    match scanned {
        None => meant is None,
        Some(Scanned::Unbounded) => meant == Some(Written::Unbounded),
        Some(Scanned::Decimal { negative, digits, point }) => {
            &&& meant is Some
            &&& meant->0 is Decimal
            &&& meant->0->negative == negative
            &&& meant->0->digits == digits@
            &&& stands_for(point as int, meant->0->point)
            &&& forall|i: int| 0 <= i < digits@.len() ==> is_digit(#[trigger] digits@[i])
            &&& -20 * FAR <= point <= 20 * FAR
        },
    }
}

/// Read an exponent.
fn scan_exponent(chars: &Vec<char>, from: usize) -> (exponent: Option<i128>)
    requires
        from <= chars@.len(),
    ensures
        exponent is None <==> exponent_at(chars@, from as int) is None,
        exponent matches Some(found) ==> {
            let exact = exponent_at(chars@, from as int)->0;
            &&& -16 * FAR <= found <= 16 * FAR
            &&& found == exact || (found >= FAR && exact >= FAR) || (found <= -FAR && exact <= -FAR)
        },
{
    let signed: bool = from < chars.len() && (chars[from] == '+' || chars[from] == '-');
    let start: usize = if signed {
        from + 1
    } else {
        from
    };
    if start >= chars.len() {
        return None;
    }
    let end: usize = find_digits_end(chars, start);
    if end < chars.len() {
        return None;
    }
    proof {
        lemma_digits_end(chars@, start as int);
    }
    let size: i128 = read_digits(chars, start);
    if chars[from] == '-' {
        Some(-size)
    } else {
        Some(size)
    }
}

/// Copy some characters behind others.
fn push_part(out: &mut Vec<char>, chars: &Vec<char>, from: usize, to: usize)
    requires
        from <= to <= chars@.len(),
    ensures
        final(out)@ == old(out)@ + chars@.subrange(from as int, to as int),
{
    let ghost start = out@;
    let mut i: usize = from;
    while i < to
        invariant
            from <= i <= to <= chars@.len(),
            out@ == start + chars@.subrange(from as int, i as int),
        decreases to - i,
    {
        out.push(chars[i]);
        i = i + 1;
        assert(out@ =~= start + chars@.subrange(from as int, i as int));
    }
}

/// Read a number without its sign.
fn scan_unsigned(s: &str, negative: bool) -> (scanned: Option<Scanned>)
    ensures
        is_scan(scanned, written_unsigned(s@, negative)),
{
    if equals_ignoring_case(s, "inf") || equals_ignoring_case(s, "infinity")
        || equals_ignoring_case(s, "nan") {
        return Some(Scanned::Unbounded);
    }
    let chars: Vec<char> = chars_of(s);
    let whole_end: usize = find_digits_end(&chars, 0);
    let has_point: bool = whole_end < chars.len() && chars[whole_end] == '.';
    let end: usize = if has_point {
        find_digits_end(&chars, whole_end + 1)
    } else {
        whole_end
    };
    proof {
        lemma_digits_end(s@, 0);
        if has_point {
            lemma_digits_end(s@, whole_end + 1);
        }
    }
    let mut digits: Vec<char> = Vec::new();
    push_part(&mut digits, &chars, 0, whole_end);
    assert(digits@ =~= s@.take(whole_end as int));
    if has_point {
        push_part(&mut digits, &chars, whole_end + 1, end);
    }
    if digits.len() == 0 {
        return None;
    }
    let point: i128 = whole_end as i128;
    if end == chars.len() {
        return Some(Scanned::Decimal { negative, digits, point });
    }
    if chars[end] != 'e' && chars[end] != 'E' {
        return None;
    }
    match scan_exponent(&chars, end + 1) {
        Some(exponent) => Some(Scanned::Decimal { negative, digits, point: point + exponent }),
        None => None,
    }
}

/// Read a number.
fn scan(s: &str) -> (scanned: Option<Scanned>)
    ensures
        is_scan(scanned, written(s@)),
{
    let chars: Vec<char> = chars_of(s);
    let signed: bool = chars.len() > 0 && (chars[0] == '+' || chars[0] == '-');
    let negative: bool = chars.len() > 0 && chars[0] == '-';
    let start: usize = if signed {
        1
    } else {
        0
    };
    let rest: String = text_of(&chars, start, chars.len());
    assert(rest@ =~= s@.skip(start as int));
    scan_unsigned(rest.as_str(), negative)
}

// ---------------------------------------------------------------------------------------------
// Converting
// ---------------------------------------------------------------------------------------------

/// The value of digits.
pub open spec fn value_of(digits: Seq<char>) -> nat {
    numerals::digits_value(digits)->0
}

/// Whether these are nothing but digits.
pub open spec fn all_digits(s: Seq<char>) -> bool {
    forall|i: int| 0 <= i < s.len() ==> is_digit(#[trigger] s[i])
}

/// Powers of ten.
proof fn lemma_tens(exponent: nat)
    ensures
        pow(10, exponent) > 0,
        pow(10, exponent + 1) == 10 * pow(10, exponent),
        pow(10, 0) == 1,
{
    vstd::arithmetic::power::lemma_pow_positive(10, exponent);
    vstd::arithmetic::power::lemma_pow0(10);
    vstd::arithmetic::power::lemma_pow1(10);
    vstd::arithmetic::power::lemma_pow_adds(10, 1, exponent);
}

/// Digits can be read in two parts.
proof fn lemma_digits_split(s: Seq<char>, at: int)
    requires
        all_digits(s),
        0 <= at <= s.len(),
    ensures
        numerals::digits_value(s) is Some,
        value_of(s) == value_of(s.take(at)) * pow(10, (s.len() - at) as nat) + value_of(s.skip(at)),
        value_of(s.skip(at)) < pow(10, (s.len() - at) as nat),
    decreases s.len(),
{
    lemma_digits_value(s);
    if at == s.len() {
        lemma_tens(0);
        assert(s.take(at) =~= s);
        assert(s.skip(at) =~= Seq::<char>::empty());
        assert(value_of(s) * 1 == value_of(s));
    } else {
        let upper = s.drop_last();
        assert forall|i: int| 0 <= i < upper.len() implies is_digit(#[trigger] upper[i]) by {
            assert(s[i] == upper[i]);
        }
        lemma_digits_split(upper, at);
        assert(upper.take(at) =~= s.take(at));
        assert(upper.skip(at) =~= s.skip(at).drop_last());
        let rest = s.skip(at);
        assert(rest.last() == s.last());
        assert(is_digit(s[s.len() - 1]));
        assert forall|i: int| 0 <= i < rest.len() implies is_digit(#[trigger] rest[i]) by {
            assert(s[at + i] == rest[i]);
        }
        lemma_digits_value(rest);
        lemma_digits_value(rest.drop_last());
        let less = (s.len() - at - 1) as nat;
        lemma_tens(less);
        let (a, p) = (value_of(s.take(at)), pow(10, less));
        assert(10 * (a * p) == a * (10 * p)) by (nonlinear_arith);
    }
}

/// The digits from some place on, lowest first.
fn digits_from(digits: &Vec<char>, from: usize) -> (row: Vec<u8>)
    requires
        from <= digits@.len(),
        all_digits(digits@),
    ensures
        row@.len() == digits@.len() - from,
        forall|i: int| 0 <= i < row@.len() ==> #[trigger] row@[i] < 10,
        numerals::row_value(row@) == value_of(digits@.skip(from as int)),
{
    let mut row: Vec<u8> = Vec::new();
    let mut at: usize = digits.len();
    assert(digits@.skip(at as int) =~= Seq::<char>::empty());
    while at > from
        invariant
            from <= at <= digits@.len(),
            all_digits(digits@),
            row@.len() == digits@.len() - at,
            forall|i: int| 0 <= i < row@.len() ==> #[trigger] row@[i] < 10,
            numerals::row_value(row@) == value_of(digits@.skip(at as int)),
        decreases at,
    {
        at = at - 1;
        let c: char = digits[at];
        let digit: u8 = (c as u32 - 48) as u8;
        proof {
            let rest = digits@.skip(at as int);
            assert forall|i: int| 0 <= i < rest.len() implies is_digit(#[trigger] rest[i]) by {
                assert(digits@[at + i] == rest[i]);
            }
            lemma_digits_split(rest, 1);
            assert(rest.skip(1) =~= digits@.skip(at + 1));
            assert(rest.take(1).drop_last() =~= Seq::<char>::empty());
            assert(rest.take(1).last() == c);
            assert(numerals::digits_value(Seq::<char>::empty()) == Some(0nat));
            assert(is_digit(digits@[at as int]));
            assert(value_of(rest.take(1)) == digit);
            numerals::lemma_row_value_push(row@, digit);
            assert(pow(10, row@.len()) * digit == digit * pow(10, row@.len())) by (nonlinear_arith);
        }
        row.push(digit);
    }
    row
}

/// The value of a row is below the power of ten of its length.
proof fn lemma_row_bound(row: Seq<u8>)
    requires
        forall|i: int| 0 <= i < row.len() ==> #[trigger] row[i] < 10,
    ensures
        numerals::row_value(row) < pow(10, row.len()),
    decreases row.len(),
{
    lemma_tens(0);
    if row.len() > 0 {
        let rest = row.drop_first();
        assert forall|i: int| 0 <= i < rest.len() implies #[trigger] rest[i] < 10 by {
            assert(rest[i] == row[i + 1]);
        }
        lemma_row_bound(rest);
        lemma_tens(rest.len());
        assert(row[0] < 10);
    }
}

/// A row of zeros stands for zero, and any other row does not.
fn is_zero(row: &Vec<u8>) -> (zero: bool)
    requires
        forall|i: int| 0 <= i < row@.len() ==> #[trigger] row@[i] < 10,
    ensures
        zero == (numerals::row_value(row@) == 0),
{
    let mut at: usize = row.len();
    assert(row@.skip(at as int) =~= Seq::<u8>::empty());
    while at > 0
        invariant
            at <= row@.len(),
            numerals::row_value(row@.skip(at as int)) == 0,
        decreases at,
    {
        proof {
            assert(row@.skip(at - 1).drop_first() =~= row@.skip(at as int));
        }
        at = at - 1;
        if row[at] != 0 {
            proof {
                lemma_row_positive(row@, at as int);
            }
            return false;
        }
    }
    assert(row@.skip(0) =~= row@);
    true
}

proof fn lemma_row_positive(row: Seq<u8>, at: int)
    requires
        0 <= at < row.len(),
        row[at] != 0,
    ensures
        numerals::row_value(row) > 0,
    decreases at,
{
    if at > 0 {
        assert(row.drop_first()[at - 1] == row[at]);
        lemma_row_positive(row.drop_first(), at - 1);
    }
}

/// The number nearest to a whole number below a hundred and a decimal fraction.
fn nearest_to(whole: u64, fraction: Vec<u8>) -> (number: Binary64)
    requires
        1 <= whole < 100,
        forall|i: int| 0 <= i < fraction@.len() ==> #[trigger] fraction@[i] < 10,
    ensures
        ({
            let tens = pow(10, fraction@.len()) as nat;
            number == binary64::rounded(
                false,
                (whole * tens + numerals::row_value(fraction@)) as nat * binary64::one(),
                tens,
            )
        }),
{
    let ghost count = fraction@.len();
    let ghost tens = pow(10, count);
    let ghost exact = whole * tens + numerals::row_value(fraction@);
    proof {
        lemma_tens(count);
        lemma_row_bound(fraction@);
        lemma2_to64();
    }
    let mut rest: Vec<u8> = fraction;
    let mut mantissa: u64 = whole;
    let mut shift: u64 = 0;
    assert(exact * pow2(0) == exact) by (nonlinear_arith)
        requires
            pow2(0) == 1,
    ;
    while mantissa < IMPLICIT
        invariant
            rest@.len() == count,
            tens == pow(10, count),
            tens > 0,
            forall|i: int| 0 <= i < rest@.len() ==> #[trigger] rest@[i] < 10,
            numerals::row_value(rest@) < tens,
            1 <= mantissa < MANTISSA_END,
            pow2(shift as nat) <= mantissa,
            shift <= 52,
            mantissa * tens + numerals::row_value(rest@) == exact * pow2(shift as nat),
        decreases MANTISSA_END - mantissa,
    {
        let ghost before = numerals::row_value(rest@);
        let carry: u8 = double_digits(&mut rest);
        proof {
            lemma_row_bound(rest@);
            lemma_pow2_unfold(shift as nat + 1);
            binary64::lemma_edges();
            if shift == 52 {
                assert(false);
            }
            let after = numerals::row_value(rest@);
            let p = pow2(shift as nat);
            assert((2 * mantissa + carry) * tens + after == 2 * (exact * p)) by (nonlinear_arith)
                requires
                    mantissa * tens + before == exact * p,
                    after + tens * carry == 2 * before,
            ;
            assert(2 * (exact * p) == exact * (2 * p)) by (nonlinear_arith);
        }
        mantissa = 2 * mantissa + carry as u64;
        shift = shift + 1;
    }
    let ghost left = numerals::row_value(rest@);
    let carry: u8 = double_digits(&mut rest);
    let up: bool = carry == 1 && (mantissa % 2 == 1 || !is_zero(&rest));
    proof {
        lemma_row_bound(rest@);
        let twice = numerals::row_value(rest@);
        assert(tens * carry == (if carry == 1 {
            tens
        } else {
            0
        })) by (nonlinear_arith)
            requires
                carry <= 1,
        ;
        lemma_rounded_here(exact as nat, tens as nat, shift as nat, mantissa as nat, left);
    }
    let rounded: u64 = if up {
        mantissa + 1
    } else {
        mantissa
    };
    let pattern: u64 = (1074 - shift) * IMPLICIT + rounded;
    proof {
        rounding::lemma_with_sign(false, pattern as nat);
    }
    Binary64 { bits: pattern }
}

/// The pattern of a quotient from one to a hundred, of which the leading bits are known.
proof fn lemma_rounded_here(exact: nat, tens: nat, shift: nat, mantissa: nat, left: nat)
    requires
        tens > 0,
        left < tens,
        shift <= 52,
        IMPLICIT <= mantissa < MANTISSA_END,
        mantissa * tens + left == exact * pow2(shift),
    ensures
        binary64::nearest_pattern(exact * binary64::one(), tens) == (1074 - shift) * IMPLICIT + (if 2
            * left < tens || (2 * left == tens && mantissa % 2 == 0) {
            mantissa
        } else {
            mantissa + 1
        }),
{
    let step = (1074 - shift) as nat;
    let (p, q) = (pow2(shift), pow2(step));
    lemma_pow2_adds(shift, step);
    lemma_pow2_pos(step);
    let num = exact * binary64::one();
    let scaled = exact * p;
    assert(num == scaled * q) by (nonlinear_arith)
        requires
            num == exact * (p * q),
            scaled == exact * p,
    ;
    lemma_pow2_adds(53, step);
    lemma_pow2_adds(52, step);
    binary64::lemma_edges();
    assert(num < tens * (MANTISSA_END * q)) by (nonlinear_arith)
        requires
            num == scaled * q,
            scaled == mantissa * tens + left,
            left < tens,
            mantissa < MANTISSA_END,
            q > 0,
    ;
    assert(tens * (IMPLICIT * q) <= num) by (nonlinear_arith)
        requires
            num == scaled * q,
            scaled == mantissa * tens + left,
            IMPLICIT <= mantissa,
            q > 0,
    ;
    binary64::lemma_nearest_pattern_at(num, tens, step);
    binary64::lemma_half_even_scaled(scaled, tens, q);
    vstd::arithmetic::div_mod::lemma_fundamental_div_mod_converse(
        scaled as int,
        tens as int,
        mantissa as int,
        left as int,
    );
}

// ---------------------------------------------------------------------------------------------
// Numbers within bounds
// ---------------------------------------------------------------------------------------------

/// Whether a number lies between two whole numbers, or is one of them.
pub open spec fn is_between(number: Binary64, low: nat, high: nat) -> bool {
    binary64::at_most(binary64::whole(false, low), number) && binary64::at_most(
        number,
        binary64::whole(false, high),
    )
}

/// The number that was written, where it lies between two whole numbers.
pub open spec fn number_between(meant: Written, low: nat, high: nat) -> Option<Binary64> {
    match meant {
        Written::Unbounded => None,
        Written::Decimal { negative, digits, point } => {
            let number = nearest_number(negative, digits, point);
            if is_between(number, low, high) {
                Some(number)
            } else {
                None
            }
        },
    }
}

/// A quotient of at most one is rounded to at most one.
proof fn lemma_at_most_one(num: nat, den: nat, low: nat, high: nat)
    requires
        den > 0,
        num <= den * binary64::one(),
        2 <= low < MANTISSA_END,
    ensures
        !is_between(binary64::rounded(false, num, den), low, high),
{
    let u = binary64::one();
    lemma_pow2_pos(1074);
    rounding::law_rounding_of_equal_quotients(1 * u, 1, den);
    assert(u * den == den * u) by (nonlinear_arith);
    rounding::law_rounding_keeps_order(num, den * u, den);
    rounding::law_whole_numbers_are_held(false, 1);
    rounding::law_whole_numbers_are_held(false, low);
    let (r, top) = (binary64::nearest_pattern(num, den), binary64::nearest_pattern(u, 1));
    rounding::lemma_with_sign(false, r);
    rounding::lemma_with_sign(false, top);
    if r < top {
        binary64::lemma_magnitude_grows(r, top);
    }
    assert(low * u > u) by (nonlinear_arith)
        requires
            low >= 2,
            u > 0,
    ;
}

/// A quotient of a hundred or more is rounded to a hundred or more.
proof fn lemma_at_least_a_hundred(num: nat, den: nat, low: nat, high: nat)
    requires
        den > 0,
        num >= den * (100 * binary64::one()),
        high < 100,
    ensures
        !is_between(binary64::rounded(false, num, den), low, high),
{
    let u = binary64::one();
    lemma_pow2_pos(1074);
    rounding::law_rounding_of_equal_quotients(100 * u, 1, den);
    assert((100 * u) * den == den * (100 * u)) by (nonlinear_arith);
    rounding::law_rounding_keeps_order(den * (100 * u), num, den);
    rounding::law_whole_numbers_are_held(false, 100);
    rounding::law_whole_numbers_are_held(false, high);
    let (r, bottom) = (
        binary64::nearest_pattern(num, den),
        binary64::nearest_pattern(100 * u, 1),
    );
    rounding::lemma_with_sign(false, r);
    rounding::lemma_with_sign(false, bottom);
    let capped = if r < INFINITE {
        r
    } else {
        INFINITE as nat
    };
    if bottom < capped {
        binary64::lemma_magnitude_grows(bottom, capped);
    }
    assert(high * u < 100 * u) by (nonlinear_arith)
        requires
            high < 100,
            u > 0,
    ;
}

/// Digits with the point before the first one that is not zero are below one.
proof fn lemma_small(digits: Seq<char>, point: int, zeros: int, low: nat, high: nat)
    requires
        all_digits(digits),
        0 <= zeros <= digits.len(),
        value_of(digits.take(zeros)) == 0,
        point <= zeros,
        2 <= low < MANTISSA_END,
    ensures
        !is_between(nearest_number(false, digits, point), low, high),
{
    let u = binary64::one();
    let size = digits.len() as int;
    let number = value_of(digits);
    lemma_digits_split(digits, zeros);
    assert(0 * pow(10, (size - zeros) as nat) == 0);
    if point >= size {
        lemma_tens(0);
        assert(number == 0);
        assert((number * pow(10, 0)) as nat * u == 0) by (nonlinear_arith)
            requires
                number == 0,
        ;
        assert(1 * u >= 0);
        lemma_at_most_one(0, 1, low, high);
    } else {
        let den = pow(10, (size - point) as nat);
        vstd::arithmetic::power::lemma_pow_positive(10, (size - point) as nat);
        vstd::arithmetic::power::lemma_pow_increases(
            10,
            (size - zeros) as nat,
            (size - point) as nat,
        );
        assert(number * u <= den * u) by (nonlinear_arith)
            requires
                0 <= number <= den,
                u >= 0,
        ;
        lemma_at_most_one(number * u, den as nat, low, high);
    }
}

/// Digits with the point three or more places behind the first one that is not zero are a hundred
/// or more.
proof fn lemma_large(digits: Seq<char>, point: int, zeros: int, low: nat, high: nat)
    requires
        all_digits(digits),
        0 <= zeros < digits.len(),
        digits[zeros] != '0',
        point >= zeros + 3,
        high < 100,
    ensures
        !is_between(nearest_number(false, digits, point), low, high),
{
    let u = binary64::one();
    lemma_pow2_pos(1074);
    let size = digits.len() as int;
    let number = value_of(digits);
    lemma_leading_digit(digits, zeros);
    let least = pow(10, (size - zeros - 1) as nat);
    vstd::arithmetic::power::lemma_pow_positive(10, (size - zeros - 1) as nat);
    lemma_tens(0);
    lemma_tens(1);
    if point >= size {
        let more = pow(10, (point - size) as nat);
        vstd::arithmetic::power::lemma_pow_positive(10, (point - size) as nat);
        vstd::arithmetic::power::lemma_pow_adds(
            10,
            (size - zeros - 1) as nat,
            (point - size) as nat,
        );
        vstd::arithmetic::power::lemma_pow_increases(10, 2, (point - zeros - 1) as nat);
        assert(number * more >= least * more) by (nonlinear_arith)
            requires
                number >= least,
                more > 0,
        ;
        let product = (number * more) as nat;
        assert(product * u >= 1 * (100 * u)) by (nonlinear_arith)
            requires
                product >= 100,
                u >= 0,
        ;
        lemma_at_least_a_hundred(product * u, 1, low, high);
    } else {
        let den = pow(10, (size - point) as nat);
        vstd::arithmetic::power::lemma_pow_positive(10, (size - point) as nat);
        let over = pow(10, (point - zeros - 1) as nat);
        vstd::arithmetic::power::lemma_pow_adds(
            10,
            (size - point) as nat,
            (point - zeros - 1) as nat,
        );
        vstd::arithmetic::power::lemma_pow_increases(10, 2, (point - zeros - 1) as nat);
        assert(number >= 100 * den) by (nonlinear_arith)
            requires
                number >= den * over,
                over >= 100,
                den > 0,
        ;
        assert(number * u >= den * (100 * u)) by (nonlinear_arith)
            requires
                number >= 100 * den,
                u >= 0,
        ;
        lemma_at_least_a_hundred(number * u, den as nat, low, high);
    }
}

/// A digit that is not zero is worth at least one at its place.
proof fn lemma_leading_digit(digits: Seq<char>, at: int)
    requires
        all_digits(digits),
        0 <= at < digits.len(),
        digits[at] != '0',
    ensures
        value_of(digits) >= pow(10, (digits.len() - at - 1) as nat),
{
    lemma_digits_split(digits, at + 1);
    let upper = digits.take(at + 1);
    assert forall|i: int| 0 <= i < upper.len() implies is_digit(#[trigger] upper[i]) by {
        assert(digits[i] == upper[i]);
    }
    assert(upper.last() == digits[at]);
    lemma_digits_value(upper);
    assert forall|i: int| 0 <= i < upper.drop_last().len() implies is_digit(
        #[trigger] upper.drop_last()[i],
    ) by {
        assert(upper[i] == upper.drop_last()[i]);
    }
    lemma_digits_value(upper.drop_last());
    assert(is_digit(digits[at]));
    let p = pow(10, (digits.len() - at - 1) as nat);
    vstd::arithmetic::power::lemma_pow_positive(10, (digits.len() - at - 1) as nat);
    assert(value_of(upper) * p >= p) by (nonlinear_arith)
        requires
            value_of(upper) >= 1,
            p > 0,
    ;
}

/// Reading one digit more.
proof fn lemma_next_digit(digits: Seq<char>, at: int)
    requires
        all_digits(digits),
        0 <= at < digits.len(),
    ensures
        value_of(digits.take(at + 1)) == 10 * value_of(digits.take(at)) + (digits[at] as u32 - 48),
{
    let (upper, longer) = (digits.take(at), digits.take(at + 1));
    assert(longer.drop_last() =~= upper);
    assert(longer.last() == digits[at]);
    assert(is_digit(digits[at]));
    assert forall|i: int| 0 <= i < upper.len() implies is_digit(#[trigger] upper[i]) by {
        assert(digits[i] == upper[i]);
    }
    lemma_digits_value(upper);
}

/// Convert digits with one or two places before the point.
fn convert(digits: &Vec<char>, zeros: usize, places: usize) -> (number: Binary64)
    requires
        all_digits(digits@),
        zeros < digits@.len(),
        value_of(digits@.take(zeros as int)) == 0,
        digits@[zeros as int] != '0',
        1 <= places <= 2,
    ensures
        number == nearest_number(false, digits@, zeros + places),
{
    let size: usize = digits.len();
    assert(is_digit(digits@[zeros as int]));
    let first: u64 = (digits[zeros] as u32 - 48) as u64;
    proof {
        lemma_next_digit(digits@, zeros as int);
        lemma_tens(0);
    }
    if places == 1 {
        let fraction: Vec<u8> = digits_from(digits, zeros + 1);
        proof {
            lemma_digits_split(digits@, zeros + 1);
            lemma_exact(digits@, zeros + 1, first as nat, fraction@);
        }
        nearest_to(first, fraction)
    } else if size - zeros >= 2 {
        assert(is_digit(digits@[zeros + 1]));
        let second: u64 = (digits[zeros + 1] as u32 - 48) as u64;
        let fraction: Vec<u8> = digits_from(digits, zeros + 2);
        proof {
            lemma_next_digit(digits@, zeros + 1);
            lemma_digits_split(digits@, zeros + 2);
            lemma_exact(digits@, zeros + 2, (10 * first + second) as nat, fraction@);
        }
        nearest_to(10 * first + second, fraction)
    } else {
        let nothing: Vec<u8> = Vec::new();
        proof {
            assert(digits@.take(zeros + 1) =~= digits@);
            lemma_tens(0);
            let number = value_of(digits@);
            assert(number * pow(10, 1) == 10 * first) by (nonlinear_arith)
                requires
                    number == first,
                    pow(10, 1) == 10,
            ;
        }
        let whole: u64 = 10 * first;
        proof {
            assert(numerals::row_value(nothing@) == 0);
            let tens = pow(10, 0) as nat;
            assert(whole * tens + numerals::row_value(nothing@) == whole) by (nonlinear_arith)
                requires
                    tens == 1,
                    numerals::row_value(nothing@) == 0,
            ;
        }
        nearest_to(whole, nothing)
    }
}

/// Digits with a point among them, as a whole number and a fraction.
proof fn lemma_exact(digits: Seq<char>, point: int, whole: nat, fraction: Seq<u8>)
    requires
        all_digits(digits),
        0 <= point <= digits.len(),
        value_of(digits.take(point)) == whole,
        fraction.len() == digits.len() - point,
        numerals::row_value(fraction) == value_of(digits.skip(point)),
    ensures
        ({
            let tens = pow(10, fraction.len()) as nat;
            nearest_number(false, digits, point) == binary64::rounded(
                false,
                (whole * tens + numerals::row_value(fraction)) as nat * binary64::one(),
                tens,
            )
        }),
{
    lemma_digits_split(digits, point);
    lemma_tens(fraction.len());
    if point == digits.len() {
        let number = value_of(digits);
        assert(number * pow(10, 0) == number) by (nonlinear_arith)
            requires
                pow(10, 0) == 1,
        ;
    }
}

/// How a text reads as a number between bounds.
#[derive(Clone, Copy, Debug, PartialEq, Eq, Structural)]
pub enum Parsed {
    /// It is no number.
    Malformed,
    /// It is a number that is not between the bounds.
    Beyond,
    /// It is this number.
    Number(Binary64),
}

/// Read a number that is expected to lie between two whole numbers below a hundred.
pub fn parse_between(s: &str, low: u64, high: u64) -> (parsed: Parsed)
    requires
        2 <= low < 100,
        high < 100,
    ensures
        parsed == (match written(s@) {
            None => Parsed::Malformed,
            Some(meant) => match number_between(meant, low as nat, high as nat) {
                None => Parsed::Beyond,
                Some(number) => Parsed::Number(number),
            },
        }),
{
    let (negative, digits, point): (bool, Vec<char>, i128) = match scan(s) {
        None => {
            return Parsed::Malformed;
        },
        Some(Scanned::Unbounded) => {
            return Parsed::Beyond;
        },
        Some(Scanned::Decimal { negative, digits, point }) => (negative, digits, point),
    };
    let ghost exact = written(s@)->0->point;
    if negative {
        proof {
            lemma_negative(digits@, exact, low as nat, high as nat);
        }
        return Parsed::Beyond;
    }
    let mut zeros: usize = 0;
    assert(digits@.take(0) =~= Seq::<char>::empty());
    while zeros < digits.len() && digits[zeros] == '0'
        invariant
            zeros <= digits@.len(),
            all_digits(digits@),
            value_of(digits@.take(zeros as int)) == 0,
        decreases digits@.len() - zeros,
    {
        proof {
            lemma_next_digit(digits@, zeros as int);
        }
        zeros = zeros + 1;
    }
    if zeros == digits.len() {
        proof {
            lemma_zero(digits@, exact, low as nat, high as nat);
        }
        return Parsed::Beyond;
    }
    let places: i128 = point - zeros as i128;
    if places <= 0 {
        proof {
            lemma_small(digits@, exact, zeros as int, low as nat, high as nat);
        }
        return Parsed::Beyond;
    }
    if places >= 3 {
        proof {
            lemma_large(digits@, exact, zeros as int, low as nat, high as nat);
        }
        return Parsed::Beyond;
    }
    let number: Binary64 = convert(&digits, zeros, places as usize);
    if Binary64::from_count(low).is_at_most(number) && number.is_at_most(
        Binary64::from_count(high),
    ) {
        Parsed::Number(number)
    } else {
        Parsed::Beyond
    }
}

/// A negative number is below any bound.
proof fn lemma_negative(digits: Seq<char>, point: int, low: nat, high: nat)
    requires
        2 <= low < MANTISSA_END,
    ensures
        !is_between(nearest_number(true, digits, point), low, high),
{
    rounding::law_whole_numbers_are_held(false, low);
    lemma_pow2_pos(1074);
    assert(low * binary64::one() > 0) by (nonlinear_arith)
        requires
            low >= 2,
            binary64::one() > 0,
    ;
}

/// Nothing but zeros is below any bound.
proof fn lemma_zero(digits: Seq<char>, point: int, low: nat, high: nat)
    requires
        all_digits(digits),
        value_of(digits.take(digits.len() as int)) == 0,
        2 <= low < MANTISSA_END,
    ensures
        !is_between(nearest_number(false, digits, point), low, high),
{
    assert(digits.take(digits.len() as int) =~= digits);
    let u = binary64::one();
    let size = digits.len() as int;
    if point >= size {
        let more = pow(10, (point - size) as nat);
        assert(0 * more == 0);
        assert(0 * u == 0);
        lemma_at_most_one(0, 1, low, high);
    } else {
        let den = pow(10, (size - point) as nat);
        vstd::arithmetic::power::lemma_pow_positive(10, (size - point) as nat);
        assert(0 * u == 0);
        lemma_at_most_one(0, den as nat, low, high);
    }
}

// ---------------------------------------------------------------------------------------------
// Laws
// ---------------------------------------------------------------------------------------------

/// The decimal text of a number is nothing but digits of its value.
proof fn lemma_decimal(number: nat)
    ensures
        all_digits(numerals::decimal(number)),
        numerals::decimal(number).len() > 0,
        numerals::digits_value(numerals::decimal(number)) == Some(number),
    decreases number,
{
    let text = numerals::decimal(number);
    let last = number % 10;
    assert(numerals::digits_value(Seq::<char>::empty()) == Some(0nat));
    assert(is_digit(numerals::digit_char(last)));
    if number < 10 {
        assert(text.drop_last() =~= Seq::<char>::empty());
        assert(text.last() == numerals::digit_char(number));
    } else {
        let upper = numerals::decimal(number / 10);
        lemma_decimal(number / 10);
        assert(text.drop_last() =~= upper);
        assert(text.last() == numerals::digit_char(last));
        assert forall|i: int| 0 <= i < text.len() implies is_digit(#[trigger] text[i]) by {
            if i < upper.len() {
                assert(text[i] == upper[i]);
            }
        }
    }
}

/// Digits end where the text does, if there is nothing else in it.
proof fn lemma_all_digits_end(s: Seq<char>, from: int)
    requires
        all_digits(s),
        0 <= from <= s.len(),
    ensures
        digits_end(s, from) == s.len(),
    decreases s.len() - from,
{
    if from < s.len() {
        assert(is_digit(s[from]));
        lemma_all_digits_end(s, from + 1);
    }
}

/// A whole number below 2 to the power of 53, written in decimal, is read as itself.
pub proof fn law_whole_numbers_are_read(number: nat)
    requires
        number < MANTISSA_END,
    ensures
        ({
            let text = numerals::decimal(number);
            &&& written(text) == Some(
                Written::Decimal { negative: false, digits: text, point: text.len() as int },
            )
            &&& nearest_number(false, text, text.len() as int) == binary64::whole(false, number)
        }),
{
    let text = numerals::decimal(number);
    lemma_decimal(number);
    lemma_all_digits_end(text, 0);
    assert(is_digit(text[0]));
    assert(text.skip(0) =~= text);
    assert(text.take(text.len() as int) =~= text);
    reveal_strlit("inf");
    reveal_strlit("infinity");
    reveal_strlit("nan");
    assert(!text::same_ignoring_case(text, "inf"@) && !text::same_ignoring_case(text, "infinity"@)
        && !text::same_ignoring_case(text, "nan"@)) by {
        assert(text::ascii_lower(text[0]) == text[0]);
        assert("inf"@[0] == 'i' && "infinity"@[0] == 'i' && "nan"@[0] == 'n');
    }
    lemma_tens(0);
    assert(number * pow(10, 0) == number) by (nonlinear_arith)
        requires
            pow(10, 0) == 1,
    ;
}

/// Digits that something else stands behind end there.
proof fn lemma_digits_end_before(s: Seq<char>, from: int, end: int)
    requires
        0 <= from <= end <= s.len(),
        forall|i: int| from <= i < end ==> is_digit(#[trigger] s[i]),
        end < s.len() ==> !is_digit(s[end]),
    ensures
        digits_end(s, from) == end,
    decreases end - from,
{
    if from < end {
        assert(is_digit(s[from]));
        lemma_digits_end_before(s, from + 1, end);
    }
}

/// Digits with a point among them or at their ends are read as the digits before the point and those
/// behind it. A minus sign before them makes the number negative, and a plus sign does not.
pub proof fn law_decimal_fractions_are_read(whole: Seq<char>, fraction: Seq<char>)
    requires
        all_digits(whole),
        all_digits(fraction),
        whole.len() + fraction.len() > 0,
    ensures
        ({
            let text = whole + seq!['.'] + fraction;
            let (digits, point) = (whole + fraction, whole.len() as int);
            &&& written(text) == Some(Written::Decimal { negative: false, digits, point })
            &&& written(seq!['+'] + text) == Some(
                Written::Decimal { negative: false, digits, point },
            )
            &&& written(seq!['-'] + text) == Some(
                Written::Decimal { negative: true, digits, point },
            )
        }),
{
    let text = whole + seq!['.'] + fraction;
    let n = whole.len() as int;
    assert(text[n] == '.');
    assert forall|i: int| 0 <= i < n implies is_digit(#[trigger] text[i]) by {
        assert(text[i] == whole[i]);
    }
    assert forall|i: int| n + 1 <= i < text.len() implies is_digit(#[trigger] text[i]) by {
        assert(text[i] == fraction[i - n - 1]);
    }
    lemma_digits_end_before(text, 0, n);
    lemma_digits_end_before(text, n + 1, text.len() as int);
    assert(text.take(n) =~= whole);
    assert(text.subrange(n + 1, text.len() as int) =~= fraction);
    lemma_no_word(text, n);
    assert(text.skip(0) =~= text);
    assert((seq!['+'] + text).skip(1) =~= text);
    assert((seq!['-'] + text).skip(1) =~= text);
    if n > 0 {
        assert(is_digit(text[0]));
    }
}

/// A text with a point is none of the three words.
proof fn lemma_no_word(s: Seq<char>, i: int)
    requires
        0 <= i < s.len(),
        s[i] == '.',
    ensures
        !text::same_ignoring_case(s, "inf"@),
        !text::same_ignoring_case(s, "infinity"@),
        !text::same_ignoring_case(s, "nan"@),
{
    reveal_strlit("inf");
    reveal_strlit("infinity");
    reveal_strlit("nan");
    assert(text::ascii_lower('.') == '.');
    if text::same_ignoring_case(s, "inf"@) {
        assert(text::ascii_lower(s[i]) == text::ascii_lower("inf"@[i]));
    }
    if text::same_ignoring_case(s, "infinity"@) {
        assert(text::ascii_lower(s[i]) == text::ascii_lower("infinity"@[i]));
    }
    if text::same_ignoring_case(s, "nan"@) {
        assert(text::ascii_lower(s[i]) == text::ascii_lower("nan"@[i]));
    }
}

/// Digits with a point among them stand for the number nearest to what they say: the digits before the
/// point count whole ones, and those behind it parts of one, tenths for one digit, hundredths for two.
pub proof fn law_fractions_count_parts_of_one(
    negative: bool,
    whole: Seq<char>,
    fraction: Seq<char>,
    w: nat,
    f: nat,
)
    requires
        all_digits(whole),
        all_digits(fraction),
        numerals::digits_value(whole) == Some(w),
        numerals::digits_value(fraction) == Some(f),
    ensures
        ({
            let parts = pow(10, fraction.len()) as nat;
            nearest_number(negative, whole + fraction, whole.len() as int) == binary64::rounded(
                negative,
                (w * parts + f) * binary64::one(),
                parts,
            )
        }),
{
    let digits = whole + fraction;
    let n = whole.len() as int;
    assert forall|i: int| 0 <= i < digits.len() implies is_digit(#[trigger] digits[i]) by {
        if i < n {
            assert(digits[i] == whole[i]);
        } else {
            assert(digits[i] == fraction[i - n]);
        }
    }
    assert(digits.take(n) =~= whole);
    assert(digits.skip(n) =~= fraction);
    lemma_digits_split(digits, n);
    lemma_tens(fraction.len());
    if fraction.len() == 0 {
        lemma_tens(0);
        assert(value_of(digits) * pow(10, 0) == value_of(digits)) by (nonlinear_arith)
            requires
                pow(10, 0) == 1,
        ;
    }
}

/// Whether a character can stand in a number.
pub open spec fn is_of_numbers(c: char) -> bool {
    is_digit(c) || is_sign(c) || c == '.' || c == 'e' || c == 'E'
}

/// A text with a character that no number has, such as a comma, a blank or the sign of a degree, is
/// none, but for the words for an infinity and for what is no number.
pub proof fn law_other_texts_are_no_numbers(s: Seq<char>, i: int)
    requires
        0 <= i < s.len(),
        !is_of_numbers(s[i]),
    ensures
        written(s) is None || written(s) == Some(Written::Unbounded),
        written(s) == Some(Written::Unbounded) ==> {
            let rest = if is_sign(s[0]) {
                s.drop_first()
            } else {
                s
            };
            ||| text::same_ignoring_case(rest, "inf"@)
            ||| text::same_ignoring_case(rest, "infinity"@)
            ||| text::same_ignoring_case(rest, "nan"@)
        },
{
    let start = sign_end(s, 0);
    let rest = s.skip(start);
    if start == 0 {
        assert(rest =~= s);
    } else {
        assert(rest =~= s.drop_first());
    }
    let at = i - start;
    assert(rest[at] == s[i]);
    let whole_end = digits_end(rest, 0);
    lemma_digits_end(rest, 0);
    let has_point = whole_end < rest.len() && rest[whole_end] == '.';
    let end = if has_point {
        digits_end(rest, whole_end + 1)
    } else {
        whole_end
    };
    if has_point {
        lemma_digits_end(rest, whole_end + 1);
    }
    assert(at >= end) by {
        if at < end {
            if at < whole_end {
                assert(is_digit(rest[at]));
            } else if at > whole_end {
                assert(is_digit(rest[at]));
            }
        }
    }
    if end < rest.len() && (rest[end] == 'e' || rest[end] == 'E') {
        let from = sign_end(rest, end + 1);
        if from < rest.len() && digits_end(rest, from) == rest.len() {
            lemma_digits_end(rest, from);
            if at >= from {
                assert(is_digit(rest[at]));
            }
        }
    }
}

/// A number that was written is taken exactly where it is the nearest one and lies between the bounds,
/// these included.
pub proof fn law_numbers_are_taken_within_their_bounds(
    negative: bool,
    digits: Seq<char>,
    point: int,
    low: nat,
    high: nat,
)
    requires
        low < MANTISSA_END,
        high < MANTISSA_END,
    ensures
        ({
            let number = nearest_number(negative, digits, point);
            let taken = number_between(Written::Decimal { negative, digits, point }, low, high);
            &&& taken is Some <==> !number.is_nan() && low * binary64::one() <= number.value() <= high
                * binary64::one()
            &&& taken is Some ==> taken->0 == number
        }),
        number_between(Written::Unbounded, low, high) is None,
{
    rounding::law_whole_numbers_are_held(false, low);
    rounding::law_whole_numbers_are_held(false, high);
}

} // verus!
