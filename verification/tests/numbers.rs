use gfroerli_bot::binary64::Binary64;
use gfroerli_bot::numerals::{parse_u32, push_integer, push_number, push_one_decimal};
use gfroerli_bot::text::{
    contains, equals_ignoring_case, is_before, join, same, split_at_last_white, split_paragraphs,
    trim, trim_end,
};

fn b(x: f64) -> Binary64 {
    Binary64 { bits: x.to_bits() }
}

/// Equal as bit patterns, all patterns that are no number being one.
fn agree(found: Binary64, expected: f64) -> bool {
    if expected.is_nan() {
        f64::from_bits(found.bits).is_nan()
    } else {
        found.bits == expected.to_bits()
    }
}

fn samples() -> Vec<f64> {
    let mut out = vec![
        0.0,
        -0.0,
        1.0,
        -1.0,
        0.1,
        0.05,
        0.5,
        1.5,
        2.5,
        -2.5,
        9.0,
        10.0,
        22.97,
        0.49999999999999994,
        4503599627370495.5,
        9007199254740992.0,
        9007199254740993.0,
        9.223372036854776e18,
        -9.223372036854776e18,
        1.8446744073709552e19,
        f64::MAX,
        f64::MIN,
        f64::MIN_POSITIVE,
        f64::from_bits(1),
        f64::from_bits(0x000f_ffff_ffff_ffff),
        f64::INFINITY,
        f64::NEG_INFINITY,
        f64::NAN,
    ];
    let mut state: u64 = 0x9e37_79b9_7f4a_7c15;
    for i in 0..150u64 {
        state ^= state << 13;
        state ^= state >> 7;
        state ^= state << 17;
        if i % 3 == 0 {
            // Any pattern.
            out.push(f64::from_bits(state));
        } else if i % 3 == 1 {
            // Like a temperature.
            out.push((state % 100_000) as f64 / 1000.0 - 30.0);
        } else {
            // Near one another in magnitude.
            out.push(f64::from_bits((state >> 6) & 0x001f_ffff_ffff_ffff | 0x3fe0_0000_0000_0000));
        }
    }
    out
}

#[test]
fn arithmetic_agrees_with_the_machine() {
    let xs = samples();
    for &x in &xs {
        for &y in &xs {
            assert!(agree(b(x).plus(b(y)), x + y), "{x:e} + {y:e}");
            assert!(agree(b(x).minus(b(y)), x - y), "{x:e} - {y:e}");
            assert!(agree(b(x).times(b(y)), x * y), "{x:e} * {y:e}");
            assert!(agree(b(x).over(b(y)), x / y), "{x:e} / {y:e}");
            assert_eq!(b(x).is_below(b(y)), x < y);
            assert_eq!(b(x).is_at_most(b(y)), x <= y);
            let larger = f64::from_bits(b(x).max(b(y)).bits);
            if x.is_nan() && y.is_nan() {
                assert!(larger.is_nan());
            } else {
                assert_eq!(larger, x.max(y));
            }
        }
    }
}

#[test]
fn functions_of_one_number_agree_with_the_machine() {
    for x in samples() {
        assert!(agree(b(x).sqrt(), x.sqrt()), "sqrt {x:e}");
        assert!(agree(b(x).round(), x.round()), "round {x:e}");
        assert_eq!(b(x).to_integer(), x as i64, "{x:e}");
        assert!(agree(b(x).abs(), x.abs()));
        assert_eq!(b(x).finite(), x.is_finite());
        if !x.is_nan() {
            assert!(agree(b(x).negate(), -x));
        }
    }
    for n in [0i64, 1, -1, 12, 9007199254740993, -9007199254740993, i64::MAX, i64::MIN] {
        assert!(agree(Binary64::from_integer(n), n as f64));
        assert!(agree(Binary64::from_count(n as u64), n as u64 as f64));
    }
}

#[test]
fn one_decimal_agrees_with_the_machine() {
    for x in samples() {
        let mut out = String::from(">");
        push_one_decimal(&mut out, b(x));
        assert_eq!(out, format!(">{x:.1}"));
    }
    for x in [18.35, 18.25, 18.349999999999998, -0.04, 0.95, 99.95, 0.25, 0.35] {
        let mut out = String::new();
        push_one_decimal(&mut out, b(x));
        assert_eq!(out, format!("{x:.1}"));
    }
}

#[test]
fn integers_agree_with_the_machine() {
    for n in [0u64, 7, 10, 42, 999, 1000, u64::MAX] {
        let mut out = String::from("#");
        push_number(&mut out, n);
        assert_eq!(out, format!("#{n}"));
    }
    for n in [0i64, -7, 10, i64::MAX, i64::MIN] {
        let mut out = String::new();
        push_integer(&mut out, n);
        assert_eq!(out, format!("{n}"));
    }
    for s in ["0", "42", "+7", "007", "4294967295", "4294967296", "", "+", "-1", " 1", "1 ", "٣", "1a"] {
        assert_eq!(parse_u32(s), s.parse::<u32>().ok(), "{s:?}");
    }
}

#[test]
fn texts_agree_with_the_standard_library() {
    let texts = [
        "",
        " ",
        "a",
        " a b ",
        "\u{3000}Aare\u{a0}Bern\t\n",
        "a\n\nb",
        "a\n\n\nb\n\n",
        "\n\n",
        "\n\n\n\n",
        "Zürich",
        "zürich",
        "Aare Bern 20",
        "ALL",
        "aLl",
    ];
    for s in texts {
        assert_eq!(trim(s), s.trim());
        assert_eq!(trim_end(s), s.trim_end());
        let cut = split_at_last_white(s);
        let expected = s.rsplit_once(char::is_whitespace);
        assert_eq!(cut.as_ref().map(|(x, y)| (x.as_str(), y.as_str())), expected);
        let parts: Vec<String> = s.split("\n\n").map(str::to_string).collect();
        assert_eq!(split_paragraphs(s), parts);
        assert_eq!(join(&parts, " or "), parts.join(" or "));
        for t in texts {
            assert_eq!(contains(s, t), s.contains(t));
            assert_eq!(equals_ignoring_case(s, t), s.eq_ignore_ascii_case(t));
            assert_eq!(same(s, t), s == t);
            assert_eq!(is_before(s, t), s < t);
        }
    }
}

#[test]
fn white_space_is_that_of_unicode() {
    for c in '\0'..=char::MAX {
        let white = matches!(
            c,
            '\u{9}'..='\u{d}'
                | ' '
                | '\u{85}'
                | '\u{a0}'
                | '\u{1680}'
                | '\u{2000}'..='\u{200a}'
                | '\u{2028}'
                | '\u{2029}'
                | '\u{202f}'
                | '\u{205f}'
                | '\u{3000}'
        );
        assert_eq!(c.is_whitespace(), white, "{c:?}");
        if white {
            assert_eq!(trim(&format!("{c}Aare{c}Bern{c}")), format!("Aare{c}Bern"));
        }
    }
}
