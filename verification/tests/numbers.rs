use etop::binary64::Binary64;
use etop::decimal::{fixed_chars, parse};
use etop::text::{chars_of, is_before, parse_i32, trim_chars, words_of};

fn b(x: f64) -> Binary64 {
    Binary64::from_bits(x.to_bits())
}

fn same(ours: Binary64, theirs: f64) -> bool {
    if theirs.is_nan() {
        ours.is_nan()
    } else {
        ours.bits == theirs.to_bits()
    }
}

/// Numbers of all kinds and sizes.
fn numbers() -> Vec<f64> {
    let mut out = vec![
        0.0,
        -0.0,
        1.0,
        -1.0,
        0.5,
        0.1,
        0.2,
        1.35,
        5.0,
        10_000.0,
        1.0e-3,
        1.0e300,
        -1.0e300,
        1.0e-300,
        f64::MAX,
        f64::MIN,
        f64::MIN_POSITIVE,
        f64::EPSILON,
        5.0e-324,
        -5.0e-324,
        f64::INFINITY,
        f64::NEG_INFINITY,
        f64::NAN,
        9007199254740991.0,
        9007199254740992.0,
        9007199254740993.0,
        4503599627370496.5,
        2147483647.5,
        -2147483648.5,
    ];
    let mut state: u64 = 0x9e37_79b9_7f4a_7c15;
    for _ in 0..300 {
        state = state
            .wrapping_mul(6364136223846793005)
            .wrapping_add(1442695040888963407);
        out.push(f64::from_bits(state));
        out.push((state >> 40) as f64 / 1024.0);
        out.push(f64::from_bits((state >> 12) | (0x3fe_u64 << 52)));
        out.push(f64::from_bits(state & 0x000f_ffff_ffff_ffff));
    }
    out
}

#[test]
fn sums_agree_with_the_hardware() {
    let numbers = numbers();
    for x in &numbers {
        for y in &numbers {
            assert!(same(b(*x).plus(b(*y)), x + y), "{x:e} + {y:e}");
            assert!(same(b(*x).minus(b(*y)), x - y), "{x:e} - {y:e}");
        }
    }
}

#[test]
fn products_and_quotients_agree_with_the_hardware() {
    let numbers = numbers();
    for x in &numbers {
        for y in numbers.iter().step_by(3) {
            assert!(same(b(*x).times(b(*y)), x * y), "{x:e} * {y:e}");
            assert!(same(b(*x).over(b(*y)), x / y), "{x:e} / {y:e}");
        }
    }
}

#[test]
fn comparisons_agree_with_the_hardware() {
    let numbers = numbers();
    for x in &numbers {
        for y in &numbers {
            assert_eq!(b(*x).is_below(b(*y)), x < y, "{x:e} < {y:e}");
            assert_eq!(b(*x).is_at_most(b(*y)), x <= y, "{x:e} <= {y:e}");
            if x != y {
                assert!(same(b(*x).max(b(*y)), x.max(*y)), "max {x:e} {y:e}");
                assert!(same(b(*x).min(b(*y)), x.min(*y)), "min {x:e} {y:e}");
            }
        }
    }
}

#[test]
fn conversions_agree_with_the_hardware() {
    for x in numbers() {
        assert_eq!(b(x).round_to_i32(), x.round() as i32, "{x:e}");
        assert_eq!(b(x).is_finite(), x.is_finite());
        assert_eq!(b(x).is_nan(), x.is_nan());
        assert_eq!(b(x).is_negative(), x.is_sign_negative());
        let n = x.to_bits();
        assert!(same(Binary64::from_whole(n), n as f64));
        assert!(same(Binary64::from_whole(n >> 30), (n >> 30) as f64));
    }
}

#[test]
fn decimals_print_as_the_standard_library_prints_them() {
    for x in numbers() {
        let one: String = fixed_chars(b(x), 1).into_iter().collect();
        assert_eq!(one, format!("{x:.1}"));
        let none: String = fixed_chars(b(x), 0).into_iter().collect();
        assert_eq!(none, format!("{x:.0}"));
    }
    for tenths in 0..2000 {
        let x = tenths as f64 / 40.0;
        let one: String = fixed_chars(b(x), 1).into_iter().collect();
        assert_eq!(one, format!("{x:.1}"));
    }
}

#[test]
fn decimals_read_as_the_standard_library_reads_them() {
    let mut texts: Vec<String> = vec![
        "0", "-0", "+0.0", "1", "1.", ".5", "-.5", "", ".", "-", "+", "inf", "-inf", "Infinity",
        "NaN", "nan", "+NAN", "infinit", "1.2.3", "--1", "1-", " 1", "1 ", "0.1", "0.3", "2.5",
        "123456789012345678901234567890.12345", "9007199254740993", "9007199254740992.5",
        "9007199254740993.0000000000000000000000000000001", "179769313486231570000000000000000",
        "0.000000000000000000000000000000000000000000000000000000000000000001",
    ]
    .into_iter()
    .map(String::from)
    .collect();
    for x in numbers() {
        if x.is_finite() {
            texts.push(format!("{x}"));
            texts.push(format!("{x:.30}"));
        }
    }
    texts.push("9".repeat(308));
    texts.push("9".repeat(309));
    texts.push("9".repeat(500));
    texts.push(format!("{}1", "0".repeat(600)));
    texts.push(format!("0.{}1", "0".repeat(323)));
    texts.push(format!("0.{}2", "0".repeat(323)));
    texts.push(format!("0.{}3", "0".repeat(323)));
    texts.push(format!("0.{}1", "0".repeat(900)));
    for text in texts {
        let ours = parse(&chars_of(&text));
        match text.parse::<f64>() {
            Ok(theirs) => {
                let ours = ours.expect("a number");
                assert!(same(ours, theirs), "{text}");
            }
            Err(_) => assert!(ours.is_none(), "{text}"),
        }
    }
}

#[test]
fn whole_numbers_read_as_the_standard_library_reads_them() {
    for text in [
        "0", "-0", "+7", "-7", "2147483647", "2147483648", "-2147483648", "-2147483649", "", "+",
        "-", "12a", "007", "99999999999999999999",
    ] {
        assert_eq!(parse_i32(&chars_of(text)), text.parse::<i32>().ok(), "{text}");
    }
}

#[test]
fn texts_order_by_their_bytes() {
    let texts = ["", "a", "A", "ab", "b", "é", "ß", "z", "日本", "\u{10ffff}", "a b", "a\u{0}"];
    for x in texts {
        for y in texts {
            assert_eq!(is_before(&x.to_string(), &y.to_string()), x < y, "{x} {y}");
        }
    }
}

#[test]
fn blanks_are_those_of_the_standard_library() {
    for text in ["  a b\t c\n", "\u{3000}x\u{2003}y\u{a0}", "", " \u{85} ", "one"] {
        let words: Vec<String> = words_of(&chars_of(text))
            .into_iter()
            .map(|word| word.into_iter().collect())
            .collect();
        let expected: Vec<&str> = text.split_whitespace().collect();
        assert_eq!(words, expected);
        let trimmed: String = trim_chars(&chars_of(text)).into_iter().collect();
        assert_eq!(trimmed, text.trim());
    }
    for code in 0..0x3100_u32 {
        if let Some(c) = char::from_u32(code) {
            assert_eq!(etop::text::space(c), c.is_whitespace(), "{code:x}");
        }
    }
}

#[test]
fn order_of_summands_does_not_matter_but_grouping_does() {
    let (x, y, z) = (b(0.1), b(0.2), b(0.3));
    assert_eq!(x.plus(y), y.plus(x));
    assert_ne!(x.plus(y).plus(z), x.plus(y.plus(z)));
}
