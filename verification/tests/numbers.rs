use chrono::{DateTime, Datelike, NaiveDate, TimeZone, Utc};
use claude_o_meter::calendar::day_label;
use claude_o_meter::clock::Timestamp;
use claude_o_meter::double::Double;
use claude_o_meter::ranking::{rank, Weight};
use claude_o_meter::text::{collapse, parse_u64, push_decimal, push_signed, truncate_chars};

fn d(x: f64) -> Double {
    Double::from_bits(x.to_bits())
}

fn f(x: Double) -> f64 {
    f64::from_bits(x.bits)
}

/// Equal, where a NaN equals every NaN.
fn same(a: f64, b: f64) -> bool {
    (a.is_nan() && b.is_nan()) || a.to_bits() == b.to_bits()
}

/// Numbers of every kind: the special ones, small and large ones, and those of
/// a fixed sequence of bits.
fn samples() -> Vec<f64> {
    let mut v = vec![
        0.0, -0.0, 1.0, -1.0, 0.5, 1.5, 2.5, -0.5, -1.5, 0.1, 0.2, 0.3, 0.25, 0.75, 0.95, 1e-9, 1e9,
        1e15, 1e16, 1e17, 1e18, 1e19, 1e20, 1e300, -1e300, 1e-300, f64::MAX, f64::MIN, f64::MIN_POSITIVE,
        f64::INFINITY, f64::NEG_INFINITY, f64::NAN, f64::from_bits(1), f64::from_bits(0xF_FFFF_FFFF_FFFF),
        4503599627370496.0, 4503599627370496.5, 9007199254740992.0, 9007199254740993.0,
        0.49999999999999994, 100.0, 60.0, 3600.0, 24.0, 9.95, 0.05, 0.15, 0.35, 12345.678,
    ];
    let mut x: u64 = 0x9E37_79B9_7F4A_7C15;
    for _ in 0..40 {
        x ^= x << 13;
        x ^= x >> 7;
        x ^= x << 17;
        v.push(f64::from_bits(x));
        let mantissa = (x >> 12) as f64 / 4503599627370496.0;
        v.push(mantissa * 100.0);
        v.push(-mantissa);
    }
    v
}

#[test]
fn sums_and_differences_are_those_of_the_machine() {
    for a in samples() {
        for b in samples() {
            assert!(same(f(d(a).add(d(b))), a + b), "{a:e} + {b:e}");
            assert!(same(f(d(a).sub(d(b))), a - b), "{a:e} - {b:e}");
        }
    }
}

#[test]
fn products_are_those_of_the_machine() {
    for a in samples() {
        for b in samples() {
            assert!(same(f(d(a).mul(d(b))), a * b), "{a:e} * {b:e}");
        }
    }
}

#[test]
fn quotients_are_those_of_the_machine() {
    for a in samples() {
        for b in samples() {
            assert!(same(f(d(a).div(d(b))), a / b), "{a:e} / {b:e}");
        }
    }
}

#[test]
fn order_is_that_of_the_machine() {
    for a in samples() {
        for b in samples() {
            assert_eq!(d(a).lt(d(b)), a < b);
            assert_eq!(d(a).le(d(b)), a <= b);
            assert_eq!(d(a).ge(d(b)), a >= b);
            let m = f(d(a).max(d(b)));
            assert!(m == a.max(b) || (m.is_nan() && a.max(b).is_nan()));
        }
    }
}

#[test]
fn casts_are_those_of_the_machine() {
    for a in samples() {
        assert_eq!(d(a).to_i64(), a as i64, "{a:e}");
        assert_eq!(d(a).to_u64(), a as u64, "{a:e}");
        assert_eq!(d(a).to_u32(), a as u32, "{a:e}");
        assert!(same(f(d(a).round()), a.round()), "{a:e}");
        assert_eq!(d(a).is_nan(), a.is_nan());
        assert_eq!(d(a).is_finite(), a.is_finite());
        assert!(same(f(d(a).negate()), -a));
        assert!(same(f(d(a).clamp(d(0.0), d(1.0))), a.clamp(0.0, 1.0)) || a == 0.0);
    }
    for n in [0u64, 1, 255, 1 << 53, (1 << 53) + 1, (1 << 54) + 2, u64::MAX, u64::MAX - 1024] {
        assert!(same(f(Double::from_u64(n)), n as f64));
        assert!(same(f(Double::from_i64(n as i64)), n as i64 as f64));
    }
    assert!(same(f(Double::from_i64(i64::MIN)), i64::MIN as f64));
}

#[test]
fn decimals_are_those_of_std() {
    for a in samples() {
        let mut s = String::new();
        d(a).push_fixed0(&mut s);
        assert_eq!(s, format!("{a:.0}"));
        let mut t = "x".to_string();
        d(a).push_fixed1(&mut t);
        assert_eq!(t, format!("x{a:.1}"));
    }
}

#[test]
fn ratios_are_the_literals() {
    assert!(same(f(Double::ratio(95, 100)), 0.95));
    assert!(same(f(Double::ratio(2, 100)), 0.02));
    assert!(same(f(Double::ratio(1, 3)), 1.0 / 3.0));
    assert!(same(f(Double::ratio(0, 7)), 0.0));
    assert!(same(f(Double::ratio(u64::MAX, 1)), u64::MAX as f64));
    assert!(same(f(Double::ratio(1, u64::MAX)), 1.0 / u64::MAX as f64));
}

#[test]
fn numbers_in_decimal() {
    for n in [0u64, 9, 10, 99, 100, 12345, u64::MAX] {
        let mut s = String::new();
        push_decimal(&mut s, n);
        assert_eq!(s, n.to_string());
        assert_eq!(parse_u64(&s), Some(n));
    }
    for n in [0i64, -1, 7, i64::MAX, i64::MIN] {
        let mut s = String::new();
        push_signed(&mut s, n);
        assert_eq!(s, n.to_string());
    }
}

#[test]
fn white_space_is_that_of_std() {
    for c in (0..0x3100).filter_map(char::from_u32) {
        let text = format!("a{c}b");
        let expected = text.split_whitespace().collect::<Vec<_>>().join(" ");
        assert_eq!(collapse(&text), expected, "{:x}", c as u32);
    }
}

#[test]
fn cutting_keeps_to_the_limit() {
    assert_eq!(truncate_chars("abcd", 4), "abcd");
    assert_eq!(truncate_chars("abcde", 4), "abc…");
    assert_eq!(truncate_chars("ééééé", 2), "é…");
    assert_eq!(truncate_chars("a", 0), "");
    assert_eq!(truncate_chars("ab", 1), "…");
    assert_eq!(truncate_chars("", 0), "");
}

#[test]
fn ranks_are_stable() {
    let w: Vec<Weight> = [3u64, 9, 3, 9, 1].iter().map(|n| Weight { tokens: *n }).collect();
    assert_eq!(rank(&w), vec![1, 3, 0, 2, 4]);
    let s: Vec<String> = ["b", "a", "b", ""].iter().map(|t| t.to_string()).collect();
    assert_eq!(rank(&s), vec![3, 1, 0, 2]);
}

#[test]
fn instants_that_there_are() {
    for (secs, nanos) in [
        (0i64, 0u32),
        (59, 1_500_000_000),
        (58, 1_500_000_000),
        (-1, 1_999_999_999),
        (0, 2_000_000_000),
        (8_210_266_876_799, 0),
        (8_210_266_876_800, 0),
        (-8_334_601_228_800, 0),
        (-8_334_601_228_801, 0),
        (i64::MIN, 0),
        (i64::MAX, 5),
    ] {
        let theirs = DateTime::<Utc>::from_timestamp(secs, nanos).is_some();
        assert_eq!(Timestamp::new(secs, nanos).is_some(), theirs, "{secs} {nanos}");
    }
}

#[test]
fn seconds_between_instants() {
    let list = [
        (0i64, 0u32),
        (0, 999_999_999),
        (59, 1_999_999_999),
        (60, 0),
        (86_399, 1_000_000_000),
        (-1, 1_500_000_000),
        (1_779_984_000, 123),
        (-100_000, 5),
    ];
    for a in list {
        for b in list {
            let x = DateTime::<Utc>::from_timestamp(a.0, a.1).unwrap();
            let y = DateTime::<Utc>::from_timestamp(b.0, b.1).unwrap();
            let p = Timestamp::new(a.0, a.1).unwrap();
            let q = Timestamp::new(b.0, b.1).unwrap();
            assert_eq!(p.seconds_since(&q), (x - y).num_seconds(), "{a:?} {b:?}");
            assert_eq!(p.is_before(&q), x < y);
            assert_eq!(p.within_a_minute(&q), x - chrono::Duration::seconds(60) <= y);
        }
    }
}

#[test]
fn days_at_the_ends_of_time() {
    let first = NaiveDate::MIN.num_days_from_ce();
    let last = NaiveDate::MAX.num_days_from_ce();
    assert_eq!(day_label(first), NaiveDate::MIN.format("%a %m-%d").to_string());
    assert_eq!(day_label(last), NaiveDate::MAX.format("%a %m-%d").to_string());
    let start = Timestamp::new(-8_334_601_228_800, 0).unwrap();
    assert!(!start.is_localizable());
    let today = Utc.with_ymd_and_hms(2026, 5, 19, 0, 0, 0).unwrap();
    assert!(Timestamp::new(today.timestamp(), 0).unwrap().is_localizable());
}
