use beam_rs::{Timestamp, Watermark, Window};

fn ts(seconds: f64) -> Timestamp {
    Timestamp::from_bits(seconds.to_bits())
}

fn samples() -> Vec<f64> {
    vec![
        0.0,
        -0.0,
        0.5,
        -0.5,
        0.999,
        1.0,
        -1.0,
        1.5,
        -1.5,
        9.9,
        -9.9,
        10.0,
        1234567.875,
        -1234567.875,
        4503599627370495.5,
        4503599627370496.0,
        9007199254740993.0,
        -9007199254740993.0,
        9223372036854774784.0,
        9223372036854775808.0,
        -9223372036854774784.0,
        -9223372036854775808.0,
        -9223372036854777856.0,
        1e30,
        -1e30,
        1e300,
        f64::MAX,
        f64::MIN,
        f64::MIN_POSITIVE,
        5e-324,
        -5e-324,
        f64::INFINITY,
        f64::NEG_INFINITY,
        f64::NAN,
        -f64::NAN,
    ]
}

#[test]
fn seconds_round_down() {
    assert_eq!(ts(9.9).seconds(), 9);
    assert_eq!(ts(-9.9).seconds(), -10);
    assert_eq!(ts(-0.5).seconds(), -1);
    assert_eq!(ts(-5e-324).seconds(), -1);
    assert_eq!(ts(-0.0).seconds(), 0);
    assert_eq!(ts(-3.0).seconds(), -3);
    for x in samples() {
        assert_eq!(ts(x).seconds(), x.floor() as i64);
    }
}

#[test]
fn seconds_of_extremes() {
    assert_eq!(ts(f64::NAN).seconds(), 0);
    assert_eq!(ts(f64::INFINITY).seconds(), i64::MAX);
    assert_eq!(ts(f64::NEG_INFINITY).seconds(), i64::MIN);
}

#[test]
fn from_seconds_rounds_to_nearest() {
    assert_eq!(Timestamp::from_seconds(0).to_bits(), 0);
    assert_eq!(Timestamp::from_seconds(10).to_bits(), 10.0f64.to_bits());
    // Halfway between two doubles: the even one.
    assert_eq!(Timestamp::from_seconds(9007199254740993).to_bits(), 9007199254740992.0f64.to_bits());
    assert_eq!(Timestamp::from_seconds(9007199254740995).to_bits(), 9007199254740996.0f64.to_bits());
    let mut n: i64 = 1;
    for _ in 0..62 {
        for d in [-3, -2, -1, 0, 1, 2, 3] {
            let m = n + d;
            assert_eq!(Timestamp::from_seconds(m).to_bits(), (m as f64).to_bits());
            assert_eq!(Timestamp::from_seconds(-m).to_bits(), ((-m) as f64).to_bits());
        }
        n = n * 2;
    }
    for m in [i64::MAX, i64::MAX - 511, i64::MAX - 512, i64::MAX - 513, i64::MIN, i64::MIN + 1] {
        assert_eq!(Timestamp::from_seconds(m).to_bits(), (m as f64).to_bits());
    }
}

#[test]
fn seconds_round_trip() {
    for n in [0, 1, -1, 59, -86400, 9007199254740992, -9007199254740992] {
        assert_eq!(Timestamp::from_seconds(n).seconds(), n);
    }
}

#[test]
fn comparisons_follow_the_value() {
    for a in samples() {
        for b in samples() {
            assert_eq!(ts(a).is_later(&ts(b)), a > b);
            assert_eq!(ts(a).ranks_before(&ts(b)), a.total_cmp(&b) == std::cmp::Ordering::Less);
        }
        assert_eq!(ts(a).is_nan(), a.is_nan());
    }
}

/// The next double away from zero.
fn away_from_zero(x: f64) -> f64 {
    f64::from_bits(x.to_bits() + 1)
}

#[test]
fn distances_are_compared_exactly() {
    // Quarters of seconds, whose distances integers can hold.
    for a in -40i64..40 {
        for b in -40i64..40 {
            for gap in -8i64..8 {
                let (x, y) = (ts(a as f64 / 4.0), ts(b as f64 / 4.0));
                assert_eq!(y.is_within(&x, gap), b - a <= 4 * gap);
            }
        }
    }
    assert!(ts(5.1).is_within(&ts(0.9), 5));
    assert!(!ts(5.1).is_within(&ts(0.0), 5));
    assert!(ts(0.5).is_within(&ts(-0.5), 1));
    assert!(!ts(away_from_zero(0.5)).is_within(&ts(-0.5), 1));
    assert!(!ts(0.5).is_within(&ts(away_from_zero(-0.5)), 1));
    assert!(ts(1.75).is_within(&ts(-0.25), 2));
    assert!(!ts(away_from_zero(1.75)).is_within(&ts(-0.25), 2));
}

#[test]
fn distances_of_tiny_values() {
    assert!(!ts(5e-324).is_within(&ts(0.0), 0));
    assert!(ts(-5e-324).is_within(&ts(0.0), 0));
    assert!(!ts(0.0).is_within(&ts(-5e-324), 0));
    assert!(ts(0.0).is_within(&ts(-5e-324), 1));
    assert!(ts(1.0).is_within(&ts(5e-324), 1));
    assert!(!ts(1.0).is_within(&ts(-5e-324), 1));
    assert!(ts(1.0).is_within(&ts(-5e-324), 2));
    assert!(ts(5e-324).is_within(&ts(-5e-324), 1));
    assert!(!ts(1e-300).is_within(&ts(1e-301), 0));
    assert!(ts(-1e-300).is_within(&ts(-1e-301), 0));
    assert!(ts(-0.0).is_within(&ts(0.0), 0));
    assert!(ts(0.0).is_within(&ts(-0.0), 0));
}

#[test]
fn distances_of_large_values() {
    let x = 9007199254740992.0;
    assert!(ts(x + 2.0).is_within(&ts(x), 2));
    assert!(!ts(x + 2.0).is_within(&ts(x), 1));
    let edge = 9223372036854775808.0;
    for (a, b) in [(edge, edge + 2048.0), (-edge - 2048.0, -edge)] {
        assert!(ts(b).is_within(&ts(a), 2048));
        assert!(!ts(b).is_within(&ts(a), 2047));
        assert!(ts(a).is_within(&ts(b), -2048));
        assert!(!ts(a).is_within(&ts(b), -2049));
    }
    assert!(!ts(edge).is_within(&ts(-edge), i64::MAX));
    assert!(ts(-edge).is_within(&ts(edge), i64::MIN));
    for big in [1e30, 1e37, 1e300, f64::MAX] {
        for x in [big, -big] {
            assert!(ts(x).is_within(&ts(x), 0));
            assert!(!ts(x).is_within(&ts(x), -1));
        }
        assert!(ts(0.0).is_within(&ts(big), i64::MIN));
        assert!(!ts(big).is_within(&ts(0.0), i64::MAX));
        assert!(!ts(big).is_within(&ts(-big), i64::MAX));
    }
    assert!(!ts(away_from_zero(1e300)).is_within(&ts(1e300), i64::MAX));
    assert!(ts(f64::INFINITY).is_within(&ts(f64::INFINITY), 0));
    assert!(!ts(f64::INFINITY).is_within(&ts(f64::MAX), i64::MAX));
    assert!(!ts(0.0).is_within(&ts(f64::NEG_INFINITY), i64::MAX));
}

#[test]
fn no_nan_is_within_a_distance() {
    for x in samples() {
        assert!(!ts(x).is_within(&ts(f64::NAN), i64::MAX));
        assert!(!ts(f64::NAN).is_within(&ts(x), i64::MAX));
    }
}

#[test]
fn watermark_ignores_nan_and_negative_times() {
    let mut wm = Watermark::new();
    wm.advance(ts(f64::NAN));
    assert_eq!(wm.current().to_bits(), 0);
    wm.advance(ts(-5.0));
    assert_eq!(wm.current().to_bits(), 0);
    wm.advance(ts(-0.0));
    assert_eq!(wm.current().to_bits(), 0);
    wm.advance(ts(f64::INFINITY));
    assert_eq!(wm.current().to_bits(), f64::INFINITY.to_bits());
}

#[test]
fn watermark_reaches_the_latest_time() {
    for times in [vec![], vec![-3.0, -1.0], vec![4.5, f64::NAN, 9.25, 2.0, 9.25], vec![1e300, 7.0]] {
        let mut wm = Watermark::new();
        for t in &times {
            wm.advance(ts(*t));
        }
        let latest = times.iter().filter(|t| !t.is_nan()).fold(0.0f64, |a, b| a.max(*b));
        assert_eq!(wm.current().to_bits(), latest.to_bits());
    }
}

#[test]
fn watermark_completion_persists_and_follows_ends() {
    let mut wm = Watermark::new();
    let first = Window { start: -10, end: 0 };
    let second = Window { start: 0, end: 10 };
    let third = Window { start: 10, end: 20 };
    assert!(wm.is_window_complete(&first));
    for x in [12.0, 3.0, f64::NAN, 19.999] {
        wm.advance(ts(x));
        assert!(wm.is_window_complete(&first));
        assert!(wm.is_window_complete(&second));
        assert!(!wm.is_window_complete(&third));
    }
}

#[test]
fn watermark_completion_is_exact() {
    let mut wm = Watermark::new();
    wm.advance(ts(9007199254740992.0));
    assert!(wm.is_window_complete(&Window { start: 0, end: 9007199254740992 }));
    assert!(!wm.is_window_complete(&Window { start: 0, end: 9007199254740993 }));
    wm.advance(ts(9007199254740994.0));
    assert!(wm.is_window_complete(&Window { start: 0, end: 9007199254740993 }));
    for x in samples() {
        let mut wm = Watermark::new();
        wm.advance(ts(x));
        let position = f64::from_bits(wm.current().to_bits());
        for end in [0, 10, -10, 9007199254740993, i64::MAX, i64::MAX - 512, i64::MIN] {
            let window = Window { start: 0, end };
            let reached = position >= 9223372036854775808.0 || position.floor() as i64 >= end;
            assert_eq!(wm.is_window_complete(&window), reached);
        }
    }
}

#[test]
fn window_text() {
    assert_eq!(Window { start: 0, end: 10 }.to_string(), "[0s-10s)");
    assert_eq!(Window { start: -20, end: -10 }.to_string(), "[-20s--10s)");
    assert_eq!(
        Window { start: i64::MIN, end: i64::MAX }.to_string(),
        "[-9223372036854775808s-9223372036854775807s)"
    );
    assert_eq!(Window { start: 1234567890, end: 99 }.to_string(), "[1234567890s-99s)");
}
