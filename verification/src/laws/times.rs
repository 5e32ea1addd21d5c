use vstd::arithmetic::div_mod::*;
use vstd::arithmetic::mul::*;
use vstd::arithmetic::power2::*;
use vstd::prelude::*;

use crate::timestamp;
use crate::timestamp::{Timestamp, HIDDEN_BIT};
use crate::watermark;
use crate::window::Window;

verus! {

/// The total order of timestamps agrees with their values.
pub proof fn law_rank_follows_value(a: Timestamp, b: Timestamp)
    requires
        !a.nan(),
        !b.nan(),
    ensures
        a.units() < b.units() ==> a.rank() < b.rank(),
        a.rank() <= b.rank() ==> a.units() <= b.units(),
{
    timestamp::lemma_units_order(a, b);
    timestamp::lemma_units_order(b, a);
}

/// In the total order positive NaNs come after all numbers and negative NaNs
/// before them.
pub proof fn law_nan_ranks_outside(nan: Timestamp, number: Timestamp)
    requires
        nan.nan(),
        !number.nan(),
    ensures
        !nan.is_negative() ==> number.rank() < nan.rank(),
        nan.is_negative() ==> nan.rank() < number.rank(),
{
}

/// The total order tells any two different timestamps apart.
pub proof fn law_rank_is_total(a: Timestamp, b: Timestamp)
    ensures
        a.rank() == b.rank() <==> a.bits == b.bits,
{
}

/// Seconds never decrease with the value.
pub proof fn law_seconds_follow_value(a: Timestamp, b: Timestamp)
    requires
        !a.nan(),
        !b.nan(),
        a.units() <= b.units(),
    ensures
        a.secs() <= b.secs(),
{
    lemma_pow2_pos(1074);
    lemma_div_is_ordered(a.units(), b.units(), timestamp::units_per_second() as int);
}

/// A timestamp lies in its second: at or after the start of it and before the
/// start of the next.
pub proof fn law_seconds_hold_value(timestamp: Timestamp)
    requires
        !timestamp.nan(),
        i64::MIN <= timestamp.floor() <= i64::MAX,
    ensures
        timestamp.secs() * timestamp::units_per_second() <= timestamp.units(),
        timestamp.units() < (timestamp.secs() + 1) * timestamp::units_per_second(),
{
    let second = timestamp::units_per_second() as int;
    let floor = timestamp.floor();
    lemma_pow2_pos(1074);
    lemma_fundamental_div_mod(timestamp.units(), second);
    lemma_mod_bound(timestamp.units(), second);
    assert(floor * second == second * floor && (floor + 1) * second == second * floor + second)
        by (nonlinear_arith);
}

/// Whole numbers up to `2^53` are doubles themselves.
pub proof fn law_whole_seconds_are_exact(seconds: int)
    requires
        -0x20_0000_0000_0000 <= seconds <= 0x20_0000_0000_0000,
    ensures
        timestamp::seconds_units(seconds) == seconds * timestamp::units_per_second(),
{
    let size = (if seconds < 0 {
        -seconds
    } else {
        seconds
    }) as nat;
    if size == 2 * HIDDEN_BIT {
        assert(timestamp::spacing(size / 2) == 1);
        assert(timestamp::spacing(size) == 2);
    } else {
        assert(timestamp::spacing(size) == 1);
    }
    assert(timestamp::nearest_double(size) == size);
    if seconds < 0 {
        lemma_mul_unary_negation(size as int, timestamp::units_per_second() as int);
    }
}

/// A timestamp made from a whole number of seconds up to `2^53` has that many
/// seconds.
pub proof fn law_seconds_round_trip(timestamp: Timestamp, seconds: int)
    requires
        -0x20_0000_0000_0000 <= seconds <= 0x20_0000_0000_0000,
        !timestamp.nan(),
        timestamp.units() == timestamp::seconds_units(seconds),
    ensures
        timestamp.secs() == seconds,
{
    let second = timestamp::units_per_second() as int;
    law_whole_seconds_are_exact(seconds);
    lemma_pow2_pos(1074);
    lemma_fundamental_div_mod_converse(timestamp.units(), second, seconds, 0);
}

/// The spacing of doubles at a whole number is a power of two; beyond `2^53`
/// the number is from `2^52` up to `2^53` times its spacing.
proof fn lemma_spacing(n: nat) -> (k: nat)
    ensures
        timestamp::spacing(n) == pow2(k),
        n < 2 * HIDDEN_BIT * pow2(k),
        n >= 2 * HIDDEN_BIT ==> k > 0 && n >= HIDDEN_BIT * pow2(k),
        n < 2 * HIDDEN_BIT ==> k == 0,
    decreases n,
{
    lemma2_to64();
    if n < 2 * HIDDEN_BIT {
        0
    } else {
        let h = lemma_spacing(n / 2);
        lemma_pow2_unfold(h + 1);
        h + 1
    }
}

/// A whole number lies within one spacing of its rounding, on either side.
proof fn lemma_rounding(n: nat)
    ensures
        ({
            let unit = timestamp::spacing(n) as int;
            let rest = n as int % unit;
            let off = timestamp::nearest_double(n) - n;
            &&& unit > 0
            &&& 0 <= rest < unit
            &&& n == unit * (n as int / unit) + rest
            &&& off == -rest || off == unit - rest
            &&& -rest <= off <= unit - rest
            &&& -(unit - rest) <= off <= rest
            &&& timestamp::nearest_double(n) == (n as int / unit) * unit
                || timestamp::nearest_double(n) == (n as int / unit + 1) * unit
        }),
{
    let k = lemma_spacing(n);
    lemma_pow2_pos(k);
    let unit = timestamp::spacing(n) as int;
    lemma_fundamental_div_mod(n as int, unit);
    lemma_mod_bound(n as int, unit);
    let below = n as int / unit;
    assert((below + 1) * unit == below * unit + unit) by (nonlinear_arith);
    lemma_mul_is_commutative(below, unit);
}

/// No double is nearer to a whole number than its rounding: the case of
/// magnitudes.
proof fn lemma_nearest_magnitude(n: nat, magnitude: nat)
    ensures
        ({
            let target = n * timestamp::units_per_second();
            let off = timestamp::nearest_double(n) * timestamp::units_per_second() - target;
            let other = timestamp::magnitude_units(magnitude) - target;
            (off <= other || off <= -other) && (-off <= other || -off <= -other)
        }),
{
    let second = timestamp::units_per_second() as int;
    let nearest = timestamp::nearest_double(n) as int;
    let m = timestamp::magnitude_units(magnitude) as int;
    let k = lemma_spacing(n);
    lemma_pow2_pos(k);
    lemma_pow2_pos(1074);
    let unit = pow2(k) as int;
    lemma_rounding(n);
    let rest = n as int % unit;
    let below = n as int / unit;
    let off = nearest - n;
    lemma_mul_is_distributive_sub_other_way(second, nearest, n as int);
    if n < 2 * HIDDEN_BIT {
        lemma2_to64();
        lemma_mod_self_0(1);
        assert(rest == 0);
        assert(off == 0);
        assert(off * second == 0);
    } else {
        let h = HIDDEN_BIT as int;
        let scale = unit * second;
        assert(below >= h) by {
            lemma_div_is_ordered(h * unit, n as int, unit);
            lemma_div_by_multiple(h, unit);
        }
        // How far the rounding is off, in units.
        assert(off * second <= rest * second && -(off * second) <= rest * second && off * second
            <= (unit - rest) * second && -(off * second) <= (unit - rest) * second)
            by (nonlinear_arith)
            requires
                -rest <= off <= rest,
                -(unit - rest) <= off <= unit - rest,
                second > 0,
        ;
        assert(n * second == below * scale + rest * second) by (nonlinear_arith)
            requires
                n == unit * below + rest,
                scale == unit * second,
        ;
        if m < h * scale {
            assert(h * scale <= below * scale) by (nonlinear_arith)
                requires
                    h <= below,
                    scale >= 0,
            ;
        } else {
            let q = lemma_multiple_of_scale(magnitude, k);
            lemma_pow2_adds(k, 1074);
            assert(m == q * scale);
            if q <= below {
                assert(q * scale <= below * scale) by (nonlinear_arith)
                    requires
                        q <= below,
                        scale >= 0,
                ;
            } else {
                assert(q * scale >= below * scale + scale) by (nonlinear_arith)
                    requires
                        q >= below + 1,
                        scale >= 0,
                ;
                assert((unit - rest) * second == scale - rest * second) by (nonlinear_arith)
                    requires
                        scale == unit * second,
                ;
            }
        }
    }
}

/// A magnitude of at least `2^52` steps of `2^k` seconds is a whole number of
/// such steps.
proof fn lemma_multiple_of_scale(magnitude: nat, k: nat) -> (q: nat)
    requires
        timestamp::magnitude_units(magnitude) >= HIDDEN_BIT * (pow2(k)
            * timestamp::units_per_second()),
    ensures
        timestamp::magnitude_units(magnitude) == q * pow2(k + 1074),
{
    let h = HIDDEN_BIT as nat;
    let field = magnitude / h;
    let significand = h + magnitude % h;
    lemma_pow2_adds(k, 1074);
    lemma_pow2_pos(k + 1074);
    if field < k + 1075 {
        let m = timestamp::magnitude_units(magnitude);
        if field == 0 {
            assert(h <= h * pow2(k + 1074)) by (nonlinear_arith)
                requires
                    pow2(k + 1074) >= 1,
            ;
            assert(false);
        } else {
            lemma_pow2_pos((field - 1) as nat);
            lemma_pow2_unfold(field);
            if field < k + 1074 {
                lemma_pow2_strictly_increases(field, k + 1074);
            }
            assert(significand * pow2((field - 1) as nat) < h * (2 * pow2((field - 1) as nat)))
                by (nonlinear_arith)
                requires
                    significand < 2 * h,
                    pow2((field - 1) as nat) > 0,
            ;
            assert(h * pow2(field) <= h * pow2(k + 1074)) by (nonlinear_arith)
                requires
                    pow2(field) <= pow2(k + 1074),
            ;
            assert(false);
        }
        0
    } else {
        let d = (field - 1 - (k + 1074)) as nat;
        lemma_pow2_adds(d, k + 1074);
        assert(significand * (pow2(d) * pow2(k + 1074)) == (significand * pow2(d)) * pow2(
            k + 1074,
        )) by (nonlinear_arith);
        significand * pow2(d)
    }
}

/// A whole number of seconds is rounded to the nearest double: no timestamp is
/// nearer to it.
pub proof fn law_rounding_is_nearest(seconds: int, timestamp: Timestamp)
    requires
        !timestamp.nan(),
    ensures
        ({
            let target = seconds * timestamp::units_per_second();
            let off = timestamp::seconds_units(seconds) - target;
            let other = timestamp.units() - target;
            (off <= other || off <= -other) && (-off <= other || -off <= -other)
        }),
{
    let second = timestamp::units_per_second() as int;
    let size = (if seconds < 0 {
        -seconds
    } else {
        seconds
    }) as nat;
    lemma_pow2_pos(1074);
    lemma_nearest_magnitude(size, timestamp.magnitude());
    lemma_nearest_magnitude(size, 0);
    assert(timestamp::magnitude_units(0) == 0);
    assert(size * second >= 0) by (nonlinear_arith)
        requires
            second > 0,
    ;
    if seconds < 0 {
        lemma_mul_unary_negation(-seconds, second);
    }
}

/// Between two equally near doubles rounding takes the one with even bits: the
/// case of magnitudes.
proof fn lemma_tie_is_even(n: nat, rounded: nat, other: nat)
    requires
        n <= 0x8000_0000_0000_0000,
        timestamp::magnitude_units(rounded) == timestamp::nearest_double(n)
            * timestamp::units_per_second(),
        timestamp::magnitude_units(other) != timestamp::magnitude_units(rounded),
        ({
            let target = n * timestamp::units_per_second();
            let off = timestamp::magnitude_units(rounded) - target;
            timestamp::magnitude_units(other) - target == off || timestamp::magnitude_units(other)
                - target == -off
        }),
    ensures
        rounded % 2 == 0,
{
    let second = timestamp::units_per_second() as int;
    let k = lemma_spacing(n);
    lemma_pow2_pos(k);
    lemma_pow2_pos(1074);
    let unit = pow2(k) as int;
    lemma_rounding(n);
    let rest = n as int % unit;
    let below = n as int / unit;
    let o = timestamp::magnitude_units(other) as int;
    let h = HIDDEN_BIT as int;
    let scale = unit * second;
    if n < 2 * HIDDEN_BIT {
        lemma2_to64();
        lemma_mod_self_0(1);
        assert(rest == 0);
        assert(timestamp::nearest_double(n) == n);
        assert(false);
    } else {
        assert(n * second == below * scale + rest * second) by (nonlinear_arith)
            requires
                n == unit * below + rest,
                scale == unit * second,
        ;
        assert(below >= h) by {
            lemma_div_is_ordered(h * unit, n as int, unit);
            lemma_div_by_multiple(h, unit);
        }
        assert(h * scale <= below * scale) by (nonlinear_arith)
            requires
                h <= below,
                scale >= 0,
        ;
        assert((below * unit) * second == below * scale && ((below + 1) * unit) * second == below
            * scale + scale) by (nonlinear_arith)
            requires
                scale == unit * second,
        ;
        assert(0 <= rest * second && (2 * rest) * second == 2 * (rest * second) && (2 * rest
            - unit) * second == 2 * (rest * second) - scale) by (nonlinear_arith)
            requires
                0 <= rest,
                second > 0,
                scale == unit * second,
        ;
        let down = 2 * rest < unit || (2 * rest == unit && below % 2 == 0);
        // The other double lies on the other side of the number.
        assert(o == if down {
            below * scale + (2 * rest) * second
        } else {
            below * scale + (2 * rest - unit) * second
        });
        let step = if down {
            2 * rest
        } else {
            2 * rest - unit
        };
        assert(step * second >= 0) by (nonlinear_arith)
            requires
                step >= 0,
                second > 0,
        ;
        let q = lemma_multiple_of_scale(other, k);
        lemma_pow2_adds(k, 1074);
        assert((q - below) * scale == step * second) by (nonlinear_arith)
            requires
                q * scale == below * scale + step * second,
        ;
        assert(0 <= (q - below) * unit && (q - below) * unit == step) by (nonlinear_arith)
            requires
                (q - below) * (unit * second) == step * second,
                second > 0,
                step >= 0,
        ;
        let x = if down {
            below
        } else {
            below + 1
        };
        assert(x % 2 == 0) by {
            if down && 2 * rest < unit {
                assert(q - below < 1) by (nonlinear_arith)
                    requires
                        (q - below) * unit < unit,
                        unit > 0,
                ;
                assert(q - below >= 0) by (nonlinear_arith)
                    requires
                        0 <= (q - below) * unit,
                        unit > 0,
                ;
                assert(step == 0) by (nonlinear_arith)
                    requires
                        q - below == 0,
                        (q - below) * unit == step,
                ;
                assert(false);
            }
            if !down && 2 * rest > unit {
                assert(0 < q - below < 1) by (nonlinear_arith)
                    requires
                        0 < (q - below) * unit < unit,
                        unit > 0,
                ;
            }
        }
        // The even significand makes even bits.
        assert(x <= 2 * h) by {
            if below >= 2 * h {
                assert(unit * below >= 2 * h * unit) by (nonlinear_arith)
                    requires
                        below >= 2 * h,
                        unit > 0,
                ;
            }
        }
        assert(k < 12) by {
            if k >= 12 {
                lemma2_to64();
                if k > 12 {
                    lemma_pow2_strictly_increases(12, k);
                }
                assert(h * unit >= h * 4096) by (nonlinear_arith)
                    requires
                        unit >= 4096,
                        h > 0,
                ;
            }
        }
        let field = (k + 1075) as u64;
        timestamp::lemma_compose(x as u64, field);
        let bits = (field * HIDDEN_BIT + (x - h)) as nat;
        assert(x * pow2(k + 1074) == x * scale);
        assert(timestamp::magnitude_units(bits) == timestamp::magnitude_units(rounded)) by {
            assert(x * scale == if down {
                below * scale
            } else {
                below * scale + scale
            }) by (nonlinear_arith)
                requires
                    x == if down {
                        below
                    } else {
                        below + 1
                    },
            ;
        }
        timestamp::lemma_magnitudes_ordered(bits, rounded);
        assert(bits % 2 == 0);
    }
}

/// A whole number of seconds halfway between two doubles is rounded to the one
/// with even bits.
pub proof fn law_ties_round_to_even(seconds: i64, rounded: Timestamp, other: Timestamp)
    requires
        !rounded.nan(),
        !other.nan(),
        rounded.units() == timestamp::seconds_units(seconds as int),
        other.units() != rounded.units(),
        ({
            let target = seconds * timestamp::units_per_second();
            other.units() - target == rounded.units() - target || other.units() - target == target
                - rounded.units()
        }),
    ensures
        rounded.bits % 2 == 0,
{
    let second = timestamp::units_per_second() as int;
    let size = (if seconds < 0 {
        -seconds
    } else {
        seconds as int
    }) as nat;
    lemma_pow2_pos(1074);
    assert(timestamp::magnitude_units(0) == 0);
    lemma_nearest_magnitude(size, 0);
    assert(size * second >= 0 && timestamp::nearest_double(size) * second >= 0)
        by (nonlinear_arith)
        requires
            second > 0,
    ;
    if seconds < 0 {
        lemma_mul_unary_negation(-seconds, second);
    }
    timestamp::lemma_magnitudes_ordered(0, rounded.magnitude());
    timestamp::lemma_magnitudes_ordered(0, other.magnitude());
    lemma_tie_is_even(size, rounded.magnitude(), other.magnitude());
}

/// Rounding keeps the order of whole numbers.
proof fn lemma_rounding_ordered(m: nat, n: nat)
    requires
        m <= n,
    ensures
        timestamp::nearest_double(m) <= timestamp::nearest_double(n),
{
    let a = lemma_spacing(m);
    let b = lemma_spacing(n);
    lemma_pow2_pos(a);
    lemma_pow2_pos(b);
    lemma_rounding(m);
    lemma_rounding(n);
    let (u, v) = (pow2(a) as int, pow2(b) as int);
    let h = HIDDEN_BIT as int;
    let (qm, qn) = (m as int / u, n as int / v);
    if a == b {
        lemma_div_is_ordered(m as int, n as int, u);
        if qm < qn {
            assert((qm + 1) * u <= qn * u) by (nonlinear_arith)
                requires
                    qm + 1 <= qn,
                    u > 0,
            ;
            assert(qn * u <= (qn + 1) * u && qm * u <= (qm + 1) * u) by (nonlinear_arith)
                requires
                    u > 0,
            ;
        } else {
            assert(qm == qn);
        }
    } else if b < a {
        if a > b + 1 {
            lemma_pow2_strictly_increases(b + 1, a);
        }
        lemma_pow2_unfold(b + 1);
        assert(h * u >= 2 * h * v) by (nonlinear_arith)
            requires
                u >= 2 * v,
                h > 0,
        ;
        assert(false);
    } else {
        if b > a + 1 {
            lemma_pow2_strictly_increases(a + 1, b);
        }
        lemma_pow2_unfold(a + 1);
        // The rounding of `m` is at most `2^53` of its steps, that of `n` at
        // least `2^52` of its wider ones.
        assert(qm < 2 * h) by {
            lemma_div_by_multiple(2 * h, u);
            lemma_div_is_ordered(m as int, 2 * h * u, u);
            if qm >= 2 * h {
                assert(u * qm >= 2 * h * u) by (nonlinear_arith)
                    requires
                        qm >= 2 * h,
                        u > 0,
                ;
            }
        }
        assert((qm + 1) * u <= (2 * h) * u && qm * u <= (2 * h) * u) by (nonlinear_arith)
            requires
                qm + 1 <= 2 * h,
                u > 0,
        ;
        assert(qn >= h) by {
            lemma_div_is_ordered(h * v, n as int, v);
            lemma_div_by_multiple(h, v);
        }
        assert(h * v <= qn * v && h * v <= (qn + 1) * v) by (nonlinear_arith)
            requires
                h <= qn,
                v > 0,
        ;
        assert((2 * h) * u <= h * v) by (nonlinear_arith)
            requires
                v >= 2 * u,
                h > 0,
        ;
    }
}

/// Rounding keeps the order of seconds.
pub proof fn law_rounding_keeps_order(a: int, b: int)
    requires
        a <= b,
    ensures
        timestamp::seconds_units(a) <= timestamp::seconds_units(b),
{
    let second = timestamp::units_per_second();
    lemma_pow2_pos(1074);
    if a >= 0 {
        lemma_rounding_ordered(a as nat, b as nat);
        lemma_mul_inequality(
            timestamp::nearest_double(a as nat) as int,
            timestamp::nearest_double(b as nat) as int,
            second as int,
        );
    } else if b < 0 {
        lemma_rounding_ordered((-b) as nat, (-a) as nat);
        lemma_mul_inequality(
            timestamp::nearest_double((-b) as nat) as int,
            timestamp::nearest_double((-a) as nat) as int,
            second as int,
        );
    } else {
        let x = timestamp::nearest_double((-a) as nat);
        let y = timestamp::nearest_double(b as nat);
        assert(x * second >= 0 && y * second >= 0) by (nonlinear_arith)
            requires
                second > 0,
        ;
    }
}

/// A watermark never goes back, and reaches every timestamp that it sees
/// except NaNs.
pub proof fn law_watermark_never_regresses(position: Timestamp, timestamp: Timestamp)
    requires
        !position.nan(),
    ensures
        !watermark::advanced(position, timestamp).nan(),
        watermark::advanced(position, timestamp).units() >= position.units(),
        timestamp.nan() || watermark::advanced(position, timestamp).units() >= timestamp.units(),
{
}

/// A watermark moves to exactly the later timestamps: to one of a greater value,
/// and otherwise not at all.
pub proof fn law_watermark_moves_to_later_times(position: Timestamp, timestamp: Timestamp)
    requires
        !position.nan(),
    ensures
        !timestamp.nan() && timestamp.units() > position.units() ==> watermark::advanced(
            position,
            timestamp,
        ) == timestamp,
        timestamp.nan() || timestamp.units() <= position.units() ==> watermark::advanced(
            position,
            timestamp,
        ) == position,
{
}

/// A sequence of timestamps moves a watermark one after the other.
pub proof fn law_watermark_takes_one_at_a_time(
    position: Timestamp,
    timestamps: Seq<Timestamp>,
    timestamp: Timestamp,
)
    ensures
        watermark::advanced_over(position, Seq::empty()) == position,
        watermark::advanced_over(position, timestamps.push(timestamp)) == watermark::advanced(
            watermark::advanced_over(position, timestamps),
            timestamp,
        ),
{
    assert(timestamps.push(timestamp).drop_last() =~= timestamps);
}

/// After any sequence of timestamps a watermark that began at a position stands
/// at the latest of that position and all timestamps but NaNs: none is later,
/// and it is at one of them.
pub proof fn law_watermark_reaches_latest(position: Timestamp, timestamps: Seq<Timestamp>)
    requires
        !position.nan(),
    ensures
        ({
            let reached = watermark::advanced_over(position, timestamps);
            &&& !reached.nan()
            &&& reached.units() >= position.units()
            &&& forall|i: int|
                0 <= i < timestamps.len() ==> (#[trigger] timestamps[i]).nan()
                    || timestamps[i].units() <= reached.units()
            &&& reached == position || exists|i: int|
                0 <= i < timestamps.len() && #[trigger] timestamps[i] == reached
        }),
    decreases timestamps.len(),
{
    if timestamps.len() > 0 {
        let rest = timestamps.drop_last();
        let before = watermark::advanced_over(position, rest);
        let reached = watermark::advanced_over(position, timestamps);
        law_watermark_reaches_latest(position, rest);
        assert forall|i: int| 0 <= i < timestamps.len() implies (#[trigger] timestamps[i]).nan()
            || timestamps[i].units() <= reached.units() by {
            if i < rest.len() {
                assert(rest[i].nan() || rest[i].units() <= before.units());
            }
        }
        if reached == timestamps.last() {
            assert(timestamps[timestamps.len() - 1] == reached);
        } else if before != position {
            let i = choose|i: int| 0 <= i < rest.len() && #[trigger] rest[i] == before;
            assert(timestamps[i] == reached);
        }
    }
}

/// After any sequence of timestamps a new watermark stands at the latest of time
/// zero and all of them but NaNs.
pub proof fn law_new_watermark_reaches_latest(start: Timestamp, timestamps: Seq<Timestamp>)
    requires
        start.bits == 0,
    ensures
        ({
            let reached = watermark::advanced_over(start, timestamps);
            &&& !reached.nan()
            &&& reached.units() >= 0
            &&& forall|i: int|
                0 <= i < timestamps.len() ==> (#[trigger] timestamps[i]).nan()
                    || timestamps[i].units() <= reached.units()
            &&& reached.bits == 0 || exists|i: int|
                0 <= i < timestamps.len() && #[trigger] timestamps[i] == reached
        }),
{
    law_watermark_reaches_latest(start, timestamps);
}

/// A window that is complete stays complete.
pub proof fn law_completion_persists(position: Timestamp, timestamp: Timestamp, window: Window)
    requires
        !position.nan(),
        watermark::completes(position, window),
    ensures
        watermark::completes(watermark::advanced(position, timestamp), window),
{
}

/// Windows complete in the order of their ends.
pub proof fn law_completion_follows_ends(position: Timestamp, first: Window, second: Window)
    requires
        first.end <= second.end,
        watermark::completes(position, second),
    ensures
        watermark::completes(position, first),
{
    lemma_pow2_pos(1074);
    lemma_mul_inequality(
        first.end as int,
        second.end as int,
        timestamp::units_per_second() as int,
    );
}

/// A window is complete exactly when the value of the watermark has reached
/// its end, which is when the second of the watermark has.
pub proof fn law_completion_is_exact(position: Timestamp, window: Window)
    requires
        !position.nan(),
        position.units() >= 0,
    ensures
        watermark::completes(position, window) <==> position.units() >= window.end
            * timestamp::units_per_second(),
        watermark::completes(position, window) <==> position.secs() >= window.end,
{
    watermark::lemma_reaches(position, window.end as int);
}

} // verus!
