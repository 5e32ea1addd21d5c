use vstd::arithmetic::div_mod::*;
use vstd::arithmetic::mul::*;
use vstd::arithmetic::power2::*;
use vstd::prelude::*;

use crate::timestamp;
use crate::timestamp::Timestamp;

verus! {

/// Up to twice the smallest normal double, the bits of a timestamp count its
/// value.
pub proof fn law_small_bits_count_units(timestamp: Timestamp)
    requires
        timestamp.bits < 0x0020_0000_0000_0000,
    ensures
        timestamp.units() == timestamp.bits,
{
    lemma2_to64();
    let bits = timestamp.bits as nat;
    if bits >= 0x0010_0000_0000_0000 {
        let h = 0x0010_0000_0000_0000nat;
        assert(bits / h == 1 && bits % h == bits - h);
        assert(pow2(0) == 1);
        assert((h + bits % h) * pow2(0) == h + bits % h) by (nonlinear_arith)
            requires
                pow2(0) == 1,
        ;
    }
}

/// The next exponent doubles the value.
pub proof fn law_exponent_doubles(timestamp: Timestamp, doubled: Timestamp)
    requires
        0x0010_0000_0000_0000 <= timestamp.bits,
        doubled.bits < 0x8000_0000_0000_0000,
        doubled.bits == timestamp.bits + 0x0010_0000_0000_0000,
    ensures
        doubled.units() == 2 * timestamp.units(),
{
    let h = 0x0010_0000_0000_0000nat;
    let field = timestamp.bits as nat / h;
    let fraction = timestamp.bits as nat % h;
    assert(doubled.bits as nat / h == field + 1 && doubled.bits as nat % h == fraction);
    lemma_pow2_unfold(field);
    let p = pow2((field - 1) as nat);
    assert((h + fraction) * (2 * p) == 2 * ((h + fraction) * p)) by (nonlinear_arith);
}

/// The sign bit negates the value.
pub proof fn law_sign_negates(timestamp: Timestamp, negated: Timestamp)
    requires
        timestamp.bits < 0x8000_0000_0000_0000,
        negated.bits == timestamp.bits + 0x8000_0000_0000_0000,
    ensures
        negated.units() == -timestamp.units(),
{
}

/// The NaNs are the bits beyond those of the infinities.
pub proof fn law_nans_are_beyond_infinity(timestamp: Timestamp)
    ensures
        timestamp.nan() <==> 0x7ff0_0000_0000_0000 < timestamp.bits < 0x8000_0000_0000_0000
            || timestamp.bits > 0xfff0_0000_0000_0000,
{
}

/// The double 1 is one second.
pub proof fn law_one_is_a_second(one: Timestamp)
    requires
        one.bits == 0x3ff0_0000_0000_0000,
    ensures
        one.units() == timestamp::units_per_second(),
        timestamp::units_per_second() == pow2(1074),
        timestamp::units_per_second() > 0,
{
    lemma2_to64();
    lemma2_to64_rest();
    lemma_pow2_pos(1074);
    lemma_pow2_adds(52, 1022);
    assert(0x3ff0_0000_0000_0000nat / 0x0010_0000_0000_0000nat == 1023);
}

/// A timestamp within the range of `i64` lies in its second; before the range
/// it counts as the first second, after it as the last, and a NaN as second 0.
pub proof fn law_seconds_are_the_floor(timestamp: Timestamp)
    ensures
        timestamp.nan() ==> timestamp.secs() == 0,
        !timestamp.nan() && timestamp.units() < i64::MIN * timestamp::units_per_second()
            ==> timestamp.secs() == i64::MIN,
        !timestamp.nan() && timestamp.units() >= 0x8000_0000_0000_0000
            * timestamp::units_per_second() ==> timestamp.secs() == i64::MAX,
        !timestamp.nan() && i64::MIN * timestamp::units_per_second() <= timestamp.units()
            < 0x8000_0000_0000_0000 * timestamp::units_per_second() ==> timestamp.secs()
            * timestamp::units_per_second() <= timestamp.units() < (timestamp.secs() + 1)
            * timestamp::units_per_second(),
{
    let second = timestamp::units_per_second() as int;
    let floor = timestamp.floor();
    let units = timestamp.units();
    lemma_pow2_pos(1074);
    lemma_fundamental_div_mod(units, second);
    lemma_mod_bound(units, second);
    lemma_mul_is_commutative(second, floor);
    assert((floor + 1) * second == floor * second + second) by (nonlinear_arith);
    if floor < i64::MIN {
        lemma_mul_inequality(floor + 1, i64::MIN as int, second);
    } else if floor > i64::MAX {
        lemma_mul_inequality(0x8000_0000_0000_0000, floor, second);
    } else {
        lemma_mul_inequality(i64::MIN as int, floor, second);
        lemma_mul_inequality(floor + 1, 0x8000_0000_0000_0000, second);
    }
}

/// The total order goes by the bits: upward from +0, downward from -0, and the
/// negative ones first.
pub proof fn law_rank_follows_bits(a: Timestamp, b: Timestamp)
    ensures
        a.bits < 0x8000_0000_0000_0000 && b.bits < 0x8000_0000_0000_0000 ==> (a.rank() < b.rank()
            <==> a.bits < b.bits),
        a.bits >= 0x8000_0000_0000_0000 && b.bits >= 0x8000_0000_0000_0000 ==> (a.rank()
            < b.rank() <==> a.bits > b.bits),
        a.bits >= 0x8000_0000_0000_0000 && b.bits < 0x8000_0000_0000_0000 ==> a.rank() < b.rank(),
        a.rank() == b.rank() <==> a.bits == b.bits,
{
}

/// Later means a greater value, and nothing is later or earlier than a NaN.
pub proof fn law_later_is_greater(a: Timestamp, b: Timestamp)
    ensures
        a.later(b) <==> !a.nan() && !b.nan() && b.units() < a.units(),
        a.later(b) ==> !b.later(a),
{
}

/// Being within a distance is about the difference of the values.
pub proof fn law_within_is_about_the_difference(a: Timestamp, b: Timestamp, gap: int)
    ensures
        b.within(a, gap) <==> !a.nan() && !b.nan() && b.units() - a.units() <= gap
            * timestamp::units_per_second(),
{
}

} // verus!
