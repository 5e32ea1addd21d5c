use vstd::arithmetic::div_mod::*;
use vstd::arithmetic::mul::*;
use vstd::arithmetic::power2::*;
use vstd::bits::*;
use vstd::prelude::*;

verus! {

/// The sign bit of a double.
pub const SIGN_BIT: u64 = 0x8000_0000_0000_0000;

/// The weight of the exponent field of a double, which is also the implicit
/// leading bit of its significand.
pub const HIDDEN_BIT: u64 = 0x0010_0000_0000_0000;

/// The bits of positive infinity; larger magnitudes are not numbers.
pub const INFINITY_BITS: u64 = 0x7ff0_0000_0000_0000;

/// The bits of one half.
const HALF_BITS: u64 = 0x3fe0_0000_0000_0000;

/// The bits of `2^120`. From there on two different doubles are further apart
/// than any `i64`.
const LARGE_BITS: u64 = 0x4770_0000_0000_0000;

/// An event time in seconds, held as the bits of an IEEE 754 double.
#[derive(Debug, Clone, Copy)]
pub struct Timestamp {
    pub bits: u64,
}

/// The absolute value that magnitude bits (a double without its sign) stand
/// for, counted in the smallest positive double, which is `2^-1074`.
///
/// Read the same way, the bits of infinity count more than those of every
/// finite double.
pub open spec fn magnitude_units(magnitude: nat) -> nat {
    let field = magnitude / HIDDEN_BIT as nat;
    let fraction = magnitude % HIDDEN_BIT as nat;
    if field == 0 {
        fraction
    } else {
        (HIDDEN_BIT + fraction) as nat * pow2((field - 1) as nat)
    }
}

/// How many units of `2^-1074` make a second.
pub open spec fn units_per_second() -> nat {
    pow2(1074)
}

/// The distance between neighbouring doubles at a whole number: 1 up to
/// `2^53`, then doubling with each power of two.
pub open spec fn spacing(n: nat) -> nat
    decreases n,
{
    if n < 2 * HIDDEN_BIT {
        1
    } else {
        2 * spacing(n / 2)
    }
}

/// The double nearest to a whole number. Between two equally near ones, the
/// one with the even significand.
pub open spec fn nearest_double(n: nat) -> nat {
    let unit = spacing(n);
    let below = n / unit;
    let rest = n % unit;
    if 2 * rest < unit || (2 * rest == unit && below % 2 == 0) {
        below * unit
    } else {
        (below + 1) * unit
    }
}

/// A whole number of seconds as the nearest double, in units of `2^-1074`.
pub open spec fn seconds_units(seconds: int) -> int {
    if seconds < 0 {
        -(nearest_double((-seconds) as nat) * units_per_second())
    } else {
        (nearest_double(seconds as nat) * units_per_second()) as int
    }
}

impl Timestamp {
    pub open spec fn is_negative(self) -> bool {
        self.bits >= SIGN_BIT
    }

    /// The bits without the sign.
    pub open spec fn magnitude(self) -> nat {
        (self.bits % SIGN_BIT) as nat
    }

    /// Whether these are the bits of a NaN.
    pub open spec fn nan(self) -> bool {
        self.magnitude() > INFINITY_BITS
    }

    /// The signed value in units of `2^-1074`. Meaningful unless `nan`.
    pub open spec fn units(self) -> int {
        if self.is_negative() {
            -magnitude_units(self.magnitude())
        } else {
            magnitude_units(self.magnitude()) as int
        }
    }

    /// The value rounded down to a whole number of seconds. Meaningful unless
    /// `nan`.
    pub open spec fn floor(self) -> int {
        self.units() / units_per_second() as int
    }

    /// The second in which this timestamp lies: the value rounded down, held
    /// within the range of `i64`; 0 for a NaN.
    pub open spec fn secs(self) -> int {
        if self.nan() {
            0
        } else if self.floor() < i64::MIN {
            i64::MIN as int
        } else if self.floor() > i64::MAX {
            i64::MAX as int
        } else {
            self.floor()
        }
    }

    /// The place of this timestamp in the total order of doubles: negative
    /// NaNs first, then the numbers by value with -0 before +0, then positive
    /// NaNs.
    pub open spec fn rank(self) -> int {
        if self.is_negative() {
            -1 - self.magnitude()
        } else {
            self.magnitude() as int
        }
    }

    /// Whether this timestamp is later than another; a NaN is neither later
    /// nor earlier than anything.
    pub open spec fn later(self, other: Timestamp) -> bool {
        !self.nan() && !other.nan() && self.units() > other.units()
    }

    /// Whether this timestamp is at most `gap` seconds after `earlier`. No NaN
    /// is within any distance of anything.
    pub open spec fn within(self, earlier: Timestamp, gap: int) -> bool {
        !self.nan() && !earlier.nan() && self.units() <= earlier.units() + gap * units_per_second()
    }

    pub fn from_bits(bits: u64) -> (timestamp: Timestamp)
        ensures
            timestamp.bits == bits,
    {
        Timestamp { bits }
    }

    pub fn to_bits(&self) -> (bits: u64)
        ensures
            bits == self.bits,
    {
        self.bits
    }

    /// The second in which this timestamp lies: its value rounded down. Values
    /// beyond `i64` give its ends, and a NaN gives 0.
    pub fn seconds(&self) -> (seconds: i64)
        ensures
            seconds == self.secs(),
    {
        let magnitude: u64 = self.bits % SIGN_BIT;
        if magnitude > INFINITY_BITS {
            return 0;
        }
        if magnitude >= LARGE_BITS {
            proof {
                lemma_large_floor(*self);
            }
            return if self.bits >= SIGN_BIT { i64::MIN } else { i64::MAX };
        }
        let whole: i128 = self.whole_seconds();
        if whole < i64::MIN as i128 {
            i64::MIN
        } else if whole > i64::MAX as i128 {
            i64::MAX
        } else {
            whole as i64
        }
    }

    /// The value below `2^120` rounded down to whole seconds.
    fn whole_seconds(&self) -> (seconds: i128)
        requires
            self.magnitude() < LARGE_BITS,
        ensures
            seconds == self.floor(),
            -0x200_0000_0000_0000_0000_0000_0000_0000 < seconds
                < 0x200_0000_0000_0000_0000_0000_0000_0000,
    {
        let (whole, rest) = Self::split(self.bits % SIGN_BIT);
        proof {
            lemma_split_signed(*self, whole as int, rest);
        }
        if self.bits < SIGN_BIT {
            whole as i128
        } else if rest == 0 {
            -(whole as i128)
        } else {
            -(whole as i128) - 1
        }
    }

    /// The whole seconds of a magnitude below `2^120` and the magnitude bits of
    /// what is left, which is less than a second.
    fn split(magnitude: u64) -> (parts: (u128, u64))
        requires
            magnitude < LARGE_BITS,
        ensures
            splits(magnitude, parts.0 as int, parts.1),
            parts.0 < 0x100_0000_0000_0000_0000_0000_0000_0000,
    {
        let field: u64 = magnitude / HIDDEN_BIT;
        if field < 1023 {
            proof {
                lemma_below_second(magnitude);
                lemma_basic_div(
                    magnitude_units(magnitude as nat) as int,
                    units_per_second() as int,
                );
                lemma_small_mod(magnitude_units(magnitude as nat), units_per_second());
            }
            return (0, magnitude);
        }
        let significand: u64 = HIDDEN_BIT + magnitude % HIDDEN_BIT;
        if field >= 1075 {
            let low: u64 = (field - 1075) / 2;
            let high: u64 = field - 1075 - low;
            proof {
                lemma_scale(low, high);
                lemma_whole_magnitude(magnitude, (field - 1075) as nat);
            }
            let scale: u128 = ((1u64 << low) as u128) * ((1u64 << high) as u128);
            proof {
                assert(significand * scale < 0x20_0000_0000_0000 * 0x8_0000_0000_0000_0000)
                    by (nonlinear_arith)
                    requires
                        significand < 0x20_0000_0000_0000,
                        0 < scale <= 0x8_0000_0000_0000_0000,
                ;
            }
            ((significand as u128) * scale, 0)
        } else {
            let shift: u64 = 1075 - field;
            proof {
                lemma_scale(shift, 0);
                lemma_pow2_pos(shift as nat);
            }
            let step: u64 = 1u64 << shift;
            let rest: u64 = Self::magnitude_of(significand % step, field);
            proof {
                lemma_cut_magnitude(magnitude, shift as nat);
                lemma_div_is_ordered_by_denominator(significand as int, 1, step as int);
                lemma_div_by_self(1);
            }
            ((significand / step) as u128, rest)
        }
    }

    /// The magnitude bits of a significand times a power of two.
    fn magnitude_of(significand: u64, field: u64) -> (magnitude: u64)
        requires
            significand <= 2 * HIDDEN_BIT,
            53 <= field <= 2000,
        ensures
            magnitude <= INFINITY_BITS,
            magnitude_units(magnitude as nat) == significand * pow2((field - 1) as nat),
    {
        if significand == 0 {
            return 0;
        }
        let mut scaled: u64 = significand;
        let mut shift: u64 = 0;
        proof {
            lemma2_to64();
        }
        while scaled < HIDDEN_BIT
            invariant
                1 <= significand,
                scaled == significand * pow2(shift as nat),
                scaled <= 2 * HIDDEN_BIT,
                shift <= 52,
            decreases 52 - shift,
        {
            proof {
                lemma2_to64();
                lemma2_to64_rest();
                lemma_pow2_unfold((shift + 1) as nat);
                assert(significand * (2 * pow2(shift as nat)) == 2 * (significand * pow2(
                    shift as nat,
                ))) by (nonlinear_arith);
                assert(pow2(shift as nat) <= significand * pow2(shift as nat)) by (nonlinear_arith)
                    requires
                        significand >= 1,
                        pow2(shift as nat) >= 0,
                ;
                if shift >= 52 {
                    if shift > 52 {
                        lemma_pow2_strictly_increases(52, shift as nat);
                    }
                    assert(false);
                }
            }
            scaled = scaled * 2;
            shift = shift + 1;
        }
        let lowered: u64 = field - shift;
        proof {
            lemma_compose(scaled, lowered);
            let f = (lowered - 1) as nat;
            lemma_pow2_adds(shift as nat, f);
            assert(scaled * pow2(f) == significand * (pow2(shift as nat) * pow2(f)))
                by (nonlinear_arith)
                requires
                    scaled == significand * pow2(shift as nat),
            ;
        }
        lowered * HIDDEN_BIT + (scaled - HIDDEN_BIT)
    }
}

impl Timestamp {
    /// Whether this timestamp is at most `gap` seconds after `earlier`.
    pub fn is_within(&self, earlier: &Timestamp, gap: i64) -> (result: bool)
        ensures
            result == self.within(*earlier, gap as int),
    {
        if self.is_nan() || earlier.is_nan() {
            return false;
        }
        let mine: u64 = self.bits % SIGN_BIT;
        let theirs: u64 = earlier.bits % SIGN_BIT;
        if mine >= LARGE_BITS || theirs >= LARGE_BITS {
            let (here, there) = (self.signed_magnitude(), earlier.signed_magnitude());
            proof {
                lemma_large_apart(*self, *earlier, gap as int);
            }
            return here < there || (here == there && gap >= 0);
        }
        let distance: i128 = self.whole_seconds() - earlier.whole_seconds();
        proof {
            lemma_distance(*self, *earlier, gap as int);
        }
        distance < gap as i128 || (distance == gap as i128 && self.fraction_at_most(earlier))
    }

    /// Whether this timestamp lies no further into its second than `other`
    /// does into its own.
    fn fraction_at_most(&self, other: &Timestamp) -> (result: bool)
        requires
            self.magnitude() < LARGE_BITS,
            other.magnitude() < LARGE_BITS,
        ensures
            result == (self.units() % units_per_second() as int <= other.units()
                % units_per_second() as int),
    {
        let (my_whole, mine) = Self::split(self.bits % SIGN_BIT);
        let (their_whole, theirs) = Self::split(other.bits % SIGN_BIT);
        proof {
            lemma_split_signed(*self, my_whole as int, mine);
            lemma_split_signed(*other, their_whole as int, theirs);
            lemma_magnitudes_ordered(mine as nat, theirs as nat);
        }
        let my_back: bool = self.bits >= SIGN_BIT && mine > 0;
        let their_back: bool = other.bits >= SIGN_BIT && theirs > 0;
        if my_back && their_back {
            theirs <= mine
        } else if my_back {
            Self::sum_against_second(mine, theirs).1
        } else if their_back {
            Self::sum_against_second(mine, theirs).0
        } else {
            mine <= theirs
        }
    }

    /// Whether two magnitudes below a second add up to at most a second, and
    /// whether to at least a second.
    fn sum_against_second(a: u64, b: u64) -> (result: (bool, bool))
        requires
            magnitude_units(a as nat) < units_per_second(),
            magnitude_units(b as nat) < units_per_second(),
        ensures
            result.0 == (magnitude_units(a as nat) + magnitude_units(b as nat)
                <= units_per_second()),
            result.1 == (magnitude_units(a as nat) + magnitude_units(b as nat)
                >= units_per_second()),
    {
        let (small, large): (u64, u64) = if a <= b { (a, b) } else { (b, a) };
        proof {
            lemma_half();
            lemma_magnitudes_ordered(small as nat, large as nat);
            lemma_magnitudes_ordered(large as nat, HALF_BITS as nat);
            lemma_at_least_half(large);
        }
        if large < HALF_BITS {
            return (true, false);
        }
        let rest: u64 = Self::magnitude_of(HIDDEN_BIT - large % HIDDEN_BIT, 1022);
        proof {
            lemma_magnitudes_ordered(small as nat, rest as nat);
        }
        (small <= rest, small >= rest)
    }
}

impl Timestamp {
    /// The timestamp of a whole number of seconds, rounded to the nearest
    /// double.
    pub fn from_seconds(seconds: i64) -> (timestamp: Timestamp)
        ensures
            !timestamp.nan(),
            timestamp.is_negative() == (seconds < 0),
            timestamp.units() == seconds_units(seconds as int),
    {
        let size: u64 = if seconds >= 0 {
            seconds as u64
        } else if seconds == i64::MIN {
            SIGN_BIT
        } else {
            (-seconds) as u64
        };
        let magnitude: u64 = Self::whole_magnitude(size);
        if seconds < 0 {
            Timestamp { bits: SIGN_BIT + magnitude }
        } else {
            Timestamp { bits: magnitude }
        }
    }

    /// The magnitude bits of the double nearest to a whole number.
    fn whole_magnitude(size: u64) -> (magnitude: u64)
        requires
            size <= SIGN_BIT,
        ensures
            magnitude <= INFINITY_BITS,
            magnitude_units(magnitude as nat) == nearest_double(size as nat) * units_per_second(),
    {
        let mut unit: u64 = 1;
        let mut doublings: u64 = 0;
        proof {
            lemma2_to64();
            lemma2_to64_rest();
            assert(size / 1 == size);
        }
        while size / unit >= 2 * HIDDEN_BIT
            invariant
                size <= SIGN_BIT,
                unit == pow2(doublings as nat),
                1 <= unit <= 2048,
                doublings <= 11,
                spacing(size as nat) == unit * spacing((size / unit) as nat),
            decreases 2048 - unit,
        {
            proof {
                lemma2_to64();
                lemma_pow2_unfold((doublings + 1) as nat);
                lemma_div_denominator(size as int, unit as int, 2);
                assert(unit < 2048) by {
                    if unit == 2048 {
                        assert(size / 2048 <= 0x0010_0000_0000_0000);
                    }
                }
                if doublings >= 11 {
                    if doublings > 11 {
                        lemma_pow2_strictly_increases(11, doublings as nat);
                    }
                }
                assert(unit * 2 <= 2048) by {
                    if doublings < 10 {
                        lemma_pow2_strictly_increases(doublings as nat, 10);
                    }
                }
                let half = ((size / unit) / 2) as nat;
                assert(unit * (2 * spacing(half)) == (unit * 2) * spacing(half)) by (nonlinear_arith);
            }
            unit = unit * 2;
            doublings = doublings + 1;
        }
        let below: u64 = size / unit;
        let rest: u64 = size % unit;
        let rounded: u64 = if 2 * rest < unit || (2 * rest == unit && below % 2 == 0) {
            below
        } else {
            below + 1
        };
        proof {
            lemma_spacing_one(below as nat);
            assert(unit * spacing(below as nat) == unit) by (nonlinear_arith)
                requires
                    spacing(below as nat) == 1,
            ;
            assert(nearest_double(size as nat) == rounded * unit);
        }
        proof {
            let d = doublings as nat;
            lemma_pow2_adds(1074, d);
            assert(rounded * (pow2(1074) * pow2(d)) == (rounded * pow2(d)) * pow2(1074))
                by (nonlinear_arith);
        }
        Self::magnitude_of(rounded, 1075 + doublings)
    }

    pub fn is_nan(&self) -> (result: bool)
        ensures
            result == self.nan(),
    {
        self.bits % SIGN_BIT > INFINITY_BITS
    }

    /// The bits as a signed number that grows with the value; both zeros
    /// give 0.
    fn signed_magnitude(&self) -> (signed: i64)
        ensures
            signed == if self.is_negative() {
                -self.magnitude()
            } else {
                self.magnitude() as int
            },
    {
        let magnitude: u64 = self.bits % SIGN_BIT;
        if self.bits >= SIGN_BIT {
            -(magnitude as i64)
        } else {
            magnitude as i64
        }
    }

    /// Whether this timestamp is later than `other`.
    pub fn is_later(&self, other: &Timestamp) -> (result: bool)
        ensures
            result == self.later(*other),
    {
        proof {
            lemma_units_order(*self, *other);
            lemma_units_order(*other, *self);
        }
        !self.is_nan() && !other.is_nan() && self.signed_magnitude() > other.signed_magnitude()
    }

    /// Whether this timestamp stands before `other` in the total order.
    pub fn ranks_before(&self, other: &Timestamp) -> (result: bool)
        ensures
            result == (self.rank() < other.rank()),
    {
        let mine: u64 = self.bits % SIGN_BIT;
        let theirs: u64 = other.bits % SIGN_BIT;
        if self.bits >= SIGN_BIT {
            other.bits < SIGN_BIT || mine > theirs
        } else {
            other.bits < SIGN_BIT && mine < theirs
        }
    }
}

proof fn lemma_spacing_one(n: nat)
    requires
        n < 2 * HIDDEN_BIT,
    ensures
        spacing(n) == 1,
{
}

/// An exponent field and a significand make up magnitude bits; a significand
/// that overflows carries into the field.
pub proof fn lemma_compose(significand: u64, field: u64)
    requires
        HIDDEN_BIT <= significand <= 2 * HIDDEN_BIT,
        1 <= field,
    ensures
        magnitude_units((field * HIDDEN_BIT + (significand - HIDDEN_BIT)) as nat) == significand
            * pow2((field - 1) as nat),
{
    let magnitude = field * HIDDEN_BIT + (significand - HIDDEN_BIT);
    if significand < 2 * HIDDEN_BIT {
        lemma_fundamental_div_mod_converse(
            magnitude,
            HIDDEN_BIT as int,
            field as int,
            significand - HIDDEN_BIT,
        );
    } else {
        lemma_fundamental_div_mod_converse(magnitude, HIDDEN_BIT as int, field + 1, 0);
        lemma_pow2_unfold(field as nat);
        assert(HIDDEN_BIT * (2 * pow2((field - 1) as nat)) == (2 * HIDDEN_BIT) * pow2(
            (field - 1) as nat,
        )) by (nonlinear_arith);
    }
}

/// Larger magnitude bits stand for larger values.
proof fn lemma_magnitude_units_increase(a: nat, b: nat)
    requires
        a < b,
    ensures
        magnitude_units(a) < magnitude_units(b),
{
    let h = HIDDEN_BIT as nat;
    let (fa, fb) = (a / h, b / h);
    let (ra, rb) = (a % h, b % h);
    lemma_div_is_ordered(a as int, b as int, h as int);
    if fb > 0 {
        lemma_pow2_pos((fb - 1) as nat);
        assert(h * pow2((fb - 1) as nat) <= (h + rb) * pow2((fb - 1) as nat)) by (nonlinear_arith);
        if fa == fb {
            assert((h + ra) * pow2((fb - 1) as nat) < (h + rb) * pow2((fb - 1) as nat))
                by (nonlinear_arith)
                requires
                    ra < rb,
                    pow2((fb - 1) as nat) > 0,
            ;
        } else if fa == 0 {
            assert(h <= h * pow2((fb - 1) as nat)) by (nonlinear_arith)
                requires
                    pow2((fb - 1) as nat) > 0,
            ;
        } else {
            lemma_pow2_pos((fa - 1) as nat);
            lemma_pow2_unfold(fa);
            if fa < fb - 1 {
                lemma_pow2_strictly_increases(fa, (fb - 1) as nat);
            }
            assert((h + ra) * pow2((fa - 1) as nat) < h * (2 * pow2((fa - 1) as nat)))
                by (nonlinear_arith)
                requires
                    ra < h,
                    pow2((fa - 1) as nat) > 0,
            ;
            assert(h * pow2(fa) <= h * pow2((fb - 1) as nat)) by (nonlinear_arith)
                requires
                    pow2(fa) <= pow2((fb - 1) as nat),
            ;
        }
    }
}

/// The value grows with the signed magnitude.
pub proof fn lemma_units_order(a: Timestamp, b: Timestamp)
    ensures
        ({
            let sa = if a.is_negative() {
                -a.magnitude()
            } else {
                a.magnitude() as int
            };
            let sb = if b.is_negative() {
                -b.magnitude()
            } else {
                b.magnitude() as int
            };
            (sa < sb <==> a.units() < b.units()) && (sa == sb <==> a.units() == b.units())
        }),
{
    let (ma, mb) = (a.magnitude(), b.magnitude());
    if ma < mb {
        lemma_magnitude_units_increase(ma, mb);
    } else if mb < ma {
        lemma_magnitude_units_increase(mb, ma);
    }
    if 0 < ma {
        lemma_magnitude_units_increase(0, ma);
    }
    if 0 < mb {
        lemma_magnitude_units_increase(0, mb);
    }
}

/// Magnitude bits are ordered as the values that they stand for.
pub proof fn lemma_magnitudes_ordered(a: nat, b: nat)
    ensures
        a < b <==> magnitude_units(a) < magnitude_units(b),
        a == b <==> magnitude_units(a) == magnitude_units(b),
{
    if a < b {
        lemma_magnitude_units_increase(a, b);
    } else if b < a {
        lemma_magnitude_units_increase(b, a);
    }
}

/// Whether a magnitude is `whole` seconds and the magnitude `rest`, which is
/// less than a second.
spec fn splits(magnitude: u64, whole: int, rest: u64) -> bool {
    &&& whole == magnitude_units(magnitude as nat) as int / units_per_second() as int
    &&& magnitude_units(rest as nat) == magnitude_units(magnitude as nat) as int
        % units_per_second() as int
    &&& magnitude_units(rest as nat) < units_per_second()
}

/// How the value and its floor come from the two parts of the magnitude.
proof fn lemma_split_signed(t: Timestamp, whole: int, rest: u64)
    requires
        splits((t.bits % SIGN_BIT) as u64, whole, rest),
    ensures
        rest == 0 <==> magnitude_units(rest as nat) == 0,
        !t.is_negative() || rest == 0 ==> t.units() % units_per_second() as int == magnitude_units(
            rest as nat,
        ),
        t.is_negative() && rest != 0 ==> t.units() % units_per_second() as int
            == units_per_second() - magnitude_units(rest as nat),
        t.floor() == if !t.is_negative() {
            whole
        } else if rest == 0 {
            -whole
        } else {
            -whole - 1
        },
{
    let second = units_per_second() as int;
    let m = magnitude_units(t.magnitude()) as int;
    let r = magnitude_units(rest as nat) as int;
    lemma_pow2_pos(1074);
    lemma_magnitudes_ordered(0, rest as nat);
    assert(magnitude_units(0) == 0);
    lemma_fundamental_div_mod(m, second);
    if t.is_negative() {
        if rest == 0 {
            assert(-m == (-whole) * second + 0) by (nonlinear_arith)
                requires
                    m == second * whole + r,
                    r == 0,
            ;
            lemma_fundamental_div_mod_converse(-m, second, -whole, 0);
        } else {
            assert(-m == (-whole - 1) * second + (second - r)) by (nonlinear_arith)
                requires
                    m == second * whole + r,
            ;
            lemma_fundamental_div_mod_converse(-m, second, -whole - 1, second - r);
        }
    }
}

/// Magnitudes with a small exponent are less than a second.
proof fn lemma_below_second(magnitude: u64)
    requires
        magnitude / HIDDEN_BIT < 1023,
    ensures
        magnitude_units(magnitude as nat) < units_per_second(),
{
    let one = 1023 * HIDDEN_BIT;
    lemma_compose(HIDDEN_BIT, 1023);
    lemma_pow2_adds(52, 1022);
    lemma2_to64();
    lemma2_to64_rest();
    lemma_magnitude_units_increase(magnitude as nat, one as nat);
}

/// The bits of one half stand for half a second.
proof fn lemma_half()
    ensures
        2 * magnitude_units(HALF_BITS as nat) == units_per_second(),
{
    lemma_compose(HIDDEN_BIT, 1022);
    lemma_pow2_adds(52, 1021);
    lemma_pow2_unfold(1074);
    lemma2_to64();
    lemma2_to64_rest();
}

/// What a magnitude of at least half a second lacks of a second is a multiple
/// of its last place.
proof fn lemma_at_least_half(magnitude: u64)
    requires
        magnitude_units(magnitude as nat) < units_per_second(),
    ensures
        magnitude >= HALF_BITS ==> magnitude_units(magnitude as nat) + (HIDDEN_BIT - magnitude
            % HIDDEN_BIT) * pow2(1021) == units_per_second(),
{
    let one = 1023 * HIDDEN_BIT;
    lemma_compose(HIDDEN_BIT, 1023);
    lemma_pow2_adds(52, 1022);
    lemma_pow2_adds(53, 1021);
    lemma2_to64();
    lemma2_to64_rest();
    lemma_magnitudes_ordered(magnitude as nat, one as nat);
    if magnitude >= HALF_BITS {
        assert(magnitude / HIDDEN_BIT == 1022);
        let rest = (magnitude % HIDDEN_BIT) as int;
        let h = HIDDEN_BIT as int;
        assert((h + rest) * pow2(1021) + (h - rest) * pow2(1021) == (2 * h) * pow2(1021))
            by (nonlinear_arith);
    }
}

/// Two shifts multiply to the power of two of their sum.
proof fn lemma_scale(low: u64, high: u64)
    requires
        low < 64,
        high < 64,
        low + high <= 67,
    ensures
        1u64 << low == pow2(low as nat),
        1u64 << high == pow2(high as nat),
        pow2(low as nat) * pow2(high as nat) == pow2((low + high) as nat),
        0 < pow2((low + high) as nat) <= 0x8_0000_0000_0000_0000,
        low <= 52 && high == 0 ==> pow2(low as nat) <= HIDDEN_BIT,
{
    lemma2_to64();
    lemma2_to64_rest();
    lemma_u64_pow2_no_overflow(low as nat);
    lemma_u64_pow2_no_overflow(high as nat);
    lemma_u64_shl_is_mul(1, low);
    lemma_u64_shl_is_mul(1, high);
    lemma_pow2_adds(low as nat, high as nat);
    lemma_pow2_pos((low + high) as nat);
    lemma_pow2_adds(64, 3);
    if low + high < 67 {
        lemma_pow2_strictly_increases((low + high) as nat, 67);
    }
    if low < 52 {
        lemma_pow2_strictly_increases(low as nat, 52);
    }
}

/// A magnitude with a large exponent is a whole number of seconds.
proof fn lemma_whole_magnitude(magnitude: u64, shift: nat)
    requires
        magnitude / HIDDEN_BIT == 1075 + shift,
    ensures
        splits(magnitude, (HIDDEN_BIT + magnitude % HIDDEN_BIT) * pow2(shift), 0),
{
    let second = units_per_second();
    let significand = (HIDDEN_BIT + magnitude % HIDDEN_BIT) as nat;
    lemma_pow2_pos(1074);
    lemma_pow2_adds(1074, shift);
    assert(significand * (second * pow2(shift)) == (significand * pow2(shift)) * second)
        by (nonlinear_arith);
    lemma_fundamental_div_mod_converse(
        magnitude_units(magnitude as nat) as int,
        second as int,
        (significand * pow2(shift)) as int,
        0,
    );
}

/// The low bits of a significand are the part of a magnitude below a second.
proof fn lemma_cut_magnitude(magnitude: u64, shift: nat)
    requires
        shift <= 1074,
        magnitude / HIDDEN_BIT == 1075 - shift,
    ensures
        ({
            let significand = HIDDEN_BIT + magnitude % HIDDEN_BIT;
            let units = magnitude_units(magnitude as nat) as int;
            let second = units_per_second() as int;
            let step = pow2(shift) as int;
            let rest = (significand % step) * pow2((1074 - shift) as nat);
            &&& units / second == significand / step
            &&& units % second == rest
            &&& rest < second
        }),
{
    let significand = HIDDEN_BIT + magnitude % HIDDEN_BIT;
    let step = pow2(shift) as int;
    let place = pow2((1074 - shift) as nat) as int;
    let second = units_per_second() as int;
    lemma_pow2_pos(shift);
    lemma_pow2_pos((1074 - shift) as nat);
    lemma_pow2_adds((1074 - shift) as nat, shift);
    lemma_fundamental_div_mod(significand, step);
    lemma_mod_bound(significand, step);
    let q = significand / step;
    let r = significand % step;
    assert(significand * place == q * second + r * place && 0 <= r * place < second)
        by (nonlinear_arith)
        requires
            significand == step * q + r,
            second == place * step,
            0 <= r < step,
            place > 0,
    ;
    lemma_fundamental_div_mod_converse(significand * place, second, q, r * place);
}

/// Beyond `2^120` seconds a magnitude is further from a smaller one than the
/// length of the whole range of `i64`.
proof fn lemma_large_step(a: u64, b: u64)
    requires
        a < b,
        b >= LARGE_BITS,
    ensures
        magnitude_units(b as nat) - magnitude_units(a as nat) >= 0x1_0000_0000_0000_0000
            * units_per_second(),
{
    let before = (b - 1) as u64;
    let field = before / HIDDEN_BIT;
    let significand = (HIDDEN_BIT + before % HIDDEN_BIT) as u64;
    lemma_compose(significand, field);
    lemma_compose((significand + 1) as u64, field);
    assert(field >= 1142);
    assert(field * HIDDEN_BIT + (significand - HIDDEN_BIT) == before);
    lemma_magnitudes_ordered(a as nat, before as nat);
    let place = pow2((field - 1) as nat) as int;
    assert((significand + 1) * place == significand * place + place) by (nonlinear_arith);
    lemma2_to64();
    lemma_pow2_adds(64, 1074);
    lemma_pow2_strictly_increases(1138, (field - 1) as nat);
}

/// A value beyond `2^120` lies outside the range of `i64`.
proof fn lemma_large_floor(t: Timestamp)
    requires
        t.magnitude() >= LARGE_BITS,
    ensures
        t.is_negative() ==> t.floor() <= i64::MIN,
        !t.is_negative() ==> t.floor() >= i64::MAX,
{
    let second = units_per_second() as int;
    lemma_pow2_pos(1074);
    lemma_large_step(0, (t.bits % SIGN_BIT) as u64);
    assert(magnitude_units(0) == 0);
    let bound = 0x1_0000_0000_0000_0000int;
    if t.is_negative() {
        lemma_div_is_ordered(t.units(), -(bound * second), second);
        assert(-(bound * second) == (-bound) * second + 0) by (nonlinear_arith);
        lemma_fundamental_div_mod_converse(-(bound * second), second, -bound, 0);
    } else {
        lemma_div_is_ordered(bound * second, t.units(), second);
        lemma_fundamental_div_mod_converse(bound * second, second, bound, 0);
    }
}

/// Where one of two values is beyond `2^120`, only their order decides whether
/// they are within a distance of each other.
proof fn lemma_large_apart(t: Timestamp, earlier: Timestamp, gap: int)
    requires
        t.magnitude() >= LARGE_BITS || earlier.magnitude() >= LARGE_BITS,
        i64::MIN <= gap <= i64::MAX,
    ensures
        (t.units() <= earlier.units() + gap * units_per_second()) <==> (t.units()
            < earlier.units() || (t.units() == earlier.units() && gap >= 0)),
        ({
            let here = if t.is_negative() {
                -t.magnitude()
            } else {
                t.magnitude() as int
            };
            let there = if earlier.is_negative() {
                -earlier.magnitude()
            } else {
                earlier.magnitude() as int
            };
            (here < there <==> t.units() < earlier.units()) && (here == there <==> t.units()
                == earlier.units())
        }),
{
    let second = units_per_second() as int;
    let bound = 0x1_0000_0000_0000_0000 * second;
    let (a, b) = ((t.bits % SIGN_BIT) as u64, (earlier.bits % SIGN_BIT) as u64);
    lemma_pow2_pos(1074);
    lemma_units_order(t, earlier);
    assert(-bound < gap * second < bound && (gap >= 0 <==> gap * second >= 0))
        by (nonlinear_arith)
        requires
            bound == 0x1_0000_0000_0000_0000 * second,
            second > 0,
            i64::MIN <= gap <= i64::MAX,
    ;
    assert(magnitude_units(0) == 0);
    if a >= LARGE_BITS {
        lemma_large_step(0, a);
    }
    if b >= LARGE_BITS {
        lemma_large_step(0, b);
    }
    if a < b {
        lemma_large_step(a, b);
    } else if b < a {
        lemma_large_step(b, a);
    }
}

/// Whether two values are within a distance of each other, by their seconds
/// and then by how far they lie into them.
proof fn lemma_distance(t: Timestamp, earlier: Timestamp, gap: int)
    ensures
        (t.units() <= earlier.units() + gap * units_per_second()) <==> (t.floor() - earlier.floor()
            < gap || (t.floor() - earlier.floor() == gap && t.units() % units_per_second() as int
            <= earlier.units() % units_per_second() as int)),
{
    let second = units_per_second() as int;
    lemma_pow2_pos(1074);
    lemma_fundamental_div_mod(t.units(), second);
    lemma_fundamental_div_mod(earlier.units(), second);
    lemma_mod_bound(t.units(), second);
    lemma_mod_bound(earlier.units(), second);
    let d = t.floor() - earlier.floor() - gap;
    let (x, y) = (t.units() % second, earlier.units() % second);
    assert(t.units() - earlier.units() - gap * second == d * second + x - y) by (nonlinear_arith)
        requires
            t.units() == second * t.floor() + x,
            earlier.units() == second * earlier.floor() + y,
            d == t.floor() - earlier.floor() - gap,
    ;
    if d < 0 {
        assert(d * second <= -second) by (nonlinear_arith)
            requires
                d <= -1,
                second > 0,
        ;
    } else if d > 0 {
        assert(d * second >= second) by (nonlinear_arith)
            requires
                d >= 1,
                second > 0,
        ;
    } else {
        assert(d * second == 0) by (nonlinear_arith)
            requires
                d == 0,
        ;
    }
}

} // verus!
