use vstd::arithmetic::div_mod::*;
use vstd::arithmetic::power2::*;
use vstd::prelude::*;

use crate::timestamp;
use crate::timestamp::Timestamp;
use crate::window::Window;

verus! {

/// Where a watermark is after a timestamp: at the timestamp if that is later,
/// else where it was.
pub open spec fn advanced(position: Timestamp, timestamp: Timestamp) -> Timestamp {
    if timestamp.later(position) {
        timestamp
    } else {
        position
    }
}

/// Where a watermark is after a sequence of timestamps.
pub open spec fn advanced_over(position: Timestamp, timestamps: Seq<Timestamp>) -> Timestamp
    decreases timestamps.len(),
{
    if timestamps.len() == 0 {
        position
    } else {
        advanced(advanced_over(position, timestamps.drop_last()), timestamps.last())
    }
}

/// Whether a watermark at `position` has reached the end of a window.
pub open spec fn completes(position: Timestamp, window: Window) -> bool {
    position.units() >= window.end * timestamp::units_per_second()
}

/// How far event time has progressed. A window is complete once the watermark
/// has reached its end.
pub struct Watermark {
    current: Timestamp,
}

impl Watermark {
    #[verifier::type_invariant]
    spec fn inv(self) -> bool {
        !self.current.nan() && self.current.units() >= 0
    }

    /// The position of the watermark.
    pub closed spec fn view(&self) -> Timestamp {
        self.current
    }

    /// A watermark at time zero.
    pub fn new() -> (watermark: Self)
        ensures
            watermark@.bits == 0,
    {
        Watermark { current: Timestamp { bits: 0 } }
    }

    /// Moves the watermark to a timestamp that is later than it; any other
    /// timestamp, a NaN among them, leaves it where it is.
    pub fn advance(&mut self, timestamp: Timestamp)
        ensures
            final(self)@ == advanced(old(self)@, timestamp),
            final(self)@.units() >= old(self)@.units(),
            timestamp.nan() || final(self)@.units() >= timestamp.units(),
    {
        proof {
            use_type_invariant(&*self);
        }
        if timestamp.is_later(&self.current) {
            self.current = timestamp;
        }
    }

    /// Whether the watermark has reached the end of a window.
    pub fn is_window_complete(&self, window: &Window) -> (complete: bool)
        ensures
            complete == completes(self@, *window),
    {
        proof {
            use_type_invariant(self);
            lemma_reaches(self.current, window.end as int);
        }
        self.current.seconds() >= window.end
    }

    /// The position of the watermark: never a NaN, never before time zero.
    pub fn current(&self) -> (current: Timestamp)
        ensures
            current == self@,
            !current.nan(),
            current.units() >= 0,
    {
        proof {
            use_type_invariant(self);
        }
        self.current
    }
}

/// A value has reached the start of a second exactly if it lies in that second
/// or a later one.
pub proof fn lemma_reaches(position: Timestamp, end: int)
    requires
        !position.nan(),
        position.units() >= 0,
        end <= i64::MAX,
    ensures
        position.units() >= end * timestamp::units_per_second() <==> position.secs() >= end,
{
    let second = timestamp::units_per_second() as int;
    let units = position.units();
    let floor = position.floor();
    lemma_pow2_pos(1074);
    lemma_fundamental_div_mod(units, second);
    lemma_mod_bound(units, second);
    lemma_div_pos_is_pos(units, second);
    if end <= floor {
        assert(end * second <= second * floor) by (nonlinear_arith)
            requires
                end <= floor,
                second > 0,
        ;
    } else {
        assert(end * second >= second * floor + second) by (nonlinear_arith)
            requires
                end >= floor + 1,
                second > 0,
        ;
    }
}

} // verus!
