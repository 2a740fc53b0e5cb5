use vstd::prelude::*;

verus! {

/// A non-negative span of time with microsecond resolution.
#[derive(Clone, Copy, Debug, PartialEq, Eq, Hash)]
pub struct Duration {
    micros: i64,
}

impl View for Duration {
    type V = nat;

    /// The span in whole microseconds.
    closed spec fn view(&self) -> nat {
        if self.micros >= 0 {
            self.micros as nat
        } else {
            0
        }
    }
}

impl Duration {
    #[verifier::type_invariant]
    spec fn inv(self) -> bool {
        self.micros >= 0
    }

    /// A span of `micros` microseconds.
    pub fn microseconds(micros: i64) -> (r: Duration)
        requires
            micros >= 0,
        ensures
            r@ == micros,
    {
        Duration { micros }
    }

    /// The empty span.
    pub fn zero() -> (r: Duration)
        ensures
            r@ == 0,
    {
        Duration { micros: 0 }
    }

    /// Every span fits in an `i64` count of microseconds.
    pub proof fn lemma_bounded(d: Duration)
        ensures
            d@ <= i64::MAX,
    {
    }

    pub fn whole_microseconds(&self) -> (r: i128)
        ensures
            r == self@,
            r <= i64::MAX,
    {
        proof {
            use_type_invariant(self);
        }
        self.micros as i128
    }

    /// The span truncated to whole milliseconds.
    pub fn whole_milliseconds(&self) -> (r: i128)
        ensures
            r == self@ / 1000,
    {
        proof {
            use_type_invariant(self);
        }
        (self.micros / 1000) as i128
    }
}

} // verus!
