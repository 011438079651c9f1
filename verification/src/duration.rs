//! A span of time with nanosecond precision, as used for track lengths,
//! playback positions and library filters.
use vstd::prelude::*;

verus! {

/// Nanoseconds in one second.
pub const NANOS_PER_SEC: u64 = 1_000_000_000;

/// Nanoseconds in one millisecond.
pub const NANOS_PER_MILLI: u64 = 1_000_000;

/// Largest number of nanoseconds a `Duration` can hold.
pub open spec fn max_nanos() -> nat {
    (u64::MAX as nat) * (NANOS_PER_SEC as nat) + ((NANOS_PER_SEC - 1) as nat)
}

/// A non-negative span of time: whole seconds plus a sub-second part in nanoseconds.
#[derive(Clone, Copy, Debug, PartialEq, Eq, Structural, PartialOrd, Ord, Hash)]
pub struct Duration {
    secs: u64,
    nanos: u32,
}

impl Duration {
    #[verifier::type_invariant]
    spec fn inv(self) -> bool {
        self.nanos < NANOS_PER_SEC
    }

    /// The whole span in nanoseconds.
    pub closed spec fn spec_nanos(self) -> nat {
        (self.secs as nat) * (NANOS_PER_SEC as nat) + (self.nanos as nat)
    }

    /// The span of zero length.
    pub fn zero() -> (d: Duration)
        ensures
            d@ == 0,
    {
        Duration { secs: 0, nanos: 0 }
    }

    /// `secs` whole seconds.
    pub fn from_secs(secs: u64) -> (d: Duration)
        ensures
            d@ == secs * NANOS_PER_SEC,
    {
        Duration { secs, nanos: 0 }
    }

    /// `millis` milliseconds.
    pub fn from_millis(millis: u64) -> (d: Duration)
        ensures
            d@ == millis * NANOS_PER_MILLI,
    {
        let secs: u64 = millis / 1000;
        let rem: u64 = millis % 1000;
        let nanos: u32 = (rem * 1_000_000) as u32;
        let d = Duration { secs, nanos };
        assert(d.spec_nanos() == millis * NANOS_PER_MILLI) by (nonlinear_arith)
            requires
                secs == millis / 1000,
                rem == millis % 1000,
                nanos == rem * 1_000_000,
                d.spec_nanos() == secs * 1_000_000_000 + nanos,
        ;
        d
    }

    /// `secs` seconds plus `nanos` nanoseconds; nanoseconds beyond a second carry into the seconds.
    pub fn new(secs: u64, nanos: u32) -> (d: Duration)
        requires
            secs + (nanos as nat) / (NANOS_PER_SEC as nat) <= u64::MAX,
        ensures
            d@ == secs * NANOS_PER_SEC + nanos,
    {
        let carry: u64 = (nanos / 1_000_000_000) as u64;
        let sub: u32 = nanos % 1_000_000_000;
        let d = Duration { secs: secs + carry, nanos: sub };
        assert(d.spec_nanos() == secs * NANOS_PER_SEC + nanos) by (nonlinear_arith)
            requires
                carry == nanos / 1_000_000_000,
                sub == nanos % 1_000_000_000,
                d.spec_nanos() == (secs + carry) * 1_000_000_000 + sub,
        ;
        d
    }

    /// Whole seconds in the span (the sub-second part is dropped).
    pub fn as_secs(&self) -> (s: u64)
        ensures
            s == self@ / (NANOS_PER_SEC as nat),
    {
        proof {
            use_type_invariant(self);
            lemma_split(self.secs as nat, self.nanos as nat);
        }
        self.secs
    }

    /// The sub-second part in nanoseconds.
    pub fn subsec_nanos(&self) -> (n: u32)
        ensures
            n == self@ % (NANOS_PER_SEC as nat),
    {
        proof {
            use_type_invariant(self);
            lemma_split(self.secs as nat, self.nanos as nat);
        }
        self.nanos
    }

    /// The whole span in milliseconds (rounded down).
    pub fn as_millis(&self) -> (m: u128)
        ensures
            m == self@ / (NANOS_PER_MILLI as nat),
    {
        proof {
            use_type_invariant(self);
        }
        let m: u128 = (self.secs as u128) * 1000 + (self.nanos / 1_000_000) as u128;
        assert(m == self.spec_nanos() / 1_000_000) by (nonlinear_arith)
            requires
                m == (self.secs as nat) * 1000 + (self.nanos as nat) / 1_000_000,
                self.spec_nanos() == (self.secs as nat) * 1_000_000_000 + (self.nanos as nat),
                self.nanos < 1_000_000_000,
        ;
        m
    }

    /// The whole span in nanoseconds.
    pub fn as_nanos(&self) -> (n: u128)
        ensures
            n == self@,
    {
        proof {
            use_type_invariant(self);
        }
        (self.secs as u128) * 1_000_000_000 + (self.nanos as u128)
    }

    /// Whether the span has zero length.
    pub fn is_zero(&self) -> (z: bool)
        ensures
            z == (self@ == 0),
    {
        self.secs == 0 && self.nanos == 0
    }

    /// A span of exactly `n` nanoseconds; `n` must not exceed the largest representable span.
    pub fn from_nanos_exact(n: u128) -> (d: Duration)
        requires
            n <= max_nanos(),
        ensures
            d@ == n,
    {
        let secs_wide: u128 = n / 1_000_000_000;
        let rem: u128 = n % 1_000_000_000;
        assert(secs_wide <= u64::MAX) by (nonlinear_arith)
            requires
                secs_wide == n / 1_000_000_000,
                n <= (u64::MAX as nat) * 1_000_000_000 + 999_999_999,
        ;
        let d = Duration { secs: secs_wide as u64, nanos: rem as u32 };
        assert(d.spec_nanos() == n) by (nonlinear_arith)
            requires
                secs_wide == n / 1_000_000_000,
                rem == n % 1_000_000_000,
                d.spec_nanos() == secs_wide * 1_000_000_000 + rem,
        ;
        d
    }
}

/// Nanoseconds in `num / den` seconds, rounded to the nearest nanosecond (halves round up).
pub open spec fn ratio_nanos(num: nat, den: nat) -> nat
    recommends
        den > 0,
{
    (2 * num * (NANOS_PER_SEC as nat) + den) / (2 * den)
}

impl Duration {
    /// The span of `num / den` seconds, to the nearest nanosecond.
    pub fn from_ratio(num: u64, den: u64) -> (d: Duration)
        requires
            den > 0,
        ensures
            d@ == ratio_nanos(num as nat, den as nat),
    {
        let scaled: u128 = (num as u128) * 1_000_000_000;
        let twice: u128 = 2 * scaled + (den as u128);
        let dd: u128 = 2 * (den as u128);
        let q: u128 = twice / dd;
        assert(q <= scaled + 1) by (nonlinear_arith)
            requires
                twice == 2 * scaled + den,
                dd == 2 * den,
                q == twice / dd,
                den >= 1,
        {
            assert(twice <= dd * (scaled + 1));
            vstd::arithmetic::div_mod::lemma_div_is_ordered(twice as int, (dd * (scaled + 1)) as int, dd as int);
            vstd::arithmetic::div_mod::lemma_div_by_multiple((scaled + 1) as int, dd as int);
        }
        assert(scaled <= (u64::MAX as nat) * 1_000_000_000) by (nonlinear_arith)
            requires
                scaled == num * 1_000_000_000,
                num <= u64::MAX,
        ;
        Duration::from_nanos_exact(q)
    }
}

impl View for Duration {
    type V = nat;

    closed spec fn view(&self) -> nat {
        self.spec_nanos()
    }
}

proof fn lemma_split(secs: nat, nanos: nat)
    requires
        nanos < NANOS_PER_SEC,
    ensures
        (secs * (NANOS_PER_SEC as nat) + nanos) / (NANOS_PER_SEC as nat) == secs,
        (secs * (NANOS_PER_SEC as nat) + nanos) % (NANOS_PER_SEC as nat) == nanos,
{
    vstd::arithmetic::div_mod::lemma_fundamental_div_mod_converse(
        (secs * (NANOS_PER_SEC as nat) + nanos) as int,
        NANOS_PER_SEC as int,
        secs as int,
        nanos as int,
    );
}

} // verus!
