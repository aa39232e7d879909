//! Spans of time and the one-shot countdown that deadlines are built on.

use vstd::prelude::*;

verus! {

/// Nanoseconds in one second.
pub const NANOS_PER_SEC: u32 = 1_000_000_000;

/// A span of time, held as whole seconds and the nanoseconds beyond them,
/// as `std::time::Duration` reports them.
#[derive(Clone, Copy, Debug)]
pub struct TimeSpan {
    secs: u64,
    nanos: u32,
}

/// The longest span that can be held, in nanoseconds.
pub open spec fn max_total() -> nat {
    (u64::MAX as nat) * (NANOS_PER_SEC as nat) + (NANOS_PER_SEC as nat - 1) as nat
}

/// The sum of two spans, held at the longest span where it would pass it.
pub open spec fn saturating_sum(a: nat, b: nat) -> nat {
    if a + b > max_total() {
        max_total()
    } else {
        a + b
    }
}

/// One advance of a one-shot countdown of length `duration` that has run for
/// `elapsed`: the time it has run for afterwards, never beyond `duration`, and
/// whether this advance brought it to its end.
pub open spec fn countdown_tick(duration: nat, elapsed: nat, delta: nat) -> (nat, bool) {
    let reached = saturating_sum(elapsed, delta);
    if reached >= duration {
        (duration, true)
    } else {
        (reached, false)
    }
}

/// A countdown that has not come to its end counts two advances as one
/// advance by their sum.
pub proof fn lemma_countdown_accumulates(duration: nat, elapsed: nat, first: nat, second: nat)
    requires
        !countdown_tick(duration, elapsed, first).1,
    ensures
        countdown_tick(duration, countdown_tick(duration, elapsed, first).0, second)
            == countdown_tick(duration, elapsed, first + second),
{
}

/// A countdown comes to its end on the advance that brings the time it has
/// run for up to its length, and never runs beyond its length.
pub proof fn lemma_countdown_ends(duration: nat, elapsed: nat, delta: nat)
    requires
        duration <= max_total(),
    ensures
        countdown_tick(duration, elapsed, delta).1 <==> elapsed + delta >= duration,
        countdown_tick(duration, elapsed, delta).0 <= duration,
        !countdown_tick(duration, elapsed, delta).1 ==> countdown_tick(duration, elapsed, delta).0
            == elapsed + delta,
{
}

impl TimeSpan {
    /// The nanosecond part stays below one second.
    #[verifier::type_invariant]
    pub closed spec fn wf(self) -> bool {
        self.nanos < NANOS_PER_SEC
    }

    /// The span as a number of nanoseconds.
    pub closed spec fn total(self) -> nat {
        (self.secs as nat) * (NANOS_PER_SEC as nat) + (self.nanos as nat)
    }

    /// The span that is `total` nanoseconds long.
    pub closed spec fn from_total(total: nat) -> TimeSpan {
        TimeSpan {
            secs: (total / (NANOS_PER_SEC as nat)) as u64,
            nanos: (total % (NANOS_PER_SEC as nat)) as u32,
        }
    }

    /// The span of `secs` seconds and `nanos` nanoseconds; `None` where
    /// `nanos` is a second or more.
    pub fn new(secs: u64, nanos: u32) -> (r: Option<TimeSpan>)
        ensures
            r is Some <==> nanos < NANOS_PER_SEC,
            r matches Some(t) ==> t.wf() && t.total() == secs as nat * NANOS_PER_SEC as nat
                + nanos as nat,
    {
        if nanos < NANOS_PER_SEC {
            Some(TimeSpan { secs, nanos })
        } else {
            None
        }
    }

    /// The empty span.
    pub fn zero() -> (r: TimeSpan)
        ensures
            r.wf(),
            r.total() == 0,
    {
        TimeSpan { secs: 0, nanos: 0 }
    }

    /// A span of whole seconds.
    pub fn from_secs(secs: u64) -> (r: TimeSpan)
        ensures
            r.wf(),
            r.total() == secs as nat * NANOS_PER_SEC as nat,
    {
        TimeSpan { secs, nanos: 0 }
    }

    /// The whole seconds of the span.
    pub fn as_secs(&self) -> (r: u64)
        ensures
            r as nat == self.total() / (NANOS_PER_SEC as nat),
    {
        proof {
            use_type_invariant(self);
            lemma_split(self.secs as nat, self.nanos as nat);
        }
        self.secs
    }

    /// The nanoseconds beyond the whole seconds.
    pub fn subsec_nanos(&self) -> (r: u32)
        ensures
            r < NANOS_PER_SEC,
            r as nat == self.total() % (NANOS_PER_SEC as nat),
    {
        proof {
            use_type_invariant(self);
            lemma_split(self.secs as nat, self.nanos as nat);
        }
        self.nanos
    }

    /// A span is the one that is as many nanoseconds long as it is.
    pub proof fn lemma_from_total_of_total(self)
        requires
            self.wf(),
        ensures
            TimeSpan::from_total(self.total()) == self,
    {
        lemma_split(self.secs as nat, self.nanos as nat);
    }

    /// The span that is `total` nanoseconds long is that long, up to the
    /// longest span.
    pub proof fn lemma_total_of_from_total(total: nat)
        requires
            total <= max_total(),
        ensures
            TimeSpan::from_total(total).wf(),
            TimeSpan::from_total(total).total() == total,
    {
        let unit = NANOS_PER_SEC as nat;
        vstd::arithmetic::div_mod::lemma_fundamental_div_mod(total as int, unit as int);
        assert(total / unit <= u64::MAX) by (nonlinear_arith)
            requires
                total <= (u64::MAX as nat) * unit + (unit - 1),
                unit > 0,
        ;
        assert(unit * (total / unit) == (total / unit) * unit) by (nonlinear_arith);
    }

    /// No span is longer than the longest one.
    pub proof fn lemma_total_bounded(self)
        requires
            self.wf(),
        ensures
            self.total() <= max_total(),
    {
        let unit = NANOS_PER_SEC as nat;
        assert((self.secs as nat) * unit <= (u64::MAX as nat) * unit) by (nonlinear_arith)
            requires
                self.secs as nat <= u64::MAX as nat,
        ;
    }
}

/// Seconds and nanoseconds are the quotient and remainder of the total.
proof fn lemma_split(secs: nat, nanos: nat)
    requires
        nanos < NANOS_PER_SEC as nat,
    ensures
        (secs * (NANOS_PER_SEC as nat) + nanos) / (NANOS_PER_SEC as nat) == secs,
        (secs * (NANOS_PER_SEC as nat) + nanos) % (NANOS_PER_SEC as nat) == nanos,
{
    vstd::arithmetic::div_mod::lemma_fundamental_div_mod_converse(
        (secs * (NANOS_PER_SEC as nat) + nanos) as int,
        NANOS_PER_SEC as int,
        secs as int,
        nanos as int,
    );
}

/// Advances a one-shot `bevy::time::Timer` of length `duration`, on which
/// `elapsed` has already run, by `delta`: `Timer::new` in `TimerMode::Once`,
/// `Timer::set_elapsed`, `Timer::tick`, then `Timer::just_finished` and
/// `Timer::elapsed`.
///
/// Not proved. A timer that has not finished adds `delta` to its elapsed time
/// by `Duration::saturating_add`; where that reaches the duration, the timer
/// clamps its elapsed time there and reports that it has just finished.
#[verifier::external_body]
pub(crate) fn tick_once(duration: TimeSpan, elapsed: TimeSpan, delta: TimeSpan) -> (r: (
    TimeSpan,
    bool,
))
    requires
        duration.wf(),
        elapsed.wf(),
        delta.wf(),
    ensures
        r.0.wf(),
        r.0.total() == countdown_tick(duration.total(), elapsed.total(), delta.total()).0,
        r.1 == countdown_tick(duration.total(), elapsed.total(), delta.total()).1,
{
    let mut timer = bevy::time::Timer::new(
        std::time::Duration::new(duration.secs, duration.nanos),
        bevy::time::TimerMode::Once,
    );
    timer.set_elapsed(std::time::Duration::new(elapsed.secs, elapsed.nanos));
    let finished = timer.tick(std::time::Duration::new(delta.secs, delta.nanos)).just_finished();
    let run = timer.elapsed();
    (TimeSpan { secs: run.as_secs(), nanos: run.subsec_nanos() }, finished)
}

} // verus!
