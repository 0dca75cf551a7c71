//! The monotonic clock: a free-running hardware counter widened to a tick.
//!
//! The hardware counter runs from zero to `period - 1` and then starts over,
//! raising an overflow event. The clock counts the overflows it has been told
//! of and combines them with a counter reading into a [`Tick`]. It never reads
//! hardware itself: the caller hands in a [`Reading`].

use vstd::prelude::*;
use vstd::arithmetic::div_mod::*;
use crate::error::ConfigError;
use crate::tick::{half_range, lemma_reached_exclusive, tick_range, Tick};

verus! {

/// The largest period a hardware counter may have: a 32-bit counter.
pub const MAX_PERIOD: u64 = 0x1_0000_0000;

/// One consistent look at the hardware counter.
#[derive(Clone, Copy, Debug, PartialEq, Eq, Structural)]
pub struct Reading {
    /// The counter's value.
    pub counter: u32,
    /// Whether the counter has overflowed and the clock was not told yet.
    pub overflow_pending: bool,
}

impl Reading {
    /// The reading that two captures of the counter give, with one look at
    /// the overflow event in between. If the second capture is below the
    /// first, the counter wrapped between them: then the second capture
    /// counts, with its overflow pending whatever the look said.
    pub open spec fn spec_from_captures(first: u32, overflow_seen: bool, second: u32) -> Reading {
        if second < first {
            Reading { counter: second, overflow_pending: true }
        } else {
            Reading { counter: first, overflow_pending: overflow_seen }
        }
    }

    /// Makes one consistent reading out of two captures of the running
    /// counter and one look at its overflow event, taken in this order:
    /// capture, look, capture.
    #[verifier::when_used_as_spec(spec_from_captures)]
    pub fn from_captures(first: u32, overflow_seen: bool, second: u32) -> (r: Reading)
        ensures
            r == Self::spec_from_captures(first, overflow_seen, second),
    {
        if second < first {
            Reading { counter: second, overflow_pending: true }
        } else {
            Reading { counter: first, overflow_pending: overflow_seen }
        }
    }
}

/// What the timer hardware has to do for the wake that is armed.
#[derive(Clone, Copy, Debug, PartialEq, Eq, Structural)]
pub enum WakeAction {
    /// No wake is armed: switch the compare interrupt off.
    Disarm,
    /// The tick has been reached already: raise the interrupt at once.
    FireNow,
    /// The tick falls into the counter's current run: raise the interrupt when
    /// the counter holds this value.
    Compare(u32),
    /// The tick lies beyond the counter's current run: wait for the overflow
    /// and ask again.
    AwaitOverflow,
}

/// The clock as a mathematical value.
pub ghost struct ClockView {
    pub period: nat,
    pub overflows: nat,
    pub wake: Option<Tick>,
}

impl ClockView {
    /// The number of overflows to count with at reading `r`.
    pub open spec fn overflows_at(self, r: Reading) -> int {
        self.overflows as int + if r.overflow_pending { 1int } else { 0int }
    }

    /// The tick at reading `r`.
    pub open spec fn now(self, r: Reading) -> Tick {
        Tick(
            ((self.overflows_at(r) * self.period as int + r.counter as int % self.period as int)
                % tick_range()) as u64,
        )
    }

    /// Whether the clock and the reading `r` are what they have to be after
    /// the hardware counter has counted `elapsed` times since it started.
    pub open spec fn tracks(self, r: Reading, elapsed: nat) -> bool {
        &&& r.counter as int == elapsed as int % self.period as int
        &&& self.overflows_at(r) % tick_range() == (elapsed as int / self.period as int)
            % tick_range()
    }

    /// What the hardware has to do for a wake at `at`, seen from reading `r`.
    pub open spec fn action_for(self, at: Tick, r: Reading) -> WakeAction {
        let now = self.now(r);
        let run = r.counter as int % self.period as int + at.spec_since(now);
        if now.spec_reached(at) {
            WakeAction::FireNow
        } else if run < self.period as int {
            WakeAction::Compare(run as u32)
        } else {
            WakeAction::AwaitOverflow
        }
    }

    /// What the hardware has to do for the armed wake, if any.
    pub open spec fn pending_action(self, r: Reading) -> WakeAction {
        match self.wake {
            Some(at) => self.action_for(at, r),
            None => WakeAction::Disarm,
        }
    }

    /// The period is one the hardware can have, and the overflow count fits
    /// the tick width.
    pub open spec fn wf(self) -> bool {
        &&& 2 <= self.period <= MAX_PERIOD
        &&& self.overflows < tick_range()
    }

    /// The clock after it has taken note of one overflow.
    pub open spec fn after_overflow(self) -> ClockView {
        ClockView { overflows: ((self.overflows as int + 1) % tick_range()) as nat, ..self }
    }

    /// Whether a wake is armed whose tick has been reached at reading `r`.
    pub open spec fn due(self, r: Reading) -> bool {
        self.wake matches Some(at) && self.now(r).spec_reached(at)
    }
}

/// Extends a hardware counter of a given period to the full tick width.
pub struct MonotonicClock {
    period: u64,
    overflows: u64,
    wake: Option<Tick>,
}

impl View for MonotonicClock {
    type V = ClockView;

    closed spec fn view(&self) -> ClockView {
        ClockView { period: self.period as nat, overflows: self.overflows as nat, wake: self.wake }
    }
}

impl MonotonicClock {
    /// The clock is one that `new` hands out.
    pub open spec fn wf(&self) -> bool {
        self@.wf()
    }

    /// A clock for a counter that starts over every `period` counts. No
    /// overflow has been seen and no wake is armed.
    pub fn new(period: u64) -> (res: Result<MonotonicClock, ConfigError>)
        ensures
            match res {
                Ok(clock) => {
                    &&& 2 <= period <= MAX_PERIOD
                    &&& clock.wf()
                    &&& clock@ == (ClockView { period: period as nat, overflows: 0, wake: None })
                },
                Err(e) => {
                    &&& !(2 <= period <= MAX_PERIOD)
                    &&& e == (ConfigError::ClockPeriod { period })
                },
            },
    {
        if period < 2 || period > MAX_PERIOD {
            Err(ConfigError::ClockPeriod { period })
        } else {
            Ok(MonotonicClock { period, overflows: 0, wake: None })
        }
    }

    /// The number of counts after which the hardware counter starts over.
    pub fn period(&self) -> (p: u64)
        ensures
            p == self@.period,
    {
        self.period
    }

    /// The wake that is armed, if any.
    pub fn wake(&self) -> (w: Option<Tick>)
        ensures
            w == self@.wake,
    {
        self.wake
    }

    /// The current tick, from one reading of the hardware counter.
    pub fn now(&self, r: Reading) -> (t: Tick)
        requires
            self.wf(),
        ensures
            t == self@.now(r),
    {
        let seen: u64 = if r.overflow_pending {
            self.overflows.wrapping_add(1)
        } else {
            self.overflows
        };
        let base: u64 = seen.wrapping_mul(self.period);
        let within: u64 = (r.counter as u64) % self.period;
        proof {
            let m = tick_range();
            let ov = self@.overflows_at(r);
            let p = self.period as int;
            assert(seen as int == ov % m);
            assert(seen as nat * self.period as nat == seen as int * p) by (nonlinear_arith)
                requires
                    p == self.period as int,
            ;
            lemma_mul_mod_noop_left(ov, p, m);
            assert(base as int == (ov * p) % m);
            lemma_add_mod_noop(ov * p, within as int, m);
            lemma_small_mod(within as nat, m as nat);
        }
        Tick(base.wrapping_add(within))
    }

    /// Takes note of one overflow of the hardware counter. The caller clears
    /// the hardware's overflow event.
    pub fn on_overflow(&mut self)
        requires
            old(self).wf(),
        ensures
            final(self).wf(),
            final(self)@ == old(self)@.after_overflow(),
    {
        self.overflows = self.overflows.wrapping_add(1);
    }

    /// Arms a wake at `at` and says what the hardware has to do for it. A tick
    /// that has been reached already asks for the interrupt at once, not one
    /// wraparound later.
    pub fn schedule_wake(&mut self, at: Tick, r: Reading) -> (action: WakeAction)
        requires
            old(self).wf(),
        ensures
            final(self).wf(),
            final(self)@ == (ClockView { wake: Some(at), ..old(self)@ }),
            action == old(self)@.action_for(at, r),
    {
        self.wake = Some(at);
        self.action_for(at, r)
    }

    /// Drops the armed wake, if any.
    pub fn cancel_wake(&mut self)
        requires
            old(self).wf(),
        ensures
            final(self).wf(),
            final(self)@ == (ClockView { wake: None, ..old(self)@ }),
    {
        self.wake = None;
    }

    /// What the hardware has to do for the armed wake, seen from reading `r`.
    /// The timer's interrupt handler asks this after an overflow.
    pub fn pending_action(&self, r: Reading) -> (action: WakeAction)
        requires
            self.wf(),
        ensures
            action == self@.pending_action(r),
    {
        match self.wake {
            Some(at) => self.action_for(at, r),
            None => WakeAction::Disarm,
        }
    }

    /// The check made when the timer's interrupt arrives: hands out the armed
    /// wake if its tick has been reached, and disarms it.
    pub fn take_due(&mut self, r: Reading) -> (fired: Option<Tick>)
        requires
            old(self).wf(),
        ensures
            final(self).wf(),
            old(self)@.due(r) ==> fired == old(self)@.wake && final(self)@ == (ClockView {
                wake: None,
                ..old(self)@
            }),
            !old(self)@.due(r) ==> fired.is_none() && final(self)@ == old(self)@,
    {
        match self.wake {
            Some(at) => {
                if self.now(r).reached(at) {
                    self.wake = None;
                    Some(at)
                } else {
                    None
                }
            },
            None => None,
        }
    }

    fn action_for(&self, at: Tick, r: Reading) -> (action: WakeAction)
        requires
            self.wf(),
        ensures
            action == self@.action_for(at, r),
    {
        let now = self.now(r);
        if now.reached(at) {
            WakeAction::FireNow
        } else {
            let left: u64 = at.since(now);
            let within: u64 = (r.counter as u64) % self.period;
            proof {
                lemma_reached_exclusive(now, at);
            }
            if left < self.period - within {
                WakeAction::Compare((within + left) as u32)
            } else {
                WakeAction::AwaitOverflow
            }
        }
    }
}

/// A clock that tracks the hardware counter reports the counts elapsed since
/// the counter started, modulo the tick range.
pub proof fn lemma_now_is_elapsed(clock: ClockView, r: Reading, elapsed: nat)
    requires
        clock.wf(),
        clock.tracks(r, elapsed),
    ensures
        clock.now(r).0 == elapsed as int % tick_range(),
{
    let m = tick_range();
    let p = clock.period as int;
    let e = elapsed as int;
    let ov = clock.overflows_at(r);
    let q = e / p;
    let c = r.counter as int;
    lemma_fundamental_div_mod(e, p);
    lemma_mod_twice(e, p);
    assert(p * q == q * p) by (nonlinear_arith);
    lemma_mul_mod_noop_left(ov, p, m);
    lemma_mul_mod_noop_left(q, p, m);
    lemma_add_mod_noop(ov * p, c, m);
    lemma_add_mod_noop(q * p, c, m);
}

/// Taking note of a pending overflow does not move the time: the clock still
/// tracks the counter, now without an overflow pending.
pub proof fn lemma_overflow_keeps_time(clock: ClockView, counter: u32, elapsed: nat)
    requires
        clock.wf(),
        clock.tracks(Reading { counter, overflow_pending: true }, elapsed),
    ensures
        clock.after_overflow().wf(),
        clock.after_overflow().tracks(Reading { counter, overflow_pending: false }, elapsed),
        clock.after_overflow().now(Reading { counter, overflow_pending: false }) == clock.now(
            Reading { counter, overflow_pending: true },
        ),
{
    let m = tick_range();
    lemma_mod_twice(clock.overflows as int + 1, m);
    lemma_now_is_elapsed(clock, Reading { counter, overflow_pending: true }, elapsed);
    lemma_now_is_elapsed(
        clock.after_overflow(),
        Reading { counter, overflow_pending: false },
        elapsed,
    );
}

/// Taking note of a pending overflow leaves the tick at every counter value
/// what it was with the overflow pending.
pub proof fn lemma_overflow_keeps_now(clock: ClockView, counter: u32)
    requires
        clock.wf(),
    ensures
        clock.after_overflow().wf(),
        clock.after_overflow().now(Reading { counter, overflow_pending: false }) == clock.now(
            Reading { counter, overflow_pending: true },
        ),
{
    let m = tick_range();
    let p = clock.period as int;
    let next = clock.overflows as int + 1;
    let within = counter as int % p;
    lemma_mul_mod_noop_left(next, p, m);
    lemma_add_mod_noop(next * p, within, m);
    lemma_add_mod_noop((next % m) * p, within, m);
}

/// Two readings of the clock differ by the counts that the hardware counter
/// made between them, however often the counter or the tick wrapped around,
/// as long as fewer counts than the tick range went by.
pub proof fn lemma_difference_is_elapsed(
    first: ClockView,
    r1: Reading,
    e1: nat,
    second: ClockView,
    r2: Reading,
    e2: nat,
)
    requires
        first.wf(),
        second.wf(),
        first.tracks(r1, e1),
        second.tracks(r2, e2),
        e1 <= e2,
        e2 - e1 < tick_range(),
    ensures
        second.now(r2).spec_since(first.now(r1)) == e2 - e1,
        e2 - e1 < half_range() ==> second.now(r2).spec_reached(first.now(r1)),
{
    let m = tick_range();
    lemma_now_is_elapsed(first, r1, e1);
    lemma_now_is_elapsed(second, r2, e2);
    lemma_sub_mod_noop(e2 as int, e1 as int, m);
    lemma_small_mod((e2 - e1) as nat, m as nat);
}

/// Two captures of the counter less than one period apart, with a look at
/// the overflow event in between, give a reading that the clock tracks: the
/// moment of the second capture if the counter wrapped between them, else the
/// moment of the first. The overflow event is taken to be raised by a wrap
/// and cleared by nobody meanwhile, and no wrap to come on top of an overflow
/// that is still pending.
pub proof fn lemma_captures_are_consistent(
    clock: ClockView,
    first_at: nat,
    second_at: nat,
    pending_before: bool,
    overflow_seen: bool,
)
    requires
        clock.wf(),
        first_at <= second_at,
        second_at - first_at < clock.period,
        clock.tracks(
            Reading {
                counter: (first_at as int % clock.period as int) as u32,
                overflow_pending: pending_before,
            },
            first_at,
        ),
        second_at as int / clock.period as int != first_at as int / clock.period as int
            ==> !pending_before,
        second_at as int / clock.period as int == first_at as int / clock.period as int
            ==> overflow_seen == pending_before,
    ensures
        ({
            let p = clock.period as int;
            let first = (first_at as int % p) as u32;
            let second = (second_at as int % p) as u32;
            let r = Reading::spec_from_captures(first, overflow_seen, second);
            &&& second < first <==> second_at as int / p != first_at as int / p
            &&& second < first ==> clock.tracks(r, second_at)
            &&& second >= first ==> clock.tracks(r, first_at)
        }),
{
    let p = clock.period as int;
    let a = first_at as int;
    let c = second_at as int;
    lemma_fundamental_div_mod(a, p);
    lemma_fundamental_div_mod(c, p);
    lemma_mod_bound(a, p);
    lemma_mod_bound(c, p);
    let qa = a / p;
    let qc = c / p;
    assert(p * qc - p * qa == p * (qc - qa)) by (nonlinear_arith);
    if qc - qa >= 2 {
        assert(p * (qc - qa) >= p * 2) by (nonlinear_arith)
            requires
                qc - qa >= 2,
                p > 0,
        ;
    } else if qc - qa <= -1 {
        assert(p * (qc - qa) <= -p) by (nonlinear_arith)
            requires
                qc - qa <= -1,
                p > 0,
        ;
    } else if qc - qa == 1 {
        assert(p * (qc - qa) == p) by (nonlinear_arith)
            requires
                qc - qa == 1,
        ;
        lemma_add_mod_noop(clock.overflows as int, 1, tick_range());
        lemma_add_mod_noop(qa, 1, tick_range());
    } else {
        assert(p * (qc - qa) == 0) by (nonlinear_arith)
            requires
                qc - qa == 0,
        ;
    }
}

/// A wake whose tick had been reached when it was armed is due at every later
/// check, as long as the tick lies less than half the range back: it does not
/// wait for the counter to come round again.
pub proof fn lemma_elapsed_wake_is_due(
    armed: ClockView,
    r1: Reading,
    e1: nat,
    checked: ClockView,
    r2: Reading,
    e2: nat,
    at: Tick,
)
    requires
        armed.wf(),
        checked.wf(),
        armed.tracks(r1, e1),
        checked.tracks(r2, e2),
        checked.wake == Some(at),
        armed.now(r1).spec_reached(at),
        e1 <= e2,
        (e2 - e1) + armed.now(r1).spec_since(at) < half_range(),
    ensures
        armed.action_for(at, r1) == WakeAction::FireNow,
        checked.due(r2),
{
    let m = tick_range();
    let n1 = armed.now(r1).0 as int;
    let n2 = checked.now(r2).0 as int;
    lemma_difference_is_elapsed(armed, r1, e1, checked, r2, e2);
    lemma_add_mod_noop(n2 - n1, n1 - at.0 as int, m);
    lemma_small_mod(((e2 - e1) + armed.now(r1).spec_since(at)) as nat, m as nat);
}

/// A wake armed `delay` counts ahead is due exactly from the moment the
/// hardware counter has made `delay` counts, neither earlier nor later,
/// however often the counter wrapped around while waiting.
pub proof fn lemma_wake_is_due_on_time(
    armed: ClockView,
    r1: Reading,
    e1: nat,
    delay: u64,
    checked: ClockView,
    r2: Reading,
    e2: nat,
)
    requires
        armed.wf(),
        checked.wf(),
        armed.tracks(r1, e1),
        checked.tracks(r2, e2),
        checked.wake == Some(armed.now(r1).spec_advance(delay)),
        e1 <= e2,
        e2 - e1 < half_range(),
        delay < half_range(),
    ensures
        checked.due(r2) <==> e2 - e1 >= delay,
{
    let m = tick_range();
    let n1 = armed.now(r1).0 as int;
    let n2 = checked.now(r2).0 as int;
    let target = armed.now(r1).spec_advance(delay);
    let x: int = e2 - e1 - delay;
    lemma_difference_is_elapsed(armed, r1, e1, checked, r2, e2);
    lemma_small_mod(n2 as nat, m as nat);
    lemma_sub_mod_noop(n2, n1 + delay, m);
    assert(checked.now(r2).spec_since(target) == (n2 - n1 - delay) % m);
    lemma_sub_mod_noop(n2 - n1, delay as int, m);
    lemma_sub_mod_noop(e2 - e1, delay as int, m);
    assert(checked.now(r2).spec_since(target) == x % m);
    if x >= 0 {
        lemma_small_mod(x as nat, m as nat);
    } else {
        lemma_mod_add_multiples_vanish(x, m);
        lemma_small_mod((x + m) as nat, m as nat);
    }
}

} // verus!
