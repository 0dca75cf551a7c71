//! Ticks of the monotonic counter, with wraparound arithmetic.

use vstd::prelude::*;

verus! {

/// The number of distinct tick values: a tick wraps to zero after `2^64 - 1`.
pub open spec fn tick_range() -> int {
    0x1_0000_0000_0000_0000
}

/// Half the tick range. Two ticks are ordered by which of them lies less than
/// this far ahead of the other.
pub open spec fn half_range() -> int {
    0x8000_0000_0000_0000
}

/// A value of the monotonic counter.
#[derive(Clone, Copy, Debug, PartialEq, Eq, Structural)]
pub struct Tick(pub u64);

impl Tick {
    /// The tick `delta` counts after `self`, modulo the tick range.
    pub open spec fn spec_advance(self, delta: u64) -> Tick {
        Tick(((self.0 + delta) % tick_range()) as u64)
    }

    /// The number of counts from `earlier` up to `self`, modulo the tick range.
    pub open spec fn spec_since(self, earlier: Tick) -> int {
        (self.0 - earlier.0) % tick_range()
    }

    /// Whether `self` is at or after `target`: `target` lies less than half the
    /// tick range behind `self`.
    pub open spec fn spec_reached(self, target: Tick) -> bool {
        self.spec_since(target) < half_range()
    }

    /// The tick with the given counter value.
    pub fn new(ticks: u64) -> (t: Tick)
        ensures
            t == Tick(ticks),
    {
        Tick(ticks)
    }

    /// The counter value.
    pub fn ticks(&self) -> (n: u64)
        ensures
            n == self.0,
    {
        self.0
    }

    /// Moves `delta` counts forward, wrapping at the end of the tick range.
    #[verifier::when_used_as_spec(spec_advance)]
    pub fn advance(self, delta: u64) -> (t: Tick)
        ensures
            t == self.spec_advance(delta),
    {
        Tick(self.0.wrapping_add(delta))
    }

    /// Counts elapsed from `earlier` to `self`, correct across a wraparound.
    pub fn since(self, earlier: Tick) -> (n: u64)
        ensures
            n == self.spec_since(earlier),
    {
        self.0.wrapping_sub(earlier.0)
    }

    /// Wraparound-aware ordering: true when `self` is at or after `target`.
    #[verifier::when_used_as_spec(spec_reached)]
    pub fn reached(self, target: Tick) -> (b: bool)
        ensures
            b == self.spec_reached(target),
    {
        self.0.wrapping_sub(target.0) < 0x8000_0000_0000_0000u64
    }
}

/// Advancing a tick by `delta` and measuring back gives `delta`, whether or
/// not the counter wrapped in between.
pub proof fn lemma_since_advance(t: Tick, delta: u64)
    ensures
        t.spec_advance(delta).spec_since(t) == delta,
{
}

/// Measuring from `earlier` to `later` and advancing `earlier` by that much
/// leads back to `later`.
pub proof fn lemma_advance_since(later: Tick, earlier: Tick)
    ensures
        0 <= later.spec_since(earlier) < tick_range(),
        earlier.spec_advance(later.spec_since(earlier) as u64) == later,
{
}

/// Of two distinct ticks exactly one has reached the other, unless they lie
/// exactly half the range apart, where neither has.
pub proof fn lemma_reached_exclusive(a: Tick, b: Tick)
    ensures
        a.spec_reached(a),
        a.spec_reached(b) && b.spec_reached(a) ==> a == b,
        !a.spec_reached(b) && !b.spec_reached(a) ==> a.spec_since(b) == half_range(),
{
    let d: int = a.0 - b.0;
    if d > 0 {
        assert(d % tick_range() == d);
        assert((-d) % tick_range() == tick_range() - d);
    } else if d < 0 {
        assert((-d) % tick_range() == -d);
        assert(d % tick_range() == tick_range() + d);
    }
}

} // verus!
