//! Process-wide identifiers drawn from monotonic counters.
use crate::text::{decimal, push_decimal};
use vstd::prelude::*;

verus! {

/// A source of identifiers. Every draw is larger than all earlier ones.
#[derive(Debug)]
pub struct IdSource {
    pub next: u64,
}

impl IdSource {
    /// A source whose first identifier is one.
    pub fn new() -> (r: IdSource)
        ensures
            r.next == 1,
    {
        IdSource { next: 1 }
    }

    /// Whether another identifier is left.
    pub fn has_next(&self) -> (r: bool)
        ensures
            r == (self.next < u64::MAX),
    {
        self.next < u64::MAX
    }
}

/// Draws the next identifier. The last value of the space is never handed out.
pub fn next_id(source: &mut IdSource) -> (r: u64)
    requires
        old(source).next < u64::MAX,
    ensures
        r == old(source).next,
        final(source).next == old(source).next + 1,
{
    let value: u64 = source.next;
    source.next = value + 1;
    value
}

/// Identifies an effect.
#[derive(Clone, Copy, Debug, PartialEq, Eq, PartialOrd, Ord, Hash, Structural)]
pub struct EffectId(pub u64);

impl EffectId {
    /// Draws a fresh identifier.
    pub fn next(source: &mut IdSource) -> (r: EffectId)
        requires
            old(source).next < u64::MAX,
        ensures
            r.0 == old(source).next,
            final(source).next == old(source).next + 1,
    {
        EffectId(next_id(source))
    }

    pub fn get(self) -> (r: u64)
        ensures
            r == self.0,
    {
        self.0
    }

    /// The identifier in decimal.
    pub fn text(self) -> (r: String)
        ensures
            r@ == decimal(self.0 as nat),
    {
        let mut out = String::new();
        push_decimal(&mut out, self.0);
        proof {
            assert(out@ =~= decimal(self.0 as nat));
        }
        out
    }
}

/// Identifies a fiber.
#[derive(Clone, Copy, Debug, PartialEq, Eq, PartialOrd, Ord, Hash, Structural)]
pub struct FiberId(pub u64);

impl FiberId {
    /// Draws a fresh identifier.
    pub fn next(source: &mut IdSource) -> (r: FiberId)
        requires
            old(source).next < u64::MAX,
        ensures
            r.0 == old(source).next,
            final(source).next == old(source).next + 1,
    {
        FiberId(next_id(source))
    }

    pub fn get(self) -> (r: u64)
        ensures
            r == self.0,
    {
        self.0
    }

    /// The identifier in decimal.
    pub fn text(self) -> (r: String)
        ensures
            r@ == decimal(self.0 as nat),
    {
        let mut out = String::new();
        push_decimal(&mut out, self.0);
        proof {
            assert(out@ =~= decimal(self.0 as nat));
        }
        out
    }
}

/// Identifies an event listener.
#[derive(Clone, Copy, Debug, PartialEq, Eq, PartialOrd, Ord, Hash, Structural)]
pub struct ListenerId(pub u64);

impl ListenerId {
    /// Draws a fresh identifier.
    pub fn next(source: &mut IdSource) -> (r: ListenerId)
        requires
            old(source).next < u64::MAX,
        ensures
            r.0 == old(source).next,
            final(source).next == old(source).next + 1,
    {
        ListenerId(next_id(source))
    }

    pub fn get(self) -> (r: u64)
        ensures
            r == self.0,
    {
        self.0
    }

    /// The identifier in decimal.
    pub fn text(self) -> (r: String)
        ensures
            r@ == decimal(self.0 as nat),
    {
        let mut out = String::new();
        push_decimal(&mut out, self.0);
        proof {
            assert(out@ =~= decimal(self.0 as nat));
        }
        out
    }
}

/// Identifies a service realm.
#[derive(Clone, Copy, Debug, PartialEq, Eq, PartialOrd, Ord, Hash, Structural)]
pub struct RealmId(pub u64);

impl RealmId {
    /// Draws a fresh identifier.
    pub fn next(source: &mut IdSource) -> (r: RealmId)
        requires
            old(source).next < u64::MAX,
        ensures
            r.0 == old(source).next,
            final(source).next == old(source).next + 1,
    {
        RealmId(next_id(source))
    }

    pub fn get(self) -> (r: u64)
        ensures
            r == self.0,
    {
        self.0
    }

    /// The identifier in decimal.
    pub fn text(self) -> (r: String)
        ensures
            r@ == decimal(self.0 as nat),
    {
        let mut out = String::new();
        push_decimal(&mut out, self.0);
        proof {
            assert(out@ =~= decimal(self.0 as nat));
        }
        out
    }
}

/// Identifies a tracked item.
#[derive(Clone, Copy, Debug, PartialEq, Eq, PartialOrd, Ord, Hash, Structural)]
pub struct TrackingId(pub u64);

impl TrackingId {
    /// Draws a fresh identifier.
    pub fn next(source: &mut IdSource) -> (r: TrackingId)
        requires
            old(source).next < u64::MAX,
        ensures
            r.0 == old(source).next,
            final(source).next == old(source).next + 1,
    {
        TrackingId(next_id(source))
    }

    pub fn get(self) -> (r: u64)
        ensures
            r == self.0,
    {
        self.0
    }

    /// The identifier in decimal.
    pub fn text(self) -> (r: String)
        ensures
            r@ == decimal(self.0 as nat),
    {
        let mut out = String::new();
        push_decimal(&mut out, self.0);
        proof {
            assert(out@ =~= decimal(self.0 as nat));
        }
        out
    }
}

/// Identifiers from one source are non-zero once the source starts at one, and
/// every later draw is strictly larger.
pub proof fn draws_are_monotonic(before: IdSource, first: u64, between: IdSource, second: u64)
    requires
        before.next >= 1,
        first == before.next,
        between.next == before.next + 1,
        second >= between.next,
    ensures
        first > 0,
        second > first,
{
}

} // verus!
