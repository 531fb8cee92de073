use vstd::prelude::*;

verus! {

/// A slot reserved in a rate limiter, to be released or recorded.
#[derive(Debug)]
pub struct SlotTracker {}

impl SlotTracker {
    pub fn new() -> (r: SlotTracker) {
        SlotTracker {}
    }

    /// Gives the slot back unused.
    pub fn release(self) {
    }
}

/// The limiter that does the work when a limit is imposed. Each spec function
/// relates the limiter before a call, the call's inputs, the limiter after it
/// and its answer.
pub trait LimiterCore: Sized {
    type Instant;
    type LimitedInfo;

    spec fn reserves(&self, time: Self::Instant, next: Self, r: Result<SlotTracker, Self::LimitedInfo>) -> bool;

    spec fn releases(&self, slot: SlotTracker, next: Self) -> bool;

    spec fn records(&self, time: Self::Instant, slot: SlotTracker, next: Self) -> bool;

    fn reserve(&mut self, time: Self::Instant) -> (r: Result<SlotTracker, Self::LimitedInfo>)
        ensures
            old(self).reserves(time, *final(self), r),
    ;

    fn release(&mut self, slot: SlotTracker)
        ensures
            old(self).releases(slot, *final(self)),
    ;

    fn record(&mut self, time: Self::Instant, slot: SlotTracker)
        ensures
            old(self).records(time, slot, *final(self)),
    ;
}

/// The answer of the rate limiter for an answer of its inner limiter.
pub open spec fn wrap_inner<E>(r: Result<SlotTracker, E>) -> Result<SlotTracker, RateLimited<E>> {
    match r {
        Ok(s) => Ok(s),
        Err(e) => Err(RateLimited::Inner(e)),
    }
}

/// Single network single component rate limiter: no request at all, a
/// limit enforced by an inner limiter, or no limit.
pub enum RateLimiter<C> {
    Disabled,
    Limited(C),
    Unlimited,
}

/// Why a slot was refused.
#[derive(PartialEq, Eq, Debug)]
pub enum RateLimited<E> {
    Disabled {},
    Inner(E),
}

impl<C: LimiterCore> RateLimiter<C> {
    /// A limiter that enforces the limit of `core`.
    pub fn limited(core: C) -> (r: Self)
        ensures
            r == RateLimiter::Limited(core),
    {
        RateLimiter::Limited(core)
    }

    /// Reserves a slot: refused when disabled, granted when unlimited, and
    /// left to the inner limiter otherwise.
    pub fn reserve(&mut self, time: C::Instant) -> (r: Result<SlotTracker, RateLimited<C::LimitedInfo>>)
        ensures
            *old(self) is Disabled ==> (r matches Err(RateLimited::Disabled {})) && *final(self) is Disabled,
            *old(self) is Unlimited ==> (r is Ok) && *final(self) is Unlimited,
            *old(self) is Limited ==> *final(self) is Limited && exists|inner: Result<SlotTracker, C::LimitedInfo>|
                old(self)->Limited_0.reserves(time, final(self)->Limited_0, inner) && r == wrap_inner(inner),
    {
        match self {
            RateLimiter::Disabled => Err(RateLimited::Disabled {}),
            RateLimiter::Limited(inner) => {
                let answer = inner.reserve(time);
                let ghost given = answer;
                let r = match answer {
                    Ok(slot) => Ok(slot),
                    Err(e) => Err(RateLimited::Inner(e)),
                };
                assert(r == wrap_inner(given));
                r
            },
            RateLimiter::Unlimited => Ok(SlotTracker::new()),
        }
    }

    /// Releases a slot; a disabled limiter hands out none.
    pub fn release(&mut self, slot: SlotTracker)
        requires
            !(*old(self) is Disabled),
        ensures
            *old(self) is Unlimited ==> *final(self) is Unlimited,
            *old(self) is Limited ==> *final(self) is Limited
                && old(self)->Limited_0.releases(slot, final(self)->Limited_0),
    {
        match self {
            RateLimiter::Limited(inner) => inner.release(slot),
            _ => slot.release(),
        }
    }

    /// Records the event that a slot was used for.
    pub fn record(&mut self, time: C::Instant, slot: SlotTracker)
        requires
            !(*old(self) is Disabled),
        ensures
            *old(self) is Unlimited ==> *final(self) is Unlimited,
            *old(self) is Limited ==> *final(self) is Limited
                && old(self)->Limited_0.records(time, slot, final(self)->Limited_0),
    {
        match self {
            RateLimiter::Limited(inner) => inner.record(time, slot),
            _ => slot.release(),
        }
    }
}

} // verus!
