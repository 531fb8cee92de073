use agglayer_storage::{LimiterCore, RateLimited, RateLimiter, SlotTracker};

struct Budget {
    left: u32,
    recorded: Vec<u64>,
}

impl LimiterCore for Budget {
    type Instant = u64;
    type LimitedInfo = u32;

    fn reserves(&self, _time: u64, next: Self, r: Result<SlotTracker, u32>) -> bool {
        match r {
            Ok(_) => self.left > 0 && next.left == self.left - 1,
            Err(_) => self.left == 0 && next.left == 0,
        }
    }

    fn releases(&self, _slot: SlotTracker, next: Self) -> bool {
        next.left == self.left + 1
    }

    fn records(&self, time: u64, _slot: SlotTracker, next: Self) -> bool {
        next.recorded.last() == Some(&time)
    }

    fn reserve(&mut self, _time: u64) -> Result<SlotTracker, u32> {
        if self.left == 0 {
            return Err(0);
        }
        self.left -= 1;
        Ok(SlotTracker::new())
    }

    fn release(&mut self, slot: SlotTracker) {
        slot.release();
        self.left += 1;
    }

    fn record(&mut self, time: u64, slot: SlotTracker) {
        slot.release();
        self.recorded.push(time);
    }
}

#[test]
fn disabled_limiter_refuses() {
    let mut limiter: RateLimiter<Budget> = RateLimiter::Disabled;
    assert!(matches!(limiter.reserve(1), Err(RateLimited::Disabled {})));
}

#[test]
fn unlimited_limiter_grants() {
    let mut limiter: RateLimiter<Budget> = RateLimiter::Unlimited;
    let slot = limiter.reserve(1).unwrap();
    limiter.record(1, slot);
    let slot = limiter.reserve(2).unwrap();
    limiter.release(slot);
    assert!(matches!(limiter, RateLimiter::Unlimited));
}

#[test]
fn limited_limiter_delegates() {
    let mut limiter = RateLimiter::limited(Budget { left: 1, recorded: Vec::new() });
    let slot = limiter.reserve(1).unwrap();
    assert!(matches!(limiter.reserve(2), Err(RateLimited::Inner(0))));
    limiter.release(slot);
    let slot = limiter.reserve(3).unwrap();
    limiter.record(3, slot);
    match limiter {
        RateLimiter::Limited(b) => assert_eq!(b.recorded, vec![3]),
        _ => panic!("limiter changed kind"),
    }
}
