//! Token-bucket rate limiting for the remote client.
//!
//! The bucket is an explicit, injectable value: a caller asks to
//! proceed with the current monotonic time, and either consumes a
//! token or is refused and must wait. Refill is whole-second: each
//! elapsed second since the last accounted instant adds
//! `refill_per_sec` tokens up to `capacity`, and the accounted instant
//! advances only by the seconds actually credited, so fractional
//! elapsed time is never lost. Waiting, and any jitter before
//! retrying, belong to the caller.

use vstd::prelude::*;

verus! {

/// A token bucket. `tokens` never exceeds `capacity`.
pub struct TokenBucket {
    pub capacity: u64,
    pub refill_per_sec: u64,
    pub tokens: u64,
    pub last_refill_ms: u64,
}

/// The bucket's invariant.
pub open spec fn bucket_wf(b: TokenBucket) -> bool {
    b.tokens <= b.capacity
}

/// Milliseconds elapsed since the last accounted instant; a clock that
/// appears to run backwards counts as no elapsed time.
pub open spec fn spec_elapsed_ms(b: TokenBucket, now_ms: int) -> int {
    if now_ms >= b.last_refill_ms {
        now_ms - b.last_refill_ms
    } else {
        0
    }
}

/// The token count after crediting the whole seconds elapsed by
/// `now_ms`, capped at capacity.
pub open spec fn spec_refilled(b: TokenBucket, now_ms: int) -> int {
    let add = (spec_elapsed_ms(b, now_ms) / 1000) * b.refill_per_sec;
    if b.tokens + add <= b.capacity {
        b.tokens + add
    } else {
        b.capacity as int
    }
}

/// The accounted instant after crediting: advanced by the credited
/// whole seconds only.
pub open spec fn spec_refill_instant(b: TokenBucket, now_ms: int) -> int {
    b.last_refill_ms + (spec_elapsed_ms(b, now_ms) / 1000) * 1000
}

impl TokenBucket {
    /// A full bucket accounted at `now_ms`.
    pub fn new(capacity: u64, refill_per_sec: u64, now_ms: u64) -> (b: TokenBucket)
        ensures
            bucket_wf(b),
            b.capacity == capacity,
            b.refill_per_sec == refill_per_sec,
            b.tokens == capacity,
            b.last_refill_ms == now_ms,
    {
        TokenBucket { capacity, refill_per_sec, tokens: capacity, last_refill_ms: now_ms }
    }

    /// Asks to proceed at `now_ms`: elapsed whole seconds are
    /// credited first, then one token is consumed when one is
    /// available. Returns whether a token was granted; a refused
    /// caller holds no token and should retry later.
    pub fn try_acquire(&mut self, now_ms: u64) -> (granted: bool)
        requires
            bucket_wf(*old(self)),
        ensures
            bucket_wf(*final(self)),
            final(self).capacity == old(self).capacity,
            final(self).refill_per_sec == old(self).refill_per_sec,
            granted <==> spec_refilled(*old(self), now_ms as int) >= 1,
            final(self).tokens == if granted {
                spec_refilled(*old(self), now_ms as int) - 1
            } else {
                spec_refilled(*old(self), now_ms as int)
            },
            final(self).last_refill_ms == if now_ms >= old(self).last_refill_ms {
                spec_refill_instant(*old(self), now_ms as int)
            } else {
                old(self).last_refill_ms as int
            },
    {
        let elapsed: u64 = if now_ms >= self.last_refill_ms {
            now_ms - self.last_refill_ms
        } else {
            0
        };
        let whole: u64 = elapsed / 1000;
        let rate = self.refill_per_sec;
        proof {
            assert((whole as int) * (rate as int) <= 0xffff_ffff_ffff_ffff
                * 0xffff_ffff_ffff_ffff) by (nonlinear_arith)
                requires
                    0 <= whole <= 0xffff_ffff_ffff_ffff,
                    0 <= rate <= 0xffff_ffff_ffff_ffff,
            ;
        }
        let add: u128 = (whole as u128) * (rate as u128);
        let refilled: u64 = if add >= (self.capacity - self.tokens) as u128 {
            self.capacity
        } else {
            proof {
                assert(add < u64::MAX as u128);
            }
            self.tokens + (add as u64)
        };
        if now_ms >= self.last_refill_ms {
            proof {
                assert(whole * 1000 <= elapsed) by (nonlinear_arith)
                    requires
                        whole == elapsed / 1000,
                        elapsed >= 0,
                ;
            }
            self.last_refill_ms = self.last_refill_ms + whole * 1000;
        }
        if refilled >= 1 {
            self.tokens = refilled - 1;
            true
        } else {
            self.tokens = refilled;
            false
        }
    }
}

} // verus!
