//! How much one connection may send.

use vstd::prelude::*;

use super::server::Limits;

verus! {

/// One message, in the parts that the bucket counts in: as many as a second has
/// nanoseconds.
pub const MESSAGE: u128 = 1_000_000_000;

/// A token bucket, refilled continuously rather than in steps.
///
/// Stepwise refill lets a caller send a full burst at the end of one window and
/// another at the start of the next, which is twice the rate that was
/// configured. Times are nanoseconds, counted from any one moment.
pub struct RateLimit {
    tokens: u128,
    per_second: u32,
    burst: u32,
    last: u64,
}

/// What a bucket holds.
pub struct Bucket {
    pub tokens: int,
    pub per_second: int,
    pub burst: int,
    pub last: int,
}

/// What there is at a moment: what was left, and what came since, as far as it
/// fits.
pub open spec fn refilled(b: Bucket, now: int) -> int {
    let elapsed = if now >= b.last {
        now - b.last
    } else {
        0
    };
    let full = b.tokens + elapsed * b.per_second;
    if full <= b.burst * MESSAGE {
        full
    } else {
        b.burst * MESSAGE
    }
}

/// Whether there is enough for one message.
pub open spec fn allowed(b: Bucket, now: int) -> bool {
    refilled(b, now) >= MESSAGE
}

/// What is left after a message was let through or not.
pub open spec fn after(b: Bucket, now: int) -> Bucket {
    Bucket {
        tokens: if allowed(b, now) {
            refilled(b, now) - MESSAGE
        } else {
            refilled(b, now)
        },
        last: now,
        ..b
    }
}

impl View for RateLimit {
    type V = Bucket;

    closed spec fn view(&self) -> Bucket {
        Bucket {
            tokens: self.tokens as int,
            per_second: self.per_second as int,
            burst: self.burst as int,
            last: self.last as int,
        }
    }
}

impl RateLimit {
    /// A bucket never holds more than a burst.
    pub open spec fn wf(&self) -> bool {
        0 <= self@.tokens <= self@.burst * MESSAGE
    }

    pub fn new(limits: &Limits, now: u64) -> (rate: Self)
        ensures
            rate.wf(),
            rate@ == (Bucket {
                tokens: limits.burst * MESSAGE,
                per_second: limits.messages_per_second as int,
                burst: limits.burst as int,
                last: now as int,
            }),
    {
        RateLimit {
            tokens: limits.burst as u128 * MESSAGE,
            per_second: limits.messages_per_second,
            burst: limits.burst,
            last: now,
        }
    }

    /// Whether a message that comes now is let through.
    pub fn allow(&mut self, now: u64) -> (yes: bool)
        requires
            old(self).wf(),
        ensures
            final(self).wf(),
            yes == allowed(old(self)@, now as int),
            final(self)@ == after(old(self)@, now as int),
    {
        let elapsed: u64 = if now >= self.last {
            now - self.last
        } else {
            0
        };
        let most: u128 = self.burst as u128 * MESSAGE;
        assert(elapsed as int * self.per_second as int <= 0xffff_ffff_ffff_ffff * 0xffff_ffff)
            by (nonlinear_arith)
            requires
                elapsed <= 0xffff_ffff_ffff_ffff,
                self.per_second <= 0xffff_ffff,
        ;
        let full: u128 = self.tokens + elapsed as u128 * self.per_second as u128;
        self.tokens = if full <= most {
            full
        } else {
            most
        };
        self.last = now;
        if self.tokens >= MESSAGE {
            self.tokens = self.tokens - MESSAGE;
            true
        } else {
            false
        }
    }
}

/// How many of the messages that come at the given moments are let through.
pub open spec fn passed(b: Bucket, times: Seq<int>) -> nat
    decreases times.len(),
{
    if times.len() == 0 {
        0
    } else {
        passed(after(b, times[0]), times.skip(1)) + if allowed(b, times[0]) {
            1nat
        } else {
            0
        }
    }
}

/// The moments come in order, none before the bucket was last looked at.
pub open spec fn in_order(b: Bucket, times: Seq<int>) -> bool {
    &&& forall|i: int| #![trigger times[i]] 0 <= i < times.len() ==> b.last <= times[i]
    &&& forall|i: int, j: int|
        #![trigger times[i], times[j]]
        0 <= i <= j < times.len() ==> times[i] <= times[j]
}

/// Whenever messages come, no more are let through than what was left and what
/// came in since allow: a burst at most, and the configured rate.
pub proof fn law_the_rate_is_kept(b: Bucket, times: Seq<int>)
    requires
        0 <= b.tokens <= b.burst * MESSAGE,
        b.per_second >= 0,
        in_order(b, times),
    ensures
        passed(b, times) * MESSAGE <= b.tokens + (if times.len() == 0 {
            0
        } else {
            times.last() - b.last
        }) * b.per_second,
    decreases times.len(),
{
    if times.len() > 0 {
        let t = times[0];
        let next = after(b, t);
        let rest = times.skip(1);
        assert((t - b.last) * b.per_second >= 0) by (nonlinear_arith)
            requires
                t >= b.last,
                b.per_second >= 0,
        ;
        assert(in_order(next, rest)) by {
            assert forall|i: int| #![trigger rest[i]] 0 <= i < rest.len() implies next.last
                <= rest[i] by {
                assert(times[0] <= times[i + 1]);
            }
            assert forall|i: int, j: int|
                #![trigger rest[i], rest[j]]
                0 <= i <= j < rest.len() implies rest[i] <= rest[j] by {
                assert(times[i + 1] <= times[j + 1]);
            }
        }
        law_the_rate_is_kept(next, rest);
        if rest.len() > 0 {
            assert(rest.last() == times.last());
            assert((times.last() - t) * b.per_second + (t - b.last) * b.per_second == (times.last()
                - b.last) * b.per_second) by (nonlinear_arith);
        }
    }
}

/// A message is let through exactly where a whole one was saved up: what was left,
/// and what came in since at the rate, as far as the burst holds it. Letting it
/// through costs one message; refusing it costs nothing. A message is worth a second
/// at a rate of one, counted in nanoseconds.
pub proof fn law_a_message_passes_where_one_was_saved_up(b: Bucket, now: int)
    requires
        0 <= b.tokens <= b.burst * 1_000_000_000,
        b.per_second >= 0,
        b.last <= now,
    ensures
        allowed(b, now) <==> b.burst >= 1 && b.tokens + (now - b.last) * b.per_second >= 1_000_000_000,
        ({
            let saved = if b.tokens + (now - b.last) * b.per_second <= b.burst * 1_000_000_000 {
                b.tokens + (now - b.last) * b.per_second
            } else {
                b.burst * 1_000_000_000
            };
            &&& allowed(b, now) ==> after(b, now).tokens == saved - 1_000_000_000
            &&& !allowed(b, now) ==> after(b, now).tokens == saved
        }),
        after(b, now).last == now,
        after(b, now).per_second == b.per_second,
        after(b, now).burst == b.burst,
{
    let full = b.tokens + (now - b.last) * b.per_second;
    if b.burst < 1 {
        assert(b.burst * MESSAGE <= 0) by (nonlinear_arith)
            requires
                b.burst < 1,
        ;
    } else {
        assert(b.burst * MESSAGE >= MESSAGE) by (nonlinear_arith)
            requires
                b.burst >= 1,
        ;
    }
}

/// A connection that has been quiet may send a burst at once: as many messages as
/// the burst holds go through, whatever their times, one after the other.
pub proof fn law_a_burst_goes_through(b: Bucket, times: Seq<int>)
    requires
        b.per_second >= 0,
        times.len() * MESSAGE <= b.tokens <= b.burst * MESSAGE,
        in_order(b, times),
    ensures
        passed(b, times) == times.len(),
    decreases times.len(),
{
    if times.len() > 0 {
        let now = times[0];
        let rest = times.skip(1);
        assert((now - b.last) * b.per_second >= 0) by (nonlinear_arith)
            requires
                now >= b.last,
                b.per_second >= 0,
        ;
        assert(times.len() * MESSAGE == rest.len() * MESSAGE + MESSAGE) by (nonlinear_arith)
            requires
                times.len() == rest.len() + 1,
        ;
        assert(refilled(b, now) >= b.tokens);
        assert(rest.len() * MESSAGE >= 0) by (nonlinear_arith);
        assert(allowed(b, now));
        let c = after(b, now);
        assert forall|i: int| #![trigger rest[i]] 0 <= i < rest.len() implies c.last <= rest[i] by {
            assert(rest[i] == times[i + 1]);
            assert(times[0] <= times[i + 1]);
        }
        assert forall|i: int, j: int|
            #![trigger rest[i], rest[j]]
            0 <= i <= j < rest.len() implies rest[i] <= rest[j] by {
            assert(times[i + 1] <= times[j + 1]);
        }
        law_a_burst_goes_through(c, rest);
    }
}

} // verus!
