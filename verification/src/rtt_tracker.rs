//! Rolling round-trip-time estimate.
//!
//! The tracker keeps the sum of all measured round trips and their count,
//! in milliseconds, and recommends a retransmit timeout of the mean
//! inflated by a tenth, clamped to `[MIN_RTT_MS, MAX_RTT_MS]`.

use vstd::prelude::*;

verus! {

/// Upper clamp of the recommended retransmit timeout, in milliseconds.
pub const MAX_RTT_MS: u64 = 100;

/// Lower clamp of the recommended retransmit timeout, in milliseconds.
pub const MIN_RTT_MS: u64 = 10;

/// The mean is inflated by one part in this many.
pub const INFLATE_RTT_DIVISOR: u64 = 10;

/// The retransmit timeout recommended for a given sum and count of
/// measurements: the mean plus a tenth of it, clamped.
pub open spec fn spec_recommended_rtt(total: u64, num: u32) -> u64
    recommends
        num > 0,
{
    let average = total as int / num as int;
    let inflated = average + average / 10;
    if inflated < MIN_RTT_MS {
        MIN_RTT_MS
    } else if inflated > MAX_RTT_MS {
        MAX_RTT_MS
    } else {
        inflated as u64
    }
}

pub struct RttTracker {
    pub total_rtt: u64,
    pub num_measurements: u32,
}

impl RttTracker {
    /// At least one (synthetic) measurement is always present.
    pub open spec fn wf(&self) -> bool {
        self.num_measurements > 0
    }

    /// The state a fresh tracker starts in.
    pub open spec fn spec_initial() -> RttTracker {
        RttTracker { total_rtt: ((MIN_RTT_MS + MAX_RTT_MS) / 2) as u64, num_measurements: 1u32 }
    }

    /// The tracker after one measured round trip: the difference of the
    /// two instants (zero if the clock went backwards) joins the running
    /// sum, saturating instead of wrapping.
    pub open spec fn spec_recorded(self, sent_at_ms: u64, received_at_ms: u64) -> RttTracker {
        let rtt = if received_at_ms >= sent_at_ms {
            (received_at_ms - sent_at_ms) as u64
        } else {
            0u64
        };
        RttTracker {
            total_rtt: if self.total_rtt + rtt <= u64::MAX {
                (self.total_rtt + rtt) as u64
            } else {
                u64::MAX
            },
            num_measurements: if self.num_measurements < u32::MAX {
                (self.num_measurements + 1) as u32
            } else {
                self.num_measurements
            },
        }
    }

    /// Starts from one synthetic measurement in the middle of the clamp
    /// range.
    pub fn new() -> (r: Self)
        ensures
            r.wf(),
            r == RttTracker::spec_initial(),
            r.total_rtt == (MIN_RTT_MS + MAX_RTT_MS) / 2,
            r.num_measurements == 1,
    {
        RttTracker { total_rtt: (MIN_RTT_MS + MAX_RTT_MS) / 2, num_measurements: 1 }
    }

    /// Feeds one measured round trip, from the moment the packet went out
    /// to the moment its ack came back. A clock that went backwards counts
    /// as a zero round trip; the running totals saturate rather than wrap.
    pub fn record_rtt(&mut self, sent_at_ms: u64, received_at_ms: u64)
        requires
            old(self).wf(),
        ensures
            final(self).wf(),
            *final(self) == old(self).spec_recorded(sent_at_ms, received_at_ms),
    {
        let rtt: u64 = if received_at_ms >= sent_at_ms {
            received_at_ms - sent_at_ms
        } else {
            0
        };
        self.total_rtt = if self.total_rtt <= u64::MAX - rtt {
            self.total_rtt + rtt
        } else {
            u64::MAX
        };
        if self.num_measurements < u32::MAX {
            self.num_measurements = self.num_measurements + 1;
        }
    }

    /// The mean of the recorded round trips.
    pub fn average_rtt(&self) -> (r: u64)
        requires
            self.wf(),
        ensures
            r == self.total_rtt as int / self.num_measurements as int,
    {
        self.total_rtt / (self.num_measurements as u64)
    }

    /// The recommended retransmit timeout: the mean inflated by a tenth,
    /// clamped to `[MIN_RTT_MS, MAX_RTT_MS]`.
    pub fn recommended_max_rtt(&self) -> (r: u64)
        requires
            self.wf(),
        ensures
            r == spec_recommended_rtt(self.total_rtt, self.num_measurements),
            MIN_RTT_MS <= r <= MAX_RTT_MS,
    {
        let average_rtt = self.total_rtt / (self.num_measurements as u64);
        if average_rtt >= MAX_RTT_MS {
            MAX_RTT_MS
        } else {
            let inflated = average_rtt + average_rtt / INFLATE_RTT_DIVISOR;
            if inflated < MIN_RTT_MS {
                MIN_RTT_MS
            } else if inflated > MAX_RTT_MS {
                MAX_RTT_MS
            } else {
                inflated
            }
        }
    }
}

} // verus!
