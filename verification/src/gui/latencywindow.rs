//! The mean latency of the last few events, as the latency window shows it.
//!
//! Durations are counted in nanoseconds.
use vstd::prelude::*;

verus! {

/// The number of nanoseconds in the longest duration there is: `u64::MAX` seconds and
/// `999_999_999` nanoseconds.
pub open spec fn max_duration_nanos() -> int {
    u64::MAX * 1_000_000_000 + 999_999_999
}

/// The sum of the values.
pub open spec fn sum(s: Seq<u128>) -> int
    decreases s.len(),
{
    if s.len() == 0 {
        0
    } else {
        sum(s.drop_last()) + s.last()
    }
}

pub struct LatencyWindow {
    values: Vec<u128>,
    next_to_update: usize,
    mean: u128,
}

impl LatencyWindow {
    /// The latencies in the window, in nanoseconds.
    pub closed spec fn spec_values(&self) -> Seq<u128> {
        self.values@
    }

    /// The position in the window that the next latency overwrites.
    pub closed spec fn spec_next(&self) -> int {
        self.next_to_update as int
    }

    /// The mean latency, in nanoseconds, that was last computed.
    pub closed spec fn spec_mean(&self) -> int {
        self.mean as int
    }

    pub open spec fn wf(&self) -> bool {
        &&& self.spec_values().len() > 0 ==> self.spec_next() < self.spec_values().len()
        &&& self.spec_next() >= 0
        &&& forall|i: int| 0 <= i < self.spec_values().len() ==> #[trigger] self.spec_values()[i] <= max_duration_nanos()
    }

    /// A window of `window_length` zero latencies.
    pub fn new(window_length: usize) -> (w: Self)
        ensures
            w.wf(),
            w.spec_values() == Seq::new(window_length as nat, |i: int| 0u128),
            w.spec_next() == 0,
            w.spec_mean() == 0,
    {
        let mut values: Vec<u128> = Vec::new();
        let mut i: usize = 0;
        while i < window_length
            invariant
                i <= window_length,
                values@ == Seq::new(i as nat, |k: int| 0u128),
            decreases window_length - i,
        {
            values.push(0);
            i = i + 1;
        }
        Self { values, next_to_update: 0, mean: 0 }
    }

    /// The number of latencies in the window.
    pub fn window_length(&self) -> (n: usize)
        ensures
            n == self.spec_values().len(),
    {
        self.values.len()
    }

    /// The mean latency, in nanoseconds.
    pub fn mean(&self) -> (m: u128)
        ensures
            m == self.spec_mean(),
    {
        self.mean
    }

    /// Whether [Self::record] can take `since_input`: it is a duration, and so is the sum of the
    /// latencies in the window once it has replaced the oldest one.
    pub fn record_fits(&self, since_input: u128) -> (b: bool)
        requires
            self.wf(),
            self.spec_values().len() > 0,
        ensures
            b == (since_input <= max_duration_nanos() && sum(
                self.spec_values().update(self.spec_next(), since_input),
            ) <= max_duration_nanos()),
    {
        let max: u128 = 18446744073709551615u128 * 1000000000u128 + 999999999u128;
        if since_input > max {
            return false;
        }
        let ghost after = self.values@.update(self.next_to_update as int, since_input);
        let n = self.values.len();
        let mut total: u128 = 0;
        let mut i: usize = 0;
        while i < n
            invariant
                n == self.values@.len(),
                n == after.len(),
                i <= n,
                max == max_duration_nanos(),
                self.next_to_update < n,
                after == self.values@.update(self.next_to_update as int, since_input),
                total == sum(after.take(i as int)),
                total <= max,
            decreases n - i,
        {
            let x = if i == self.next_to_update {
                since_input
            } else {
                self.values[i]
            };
            proof {
                assert(x == after[i as int]);
                assert(after.take(i as int + 1).drop_last() =~= after.take(i as int));
            }
            if x > max - total {
                proof {
                    lemma_sum_prefix(after, i as int + 1);
                }
                return false;
            }
            total = total + x;
            i = i + 1;
        }
        proof {
            assert(after.take(n as int) =~= after);
        }
        true
    }

    /// Records a new latency: it replaces the oldest one in the window, and the mean is
    /// recomputed, rounded down to whole nanoseconds (which is what dividing a `Duration` by the
    /// window length gives).
    pub fn record(&mut self, since_input: u128)
        requires
            old(self).wf(),
            old(self).spec_values().len() > 0,
            old(self).spec_values().len() <= u32::MAX,
            since_input <= max_duration_nanos(),
            sum(old(self).spec_values().update(old(self).spec_next(), since_input))
                <= max_duration_nanos(),
        ensures
            final(self).wf(),
            final(self).spec_values() == old(self).spec_values().update(
                old(self).spec_next(),
                since_input,
            ),
            final(self).spec_next() == (old(self).spec_next() + 1) % (old(self).spec_values().len() as int),
            final(self).spec_mean() == sum(final(self).spec_values()) / (old(self).spec_values().len() as int),
    {
        let n = self.values.len();
        self.values.set(self.next_to_update, since_input);
        self.next_to_update = (self.next_to_update + 1) % n;
        let mut total: u128 = 0;
        let mut i: usize = 0;
        while i < n
            invariant
                n == self.values@.len(),
                i <= n,
                total == sum(self.values@.take(i as int)),
                sum(self.values@) <= max_duration_nanos(),
                forall|k: int| 0 <= k < self.values@.len() ==> #[trigger] self.values@[k] <= max_duration_nanos(),
            decreases n - i,
        {
            proof {
                assert(self.values@.take(i as int + 1).drop_last() =~= self.values@.take(i as int));
                lemma_sum_prefix(self.values@, i as int + 1);
            }
            total = total + self.values[i];
            i = i + 1;
        }
        proof {
            assert(self.values@.take(n as int) =~= self.values@);
        }
        self.mean = total / (n as u128);
    }
}

/// The sum of a prefix is at most the sum of the whole.
pub proof fn lemma_sum_prefix(s: Seq<u128>, k: int)
    requires
        0 <= k <= s.len(),
    ensures
        sum(s.take(k)) <= sum(s),
    decreases s.len(),
{
    if k < s.len() {
        assert(s.drop_last().take(k) =~= s.take(k));
        lemma_sum_prefix(s.drop_last(), k);
    } else {
        assert(s.take(k) =~= s);
    }
}

} // verus!
