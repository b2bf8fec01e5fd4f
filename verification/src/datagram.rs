//! Bookkeeping of the unreliable datagram transport: the sliding window of
//! recent delivery outcomes and the rate limit on progress events.
use vstd::prelude::*;

verus! {

/// Number of delivered outcomes in `s`.
pub open spec fn count_delivered(s: Seq<bool>) -> nat
    decreases s.len(),
{
    if s.len() == 0 { 0 } else { count_delivered(s.drop_last()) + if s.last() { 1nat } else { 0nat } }
}

/// The most recent delivery outcomes, oldest first, at most `capacity` of
/// them.
pub struct LossWindow {
    samples: Vec<bool>,
    capacity: usize,
}

impl LossWindow {
    /// Outcomes in the window, oldest first.
    pub closed spec fn outcomes(self) -> Seq<bool> {
        self.samples@
    }

    /// Largest number of outcomes kept.
    pub closed spec fn limit(self) -> nat {
        self.capacity as nat
    }

    /// An empty window keeping up to `capacity` outcomes.
    pub fn new(capacity: usize) -> (r: Self)
        ensures
            r.outcomes() == Seq::<bool>::empty(),
            r.limit() == capacity,
    {
        LossWindow { samples: Vec::new(), capacity }
    }

    /// Appends an outcome, dropping the oldest when the window is over its
    /// limit.
    pub fn record(&mut self, delivered: bool)
        ensures
            final(self).limit() == old(self).limit(),
            final(self).outcomes() == if old(self).outcomes().len() + 1 > old(self).limit() {
                old(self).outcomes().push(delivered).drop_first()
            } else {
                old(self).outcomes().push(delivered)
            },
    {
        self.samples.push(delivered);
        if self.samples.len() > self.capacity {
            let ghost before = self.samples@;
            self.samples.remove(0);
            proof {
                assert(self.samples@ =~= before.drop_first());
            }
        }
    }

    /// Number of outcomes in the window.
    pub fn len(&self) -> (r: usize)
        ensures
            r == self.outcomes().len(),
    {
        self.samples.len()
    }

    /// Number of delivered outcomes in the window.
    pub fn delivered(&self) -> (r: usize)
        ensures
            r == count_delivered(self.outcomes()),
    {
        let mut c: usize = 0;
        let mut i: usize = 0;
        while i < self.samples.len()
            invariant
                i <= self.samples@.len(),
                c == count_delivered(self.samples@.take(i as int)),
                c <= i,
            decreases self.samples@.len() - i,
        {
            proof {
                assert(self.samples@.take(i + 1).drop_last() =~= self.samples@.take(i as int));
            }
            if self.samples[i] {
                c = c + 1;
            }
            i = i + 1;
        }
        proof {
            assert(self.samples@.take(self.samples@.len() as int) =~= self.samples@);
        }
        c
    }
}

/// Law: recording keeps a window that is within its limit within it.
pub proof fn law_window_stays_bounded(before: Seq<bool>, limit: nat, delivered: bool)
    requires
        before.len() <= limit,
    ensures
        (if before.len() + 1 > limit { before.push(delivered).drop_first() } else { before.push(delivered) }).len() <= limit,
{
}

/// Every hundredth progress event (the one sent as number 99 modulo 100) is
/// dropped to keep the datagram rate down.
pub fn should_drop_for_rate_limit(is_progress: bool, sent: u64) -> (r: bool)
    ensures
        r == (is_progress && sent % 100 == 99),
{
    is_progress && sent % 100 == 99
}

/// Which encoding of an event goes into a datagram.
#[derive(Debug, Clone, Copy, PartialEq, Eq, Structural)]
pub enum DatagramEncoding {
    /// The event as it is.
    Original,
    /// The event with its payload replaced by a truncation summary.
    Truncated,
    /// Neither fits.
    TooLarge,
}

/// The full encoding when it fits in `max` bytes, else the truncated one
/// when that fits, else nothing.
pub fn choose_datagram_encoding(original_len: usize, truncated_len: usize, max: usize) -> (r: DatagramEncoding)
    ensures
        original_len <= max ==> r == DatagramEncoding::Original,
        original_len > max && truncated_len <= max ==> r == DatagramEncoding::Truncated,
        original_len > max && truncated_len > max ==> r == DatagramEncoding::TooLarge,
{
    if original_len <= max {
        DatagramEncoding::Original
    } else if truncated_len <= max {
        DatagramEncoding::Truncated
    } else {
        DatagramEncoding::TooLarge
    }
}

} // verus!
