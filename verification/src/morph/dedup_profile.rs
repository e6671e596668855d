//! The cost of the candidate dedup pass, measured apart from the transducer's own dedup: both are
//! linear scans that can blow up on optional-heavy shapes, and only a split measurement says which
//! dominates.
use vstd::prelude::*;

verus! {

/// Running totals over every dedup call: calls, nanoseconds, the largest and the summed length of
/// the candidate list each call scanned.
pub struct DedupProfile {
    calls: u64,
    nanos: u128,
    max_out_len: usize,
    total_out_len: u64,
}

impl DedupProfile {
    /// The totals as `(calls, total_ns, max_out_len_seen, total_out_len_seen)`.
    pub closed spec fn view_totals(&self) -> (u64, u128, usize, u64) {
        (self.calls, self.nanos, self.max_out_len, self.total_out_len)
    }

    /// All totals zero.
    pub fn new() -> (p: Self)
        ensures
            p.view_totals() == (0u64, 0u128, 0usize, 0u64),
    {
        DedupProfile { calls: 0, nanos: 0, max_out_len: 0, total_out_len: 0 }
    }

    /// Count one dedup call that took `elapsed_nanos` over a list of `out_len_before` candidates.
    pub fn record(&mut self, elapsed_nanos: u128, out_len_before: usize)
        requires
            old(self).view_totals().0 < u64::MAX,
            old(self).view_totals().1 + elapsed_nanos <= u128::MAX,
            old(self).view_totals().3 + out_len_before <= u64::MAX,
        ensures
            final(self).view_totals() == (
                (old(self).view_totals().0 + 1) as u64,
                (old(self).view_totals().1 + elapsed_nanos) as u128,
                if out_len_before > old(self).view_totals().2 { out_len_before } else { old(self).view_totals().2 },
                (old(self).view_totals().3 + out_len_before) as u64,
            ),
    {
        self.calls = self.calls + 1;
        self.nanos = self.nanos + elapsed_nanos;
        if out_len_before > self.max_out_len {
            self.max_out_len = out_len_before;
        }
        self.total_out_len = self.total_out_len + out_len_before as u64;
    }

    /// `(calls, total_ns, max_out_len_seen, total_out_len_seen)`, never reset.
    pub fn snapshot(&self) -> (s: (u64, u128, usize, u64))
        ensures
            s == self.view_totals(),
    {
        (self.calls, self.nanos, self.max_out_len, self.total_out_len)
    }
}

} // verus!
