//! A diagnostic that puts allocator bytes, the live-frontier model, and both memo tables' model
//! bytes on one clock, sampled at the same instant. A sample is recorded once per completed stratum
//! pass and once per canonical in the synthesis loop; samples accumulate until drained once per
//! word.
//!
//! The sampler is off unless its owner turns it on; while off, recording does nothing. The
//! allocator reading comes from a hook installed only in builds that count allocations; without
//! one, the allocator fields of a sample are absent, never a zero standing in for a number.
use vstd::prelude::*;

verus! {

/// One instant's reading across every tracked pool.
#[derive(Debug, Clone, Copy)]
pub struct ClockSample {
    pub seq: u64,
    /// Where in the pipeline this was taken: `"stratum_pass"` or `"synthesis_loop"`.
    pub point: &'static str,
    pub alloc_peak_bytes: Option<u64>,
    pub alloc_live_bytes: Option<u64>,
    /// The deduplicated model size of the words live at this instant.
    pub live_frontier_bytes: u64,
    pub memo_key_bytes: u64,
    pub memo_results_bytes: u64,
    pub tpl_key_bytes: u64,
    pub tpl_results_bytes: u64,
}

/// What the analysis scope's memo tables report at one instant, where a scope is at hand.
#[derive(Debug, Clone, Copy, PartialEq, Eq, Structural)]
pub struct ScopeBytes {
    pub memo_key_bytes: usize,
    pub tpl_key_bytes: usize,
    pub memo_results_bytes: usize,
    pub tpl_results_bytes: usize,
}

/// The sample buffer and its sequence counter. `F` reads `(peak_bytes, live_bytes)` from a
/// counting allocator.
pub struct ClockSampler<F> {
    enabled: bool,
    seq: u64,
    samples: Vec<ClockSample>,
    alloc_query: Option<F>,
}

/// The sample `record` takes, given the allocator reading `alloc` (absent without a hook).
pub open spec fn sample_of(
    seq: u64,
    point: &'static str,
    alloc: Option<(u64, u64)>,
    live_frontier_bytes: u64,
    scope: Option<ScopeBytes>,
) -> ClockSample {
    ClockSample {
        seq,
        point,
        alloc_peak_bytes: match alloc {
            Some(a) => Some(a.0),
            None => None,
        },
        alloc_live_bytes: match alloc {
            Some(a) => Some(a.1),
            None => None,
        },
        live_frontier_bytes,
        memo_key_bytes: match scope {
            Some(s) => s.memo_key_bytes as u64,
            None => 0,
        },
        memo_results_bytes: match scope {
            Some(s) => s.memo_results_bytes as u64,
            None => 0,
        },
        tpl_key_bytes: match scope {
            Some(s) => s.tpl_key_bytes as u64,
            None => 0,
        },
        tpl_results_bytes: match scope {
            Some(s) => s.tpl_results_bytes as u64,
            None => 0,
        },
    }
}

/// A sample takes the installed hook's reading, peak first and live bytes second: when the hook `f`
/// always answers `(peak, live)` and a recording appended the sample `record` takes with some
/// answer of `f`, that sample carries `Some(peak)` and `Some(live)`.
pub proof fn law_sample_carries_the_hook_reading<F: Fn() -> (u64, u64)>(
    f: F,
    peak: u64,
    live: u64,
    before: Seq<ClockSample>,
    after: Seq<ClockSample>,
    seq: u64,
    point: &'static str,
    live_frontier_bytes: u64,
    scope: Option<ScopeBytes>,
)
    requires
        forall|r: (u64, u64)| call_ensures(f, (), r) ==> r == (peak, live),
        exists|r: (u64, u64)|
            call_ensures(f, (), r) && after == before.push(sample_of(seq, point, Some(r), live_frontier_bytes, scope)),
    ensures
        after.len() == before.len() + 1,
        after.last().alloc_peak_bytes == Some(peak),
        after.last().alloc_live_bytes == Some(live),
        after.last().seq == seq,
{
    let r = choose|r: (u64, u64)|
        call_ensures(f, (), r) && after == before.push(sample_of(seq, point, Some(r), live_frontier_bytes, scope));
    assert(r == (peak, live));
}

impl<F: Fn() -> (u64, u64)> ClockSampler<F> {
    pub closed spec fn is_enabled(&self) -> bool {
        self.enabled
    }

    /// The sequence number the next sample gets.
    pub closed spec fn next_seq(&self) -> u64 {
        self.seq
    }

    /// The samples recorded since the last drain, in recording order.
    pub closed spec fn pending(&self) -> Seq<ClockSample> {
        self.samples@
    }

    /// The installed allocator hook, if any.
    pub closed spec fn hook(&self) -> Option<F> {
        self.alloc_query
    }

    /// An empty sampler with no hook, recording only when `enabled`.
    pub fn new(enabled: bool) -> (s: Self)
        ensures
            s.is_enabled() == enabled,
            s.next_seq() == 0,
            s.pending() == Seq::<ClockSample>::empty(),
            s.hook() is None,
    {
        ClockSampler { enabled, seq: 0, samples: Vec::new(), alloc_query: None }
    }

    /// Install the allocator hook that later samples read.
    pub fn set_allocator_query_hook(&mut self, f: F)
        ensures
            final(self).hook() == Some(f),
            final(self).is_enabled() == old(self).is_enabled(),
            final(self).next_seq() == old(self).next_seq(),
            final(self).pending() == old(self).pending(),
    {
        self.alloc_query = Some(f);
    }

    /// Record one instant, when enabled: the next sequence number, the allocator hook's reading,
    /// the live words' model bytes, and the scope's table bytes (zero without a scope).
    pub fn record(&mut self, point: &'static str, live_frontier_bytes: u64, scope: Option<ScopeBytes>)
        requires
            old(self).is_enabled() ==> old(self).next_seq() < u64::MAX,
            old(self).is_enabled() && old(self).hook() is Some ==> call_requires(old(self).hook()->0, ()),
        ensures
            final(self).is_enabled() == old(self).is_enabled(),
            final(self).hook() == old(self).hook(),
            !old(self).is_enabled() ==> final(self).next_seq() == old(self).next_seq() && final(self).pending()
                == old(self).pending(),
            old(self).is_enabled() ==> final(self).next_seq() == old(self).next_seq() + 1,
            old(self).is_enabled() && old(self).hook() is None ==> final(self).pending() == old(self).pending().push(
                sample_of(old(self).next_seq(), point, None, live_frontier_bytes, scope),
            ),
            old(self).is_enabled() && old(self).hook() is Some ==> exists|r: (u64, u64)|
                call_ensures(old(self).hook()->0, (), r) && final(self).pending() == old(self).pending().push(
                    sample_of(old(self).next_seq(), point, Some(r), live_frontier_bytes, scope),
                ),
    {
        if !self.enabled {
            return;
        }
        let (memo_key_bytes, tpl_key_bytes) = match scope {
            Some(s) => (s.memo_key_bytes, s.tpl_key_bytes),
            None => (0, 0),
        };
        let memo_results_bytes: u64 = match scope {
            Some(s) => s.memo_results_bytes as u64,
            None => 0,
        };
        let tpl_results_bytes: u64 = match scope {
            Some(s) => s.tpl_results_bytes as u64,
            None => 0,
        };
        let ghost mut reading: Option<(u64, u64)> = None;
        let (alloc_peak_bytes, alloc_live_bytes) = match &self.alloc_query {
            Some(f) => {
                let (peak, live) = f();
                proof {
                    reading = Some((peak, live));
                }
                (Some(peak), Some(live))
            },
            None => (None, None),
        };
        let seq = self.seq;
        self.seq = seq + 1;
        self.samples.push(
            ClockSample {
                seq,
                point,
                alloc_peak_bytes,
                alloc_live_bytes,
                live_frontier_bytes,
                memo_key_bytes: memo_key_bytes as u64,
                memo_results_bytes,
                tpl_key_bytes: tpl_key_bytes as u64,
                tpl_results_bytes,
            },
        );
        assert(self.samples@.last() == sample_of(seq, point, reading, live_frontier_bytes, scope));
    }

    /// Drain every sample recorded since the last drain, in recording order.
    pub fn take_samples(&mut self) -> (out: Vec<ClockSample>)
        ensures
            out@ == old(self).pending(),
            final(self).pending() == Seq::<ClockSample>::empty(),
            final(self).is_enabled() == old(self).is_enabled(),
            final(self).next_seq() == old(self).next_seq(),
            final(self).hook() == old(self).hook(),
    {
        let mut out: Vec<ClockSample> = Vec::new();
        std::mem::swap(&mut out, &mut self.samples);
        out
    }
}

} // verus!
