//! The per-kind self-time accumulator behind the statistics sub-phase breakdown. An ordinary
//! build carries `SelfTimeAccumulator`: calibration is not compiled in, so entering a region reads
//! no clock and the totals stay empty (generic over the caller's own key type). A calibration run
//! carries `CalibratedAccumulator`: real elapsed nanoseconds attributed to the innermost open
//! region, every nested region's elapsed time subtracted from its parent's, so a kind that
//! triggers other kinds is charged only its own cost; its kinds are the caller's kinds numbered.
use vstd::prelude::*;

use std::marker::PhantomData;

use rustc_hash::FxHashMap;
use web_time::Instant;

use crate::clock::{duration_as_nanos, instant_elapsed, instant_now};
use crate::fxmap::{fx_get_i64, fx_insert_i64, fx_new};
use crate::stats::nested_after_close;

verus! {

/// One key's accumulated self time and work, in the caller's own work unit.
#[derive(Copy, Clone, Debug, PartialEq, Eq, Structural)]
pub struct KindTotals {
    pub ns: u64,
    pub work: u64,
}

impl Default for KindTotals {
    fn default() -> (t: Self)
        ensures
            t.ns == 0 && t.work == 0,
    {
        KindTotals { ns: 0, work: 0 }
    }
}

/// With calibration off: no stack and no clock reads.
pub struct SelfTimeAccumulator<K> {
    marker: PhantomData<K>,
}

/// The handle `enter` returns; with calibration off it closes nothing.
#[must_use]
pub struct RegionGuard<K> {
    marker: PhantomData<K>,
}

impl<K> SelfTimeAccumulator<K> {
    pub fn new() -> (a: Self) {
        SelfTimeAccumulator { marker: PhantomData }
    }

    /// Enter a region for `kind` carrying `work` units: nothing is recorded.
    pub fn enter(&self, kind: K, work: u64) -> (g: RegionGuard<K>) {
        RegionGuard { marker: PhantomData }
    }

    /// Every kind's totals so far: none, since nothing is recorded.
    pub fn totals(&self) -> (t: FxHashMap<K, KindTotals>)
        ensures
            t@.dom().is_empty(),
    {
        fx_new()
    }
}

impl<K> Default for SelfTimeAccumulator<K> {
    fn default() -> (a: Self) {
        Self::new()
    }
}

/// `a + b`, wrapping at 2^64.
pub open spec fn wrapping(a: u64, b: u64) -> u64 {
    ((a + b) % 0x1_0000_0000_0000_0000) as u64
}

/// `elapsed` minus `nested`, zero if negative.
pub open spec fn self_time(elapsed: u64, nested: u64) -> u64 {
    (if elapsed >= nested { elapsed - nested } else { 0 }) as u64
}

/// A kind's totals after one more region of `self_ns` nanoseconds carrying `work` units.
pub open spec fn add_region(t: KindTotals, self_ns: u64, work: u64) -> KindTotals {
    KindTotals { ns: wrapping(t.ns, self_ns), work: wrapping(t.work, work) }
}

/// An open region of a calibration run.
struct CalibrationFrame {
    kind: u32,
    start: Instant,
    nested_ns: u64,
}

/// The live accumulator of a calibration run: a stack of open regions and every kind's totals.
pub struct CalibratedAccumulator {
    stack: Vec<CalibrationFrame>,
    slot_of: FxHashMap<i64, usize>,
    slots: Vec<(u32, KindTotals)>,
}

/// The handle `CalibratedAccumulator::enter` returns: closing it books the region.
#[must_use]
pub struct CalibratedRegion {
    kind: u32,
    work: u64,
}

impl CalibratedRegion {
    pub closed spec fn kind(&self) -> u32 {
        self.kind
    }

    pub closed spec fn work(&self) -> u64 {
        self.work
    }

    /// Close the region, reading its elapsed time off the clock (see
    /// `CalibratedAccumulator::close`).
    pub fn exit(self, acc: &mut CalibratedAccumulator)
        requires
            old(acc).wf(),
            old(acc).open_kinds().len() > 0,
            old(acc).open_kinds().last() == self.kind(),
        ensures
            exists|elapsed_ns: u64| region_booked(*old(acc), *final(acc), self.kind(), self.work(), elapsed_ns),
    {
        let n = acc.stack.len();
        let elapsed = instant_elapsed(&acc.stack[n - 1].start);
        let nanos = duration_as_nanos(&elapsed);
        let elapsed_ns: u64 = #[verifier::truncate] (nanos as u64);
        acc.close(self.kind, self.work, elapsed_ns);
        assert(region_booked(*old(acc), *acc, self.kind(), self.work(), elapsed_ns));
    }
}

/// The totals of `kind` so far, zero if it has none.
pub open spec fn totals_of(a: CalibratedAccumulator, kind: u32) -> KindTotals {
    if a.kind_totals().contains_key(kind) {
        a.kind_totals()[kind]
    } else {
        KindTotals { ns: 0, work: 0 }
    }
}

/// A nested region's time is charged to its own kind only: when a region just entered inside
/// another (of a different kind, with nothing nested in it before) closes `inner_ns` after it
/// opened, and the enclosing region then closes `outer_ns` after it opened, the inner kind gains
/// `inner_ns` and the outer kind `outer_ns - inner_ns` (zero if negative), each with its own work.
pub proof fn law_nested_region_is_charged_once(
    a0: CalibratedAccumulator,
    a1: CalibratedAccumulator,
    a2: CalibratedAccumulator,
    inner_work: u64,
    outer_work: u64,
    inner_ns: u64,
    outer_ns: u64,
)
    requires
        a0.wf(),
        a0.open_kinds().len() >= 2,
        a0.open_nested().last() == 0,
        a0.open_nested()[a0.open_nested().len() - 2] == 0,
        a0.open_kinds().last() != a0.open_kinds()[a0.open_kinds().len() - 2],
        region_booked(a0, a1, a0.open_kinds().last(), inner_work, inner_ns),
        region_booked(a1, a2, a0.open_kinds()[a0.open_kinds().len() - 2], outer_work, outer_ns),
    ensures
        ({
            let inner = a0.open_kinds().last();
            let outer = a0.open_kinds()[a0.open_kinds().len() - 2];
            &&& totals_of(a2, inner) == add_region(totals_of(a0, inner), inner_ns, inner_work)
            &&& totals_of(a2, outer) == add_region(totals_of(a0, outer), self_time(outer_ns, inner_ns), outer_work)
        }),
{
    assert(a0.open_nested().len() == a0.open_kinds().len());
    let inner = a0.open_kinds().last();
    let outer = a0.open_kinds()[a0.open_kinds().len() - 2];
    assert(a1.open_nested().last() == inner_ns);
    assert(a1.kind_totals().contains_key(inner));
    assert(a2.kind_totals().contains_key(inner));
    assert(a2.kind_totals().contains_key(outer));
    assert(totals_of(a1, outer) == totals_of(a0, outer));
}

/// `after` is `before` with its innermost region, of `kind` carrying `work`, closed `elapsed` after
/// it opened: the kind's totals gain the region's self time (`elapsed` minus the time of the regions
/// nested in it, zero if negative) and its work, and the enclosing region's nested time gains
/// `elapsed`.
pub open spec fn region_booked(
    before: CalibratedAccumulator,
    after: CalibratedAccumulator,
    kind: u32,
    work: u64,
    elapsed: u64,
) -> bool {
    let old_t = totals_of(before, kind);
    &&& after.wf()
    &&& after.open_kinds() == before.open_kinds().drop_last()
    &&& after.open_nested() == nested_after_close(before.open_nested(), elapsed)
    &&& after.kind_totals() == before.kind_totals().insert(
        kind,
        add_region(old_t, self_time(elapsed, before.open_nested().last()), work),
    )
}

impl CalibratedAccumulator {
    /// The slots hold distinct kinds, each found through its code.
    pub closed spec fn wf(&self) -> bool {
        &&& forall|s: int|
            0 <= s < self.slots@.len() ==> self.slot_of@.contains_key(#[trigger] self.slots@[s].0 as i64)
                && self.slot_of@[self.slots@[s].0 as i64] == s
        &&& forall|k: u32|
            #[trigger] self.slot_of@.contains_key(k as i64) ==> self.slot_of@[k as i64] < self.slots@.len()
                && self.slots@[self.slot_of@[k as i64] as int].0 == k
    }

    /// The kinds of the open regions, innermost last.
    pub closed spec fn open_kinds(&self) -> Seq<u32> {
        self.stack@.map_values(|f: CalibrationFrame| f.kind)
    }

    /// The time each open region has spent in regions nested in it and already closed.
    pub closed spec fn open_nested(&self) -> Seq<u64> {
        self.stack@.map_values(|f: CalibrationFrame| f.nested_ns)
    }

    /// Every kind's totals so far.
    pub closed spec fn kind_totals(&self) -> Map<u32, KindTotals> {
        Map::new(|k: u32| self.slot_of@.contains_key(k as i64), |k: u32| self.slots@[self.slot_of@[k as i64] as int].1)
    }

    /// A fresh accumulator: no open region, no totals.
    pub fn new() -> (a: Self)
        ensures
            a.wf(),
            a.open_kinds() == Seq::<u32>::empty(),
            a.open_nested() == Seq::<u64>::empty(),
            a.kind_totals() == Map::<u32, KindTotals>::empty(),
    {
        let a = CalibratedAccumulator { stack: Vec::new(), slot_of: fx_new(), slots: Vec::new() };
        assert(a.open_kinds() =~= Seq::<u32>::empty());
        assert(a.open_nested() =~= Seq::<u64>::empty());
        assert(a.kind_totals() =~= Map::<u32, KindTotals>::empty());
        a
    }

    /// Enter a region of `kind` carrying `work` units, reading the clock.
    pub fn enter(&mut self, kind: u32, work: u64) -> (g: CalibratedRegion)
        ensures
            final(self).wf() == old(self).wf(),
            final(self).open_kinds() == old(self).open_kinds().push(kind),
            final(self).open_nested() == old(self).open_nested().push(0u64),
            final(self).kind_totals() == old(self).kind_totals(),
            g.kind() == kind,
            g.work() == work,
    {
        let start = instant_now();
        self.stack.push(CalibrationFrame { kind, start, nested_ns: 0 });
        assert(self.open_kinds() =~= old(self).open_kinds().push(kind));
        assert(self.open_nested() =~= old(self).open_nested().push(0u64));
        assert(self.kind_totals() =~= old(self).kind_totals());
        CalibratedRegion { kind, work }
    }

    /// Close the innermost region, of `kind` carrying `work`, `elapsed_ns` after it was entered:
    /// the kind's totals gain `elapsed_ns` minus the time of the regions nested in it (zero if
    /// negative) and `work` (both wrapping), and the enclosing region, if any, has `elapsed_ns`
    /// added to its nested time.
    pub fn close(&mut self, kind: u32, work: u64, elapsed_ns: u64)
        requires
            old(self).wf(),
            old(self).open_kinds().len() > 0,
            old(self).open_kinds().last() == kind,
        ensures
            region_booked(*old(self), *final(self), kind, work, elapsed_ns),
    {
        let ghost old_nested = self.open_nested();
        let ghost old_kinds = self.open_kinds();
        let ghost old_totals = self.kind_totals();
        let frame = self.stack.pop().unwrap();
        assert(old_kinds.last() == frame.kind);
        assert(old_nested.last() == frame.nested_ns);
        let self_ns = elapsed_ns.saturating_sub(frame.nested_ns);
        let n = self.stack.len();
        if n > 0 {
            let parent = &self.stack[n - 1];
            let updated = CalibrationFrame {
                kind: parent.kind,
                start: parent.start,
                nested_ns: parent.nested_ns.wrapping_add(elapsed_ns),
            };
            self.stack.set(n - 1, updated);
        }
        assert(self.open_kinds() =~= old_kinds.drop_last());
        assert(self.open_nested() =~= nested_after_close(old_nested, elapsed_ns));
        let code = kind as i64;
        match fx_get_i64(&self.slot_of, code) {
            Some(s) => {
                let (k, t) = self.slots[s];
                let updated = KindTotals { ns: t.ns.wrapping_add(self_ns), work: t.work.wrapping_add(work) };
                self.slots.set(s, (k, updated));
                assert(old_totals[kind] == t);
            },
            None => {
                let s = self.slots.len();
                fx_insert_i64(&mut self.slot_of, code, s);
                self.slots.push((kind, KindTotals { ns: self_ns, work }));
                assert forall|t: int| 0 <= t < s implies self.slots@[t].0 != kind by {
                    assert(old(self).slot_of@.contains_key(old(self).slots@[t].0 as i64));
                }
            },
        }
        assert(self.kind_totals() =~= old_totals.insert(
            kind,
            add_region(
                if old_totals.contains_key(kind) {
                    old_totals[kind]
                } else {
                    KindTotals { ns: 0, work: 0 }
                },
                self_time(elapsed_ns, old_nested.last()),
                work,
            ),
        ));
    }

    /// Every kind's totals so far, one entry per kind.
    pub fn totals(&self) -> (t: Vec<(u32, KindTotals)>)
        requires
            self.wf(),
        ensures
            forall|i: int|
                0 <= i < t@.len() ==> self.kind_totals().contains_key(#[trigger] t@[i].0) && self.kind_totals()[t@[i].0]
                    == t@[i].1,
            forall|i: int, j: int| 0 <= i < j < t@.len() ==> t@[i].0 != t@[j].0,
            forall|k: u32| #[trigger] self.kind_totals().contains_key(k) ==> exists|i: int| 0 <= i < t@.len() && t@[i].0 == k,
    {
        let mut t: Vec<(u32, KindTotals)> = Vec::new();
        let mut i: usize = 0;
        while i < self.slots.len()
            invariant
                i <= self.slots@.len(),
                self.wf(),
                t@ == self.slots@.take(i as int),
            decreases self.slots@.len() - i,
        {
            t.push(self.slots[i]);
            assert(t@ =~= self.slots@.take(i as int + 1));
            i = i + 1;
        }
        assert(self.slots@.take(self.slots@.len() as int) =~= self.slots@);
        assert forall|i: int| 0 <= i < t@.len() implies self.kind_totals().contains_key(#[trigger] t@[i].0)
            && self.kind_totals()[t@[i].0] == t@[i].1 by {
            assert(self.slot_of@.contains_key(self.slots@[i].0 as i64));
        }
        assert forall|i: int, j: int| 0 <= i < j < t@.len() implies t@[i].0 != t@[j].0 by {
            assert(self.slot_of@.contains_key(self.slots@[i].0 as i64));
            assert(self.slot_of@.contains_key(self.slots@[j].0 as i64));
        }
        assert forall|k: u32| #[trigger] self.kind_totals().contains_key(k) implies exists|i: int|
            0 <= i < t@.len() && t@[i].0 == k by {
            let s = self.slot_of@[k as i64] as int;
            assert(t@[s].0 == k);
        }
        t
    }
}

} // verus!
