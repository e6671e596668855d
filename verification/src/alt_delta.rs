//! A diagnostic, off unless its owner turns it on: for each stored alternative of a word, the byte
//! cost the full-clone representation pays against what a delta from the alternative's source would
//! need, and how many of the ten comparable fields the alternative shares with its canonical word.
//! Nothing here changes a storage format; it measures whether one would be worth building.
use vstd::prelude::*;

verus! {

/// The number of fields `identical_field_count` compares (those not expected to always differ).
pub const COMPARABLE_FIELD_COUNT: u32 = 10;

/// Which comparable fields of an alternative equal its canonical word's.
#[derive(Clone, Copy, Debug, PartialEq, Eq, Structural)]
pub struct FieldMatches {
    pub stratum: bool,
    pub syn_fs: bool,
    pub mpr: bool,
    pub morphs: bool,
    pub non_head_app_index: bool,
    pub root_allomorph: bool,
    pub root_runtime_id: bool,
    pub obligatory: bool,
    pub unapplied_rule_counts: bool,
    pub flags: bool,
}

pub open spec fn bit(b: bool) -> int {
    if b {
        1
    } else {
        0
    }
}

/// How many comparable fields match.
pub open spec fn matched_count(m: FieldMatches) -> int {
    bit(m.stratum) + bit(m.syn_fs) + bit(m.mpr) + bit(m.morphs) + bit(m.non_head_app_index) + bit(m.root_allomorph)
        + bit(m.root_runtime_id) + bit(m.obligatory) + bit(m.unapplied_rule_counts) + bit(m.flags)
}

/// The number of comparable fields on which the alternative equals its canonical word.
pub fn identical_field_count(m: &FieldMatches) -> (n: u32)
    ensures
        n == matched_count(*m),
        n <= COMPARABLE_FIELD_COUNT,
{
    count_bit(m.stratum) + count_bit(m.syn_fs) + count_bit(m.mpr) + count_bit(m.morphs) + count_bit(m.non_head_app_index)
        + count_bit(m.root_allomorph) + count_bit(m.root_runtime_id) + count_bit(m.obligatory) + count_bit(
        m.unapplied_rule_counts,
    ) + count_bit(m.flags)
}

fn count_bit(b: bool) -> (n: u32)
    ensures
        n == bit(b),
{
    if b {
        1
    } else {
        0
    }
}

/// One stored alternative's measurements: its full-clone bytes, the bytes of its delta form, and
/// which comparable fields it shares with the canonical word.
#[derive(Clone, Copy, Debug, PartialEq, Eq, Structural)]
pub struct AltSample {
    pub full_bytes: u64,
    pub delta_bytes: u64,
    pub fields: FieldMatches,
}

/// The integer aggregate over every sampled alternative.
#[derive(Clone, Copy, Debug, PartialEq, Eq, Structural)]
pub struct AltDeltaTotals {
    pub samples: usize,
    pub full_bytes_total: u64,
    pub delta_bytes_total: u64,
    /// Summed over alternatives, out of `COMPARABLE_FIELD_COUNT` each.
    pub identical_fields_total: u64,
}

/// The sum of a sequence.
pub open spec fn sum_of(s: Seq<int>) -> int
    decreases s.len(),
{
    if s.len() == 0 {
        0
    } else {
        sum_of(s.drop_last()) + s.last()
    }
}

proof fn lemma_prefix_sum_le(s: Seq<int>, i: int)
    requires
        0 <= i <= s.len(),
        forall|j: int| 0 <= j < s.len() ==> s[j] >= 0,
    ensures
        0 <= sum_of(s.take(i)) <= sum_of(s),
    decreases s.len(),
{
    if s.len() > 0 {
        if i == s.len() {
            assert(s.take(i) =~= s);
            lemma_prefix_sum_le(s.drop_last(), i - 1);
            assert(s.drop_last().take(i - 1) =~= s.drop_last());
        } else {
            lemma_prefix_sum_le(s.drop_last(), i);
            assert(s.drop_last().take(i) =~= s.take(i));
        }
    }
}

/// The per-alternative samples; recording does nothing unless enabled.
pub struct AltDeltaRecorder {
    enabled: bool,
    full_bytes: Vec<u64>,
    delta_bytes: Vec<u64>,
    identical_fields: Vec<u32>,
}

pub open spec fn u64s(s: Seq<u64>) -> Seq<int> {
    s.map_values(|x: u64| x as int)
}

pub open spec fn u32s(s: Seq<u32>) -> Seq<int> {
    s.map_values(|x: u32| x as int)
}

fn sum_u64(v: &Vec<u64>) -> (t: u64)
    requires
        sum_of(u64s(v@)) <= u64::MAX,
    ensures
        t == sum_of(u64s(v@)),
{
    let mut t: u64 = 0;
    let mut i: usize = 0;
    while i < v.len()
        invariant
            i <= v@.len(),
            sum_of(u64s(v@)) <= u64::MAX,
            t == sum_of(u64s(v@).take(i as int)),
        decreases v@.len() - i,
    {
        proof {
            assert(u64s(v@).take(i + 1).drop_last() =~= u64s(v@).take(i as int));
            lemma_prefix_sum_le(u64s(v@), i + 1);
        }
        t = t + v[i];
        i = i + 1;
    }
    assert(u64s(v@).take(i as int) =~= u64s(v@));
    t
}

fn sum_u32(v: &Vec<u32>) -> (t: u64)
    requires
        sum_of(u32s(v@)) <= u64::MAX,
    ensures
        t == sum_of(u32s(v@)),
{
    let mut t: u64 = 0;
    let mut i: usize = 0;
    while i < v.len()
        invariant
            i <= v@.len(),
            sum_of(u32s(v@)) <= u64::MAX,
            t == sum_of(u32s(v@).take(i as int)),
        decreases v@.len() - i,
    {
        proof {
            assert(u32s(v@).take(i + 1).drop_last() =~= u32s(v@).take(i as int));
            lemma_prefix_sum_le(u32s(v@), i + 1);
        }
        t = t + v[i] as u64;
        i = i + 1;
    }
    assert(u32s(v@).take(i as int) =~= u32s(v@));
    t
}

impl AltDeltaRecorder {
    pub closed spec fn is_enabled(&self) -> bool {
        self.enabled
    }

    /// The full-clone bytes of each sampled alternative, in recording order.
    pub closed spec fn full(&self) -> Seq<u64> {
        self.full_bytes@
    }

    /// The delta bytes of each sampled alternative, in recording order.
    pub closed spec fn delta(&self) -> Seq<u64> {
        self.delta_bytes@
    }

    /// The identical-field count of each sampled alternative, in recording order.
    pub closed spec fn fields(&self) -> Seq<u32> {
        self.identical_fields@
    }

    /// The three sample lists run in step.
    pub closed spec fn wf(&self) -> bool {
        &&& self.full_bytes@.len() == self.delta_bytes@.len()
        &&& self.full_bytes@.len() == self.identical_fields@.len()
    }

    /// No samples yet; records only when `enabled`.
    pub fn new(enabled: bool) -> (r: Self)
        ensures
            r.wf(),
            r.is_enabled() == enabled,
            r.full() == Seq::<u64>::empty(),
            r.delta() == Seq::<u64>::empty(),
            r.fields() == Seq::<u32>::empty(),
    {
        AltDeltaRecorder { enabled, full_bytes: Vec::new(), delta_bytes: Vec::new(), identical_fields: Vec::new() }
    }

    /// Record every stored alternative of one canonical word, when enabled.
    pub fn record(&mut self, alternatives: &[AltSample])
        requires
            old(self).wf(),
        ensures
            final(self).wf(),
            final(self).is_enabled() == old(self).is_enabled(),
            !old(self).is_enabled() ==> final(self).full() == old(self).full() && final(self).delta() == old(self).delta()
                && final(self).fields() == old(self).fields(),
            old(self).is_enabled() ==> final(self).full() == old(self).full() + alternatives@.map_values(
                |a: AltSample| a.full_bytes,
            ),
            old(self).is_enabled() ==> final(self).delta() == old(self).delta() + alternatives@.map_values(
                |a: AltSample| a.delta_bytes,
            ),
            old(self).is_enabled() ==> final(self).fields().len() == old(self).fields().len() + alternatives@.len(),
            old(self).is_enabled() ==> final(self).fields().subrange(0, old(self).fields().len() as int) == old(
                self,
            ).fields(),
            old(self).is_enabled() ==> forall|j: int|
                0 <= j < alternatives@.len() ==> final(self).fields()[old(self).fields().len() + j] == matched_count(
                    #[trigger] alternatives@[j].fields,
                ),
    {
        if !self.enabled {
            return;
        }
        if alternatives.len() == 0 {
            proof {
                assert(alternatives@.map_values(|a: AltSample| a.full_bytes) =~= Seq::<u64>::empty());
                assert(alternatives@.map_values(|a: AltSample| a.delta_bytes) =~= Seq::<u64>::empty());
                assert(self.full_bytes@ + Seq::<u64>::empty() =~= self.full_bytes@);
                assert(self.delta_bytes@ + Seq::<u64>::empty() =~= self.delta_bytes@);
                assert(self.identical_fields@.subrange(0, self.identical_fields@.len() as int) =~= self.identical_fields@);
            }
            return;
        }
        let ghost f0 = self.full_bytes@;
        let ghost d0 = self.delta_bytes@;
        let ghost c0 = self.identical_fields@;
        let mut i: usize = 0;
        while i < alternatives.len()
            invariant
                i <= alternatives@.len(),
                self.enabled,
                self.full_bytes@ == f0 + alternatives@.take(i as int).map_values(|a: AltSample| a.full_bytes),
                self.delta_bytes@ == d0 + alternatives@.take(i as int).map_values(|a: AltSample| a.delta_bytes),
                self.identical_fields@.len() == c0.len() + i,
                self.identical_fields@.subrange(0, c0.len() as int) == c0,
                forall|j: int| 0 <= j < i ==> self.identical_fields@[c0.len() + j] == matched_count(
                    #[trigger] alternatives@[j].fields,
                ),
                f0.len() == d0.len(),
                f0.len() == c0.len(),
            decreases alternatives@.len() - i,
        {
            let alt = alternatives[i];
            let fields = identical_field_count(&alt.fields);
            self.full_bytes.push(alt.full_bytes);
            self.delta_bytes.push(alt.delta_bytes);
            self.identical_fields.push(fields);
            proof {
                assert(alternatives@.take(i + 1).map_values(|a: AltSample| a.full_bytes) =~= alternatives@.take(
                    i as int,
                ).map_values(|a: AltSample| a.full_bytes).push(alt.full_bytes));
                assert(alternatives@.take(i + 1).map_values(|a: AltSample| a.delta_bytes) =~= alternatives@.take(
                    i as int,
                ).map_values(|a: AltSample| a.delta_bytes).push(alt.delta_bytes));
                assert(self.identical_fields@.subrange(0, c0.len() as int) =~= c0);
            }
            i = i + 1;
        }
        assert(alternatives@.take(i as int) =~= alternatives@);
    }

    /// The integer aggregate over every sample so far.
    pub fn totals(&self) -> (t: AltDeltaTotals)
        requires
            self.wf(),
            sum_of(u64s(self.full())) <= u64::MAX,
            sum_of(u64s(self.delta())) <= u64::MAX,
            sum_of(u32s(self.fields())) <= u64::MAX,
        ensures
            t.samples == self.fields().len(),
            t.full_bytes_total == sum_of(u64s(self.full())),
            t.delta_bytes_total == sum_of(u64s(self.delta())),
            t.identical_fields_total == sum_of(u32s(self.fields())),
    {
        AltDeltaTotals {
            samples: self.identical_fields.len(),
            full_bytes_total: sum_u64(&self.full_bytes),
            delta_bytes_total: sum_u64(&self.delta_bytes),
            identical_fields_total: sum_u32(&self.identical_fields),
        }
    }

    /// The full-clone bytes of each sample, in recording order.
    pub fn full_samples(&self) -> (s: &[u64])
        ensures
            s@ == self.full(),
    {
        self.full_bytes.as_slice()
    }

    /// The delta bytes of each sample, in recording order.
    pub fn delta_samples(&self) -> (s: &[u64])
        ensures
            s@ == self.delta(),
    {
        self.delta_bytes.as_slice()
    }

    /// The identical-field count of each sample, in recording order.
    pub fn field_samples(&self) -> (s: &[u32])
        ensures
            s@ == self.fields(),
    {
        self.identical_fields.as_slice()
    }
}

} // verus!
