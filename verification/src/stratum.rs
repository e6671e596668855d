//! The per-stratum analysis/synthesis configuration and bookkeeping: the final-template policies,
//! the analysis state a morphological rule leaves behind, the analyzer configuration, the output
//! sink and output fold of a stratum's analysis, the search-step budget shared across a whole
//! parse, and the live-frontier profile.
//!
//! Termination of a stratum's analysis is not the cascades' own doing: the multi-application
//! cascades stop only when rules stop applying, so one `StepBudget` shared across the whole parse
//! bounds them instead. An exhausted budget reads to the cascades as "rule did not apply".
use vstd::prelude::*;

use std::time::Duration;
use web_time::Instant;

use crate::clock::{instant_checked_add, instant_not_before, instant_now};
use crate::fxmap::{fx_contains_i64, fx_get_i64, fx_insert_i64, fx_new, FxMapI64};

verus! {

/// Where a word stands with respect to final affix templates during analysis.
#[derive(Clone, Copy, Debug, PartialEq, Eq, Structural)]
pub enum FinalTemplateState {
    /// No template constraint is pending.
    Cleared,
    /// The last unapplied rule ran outside any template.
    NonTemplate,
}

/// Decided per stratum by the parse owner from grammar facts.
#[derive(Clone, Copy, Debug, PartialEq, Eq, Structural)]
pub struct FinalTemplateAnalysisPolicy {
    pub enforce: bool,
    pub all_templates_final: bool,
}

impl Default for FinalTemplateAnalysisPolicy {
    /// Pruning is off by default.
    fn default() -> (p: Self)
        ensures
            !p.enforce && !p.all_templates_final,
    {
        FinalTemplateAnalysisPolicy { enforce: false, all_templates_final: false }
    }
}

/// Synthesis-side override for the final-template rescue gate.
#[derive(Clone, Copy, Debug, PartialEq, Eq, Structural)]
pub struct FinalTemplateSynthesisPolicy {
    pub always_enforce: bool,
}

impl Default for FinalTemplateSynthesisPolicy {
    fn default() -> (p: Self)
        ensures
            !p.always_enforce,
    {
        FinalTemplateSynthesisPolicy { always_enforce: false }
    }
}

/// The role in which a morphological rule is invoked.
#[derive(Clone, Copy, Debug, PartialEq, Eq, Structural)]
pub enum RuleInvocationRole {
    Ordinary,
    TemplateSlot,
}

/// The analysis state a morphological rule leaves: a realizational rule, or any rule applied as a
/// template slot, clears it; an ordinary non-realizational rule marks the word as past a
/// non-template rule.
pub open spec fn spec_analysis_state_after_mrule(role: RuleInvocationRole, is_realizational: bool) -> FinalTemplateState {
    if !is_realizational && role == RuleInvocationRole::Ordinary {
        FinalTemplateState::NonTemplate
    } else {
        FinalTemplateState::Cleared
    }
}

pub fn analysis_state_after_mrule(role: RuleInvocationRole, is_realizational: bool) -> (s: FinalTemplateState)
    ensures
        s == spec_analysis_state_after_mrule(role, is_realizational),
{
    match (role, is_realizational) {
        (_, true) | (RuleInvocationRole::TemplateSlot, false) => FinalTemplateState::Cleared,
        (RuleInvocationRole::Ordinary, false) => FinalTemplateState::NonTemplate,
    }
}

/// Configuration for a stratum (un)application run.
#[derive(Clone, Copy, Debug, PartialEq, Eq, Structural)]
pub struct AnalyzerConfig {
    /// Collapse candidates sharing an analysis state into one canonical word with alternatives.
    pub merge_equivalent: bool,
    /// Stop once the analysis output reaches this many candidates (`0` = unlimited).
    pub max_unapplications: usize,
    /// Refuse to unapply a compounding rule once `non_heads.len() + 1 >= max_stem_count`.
    pub max_stem_count: u32,
}

impl Default for AnalyzerConfig {
    fn default() -> (c: Self)
        ensures
            c.merge_equivalent,
            c.max_unapplications == 0,
            c.max_stem_count == 2,
    {
        AnalyzerConfig { merge_equivalent: true, max_unapplications: 0, max_stem_count: 2 }
    }
}

/// The result of running a stratum's analysis rule: the deduplicated candidates and whether the
/// step budget fired.
pub struct StratumAnalysis<W> {
    pub words: Vec<W>,
    pub capped: bool,
}

/// Where the stratum's mutually recursive descent pushes each produced word, refusing further
/// pushes once the output budget (when one is set) is used up. The owner keeps `remaining` in step
/// with its output fold (`OutputFold::remaining`).
pub struct WordSink<W> {
    pub words: Vec<W>,
    pub remaining: Option<usize>,
}

impl<W> WordSink<W> {
    /// Once the output cap is reached, further pushes are refused.
    pub fn done(&self) -> (d: bool)
        ensures
            d == (self.remaining == Some(0usize)),
    {
        match self.remaining {
            Some(r) => r == 0,
            None => false,
        }
    }

    pub fn push(&mut self, w: W)
        ensures
            final(self).remaining == old(self).remaining,
            old(self).remaining == Some(0usize) ==> final(self).words@ == old(self).words@,
            old(self).remaining != Some(0usize) ==> final(self).words@ == old(self).words@.push(w),
    {
        if !self.done() {
            self.words.push(w);
        }
    }
}

/// What folding one candidate into a stratum's analysis output did.
#[derive(Clone, Copy, Debug, PartialEq, Eq, Structural)]
pub enum FoldOutcome {
    /// Merged as an alternative of the canonical at this index.
    Alternative(usize),
    /// Kept as a new canonical at this index.
    Kept(usize),
    /// Dropped: its word key is already in the output and no state key was asked for.
    Duplicate,
}

/// The bookkeeping of one stratum's output fold. Candidates are identified by their word key and,
/// when equivalent analyses are merged, by their analysis-state key (both as integer identities).
/// A candidate whose state key, or failing that word key, already has a canonical folds into it as
/// an alternative; otherwise a candidate with a new word key becomes the next canonical.
pub struct OutputFold {
    output_keys: FxMapI64,
    state_keys: FxMapI64,
    count: usize,
    remaining: Option<usize>,
}

/// The outcome of folding a candidate with word key `dedup_key` and state key `state_key`.
pub open spec fn fold_outcome(
    outputs: Map<i64, usize>,
    states: Map<i64, usize>,
    count: nat,
    dedup_key: i64,
    state_key: Option<i64>,
) -> FoldOutcome {
    match state_key {
        Some(sk) if states.contains_key(sk) => FoldOutcome::Alternative(states[sk]),
        Some(sk) if outputs.contains_key(dedup_key) => FoldOutcome::Alternative(outputs[dedup_key]),
        _ => if outputs.contains_key(dedup_key) {
            FoldOutcome::Duplicate
        } else {
            FoldOutcome::Kept(count as usize)
        },
    }
}

impl OutputFold {
    /// Canonical indices run from 0 to the count: every registered key names an existing canonical.
    pub closed spec fn wf(&self) -> bool {
        &&& forall|k: i64| #[trigger] self.output_keys@.contains_key(k) ==> self.output_keys@[k] < self.count
        &&& forall|k: i64| #[trigger] self.state_keys@.contains_key(k) ==> self.state_keys@[k] < self.count
    }

    /// Word key to canonical index.
    pub closed spec fn outputs(&self) -> Map<i64, usize> {
        self.output_keys@
    }

    /// Analysis-state key to canonical index.
    pub closed spec fn states(&self) -> Map<i64, usize> {
        self.state_keys@
    }

    /// The number of canonicals, the seed included.
    pub closed spec fn count(&self) -> nat {
        self.count as nat
    }

    /// How many more canonicals may be kept, when the output is capped.
    pub closed spec fn remaining_spec(&self) -> Option<usize> {
        self.remaining
    }

    /// The fold of a stratum whose input word has key `seed_key`: the seed is canonical 0, its
    /// state key is not registered, and at most `max_unapplications` further canonicals are kept
    /// (`0` for no limit).
    pub fn new(seed_key: i64, max_unapplications: usize) -> (f: Self)
        ensures
            f.wf(),
            f.outputs() == Map::<i64, usize>::empty().insert(seed_key, 0usize),
            f.states().dom().is_empty(),
            f.count() == 1,
            f.remaining_spec() == (if max_unapplications > 0 { Some(max_unapplications) } else { None }),
    {
        let mut output_keys = fx_new();
        fx_insert_i64(&mut output_keys, seed_key, 0);
        let remaining = if max_unapplications > 0 { Some(max_unapplications) } else { None };
        let f = OutputFold { output_keys, state_keys: fx_new(), count: 1, remaining };
        assert(f.output_keys@ =~= Map::<i64, usize>::empty().insert(seed_key, 0usize));
        f
    }

    /// How many more canonicals may be kept, when the output is capped.
    pub fn remaining(&self) -> (r: Option<usize>)
        ensures
            r == self.remaining_spec(),
    {
        self.remaining
    }

    /// Once the cap on kept canonicals is used up, the analysis stops producing candidates.
    pub fn done(&self) -> (d: bool)
        ensures
            d == (self.remaining_spec() == Some(0usize)),
    {
        match self.remaining {
            Some(r) => r == 0,
            None => false,
        }
    }

    /// Fold one candidate: see `fold_outcome`. A kept candidate registers its word key (and its
    /// state key, when given) at the new index and uses up one of the remaining canonicals.
    pub fn fold(&mut self, dedup_key: i64, state_key: Option<i64>) -> (o: FoldOutcome)
        requires
            old(self).wf(),
            old(self).count() < usize::MAX,
        ensures
            final(self).wf(),
            o == fold_outcome(old(self).outputs(), old(self).states(), old(self).count(), dedup_key, state_key),
            o matches FoldOutcome::Alternative(i) ==> i < old(self).count(),
            !(o is Kept) ==> final(self).outputs() == old(self).outputs() && final(self).states() == old(self).states()
                && final(self).count() == old(self).count() && final(self).remaining_spec() == old(self).remaining_spec(),
            o is Kept ==> final(self).count() == old(self).count() + 1,
            o is Kept ==> final(self).outputs() == old(self).outputs().insert(dedup_key, old(self).count() as usize),
            o is Kept ==> final(self).states() == (match state_key {
                Some(sk) => old(self).states().insert(sk, old(self).count() as usize),
                None => old(self).states(),
            }),
            o is Kept ==> final(self).remaining_spec() == (match old(self).remaining_spec() {
                Some(r) => Some((if r > 0 { r - 1 } else { 0 }) as usize),
                None => None,
            }),
    {
        if let Some(sk) = state_key {
            if let Some(idx) = fx_get_i64(&self.state_keys, sk) {
                return FoldOutcome::Alternative(idx);
            }
            if let Some(idx) = fx_get_i64(&self.output_keys, dedup_key) {
                return FoldOutcome::Alternative(idx);
            }
        }
        if !fx_contains_i64(&self.output_keys, dedup_key) {
            let idx = self.count;
            if let Some(sk) = state_key {
                fx_insert_i64(&mut self.state_keys, sk, idx);
            }
            fx_insert_i64(&mut self.output_keys, dedup_key, idx);
            self.count = idx + 1;
            self.remaining = match self.remaining {
                Some(r) => Some(r.saturating_sub(1)),
                None => None,
            };
            return FoldOutcome::Kept(idx);
        }
        FoldOutcome::Duplicate
    }
}

/// The search-step budget shared across one whole parse: a step cap and an optional wall-clock
/// deadline, whichever fires first. Synthesis counting is off by default so a heavy analysis cannot
/// starve the candidates it just found of confirmation steps.
pub struct StepBudget {
    cap: usize,
    steps: usize,
    capped: bool,
    deadline: Option<Instant>,
    timed_out: bool,
    synthesis_counting: bool,
}

impl StepBudget {
    pub closed spec fn spec_cap(&self) -> nat {
        self.cap as nat
    }

    pub closed spec fn spec_steps(&self) -> nat {
        self.steps as nat
    }

    pub closed spec fn spec_capped(&self) -> bool {
        self.capped
    }

    pub closed spec fn spec_timed_out(&self) -> bool {
        self.timed_out
    }

    pub closed spec fn has_deadline(&self) -> bool {
        self.deadline is Some
    }

    pub closed spec fn spec_synthesis_counting(&self) -> bool {
        self.synthesis_counting
    }

    pub fn new(cap: usize) -> (b: Self)
        ensures
            b.spec_cap() == cap,
            b.spec_steps() == 0,
            !b.spec_capped(),
            !b.spec_timed_out(),
            !b.has_deadline(),
            !b.spec_synthesis_counting(),
    {
        StepBudget { cap, steps: 0, capped: false, deadline: None, timed_out: false, synthesis_counting: false }
    }

    /// Arm an optional wall-clock deadline `timeout` from now. `None` leaves the budget without a
    /// deadline; so does a timeout too far away for the clock to represent.
    pub fn with_timeout(self, timeout: Option<Duration>) -> (b: Self)
        ensures
            b.spec_cap() == self.spec_cap(),
            b.spec_steps() == self.spec_steps(),
            b.spec_capped() == self.spec_capped(),
            b.spec_timed_out() == self.spec_timed_out(),
            b.spec_synthesis_counting() == self.spec_synthesis_counting(),
            timeout is None ==> !b.has_deadline(),
    {
        let deadline = match timeout {
            Some(d) => {
                let now = instant_now();
                instant_checked_add(&now, d)
            },
            None => None,
        };
        StepBudget { deadline, ..self }
    }

    /// Makes synthesis consume this same step counter.
    pub fn with_synthesis_counting(self) -> (b: Self)
        ensures
            b.spec_cap() == self.spec_cap(),
            b.spec_steps() == self.spec_steps(),
            b.spec_capped() == self.spec_capped(),
            b.spec_timed_out() == self.spec_timed_out(),
            b.has_deadline() == self.has_deadline(),
            b.spec_synthesis_counting(),
    {
        StepBudget { synthesis_counting: true, ..self }
    }

    /// True (and latches `capped` or `timed_out`) once either bound is exhausted; the step cap is
    /// checked first, and with no deadline armed the clock is never read.
    pub fn over_budget(&mut self) -> (over: bool)
        ensures
            final(self).spec_cap() == old(self).spec_cap(),
            final(self).spec_steps() == old(self).spec_steps(),
            final(self).has_deadline() == old(self).has_deadline(),
            final(self).spec_synthesis_counting() == old(self).spec_synthesis_counting(),
            old(self).spec_steps() >= old(self).spec_cap() ==> over && final(self).spec_capped()
                && final(self).spec_timed_out() == old(self).spec_timed_out(),
            old(self).spec_steps() < old(self).spec_cap() ==> final(self).spec_capped() == old(self).spec_capped()
                && final(self).spec_timed_out() == (old(self).spec_timed_out() || over)
                && (!old(self).has_deadline() ==> !over),
    {
        if self.steps >= self.cap {
            self.capped = true;
            return true;
        }
        self.deadline_expired()
    }

    /// The wall-clock check alone (never the step cap), latching `timed_out` when it fires.
    pub fn deadline_expired(&mut self) -> (expired: bool)
        ensures
            final(self).spec_cap() == old(self).spec_cap(),
            final(self).spec_steps() == old(self).spec_steps(),
            final(self).spec_capped() == old(self).spec_capped(),
            final(self).has_deadline() == old(self).has_deadline(),
            final(self).spec_synthesis_counting() == old(self).spec_synthesis_counting(),
            final(self).spec_timed_out() == (old(self).spec_timed_out() || expired),
            !old(self).has_deadline() ==> !expired,
    {
        match &self.deadline {
            Some(deadline) => {
                let now = instant_now();
                if instant_not_before(&now, deadline) {
                    self.timed_out = true;
                    return true;
                }
                false
            },
            None => false,
        }
    }

    /// Synthesis's budget check: only the deadline unless synthesis counting is on, in which case
    /// the full check runs and, when not over, one step is consumed.
    pub fn synthesis_over_budget(&mut self) -> (over: bool)
        requires
            old(self).spec_steps() < usize::MAX,
        ensures
            final(self).spec_cap() == old(self).spec_cap(),
            final(self).has_deadline() == old(self).has_deadline(),
            final(self).spec_synthesis_counting() == old(self).spec_synthesis_counting(),
            !old(self).spec_synthesis_counting() ==> final(self).spec_steps() == old(self).spec_steps()
                && final(self).spec_capped() == old(self).spec_capped()
                && final(self).spec_timed_out() == (old(self).spec_timed_out() || over)
                && (!old(self).has_deadline() ==> !over),
            old(self).spec_synthesis_counting() && old(self).spec_steps() >= old(self).spec_cap() ==> over
                && final(self).spec_capped() && final(self).spec_steps() == old(self).spec_steps(),
            old(self).spec_synthesis_counting() && old(self).spec_steps() < old(self).spec_cap() ==> final(self).spec_capped()
                == old(self).spec_capped() && final(self).spec_timed_out() == (old(self).spec_timed_out() || over)
                && final(self).spec_steps() == (if over { old(self).spec_steps() } else { old(self).spec_steps() + 1 }),
    {
        if !self.synthesis_counting {
            return self.deadline_expired();
        }
        if self.over_budget() {
            return true;
        }
        self.tick();
        false
    }

    /// Count one step.
    pub fn tick(&mut self)
        requires
            old(self).spec_steps() < usize::MAX,
        ensures
            final(self).spec_steps() == old(self).spec_steps() + 1,
            final(self).spec_cap() == old(self).spec_cap(),
            final(self).spec_capped() == old(self).spec_capped(),
            final(self).spec_timed_out() == old(self).spec_timed_out(),
            final(self).has_deadline() == old(self).has_deadline(),
            final(self).spec_synthesis_counting() == old(self).spec_synthesis_counting(),
    {
        self.steps = self.steps + 1;
    }

    /// Whether the step cap fired at any point (never because of the deadline).
    pub fn capped(&self) -> (c: bool)
        ensures
            c == self.spec_capped(),
    {
        self.capped
    }

    /// Whether the wall-clock deadline fired (never because of the step cap).
    pub fn timed_out(&self) -> (t: bool)
        ensures
            t == self.spec_timed_out(),
    {
        self.timed_out
    }

    /// Raw tick count so far.
    pub fn steps(&self) -> (n: usize)
        ensures
            n == self.spec_steps(),
    {
        self.steps
    }
}

/// Whether a morphological rule is attempted on a candidate, and if not, which gate stopped it.
#[derive(Clone, Copy, Debug, PartialEq, Eq, Structural)]
pub enum MRuleGate {
    /// Every gate passed and one budget step was spent on the attempt.
    Attempt,
    /// The rule filter does not admit the rule.
    NotAdmitted,
    /// The shared budget is exhausted.
    OverBudget,
    /// A compounding rule would exceed the configured stem count.
    TooManyStems,
    /// The rule was already unapplied its maximum number of times on this candidate's trail.
    MaxApplications,
}

/// The gates a morphological rule passes before it is attempted on a candidate, in order: the rule
/// filter (`admitted`), the shared budget, the stem-count limit of a compounding rule (with
/// `non_heads` non-heads already split off), and the rule's own application limit (`unapplied` of
/// `max_apps`). Only an attempt spends a budget step: a rule stopped at a gate was never attempted.
pub fn gate_mrule(
    budget: &mut StepBudget,
    admitted: bool,
    is_compounding: bool,
    non_heads: u32,
    max_stem_count: u32,
    unapplied: u32,
    max_apps: u8,
) -> (g: MRuleGate)
    requires
        non_heads < u32::MAX,
        old(budget).spec_steps() < usize::MAX,
    ensures
        final(budget).spec_cap() == old(budget).spec_cap(),
        final(budget).has_deadline() == old(budget).has_deadline(),
        final(budget).spec_synthesis_counting() == old(budget).spec_synthesis_counting(),
        !admitted ==> g == MRuleGate::NotAdmitted && *final(budget) == *old(budget),
        admitted && old(budget).spec_steps() >= old(budget).spec_cap() ==> g == MRuleGate::OverBudget
            && final(budget).spec_capped() && final(budget).spec_steps() == old(budget).spec_steps(),
        g == MRuleGate::OverBudget ==> admitted && final(budget).spec_steps() == old(budget).spec_steps(),
        g == MRuleGate::OverBudget && old(budget).spec_steps() < old(budget).spec_cap() ==> final(budget).spec_timed_out(),
        admitted && old(budget).spec_steps() < old(budget).spec_cap() && !old(budget).has_deadline() ==> g
            != MRuleGate::OverBudget,
        g != MRuleGate::OverBudget ==> final(budget).spec_timed_out() == old(budget).spec_timed_out(),
        g != MRuleGate::NotAdmitted && g != MRuleGate::OverBudget ==> admitted && final(budget).spec_capped()
            == old(budget).spec_capped(),
        g == MRuleGate::TooManyStems <==> (g != MRuleGate::NotAdmitted && g != MRuleGate::OverBudget && is_compounding
            && non_heads + 1 >= max_stem_count),
        g == MRuleGate::MaxApplications <==> (g != MRuleGate::NotAdmitted && g != MRuleGate::OverBudget && !(
        is_compounding && non_heads + 1 >= max_stem_count) && unapplied >= max_apps),
        g == MRuleGate::Attempt ==> final(budget).spec_steps() == old(budget).spec_steps() + 1,
        g != MRuleGate::Attempt ==> final(budget).spec_steps() == old(budget).spec_steps(),
{
    if !admitted {
        return MRuleGate::NotAdmitted;
    }
    if budget.over_budget() {
        return MRuleGate::OverBudget;
    }
    if is_compounding && non_heads + 1 >= max_stem_count {
        return MRuleGate::TooManyStems;
    }
    if unapplied >= max_apps as u32 {
        return MRuleGate::MaxApplications;
    }
    budget.tick();
    MRuleGate::Attempt
}

/// The peak sizes of the live search frontier one analysis builds, as plain running maxima. Records
/// nothing unless created enabled (the depth guard is used only when it is).
pub struct FrontierProfile {
    enabled: bool,
    cur_depth: u64,
    max_depth: u64,
    max_local_len: u64,
    max_local_bytes: u64,
    max_dedup_len: u64,
    max_dedup_bytes: u64,
    max_raw_cascade_len: u64,
    max_raw_cascade_bytes: u64,
    max_template_len: u64,
    max_template_bytes: u64,
    max_apply_mrules_len: u64,
    max_apply_mrules_bytes: u64,
    max_apply_templates_len: u64,
    max_apply_templates_bytes: u64,
    max_live_words: u64,
    max_live_bytes: u64,
}

/// One run's cumulative frontier picture.
#[derive(Clone, Copy, Debug, PartialEq, Eq, Structural)]
pub struct FrontierProfileSnapshot {
    pub max_depth: u64,
    pub max_local_len: u64,
    pub max_local_bytes: u64,
    pub max_dedup_len: u64,
    pub max_dedup_bytes: u64,
    pub max_raw_cascade_len: u64,
    pub max_raw_cascade_bytes: u64,
    pub max_template_len: u64,
    pub max_template_bytes: u64,
    pub max_apply_mrules_len: u64,
    pub max_apply_mrules_bytes: u64,
    pub max_apply_templates_len: u64,
    pub max_apply_templates_bytes: u64,
    pub max_live_words: u64,
    pub max_live_bytes: u64,
}

/// The larger of two counters.
pub open spec fn max_u64(a: u64, b: u64) -> u64 {
    if a >= b { a } else { b }
}

fn max_of(a: u64, b: u64) -> (m: u64)
    ensures
        m == max_u64(a, b),
{
    if a >= b { a } else { b }
}

/// The all-zero snapshot.
pub open spec fn zero_snapshot() -> FrontierProfileSnapshot {
    FrontierProfileSnapshot {
        max_depth: 0,
        max_local_len: 0,
        max_local_bytes: 0,
        max_dedup_len: 0,
        max_dedup_bytes: 0,
        max_raw_cascade_len: 0,
        max_raw_cascade_bytes: 0,
        max_template_len: 0,
        max_template_bytes: 0,
        max_apply_mrules_len: 0,
        max_apply_mrules_bytes: 0,
        max_apply_templates_len: 0,
        max_apply_templates_bytes: 0,
        max_live_words: 0,
        max_live_bytes: 0,
    }
}

impl FrontierProfile {
    pub closed spec fn is_enabled(&self) -> bool {
        self.enabled
    }

    pub closed spec fn depth(&self) -> nat {
        self.cur_depth as nat
    }

    /// The current maxima.
    pub closed spec fn spec_snapshot(&self) -> FrontierProfileSnapshot {
        FrontierProfileSnapshot {
            max_depth: self.max_depth,
            max_local_len: self.max_local_len,
            max_local_bytes: self.max_local_bytes,
            max_dedup_len: self.max_dedup_len,
            max_dedup_bytes: self.max_dedup_bytes,
            max_raw_cascade_len: self.max_raw_cascade_len,
            max_raw_cascade_bytes: self.max_raw_cascade_bytes,
            max_template_len: self.max_template_len,
            max_template_bytes: self.max_template_bytes,
            max_apply_mrules_len: self.max_apply_mrules_len,
            max_apply_mrules_bytes: self.max_apply_mrules_bytes,
            max_apply_templates_len: self.max_apply_templates_len,
            max_apply_templates_bytes: self.max_apply_templates_bytes,
            max_live_words: self.max_live_words,
            max_live_bytes: self.max_live_bytes,
        }
    }

    pub fn new(enabled: bool) -> (p: Self)
        ensures
            p.is_enabled() == enabled,
            p.depth() == 0,
            p.spec_snapshot() == zero_snapshot(),
    {
        FrontierProfile {
            enabled,
            cur_depth: 0,
            max_depth: 0,
            max_local_len: 0,
            max_local_bytes: 0,
            max_dedup_len: 0,
            max_dedup_bytes: 0,
            max_raw_cascade_len: 0,
            max_raw_cascade_bytes: 0,
            max_template_len: 0,
            max_template_bytes: 0,
            max_apply_mrules_len: 0,
            max_apply_mrules_bytes: 0,
            max_apply_templates_len: 0,
            max_apply_templates_bytes: 0,
            max_live_words: 0,
            max_live_bytes: 0,
        }
    }

    pub fn enabled(&self) -> (b: bool)
        ensures
            b == self.is_enabled(),
    {
        self.enabled
    }

    /// The live recursion depth right now.
    pub fn current_depth(&self) -> (d: u64)
        ensures
            d == self.depth(),
    {
        self.cur_depth
    }

    /// Raise the peak of live words seen.
    pub fn record_live_words(&mut self, live: u64)
        ensures
            final(self).is_enabled() == old(self).is_enabled(),
            final(self).depth() == old(self).depth(),
            final(self).spec_snapshot() == (FrontierProfileSnapshot {
                max_live_words: max_u64(old(self).spec_snapshot().max_live_words, live),
                ..old(self).spec_snapshot()
            }),
    {
        self.max_live_words = max_of(self.max_live_words, live);
    }

    /// Raise the peak of live bytes retained.
    pub fn record_live_bytes(&mut self, bytes: u64)
        ensures
            final(self).is_enabled() == old(self).is_enabled(),
            final(self).depth() == old(self).depth(),
            final(self).spec_snapshot() == (FrontierProfileSnapshot {
                max_live_bytes: max_u64(old(self).spec_snapshot().max_live_bytes, bytes),
                ..old(self).spec_snapshot()
            }),
    {
        self.max_live_bytes = max_of(self.max_live_bytes, bytes);
    }

    /// Raise the peaks of one accumulator's length and bytes.
    pub fn record_local(&mut self, len: usize, bytes: usize)
        ensures
            final(self).is_enabled() == old(self).is_enabled(),
            final(self).depth() == old(self).depth(),
            final(self).spec_snapshot() == (FrontierProfileSnapshot {
                max_local_len: max_u64(old(self).spec_snapshot().max_local_len, len as u64),
                max_local_bytes: max_u64(old(self).spec_snapshot().max_local_bytes, bytes as u64),
                ..old(self).spec_snapshot()
            }),
    {
        self.max_local_len = max_of(self.max_local_len, len as u64);
        self.max_local_bytes = max_of(self.max_local_bytes, bytes as u64);
    }

    /// Raise the peaks of the dedup accumulator.
    pub fn record_dedup(&mut self, len: usize, bytes: usize)
        ensures
            final(self).is_enabled() == old(self).is_enabled(),
            final(self).depth() == old(self).depth(),
            final(self).spec_snapshot() == (FrontierProfileSnapshot {
                max_dedup_len: max_u64(old(self).spec_snapshot().max_dedup_len, len as u64),
                max_dedup_bytes: max_u64(old(self).spec_snapshot().max_dedup_bytes, bytes as u64),
                ..old(self).spec_snapshot()
            }),
    {
        self.max_dedup_len = max_of(self.max_dedup_len, len as u64);
        self.max_dedup_bytes = max_of(self.max_dedup_bytes, bytes as u64);
    }

    /// Raise the peaks of the raw cascade output.
    pub fn record_raw_cascade(&mut self, len: usize, bytes: usize)
        ensures
            final(self).is_enabled() == old(self).is_enabled(),
            final(self).depth() == old(self).depth(),
            final(self).spec_snapshot() == (FrontierProfileSnapshot {
                max_raw_cascade_len: max_u64(old(self).spec_snapshot().max_raw_cascade_len, len as u64),
                max_raw_cascade_bytes: max_u64(old(self).spec_snapshot().max_raw_cascade_bytes, bytes as u64),
                ..old(self).spec_snapshot()
            }),
    {
        self.max_raw_cascade_len = max_of(self.max_raw_cascade_len, len as u64);
        self.max_raw_cascade_bytes = max_of(self.max_raw_cascade_bytes, bytes as u64);
    }

    /// Raise the peaks of the template battery's output.
    pub fn record_template(&mut self, len: usize, bytes: usize)
        ensures
            final(self).is_enabled() == old(self).is_enabled(),
            final(self).depth() == old(self).depth(),
            final(self).spec_snapshot() == (FrontierProfileSnapshot {
                max_template_len: max_u64(old(self).spec_snapshot().max_template_len, len as u64),
                max_template_bytes: max_u64(old(self).spec_snapshot().max_template_bytes, bytes as u64),
                ..old(self).spec_snapshot()
            }),
    {
        self.max_template_len = max_of(self.max_template_len, len as u64);
        self.max_template_bytes = max_of(self.max_template_bytes, bytes as u64);
    }

    /// Raise the peaks of one `apply_mrules` frame's output.
    pub fn record_apply_mrules(&mut self, len: usize, bytes: usize)
        ensures
            final(self).is_enabled() == old(self).is_enabled(),
            final(self).depth() == old(self).depth(),
            final(self).spec_snapshot() == (FrontierProfileSnapshot {
                max_apply_mrules_len: max_u64(old(self).spec_snapshot().max_apply_mrules_len, len as u64),
                max_apply_mrules_bytes: max_u64(old(self).spec_snapshot().max_apply_mrules_bytes, bytes as u64),
                ..old(self).spec_snapshot()
            }),
    {
        self.max_apply_mrules_len = max_of(self.max_apply_mrules_len, len as u64);
        self.max_apply_mrules_bytes = max_of(self.max_apply_mrules_bytes, bytes as u64);
    }

    /// Raise the peaks of one `apply_templates` frame's output.
    pub fn record_apply_templates(&mut self, len: usize, bytes: usize)
        ensures
            final(self).is_enabled() == old(self).is_enabled(),
            final(self).depth() == old(self).depth(),
            final(self).spec_snapshot() == (FrontierProfileSnapshot {
                max_apply_templates_len: max_u64(old(self).spec_snapshot().max_apply_templates_len, len as u64),
                max_apply_templates_bytes: max_u64(old(self).spec_snapshot().max_apply_templates_bytes, bytes as u64),
                ..old(self).spec_snapshot()
            }),
    {
        self.max_apply_templates_len = max_of(self.max_apply_templates_len, len as u64);
        self.max_apply_templates_bytes = max_of(self.max_apply_templates_bytes, bytes as u64);
    }

    /// The whole picture so far.
    pub fn snapshot(&self) -> (s: FrontierProfileSnapshot)
        ensures
            s == self.spec_snapshot(),
    {
        FrontierProfileSnapshot {
            max_depth: self.max_depth,
            max_local_len: self.max_local_len,
            max_local_bytes: self.max_local_bytes,
            max_dedup_len: self.max_dedup_len,
            max_dedup_bytes: self.max_dedup_bytes,
            max_raw_cascade_len: self.max_raw_cascade_len,
            max_raw_cascade_bytes: self.max_raw_cascade_bytes,
            max_template_len: self.max_template_len,
            max_template_bytes: self.max_template_bytes,
            max_apply_mrules_len: self.max_apply_mrules_len,
            max_apply_mrules_bytes: self.max_apply_mrules_bytes,
            max_apply_templates_len: self.max_apply_templates_len,
            max_apply_templates_bytes: self.max_apply_templates_bytes,
            max_live_words: self.max_live_words,
            max_live_bytes: self.max_live_bytes,
        }
    }

    /// Force the counters on and zero them, independent of how the profile was created.
    pub fn test_reset_and_enable(&mut self)
        ensures
            final(self).is_enabled(),
            final(self).depth() == 0,
            final(self).spec_snapshot() == zero_snapshot(),
    {
        *self = FrontierProfile::new(true);
    }
}

/// A depth frame of the mutually recursive `apply_mrules`/`apply_templates` descent: entering
/// raises the live depth (and its peak), exiting restores the caller's depth.
pub struct DepthGuard {
    entered_at: u64,
}

impl DepthGuard {
    pub closed spec fn depth_before(&self) -> nat {
        self.entered_at as nat
    }

    pub fn enter(profile: &mut FrontierProfile) -> (g: DepthGuard)
        requires
            old(profile).depth() < u64::MAX,
        ensures
            g.depth_before() == old(profile).depth(),
            final(profile).depth() == depth_after_enter(old(profile).depth()),
            final(profile).is_enabled() == old(profile).is_enabled(),
            final(profile).spec_snapshot() == (FrontierProfileSnapshot {
                max_depth: max_u64(old(profile).spec_snapshot().max_depth, (old(profile).depth() + 1) as u64),
                ..old(profile).spec_snapshot()
            }),
    {
        let before = profile.cur_depth;
        let d = before + 1;
        profile.cur_depth = d;
        profile.max_depth = max_of(profile.max_depth, d);
        DepthGuard { entered_at: before }
    }

    /// Leave the frame: the depth drops by one (never below zero).
    pub fn exit(self, profile: &mut FrontierProfile)
        ensures
            final(profile).depth() == depth_after_exit(old(profile).depth()),
            final(profile).is_enabled() == old(profile).is_enabled(),
            final(profile).spec_snapshot() == old(profile).spec_snapshot(),
    {
        profile.cur_depth = profile.cur_depth.saturating_sub(1);
    }
}

/// The live depth after entering a frame at depth `d`.
pub open spec fn depth_after_enter(d: nat) -> nat {
    d + 1
}

/// The live depth after leaving a frame at depth `d` (never below zero).
pub open spec fn depth_after_exit(d: nat) -> nat {
    if d > 0 { (d - 1) as nat } else { 0 }
}

/// A matched enter and exit leave the live depth where it was.
pub proof fn law_depth_guard_restores(d: nat)
    ensures
        depth_after_exit(depth_after_enter(d)) == d,
{
}

} // verus!
