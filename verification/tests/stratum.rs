use std::time::{Duration, Instant};

use pg_rules::stratum::{
    analysis_state_after_mrule, AnalyzerConfig, DepthGuard, FinalTemplateAnalysisPolicy,
    FinalTemplateState, FinalTemplateSynthesisPolicy, FoldOutcome, FrontierProfile, gate_mrule, MRuleGate, OutputFold,
    RuleInvocationRole, StepBudget, WordSink,
};

#[test]
fn stratum_policy_defaults_to_pruning_off() {
    let policy = FinalTemplateAnalysisPolicy::default();
    assert!(!policy.enforce);
    assert!(!policy.all_templates_final);
}

#[test]
fn stratum_analysis_state_uses_the_actual_invocation_role() {
    assert_eq!(
        analysis_state_after_mrule(RuleInvocationRole::Ordinary, false),
        FinalTemplateState::NonTemplate
    );
    assert_eq!(
        analysis_state_after_mrule(RuleInvocationRole::TemplateSlot, false),
        FinalTemplateState::Cleared
    );
}

#[test]
fn stratum_realizational_rules_clear_the_analysis_state_in_either_role() {
    assert_eq!(
        analysis_state_after_mrule(RuleInvocationRole::Ordinary, true),
        FinalTemplateState::Cleared
    );
    assert_eq!(
        analysis_state_after_mrule(RuleInvocationRole::TemplateSlot, true),
        FinalTemplateState::Cleared
    );
}

#[test]
fn final_template_policy_tests_policy_defaults_to_pruning_off() {
    let policy = FinalTemplateAnalysisPolicy::default();
    assert!(!policy.enforce);
    assert!(!policy.all_templates_final);
}

#[test]
fn final_template_policy_tests_analysis_state_uses_the_actual_invocation_role() {
    assert_eq!(
        analysis_state_after_mrule(RuleInvocationRole::Ordinary, false),
        FinalTemplateState::NonTemplate
    );
    assert_eq!(
        analysis_state_after_mrule(RuleInvocationRole::TemplateSlot, false),
        FinalTemplateState::Cleared
    );
}

#[test]
fn final_template_policy_tests_realizational_rules_clear_the_analysis_state_in_either_role() {
    assert_eq!(
        analysis_state_after_mrule(RuleInvocationRole::Ordinary, true),
        FinalTemplateState::Cleared
    );
    assert_eq!(
        analysis_state_after_mrule(RuleInvocationRole::TemplateSlot, true),
        FinalTemplateState::Cleared
    );
}

/// An uncapped budget with a short deadline armed must break out promptly, not run the huge
/// iteration bound to completion.
#[test]
fn stratum_wall_clock_deadline_fires_independent_of_an_uncapped_step_cap() {
    const N_HUGE: u64 = 200_000_000;
    let timeout = Duration::from_millis(30);
    let mut budget = StepBudget::new(usize::MAX).with_timeout(Some(timeout));

    let start = Instant::now();
    let mut i: u64 = 0;
    while i < N_HUGE {
        if budget.over_budget() {
            break;
        }
        budget.tick();
        i += 1;
    }
    let elapsed = start.elapsed();

    assert!(budget.timed_out(), "budget must report timed_out() once the deadline elapses (i={i} of {N_HUGE})");
    assert!(!budget.capped(), "the step cap (usize::MAX) must never fire");
    assert!(i < N_HUGE, "the loop must break out well before the artificial huge bound");
    assert!(elapsed < Duration::from_secs(2), "elapsed {elapsed:?} should stay close to the {timeout:?} deadline");
}

#[test]
fn step_budget_timeout_tests_wall_clock_deadline_fires_independent_of_an_uncapped_step_cap() {
    const N_HUGE: u64 = 200_000_000;
    let timeout = Duration::from_millis(30);
    let mut budget = StepBudget::new(usize::MAX).with_timeout(Some(timeout));

    let start = Instant::now();
    let mut i: u64 = 0;
    while i < N_HUGE {
        if budget.over_budget() {
            break;
        }
        budget.tick();
        i += 1;
    }
    let elapsed = start.elapsed();

    assert!(budget.timed_out(), "budget must report timed_out() once the deadline elapses (i={i} of {N_HUGE})");
    assert!(!budget.capped(), "the step cap (usize::MAX) must never fire");
    assert!(i < N_HUGE, "the loop must break out well before the artificial huge bound");
    assert!(elapsed < Duration::from_secs(2), "elapsed {elapsed:?} should stay close to the {timeout:?} deadline");
}

/// `with_timeout(None)` behaves exactly as a plain `StepBudget::new(cap)`.
#[test]
fn stratum_no_timeout_never_times_out() {
    let mut budget = StepBudget::new(5).with_timeout(None);
    for _ in 0..5 {
        assert!(!budget.over_budget());
        budget.tick();
    }
    assert!(budget.over_budget(), "step cap must still fire on its own");
    assert!(budget.capped());
    assert!(!budget.timed_out(), "no deadline was armed, so timed_out() must stay false");
}

#[test]
fn step_budget_timeout_tests_no_timeout_never_times_out() {
    let mut budget = StepBudget::new(5).with_timeout(None);
    for _ in 0..5 {
        assert!(!budget.over_budget());
        budget.tick();
    }
    assert!(budget.over_budget(), "step cap must still fire on its own");
    assert!(budget.capped());
    assert!(!budget.timed_out(), "no deadline was armed, so timed_out() must stay false");
}

fn spin(d: Duration) {
    let start = Instant::now();
    while start.elapsed() < d {}
}

/// A deadline already in the past at construction time fires on the first check.
#[test]
fn stratum_zero_deadline_fires_on_the_first_check() {
    let mut budget = StepBudget::new(usize::MAX).with_timeout(Some(Duration::from_millis(0)));
    spin(Duration::from_millis(1));
    assert!(budget.over_budget(), "an already-past deadline must fire on the first check");
    assert!(budget.timed_out());
    assert!(!budget.capped());
}

#[test]
fn step_budget_timeout_tests_zero_deadline_fires_on_the_first_check() {
    let mut budget = StepBudget::new(usize::MAX).with_timeout(Some(Duration::from_millis(0)));
    spin(Duration::from_millis(1));
    assert!(budget.over_budget(), "an already-past deadline must fire on the first check");
    assert!(budget.timed_out());
    assert!(!budget.capped());
}

fn deadline_fires_with_few_ticks() {
    const N: u64 = 200;
    let timeout = Duration::from_millis(50);
    let mut budget = StepBudget::new(usize::MAX).with_timeout(Some(timeout));

    let start = Instant::now();
    let mut fired = false;
    let mut i: u64 = 0;
    while i < N {
        if budget.over_budget() {
            fired = true;
            break;
        }
        budget.tick();
        spin(Duration::from_millis(1));
        i += 1;
    }
    let elapsed = start.elapsed();

    assert!(fired, "the 50ms deadline must fire even though the loop only reaches {i} of {N} ticks");
    assert!(budget.timed_out());
    assert!(!budget.capped(), "the step cap (usize::MAX) must never fire");
    assert!(i < N, "must break out before exhausting all {N} ticks (i={i})");
    assert!(elapsed < Duration::from_secs(2), "elapsed {elapsed:?} should stay close to the {timeout:?} deadline");
}

/// Fewer ticks than any checking interval, with real time elapsing between them.
#[test]
fn stratum_wall_clock_deadline_fires_even_when_total_ticks_never_reach_the_old_check_interval() {
    deadline_fires_with_few_ticks();
}

#[test]
fn step_budget_timeout_tests_wall_clock_deadline_fires_even_when_total_ticks_never_reach_the_old_check_interval() {
    deadline_fires_with_few_ticks();
}

// Own tests.

#[test]
fn synthesis_only_consumes_steps_with_counting_on() {
    let mut plain = StepBudget::new(1);
    assert!(!plain.synthesis_over_budget());
    assert!(!plain.synthesis_over_budget());
    assert_eq!(plain.steps(), 0);

    let mut counting = StepBudget::new(1).with_synthesis_counting();
    assert!(!counting.synthesis_over_budget());
    assert_eq!(counting.steps(), 1);
    assert!(counting.synthesis_over_budget());
    assert!(counting.capped());
}

#[test]
fn synthesis_policy_defaults_to_no_forced_rescue() {
    assert!(!FinalTemplateSynthesisPolicy::default().always_enforce);
}

#[test]
fn analyzer_config_defaults() {
    let c = AnalyzerConfig::default();
    assert!(c.merge_equivalent);
    assert_eq!(c.max_unapplications, 0);
    assert_eq!(c.max_stem_count, 2);
}

#[test]
fn word_sink_refuses_pushes_once_its_budget_is_spent() {
    let mut open = WordSink { words: Vec::new(), remaining: None };
    open.push(1);
    open.push(2);
    assert!(!open.done());
    assert_eq!(open.words, vec![1, 2]);

    let mut spent = WordSink { words: vec![9], remaining: Some(0) };
    assert!(spent.done());
    spent.push(3);
    assert_eq!(spent.words, vec![9]);
}

#[test]
fn depth_guard_restores_the_depth_and_keeps_the_peak() {
    let mut profile = FrontierProfile::new(true);
    let outer = DepthGuard::enter(&mut profile);
    let inner = DepthGuard::enter(&mut profile);
    assert_eq!(profile.current_depth(), 2);
    inner.exit(&mut profile);
    outer.exit(&mut profile);
    assert_eq!(profile.current_depth(), 0);
    assert_eq!(profile.snapshot().max_depth, 2);
}

#[test]
fn frontier_profile_keeps_running_maxima_and_resets() {
    let mut profile = FrontierProfile::new(false);
    assert!(!profile.enabled());
    profile.record_live_words(5);
    profile.record_live_words(3);
    profile.record_live_bytes(100);
    profile.record_local(4, 40);
    profile.record_local(2, 80);
    let s = profile.snapshot();
    assert_eq!(s.max_live_words, 5);
    assert_eq!(s.max_live_bytes, 100);
    assert_eq!(s.max_local_len, 4);
    assert_eq!(s.max_local_bytes, 80);
    profile.test_reset_and_enable();
    assert!(profile.enabled());
    assert_eq!(profile.snapshot().max_live_words, 0);
}

#[test]
fn output_fold_merges_by_state_then_word_key() {
    let mut fold = OutputFold::new(100, 0);
    // The seed's word key is registered, its state key is not.
    assert_eq!(fold.fold(100, None), FoldOutcome::Duplicate);
    assert_eq!(fold.fold(101, Some(7)), FoldOutcome::Kept(1));
    // Same state key: an alternative of canonical 1, whatever its word key.
    assert_eq!(fold.fold(102, Some(7)), FoldOutcome::Alternative(1));
    // New state key but a word key already kept: folded into that canonical.
    assert_eq!(fold.fold(100, Some(8)), FoldOutcome::Alternative(0));
    // Without state keys, only word keys decide.
    assert_eq!(fold.fold(103, None), FoldOutcome::Kept(2));
    assert_eq!(fold.fold(103, None), FoldOutcome::Duplicate);
    assert!(!fold.done());
}

#[test]
fn output_fold_counts_down_the_kept_canonicals() {
    let mut fold = OutputFold::new(0, 2);
    assert!(!fold.done());
    assert_eq!(fold.fold(1, None), FoldOutcome::Kept(1));
    assert!(!fold.done());
    assert_eq!(fold.fold(2, None), FoldOutcome::Kept(2));
    assert!(fold.done());
}

#[test]
fn gated_rules_spend_no_budget_step() {
    let mut budget = StepBudget::new(1);
    assert_eq!(gate_mrule(&mut budget, false, false, 0, 2, 0, 1), MRuleGate::NotAdmitted);
    assert_eq!(gate_mrule(&mut budget, true, true, 1, 2, 0, 1), MRuleGate::TooManyStems);
    assert_eq!(gate_mrule(&mut budget, true, false, 0, 2, 1, 1), MRuleGate::MaxApplications);
    assert_eq!(budget.steps(), 0);
    assert_eq!(gate_mrule(&mut budget, true, true, 0, 2, 0, 1), MRuleGate::Attempt);
    assert_eq!(budget.steps(), 1);
    assert_eq!(gate_mrule(&mut budget, true, false, 0, 2, 0, 1), MRuleGate::OverBudget);
    assert!(budget.capped());
    assert_eq!(budget.steps(), 1);
}
