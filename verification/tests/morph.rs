use pg_rules::morph::{classify_redup, record_mrule_invocation_end, record_mrule_none_residual, record_mrule_reach, ReduplicationHint};
use pg_rules::stats::{Counters, Direction, MRuleStatsCtx, ObjectKind, StatsCollector, StatsRow};
use pg_rules::{MRuleId, StratumId};

fn ctx() -> MRuleStatsCtx {
    MRuleStatsCtx { stratum: StratumId(0), id: MRuleId(1), direction: Direction::Analysis }
}

fn row(rows: &[StatsRow], allomorph: u32) -> Counters {
    rows.iter()
        .find(|r| r.kind == ObjectKind::MorphRule && r.object_index == 1 && r.allomorph == allomorph)
        .map(|r| r.counters)
        .unwrap_or_default()
}

#[test]
fn reaching_allomorphs_ticks_the_rule_once_and_each_allomorph_row() {
    let mut stats = StatsCollector::new(1, 2, 1);
    let mut reached = 0u32;
    record_mrule_reach(Some(ctx()), &mut stats, 0, 5, 0, &mut reached);
    record_mrule_reach(Some(ctx()), &mut stats, 1, 7, 2, &mut reached);
    assert_eq!(reached, 2);
    record_mrule_invocation_end(Some(ctx()), &mut stats, reached, 2, 12);
    let rows = stats.rows();
    let rule = row(&rows, 0);
    assert_eq!((rule.attempts, rule.work, rule.not_applied), (1, 0, 0));
    let a1 = row(&rows, 1);
    assert_eq!((a1.attempts, a1.work, a1.outputs, a1.not_applied), (0, 5, 0, 1));
    let a2 = row(&rows, 2);
    assert_eq!((a2.work, a2.outputs, a2.not_applied), (7, 2, 0));
}

#[test]
fn an_invocation_reaching_nothing_is_a_residual_attempt() {
    let mut stats = StatsCollector::new(1, 2, 1);
    record_mrule_invocation_end(Some(ctx()), &mut stats, 0, 0, 9);
    let rule = row(&stats.rows(), 0);
    assert_eq!((rule.attempts, rule.work, rule.outputs, rule.not_applied), (1, 9, 0, 1));
}

#[test]
fn reached_but_empty_ticks_one_not_applied() {
    let mut stats = StatsCollector::new(1, 2, 1);
    let mut reached = 0u32;
    record_mrule_reach(Some(ctx()), &mut stats, 0, 3, 0, &mut reached);
    record_mrule_invocation_end(Some(ctx()), &mut stats, reached, 0, 3);
    let rule = row(&stats.rows(), 0);
    assert_eq!((rule.attempts, rule.not_applied), (1, 1));
}

#[test]
fn no_context_records_nothing() {
    let mut stats = StatsCollector::new(1, 2, 1);
    let mut reached = 0u32;
    record_mrule_reach(None, &mut stats, 0, 3, 1, &mut reached);
    record_mrule_none_residual(None, &mut stats, 4);
    record_mrule_invocation_end(None, &mut stats, 0, 0, 4);
    assert_eq!(reached, 0);
    assert!(stats.rows().is_empty());
}

fn sorted(m: rustc_hash::FxHashMap<usize, bool>) -> Vec<(usize, bool)> {
    let mut v: Vec<(usize, bool)> = m.into_iter().collect();
    v.sort();
    v
}

#[test]
fn full_suffix_reduplication_marks_the_first_copy_as_the_echo() {
    let parts = [Some(0), Some(1), Some(0), Some(1)];
    let m = classify_redup(2, &parts, ReduplicationHint::Suffix);
    assert_eq!(sorted(m), vec![(0, true), (1, true), (2, false), (3, false)]);
}

#[test]
fn full_prefix_reduplication_marks_the_last_copy_as_the_echo() {
    let parts = [Some(0), Some(1), Some(0), Some(1)];
    let m = classify_redup(2, &parts, ReduplicationHint::Prefix);
    assert_eq!(sorted(m), vec![(0, false), (1, false), (2, true), (3, true)]);
}

#[test]
fn partial_reduplication_before_the_echo_run() {
    let parts = [Some(0), Some(0), Some(1), Some(2)];
    let m = classify_redup(3, &parts, ReduplicationHint::Suffix);
    assert_eq!(sorted(m), vec![(0, false), (1, true)]);
}

#[test]
fn without_an_echo_run_the_first_or_last_occurrence_is_the_echo() {
    let parts = [Some(1), Some(1)];
    assert_eq!(sorted(classify_redup(3, &parts, ReduplicationHint::Implicit)), vec![(0, true), (1, false)]);
    assert_eq!(sorted(classify_redup(3, &parts, ReduplicationHint::Prefix)), vec![(0, false), (1, true)]);
}

#[test]
fn no_repeated_part_means_no_reduplication() {
    let parts = [Some(0), None, Some(1)];
    assert!(classify_redup(2, &parts, ReduplicationHint::Suffix).is_empty());
}
