use pg_rules::alt_delta::{identical_field_count, AltDeltaRecorder, AltSample, FieldMatches, COMPARABLE_FIELD_COUNT};
use pg_rules::bridge::{push_id_lane, VarOccur, UNCONSTRAINED};
use pg_rules::clock_sample::{ClockSampler, ScopeBytes};
use pg_rules::metathesis::seg_range_to_nodes;
use pg_rules::morph::dedup_profile::DedupProfile;
use pg_rules::morph::push_keep_longer;
use pg_rules::rewrite::width_matches;
use pg_rules::stats_calibrate::{CalibratedAccumulator, KindTotals, SelfTimeAccumulator};

type Hook = fn() -> (u64, u64);

fn all_match() -> FieldMatches {
    FieldMatches {
        stratum: true,
        syn_fs: true,
        mpr: true,
        morphs: true,
        non_head_app_index: true,
        root_allomorph: true,
        root_runtime_id: true,
        obligatory: true,
        unapplied_rule_counts: true,
        flags: true,
    }
}

#[test]
fn alt_delta_record_is_a_no_op_when_disabled() {
    let mut rec = AltDeltaRecorder::new(false);
    rec.record(&[AltSample { full_bytes: 10, delta_bytes: 4, fields: all_match() }]);
    assert_eq!(rec.totals().samples, 0);
}

#[test]
fn clock_sample_record_is_a_no_op_when_disabled() {
    let mut sampler: ClockSampler<Hook> = ClockSampler::new(false);
    sampler.record("stratum_pass", 0, None);
    assert!(sampler.take_samples().is_empty());
}

/// A freshly built alternative with no divergence at all matches every comparable field.
#[test]
fn identical_field_count_matches_a_field_by_field_walk() {
    assert_eq!(identical_field_count(&all_match()), COMPARABLE_FIELD_COUNT);
}

// Own tests.

#[test]
fn identical_field_count_counts_matching_fields() {
    assert_eq!(identical_field_count(&all_match()), COMPARABLE_FIELD_COUNT);
    let some = FieldMatches { syn_fs: false, morphs: false, flags: false, ..all_match() };
    assert_eq!(identical_field_count(&some), 7);
}

#[test]
fn alt_delta_totals_sum_every_sampled_alternative() {
    let mut rec = AltDeltaRecorder::new(true);
    rec.record(&[]);
    rec.record(&[
        AltSample { full_bytes: 100, delta_bytes: 30, fields: all_match() },
        AltSample { full_bytes: 50, delta_bytes: 50, fields: FieldMatches { mpr: false, ..all_match() } },
    ]);
    let t = rec.totals();
    assert_eq!(t.samples, 2);
    assert_eq!(t.full_bytes_total, 150);
    assert_eq!(t.delta_bytes_total, 80);
    assert_eq!(t.identical_fields_total, 19);
    assert_eq!(rec.full_samples(), &[100, 50]);
    assert_eq!(rec.delta_samples(), &[30, 50]);
}

fn fixed_reading() -> (u64, u64) {
    (4096, 1024)
}

#[test]
fn clock_samples_are_numbered_and_drained_in_order() {
    let mut sampler: ClockSampler<Hook> = ClockSampler::new(true);
    sampler.record("stratum_pass", 10, None);
    sampler.set_allocator_query_hook(fixed_reading);
    let scope = ScopeBytes { memo_key_bytes: 1, tpl_key_bytes: 2, memo_results_bytes: 3, tpl_results_bytes: 4 };
    sampler.record("synthesis_loop", 20, Some(scope));
    let samples = sampler.take_samples();
    assert_eq!(samples.len(), 2);
    assert_eq!(samples[0].seq, 0);
    assert_eq!(samples[0].point, "stratum_pass");
    assert_eq!(samples[0].alloc_peak_bytes, None);
    assert_eq!(samples[0].memo_key_bytes, 0);
    assert_eq!(samples[1].seq, 1);
    assert_eq!(samples[1].alloc_peak_bytes, Some(4096));
    assert_eq!(samples[1].alloc_live_bytes, Some(1024));
    assert_eq!(samples[1].live_frontier_bytes, 20);
    assert_eq!(
        (samples[1].memo_key_bytes, samples[1].tpl_key_bytes, samples[1].memo_results_bytes, samples[1].tpl_results_bytes),
        (1, 2, 3, 4)
    );
    assert!(sampler.take_samples().is_empty());
}

#[test]
fn dedup_profile_accumulates_calls_time_and_lengths() {
    let mut p = DedupProfile::new();
    assert_eq!(p.snapshot(), (0, 0, 0, 0));
    p.record(100, 3);
    p.record(50, 7);
    p.record(25, 2);
    assert_eq!(p.snapshot(), (3, 175, 7, 12));
}

#[test]
fn push_keep_longer_replaces_only_with_a_strictly_longer_duplicate() {
    // Candidates are strings; two are duplicates when they share a first letter.
    let len = |s: &String| s.len();
    let dup = |a: &String, b: &String| a.chars().next() == b.chars().next();
    let mut out: Vec<String> = vec!["ab".to_string(), "cd".to_string()];
    push_keep_longer(&mut out, "abc".to_string(), len, dup);
    assert_eq!(out, vec!["abc".to_string(), "cd".to_string()]);
    push_keep_longer(&mut out, "c".to_string(), len, dup);
    assert_eq!(out, vec!["abc".to_string(), "cd".to_string()]);
    push_keep_longer(&mut out, "cd".to_string(), len, dup);
    assert_eq!(out, vec!["abc".to_string(), "cd".to_string()]);
    push_keep_longer(&mut out, "xy".to_string(), len, dup);
    assert_eq!(out, vec!["abc".to_string(), "cd".to_string(), "xy".to_string()]);
}

#[test]
fn push_id_lane_pads_to_the_identity_index() {
    let mut lanes = vec![1u64, 2];
    push_id_lane(&mut lanes, 4, 0b101);
    assert_eq!(lanes, vec![1, 2, UNCONSTRAINED, UNCONSTRAINED, 0b101]);
    let mut full = vec![7u64, 8];
    push_id_lane(&mut full, 2, 9);
    assert_eq!(full, vec![7, 8, 9]);
}

#[test]
fn seg_range_to_nodes_reads_the_covered_nodes() {
    let node_of = [0usize, 2, 3, 5, 8];
    assert_eq!(seg_range_to_nodes(&node_of, (1, 4)), vec![2, 3, 5]);
    assert!(seg_range_to_nodes(&node_of, (2, 2)).is_empty());
}

#[test]
fn width_matches_compares_node_counts() {
    assert!(width_matches(&[1, 2, 3], 3));
    assert!(!width_matches(&[1], 2));
}

#[derive(Copy, Clone, Debug, PartialEq, Eq, Hash)]
enum K {
    Outer,
}

fn spin(d: std::time::Duration) {
    let start = std::time::Instant::now();
    while start.elapsed() < d {}
}

#[test]
fn off_build_records_no_time_even_across_a_real_sleep() {
    let acc: SelfTimeAccumulator<K> = SelfTimeAccumulator::new();
    {
        let _outer = acc.enter(K::Outer, 5);
        spin(std::time::Duration::from_millis(20));
    }
    let totals = acc.totals();
    assert!(totals.is_empty(), "an ordinary build must not accumulate any calibration totals: {totals:?}");
}

#[test]
fn kind_totals_default_is_zero() {
    assert_eq!(KindTotals::default(), KindTotals { ns: 0, work: 0 });
}

#[test]
fn var_occur_is_plain_data() {
    let v = VarOccur { feature: 3, var: 1, plus: true };
    assert_eq!(v.clone(), VarOccur { feature: 3, var: 1, plus: true });
}

#[test]
fn calibrated_nested_region_time_is_subtracted_from_its_parent() {
    let mut acc = CalibratedAccumulator::new();
    let _outer = acc.enter(1, 5);
    let _inner = acc.enter(2, 3);
    acc.close(2, 3, 40);
    acc.close(1, 5, 100);
    let mut totals = acc.totals();
    totals.sort_by_key(|(k, _)| *k);
    assert_eq!(totals, vec![(1, KindTotals { ns: 60, work: 5 }), (2, KindTotals { ns: 40, work: 3 })]);
}

#[test]
fn calibrated_totals_accumulate_per_kind_and_saturate_self_time_at_zero() {
    let mut acc = CalibratedAccumulator::new();
    let _a = acc.enter(7, 1);
    acc.close(7, 1, 10);
    let _b = acc.enter(7, 2);
    let _c = acc.enter(8, 0);
    acc.close(8, 0, 50);
    acc.close(7, 2, 30);
    let mut totals = acc.totals();
    totals.sort_by_key(|(k, _)| *k);
    assert_eq!(totals, vec![(7, KindTotals { ns: 10, work: 3 }), (8, KindTotals { ns: 50, work: 0 })]);
}

#[test]
fn calibrated_regions_read_the_clock_when_they_close() {
    let mut acc = CalibratedAccumulator::new();
    let outer = acc.enter(1, 4);
    spin(std::time::Duration::from_millis(2));
    outer.exit(&mut acc);
    let totals = acc.totals();
    assert_eq!(totals.len(), 1);
    assert_eq!(totals[0].0, 1);
    assert!(totals[0].1.ns >= 1_000_000);
    assert_eq!(totals[0].1.work, 4);
}
