use pg_rules::stats::{
    counter_support, self_time_supported, CounterSupport, Counters, Direction, ObjectKind, StatsCollector,
    StatsRow, ALLOMORPH_NONE,
};
use pg_rules::{LexEntryId, MRuleId, PRuleId, StratumId};

#[test]
fn stats_self_time_support_matches_every_instrumented_kind() {
    let support = [
        (ObjectKind::MorphRule, true),
        (ObjectKind::PhonRule, false),
        (ObjectKind::LexEntry, true),
        (ObjectKind::RootIndex, false),
        (ObjectKind::Guesser, false),
        (ObjectKind::Overlay, false),
    ];
    for (kind, expected) in support {
        assert_eq!(self_time_supported(kind), expected, "{kind:?}");
    }
}

// Own tests.

#[test]
fn direction_names() {
    assert_eq!(Direction::Analysis.as_str(), "analysis");
    assert_eq!(Direction::Synthesis.as_str(), "synthesis");
}

#[test]
fn counter_support_tells_the_three_states_apart() {
    assert_eq!(counter_support(ObjectKind::MorphRule, "attempts"), CounterSupport::Measured);
    assert_eq!(counter_support(ObjectKind::LexEntry, "no_root"), CounterSupport::NotApplicable);
    assert_eq!(counter_support(ObjectKind::PhonRule, "uses"), CounterSupport::NotWired);
    assert_eq!(counter_support(ObjectKind::Overlay, "work"), CounterSupport::Measured);
    assert_eq!(counter_support(ObjectKind::RootIndex, "uses"), CounterSupport::NotApplicable);
    assert_eq!(counter_support(ObjectKind::Guesser, "outputs"), CounterSupport::NotWired);
    assert_eq!(counter_support(ObjectKind::MorphRule, "self_time_ns"), CounterSupport::NotWired);
}

#[test]
fn without_timing_zeroes_only_the_self_time() {
    let c = Counters { attempts: 1, work: 2, outputs: 3, not_applied: 4, no_root: 5, surface_mismatch: 6, uses: 7, self_time_ns: 8 };
    let t = c.without_timing();
    assert_eq!(t.self_time_ns, 0);
    assert_eq!(t, Counters { self_time_ns: 0, ..c });
    let row = StatsRow {
        kind: ObjectKind::MorphRule,
        object_index: 1,
        stratum: StratumId(0),
        allomorph: ALLOMORPH_NONE,
        direction: Direction::Analysis,
        counters: c,
    };
    assert_eq!(row.without_timing().counters, t);
    assert_eq!(row.without_timing().object_index, 1);
}

#[test]
fn a_fresh_collector_has_no_rows() {
    let stats = StatsCollector::new(2, 3, 4);
    assert!(stats.rows().is_empty());
}

#[test]
fn rows_list_dense_rows_in_table_order_then_sparse_rows_by_key() {
    let mut stats = StatsCollector::new(2, 3, 2);
    // Sparse rows, recorded out of key order.
    stats.record_use_lex_entry(StratumId(1), LexEntryId(5), 2);
    stats.record_root_index_attempt(StratumId(0), 4);
    stats.record_lex_entry_attempt(StratumId(0), LexEntryId(9), 1);
    stats.record_mrule_allomorph_try(StratumId(0), MRuleId(2), 1, Direction::Analysis, 3, 0);
    // Dense rows.
    stats.record_prule_attempt(StratumId(0), PRuleId(1), Direction::Analysis, 6);
    stats.record_mrule_attempt(StratumId(1), MRuleId(0), Direction::Synthesis, 10);
    stats.record_mrule_outcome(StratumId(1), MRuleId(0), Direction::Synthesis, 0);
    stats.record_mrule_attempt(StratumId(0), MRuleId(2), Direction::Analysis, 1);

    let rows = stats.rows();
    let keys: Vec<(ObjectKind, u8, u32, u32, Direction)> =
        rows.iter().map(|r| (r.kind, r.stratum.0, r.object_index, r.allomorph, r.direction)).collect();
    assert_eq!(
        keys,
        vec![
            (ObjectKind::MorphRule, 0, 2, 0, Direction::Analysis),
            (ObjectKind::MorphRule, 1, 0, 0, Direction::Synthesis),
            (ObjectKind::PhonRule, 0, 1, 0, Direction::Analysis),
            (ObjectKind::MorphRule, 0, 2, 1, Direction::Analysis),
            (ObjectKind::LexEntry, 0, 9, 1, Direction::Analysis),
            (ObjectKind::LexEntry, 1, 5, 2, Direction::Synthesis),
            (ObjectKind::RootIndex, 0, 0, 0, Direction::Analysis),
        ]
    );
    let synth = rows[1].counters;
    assert_eq!(synth.attempts, 1);
    assert_eq!(synth.work, 10);
    assert_eq!(synth.not_applied, 1);
    let try_row = rows[3].counters;
    assert_eq!((try_row.attempts, try_row.work, try_row.outputs, try_row.not_applied), (0, 3, 0, 1));
    assert_eq!(rows[6].counters.work, 4);
}

#[test]
fn each_recorder_touches_its_own_counter() {
    let mut stats = StatsCollector::new(1, 1, 1);
    stats.record_mrule_reach_attempt(StratumId(0), MRuleId(0), Direction::Analysis);
    stats.record_mrule_invocation_not_applied(StratumId(0), MRuleId(0), Direction::Analysis);
    stats.record_no_root_mrule(StratumId(0), MRuleId(0));
    stats.record_use_mrule(StratumId(0), MRuleId(0));
    stats.record_prule_outcome(StratumId(0), PRuleId(0), Direction::Synthesis, 2);
    stats.record_no_root_root_index(StratumId(0));
    stats.record_guesser_attempt(StratumId(0), 7);
    stats.record_overlay_attempt(StratumId(0), 8);
    stats.record_surface_mismatch(StratumId(0), LexEntryId(3), 1);
    let rows = stats.rows();
    let find = |kind: ObjectKind, dir: Direction| rows.iter().find(|r| r.kind == kind && r.direction == dir).unwrap().counters;
    let ma = find(ObjectKind::MorphRule, Direction::Analysis);
    assert_eq!((ma.attempts, ma.not_applied, ma.no_root), (1, 1, 1));
    assert_eq!(find(ObjectKind::MorphRule, Direction::Synthesis).uses, 1);
    let ps = find(ObjectKind::PhonRule, Direction::Synthesis);
    assert_eq!((ps.outputs, ps.not_applied), (2, 0));
    assert_eq!(find(ObjectKind::RootIndex, Direction::Analysis).no_root, 1);
    let g = find(ObjectKind::Guesser, Direction::Analysis);
    assert_eq!((g.attempts, g.work), (1, 7));
    let o = find(ObjectKind::Overlay, Direction::Analysis);
    assert_eq!((o.attempts, o.work), (1, 8));
    assert_eq!(find(ObjectKind::LexEntry, Direction::Synthesis).surface_mismatch, 1);
}

#[test]
fn nested_self_time_regions_book_on_their_own_rows() {
    let mut stats = StatsCollector::new(1, 2, 1);
    let outer = stats.time_enter(ObjectKind::MorphRule, StratumId(0), 0, ALLOMORPH_NONE, Direction::Analysis);
    let inner = stats.time_enter(ObjectKind::LexEntry, StratumId(0), 4, 1, Direction::Analysis);
    let t = std::time::Instant::now();
    while t.elapsed() < std::time::Duration::from_millis(2) {}
    inner.exit(&mut stats);
    outer.exit(&mut stats);
    let rows = stats.rows();
    let lex = rows.iter().find(|r| r.kind == ObjectKind::LexEntry).unwrap();
    assert!(lex.counters.self_time_ns >= 1_000_000);
    assert_eq!(lex.counters.without_timing(), Counters::default());
}

#[test]
fn closing_nested_regions_subtracts_inner_time_from_the_outer_row() {
    let mut stats = StatsCollector::new(1, 2, 1);
    let _outer = stats.time_enter(ObjectKind::MorphRule, StratumId(0), 0, ALLOMORPH_NONE, Direction::Analysis);
    let _inner = stats.time_enter(ObjectKind::LexEntry, StratumId(0), 4, 1, Direction::Analysis);
    stats.close_region(5);
    stats.close_region(12);
    let rows = stats.rows();
    let lex = rows.iter().find(|r| r.kind == ObjectKind::LexEntry).unwrap();
    let rule = rows.iter().find(|r| r.kind == ObjectKind::MorphRule).unwrap();
    assert_eq!(lex.counters.self_time_ns, 5);
    assert_eq!(rule.counters.self_time_ns, 7);
}

#[test]
fn a_region_shorter_than_its_nested_time_books_zero() {
    let mut stats = StatsCollector::new(1, 2, 1);
    let _outer = stats.time_enter(ObjectKind::MorphRule, StratumId(0), 1, ALLOMORPH_NONE, Direction::Synthesis);
    let _a = stats.time_enter(ObjectKind::LexEntry, StratumId(0), 2, 0, Direction::Synthesis);
    stats.close_region(9);
    let _b = stats.time_enter(ObjectKind::LexEntry, StratumId(0), 3, 0, Direction::Synthesis);
    stats.close_region(4);
    stats.close_region(10);
    let rows = stats.rows();
    assert!(rows.iter().all(|r| r.kind != ObjectKind::MorphRule));
    let lex_total: u64 = rows.iter().filter(|r| r.kind == ObjectKind::LexEntry).map(|r| r.counters.self_time_ns).sum();
    assert_eq!(lex_total, 13);
}
