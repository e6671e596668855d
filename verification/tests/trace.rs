use pg_rules::trace::{FailureReason, NoopSink, TraceSink, TraceSource, TraceType, TreeTraceSink};
use pg_rules::{MRuleId, PRuleId, StratumId, TemplateId};

/// A stand-in for the parser's word: the trace stores clones of whatever word type it is given.
fn w() -> String {
    "word".to_string()
}

#[test]
fn noop_sink_is_not_tracing() {
    let sink = NoopSink;
    assert!(!TraceSink::<String>::is_tracing(&sink));
}

#[test]
fn tree_sink_is_tracing() {
    let sink: TreeTraceSink<String> = TreeTraceSink::new();
    assert!(sink.is_tracing());
}

/// Applying a rule reassigns the cursor: the caller passes the returned handle as the next parent,
/// so a later event nests under the rule's node instead of becoming its sibling.
#[test]
fn rule_applied_return_nests_next_event_under_it() {
    let mut sink = TreeTraceSink::new();
    let word = w();
    let root = sink.analyze_word(&word);

    let h1 = sink.morphological_rule_applied(root, MRuleId(0), 0, &word);
    assert_eq!(sink.node(root).children, vec![h1]);

    let h2 = sink.morphological_rule_applied(h1, MRuleId(1), 0, &word);
    assert_eq!(sink.node(h1).children, vec![h2]);
    assert!(sink.node(root).children == vec![h1], "h2 must not become a sibling of h1 under root");
}

/// `synthesize_word` reaches two levels deep: it lands under the parent's last child (the lexical
/// lookup just recorded), though the call site still passes the unchanged root.
#[test]
fn synthesize_word_nests_two_levels_deep_under_lexical_lookup() {
    let mut sink = TreeTraceSink::new();
    let word = w();
    let root = sink.analyze_word(&word);

    let lex = sink.lexical_lookup(root, StratumId(0), &word);
    assert_eq!(sink.node(root).children, vec![lex], "LexicalLookup is root's child, cursor unchanged");

    let syn = sink.synthesize_word(root, &word);

    assert_eq!(sink.node(root).children, vec![lex], "no new direct child of root");
    assert_eq!(sink.node(lex).children, vec![syn], "SynthesizeWord landed under lex's children, not root's");
}

#[test]
fn failed_and_successful_carry_reason_and_word() {
    let mut sink = TreeTraceSink::new();
    let word = w();
    let root = sink.analyze_word(&word);

    let f = sink.failed(root, &word, FailureReason::PartialParse);
    assert_eq!(sink.node(f).type_, TraceType::Failed);
    assert_eq!(sink.node(f).failure_reason, Some(FailureReason::PartialParse));
    assert!(sink.node(f).output.is_some());

    let s = sink.successful(root, &word);
    assert_eq!(sink.node(s).type_, TraceType::Successful);
    assert_eq!(sink.node(s).failure_reason, None);
}

#[test]
fn stratum_bookends_carry_stratum_source() {
    let mut sink = TreeTraceSink::new();
    let word = w();
    let root = sink.analyze_word(&word);
    let begin = sink.begin_unapply_stratum(root, StratumId(2), &word);
    assert_eq!(sink.node(begin).source, TraceSource::Stratum(StratumId(2)));
    assert_eq!(sink.node(begin).type_, TraceType::StratumAnalysisInput);
    let end = sink.end_unapply_stratum(begin, StratumId(2), &word);
    assert_eq!(sink.node(end).type_, TraceType::StratumAnalysisOutput);
    assert_eq!(sink.node(begin).children, vec![end]);
}

// Own tests.

#[test]
fn the_root_is_recorded_with_its_input_and_no_parent() {
    let mut sink = TreeTraceSink::new();
    assert!(sink.is_empty());
    assert_eq!(sink.root(), None);
    let root = sink.analyze_word(&w());
    assert_eq!(sink.root(), Some(root));
    assert_eq!(sink.len(), 1);
    assert_eq!(sink.node(root).type_, TraceType::WordAnalysis);
    assert_eq!(sink.node(root).source, TraceSource::Language);
    assert_eq!(sink.node(root).input.as_deref(), Some("word"));
    let gen = sink.generate_words();
    assert_eq!(sink.root(), Some(gen));
    assert_eq!(sink.node(gen).type_, TraceType::GenerateWords);
}

#[test]
fn template_outputs_are_recorded_only_when_the_template_took_effect() {
    let mut sink = TreeTraceSink::new();
    let root = sink.generate_words();
    let word = w();
    let kept = sink.end_apply_template(root, TemplateId(1), &word, true);
    let dropped = sink.end_apply_template(root, TemplateId(1), &word, false);
    assert!(sink.node(kept).output.is_some());
    assert!(sink.node(dropped).output.is_none());
    assert_eq!(sink.node(dropped).failure_reason, None);
    let un = sink.end_unapply_template(root, TemplateId(2), &word, false);
    assert!(sink.node(un).output.is_none());
    assert_eq!(sink.node(un).source, TraceSource::Template(TemplateId(2)));
}

#[test]
fn partial_parse_events_carry_the_stratum_and_the_reason() {
    let mut sink = TreeTraceSink::new();
    let root = sink.generate_words();
    let word = w();
    let a = sink.non_final_template_applied_last(root, StratumId(1), &word);
    let b = sink.applicable_templates_not_applied(root, StratumId(1), &word);
    for h in [a, b] {
        assert_eq!(sink.node(h).type_, TraceType::StratumSynthesisOutput);
        assert_eq!(sink.node(h).source, TraceSource::Stratum(StratumId(1)));
        assert_eq!(sink.node(h).failure_reason, Some(FailureReason::PartialParse));
    }
    assert!(sink.node(a).output.is_some() && sink.node(a).input.is_none());
    assert!(sink.node(b).input.is_some() && sink.node(b).output.is_none());
}

#[test]
fn rule_events_record_rule_subrule_and_reason() {
    let mut sink = TreeTraceSink::new();
    let root = sink.analyze_word(&w());
    let word = w();
    let p = sink.phonological_rule_not_applied(root, PRuleId(3), 2, &word, FailureReason::Environments);
    assert_eq!(sink.node(p).type_, TraceType::PhonologicalRuleSynthesis);
    assert_eq!(sink.node(p).source, TraceSource::PhonRule(PRuleId(3)));
    assert_eq!(sink.node(p).subrule_index, Some(2));
    assert_eq!(sink.node(p).failure_reason, Some(FailureReason::Environments));
    let m = sink.morphological_rule_not_unapplied(root, MRuleId(4), 1, &word, FailureReason::Pattern);
    assert_eq!(sink.node(m).type_, TraceType::MorphologicalRuleAnalysis);
    assert!(sink.node(m).input.is_some());
    let c = sink.compounding_rule_not_applied(root, MRuleId(5), &word, FailureReason::HeadPattern);
    assert_eq!(sink.node(c).type_, TraceType::CompoundingRuleSynthesis);
    assert_eq!(sink.node(c).subrule_index, None);
    let b = sink.blocked(root, MRuleId(6), &word);
    assert_eq!(sink.node(b).type_, TraceType::Blocked);
    assert_eq!(sink.node(root).children, vec![p, m, c, b]);
}
