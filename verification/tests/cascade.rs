use pg_rules::cascade::Cascade;

// A mock rule set over integers: each rule i adds a distinct power of ten if a decimal digit is
// free, so applications commute and terminate.

/// rule i: if digit i (10^i place) of `n` is 0, set it to (i+1); else no output (doesn't apply).
fn digit_rule(i: usize, n: &i64) -> Vec<i64> {
    let place = 10i64.pow(i as u32);
    let digit = (n / place) % 10;
    if digit == 0 {
        vec![n + (i as i64 + 1) * place]
    } else {
        vec![]
    }
}

const UNCAPPED: usize = usize::MAX;

#[test]
fn cascade_linear_applies_first_applicable_then_recurses_in_order() {
    // From 0, rule0 fires -> 1, then rule1 fires -> 21; only the terminal derivation is added.
    let c = Cascade::new(false, UNCAPPED);
    let out = c.linear(2, 0i64, &digit_rule, &|n: &i64| *n);
    assert_eq!(out.words, vec![21]);
    assert!(!out.capped);
}

#[test]
fn cascade_permutation_adds_every_intermediate_subset_in_index_order() {
    // Every intermediate is added (unlike linear): {1, 21, 20}.
    let c = Cascade::new(false, UNCAPPED);
    let mut got = c.permutation(2, 0i64, &digit_rule, &|n: &i64| *n).words;
    got.sort();
    assert_eq!(got, vec![1, 20, 21]);
}

#[test]
fn cascade_combination_explores_all_orderings() {
    // Every subset in any order; the same set here since the rules commute.
    let c = Cascade::new(false, UNCAPPED);
    let mut got = c.combination(2, 0i64, &digit_rule, &|n: &i64| *n).words;
    got.sort();
    assert_eq!(got, vec![1, 20, 21]);
}

#[test]
fn cascade_combination_order_sensitive_reachability() {
    // r0 adds 1 only to an even number; r1 doubles.
    let r = |i: usize, n: &i64| -> Vec<i64> {
        match i {
            0 if n % 2 == 0 => vec![n + 1],
            1 => vec![n * 2],
            _ => vec![],
        }
    };
    let c = Cascade::new(false, UNCAPPED);
    let got = c.combination(2, 2i64, &r, &|n: &i64| *n).words;
    // 2 --r1--> 4 --r0--> 5 is reachable only because combination retries r0 after r1.
    assert!(got.contains(&5), "combination must reach 5 via r1-then-r0; got {got:?}");
}

#[test]
fn cascade_cap_fires_and_reports_partial() {
    // A rule that always produces a new value: unbounded without the cap.
    let r = |_i: usize, n: &i64| vec![n + 1];
    let c = Cascade::new(true, 50);
    let out = c.permutation(1, 0i64, &r, &|n: &i64| *n);
    assert!(out.capped, "cap must fire on an unbounded multi-app walk");
    assert!(out.words.len() <= 51);
}

#[test]
fn cascade_dedup_by_key_collapses_equal_results() {
    // Two rules producing the same value: the output holds one copy.
    let r = |_i: usize, _n: &i64| vec![7i64];
    let c = Cascade::new(false, UNCAPPED);
    let out = c.permutation(2, 0i64, &r, &|n: &i64| *n);
    assert_eq!(out.words, vec![7]);
}

#[test]
fn tests_linear_applies_first_applicable_then_recurses_in_order() {
    // Linear over rules [0,1]: 0 -> rule0 -> 1 -> rule1 -> 21 (terminal); only 21 is added.
    let c = Cascade::new(false, UNCAPPED);
    let out = c.linear(2, 0i64, &digit_rule, &|n: &i64| *n);
    assert_eq!(out.words, vec![21]);
    assert!(!out.capped);
}

#[test]
fn tests_permutation_adds_every_intermediate_subset_in_index_order() {
    // Permutation over [0,1] from 0: every intermediate is added (unlike linear), giving {1, 20, 21}.
    let c = Cascade::new(false, UNCAPPED);
    let mut got = c.permutation(2, 0i64, &digit_rule, &|n: &i64| *n).words;
    got.sort();
    assert_eq!(got, vec![1, 20, 21]);
}

#[test]
fn tests_combination_explores_all_orderings() {
    // Combination reaches every subset in any order, recursing from 0 each level.
    let c = Cascade::new(false, UNCAPPED);
    let mut got = c.combination(2, 0i64, &digit_rule, &|n: &i64| *n).words;
    got.sort();
    assert_eq!(got, vec![1, 20, 21]);
}

#[test]
fn tests_combination_order_sensitive_reachability() {
    // Rules where order changes what's reachable; a value only reachable via r1-then-r0.
    let r = |i: usize, n: &i64| -> Vec<i64> {
        match i {
            0 if n % 2 == 0 => vec![n + 1],
            1 => vec![n * 2],
            _ => vec![],
        }
    };
    let c = Cascade::new(false, UNCAPPED);
    let got = c.combination(2, 2i64, &r, &|n: &i64| *n).words;
    assert!(got.contains(&5), "combination must reach 5 via r1-then-r0; got {got:?}");
}

#[test]
fn tests_cap_fires_and_reports_partial() {
    let r = |_i: usize, n: &i64| vec![n + 1];
    let c = Cascade::new(true, 50);
    let out = c.permutation(1, 0i64, &r, &|n: &i64| *n);
    assert!(out.capped, "cap must fire on an unbounded multi-app walk");
    assert!(out.words.len() <= 51);
}

#[test]
fn tests_dedup_by_key_collapses_equal_results() {
    let r = |_i: usize, _n: &i64| vec![7i64];
    let c = Cascade::new(false, UNCAPPED);
    let out = c.permutation(2, 0i64, &r, &|n: &i64| *n);
    assert_eq!(out.words, vec![7]);
}

// Own tests.

#[test]
fn linear_multi_app_reapplies_a_rule_to_its_own_output_until_it_stops() {
    // Rule 0 fills digit 0 once; with multi-application the linear walk retries rule 0 on its own
    // output, which no longer applies, then moves on to rule 1.
    let c = Cascade::new(true, UNCAPPED);
    let out = c.linear(2, 0i64, &digit_rule, &|n: &i64| *n);
    assert_eq!(out.words, vec![21]);
    assert!(!out.capped);
}

#[test]
fn linear_with_no_applicable_rule_adds_nothing() {
    let r = |_i: usize, _n: &i64| -> Vec<i64> { vec![] };
    let c = Cascade::new(false, UNCAPPED);
    let out = c.linear(3, 5i64, &r, &|n: &i64| *n);
    assert!(out.words.is_empty());
    assert!(!out.capped);
}

#[test]
fn zero_cap_fires_before_any_rule_runs() {
    let c = Cascade::new(false, 0);
    let out = c.permutation(2, 0i64, &digit_rule, &|n: &i64| *n);
    assert!(out.capped);
    assert!(out.words.is_empty());
}

#[test]
fn a_cap_larger_than_the_walk_changes_nothing() {
    let small = Cascade::new(false, 1000).combination(2, 0i64, &digit_rule, &|n: &i64| *n);
    let free = Cascade::new(false, UNCAPPED).combination(2, 0i64, &digit_rule, &|n: &i64| *n);
    assert!(!small.capped);
    assert_eq!(small.words, free.words);
}

#[test]
fn linear_words_lie_within_permutation_words_within_combination_words() {
    // r0 adds 1 to an even number; r1 doubles; r2 subtracts 3 from numbers above 5.
    let r = |i: usize, n: &i64| -> Vec<i64> {
        match i {
            0 if n % 2 == 0 => vec![n + 1],
            1 => vec![n * 2],
            2 if *n > 5 => vec![n - 3],
            _ => vec![],
        }
    };
    let key = |n: &i64| *n;
    let c = Cascade::new(false, UNCAPPED);
    let lin = c.linear(3, 2i64, &r, &key).words;
    let perm = c.permutation(3, 2i64, &r, &key).words;
    let comb = c.combination(3, 2i64, &r, &key).words;
    assert_eq!(lin, vec![3]);
    assert!(lin.iter().all(|w| perm.contains(w)), "{lin:?} within {perm:?}");
    assert!(perm.iter().all(|w| comb.contains(w)), "{perm:?} within {comb:?}");
    assert!(comb.contains(&5) && !perm.contains(&5));
}
