//! Rule cascades: repeated rule application driven to a fixpoint, every reachable result
//! accumulated into a set deduplicated by a key.
//!
//! - [`Cascade::linear`] applies rules in a fixed order and keeps only terminal derivations
//!   (phonological rules);
//! - [`Cascade::permutation`] walks index-ordered rule subsets and keeps every intermediate result
//!   (morphological rules of a linearly ordered stratum);
//! - [`Cascade::combination`] restarts from rule 0 at every level, skipping rules already applied,
//!   so every ordering of every subset is explored (unordered strata).
//!
//! Each walk is generic over the in-flight datum `T`, with a rule application `apply_rule(i, t)`
//! and a dedup key `key(t)`. The key both dedups the output (first-seen order is kept) and guards
//! against the self-loop of a rule reproducing its own input.
//!
//! A cap on the total number of rule applications ends an unbounded walk with partial results and
//! reports it through [`CascadeOutput::capped`]. When the cap does not fire the output is the one
//! the uncapped walk produces.
//!
//! The walks are specified by the spec functions below, which define the walk over the rule
//! outputs and keys that the two closures compute; each executable walk returns exactly what its
//! spec function computes.
use vstd::prelude::*;

use rustc_hash::FxHashMap;

use crate::fxmap::{fx_contains_i64, fx_insert_i64, fx_new};

verus! {

/// Cascade configuration.
pub struct Cascade {
    /// A rule may re-apply to its own output (recurse at the same index, no applied-rule blocking)
    /// rather than only to later rules.
    pub multi_app: bool,
    /// Max total rule applications before the walk stops with partial results. `usize::MAX` means
    /// uncapped.
    pub cap: usize,
}

/// The result of a cascade run: the deduplicated reachable set (first-seen order) and whether the
/// step cap fired.
pub struct CascadeOutput<T> {
    pub words: Vec<T>,
    pub capped: bool,
}

/// The abstract state of a walk: the accumulated items, the keys already seen, the number of rule
/// applications so far, and whether the cap fired.
pub struct WalkState<T> {
    pub items: Seq<T>,
    pub seen: Set<i64>,
    pub steps: nat,
    pub capped: bool,
}

/// The state every walk starts from.
pub open spec fn initial_state<T>() -> WalkState<T> {
    WalkState { items: Seq::empty(), seen: Set::empty(), steps: 0, capped: false }
}

/// Insert `t` under key `k` unless an item with that key is already present.
pub open spec fn add_item<T>(st: WalkState<T>, k: i64, t: T) -> WalkState<T> {
    if st.seen.contains(k) {
        st
    } else {
        WalkState { items: st.items.push(t), seen: st.seen.insert(k), steps: st.steps, capped: st.capped }
    }
}

/// The accumulator's items carry pairwise distinct keys, and the seen set is exactly their keys.
pub open spec fn keys_consistent<T>(key: spec_fn(T) -> i64, st: WalkState<T>) -> bool {
    &&& forall|a: int, b: int| 0 <= a < b < st.items.len() ==> key(st.items[a]) != key(st.items[b])
    &&& forall|k: i64| st.seen.contains(k) <==> exists|a: int| 0 <= a < st.items.len() && key(st.items[a]) == k
}

/// `keys_consistent` depends only on the items and the seen set.
proof fn lemma_keys_frame<T>(key: spec_fn(T) -> i64, a: WalkState<T>, b: WalkState<T>)
    requires
        keys_consistent(key, a),
        a.items == b.items,
        a.seen == b.seen,
    ensures
        keys_consistent(key, b),
{
}

/// One more rule application counted.
pub open spec fn count_step<T>(st: WalkState<T>) -> WalkState<T> {
    WalkState { items: st.items, seen: st.seen, steps: st.steps + 1, capped: st.capped }
}

/// The cap fired.
pub open spec fn mark_capped<T>(st: WalkState<T>) -> WalkState<T> {
    WalkState { items: st.items, seen: st.seen, steps: st.steps, capped: true }
}

/// The outputs that `apply_rule` returns for rule `i` on `t`.
pub open spec fn rule_outputs<T, A: Fn(usize, &T) -> Vec<T>>(apply_rule: A, i: usize, t: T) -> Seq<T> {
    (choose|r: Vec<T>| call_ensures(apply_rule, (i, &t), r))@
}

/// The key that `key` returns for `t`.
pub open spec fn key_value<T, F: Fn(&T) -> i64>(key: F, t: T) -> i64 {
    choose|k: i64| call_ensures(key, (&t,), k)
}

/// The rule application as a spec function.
pub open spec fn rules_of<T, A: Fn(usize, &T) -> Vec<T>>(apply_rule: A) -> spec_fn(usize, T) -> Seq<T> {
    |i: usize, t: T| rule_outputs(apply_rule, i, t)
}

/// The key as a spec function.
pub open spec fn keys_of<T, F: Fn(&T) -> i64>(key: F) -> spec_fn(T) -> i64 {
    |t: T| key_value(key, t)
}

/// `apply_rule` may be called on every rule index below `rule_count` and every datum, and always
/// returns the same outputs for the same arguments there.
pub open spec fn rule_fn_ok<T, A: Fn(usize, &T) -> Vec<T>>(apply_rule: A, rule_count: usize) -> bool {
    &&& forall|i: usize, t: T| i < rule_count ==> call_requires(apply_rule, (i, &t))
    &&& forall|i: usize, t: T, r: Vec<T>|
        i < rule_count && #[trigger] call_ensures(apply_rule, (i, &t), r) ==> r@ == rule_outputs(apply_rule, i, t)
}

/// `key` may be called on every datum, and always returns the same key for the same datum.
pub open spec fn key_fn_ok<T, F: Fn(&T) -> i64>(key: F) -> bool {
    &&& forall|t: T| call_requires(key, (&t,))
    &&& forall|t: T, k: i64| #[trigger] call_ensures(key, (&t,), k) ==> k == key_value(key, t)
}

/// The walk parameters that stay fixed through one cascade run.
#[verifier::reject_recursive_types(T)]
pub struct WalkParams<T> {
    pub multi_app: bool,
    pub cap: nat,
    pub rule_count: nat,
    pub rules: spec_fn(usize, T) -> Seq<T>,
    pub key: spec_fn(T) -> i64,
}

/// The parameters of a run of `c` over `rule_count` rules with the given closures.
pub open spec fn params_of<T, A: Fn(usize, &T) -> Vec<T>, F: Fn(&T) -> i64>(
    c: Cascade,
    rule_count: usize,
    apply_rule: A,
    key: F,
) -> WalkParams<T> {
    WalkParams {
        multi_app: c.multi_app,
        cap: c.cap as nat,
        rule_count: rule_count as nat,
        rules: rules_of(apply_rule),
        key: keys_of(key),
    }
}

// ---------------------------------------------------------------------------------------------
// Linear cascade.
// ---------------------------------------------------------------------------------------------

/// The linear walk from rule `i` on `input`: the first rule (at or after `i`) that produces output
/// ends the loop; each of its results either recurses (at the same index with multiple application,
/// else at the next) and is added only when nothing further applied to it, or, being a self-loop, is
/// added directly. The returned flag is true exactly when no rule at or after `i` applied (a
/// terminal derivation). `fuel` bounds the recursion depth; a run started with more fuel than its
/// cap never runs out.
pub open spec fn linear_walk<T>(p: WalkParams<T>, input: T, i: nat, fuel: nat, st: WalkState<T>) -> (WalkState<T>, bool)
    decreases fuel, p.rule_count - i, 1nat, 0nat,
{
    if i >= p.rule_count {
        (st, true)
    } else if st.steps >= p.cap {
        (mark_capped(st), false)
    } else {
        let results = (p.rules)(i as usize, input);
        let st2 = linear_results(p, input, i, results, 0, fuel, count_step(st));
        if results.len() > 0 {
            (st2, false)
        } else {
            linear_walk(p, input, i + 1, fuel, st2)
        }
    }
}

/// The handling of the results of rule `i` on `input`, from result `j` on.
pub open spec fn linear_results<T>(
    p: WalkParams<T>,
    input: T,
    i: nat,
    results: Seq<T>,
    j: nat,
    fuel: nat,
    st: WalkState<T>,
) -> WalkState<T>
    decreases fuel, p.rule_count - i, 0nat, results.len() - j,
{
    if j >= results.len() || i >= p.rule_count {
        st
    } else {
        let r = results[j as int];
        let st1 = if !p.multi_app || (p.key)(input) != (p.key)(r) {
            let next = if p.multi_app { i } else { i + 1 };
            if fuel == 0 {
                st
            } else {
                let (s, terminal) = linear_walk(p, r, next, (fuel - 1) as nat, st);
                if terminal { add_item(s, (p.key)(r), r) } else { s }
            }
        } else {
            add_item(st, (p.key)(r), r)
        };
        linear_results(p, input, i, results, j + 1, fuel, st1)
    }
}

/// The linear cascade over `input`.
pub open spec fn linear_spec<T>(p: WalkParams<T>, input: T) -> WalkState<T> {
    linear_walk(p, input, 0, p.cap + 1, initial_state()).0
}

// ---------------------------------------------------------------------------------------------
// Permutation cascade.
// ---------------------------------------------------------------------------------------------

/// The permutation walk from rule `i` on `input`: every rule at or after `i` is tried in index order;
/// each result recurses (same index with multiple application, else the next) unless it is a
/// self-loop, and is added after its own subtree.
pub open spec fn permutation_walk<T>(p: WalkParams<T>, input: T, i: nat, fuel: nat, st: WalkState<T>) -> WalkState<T>
    decreases fuel, p.rule_count - i, 1nat, 0nat,
{
    if i >= p.rule_count {
        st
    } else if st.steps >= p.cap {
        mark_capped(st)
    } else {
        let results = (p.rules)(i as usize, input);
        let st2 = permutation_results(p, input, i, results, 0, fuel, count_step(st));
        permutation_walk(p, input, i + 1, fuel, st2)
    }
}

/// The handling of the results of rule `i` on `input`, from result `j` on.
pub open spec fn permutation_results<T>(
    p: WalkParams<T>,
    input: T,
    i: nat,
    results: Seq<T>,
    j: nat,
    fuel: nat,
    st: WalkState<T>,
) -> WalkState<T>
    decreases fuel, p.rule_count - i, 0nat, results.len() - j,
{
    if j >= results.len() || i >= p.rule_count {
        st
    } else {
        let r = results[j as int];
        let st1 = if !p.multi_app || (p.key)(input) != (p.key)(r) {
            let next = if p.multi_app { i } else { i + 1 };
            if fuel == 0 {
                st
            } else {
                permutation_walk(p, r, next, (fuel - 1) as nat, st)
            }
        } else {
            st
        };
        permutation_results(p, input, i, results, j + 1, fuel, add_item(st1, (p.key)(r), r))
    }
}

/// The permutation cascade over `input`.
pub open spec fn permutation_spec<T>(p: WalkParams<T>, input: T) -> WalkState<T> {
    permutation_walk(p, input, 0, p.cap + 1, initial_state())
}

// ---------------------------------------------------------------------------------------------
// Combination cascade.
// ---------------------------------------------------------------------------------------------

/// Whether rule `i` is blocked because it was already applied on this path (`None`: nothing is
/// tracked, multiple application).
pub open spec fn is_applied(applied: Option<Seq<bool>>, i: nat) -> bool {
    match applied {
        Some(a) => i < a.len() && a[i as int],
        None => false,
    }
}

/// The applied set after applying rule `i`.
pub open spec fn mark_applied(applied: Option<Seq<bool>>, i: nat) -> Option<Seq<bool>> {
    match applied {
        Some(a) => Some(a.update(i as int, true)),
        None => None,
    }
}

/// The combination walk over rules `i..` on `input`, skipping already-applied rules; each result
/// that is not a self-loop recurses from rule 0 with rule `i` marked applied, and is added after
/// its own subtree.
pub open spec fn combination_walk<T>(
    p: WalkParams<T>,
    input: T,
    applied: Option<Seq<bool>>,
    i: nat,
    fuel: nat,
    st: WalkState<T>,
) -> WalkState<T>
    decreases fuel, p.rule_count - i, 1nat, 0nat,
{
    if i >= p.rule_count {
        st
    } else if is_applied(applied, i) {
        combination_walk(p, input, applied, i + 1, fuel, st)
    } else if st.steps >= p.cap {
        mark_capped(st)
    } else {
        let results = (p.rules)(i as usize, input);
        let st2 = combination_results(p, input, applied, i, results, 0, fuel, count_step(st));
        combination_walk(p, input, applied, i + 1, fuel, st2)
    }
}

/// The handling of the results of rule `i` on `input`, from result `j` on.
pub open spec fn combination_results<T>(
    p: WalkParams<T>,
    input: T,
    applied: Option<Seq<bool>>,
    i: nat,
    results: Seq<T>,
    j: nat,
    fuel: nat,
    st: WalkState<T>,
) -> WalkState<T>
    decreases fuel, p.rule_count - i, 0nat, results.len() - j,
{
    if j >= results.len() || i >= p.rule_count {
        st
    } else {
        let r = results[j as int];
        let st1 = if (p.key)(input) != (p.key)(r) {
            if fuel == 0 {
                st
            } else {
                combination_walk(p, r, mark_applied(applied, i), 0, (fuel - 1) as nat, st)
            }
        } else {
            st
        };
        combination_results(p, input, applied, i, results, j + 1, fuel, add_item(st1, (p.key)(r), r))
    }
}

/// The applied set a combination run starts with: all rules unapplied, or nothing tracked with
/// multiple application.
pub open spec fn initial_applied(multi_app: bool, rule_count: nat) -> Option<Seq<bool>> {
    if multi_app { None } else { Some(Seq::new(rule_count, |k: int| false)) }
}

/// The combination cascade over `input`.
pub open spec fn combination_spec<T>(p: WalkParams<T>, input: T) -> WalkState<T> {
    combination_walk(p, input, initial_applied(p.multi_app, p.rule_count), 0, p.cap + 1, initial_state())
}

// ---------------------------------------------------------------------------------------------
// Laws.
// ---------------------------------------------------------------------------------------------

/// The same walk with another cap.
pub open spec fn with_cap<T>(p: WalkParams<T>, cap: nat) -> WalkParams<T> {
    WalkParams { multi_app: p.multi_app, cap: cap, rule_count: p.rule_count, rules: p.rules, key: p.key }
}

proof fn lemma_linear_facts<T>(p: WalkParams<T>, input: T, i: nat, fuel: nat, st: WalkState<T>)
    ensures
        linear_walk(p, input, i, fuel, st).0.steps >= st.steps,
        st.capped ==> linear_walk(p, input, i, fuel, st).0.capped,
        st.steps <= p.cap ==> linear_walk(p, input, i, fuel, st).0.steps <= p.cap,
    decreases fuel, p.rule_count - i, 1nat, 0nat,
{
    if i >= p.rule_count {
    } else if st.steps >= p.cap {
    } else {
        let results = (p.rules)(i as usize, input);
        lemma_linear_results_facts(p, input, i, results, 0, fuel, count_step(st));
        let st2 = linear_results(p, input, i, results, 0, fuel, count_step(st));
        if results.len() == 0 {
            lemma_linear_facts(p, input, i + 1, fuel, st2);
        }
    }
}

proof fn lemma_linear_results_facts<T>(
    p: WalkParams<T>,
    input: T,
    i: nat,
    results: Seq<T>,
    j: nat,
    fuel: nat,
    st: WalkState<T>,
)
    ensures
        linear_results(p, input, i, results, j, fuel, st).steps >= st.steps,
        st.capped ==> linear_results(p, input, i, results, j, fuel, st).capped,
        st.steps <= p.cap ==> linear_results(p, input, i, results, j, fuel, st).steps <= p.cap,
    decreases fuel, p.rule_count - i, 0nat, results.len() - j,
{
    if j >= results.len() || i >= p.rule_count {
    } else {
        let r = results[j as int];
        let next = if p.multi_app { i } else { i + 1 };
        if (!p.multi_app || (p.key)(input) != (p.key)(r)) && fuel > 0 {
            lemma_linear_facts(p, r, next, (fuel - 1) as nat, st);
        }
        let st1 = if !p.multi_app || (p.key)(input) != (p.key)(r) {
            if fuel == 0 {
                st
            } else {
                let (s, terminal) = linear_walk(p, r, next, (fuel - 1) as nat, st);
                if terminal { add_item(s, (p.key)(r), r) } else { s }
            }
        } else {
            add_item(st, (p.key)(r), r)
        };
        lemma_linear_results_facts(p, input, i, results, j + 1, fuel, st1);
    }
}

proof fn lemma_linear_cap<T>(p: WalkParams<T>, cap2: nat, input: T, i: nat, f1: nat, f2: nat, st: WalkState<T>)
    requires
        p.cap <= cap2,
        st.steps <= p.cap,
        f1 + st.steps > p.cap,
        f2 + st.steps > cap2,
        !linear_walk(p, input, i, f1, st).0.capped,
    ensures
        linear_walk(with_cap(p, cap2), input, i, f2, st) == linear_walk(p, input, i, f1, st),
    decreases f1, p.rule_count - i, 1nat, 0nat,
{
    let p2 = with_cap(p, cap2);
    if i >= p.rule_count {
    } else if st.steps >= p.cap {
    } else {
        let results = (p.rules)(i as usize, input);
        let st1 = count_step(st);
        let st2 = linear_results(p, input, i, results, 0, f1, st1);
        if results.len() == 0 {
            lemma_linear_facts(p, input, i + 1, f1, st2);
        }
        lemma_linear_results_facts(p, input, i, results, 0, f1, st1);
        lemma_linear_results_cap(p, cap2, input, i, results, 0, f1, f2, st1);
        if results.len() == 0 {
            lemma_linear_cap(p, cap2, input, i + 1, f1, f2, st2);
        }
    }
}

proof fn lemma_linear_results_cap<T>(
    p: WalkParams<T>,
    cap2: nat,
    input: T,
    i: nat,
    results: Seq<T>,
    j: nat,
    f1: nat,
    f2: nat,
    st: WalkState<T>,
)
    requires
        p.cap <= cap2,
        st.steps <= p.cap,
        f1 + st.steps > p.cap + 1,
        f2 + st.steps > cap2 + 1,
        !linear_results(p, input, i, results, j, f1, st).capped,
    ensures
        linear_results(with_cap(p, cap2), input, i, results, j, f2, st) == linear_results(p, input, i, results, j, f1, st),
    decreases f1, p.rule_count - i, 0nat, results.len() - j,
{
    let p2 = with_cap(p, cap2);
    if j >= results.len() || i >= p.rule_count {
    } else {
        let r = results[j as int];
        let next = if p.multi_app { i } else { i + 1 };
        let st1 = if !p.multi_app || (p.key)(input) != (p.key)(r) {
            let (s, terminal) = linear_walk(p, r, next, (f1 - 1) as nat, st);
            if terminal { add_item(s, (p.key)(r), r) } else { s }
        } else {
            add_item(st, (p.key)(r), r)
        };
        lemma_linear_results_facts(p, input, i, results, j + 1, f1, st1);
        if !p.multi_app || (p.key)(input) != (p.key)(r) {
            lemma_linear_facts(p, r, next, (f1 - 1) as nat, st);
            lemma_linear_cap(p, cap2, r, next, (f1 - 1) as nat, (f2 - 1) as nat, st);
        }
        lemma_linear_results_cap(p, cap2, input, i, results, j + 1, f1, f2, st1);
    }
}

/// The cap is a safety valve, not a semantic change: when a linear run ends without the cap
/// firing, the same run under any larger cap (the uncapped `usize::MAX` among them) gives the same
/// output and the same step count.
pub proof fn law_linear_cap_transparent<T>(p: WalkParams<T>, input: T, larger_cap: nat)
    requires
        p.cap <= larger_cap,
        !linear_spec(p, input).capped,
    ensures
        linear_spec(with_cap(p, larger_cap), input) == linear_spec(p, input),
{
    lemma_linear_cap(p, larger_cap, input, 0, p.cap + 1, larger_cap + 1, initial_state());
}

proof fn lemma_permutation_facts<T>(p: WalkParams<T>, input: T, i: nat, fuel: nat, st: WalkState<T>)
    ensures
        permutation_walk(p, input, i, fuel, st).steps >= st.steps,
        st.capped ==> permutation_walk(p, input, i, fuel, st).capped,
        st.steps <= p.cap ==> permutation_walk(p, input, i, fuel, st).steps <= p.cap,
    decreases fuel, p.rule_count - i, 1nat, 0nat,
{
    if i >= p.rule_count {
    } else if st.steps >= p.cap {
    } else {
        let results = (p.rules)(i as usize, input);
        lemma_permutation_results_facts(p, input, i, results, 0, fuel, count_step(st));
        let st2 = permutation_results(p, input, i, results, 0, fuel, count_step(st));
        lemma_permutation_facts(p, input, i + 1, fuel, st2);
    }
}

proof fn lemma_permutation_results_facts<T>(
    p: WalkParams<T>,
    input: T,
    i: nat,
    results: Seq<T>,
    j: nat,
    fuel: nat,
    st: WalkState<T>,
)
    ensures
        permutation_results(p, input, i, results, j, fuel, st).steps >= st.steps,
        st.capped ==> permutation_results(p, input, i, results, j, fuel, st).capped,
        st.steps <= p.cap ==> permutation_results(p, input, i, results, j, fuel, st).steps <= p.cap,
    decreases fuel, p.rule_count - i, 0nat, results.len() - j,
{
    if j >= results.len() || i >= p.rule_count {
    } else {
        let r = results[j as int];
        let next = if p.multi_app { i } else { i + 1 };
        if (!p.multi_app || (p.key)(input) != (p.key)(r)) && fuel > 0 {
            lemma_permutation_facts(p, r, next, (fuel - 1) as nat, st);
        }
        let st1 = if !p.multi_app || (p.key)(input) != (p.key)(r) {
            if fuel == 0 { st } else { permutation_walk(p, r, next, (fuel - 1) as nat, st) }
        } else {
            st
        };
        lemma_permutation_results_facts(p, input, i, results, j + 1, fuel, add_item(st1, (p.key)(r), r));
    }
}

proof fn lemma_permutation_cap<T>(p: WalkParams<T>, cap2: nat, input: T, i: nat, f1: nat, f2: nat, st: WalkState<T>)
    requires
        p.cap <= cap2,
        st.steps <= p.cap,
        f1 + st.steps > p.cap,
        f2 + st.steps > cap2,
        !permutation_walk(p, input, i, f1, st).capped,
    ensures
        permutation_walk(with_cap(p, cap2), input, i, f2, st) == permutation_walk(p, input, i, f1, st),
    decreases f1, p.rule_count - i, 1nat, 0nat,
{
    if i >= p.rule_count {
    } else if st.steps >= p.cap {
    } else {
        let results = (p.rules)(i as usize, input);
        let st1 = count_step(st);
        let st2 = permutation_results(p, input, i, results, 0, f1, st1);
        lemma_permutation_facts(p, input, i + 1, f1, st2);
        lemma_permutation_results_facts(p, input, i, results, 0, f1, st1);
        lemma_permutation_results_cap(p, cap2, input, i, results, 0, f1, f2, st1);
        lemma_permutation_cap(p, cap2, input, i + 1, f1, f2, st2);
    }
}

proof fn lemma_permutation_results_cap<T>(
    p: WalkParams<T>,
    cap2: nat,
    input: T,
    i: nat,
    results: Seq<T>,
    j: nat,
    f1: nat,
    f2: nat,
    st: WalkState<T>,
)
    requires
        p.cap <= cap2,
        st.steps <= p.cap,
        f1 + st.steps > p.cap + 1,
        f2 + st.steps > cap2 + 1,
        !permutation_results(p, input, i, results, j, f1, st).capped,
    ensures
        permutation_results(with_cap(p, cap2), input, i, results, j, f2, st)
            == permutation_results(p, input, i, results, j, f1, st),
    decreases f1, p.rule_count - i, 0nat, results.len() - j,
{
    if j >= results.len() || i >= p.rule_count {
    } else {
        let r = results[j as int];
        let next = if p.multi_app { i } else { i + 1 };
        let st1 = if !p.multi_app || (p.key)(input) != (p.key)(r) {
            permutation_walk(p, r, next, (f1 - 1) as nat, st)
        } else {
            st
        };
        let st2 = add_item(st1, (p.key)(r), r);
        lemma_permutation_results_facts(p, input, i, results, j + 1, f1, st2);
        if !p.multi_app || (p.key)(input) != (p.key)(r) {
            lemma_permutation_facts(p, r, next, (f1 - 1) as nat, st);
            lemma_permutation_cap(p, cap2, r, next, (f1 - 1) as nat, (f2 - 1) as nat, st);
        }
        lemma_permutation_results_cap(p, cap2, input, i, results, j + 1, f1, f2, st2);
    }
}

/// When a permutation run ends without the cap firing, the same run under any larger cap gives the
/// same output and step count.
pub proof fn law_permutation_cap_transparent<T>(p: WalkParams<T>, input: T, larger_cap: nat)
    requires
        p.cap <= larger_cap,
        !permutation_spec(p, input).capped,
    ensures
        permutation_spec(with_cap(p, larger_cap), input) == permutation_spec(p, input),
{
    lemma_permutation_cap(p, larger_cap, input, 0, p.cap + 1, larger_cap + 1, initial_state());
}

/// The keys of every result in the derivation tree the permutation walk explores from rule `i` on
/// `input` with `fuel` levels left, whatever its state.
pub open spec fn tree_keys<T>(p: WalkParams<T>, input: T, i: nat, fuel: nat) -> Set<i64>
    decreases fuel, p.rule_count - i, 1nat, 0nat,
{
    if i >= p.rule_count {
        Set::empty()
    } else {
        results_keys(p, input, i, (p.rules)(i as usize, input), 0, fuel).union(tree_keys(p, input, i + 1, fuel))
    }
}

/// The keys of results `j..` of rule `i` on `input` and of their derivation trees.
pub open spec fn results_keys<T>(p: WalkParams<T>, input: T, i: nat, results: Seq<T>, j: nat, fuel: nat) -> Set<i64>
    decreases fuel, p.rule_count - i, 0nat, results.len() - j,
{
    if j >= results.len() || i >= p.rule_count {
        Set::empty()
    } else {
        let r = results[j as int];
        let next = if p.multi_app { i } else { i + 1 };
        let sub = if (!p.multi_app || (p.key)(input) != (p.key)(r)) && fuel > 0 {
            tree_keys(p, r, next, (fuel - 1) as nat)
        } else {
            Set::empty()
        };
        sub.insert((p.key)(r)).union(results_keys(p, input, i, results, j + 1, fuel))
    }
}

/// Every item's key is among the seen keys.
pub open spec fn items_seen<T>(p: WalkParams<T>, st: WalkState<T>) -> bool {
    forall|a: int| 0 <= a < st.items.len() ==> st.seen.contains((p.key)(#[trigger] st.items[a]))
}

/// Every seen key is some item's key.
pub open spec fn seen_items<T>(p: WalkParams<T>, st: WalkState<T>) -> bool {
    forall|k: i64| #[trigger] st.seen.contains(k) ==> exists|a: int| 0 <= a < st.items.len() && (p.key)(st.items[a]) == k
}

proof fn lemma_add_item_items_seen<T>(p: WalkParams<T>, st: WalkState<T>, t: T)
    requires
        items_seen(p, st),
    ensures
        items_seen(p, add_item(st, (p.key)(t), t)),
        add_item(st, (p.key)(t), t).seen == st.seen.insert((p.key)(t)),
{
    let st2 = add_item(st, (p.key)(t), t);
    if !st.seen.contains((p.key)(t)) {
        assert forall|a: int| 0 <= a < st2.items.len() implies st2.seen.contains((p.key)(#[trigger] st2.items[a])) by {
            if a < st.items.len() {
                assert(st2.items[a] == st.items[a]);
            }
        }
    } else {
        assert(st.seen.insert((p.key)(t)) =~= st.seen);
    }
}

proof fn lemma_add_item_seen_items<T>(p: WalkParams<T>, st: WalkState<T>, t: T)
    requires
        seen_items(p, st),
    ensures
        seen_items(p, add_item(st, (p.key)(t), t)),
        add_item(st, (p.key)(t), t).seen == st.seen.insert((p.key)(t)),
{
    let st2 = add_item(st, (p.key)(t), t);
    if !st.seen.contains((p.key)(t)) {
        assert forall|k: i64| #[trigger] st2.seen.contains(k) implies exists|a: int|
            0 <= a < st2.items.len() && (p.key)(st2.items[a]) == k by {
            if k == (p.key)(t) {
                assert(st2.items[st.items.len() as int] == t);
            } else {
                assert(st.seen.contains(k));
                let a = choose|a: int| 0 <= a < st.items.len() && (p.key)(st.items[a]) == k;
                assert(st2.items[a] == st.items[a]);
            }
        }
    } else {
        assert(st.seen.insert((p.key)(t)) =~= st.seen);
    }
}

proof fn lemma_seen_items_frame<T>(p: WalkParams<T>, a: WalkState<T>, b: WalkState<T>)
    requires
        seen_items(p, a),
        a.items == b.items,
        a.seen == b.seen,
    ensures
        seen_items(p, b),
{
    assert forall|k: i64| #[trigger] b.seen.contains(k) implies exists|x: int|
        0 <= x < b.items.len() && (p.key)(b.items[x]) == k by {
        assert(a.seen.contains(k));
    }
}

/// The linear walk only ever adds keys of its derivation tree.
proof fn lemma_linear_within_tree<T>(p: WalkParams<T>, input: T, i: nat, fuel: nat, st: WalkState<T>)
    requires
        items_seen(p, st),
    ensures
        items_seen(p, linear_walk(p, input, i, fuel, st).0),
        linear_walk(p, input, i, fuel, st).0.seen.subset_of(st.seen.union(tree_keys(p, input, i, fuel))),
    decreases fuel, p.rule_count - i, 1nat, 0nat,
{
    if i >= p.rule_count {
    } else if st.steps >= p.cap {
    } else {
        let results = (p.rules)(i as usize, input);
        lemma_linear_results_within_tree(p, input, i, results, 0, fuel, count_step(st));
        let st2 = linear_results(p, input, i, results, 0, fuel, count_step(st));
        if results.len() == 0 {
            lemma_linear_within_tree(p, input, i + 1, fuel, st2);
        }
    }
}

proof fn lemma_linear_results_within_tree<T>(
    p: WalkParams<T>,
    input: T,
    i: nat,
    results: Seq<T>,
    j: nat,
    fuel: nat,
    st: WalkState<T>,
)
    requires
        items_seen(p, st),
    ensures
        items_seen(p, linear_results(p, input, i, results, j, fuel, st)),
        linear_results(p, input, i, results, j, fuel, st).seen.subset_of(
            st.seen.union(results_keys(p, input, i, results, j, fuel)),
        ),
    decreases fuel, p.rule_count - i, 0nat, results.len() - j,
{
    if j >= results.len() || i >= p.rule_count {
    } else {
        let r = results[j as int];
        let next = if p.multi_app { i } else { i + 1 };
        let st1 = if !p.multi_app || (p.key)(input) != (p.key)(r) {
            if fuel == 0 {
                st
            } else {
                let (s, terminal) = linear_walk(p, r, next, (fuel - 1) as nat, st);
                if terminal { add_item(s, (p.key)(r), r) } else { s }
            }
        } else {
            add_item(st, (p.key)(r), r)
        };
        if !p.multi_app || (p.key)(input) != (p.key)(r) {
            if fuel > 0 {
                lemma_linear_within_tree(p, r, next, (fuel - 1) as nat, st);
                let s = linear_walk(p, r, next, (fuel - 1) as nat, st).0;
                lemma_add_item_items_seen(p, s, r);
            }
        } else {
            lemma_add_item_items_seen(p, st, r);
        }
        lemma_linear_results_within_tree(p, input, i, results, j + 1, fuel, st1);
    }
}

/// Unless it caps, the permutation walk sees every key of its derivation tree.
proof fn lemma_permutation_covers_tree<T>(p: WalkParams<T>, input: T, i: nat, fuel: nat, st: WalkState<T>)
    requires
        seen_items(p, st),
    ensures
        seen_items(p, permutation_walk(p, input, i, fuel, st)),
        st.seen.subset_of(permutation_walk(p, input, i, fuel, st).seen),
        !permutation_walk(p, input, i, fuel, st).capped ==> tree_keys(p, input, i, fuel).subset_of(
            permutation_walk(p, input, i, fuel, st).seen,
        ),
    decreases fuel, p.rule_count - i, 1nat, 0nat,
{
    if i >= p.rule_count {
    } else if st.steps >= p.cap {
        lemma_seen_items_frame(p, st, mark_capped(st));
    } else {
        let results = (p.rules)(i as usize, input);
        lemma_seen_items_frame(p, st, count_step(st));
        lemma_permutation_results_cover(p, input, i, results, 0, fuel, count_step(st));
        let st2 = permutation_results(p, input, i, results, 0, fuel, count_step(st));
        lemma_permutation_covers_tree(p, input, i + 1, fuel, st2);
        lemma_permutation_facts(p, input, i + 1, fuel, st2);
    }
}

proof fn lemma_permutation_results_cover<T>(
    p: WalkParams<T>,
    input: T,
    i: nat,
    results: Seq<T>,
    j: nat,
    fuel: nat,
    st: WalkState<T>,
)
    requires
        seen_items(p, st),
    ensures
        seen_items(p, permutation_results(p, input, i, results, j, fuel, st)),
        st.seen.subset_of(permutation_results(p, input, i, results, j, fuel, st).seen),
        !permutation_results(p, input, i, results, j, fuel, st).capped ==> results_keys(
            p,
            input,
            i,
            results,
            j,
            fuel,
        ).subset_of(permutation_results(p, input, i, results, j, fuel, st).seen),
    decreases fuel, p.rule_count - i, 0nat, results.len() - j,
{
    if j >= results.len() || i >= p.rule_count {
    } else {
        let r = results[j as int];
        let next = if p.multi_app { i } else { i + 1 };
        let recurse = (!p.multi_app || (p.key)(input) != (p.key)(r)) && fuel > 0;
        let st1 = if !p.multi_app || (p.key)(input) != (p.key)(r) {
            if fuel == 0 {
                st
            } else {
                permutation_walk(p, r, next, (fuel - 1) as nat, st)
            }
        } else {
            st
        };
        if recurse {
            lemma_permutation_covers_tree(p, r, next, (fuel - 1) as nat, st);
        }
        lemma_add_item_seen_items(p, st1, r);
        let st3 = add_item(st1, (p.key)(r), r);
        lemma_permutation_results_cover(p, input, i, results, j + 1, fuel, st3);
        lemma_permutation_results_facts(p, input, i, results, j + 1, fuel, st3);
        if recurse && permutation_walk(p, r, next, (fuel - 1) as nat, st).capped {
            assert(st3.capped);
        }
    }
}

/// Some item of `items` has key `k`.
pub open spec fn has_key<T>(key: spec_fn(T) -> i64, items: Seq<T>, k: i64) -> bool {
    exists|b: int| 0 <= b < items.len() && key(items[b]) == k
}

/// The linear cascade finds nothing the permutation cascade misses: when the permutation run ends
/// without the cap firing, every word the linear run keeps (each a terminal derivation) has a
/// word of the same key among the permutation run's words (every intermediate result).
pub proof fn law_linear_within_permutation<T>(p: WalkParams<T>, input: T)
    requires
        !permutation_spec(p, input).capped,
    ensures
        forall|a: int|
            0 <= a < linear_spec(p, input).items.len() ==> #[trigger] has_key(
                p.key,
                permutation_spec(p, input).items,
                (p.key)(linear_spec(p, input).items[a]),
            ),
{
    let st0 = initial_state::<T>();
    assert(items_seen(p, st0));
    assert(seen_items(p, st0));
    lemma_linear_within_tree(p, input, 0, p.cap + 1, st0);
    lemma_permutation_covers_tree(p, input, 0, p.cap + 1, st0);
    let lin = linear_spec(p, input);
    let perm = permutation_spec(p, input);
    assert forall|a: int| 0 <= a < lin.items.len() implies #[trigger] has_key(p.key, perm.items, (p.key)(lin.items[a])) by {
        let k = (p.key)(lin.items[a]);
        assert(lin.seen.contains(k));
        assert(st0.seen.union(tree_keys(p, input, 0, p.cap + 1)).contains(k));
        assert(perm.seen.contains(k));
    }
}

/// The permutation walk only ever adds keys of its derivation tree.
proof fn lemma_permutation_within_tree<T>(p: WalkParams<T>, input: T, i: nat, fuel: nat, st: WalkState<T>)
    requires
        items_seen(p, st),
    ensures
        items_seen(p, permutation_walk(p, input, i, fuel, st)),
        permutation_walk(p, input, i, fuel, st).seen.subset_of(st.seen.union(tree_keys(p, input, i, fuel))),
    decreases fuel, p.rule_count - i, 1nat, 0nat,
{
    if i >= p.rule_count {
    } else if st.steps >= p.cap {
    } else {
        let results = (p.rules)(i as usize, input);
        lemma_permutation_results_within_tree(p, input, i, results, 0, fuel, count_step(st));
        let st2 = permutation_results(p, input, i, results, 0, fuel, count_step(st));
        lemma_permutation_within_tree(p, input, i + 1, fuel, st2);
    }
}

proof fn lemma_permutation_results_within_tree<T>(
    p: WalkParams<T>,
    input: T,
    i: nat,
    results: Seq<T>,
    j: nat,
    fuel: nat,
    st: WalkState<T>,
)
    requires
        items_seen(p, st),
    ensures
        items_seen(p, permutation_results(p, input, i, results, j, fuel, st)),
        permutation_results(p, input, i, results, j, fuel, st).seen.subset_of(
            st.seen.union(results_keys(p, input, i, results, j, fuel)),
        ),
    decreases fuel, p.rule_count - i, 0nat, results.len() - j,
{
    if j >= results.len() || i >= p.rule_count {
    } else {
        let r = results[j as int];
        let next = if p.multi_app { i } else { i + 1 };
        let st1 = if !p.multi_app || (p.key)(input) != (p.key)(r) {
            if fuel == 0 {
                st
            } else {
                permutation_walk(p, r, next, (fuel - 1) as nat, st)
            }
        } else {
            st
        };
        if (!p.multi_app || (p.key)(input) != (p.key)(r)) && fuel > 0 {
            lemma_permutation_within_tree(p, r, next, (fuel - 1) as nat, st);
        }
        lemma_add_item_items_seen(p, st1, r);
        lemma_permutation_results_within_tree(p, input, i, results, j + 1, fuel, add_item(st1, (p.key)(r), r));
    }
}

/// The keys of every result in the derivation tree the combination walk explores over rules `i..`
/// on `input`, whatever its state.
pub open spec fn comb_tree_keys<T>(p: WalkParams<T>, input: T, applied: Option<Seq<bool>>, i: nat, fuel: nat) -> Set<
    i64,
>
    decreases fuel, p.rule_count - i, 1nat, 0nat,
{
    if i >= p.rule_count {
        Set::empty()
    } else if is_applied(applied, i) {
        comb_tree_keys(p, input, applied, i + 1, fuel)
    } else {
        comb_results_keys(p, input, applied, i, (p.rules)(i as usize, input), 0, fuel).union(
            comb_tree_keys(p, input, applied, i + 1, fuel),
        )
    }
}

/// The keys of results `j..` of rule `i` on `input` and of their combination trees.
pub open spec fn comb_results_keys<T>(
    p: WalkParams<T>,
    input: T,
    applied: Option<Seq<bool>>,
    i: nat,
    results: Seq<T>,
    j: nat,
    fuel: nat,
) -> Set<i64>
    decreases fuel, p.rule_count - i, 0nat, results.len() - j,
{
    if j >= results.len() || i >= p.rule_count {
        Set::empty()
    } else {
        let r = results[j as int];
        let sub = if (p.key)(input) != (p.key)(r) && fuel > 0 {
            comb_tree_keys(p, r, mark_applied(applied, i), 0, (fuel - 1) as nat)
        } else {
            Set::empty()
        };
        sub.insert((p.key)(r)).union(comb_results_keys(p, input, applied, i, results, j + 1, fuel))
    }
}

/// Unless it caps, the combination walk sees every key of its derivation tree.
proof fn lemma_combination_covers_tree<T>(
    p: WalkParams<T>,
    input: T,
    applied: Option<Seq<bool>>,
    i: nat,
    fuel: nat,
    st: WalkState<T>,
)
    requires
        seen_items(p, st),
    ensures
        seen_items(p, combination_walk(p, input, applied, i, fuel, st)),
        st.seen.subset_of(combination_walk(p, input, applied, i, fuel, st).seen),
        !combination_walk(p, input, applied, i, fuel, st).capped ==> comb_tree_keys(p, input, applied, i, fuel).subset_of(
            combination_walk(p, input, applied, i, fuel, st).seen,
        ),
    decreases fuel, p.rule_count - i, 1nat, 0nat,
{
    if i >= p.rule_count {
    } else if is_applied(applied, i) {
        lemma_combination_covers_tree(p, input, applied, i + 1, fuel, st);
    } else if st.steps >= p.cap {
        lemma_seen_items_frame(p, st, mark_capped(st));
    } else {
        let results = (p.rules)(i as usize, input);
        lemma_seen_items_frame(p, st, count_step(st));
        lemma_combination_results_cover(p, input, applied, i, results, 0, fuel, count_step(st));
        let st2 = combination_results(p, input, applied, i, results, 0, fuel, count_step(st));
        lemma_combination_covers_tree(p, input, applied, i + 1, fuel, st2);
        lemma_combination_facts(p, input, applied, i + 1, fuel, st2);
    }
}

proof fn lemma_combination_results_cover<T>(
    p: WalkParams<T>,
    input: T,
    applied: Option<Seq<bool>>,
    i: nat,
    results: Seq<T>,
    j: nat,
    fuel: nat,
    st: WalkState<T>,
)
    requires
        seen_items(p, st),
    ensures
        seen_items(p, combination_results(p, input, applied, i, results, j, fuel, st)),
        st.seen.subset_of(combination_results(p, input, applied, i, results, j, fuel, st).seen),
        !combination_results(p, input, applied, i, results, j, fuel, st).capped ==> comb_results_keys(
            p,
            input,
            applied,
            i,
            results,
            j,
            fuel,
        ).subset_of(combination_results(p, input, applied, i, results, j, fuel, st).seen),
    decreases fuel, p.rule_count - i, 0nat, results.len() - j,
{
    if j >= results.len() || i >= p.rule_count {
    } else {
        let r = results[j as int];
        let recurse = (p.key)(input) != (p.key)(r) && fuel > 0;
        let st1 = if (p.key)(input) != (p.key)(r) {
            if fuel == 0 {
                st
            } else {
                combination_walk(p, r, mark_applied(applied, i), 0, (fuel - 1) as nat, st)
            }
        } else {
            st
        };
        if recurse {
            lemma_combination_covers_tree(p, r, mark_applied(applied, i), 0, (fuel - 1) as nat, st);
        }
        lemma_add_item_seen_items(p, st1, r);
        let st3 = add_item(st1, (p.key)(r), r);
        lemma_combination_results_cover(p, input, applied, i, results, j + 1, fuel, st3);
        lemma_combination_results_facts(p, input, applied, i, results, j + 1, fuel, st3);
        if recurse && combination_walk(p, r, mark_applied(applied, i), 0, (fuel - 1) as nat, st).capped {
            assert(st3.capped);
        }
    }
}

proof fn lemma_comb_tree_suffix<T>(p: WalkParams<T>, y: T, applied: Option<Seq<bool>>, i: nat, j: nat, fuel: nat)
    requires
        i <= j,
    ensures
        comb_tree_keys(p, y, applied, j, fuel).subset_of(comb_tree_keys(p, y, applied, i, fuel)),
    decreases j - i,
{
    if i < j {
        lemma_comb_tree_suffix(p, y, applied, i + 1, j, fuel);
    }
}

/// No rule at or after `i` is marked applied.
pub open spec fn unmarked_from(applied: Option<Seq<bool>>, i: nat) -> bool {
    forall|j: nat| j >= i ==> !#[trigger] is_applied(applied, j)
}

/// Data of equal keys give every rule the same outputs.
pub open spec fn same_key_same_rules<T>(p: WalkParams<T>) -> bool {
    forall|x: T, y: T, j: usize| (p.key)(x) == (p.key)(y) ==> #[trigger] (p.rules)(j, x) == #[trigger] (p.rules)(j, y)
}

/// Every key of the permutation tree over rules `i..` on `x` is in the combination tree over rules
/// `i..` on a `y` of the same key, with at least as much fuel and no rule from `i` on applied.
proof fn lemma_perm_tree_in_comb<T>(
    p: WalkParams<T>,
    x: T,
    y: T,
    applied: Option<Seq<bool>>,
    i: nat,
    fuel: nat,
    fuel2: nat,
)
    requires
        same_key_same_rules(p),
        (p.key)(x) == (p.key)(y),
        fuel <= fuel2,
        unmarked_from(applied, i),
        p.multi_app ==> applied is None,
        applied matches Some(a) ==> a.len() == p.rule_count,
    ensures
        tree_keys(p, x, i, fuel).subset_of(comb_tree_keys(p, y, applied, i, fuel2)),
    decreases fuel, p.rule_count - i, 1nat, 0nat,
{
    if i < p.rule_count {
        let rs = (p.rules)(i as usize, x);
        assert(rs == (p.rules)(i as usize, y));
        assert(!is_applied(applied, i));
        lemma_results_in_comb(p, x, y, applied, i, rs, 0, fuel, fuel2);
        lemma_perm_tree_in_comb(p, x, y, applied, i + 1, fuel, fuel2);
    }
}

proof fn lemma_results_in_comb<T>(
    p: WalkParams<T>,
    x: T,
    y: T,
    applied: Option<Seq<bool>>,
    i: nat,
    results: Seq<T>,
    j: nat,
    fuel: nat,
    fuel2: nat,
)
    requires
        same_key_same_rules(p),
        (p.key)(x) == (p.key)(y),
        fuel <= fuel2,
        unmarked_from(applied, i),
        p.multi_app ==> applied is None,
        applied matches Some(a) ==> a.len() == p.rule_count,
        i < p.rule_count,
    ensures
        results_keys(p, x, i, results, j, fuel).subset_of(
            comb_results_keys(p, y, applied, i, results, j, fuel2).union(comb_tree_keys(p, y, applied, i + 1, fuel2)),
        ),
    decreases fuel, p.rule_count - i, 0nat, results.len() - j,
{
    if j < results.len() {
        let r = results[j as int];
        let next = if p.multi_app { i } else { i + 1 };
        if (!p.multi_app || (p.key)(x) != (p.key)(r)) && fuel > 0 {
            let marked = mark_applied(applied, i);
            if (p.key)(x) != (p.key)(r) {
                assert forall|k: nat| k >= next implies !#[trigger] is_applied(marked, k) by {
                    assert(!is_applied(applied, k));
                    if let Some(a) = applied {
                        if k < a.len() {
                            assert(a.update(i as int, true)[k as int] == a[k as int]);
                        }
                    }
                }
                lemma_perm_tree_in_comb(p, r, r, marked, next, (fuel - 1) as nat, (fuel2 - 1) as nat);
                lemma_comb_tree_suffix(p, r, marked, 0, next, (fuel2 - 1) as nat);
            } else {
                assert forall|k: nat| k >= i + 1 implies !#[trigger] is_applied(applied, k) by {}
                lemma_perm_tree_in_comb(p, r, y, applied, i + 1, (fuel - 1) as nat, fuel2);
            }
        }
        lemma_results_in_comb(p, x, y, applied, i, results, j + 1, fuel, fuel2);
    }
}

/// The permutation cascade finds nothing the combination cascade misses, when data of equal keys
/// give every rule the same outputs: when the combination run ends without the cap firing, every
/// word the permutation run keeps has a word of the same key among the combination run's words
/// (retrying every rule not yet applied on the path reaches every index-ordered path).
pub proof fn law_permutation_within_combination<T>(p: WalkParams<T>, input: T)
    requires
        same_key_same_rules(p),
        !combination_spec(p, input).capped,
    ensures
        forall|a: int|
            0 <= a < permutation_spec(p, input).items.len() ==> #[trigger] has_key(
                p.key,
                combination_spec(p, input).items,
                (p.key)(permutation_spec(p, input).items[a]),
            ),
{
    let st0 = initial_state::<T>();
    assert(items_seen(p, st0));
    assert(seen_items(p, st0));
    let applied0 = initial_applied(p.multi_app, p.rule_count);
    assert forall|k: nat| k >= 0 implies !#[trigger] is_applied(applied0, k) by {}
    lemma_permutation_within_tree(p, input, 0, p.cap + 1, st0);
    lemma_perm_tree_in_comb(p, input, input, applied0, 0, p.cap + 1, p.cap + 1);
    lemma_combination_covers_tree(p, input, applied0, 0, p.cap + 1, st0);
    let perm = permutation_spec(p, input);
    let comb = combination_spec(p, input);
    assert forall|a: int| 0 <= a < perm.items.len() implies #[trigger] has_key(p.key, comb.items, (p.key)(perm.items[a])) by {
        let k = (p.key)(perm.items[a]);
        assert(perm.seen.contains(k));
        assert(st0.seen.union(tree_keys(p, input, 0, p.cap + 1)).contains(k));
        assert(comb.seen.contains(k));
    }
}

proof fn lemma_combination_facts<T>(
    p: WalkParams<T>,
    input: T,
    applied: Option<Seq<bool>>,
    i: nat,
    fuel: nat,
    st: WalkState<T>,
)
    ensures
        combination_walk(p, input, applied, i, fuel, st).steps >= st.steps,
        st.capped ==> combination_walk(p, input, applied, i, fuel, st).capped,
        st.steps <= p.cap ==> combination_walk(p, input, applied, i, fuel, st).steps <= p.cap,
    decreases fuel, p.rule_count - i, 1nat, 0nat,
{
    if i >= p.rule_count {
    } else if is_applied(applied, i) {
        lemma_combination_facts(p, input, applied, i + 1, fuel, st);
    } else if st.steps >= p.cap {
    } else {
        let results = (p.rules)(i as usize, input);
        lemma_combination_results_facts(p, input, applied, i, results, 0, fuel, count_step(st));
        let st2 = combination_results(p, input, applied, i, results, 0, fuel, count_step(st));
        lemma_combination_facts(p, input, applied, i + 1, fuel, st2);
    }
}

proof fn lemma_combination_results_facts<T>(
    p: WalkParams<T>,
    input: T,
    applied: Option<Seq<bool>>,
    i: nat,
    results: Seq<T>,
    j: nat,
    fuel: nat,
    st: WalkState<T>,
)
    ensures
        combination_results(p, input, applied, i, results, j, fuel, st).steps >= st.steps,
        st.capped ==> combination_results(p, input, applied, i, results, j, fuel, st).capped,
        st.steps <= p.cap ==> combination_results(p, input, applied, i, results, j, fuel, st).steps <= p.cap,
    decreases fuel, p.rule_count - i, 0nat, results.len() - j,
{
    if j >= results.len() || i >= p.rule_count {
    } else {
        let r = results[j as int];
        if (p.key)(input) != (p.key)(r) && fuel > 0 {
            lemma_combination_facts(p, r, mark_applied(applied, i), 0, (fuel - 1) as nat, st);
        }
        let st1 = if (p.key)(input) != (p.key)(r) {
            if fuel == 0 { st } else { combination_walk(p, r, mark_applied(applied, i), 0, (fuel - 1) as nat, st) }
        } else {
            st
        };
        lemma_combination_results_facts(p, input, applied, i, results, j + 1, fuel, add_item(st1, (p.key)(r), r));
    }
}

proof fn lemma_combination_cap<T>(
    p: WalkParams<T>,
    cap2: nat,
    input: T,
    applied: Option<Seq<bool>>,
    i: nat,
    f1: nat,
    f2: nat,
    st: WalkState<T>,
)
    requires
        p.cap <= cap2,
        st.steps <= p.cap,
        f1 + st.steps > p.cap,
        f2 + st.steps > cap2,
        !combination_walk(p, input, applied, i, f1, st).capped,
    ensures
        combination_walk(with_cap(p, cap2), input, applied, i, f2, st) == combination_walk(p, input, applied, i, f1, st),
    decreases f1, p.rule_count - i, 1nat, 0nat,
{
    if i >= p.rule_count {
    } else if is_applied(applied, i) {
        lemma_combination_cap(p, cap2, input, applied, i + 1, f1, f2, st);
    } else if st.steps >= p.cap {
    } else {
        let results = (p.rules)(i as usize, input);
        let st1 = count_step(st);
        let st2 = combination_results(p, input, applied, i, results, 0, f1, st1);
        lemma_combination_facts(p, input, applied, i + 1, f1, st2);
        lemma_combination_results_facts(p, input, applied, i, results, 0, f1, st1);
        lemma_combination_results_cap(p, cap2, input, applied, i, results, 0, f1, f2, st1);
        lemma_combination_cap(p, cap2, input, applied, i + 1, f1, f2, st2);
    }
}

proof fn lemma_combination_results_cap<T>(
    p: WalkParams<T>,
    cap2: nat,
    input: T,
    applied: Option<Seq<bool>>,
    i: nat,
    results: Seq<T>,
    j: nat,
    f1: nat,
    f2: nat,
    st: WalkState<T>,
)
    requires
        p.cap <= cap2,
        st.steps <= p.cap,
        f1 + st.steps > p.cap + 1,
        f2 + st.steps > cap2 + 1,
        !combination_results(p, input, applied, i, results, j, f1, st).capped,
    ensures
        combination_results(with_cap(p, cap2), input, applied, i, results, j, f2, st)
            == combination_results(p, input, applied, i, results, j, f1, st),
    decreases f1, p.rule_count - i, 0nat, results.len() - j,
{
    if j >= results.len() || i >= p.rule_count {
    } else {
        let r = results[j as int];
        let st1 = if (p.key)(input) != (p.key)(r) {
            combination_walk(p, r, mark_applied(applied, i), 0, (f1 - 1) as nat, st)
        } else {
            st
        };
        let st2 = add_item(st1, (p.key)(r), r);
        lemma_combination_results_facts(p, input, applied, i, results, j + 1, f1, st2);
        if (p.key)(input) != (p.key)(r) {
            lemma_combination_facts(p, r, mark_applied(applied, i), 0, (f1 - 1) as nat, st);
            lemma_combination_cap(p, cap2, r, mark_applied(applied, i), 0, (f1 - 1) as nat, (f2 - 1) as nat, st);
        }
        lemma_combination_results_cap(p, cap2, input, applied, i, results, j + 1, f1, f2, st2);
    }
}

/// When a combination run ends without the cap firing, the same run under any larger cap gives the
/// same output and step count.
pub proof fn law_combination_cap_transparent<T>(p: WalkParams<T>, input: T, larger_cap: nat)
    requires
        p.cap <= larger_cap,
        !combination_spec(p, input).capped,
    ensures
        combination_spec(with_cap(p, larger_cap), input) == combination_spec(p, input),
{
    lemma_combination_cap(
        p,
        larger_cap,
        input,
        initial_applied(p.multi_app, p.rule_count),
        0,
        p.cap + 1,
        larger_cap + 1,
        initial_state(),
    );
}

// ---------------------------------------------------------------------------------------------
// Every output word is a rule output.
// ---------------------------------------------------------------------------------------------

/// `x` is reached from `root` by `n` rule applications (of rules below `rule_count`).
pub open spec fn reached<T>(p: WalkParams<T>, root: T, x: T, n: nat) -> bool
    decreases n,
{
    if n == 0 {
        x == root
    } else {
        exists|y: T, i: nat| i < p.rule_count && reached(p, root, y, (n - 1) as nat) && #[trigger] (p.rules)(i as usize, y).contains(x)
    }
}

/// `k` is the key of some output of some rule on a datum reached from `root`.
pub open spec fn produced_key<T>(p: WalkParams<T>, root: T, k: i64) -> bool {
    exists|x: T, n: nat, i: nat, r: T|
        #![trigger reached(p, root, x, n), (p.rules)(i as usize, x).contains(r)]
        i < p.rule_count && reached(p, root, x, n) && (p.rules)(i as usize, x).contains(r) && (p.key)(r) == k
}

/// Every item's key was produced by a rule.
pub open spec fn items_produced<T>(p: WalkParams<T>, root: T, st: WalkState<T>) -> bool {
    forall|a: int| 0 <= a < st.items.len() ==> produced_key(p, root, (p.key)(#[trigger] st.items[a]))
}

/// A result `r` of rule `i` on a datum `x` reached in `n` steps: its key is produced, and `r` is
/// reached in `n + 1`.
proof fn lemma_result_produced<T>(p: WalkParams<T>, root: T, x: T, n: nat, i: nat, results: Seq<T>, j: nat)
    requires
        i < p.rule_count,
        reached(p, root, x, n),
        results == (p.rules)(i as usize, x),
        j < results.len(),
    ensures
        produced_key(p, root, (p.key)(results[j as int])),
        reached(p, root, results[j as int], n + 1),
{
    let r = results[j as int];
    assert((p.rules)(i as usize, x).contains(r));
    assert(reached(p, root, r, n + 1));
}

proof fn lemma_add_produced<T>(p: WalkParams<T>, root: T, st: WalkState<T>, t: T)
    requires
        items_produced(p, root, st),
        produced_key(p, root, (p.key)(t)),
    ensures
        items_produced(p, root, add_item(st, (p.key)(t), t)),
{
    let st2 = add_item(st, (p.key)(t), t);
    assert forall|a: int| 0 <= a < st2.items.len() implies produced_key(p, root, (p.key)(#[trigger] st2.items[a])) by {
        if a < st.items.len() {
            assert(st2.items[a] == st.items[a]);
        }
    }
}

proof fn lemma_combination_produced<T>(
    p: WalkParams<T>,
    root: T,
    n: nat,
    input: T,
    applied: Option<Seq<bool>>,
    i: nat,
    fuel: nat,
    st: WalkState<T>,
)
    requires
        reached(p, root, input, n),
        items_produced(p, root, st),
    ensures
        items_produced(p, root, combination_walk(p, input, applied, i, fuel, st)),
    decreases fuel, p.rule_count - i, 1nat, 0nat,
{
    if i >= p.rule_count {
    } else if is_applied(applied, i) {
        lemma_combination_produced(p, root, n, input, applied, i + 1, fuel, st);
    } else if st.steps >= p.cap {
    } else {
        let results = (p.rules)(i as usize, input);
        lemma_combination_results_produced(p, root, n, input, applied, i, results, 0, fuel, count_step(st));
        let st2 = combination_results(p, input, applied, i, results, 0, fuel, count_step(st));
        lemma_combination_produced(p, root, n, input, applied, i + 1, fuel, st2);
    }
}

proof fn lemma_combination_results_produced<T>(
    p: WalkParams<T>,
    root: T,
    n: nat,
    input: T,
    applied: Option<Seq<bool>>,
    i: nat,
    results: Seq<T>,
    j: nat,
    fuel: nat,
    st: WalkState<T>,
)
    requires
        reached(p, root, input, n),
        items_produced(p, root, st),
        i < p.rule_count ==> results == (p.rules)(i as usize, input),
    ensures
        items_produced(p, root, combination_results(p, input, applied, i, results, j, fuel, st)),
    decreases fuel, p.rule_count - i, 0nat, results.len() - j,
{
    if j >= results.len() || i >= p.rule_count {
    } else {
        let r = results[j as int];
        lemma_result_produced(p, root, input, n, i, results, j);
        let st1 = if (p.key)(input) != (p.key)(r) {
            if fuel == 0 {
                st
            } else {
                combination_walk(p, r, mark_applied(applied, i), 0, (fuel - 1) as nat, st)
            }
        } else {
            st
        };
        if (p.key)(input) != (p.key)(r) && fuel > 0 {
            lemma_combination_produced(p, root, n + 1, r, mark_applied(applied, i), 0, (fuel - 1) as nat, st);
        }
        lemma_add_produced(p, root, st1, r);
        lemma_combination_results_produced(p, root, n, input, applied, i, results, j + 1, fuel, add_item(st1, (p.key)(r), r));
    }
}

proof fn lemma_permutation_produced<T>(p: WalkParams<T>, root: T, n: nat, input: T, i: nat, fuel: nat, st: WalkState<T>)
    requires
        reached(p, root, input, n),
        items_produced(p, root, st),
    ensures
        items_produced(p, root, permutation_walk(p, input, i, fuel, st)),
    decreases fuel, p.rule_count - i, 1nat, 0nat,
{
    if i >= p.rule_count {
    } else if st.steps >= p.cap {
    } else {
        let results = (p.rules)(i as usize, input);
        lemma_permutation_results_produced(p, root, n, input, i, results, 0, fuel, count_step(st));
        let st2 = permutation_results(p, input, i, results, 0, fuel, count_step(st));
        lemma_permutation_produced(p, root, n, input, i + 1, fuel, st2);
    }
}

proof fn lemma_permutation_results_produced<T>(
    p: WalkParams<T>,
    root: T,
    n: nat,
    input: T,
    i: nat,
    results: Seq<T>,
    j: nat,
    fuel: nat,
    st: WalkState<T>,
)
    requires
        reached(p, root, input, n),
        items_produced(p, root, st),
        i < p.rule_count ==> results == (p.rules)(i as usize, input),
    ensures
        items_produced(p, root, permutation_results(p, input, i, results, j, fuel, st)),
    decreases fuel, p.rule_count - i, 0nat, results.len() - j,
{
    if j >= results.len() || i >= p.rule_count {
    } else {
        let r = results[j as int];
        let next = if p.multi_app { i } else { i + 1 };
        lemma_result_produced(p, root, input, n, i, results, j);
        let st1 = if !p.multi_app || (p.key)(input) != (p.key)(r) {
            if fuel == 0 {
                st
            } else {
                permutation_walk(p, r, next, (fuel - 1) as nat, st)
            }
        } else {
            st
        };
        if (!p.multi_app || (p.key)(input) != (p.key)(r)) && fuel > 0 {
            lemma_permutation_produced(p, root, n + 1, r, next, (fuel - 1) as nat, st);
        }
        lemma_add_produced(p, root, st1, r);
        lemma_permutation_results_produced(p, root, n, input, i, results, j + 1, fuel, add_item(st1, (p.key)(r), r));
    }
}

proof fn lemma_linear_produced<T>(p: WalkParams<T>, root: T, n: nat, input: T, i: nat, fuel: nat, st: WalkState<T>)
    requires
        reached(p, root, input, n),
        items_produced(p, root, st),
    ensures
        items_produced(p, root, linear_walk(p, input, i, fuel, st).0),
    decreases fuel, p.rule_count - i, 1nat, 0nat,
{
    if i >= p.rule_count {
    } else if st.steps >= p.cap {
    } else {
        let results = (p.rules)(i as usize, input);
        lemma_linear_results_produced(p, root, n, input, i, results, 0, fuel, count_step(st));
        let st2 = linear_results(p, input, i, results, 0, fuel, count_step(st));
        if results.len() == 0 {
            lemma_linear_produced(p, root, n, input, i + 1, fuel, st2);
        }
    }
}

proof fn lemma_linear_results_produced<T>(
    p: WalkParams<T>,
    root: T,
    n: nat,
    input: T,
    i: nat,
    results: Seq<T>,
    j: nat,
    fuel: nat,
    st: WalkState<T>,
)
    requires
        reached(p, root, input, n),
        items_produced(p, root, st),
        i < p.rule_count ==> results == (p.rules)(i as usize, input),
    ensures
        items_produced(p, root, linear_results(p, input, i, results, j, fuel, st)),
    decreases fuel, p.rule_count - i, 0nat, results.len() - j,
{
    if j >= results.len() || i >= p.rule_count {
    } else {
        let r = results[j as int];
        let next = if p.multi_app { i } else { i + 1 };
        lemma_result_produced(p, root, input, n, i, results, j);
        let st1 = if !p.multi_app || (p.key)(input) != (p.key)(r) {
            if fuel == 0 {
                st
            } else {
                let (s, terminal) = linear_walk(p, r, next, (fuel - 1) as nat, st);
                if terminal { add_item(s, (p.key)(r), r) } else { s }
            }
        } else {
            add_item(st, (p.key)(r), r)
        };
        if !p.multi_app || (p.key)(input) != (p.key)(r) {
            if fuel > 0 {
                lemma_linear_produced(p, root, n + 1, r, next, (fuel - 1) as nat, st);
                let s = linear_walk(p, r, next, (fuel - 1) as nat, st).0;
                lemma_add_produced(p, root, s, r);
            }
        } else {
            lemma_add_produced(p, root, st, r);
        }
        lemma_linear_results_produced(p, root, n, input, i, results, j + 1, fuel, st1);
    }
}

/// When no rule applies to `root`, only `root` itself is reached.
proof fn lemma_nothing_reached<T>(p: WalkParams<T>, root: T, x: T, n: nat)
    requires
        forall|i: nat| i < p.rule_count ==> (#[trigger] (p.rules)(i as usize, root)).len() == 0,
        reached(p, root, x, n),
    ensures
        n == 0 && x == root,
    decreases n,
{
    if n > 0 {
        let (y, i) = choose|y: T, i: nat|
            i < p.rule_count && reached(p, root, y, (n - 1) as nat) && #[trigger] (p.rules)(i as usize, y).contains(x);
        lemma_nothing_reached(p, root, y, (n - 1) as nat);
        assert((p.rules)(i as usize, root).len() == 0);
    }
}

/// No key is produced from a `root` no rule applies to.
proof fn lemma_nothing_produced<T>(p: WalkParams<T>, root: T, k: i64)
    requires
        forall|i: nat| i < p.rule_count ==> (#[trigger] (p.rules)(i as usize, root)).len() == 0,
    ensures
        !produced_key(p, root, k),
{
    if produced_key(p, root, k) {
        let (x, n, i, r) = choose|x: T, n: nat, i: nat, r: T|
            #![trigger reached(p, root, x, n), (p.rules)(i as usize, x).contains(r)]
            i < p.rule_count && reached(p, root, x, n) && (p.rules)(i as usize, x).contains(r) && (p.key)(r) == k;
        lemma_nothing_reached(p, root, x, n);
        assert((p.rules)(i as usize, root).len() == 0);
    }
}

/// Every word a cascade outputs is a rule output: its key is the key of a result of some rule on a
/// datum reached from the input by rule applications; the input itself is never returned for its
/// own sake, so when no rule applies to the input every cascade's output is empty, whatever
/// `multi_app` is.
pub proof fn law_outputs_are_rule_outputs<T>(p: WalkParams<T>, input: T)
    ensures
        forall|a: int|
            0 <= a < linear_spec(p, input).items.len() ==> produced_key(p, input, (p.key)(#[trigger] linear_spec(p, input).items[a])),
        forall|a: int|
            0 <= a < permutation_spec(p, input).items.len() ==> produced_key(
                p,
                input,
                (p.key)(#[trigger] permutation_spec(p, input).items[a]),
            ),
        forall|a: int|
            0 <= a < combination_spec(p, input).items.len() ==> produced_key(
                p,
                input,
                (p.key)(#[trigger] combination_spec(p, input).items[a]),
            ),
        (forall|i: nat| i < p.rule_count ==> (#[trigger] (p.rules)(i as usize, input)).len() == 0) ==> {
            &&& linear_spec(p, input).items.len() == 0
            &&& permutation_spec(p, input).items.len() == 0
            &&& combination_spec(p, input).items.len() == 0
        },
{
    let st0 = initial_state::<T>();
    assert(reached(p, input, input, 0));
    lemma_linear_produced(p, input, 0, input, 0, p.cap + 1, st0);
    lemma_permutation_produced(p, input, 0, input, 0, p.cap + 1, st0);
    lemma_combination_produced(p, input, 0, input, initial_applied(p.multi_app, p.rule_count), 0, p.cap + 1, st0);
    if forall|i: nat| i < p.rule_count ==> (#[trigger] (p.rules)(i as usize, input)).len() == 0 {
        let lin = linear_spec(p, input);
        let perm = permutation_spec(p, input);
        let comb = combination_spec(p, input);
        if lin.items.len() > 0 {
            lemma_nothing_produced(p, input, (p.key)(lin.items[0]));
        }
        if perm.items.len() > 0 {
            lemma_nothing_produced(p, input, (p.key)(perm.items[0]));
        }
        if comb.items.len() > 0 {
            lemma_nothing_produced(p, input, (p.key)(comb.items[0]));
        }
    }
}

// ---------------------------------------------------------------------------------------------
// The linear walk follows every result of the rule that applies.
// ---------------------------------------------------------------------------------------------

proof fn lemma_linear_seen_grows<T>(p: WalkParams<T>, input: T, i: nat, fuel: nat, st: WalkState<T>)
    requires
        seen_items(p, st),
    ensures
        seen_items(p, linear_walk(p, input, i, fuel, st).0),
        st.seen.subset_of(linear_walk(p, input, i, fuel, st).0.seen),
    decreases fuel, p.rule_count - i, 1nat, 0nat,
{
    if i >= p.rule_count {
    } else if st.steps >= p.cap {
        lemma_seen_items_frame(p, st, mark_capped(st));
    } else {
        let results = (p.rules)(i as usize, input);
        lemma_seen_items_frame(p, st, count_step(st));
        lemma_linear_results_seen_grows(p, input, i, results, 0, fuel, count_step(st));
        let st2 = linear_results(p, input, i, results, 0, fuel, count_step(st));
        if results.len() == 0 {
            lemma_linear_seen_grows(p, input, i + 1, fuel, st2);
        }
    }
}

proof fn lemma_linear_results_seen_grows<T>(
    p: WalkParams<T>,
    input: T,
    i: nat,
    results: Seq<T>,
    j: nat,
    fuel: nat,
    st: WalkState<T>,
)
    requires
        seen_items(p, st),
    ensures
        seen_items(p, linear_results(p, input, i, results, j, fuel, st)),
        st.seen.subset_of(linear_results(p, input, i, results, j, fuel, st).seen),
    decreases fuel, p.rule_count - i, 0nat, results.len() - j,
{
    if j >= results.len() || i >= p.rule_count {
    } else {
        let r = results[j as int];
        let next = if p.multi_app { i } else { i + 1 };
        let st1 = if !p.multi_app || (p.key)(input) != (p.key)(r) {
            if fuel == 0 {
                st
            } else {
                let (s, terminal) = linear_walk(p, r, next, (fuel - 1) as nat, st);
                if terminal { add_item(s, (p.key)(r), r) } else { s }
            }
        } else {
            add_item(st, (p.key)(r), r)
        };
        if !p.multi_app || (p.key)(input) != (p.key)(r) {
            if fuel > 0 {
                lemma_linear_seen_grows(p, r, next, (fuel - 1) as nat, st);
                let s = linear_walk(p, r, next, (fuel - 1) as nat, st).0;
                lemma_add_item_seen_items(p, s, r);
            }
        } else {
            lemma_add_item_seen_items(p, st, r);
        }
        lemma_linear_results_seen_grows(p, input, i, results, j + 1, fuel, st1);
    }
}

/// A walk over rules none of which applies ends as a terminal derivation unless it caps.
proof fn lemma_linear_terminal<T>(p: WalkParams<T>, x: T, a: nat, fuel: nat, st: WalkState<T>)
    requires
        forall|j: nat| a <= j < p.rule_count ==> (#[trigger] (p.rules)(j as usize, x)).len() == 0,
    ensures
        !linear_walk(p, x, a, fuel, st).0.capped ==> linear_walk(p, x, a, fuel, st).1,
    decreases p.rule_count - a,
{
    if a < p.rule_count && st.steps < p.cap {
        assert((p.rules)(a as usize, x).len() == 0);
        assert(linear_results(p, x, a, (p.rules)(a as usize, x), 0, fuel, count_step(st)) == count_step(st));
        lemma_linear_terminal(p, x, a + 1, fuel, count_step(st));
    }
}

/// Among the results `j..` of rule `i` on `x`, the result at `j0`, with no rule from `next` on
/// applying to it, gets its key seen, unless the walk caps.
proof fn lemma_linear_results_keep<T>(
    p: WalkParams<T>,
    x: T,
    i: nat,
    results: Seq<T>,
    j: nat,
    j0: nat,
    fuel: nat,
    st: WalkState<T>,
)
    requires
        i < p.rule_count,
        j <= j0 < results.len(),
        fuel > 0,
        seen_items(p, st),
        forall|k: nat|
            (if p.multi_app { i } else { i + 1 }) <= k < p.rule_count ==> (#[trigger] (p.rules)(k as usize, results[j0 as int])).len()
                == 0,
        !linear_results(p, x, i, results, j, fuel, st).capped,
    ensures
        linear_results(p, x, i, results, j, fuel, st).seen.contains((p.key)(results[j0 as int])),
    decreases results.len() - j,
{
    let r = results[j as int];
    let next = if p.multi_app { i } else { i + 1 };
    let st1 = if !p.multi_app || (p.key)(x) != (p.key)(r) {
        let (s, terminal) = linear_walk(p, r, next, (fuel - 1) as nat, st);
        if terminal { add_item(s, (p.key)(r), r) } else { s }
    } else {
        add_item(st, (p.key)(r), r)
    };
    assert(linear_results(p, x, i, results, j, fuel, st) == linear_results(p, x, i, results, j + 1, fuel, st1));
    lemma_linear_results_facts(p, x, i, results, j + 1, fuel, st1);
    if !p.multi_app || (p.key)(x) != (p.key)(r) {
        lemma_linear_seen_grows(p, r, next, (fuel - 1) as nat, st);
        let s = linear_walk(p, r, next, (fuel - 1) as nat, st).0;
        lemma_add_item_seen_items(p, s, r);
        if j == j0 {
            lemma_linear_terminal(p, r, next, (fuel - 1) as nat, st);
        }
    } else {
        lemma_add_item_seen_items(p, st, r);
    }
    if j == j0 {
        lemma_linear_results_seen_grows(p, x, i, results, j + 1, fuel, st1);
    } else {
        lemma_linear_results_keep(p, x, i, results, j + 1, j0, fuel, st1);
    }
}

proof fn lemma_linear_first<T>(p: WalkParams<T>, x: T, a: nat, i: nat, fuel: nat, st: WalkState<T>, j0: nat)
    requires
        a <= i < p.rule_count,
        fuel > 0,
        seen_items(p, st),
        forall|k: nat| a <= k < i ==> (#[trigger] (p.rules)(k as usize, x)).len() == 0,
        j0 < (p.rules)(i as usize, x).len(),
        forall|k: nat|
            (if p.multi_app { i } else { i + 1 }) <= k < p.rule_count ==> (#[trigger] (p.rules)(
                k as usize,
                (p.rules)(i as usize, x)[j0 as int],
            )).len() == 0,
        !linear_walk(p, x, a, fuel, st).0.capped,
    ensures
        linear_walk(p, x, a, fuel, st).0.seen.contains((p.key)((p.rules)(i as usize, x)[j0 as int])),
    decreases i - a,
{
    let results = (p.rules)(a as usize, x);
    let st2 = linear_results(p, x, a, results, 0, fuel, count_step(st));
    lemma_seen_items_frame(p, st, count_step(st));
    if a < i {
        assert(results.len() == 0);
        lemma_linear_first(p, x, a + 1, i, fuel, st2, j0);
    } else {
        lemma_linear_results_keep(p, x, i, results, 0, j0, fuel, count_step(st));
    }
}

/// The linear cascade follows every result of the first rule that applies to the input, not just
/// one: each result to which no rule from the next index on applies is a terminal derivation, and
/// its key is among the words the run keeps (when the cap does not fire).
pub proof fn law_linear_keeps_every_terminal_result<T>(p: WalkParams<T>, input: T, i: nat, r: T)
    requires
        !linear_spec(p, input).capped,
        i < p.rule_count,
        forall|k: nat| k < i ==> (#[trigger] (p.rules)(k as usize, input)).len() == 0,
        (p.rules)(i as usize, input).contains(r),
        forall|k: nat| (if p.multi_app { i } else { i + 1 }) <= k < p.rule_count ==> (#[trigger] (p.rules)(k as usize, r)).len() == 0,
    ensures
        has_key(p.key, linear_spec(p, input).items, (p.key)(r)),
{
    let st0 = initial_state::<T>();
    assert(seen_items(p, st0));
    let rs = (p.rules)(i as usize, input);
    let j0 = choose|j: int| 0 <= j < rs.len() && #[trigger] rs[j] == r;
    lemma_linear_first(p, input, 0, i, p.cap + 1, st0, j0 as nat);
    lemma_linear_seen_grows(p, input, 0, p.cap + 1, st0);
    assert(linear_spec(p, input).seen.contains((p.key)(r)));
}

/// The dedup accumulator threaded through a walk: keys seen (with the position of the item they
/// admitted), items in first-seen order, applications so far, and whether the cap fired.
struct Acc<T> {
    seen: FxHashMap<i64, usize>,
    items: Vec<T>,
    steps: usize,
    capped: bool,
}

impl<T> Acc<T> {
    spec fn view(&self) -> WalkState<T> {
        WalkState {
            items: self.items@,
            seen: self.seen@.dom(),
            steps: self.steps as nat,
            capped: self.capped,
        }
    }

    fn new() -> (acc: Self)
        ensures
            acc.view() == initial_state::<T>(),
            forall|key: spec_fn(T) -> i64| keys_consistent(key, #[trigger] acc.view()),
    {
        let acc = Acc { seen: fx_new(), items: Vec::new(), steps: 0, capped: false };
        assert(acc.view().seen =~= Set::<i64>::empty());
        acc
    }

    /// Insert `item` under `key` iff no item with an equal key is present.
    fn add(&mut self, key: i64, item: T)
        ensures
            final(self).view() == add_item(old(self).view(), key, item),
            forall|keyf: spec_fn(T) -> i64|
                keys_consistent(keyf, old(self).view()) && keyf(item) == key
                    ==> #[trigger] keys_consistent(keyf, final(self).view()),
    {
        if !fx_contains_i64(&self.seen, key) {
            let n = self.items.len();
            fx_insert_i64(&mut self.seen, key, n);
            self.items.push(item);
            assert forall|keyf: spec_fn(T) -> i64|
                keys_consistent(keyf, old(self).view()) && keyf(item) == key
                    implies #[trigger] keys_consistent(keyf, self.view()) by {
                let st = self.view();
                let o = old(self).view();
                assert(st.items == o.items.push(item));
                assert forall|k: i64| st.seen.contains(k) implies exists|a: int|
                    0 <= a < st.items.len() && keyf(st.items[a]) == k by {
                    if k == key {
                        assert(keyf(st.items[o.items.len() as int]) == k);
                    } else {
                        assert(o.seen.contains(k));
                        let a = choose|a: int| 0 <= a < o.items.len() && keyf(o.items[a]) == k;
                        assert(keyf(st.items[a]) == k);
                    }
                }
                assert forall|k: i64| (exists|a: int| 0 <= a < st.items.len() && keyf(st.items[a]) == k)
                    implies st.seen.contains(k) by {
                    let a = choose|a: int| 0 <= a < st.items.len() && keyf(st.items[a]) == k;
                    if a < o.items.len() {
                        assert(o.items[a] == st.items[a]);
                        assert(o.seen.contains(k));
                    } else {
                        assert(st.items[a] == item);
                    }
                    assert(st.seen == o.seen.insert(key));
                }
                assert forall|a: int, b: int| 0 <= a < b < st.items.len()
                    implies keyf(st.items[a]) != keyf(st.items[b]) by {
                    if b == o.items.len() {
                        assert(o.items[a] == st.items[a]);
                        if keyf(st.items[a]) == keyf(st.items[b]) {
                            assert(o.seen.contains(key));
                        }
                    } else {
                        assert(o.items[a] == st.items[a]);
                        assert(o.items[b] == st.items[b]);
                    }
                }
            }
        }
    }
}

impl Cascade {
    pub fn new(multi_app: bool, cap: usize) -> (c: Self)
        ensures
            c.multi_app == multi_app,
            c.cap == cap,
    {
        Cascade { multi_app, cap }
    }

    /// The linear cascade: rules in index order, only terminal derivations kept.
    pub fn linear<T, A, F>(&self, rule_count: usize, input: T, apply_rule: &A, key: &F) -> (out: CascadeOutput<T>)
        where
            A: Fn(usize, &T) -> Vec<T>,
            F: Fn(&T) -> i64,
        requires
            rule_fn_ok(*apply_rule, rule_count),
            key_fn_ok(*key),
        ensures
            out.words@ == linear_spec(params_of(*self, rule_count, *apply_rule, *key), input).items,
            out.capped == linear_spec(params_of(*self, rule_count, *apply_rule, *key), input).capped,
            forall|a: int, b: int|
                0 <= a < b < out.words@.len() ==> key_value(*key, out.words@[a]) != key_value(*key, out.words@[b]),
    {
        let mut acc = Acc::new();
        assert(keys_consistent(keys_of(*key), acc.view()));
        let _ = self.linear_rec(rule_count, &input, 0, apply_rule, key, &mut acc, Ghost((self.cap + 1) as nat));
        assert(keys_consistent(keys_of(*key), acc.view()));
        assert forall|a: int, b: int| 0 <= a < b < acc.items@.len()
            implies key_value(*key, acc.items@[a]) != key_value(*key, acc.items@[b]) by {
            let st = acc.view();
            assert(st.items == acc.items@);
            assert(0 <= a < b < st.items.len());
            assert(keys_of(*key)(st.items[a]) != keys_of(*key)(st.items[b]));
        }
        CascadeOutput { words: acc.items, capped: acc.capped }
    }

    #[verifier::loop_isolation(false)]
    fn linear_rec<T, A, F>(
        &self,
        rule_count: usize,
        input: &T,
        rule_index: usize,
        apply_rule: &A,
        key: &F,
        acc: &mut Acc<T>,
        Ghost(fuel): Ghost<nat>,
    ) -> (terminal: bool)
        where
            A: Fn(usize, &T) -> Vec<T>,
            F: Fn(&T) -> i64,
        requires
            rule_fn_ok(*apply_rule, rule_count),
            key_fn_ok(*key),
            rule_index <= rule_count,
            old(acc).steps <= self.cap,
            fuel + old(acc).steps > self.cap,
            keys_consistent(keys_of(*key), old(acc).view()),
        ensures
            keys_consistent(keys_of(*key), final(acc).view()),
            (final(acc).view(), terminal) == linear_walk(
                params_of(*self, rule_count, *apply_rule, *key),
                *input,
                rule_index as nat,
                fuel,
                old(acc).view(),
            ),
            old(acc).steps <= final(acc).steps <= self.cap,
        decreases fuel,
    {
        let ghost p = params_of(*self, rule_count, *apply_rule, *key);
        let ghost entry = acc.view();
        let mut i = rule_index;
        while i < rule_count
            invariant
                rule_index <= i <= rule_count,
                entry.steps <= acc.steps <= self.cap,
                keys_consistent(keys_of(*key), acc.view()),
                linear_walk(p, *input, rule_index as nat, fuel, entry) == linear_walk(p, *input, i as nat, fuel, acc.view()),
            decreases rule_count - i,
        {
            let ghost before = acc.view();
            if acc.steps >= self.cap {
                acc.capped = true;
                proof { lemma_keys_frame(keys_of(*key), before, acc.view()); }
                return false;
            }
            acc.steps = acc.steps + 1;
            proof { lemma_keys_frame(keys_of(*key), before, acc.view()); }
            let results = apply_rule(i, input);
            let ghost rs = results@;
            let ghost st1 = acc.view();
            let ghost step_floor = acc.steps;
            assert(rs == (p.rules)(i, *input));
            let applied = results.len() > 0;
            for result in it: results.into_iter()
                invariant
                    it.seq() == rs,
                    step_floor <= acc.steps <= self.cap,
                    keys_consistent(keys_of(*key), acc.view()),
                    linear_results(p, *input, i as nat, rs, 0, fuel, st1)
                        == linear_results(p, *input, i as nat, rs, it.index() as nat, fuel, acc.view()),
            {
                let ghost j = it.index();
                assert(result == rs[j as int]);
                let k_in = key(input);
                let k_r = key(&result);
                if !self.multi_app || k_in != k_r {
                    let next = if self.multi_app { i } else { i + 1 };
                    let terminal = self.linear_rec(rule_count, &result, next, apply_rule, key, acc, Ghost((fuel - 1) as nat));
                    if terminal {
                        acc.add(k_r, result);
                    }
                } else {
                    acc.add(k_r, result);
                }
            }
            if applied {
                return false;
            }
            i = i + 1;
        }
        true
    }

    /// The permutation cascade: index-ordered rule subsets, every intermediate result kept.
    pub fn permutation<T, A, F>(&self, rule_count: usize, input: T, apply_rule: &A, key: &F) -> (out: CascadeOutput<T>)
        where
            A: Fn(usize, &T) -> Vec<T>,
            F: Fn(&T) -> i64,
        requires
            rule_fn_ok(*apply_rule, rule_count),
            key_fn_ok(*key),
        ensures
            out.words@ == permutation_spec(params_of(*self, rule_count, *apply_rule, *key), input).items,
            out.capped == permutation_spec(params_of(*self, rule_count, *apply_rule, *key), input).capped,
            forall|a: int, b: int|
                0 <= a < b < out.words@.len() ==> key_value(*key, out.words@[a]) != key_value(*key, out.words@[b]),
    {
        let mut acc = Acc::new();
        assert(keys_consistent(keys_of(*key), acc.view()));
        self.permutation_rec(rule_count, &input, 0, apply_rule, key, &mut acc, Ghost((self.cap + 1) as nat));
        assert(keys_consistent(keys_of(*key), acc.view()));
        assert forall|a: int, b: int| 0 <= a < b < acc.items@.len()
            implies key_value(*key, acc.items@[a]) != key_value(*key, acc.items@[b]) by {
            let st = acc.view();
            assert(st.items == acc.items@);
            assert(0 <= a < b < st.items.len());
            assert(keys_of(*key)(st.items[a]) != keys_of(*key)(st.items[b]));
        }
        CascadeOutput { words: acc.items, capped: acc.capped }
    }

    #[verifier::loop_isolation(false)]
    fn permutation_rec<T, A, F>(
        &self,
        rule_count: usize,
        input: &T,
        rule_index: usize,
        apply_rule: &A,
        key: &F,
        acc: &mut Acc<T>,
        Ghost(fuel): Ghost<nat>,
    )
        where
            A: Fn(usize, &T) -> Vec<T>,
            F: Fn(&T) -> i64,
        requires
            rule_fn_ok(*apply_rule, rule_count),
            key_fn_ok(*key),
            rule_index <= rule_count,
            old(acc).steps <= self.cap,
            fuel + old(acc).steps > self.cap,
            keys_consistent(keys_of(*key), old(acc).view()),
        ensures
            keys_consistent(keys_of(*key), final(acc).view()),
            final(acc).view() == permutation_walk(
                params_of(*self, rule_count, *apply_rule, *key),
                *input,
                rule_index as nat,
                fuel,
                old(acc).view(),
            ),
            old(acc).steps <= final(acc).steps <= self.cap,
        decreases fuel,
    {
        let ghost p = params_of(*self, rule_count, *apply_rule, *key);
        let ghost entry = acc.view();
        let mut i = rule_index;
        while i < rule_count
            invariant
                rule_index <= i <= rule_count,
                entry.steps <= acc.steps <= self.cap,
                keys_consistent(keys_of(*key), acc.view()),
                permutation_walk(p, *input, rule_index as nat, fuel, entry)
                    == permutation_walk(p, *input, i as nat, fuel, acc.view()),
            decreases rule_count - i,
        {
            let ghost before = acc.view();
            if acc.steps >= self.cap {
                acc.capped = true;
                proof { lemma_keys_frame(keys_of(*key), before, acc.view()); }
                return;
            }
            acc.steps = acc.steps + 1;
            proof { lemma_keys_frame(keys_of(*key), before, acc.view()); }
            let results = apply_rule(i, input);
            let ghost rs = results@;
            let ghost st1 = acc.view();
            let ghost step_floor = acc.steps;
            assert(rs == (p.rules)(i, *input));
            for result in it: results.into_iter()
                invariant
                    it.seq() == rs,
                    step_floor <= acc.steps <= self.cap,
                    keys_consistent(keys_of(*key), acc.view()),
                    permutation_results(p, *input, i as nat, rs, 0, fuel, st1)
                        == permutation_results(p, *input, i as nat, rs, it.index() as nat, fuel, acc.view()),
            {
                let ghost j = it.index();
                assert(result == rs[j as int]);
                let k_in = key(input);
                let k_r = key(&result);
                if !self.multi_app || k_in != k_r {
                    let next = if self.multi_app { i } else { i + 1 };
                    self.permutation_rec(rule_count, &result, next, apply_rule, key, acc, Ghost((fuel - 1) as nat));
                }
                acc.add(k_r, result);
            }
            i = i + 1;
        }
    }

    /// The combination cascade: every ordering of every rule subset, each rule at most once per
    /// path unless rules may apply multiple times.
    pub fn combination<T, A, F>(&self, rule_count: usize, input: T, apply_rule: &A, key: &F) -> (out: CascadeOutput<T>)
        where
            A: Fn(usize, &T) -> Vec<T>,
            F: Fn(&T) -> i64,
        requires
            rule_fn_ok(*apply_rule, rule_count),
            key_fn_ok(*key),
        ensures
            out.words@ == combination_spec(params_of(*self, rule_count, *apply_rule, *key), input).items,
            out.capped == combination_spec(params_of(*self, rule_count, *apply_rule, *key), input).capped,
            forall|a: int, b: int|
                0 <= a < b < out.words@.len() ==> key_value(*key, out.words@[a]) != key_value(*key, out.words@[b]),
    {
        let applied: Option<Vec<bool>> = if self.multi_app {
            None
        } else {
            let mut v: Vec<bool> = Vec::new();
            let mut k: usize = 0;
            while k < rule_count
                invariant
                    k <= rule_count,
                    v@ == Seq::new(k as nat, |m: int| false),
                decreases rule_count - k,
            {
                v.push(false);
                k = k + 1;
                assert(v@ =~= Seq::new(k as nat, |m: int| false));
            }
            Some(v)
        };
        assert(applied_view(applied) == initial_applied(self.multi_app, rule_count as nat));
        let mut acc = Acc::new();
        assert(keys_consistent(keys_of(*key), acc.view()));
        self.combination_rec(rule_count, &input, applied, apply_rule, key, &mut acc, Ghost((self.cap + 1) as nat));
        assert(keys_consistent(keys_of(*key), acc.view()));
        assert forall|a: int, b: int| 0 <= a < b < acc.items@.len()
            implies key_value(*key, acc.items@[a]) != key_value(*key, acc.items@[b]) by {
            let st = acc.view();
            assert(st.items == acc.items@);
            assert(0 <= a < b < st.items.len());
            assert(keys_of(*key)(st.items[a]) != keys_of(*key)(st.items[b]));
        }
        CascadeOutput { words: acc.items, capped: acc.capped }
    }

    #[verifier::loop_isolation(false)]
    fn combination_rec<T, A, F>(
        &self,
        rule_count: usize,
        input: &T,
        applied: Option<Vec<bool>>,
        apply_rule: &A,
        key: &F,
        acc: &mut Acc<T>,
        Ghost(fuel): Ghost<nat>,
    )
        where
            A: Fn(usize, &T) -> Vec<T>,
            F: Fn(&T) -> i64,
        requires
            rule_fn_ok(*apply_rule, rule_count),
            key_fn_ok(*key),
            applied matches Some(a) ==> a@.len() == rule_count,
            old(acc).steps <= self.cap,
            fuel + old(acc).steps > self.cap,
            keys_consistent(keys_of(*key), old(acc).view()),
        ensures
            keys_consistent(keys_of(*key), final(acc).view()),
            final(acc).view() == combination_walk(
                params_of(*self, rule_count, *apply_rule, *key),
                *input,
                applied_view(applied),
                0,
                fuel,
                old(acc).view(),
            ),
            old(acc).steps <= final(acc).steps <= self.cap,
        decreases fuel,
    {
        let ghost p = params_of(*self, rule_count, *apply_rule, *key);
        let ghost entry = acc.view();
        let ghost av = applied_view(applied);
        let mut i: usize = 0;
        while i < rule_count
            invariant
                i <= rule_count,
                entry.steps <= acc.steps <= self.cap,
                keys_consistent(keys_of(*key), acc.view()),
                combination_walk(p, *input, av, 0, fuel, entry)
                    == combination_walk(p, *input, av, i as nat, fuel, acc.view()),
            decreases rule_count - i,
        {
            let blocked = match &applied {
                Some(a) => a[i],
                None => false,
            };
            assert(blocked == is_applied(av, i as nat));
            if !blocked {
                let ghost before = acc.view();
                if acc.steps >= self.cap {
                    acc.capped = true;
                    proof { lemma_keys_frame(keys_of(*key), before, acc.view()); }
                    return;
                }
                acc.steps = acc.steps + 1;
            proof { lemma_keys_frame(keys_of(*key), before, acc.view()); }
                let results = apply_rule(i, input);
                let ghost rs = results@;
                let ghost st1 = acc.view();
                let ghost step_floor = acc.steps;
                assert(rs == (p.rules)(i, *input));
                for result in it: results.into_iter()
                    invariant
                        it.seq() == rs,
                        step_floor <= acc.steps <= self.cap,
                        keys_consistent(keys_of(*key), acc.view()),
                    keys_consistent(keys_of(*key), acc.view()),
                        combination_results(p, *input, av, i as nat, rs, 0, fuel, st1)
                            == combination_results(p, *input, av, i as nat, rs, it.index() as nat, fuel, acc.view()),
                {
                    let ghost j = it.index();
                    assert(result == rs[j as int]);
                    let k_in = key(input);
                    let k_r = key(&result);
                    if k_in != k_r {
                        let next: Option<Vec<bool>> = match &applied {
                            Some(a) => {
                                let mut a2 = copy_flags(a);
                                a2.set(i, true);
                                Some(a2)
                            },
                            None => None,
                        };
                        assert(applied_view(next) == mark_applied(av, i as nat));
                        self.combination_rec(rule_count, &result, next, apply_rule, key, acc, Ghost((fuel - 1) as nat));
                    }
                    acc.add(k_r, result);
                }
            }
            i = i + 1;
        }
    }
}

/// The abstract applied set of an executable one.
pub open spec fn applied_view(applied: Option<Vec<bool>>) -> Option<Seq<bool>> {
    match applied {
        Some(a) => Some(a@),
        None => None,
    }
}

/// A copy of a flag vector.
fn copy_flags(a: &Vec<bool>) -> (b: Vec<bool>)
    ensures
        b@ == a@,
{
    let mut b: Vec<bool> = Vec::new();
    let mut k: usize = 0;
    while k < a.len()
        invariant
            k <= a.len(),
            b@ == a@.subrange(0, k as int),
        decreases a.len() - k,
    {
        b.push(a[k]);
        k = k + 1;
        assert(b@ =~= a@.subrange(0, k as int));
    }
    assert(b@ =~= a@);
    b
}

} // verus!
