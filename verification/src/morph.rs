//! Candidate bookkeeping of the morphological rules that does not depend on what a candidate is:
//! the keep-the-longer dedup insertion shared by the dedup passes, and the dedup-cost profile.
use vstd::prelude::*;

use rustc_hash::FxHashMap;

use crate::fxmap::{fx_insert_usize_bool, fx_new};
use crate::stats::{apply_delta, delta_fits, mrule_key, Counters, Delta, MRuleStatsCtx, ObjectKind, RowKey, StatsCollector};

pub mod attribution;
pub mod dedup_profile;

pub use self::attribution::{attribute_morphs, owning_morph, MorphRecord, MorphStatus, Origin};

verus! {

/// The row of allomorph `allomorph` of the rule `ctx` attributes to.
pub open spec fn allomorph_key(ctx: MRuleStatsCtx, allomorph: u32) -> RowKey {
    RowKey { kind: ObjectKind::MorphRule, stratum: ctx.stratum, object_index: ctx.id.0, allomorph, direction: ctx.direction }
}

/// `after` is `before` with its table replaced by `t`, nothing else changed.
pub open spec fn with_table(before: StatsCollector, after: StatsCollector, t: Map<RowKey, Counters>) -> bool {
    &&& after.wf()
    &&& after.num_strata() == before.num_strata()
    &&& after.num_mrules() == before.num_mrules()
    &&& after.num_prules() == before.num_prules()
    &&& after.open_regions() == before.open_regions()
    &&& after.open_nested() == before.open_nested()
    &&& after.table() == t
}

/// The table after reaching allomorph `index` (0-based) of the rule `ctx` with `reached` allomorphs
/// reached before: the rule's own `attempts` ticks on the first one reached, and the allomorph's row
/// (index shifted by one, clear of the no-allomorph row) gets the try's work and outputs.
pub open spec fn reach_table(
    s: StatsCollector,
    ctx: MRuleStatsCtx,
    index: u32,
    segments: u64,
    outputs: u64,
    reached: u32,
) -> Map<RowKey, Counters> {
    let mk = mrule_key(ctx.stratum, ctx.id, ctx.direction);
    let ak = allomorph_key(ctx, (index + 1) as u32);
    let t1 = if reached == 0 { s.table().insert(mk, apply_delta(s.row(mk), Delta::Attempt)) } else { s.table() };
    t1.insert(ak, apply_delta(s.row(ak), Delta::AllomorphTry(segments, outputs)))
}

/// The table after attributing a whole invocation to the rule's no-allomorph row: one attempt with
/// its work, and an empty outcome.
pub open spec fn residual_table(s: StatsCollector, ctx: MRuleStatsCtx, segments: u64) -> Map<RowKey, Counters> {
    let mk = mrule_key(ctx.stratum, ctx.id, ctx.direction);
    s.table().insert(mk, apply_delta(apply_delta(s.row(mk), Delta::AttemptWork(segments)), Delta::Outcome(0)))
}

/// Tick the rule's own `attempts` once, on the invocation's first reached allomorph or subrule
/// (`index`, 0-based), and always record that allomorph's own work and outputs on its row.
pub fn record_mrule_reach(
    mstats: Option<MRuleStatsCtx>,
    stats: &mut StatsCollector,
    index: u32,
    segments: u64,
    outputs: u64,
    reached: &mut u32,
)
    requires
        old(stats).wf(),
        mstats matches Some(ctx) ==> {
            &&& index < u32::MAX
            &&& *old(reached) < u32::MAX
            &&& old(stats).dense_in_range(mrule_key(ctx.stratum, ctx.id, ctx.direction))
            &&& *old(reached) == 0 ==> delta_fits(old(stats).row(mrule_key(ctx.stratum, ctx.id, ctx.direction)), Delta::Attempt)
            &&& delta_fits(old(stats).row(allomorph_key(ctx, (index + 1) as u32)), Delta::AllomorphTry(segments, outputs))
        },
    ensures
        mstats is None ==> *final(stats) == *old(stats) && *final(reached) == *old(reached),
        mstats matches Some(ctx) ==> *final(reached) == *old(reached) + 1 && with_table(
            *old(stats),
            *final(stats),
            reach_table(*old(stats), ctx, index, segments, outputs, *old(reached)),
        ),
{
    let ctx = match mstats {
        Some(ctx) => ctx,
        None => return,
    };
    let allomorph = index + 1;
    let ghost s0 = *stats;
    let ghost mk = mrule_key(ctx.stratum, ctx.id, ctx.direction);
    let ghost ak = allomorph_key(ctx, allomorph);
    if *reached == 0 {
        stats.record_mrule_reach_attempt(ctx.stratum, ctx.id, ctx.direction);
    }
    *reached = *reached + 1;
    assert(stats.row(ak) == s0.row(ak)) by {
        assert(stats.table()[ak] == s0.table()[ak]);
    }
    stats.record_mrule_allomorph_try(ctx.stratum, ctx.id, allomorph, ctx.direction, segments, outputs);
}

/// Attribute a whole rule invocation (gated before the allomorph loop, or with no allomorph
/// reached) to the rule's no-allomorph row.
pub fn record_mrule_none_residual(mstats: Option<MRuleStatsCtx>, stats: &mut StatsCollector, segments: u64)
    requires
        old(stats).wf(),
        mstats matches Some(ctx) ==> {
            &&& old(stats).dense_in_range(mrule_key(ctx.stratum, ctx.id, ctx.direction))
            &&& delta_fits(old(stats).row(mrule_key(ctx.stratum, ctx.id, ctx.direction)), Delta::AttemptWork(segments))
            &&& delta_fits(
                apply_delta(old(stats).row(mrule_key(ctx.stratum, ctx.id, ctx.direction)), Delta::AttemptWork(segments)),
                Delta::Outcome(0),
            )
        },
    ensures
        mstats is None ==> *final(stats) == *old(stats),
        mstats matches Some(ctx) ==> with_table(*old(stats), *final(stats), residual_table(*old(stats), ctx, segments)),
{
    let ctx = match mstats {
        Some(ctx) => ctx,
        None => return,
    };
    let ghost s0 = *stats;
    let ghost mk = mrule_key(ctx.stratum, ctx.id, ctx.direction);
    stats.record_mrule_attempt(ctx.stratum, ctx.id, ctx.direction, segments);
    assert(stats.row(mk) == apply_delta(s0.row(mk), Delta::AttemptWork(segments))) by {
        assert(stats.table()[mk] == apply_delta(s0.row(mk), Delta::AttemptWork(segments)));
    }
    let ghost s1 = *stats;
    stats.record_mrule_outcome(ctx.stratum, ctx.id, ctx.direction, 0);
    assert(stats.table() =~= residual_table(s0, ctx, segments)) by {
        assert(stats.table() == s1.table().insert(mk, apply_delta(s1.row(mk), Delta::Outcome(0))));
        assert(s1.table() == s0.table().insert(mk, apply_delta(s0.row(mk), Delta::AttemptWork(segments))));
    }
}

/// After the allomorph loop: with nothing reached, the whole invocation goes to the no-allomorph
/// row; reached but with no output, the rule row ticks one `not_applied`; otherwise nothing.
pub fn record_mrule_invocation_end(
    mstats: Option<MRuleStatsCtx>,
    stats: &mut StatsCollector,
    reached: u32,
    total_outputs: u64,
    segments: u64,
)
    requires
        old(stats).wf(),
        mstats matches Some(ctx) ==> {
            &&& old(stats).dense_in_range(mrule_key(ctx.stratum, ctx.id, ctx.direction))
            &&& reached == 0 ==> delta_fits(old(stats).row(mrule_key(ctx.stratum, ctx.id, ctx.direction)), Delta::AttemptWork(segments))
                && delta_fits(
                apply_delta(old(stats).row(mrule_key(ctx.stratum, ctx.id, ctx.direction)), Delta::AttemptWork(segments)),
                Delta::Outcome(0),
            )
            &&& reached != 0 && total_outputs == 0 ==> delta_fits(
                old(stats).row(mrule_key(ctx.stratum, ctx.id, ctx.direction)),
                Delta::NotApplied,
            )
        },
    ensures
        mstats is None ==> *final(stats) == *old(stats),
        mstats matches Some(ctx) ==> (reached == 0 ==> with_table(*old(stats), *final(stats), residual_table(*old(stats), ctx, segments))),
        mstats matches Some(ctx) ==> (reached != 0 && total_outputs == 0 ==> with_table(
            *old(stats),
            *final(stats),
            old(stats).table().insert(
                mrule_key(ctx.stratum, ctx.id, ctx.direction),
                apply_delta(old(stats).row(mrule_key(ctx.stratum, ctx.id, ctx.direction)), Delta::NotApplied),
            ),
        )),
        mstats is Some && reached != 0 && total_outputs != 0 ==> *final(stats) == *old(stats),
{
    let ctx = match mstats {
        Some(ctx) => ctx,
        None => return,
    };
    if reached == 0 {
        record_mrule_none_residual(Some(ctx), stats, segments);
    } else if total_outputs == 0 {
        stats.record_mrule_invocation_not_applied(ctx.stratum, ctx.id, ctx.direction);
    }
}

/// What `dup` answers for `(a, b)`.
pub open spec fn dup_value<T, D: Fn(&T, &T) -> bool>(dup: D, a: T, b: T) -> bool {
    choose|r: bool| call_ensures(dup, (&a, &b), r)
}

/// What `len` answers for `a`.
pub open spec fn len_value<T, L: Fn(&T) -> usize>(len: L, a: T) -> usize {
    choose|n: usize| call_ensures(len, (&a,), n)
}

/// `dup` may be called on any pair and always gives the same answer for the same pair.
pub open spec fn dup_fn_ok<T, D: Fn(&T, &T) -> bool>(dup: D) -> bool {
    &&& forall|a: T, b: T| call_requires(dup, (&a, &b))
    &&& forall|a: T, b: T, r: bool| #[trigger] call_ensures(dup, (&a, &b), r) ==> r == dup_value(dup, a, b)
}

/// `len` may be called on anything and always gives the same answer for the same value.
pub open spec fn len_fn_ok<T, L: Fn(&T) -> usize>(len: L) -> bool {
    &&& forall|a: T| call_requires(len, (&a,))
    &&& forall|a: T, n: usize| #[trigger] call_ensures(len, (&a,), n) ==> n == len_value(len, a)
}

/// `i` is the first position of `out` holding a duplicate of `w`.
pub open spec fn is_first_dup<T, D: Fn(&T, &T) -> bool>(out: Seq<T>, w: T, dup: D, i: int) -> bool {
    &&& 0 <= i < out.len()
    &&& dup_value(dup, w, out[i])
    &&& forall|j: int| 0 <= j < i ==> !dup_value(dup, w, #[trigger] out[j])
}

/// The candidate list after offering `w`: the first duplicate of `w` is replaced by `w` when `w` is
/// strictly longer and kept otherwise; with no duplicate, `w` is appended.
pub open spec fn kept_longer<T, D: Fn(&T, &T) -> bool, L: Fn(&T) -> usize>(out: Seq<T>, w: T, len: L, dup: D) -> Seq<
    T,
> {
    if exists|i: int| is_first_dup(out, w, dup, i) {
        let i = choose|i: int| is_first_dup(out, w, dup, i);
        if len_value(len, w) > len_value(len, out[i]) {
            out.update(i, w)
        } else {
            out
        }
    } else {
        out.push(w)
    }
}

/// The first duplicate is unique.
proof fn lemma_first_dup_unique<T, D: Fn(&T, &T) -> bool>(out: Seq<T>, w: T, dup: D, i: int, k: int)
    requires
        is_first_dup(out, w, dup, i),
        is_first_dup(out, w, dup, k),
    ensures
        i == k,
{
    if i < k {
        assert(!dup_value(dup, w, out[i]));
    } else if k < i {
        assert(!dup_value(dup, w, out[k]));
    }
}

/// Offer `w` to the candidate list: replace the first `dup`-matching candidate only when `w` is
/// strictly longer by `len`, else append `w` when nothing matches.
pub fn push_keep_longer<T, L: Fn(&T) -> usize, D: Fn(&T, &T) -> bool>(out: &mut Vec<T>, w: T, len: L, dup: D)
    requires
        dup_fn_ok(dup),
        len_fn_ok(len),
    ensures
        final(out)@ == kept_longer(old(out)@, w, len, dup),
{
    let mut i: usize = 0;
    while i < out.len()
        invariant
            i <= out@.len(),
            out@ == old(out)@,
            dup_fn_ok(dup),
            len_fn_ok(len),
            forall|j: int| 0 <= j < i ==> !dup_value(dup, w, #[trigger] out@[j]),
        decreases out@.len() - i,
    {
        if dup(&w, &out[i]) {
            proof {
                assert(is_first_dup(old(out)@, w, dup, i as int));
                let k = choose|k: int| is_first_dup(old(out)@, w, dup, k);
                lemma_first_dup_unique(old(out)@, w, dup, i as int, k);
            }
            if len(&w) > len(&out[i]) {
                out.set(i, w);
            }
            return;
        }
        i = i + 1;
    }
    proof {
        assert forall|k: int| !is_first_dup(old(out)@, w, dup, k) by {
            if is_first_dup(old(out)@, w, dup, k) {
                assert(!dup_value(dup, w, out@[k]));
            }
        }
    }
    out.push(w);
}

/// Where an affix's reduplicated material sits relative to the copy of the input.
#[derive(Clone, Copy, Debug, PartialEq, Eq, Structural)]
pub enum ReduplicationHint {
    Prefix,
    Suffix,
    Implicit,
}

/// Output action `pr` references input part `v`.
pub open spec fn refs(pr: Option<u16>, v: int) -> bool {
    pr is Some && pr->0 == v
}

/// Action `i` copies or modifies an input part that another action references too: it belongs to
/// a reduplication group.
pub open spec fn in_redup_group(parts: Seq<Option<u16>>, i: int) -> bool {
    &&& 0 <= i < parts.len()
    &&& parts[i] is Some
    &&& exists|k: int| 0 <= k < parts.len() && k != i && parts[k] == parts[i]
}

/// The suffix scan, from action `i` on with `next` the input part expected next: the first action
/// where a run echoing the input parts `0 .. lhs_len` in order ends, as the run's start.
pub open spec fn suffix_start(parts: Seq<Option<u16>>, lhs_len: int, i: int, next: int) -> Option<int>
    decreases parts.len() - i,
{
    if i < 0 || i >= parts.len() {
        None
    } else {
        let pr = parts[i];
        if refs(pr, next) || refs(pr, 0) {
            if refs(pr, lhs_len - 1) {
                Some(i - (lhs_len - 1))
            } else {
                let n2 = if !refs(pr, next) { 0 } else { next };
                suffix_start(parts, lhs_len, i + 1, n2 + 1)
            }
        } else {
            suffix_start(parts, lhs_len, i + 1, 0)
        }
    }
}

/// The prefix scan, from action `i` down with `next` the input part expected next: the first
/// action, from the right, where a run echoing the input parts in order begins.
pub open spec fn prefix_start(parts: Seq<Option<u16>>, lhs_len: int, i: int, next: int) -> Option<int>
    decreases i + 1,
{
    if i < 0 || i >= parts.len() {
        None
    } else {
        let pr = parts[i];
        if refs(pr, next) || refs(pr, lhs_len - 1) {
            if refs(pr, 0) {
                Some(i)
            } else {
                let n2 = if !refs(pr, next) { lhs_len - 1 } else { next };
                prefix_start(parts, lhs_len, i - 1, n2 - 1)
            }
        } else {
            prefix_start(parts, lhs_len, i - 1, lhs_len - 1)
        }
    }
}

proof fn lemma_suffix_start_bounds(parts: Seq<Option<u16>>, lhs_len: int, i: int, next: int)
    requires
        0 <= lhs_len <= u16::MAX,
    ensures
        suffix_start(parts, lhs_len, i, next) matches Some(s) ==> -lhs_len <= s < parts.len(),
    decreases parts.len() - i,
{
    if 0 <= i < parts.len() {
        let pr = parts[i];
        if refs(pr, next) || refs(pr, 0) {
            if !refs(pr, lhs_len - 1) {
                let n2 = if !refs(pr, next) { 0 } else { next };
                lemma_suffix_start_bounds(parts, lhs_len, i + 1, n2 + 1);
            }
        } else {
            lemma_suffix_start_bounds(parts, lhs_len, i + 1, 0);
        }
    }
}

proof fn lemma_prefix_start_bounds(parts: Seq<Option<u16>>, lhs_len: int, i: int, next: int)
    ensures
        prefix_start(parts, lhs_len, i, next) matches Some(s) ==> 0 <= s < parts.len(),
    decreases i + 1,
{
    if 0 <= i < parts.len() {
        let pr = parts[i];
        if refs(pr, next) || refs(pr, lhs_len - 1) {
            if !refs(pr, 0) {
                let n2 = if !refs(pr, next) { lhs_len - 1 } else { next };
                lemma_prefix_start_bounds(parts, lhs_len, i - 1, n2 - 1);
            }
        } else {
            lemma_prefix_start_bounds(parts, lhs_len, i - 1, lhs_len - 1);
        }
    }
}

/// Where the whole-input echo starts, if the actions hold one.
pub open spec fn redup_start(parts: Seq<Option<u16>>, lhs_len: int, hint: ReduplicationHint) -> Option<int> {
    match hint {
        ReduplicationHint::Prefix => prefix_start(parts, lhs_len, parts.len() - 1, lhs_len - 1),
        _ => suffix_start(parts, lhs_len, 0, 0),
    }
}

/// Whether occurrence `i` of a reduplicated part is the existing echo (not new affix material):
/// inside the echo run when there is one; else the last occurrence for a prefix and the first
/// otherwise.
pub open spec fn is_existing_echo(parts: Seq<Option<u16>>, lhs_len: int, hint: ReduplicationHint, i: int) -> bool {
    match redup_start(parts, lhs_len, hint) {
        None => if hint == ReduplicationHint::Prefix {
            forall|k: int| i < k < parts.len() ==> parts[k] != parts[i]
        } else {
            forall|k: int| 0 <= k < i ==> parts[k] != parts[i]
        },
        Some(s) => s <= i < s + lhs_len,
    }
}

/// Every action of a reduplication group mapped to whether it is the existing echo.
pub open spec fn classified(parts: Seq<Option<u16>>, lhs_len: int, hint: ReduplicationHint) -> Map<usize, bool> {
    Map::new(
        |i: usize| in_redup_group(parts, i as int),
        |i: usize| is_existing_echo(parts, lhs_len, hint, i as int),
    )
}

/// A suffixing reduplication is classified exactly as an implicit one: both look for the echo run
/// from the left and, without one, take each part's first occurrence as the existing copy.
pub proof fn law_suffix_classified_as_implicit(parts: Seq<Option<u16>>, lhs_len: int)
    ensures
        classified(parts, lhs_len, ReduplicationHint::Suffix) == classified(parts, lhs_len, ReduplicationHint::Implicit),
{
    assert(classified(parts, lhs_len, ReduplicationHint::Suffix) =~= classified(
        parts,
        lhs_len,
        ReduplicationHint::Implicit,
    ));
}

/// Without an echo run, a prefixing reduplication takes each part's last occurrence as the existing
/// copy, and the other hints its first: in a group of exactly two occurrences `a < b`, the prefix
/// hint marks `b` existing and `a` new, the others the reverse.
pub proof fn law_echo_without_run(parts: Seq<Option<u16>>, lhs_len: int, hint: ReduplicationHint, a: usize, b: usize)
    requires
        0 <= a < b < parts.len(),
        parts[a as int] is Some,
        parts[a as int] == parts[b as int],
        forall|k: int| 0 <= k < parts.len() && k != a && k != b ==> parts[k] != parts[a as int],
        redup_start(parts, lhs_len, hint) is None,
    ensures
        classified(parts, lhs_len, hint).contains_key(a),
        classified(parts, lhs_len, hint).contains_key(b),
        classified(parts, lhs_len, hint)[a] == (hint != ReduplicationHint::Prefix),
        classified(parts, lhs_len, hint)[b] == (hint == ReduplicationHint::Prefix),
{
    assert(in_redup_group(parts, a as int));
    assert(in_redup_group(parts, b as int));
}

fn part_in_group(parts: &[Option<u16>], i: usize) -> (b: bool)
    requires
        i < parts@.len(),
    ensures
        b == in_redup_group(parts@, i as int),
{
    if parts[i].is_none() {
        return false;
    }
    let mut k: usize = 0;
    while k < parts.len()
        invariant
            k <= parts@.len(),
            i < parts@.len(),
            parts@[i as int] is Some,
            forall|j: int| 0 <= j < k && j != i ==> parts@[j] != parts@[i as int],
        decreases parts@.len() - k,
    {
        if k != i && parts[k] == parts[i] {
            proof {
                let j = k as int;
                assert(0 <= j < parts@.len() && j != i as int && parts@[j] == parts@[i as int]);
                assert(parts@[i as int] is Some);
            }
            return true;
        }
        k = k + 1;
    }
    false
}

/// No action after `i` (or before it, when `after` is false) references the same part as `i`.
fn alone_beyond(parts: &[Option<u16>], i: usize, after: bool) -> (b: bool)
    requires
        i < parts@.len(),
    ensures
        after ==> b == (forall|k: int| i < k < parts@.len() ==> parts@[k] != parts@[i as int]),
        !after ==> b == (forall|k: int| 0 <= k < i ==> parts@[k] != parts@[i as int]),
{
    assert(i < parts.len());
    let (lo, hi) = if after { (i + 1, parts.len()) } else { (0, i) };
    let mut k = lo;
    while k < hi
        invariant
            lo <= k <= hi <= parts@.len(),
            i < parts@.len(),
            after ==> lo == i + 1 && hi == parts@.len(),
            !after ==> lo == 0 && hi == i,
            forall|j: int| lo <= j < k ==> parts@[j] != parts@[i as int],
        decreases hi - k,
    {
        if parts[k] == parts[i] {
            return false;
        }
        k = k + 1;
    }
    true
}

/// The part an action references, widened for the scans.
fn part_of(pr: Option<u16>) -> (r: Option<i64>)
    ensures
        forall|v: int| #![trigger refs(pr, v)] refs(pr, v) <==> (r is Some && r->0 == v),
{
    match pr {
        Some(p) => Some(p as i64),
        None => None,
    }
}

fn suffix_scan(parts: &[Option<u16>], lhs_len: u16) -> (start: Option<i64>)
    requires
        parts@.len() < i64::MAX,
    ensures
        match suffix_start(parts@, lhs_len as int, 0, 0) {
            Some(s) => start == Some(s as i64),
            None => start is None,
        },
{
    let last = lhs_len as i64 - 1;
    let mut next: i64 = 0;
    let mut i: usize = 0;
    while i < parts.len()
        invariant
            i <= parts@.len() < i64::MAX,
            last == lhs_len - 1,
            0 <= next <= i,
            suffix_start(parts@, lhs_len as int, 0, 0) == suffix_start(parts@, lhs_len as int, i as int, next as int),
        decreases parts@.len() - i,
    {
        let pr = part_of(parts[i]);
        proof {
            assert(refs(parts@[i as int], next as int) == (pr == Some(next)));
            assert(refs(parts@[i as int], 0) == (pr == Some(0i64)));
            assert(refs(parts@[i as int], last as int) == (pr == Some(last)));
        }
        if pr == Some(next) || pr == Some(0) {
            if pr == Some(last) {
                return Some(i as i64 - last);
            }
            if pr != Some(next) {
                next = 0;
            }
            next = next + 1;
        } else {
            next = 0;
        }
        i = i + 1;
    }
    None
}

fn prefix_scan(parts: &[Option<u16>], lhs_len: u16) -> (start: Option<i64>)
    requires
        parts@.len() < i64::MAX,
    ensures
        match prefix_start(parts@, lhs_len as int, parts@.len() - 1, lhs_len - 1) {
            Some(s) => start == Some(s as i64),
            None => start is None,
        },
{
    let last = lhs_len as i64 - 1;
    let mut next: i64 = last;
    let mut i: usize = parts.len();
    while i > 0
        invariant
            i <= parts@.len() < i64::MAX,
            last == lhs_len - 1,
            -2 <= next <= last,
            prefix_start(parts@, lhs_len as int, parts@.len() - 1, lhs_len - 1) == prefix_start(
                parts@,
                lhs_len as int,
                i - 1,
                next as int,
            ),
        decreases i,
    {
        i = i - 1;
        let pr = part_of(parts[i]);
        proof {
            assert(refs(parts@[i as int], next as int) == (pr == Some(next)));
            assert(refs(parts@[i as int], 0) == (pr == Some(0i64)));
            assert(refs(parts@[i as int], last as int) == (pr == Some(last)));
        }
        if pr == Some(next) || pr == Some(last) {
            if pr == Some(0) {
                return Some(i as i64);
            }
            if pr != Some(next) {
                next = last;
            }
            next = next - 1;
        } else {
            next = last;
        }
    }
    None
}

/// For every output action inside a reduplication group (an input part referenced by two or more
/// actions), whether that occurrence is the existing echo rather than new affix material; actions
/// outside any group are absent. `parts` gives, per output action, the input part it copies or
/// modifies, if any; `lhs_len` is the number of input parts.
pub fn classify_redup(lhs_len: u16, parts: &[Option<u16>], hint: ReduplicationHint) -> (m: FxHashMap<usize, bool>)
    requires
        parts@.len() < i64::MAX,
    ensures
        m@ == classified(parts@, lhs_len as int, hint),
{
    let mut any_group = false;
    let mut i: usize = 0;
    while i < parts.len()
        invariant
            i <= parts@.len(),
            any_group == exists|j: int| 0 <= j < i && in_redup_group(parts@, j),
        decreases parts@.len() - i,
    {
        if part_in_group(parts, i) {
            any_group = true;
        }
        i = i + 1;
    }
    let mut m: FxHashMap<usize, bool> = fx_new();
    if !any_group {
        assert(m@ =~= classified(parts@, lhs_len as int, hint));
        return m;
    }
    let start = match hint {
        ReduplicationHint::Prefix => prefix_scan(parts, lhs_len),
        _ => suffix_scan(parts, lhs_len),
    };
    proof {
        lemma_suffix_start_bounds(parts@, lhs_len as int, 0, 0);
        lemma_prefix_start_bounds(parts@, lhs_len as int, parts@.len() - 1, lhs_len - 1);
    }
    let mut i: usize = 0;
    while i < parts.len()
        invariant
            i <= parts@.len() < i64::MAX,
            match redup_start(parts@, lhs_len as int, hint) {
                Some(s) => start == Some(s as i64) && -(lhs_len as int) <= s < parts@.len(),
                None => start is None,
            },
            m@ == Map::new(
                |k: usize| k < i && in_redup_group(parts@, k as int),
                |k: usize| is_existing_echo(parts@, lhs_len as int, hint, k as int),
            ),
        decreases parts@.len() - i,
    {
        if part_in_group(parts, i) {
            let existing = match start {
                None => alone_beyond(parts, i, hint == ReduplicationHint::Prefix),
                Some(s) => {
                    let idx = i as i128;
                    idx >= s as i128 && idx < s as i128 + lhs_len as i128
                },
            };
            assert(existing == is_existing_echo(parts@, lhs_len as int, hint, i as int));
            fx_insert_usize_bool(&mut m, i, existing);
        }
        proof {
            assert(m@ =~= Map::new(
                |k: usize| k < i + 1 && in_redup_group(parts@, k as int),
                |k: usize| is_existing_echo(parts@, lhs_len as int, hint, k as int),
            ));
        }
        i = i + 1;
    }
    assert(m@ =~= classified(parts@, lhs_len as int, hint));
    m
}

} // verus!
