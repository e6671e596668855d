//! The per-word statistics collector: eight `u64` counters per `(object, stratum, allomorph,
//! direction)` row.
//!
//! Two storage shapes: a dense table for `(direction, stratum, rule)` triples of morphological and
//! phonological rules (a grammar has dozens to hundreds of rules), and a sparse map for every
//! allomorph row and every other object kind (a lexicon runs to 10^4-10^5 entries and a word
//! touches a handful). `rows` emits the non-zero dense rows first, in table order, then the non-zero
//! sparse rows sorted by `(kind, stratum, object_index, allomorph, direction)`.
use vstd::prelude::*;

use crate::clock::{duration_as_nanos, instant_elapsed, instant_now};
use crate::fxmap::{fx_get_u128, fx_insert_u128, fx_new, fx_entries_u128, FxRowMap};
use crate::{LexEntryId, MRuleId, PRuleId, StratumId};

use web_time::Instant;

verus! {

/// The allomorph-dimension sentinel: cost belonging to no allomorph.
pub const ALLOMORPH_NONE: u32 = 0;

/// Which pass produced a fact row: unapplying toward a root, or reapplying rules forward.
#[derive(Copy, Clone, Debug, PartialEq, Eq, Hash, PartialOrd, Ord, Structural)]
pub enum Direction {
    Analysis,
    Synthesis,
}

impl Direction {
    pub fn as_str(self) -> (s: &'static str)
        ensures
            self == Direction::Analysis ==> s@ == "analysis"@,
            self == Direction::Synthesis ==> s@ == "synthesis"@,
    {
        match self {
            Direction::Analysis => "analysis",
            Direction::Synthesis => "synthesis",
        }
    }
}

/// Which grammar object a fact row is attributed to.
#[derive(Copy, Clone, Debug, PartialEq, Eq, Hash, PartialOrd, Ord, Structural)]
pub enum ObjectKind {
    MorphRule,
    PhonRule,
    LexEntry,
    RootIndex,
    /// The lexical-pattern root guesser: one pseudo-row per grammar.
    Guesser,
    /// The runtime supplied-root overlay: one pseudo-row per grammar.
    Overlay,
}

/// Whether this object kind has a self-time instrumentation boundary.
pub fn self_time_supported(kind: ObjectKind) -> (b: bool)
    ensures
        b == (kind == ObjectKind::MorphRule || kind == ObjectKind::LexEntry),
{
    match kind {
        ObjectKind::MorphRule | ObjectKind::LexEntry => true,
        _ => false,
    }
}

/// The counters of one row.
#[derive(Copy, Clone, Debug, PartialEq, Eq, Structural)]
pub struct Counters {
    /// Rule-level only: one unit per step tick.
    pub attempts: u64,
    pub work: u64,
    pub outputs: u64,
    pub not_applied: u64,
    pub no_root: u64,
    pub surface_mismatch: u64,
    pub uses: u64,
    /// Wall-clock self time booked at this row, nesting-aware.
    pub self_time_ns: u64,
}

/// The all-zero counters.
pub open spec fn zero_counters() -> Counters {
    Counters {
        attempts: 0,
        work: 0,
        outputs: 0,
        not_applied: 0,
        no_root: 0,
        surface_mismatch: 0,
        uses: 0,
        self_time_ns: 0,
    }
}

impl Default for Counters {
    fn default() -> (c: Self)
        ensures
            c == zero_counters(),
    {
        Counters {
            attempts: 0,
            work: 0,
            outputs: 0,
            not_applied: 0,
            no_root: 0,
            surface_mismatch: 0,
            uses: 0,
            self_time_ns: 0,
        }
    }
}

impl Counters {
    /// Wall-clock self time is not reproducible, so it is stripped before any equality check.
    pub fn without_timing(self) -> (c: Self)
        ensures
            c == (Counters { self_time_ns: 0, ..self }),
    {
        Counters { self_time_ns: 0, ..self }
    }

    fn is_zero(&self) -> (b: bool)
        ensures
            b == (*self == zero_counters()),
    {
        self.attempts == 0 && self.work == 0 && self.outputs == 0 && self.not_applied == 0 && self.no_root == 0
            && self.surface_mismatch == 0 && self.uses == 0 && self.self_time_ns == 0
    }
}

/// Whether, and why, a `(kind, counter)` cell can carry a real number.
#[derive(Copy, Clone, Debug, PartialEq, Eq, Structural)]
pub enum CounterSupport {
    Measured,
    NotApplicable,
    NotWired,
}

/// The `(kind, counter)` pairs the collector populates.
pub open spec fn wired_counter(kind: ObjectKind, c: Seq<char>) -> bool {
    match kind {
        ObjectKind::MorphRule => c == "attempts"@ || c == "work"@ || c == "outputs"@ || c == "not_applied"@
            || c == "no_root"@ || c == "uses"@,
        ObjectKind::PhonRule => c == "attempts"@ || c == "work"@ || c == "outputs"@ || c == "not_applied"@,
        ObjectKind::LexEntry => c == "attempts"@ || c == "surface_mismatch"@ || c == "uses"@,
        ObjectKind::RootIndex => c == "attempts"@ || c == "work"@ || c == "no_root"@,
        ObjectKind::Guesser => c == "attempts"@ || c == "work"@,
        ObjectKind::Overlay => c == "attempts"@ || c == "work"@,
    }
}

/// The `(kind, counter)` pairs permanently meaningless for that kind.
pub open spec fn inapplicable_counter(kind: ObjectKind, c: Seq<char>) -> bool {
    match kind {
        ObjectKind::MorphRule => c == "surface_mismatch"@,
        ObjectKind::PhonRule => c == "surface_mismatch"@,
        ObjectKind::LexEntry => c == "outputs"@ || c == "not_applied"@ || c == "no_root"@,
        ObjectKind::RootIndex => c == "outputs"@ || c == "not_applied"@ || c == "surface_mismatch"@ || c == "uses"@,
        ObjectKind::Guesser => c == "no_root"@ || c == "surface_mismatch"@,
        ObjectKind::Overlay => c == "no_root"@ || c == "surface_mismatch"@ || c == "outputs"@ || c == "not_applied"@,
    }
}

fn str_eq(a: &str, b: &str) -> (r: bool)
    ensures
        r == (a@ == b@),
{
    let sa = a.to_owned();
    let sb = b.to_owned();
    sa == sb
}

fn is_wired(kind: ObjectKind, c: &str) -> (r: bool)
    ensures
        r == wired_counter(kind, c@),
{
    match kind {
        ObjectKind::MorphRule => str_eq(c, "attempts") || str_eq(c, "work") || str_eq(c, "outputs") || str_eq(
            c,
            "not_applied",
        ) || str_eq(c, "no_root") || str_eq(c, "uses"),
        ObjectKind::PhonRule => str_eq(c, "attempts") || str_eq(c, "work") || str_eq(c, "outputs") || str_eq(
            c,
            "not_applied",
        ),
        ObjectKind::LexEntry => str_eq(c, "attempts") || str_eq(c, "surface_mismatch") || str_eq(c, "uses"),
        ObjectKind::RootIndex => str_eq(c, "attempts") || str_eq(c, "work") || str_eq(c, "no_root"),
        ObjectKind::Guesser => str_eq(c, "attempts") || str_eq(c, "work"),
        ObjectKind::Overlay => str_eq(c, "attempts") || str_eq(c, "work"),
    }
}

fn is_inapplicable(kind: ObjectKind, c: &str) -> (r: bool)
    ensures
        r == inapplicable_counter(kind, c@),
{
    match kind {
        ObjectKind::MorphRule => str_eq(c, "surface_mismatch"),
        ObjectKind::PhonRule => str_eq(c, "surface_mismatch"),
        ObjectKind::LexEntry => str_eq(c, "outputs") || str_eq(c, "not_applied") || str_eq(c, "no_root"),
        ObjectKind::RootIndex => str_eq(c, "outputs") || str_eq(c, "not_applied") || str_eq(c, "surface_mismatch")
            || str_eq(c, "uses"),
        ObjectKind::Guesser => str_eq(c, "no_root") || str_eq(c, "surface_mismatch"),
        ObjectKind::Overlay => str_eq(c, "no_root") || str_eq(c, "surface_mismatch") || str_eq(c, "outputs")
            || str_eq(c, "not_applied"),
    }
}

/// Resolves `(kind, counter)` to one of the three support states: measured when the collector
/// populates it, not applicable when it is permanently meaningless for the kind, else not wired.
pub fn counter_support(kind: ObjectKind, counter: &str) -> (s: CounterSupport)
    ensures
        wired_counter(kind, counter@) ==> s == CounterSupport::Measured,
        !wired_counter(kind, counter@) && inapplicable_counter(kind, counter@) ==> s == CounterSupport::NotApplicable,
        !wired_counter(kind, counter@) && !inapplicable_counter(kind, counter@) ==> s == CounterSupport::NotWired,
{
    if is_wired(kind, counter) {
        CounterSupport::Measured
    } else if is_inapplicable(kind, counter) {
        CounterSupport::NotApplicable
    } else {
        CounterSupport::NotWired
    }
}

/// The address of one row.
#[derive(Copy, Clone, Debug, PartialEq, Eq, Structural)]
pub struct RowKey {
    pub kind: ObjectKind,
    pub stratum: StratumId,
    pub object_index: u32,
    pub allomorph: u32,
    pub direction: Direction,
}

/// One collected fact row.
#[derive(Copy, Clone, Debug, PartialEq, Eq, Structural)]
pub struct StatsRow {
    pub kind: ObjectKind,
    /// The object's own dense id within `kind` (the stratum index for `RootIndex`).
    pub object_index: u32,
    pub stratum: StratumId,
    pub allomorph: u32,
    pub direction: Direction,
    pub counters: Counters,
}

impl StatsRow {
    /// This row's reproducible projection: the one non-deterministic field zeroed.
    pub fn without_timing(&self) -> (r: Self)
        ensures
            r == (StatsRow { counters: Counters { self_time_ns: 0, ..self.counters }, ..*self }),
    {
        StatsRow { counters: self.counters.without_timing(), ..*self }
    }
}

/// The row a key and its counters make.
pub open spec fn row_of(k: RowKey, c: Counters) -> StatsRow {
    StatsRow {
        kind: k.kind,
        object_index: k.object_index,
        stratum: k.stratum,
        allomorph: k.allomorph,
        direction: k.direction,
        counters: c,
    }
}

pub open spec fn kind_code(k: ObjectKind) -> int {
    match k {
        ObjectKind::MorphRule => 0,
        ObjectKind::PhonRule => 1,
        ObjectKind::LexEntry => 2,
        ObjectKind::RootIndex => 3,
        ObjectKind::Guesser => 4,
        ObjectKind::Overlay => 5,
    }
}

pub open spec fn dir_code(d: Direction) -> int {
    match d {
        Direction::Analysis => 0,
        Direction::Synthesis => 1,
    }
}

/// The position of a key in the lexicographic order of `(kind, stratum, object_index, allomorph,
/// direction)`, each component in its declaration or numeric order.
pub open spec fn key_rank(k: RowKey) -> int {
    (((kind_code(k.kind) * 256 + k.stratum.0) * 0x1_0000_0000 + k.object_index) * 0x1_0000_0000 + k.allomorph) * 2
        + dir_code(k.direction)
}

/// Distinct keys have distinct ranks.
pub proof fn lemma_rank_injective(a: RowKey, b: RowKey)
    requires
        key_rank(a) == key_rank(b),
    ensures
        a == b,
{
    assert(kind_code(a.kind) == kind_code(b.kind));
    assert(a.stratum.0 == b.stratum.0);
    assert(a.object_index == b.object_index);
    assert(a.allomorph == b.allomorph);
    assert(dir_code(a.direction) == dir_code(b.direction));
}

fn rank(k: &RowKey) -> (r: u128)
    ensures
        r == key_rank(*k),
{
    let kc: u128 = match k.kind {
        ObjectKind::MorphRule => 0,
        ObjectKind::PhonRule => 1,
        ObjectKind::LexEntry => 2,
        ObjectKind::RootIndex => 3,
        ObjectKind::Guesser => 4,
        ObjectKind::Overlay => 5,
    };
    let dc: u128 = match k.direction {
        Direction::Analysis => 0,
        Direction::Synthesis => 1,
    };
    (((kc * 256 + k.stratum.0 as u128) * 0x1_0000_0000 + k.object_index as u128) * 0x1_0000_0000
        + k.allomorph as u128) * 2 + dc
}

/// Keys that live in a dense table: rule-level rows of morphological and phonological rules.
pub open spec fn is_dense_key(k: RowKey) -> bool {
    (k.kind == ObjectKind::MorphRule || k.kind == ObjectKind::PhonRule) && k.allomorph == ALLOMORPH_NONE
}

/// One update of a row.
#[derive(Copy, Clone, Debug, PartialEq, Eq, Structural)]
pub enum Delta {
    /// `attempts += 1`, `work += segments`.
    AttemptWork(u64),
    /// `outputs += n`, and `not_applied += 1` when `n == 0`.
    Outcome(u64),
    /// `attempts += 1`.
    Attempt,
    /// `not_applied += 1`.
    NotApplied,
    /// `no_root += 1`.
    NoRoot,
    /// `work += segments`, `outputs += n`, and `not_applied += 1` when `n == 0`.
    AllomorphTry(u64, u64),
    /// `surface_mismatch += 1`.
    SurfaceMismatch,
    /// `uses += 1`.
    Use,
    /// `self_time_ns += ns` (wrapping).
    SelfTime(u64),
}

/// The counters after an update.
pub open spec fn apply_delta(c: Counters, d: Delta) -> Counters {
    match d {
        Delta::AttemptWork(seg) => Counters { attempts: (c.attempts + 1) as u64, work: (c.work + seg) as u64, ..c },
        Delta::Outcome(n) => Counters {
            outputs: (c.outputs + n) as u64,
            not_applied: if n == 0 { (c.not_applied + 1) as u64 } else { c.not_applied },
            ..c
        },
        Delta::Attempt => Counters { attempts: (c.attempts + 1) as u64, ..c },
        Delta::NotApplied => Counters { not_applied: (c.not_applied + 1) as u64, ..c },
        Delta::NoRoot => Counters { no_root: (c.no_root + 1) as u64, ..c },
        Delta::AllomorphTry(seg, n) => Counters {
            work: (c.work + seg) as u64,
            outputs: (c.outputs + n) as u64,
            not_applied: if n == 0 { (c.not_applied + 1) as u64 } else { c.not_applied },
            ..c
        },
        Delta::SurfaceMismatch => Counters { surface_mismatch: (c.surface_mismatch + 1) as u64, ..c },
        Delta::Use => Counters { uses: (c.uses + 1) as u64, ..c },
        Delta::SelfTime(ns) => Counters { self_time_ns: ((c.self_time_ns + ns) % 0x1_0000_0000_0000_0000) as u64, ..c },
    }
}

/// The update does not overflow any counter (self time wraps).
pub open spec fn delta_fits(c: Counters, d: Delta) -> bool {
    match d {
        Delta::AttemptWork(seg) => c.attempts < u64::MAX && c.work + seg <= u64::MAX,
        Delta::Outcome(n) => c.outputs + n <= u64::MAX && (n == 0 ==> c.not_applied < u64::MAX),
        Delta::Attempt => c.attempts < u64::MAX,
        Delta::NotApplied => c.not_applied < u64::MAX,
        Delta::NoRoot => c.no_root < u64::MAX,
        Delta::AllomorphTry(seg, n) => c.work + seg <= u64::MAX && c.outputs + n <= u64::MAX && (n == 0
            ==> c.not_applied < u64::MAX),
        Delta::SurfaceMismatch => c.surface_mismatch < u64::MAX,
        Delta::Use => c.uses < u64::MAX,
        Delta::SelfTime(ns) => true,
    }
}

fn delta_apply(c: Counters, d: Delta) -> (r: Counters)
    requires
        delta_fits(c, d),
    ensures
        r == apply_delta(c, d),
{
    match d {
        Delta::AttemptWork(seg) => Counters { attempts: c.attempts + 1, work: c.work + seg, ..c },
        Delta::Outcome(n) => Counters {
            outputs: c.outputs + n,
            not_applied: if n == 0 { c.not_applied + 1 } else { c.not_applied },
            ..c
        },
        Delta::Attempt => Counters { attempts: c.attempts + 1, ..c },
        Delta::NotApplied => Counters { not_applied: c.not_applied + 1, ..c },
        Delta::NoRoot => Counters { no_root: c.no_root + 1, ..c },
        Delta::AllomorphTry(seg, n) => Counters {
            work: c.work + seg,
            outputs: c.outputs + n,
            not_applied: if n == 0 { c.not_applied + 1 } else { c.not_applied },
            ..c
        },
        Delta::SurfaceMismatch => Counters { surface_mismatch: c.surface_mismatch + 1, ..c },
        Delta::Use => Counters { uses: c.uses + 1, ..c },
        Delta::SelfTime(ns) => Counters { self_time_ns: c.self_time_ns.wrapping_add(ns), ..c },
    }
}

/// One rule kind's counters, dense across every `(direction, stratum, rule)` triple, laid out as
/// two direction-major blocks.
struct DenseTable {
    num_strata: usize,
    num_rules: usize,
    cells: Vec<Counters>,
}

/// The flat position of `(direction, stratum, rule)`.
pub open spec fn dense_index(d: Direction, s: int, r: int, ns: int, nr: int) -> int {
    dir_code(d) * (ns * nr) + s * nr + r
}

proof fn lemma_dense_index_bounds(d: Direction, s: int, r: int, ns: int, nr: int)
    requires
        0 <= s < ns,
        0 <= r < nr,
    ensures
        0 <= dense_index(d, s, r, ns, nr) < 2 * ns * nr,
        dense_index(d, s, r, ns, nr) == dir_code(d) * (ns * nr) + s * nr + r,
{
    assert(0 <= s * nr + r < ns * nr) by (nonlinear_arith)
        requires
            0 <= s < ns,
            0 <= r < nr,
    ;
    assert(2 * ns * nr == 2 * (ns * nr)) by (nonlinear_arith);
}

proof fn lemma_dense_index_injective(d1: Direction, s1: int, r1: int, d2: Direction, s2: int, r2: int, ns: int, nr: int)
    requires
        0 <= s1 < ns,
        0 <= r1 < nr,
        0 <= s2 < ns,
        0 <= r2 < nr,
        dense_index(d1, s1, r1, ns, nr) == dense_index(d2, s2, r2, ns, nr),
    ensures
        d1 == d2,
        s1 == s2,
        r1 == r2,
{
    lemma_dense_index_bounds(d1, s1, r1, ns, nr);
    lemma_dense_index_bounds(d2, s2, r2, ns, nr);
    assert(0 <= s1 * nr + r1 < ns * nr) by (nonlinear_arith)
        requires
            0 <= s1 < ns,
            0 <= r1 < nr,
    ;
    assert(0 <= s2 * nr + r2 < ns * nr) by (nonlinear_arith)
        requires
            0 <= s2 < ns,
            0 <= r2 < nr,
    ;
    assert(dir_code(d1) == dir_code(d2));
    assert(s1 == s2 && r1 == r2) by (nonlinear_arith)
        requires
            s1 * nr + r1 == s2 * nr + r2,
            0 <= r1 < nr,
            0 <= r2 < nr,
            0 <= s1,
            0 <= s2,
    ;
}

impl DenseTable {
    spec fn wf(&self) -> bool {
        &&& self.num_strata >= 1
        &&& self.num_rules >= 1
        &&& self.cells@.len() == 2 * self.num_strata * self.num_rules
    }

    /// Whether `(stratum, rule)` addresses a cell.
    spec fn in_range(&self, stratum: u8, rule: u32) -> bool {
        stratum < self.num_strata && rule < self.num_rules
    }

    spec fn cell(&self, d: Direction, stratum: u8, rule: u32) -> Counters {
        self.cells@[dense_index(d, stratum as int, rule as int, self.num_strata as int, self.num_rules as int)]
    }

    fn new(num_strata: usize, num_rules: usize) -> (t: Self)
        requires
            2 * (if num_strata >= 1 { num_strata as int } else { 1 }) * (if num_rules >= 1 { num_rules as int } else { 1 })
                <= usize::MAX,
        ensures
            t.wf(),
            t.num_strata == (if num_strata >= 1 { num_strata } else { 1 }),
            t.num_rules == (if num_rules >= 1 { num_rules } else { 1 }),
            forall|i: int| 0 <= i < t.cells@.len() ==> t.cells@[i] == zero_counters(),
    {
        let num_rules = if num_rules >= 1 { num_rules } else { 1 };
        let num_strata = if num_strata >= 1 { num_strata } else { 1 };
        assert(2 * num_strata * num_rules <= usize::MAX);
        assert(2 * num_strata <= 2 * num_strata * num_rules) by (nonlinear_arith)
            requires num_rules >= 1, num_strata >= 1;
        let n = 2 * num_strata * num_rules;
        let mut cells: Vec<Counters> = Vec::new();
        let mut i: usize = 0;
        while i < n
            invariant
                i <= n,
                cells@.len() == i,
                forall|j: int| 0 <= j < i ==> cells@[j] == zero_counters(),
            decreases n - i,
        {
            cells.push(Counters::default());
            i = i + 1;
        }
        DenseTable { num_strata, num_rules, cells }
    }

    fn index(&self, d: Direction, stratum: StratumId, rule: u32) -> (i: usize)
        requires
            self.wf(),
            self.in_range(stratum.0, rule),
        ensures
            i == dense_index(d, stratum.0 as int, rule as int, self.num_strata as int, self.num_rules as int),
            i < self.cells@.len(),
    {
        proof {
            lemma_dense_index_bounds(d, stratum.0 as int, rule as int, self.num_strata as int, self.num_rules as int);
            assert(self.num_strata * self.num_rules <= 2 * self.num_strata * self.num_rules) by (nonlinear_arith)
                requires self.num_strata >= 1, self.num_rules >= 1;
            assert(self.cells@.len() == self.cells.len());
        }
        let per = self.num_strata * self.num_rules;
        let dc: usize = match d {
            Direction::Analysis => 0,
            Direction::Synthesis => 1,
        };
        proof {
            assert(stratum.0 * self.num_rules < per) by (nonlinear_arith)
                requires stratum.0 < self.num_strata, self.num_rules >= 1, per == self.num_strata * self.num_rules;
        }
        dc * per + stratum.0 as usize * self.num_rules + rule as usize
    }

    fn update(&mut self, d: Direction, stratum: StratumId, rule: u32, delta: Delta)
        requires
            old(self).wf(),
            old(self).in_range(stratum.0, rule),
            delta_fits(old(self).cell(d, stratum.0, rule), delta),
        ensures
            final(self).wf(),
            final(self).num_strata == old(self).num_strata,
            final(self).num_rules == old(self).num_rules,
            final(self).cells@ == old(self).cells@.update(
                dense_index(d, stratum.0 as int, rule as int, old(self).num_strata as int, old(self).num_rules as int),
                apply_delta(old(self).cell(d, stratum.0, rule), delta),
            ),
    {
        let i = self.index(d, stratum, rule);
        let c = self.cells[i];
        let c2 = delta_apply(c, delta);
        self.cells.set(i, c2);
    }
}

/// What a phonological-rule instrumentation site attributes its counters to: the stratum it ran
/// under, the rule, and the direction. The collector itself is passed beside it.
#[derive(Copy, Clone, Debug, PartialEq, Eq, Structural)]
pub struct PRuleStatsCtx {
    pub stratum: StratumId,
    pub id: PRuleId,
    pub direction: Direction,
}

/// The same for the morphological-rule allomorph loops.
#[derive(Copy, Clone, Debug, PartialEq, Eq, Structural)]
pub struct MRuleStatsCtx {
    pub stratum: StratumId,
    pub id: MRuleId,
    pub direction: Direction,
}

/// One open self-time region: its row, start time, and children's elapsed time so far.
struct ObjTimeFrame {
    start: Instant,
    nested_ns: u64,
    key: RowKey,
}

/// The handle `time_enter` returns; closing it books the region's self time.
#[must_use]
pub struct ObjectTimeGuard {
    depth: usize,
}

/// The per-word collector, threaded down by the caller so every instrumentation site is one branch.
pub struct StatsCollector {
    morph: DenseTable,
    phon: DenseTable,
    sparse: FxRowMap,
    obj_time_stack: Vec<ObjTimeFrame>,
}

impl StatsCollector {
    /// Internal consistency: dense tables well formed; every sparse entry stored under its key's
    /// rank, and no dense key stored sparsely.
    pub closed spec fn wf(&self) -> bool {
        &&& self.morph.wf()
        &&& self.phon.wf()
        &&& self.morph.num_strata == self.phon.num_strata
        &&& self.morph.num_strata <= 256
        &&& self.morph.num_rules <= 0x1_0000_0000
        &&& self.phon.num_rules <= 0x1_0000_0000
        &&& forall|r: u128| #[trigger] self.sparse@.contains_key(r) ==> key_rank(self.sparse@[r].0) == r && !is_dense_key(
            self.sparse@[r].0,
        )
    }

    /// The number of strata and of morphological and phonological rules the dense tables span.
    pub closed spec fn num_strata(&self) -> nat {
        self.morph.num_strata as nat
    }

    pub closed spec fn num_mrules(&self) -> nat {
        self.morph.num_rules as nat
    }

    pub closed spec fn num_prules(&self) -> nat {
        self.phon.num_rules as nat
    }

    /// Whether a dense key addresses a cell of its table.
    pub open spec fn dense_in_range(&self, k: RowKey) -> bool {
        &&& k.stratum.0 < self.num_strata()
        &&& k.kind == ObjectKind::MorphRule ==> k.object_index < self.num_mrules()
        &&& k.kind == ObjectKind::PhonRule ==> k.object_index < self.num_prules()
    }

    /// The counters at `k` (all zero for a row never touched, or a dense key outside the tables).
    pub closed spec fn row(&self, k: RowKey) -> Counters {
        if is_dense_key(k) {
            let t = if k.kind == ObjectKind::MorphRule { self.morph } else { self.phon };
            if t.in_range(k.stratum.0, k.object_index) {
                t.cell(k.direction, k.stratum.0, k.object_index)
            } else {
                zero_counters()
            }
        } else if self.sparse@.contains_key(key_rank(k) as u128) {
            self.sparse@[key_rank(k) as u128].1
        } else {
            zero_counters()
        }
    }

    /// Every row's counters.
    pub open spec fn table(&self) -> Map<RowKey, Counters> {
        Map::new(|k: RowKey| true, |k: RowKey| self.row(k))
    }

    /// The rows of the open self-time regions, innermost last.
    pub closed spec fn open_regions(&self) -> Seq<RowKey> {
        self.obj_time_stack@.map_values(|f: ObjTimeFrame| f.key)
    }

    /// The nanoseconds each open region has spent in regions nested inside it and already closed,
    /// innermost last.
    pub closed spec fn open_nested(&self) -> Seq<u64> {
        self.obj_time_stack@.map_values(|f: ObjTimeFrame| f.nested_ns)
    }

    /// A collector spanning `num_strata` strata, `num_mrules` morphological and `num_prules`
    /// phonological rules (each at least one), every row zero.
    pub fn new(num_strata: usize, num_mrules: usize, num_prules: usize) -> (c: Self)
        requires
            num_strata <= 256,
            num_mrules <= 0x1_0000_0000,
            num_prules <= 0x1_0000_0000,
            2 * (if num_strata >= 1 { num_strata as int } else { 1 }) * (if num_mrules >= 1 { num_mrules as int } else { 1 })
                <= usize::MAX,
            2 * (if num_strata >= 1 { num_strata as int } else { 1 }) * (if num_prules >= 1 { num_prules as int } else { 1 })
                <= usize::MAX,
        ensures
            c.wf(),
            c.num_strata() == (if num_strata >= 1 { num_strata } else { 1 }),
            c.num_mrules() == (if num_mrules >= 1 { num_mrules } else { 1 }),
            c.num_prules() == (if num_prules >= 1 { num_prules } else { 1 }),
            forall|k: RowKey| #[trigger] c.row(k) == zero_counters(),
            c.open_regions() == Seq::<RowKey>::empty(),
            c.open_nested() == Seq::<u64>::empty(),
    {
        let c = StatsCollector {
            morph: DenseTable::new(num_strata, num_mrules),
            phon: DenseTable::new(num_strata, num_prules),
            sparse: fx_new(),
            obj_time_stack: Vec::new(),
        };
        assert forall|k: RowKey| #[trigger] c.row(k) == zero_counters() by {
            if is_dense_key(k) {
                let t = if k.kind == ObjectKind::MorphRule { c.morph } else { c.phon };
                if t.in_range(k.stratum.0, k.object_index) {
                    lemma_dense_index_bounds(
                        k.direction,
                        k.stratum.0 as int,
                        k.object_index as int,
                        t.num_strata as int,
                        t.num_rules as int,
                    );
                }
            }
        }
        assert(c.open_regions() =~= Seq::<RowKey>::empty());
        assert(c.open_nested() =~= Seq::<u64>::empty());
        c
    }

    /// Apply one update at `k`.
    fn apply(&mut self, k: RowKey, delta: Delta)
        requires
            old(self).wf(),
            is_dense_key(k) ==> old(self).dense_in_range(k),
            delta_fits(old(self).row(k), delta),
        ensures
            final(self).wf(),
            final(self).num_strata() == old(self).num_strata(),
            final(self).num_mrules() == old(self).num_mrules(),
            final(self).num_prules() == old(self).num_prules(),
            final(self).open_regions() == old(self).open_regions(),
            final(self).open_nested() == old(self).open_nested(),
            final(self).table() == old(self).table().insert(k, apply_delta(old(self).row(k), delta)),
    {
        let ghost old_self = *self;
        if (k.kind == ObjectKind::MorphRule || k.kind == ObjectKind::PhonRule) && k.allomorph == ALLOMORPH_NONE {
            if k.kind == ObjectKind::MorphRule {
                self.morph.update(k.direction, k.stratum, k.object_index, delta);
            } else {
                self.phon.update(k.direction, k.stratum, k.object_index, delta);
            }
            proof {
                let t0 = if k.kind == ObjectKind::MorphRule { old_self.morph } else { old_self.phon };
                let ns = t0.num_strata as int;
                let nr = t0.num_rules as int;
                let i0 = dense_index(k.direction, k.stratum.0 as int, k.object_index as int, ns, nr);
                lemma_dense_index_bounds(k.direction, k.stratum.0 as int, k.object_index as int, ns, nr);
                assert forall|k2: RowKey| #[trigger] self.row(k2) == old_self.table().insert(k, apply_delta(old_self.row(k), delta))[k2] by {
                    if k2 != k && is_dense_key(k2) && k2.kind == k.kind {
                        if t0.in_range(k2.stratum.0, k2.object_index) {
                            lemma_dense_index_bounds(k2.direction, k2.stratum.0 as int, k2.object_index as int, ns, nr);
                            let i2 = dense_index(k2.direction, k2.stratum.0 as int, k2.object_index as int, ns, nr);
                            if i0 == i2 {
                                lemma_dense_index_injective(k.direction, k.stratum.0 as int, k.object_index as int,
                                    k2.direction, k2.stratum.0 as int, k2.object_index as int, ns, nr);
                                assert(k.stratum == k2.stratum);
                            }
                            assert(i0 != i2);
                        }
                    }
                }
                assert(self.table() =~= old_self.table().insert(k, apply_delta(old_self.row(k), delta)));
            }
        } else {
            let r = rank(&k);
            let cur = match fx_get_u128(&self.sparse, r) {
                Some(entry) => entry.1,
                None => Counters::default(),
            };
            let c2 = delta_apply(cur, delta);
            fx_insert_u128(&mut self.sparse, r, (k, c2));
            proof {
                assert forall|k2: RowKey| #[trigger] self.row(k2) == old_self.table().insert(k, apply_delta(old_self.row(k), delta))[k2] by {
                    if !is_dense_key(k2) && key_rank(k2) as u128 == r {
                        assert(key_rank(k2) == key_rank(k));
                        lemma_rank_injective(k2, k);
                    }
                }
                assert(self.table() =~= old_self.table().insert(k, apply_delta(old_self.row(k), delta)));
            }
        }
    }
}

/// `after` is `before` with one update applied at `k`, everything else unchanged.
pub open spec fn recorded(before: StatsCollector, after: StatsCollector, k: RowKey, d: Delta) -> bool {
    &&& after.wf()
    &&& after.num_strata() == before.num_strata()
    &&& after.num_mrules() == before.num_mrules()
    &&& after.num_prules() == before.num_prules()
    &&& after.open_regions() == before.open_regions()
    &&& after.open_nested() == before.open_nested()
    &&& after.table() == before.table().insert(k, apply_delta(before.row(k), d))
}

/// The key of a rule-level morphological-rule row.
pub open spec fn mrule_key(stratum: StratumId, id: MRuleId, direction: Direction) -> RowKey {
    RowKey { kind: ObjectKind::MorphRule, stratum, object_index: id.0, allomorph: ALLOMORPH_NONE, direction }
}

/// The key of a rule-level phonological-rule row.
pub open spec fn prule_key(stratum: StratumId, id: PRuleId, direction: Direction) -> RowKey {
    RowKey { kind: ObjectKind::PhonRule, stratum, object_index: id.0, allomorph: ALLOMORPH_NONE, direction }
}

/// The key of a pseudo-object row (root index, guesser, overlay): object 0, no allomorph, analysis.
pub open spec fn pseudo_key(kind: ObjectKind, stratum: StratumId) -> RowKey {
    RowKey { kind, stratum, object_index: 0, allomorph: ALLOMORPH_NONE, direction: Direction::Analysis }
}

impl StatsCollector {
    /// One morphological-rule attempt: `attempts += 1`, `work += segments`.
    pub fn record_mrule_attempt(&mut self, stratum: StratumId, id: MRuleId, direction: Direction, segments: u64)
        requires
            old(self).wf(),
            old(self).dense_in_range(mrule_key(stratum, id, direction)),
            delta_fits(old(self).row(mrule_key(stratum, id, direction)), Delta::AttemptWork(segments)),
        ensures
            recorded(*old(self), *final(self), mrule_key(stratum, id, direction), Delta::AttemptWork(segments)),
    {
        let k = RowKey { kind: ObjectKind::MorphRule, stratum, object_index: id.0, allomorph: ALLOMORPH_NONE, direction };
        self.apply(k, Delta::AttemptWork(segments));
    }

    /// One morphological-rule outcome: `outputs += n`, and `not_applied += 1` when `n == 0`.
    pub fn record_mrule_outcome(&mut self, stratum: StratumId, id: MRuleId, direction: Direction, outputs: u64)
        requires
            old(self).wf(),
            old(self).dense_in_range(mrule_key(stratum, id, direction)),
            delta_fits(old(self).row(mrule_key(stratum, id, direction)), Delta::Outcome(outputs)),
        ensures
            recorded(*old(self), *final(self), mrule_key(stratum, id, direction), Delta::Outcome(outputs)),
    {
        let k = RowKey { kind: ObjectKind::MorphRule, stratum, object_index: id.0, allomorph: ALLOMORPH_NONE, direction };
        self.apply(k, Delta::Outcome(outputs));
    }

    /// One phonological-rule attempt.
    pub fn record_prule_attempt(&mut self, stratum: StratumId, id: PRuleId, direction: Direction, segments: u64)
        requires
            old(self).wf(),
            old(self).dense_in_range(prule_key(stratum, id, direction)),
            delta_fits(old(self).row(prule_key(stratum, id, direction)), Delta::AttemptWork(segments)),
        ensures
            recorded(*old(self), *final(self), prule_key(stratum, id, direction), Delta::AttemptWork(segments)),
    {
        let k = RowKey { kind: ObjectKind::PhonRule, stratum, object_index: id.0, allomorph: ALLOMORPH_NONE, direction };
        self.apply(k, Delta::AttemptWork(segments));
    }

    /// One phonological-rule outcome.
    pub fn record_prule_outcome(&mut self, stratum: StratumId, id: PRuleId, direction: Direction, outputs: u64)
        requires
            old(self).wf(),
            old(self).dense_in_range(prule_key(stratum, id, direction)),
            delta_fits(old(self).row(prule_key(stratum, id, direction)), Delta::Outcome(outputs)),
        ensures
            recorded(*old(self), *final(self), prule_key(stratum, id, direction), Delta::Outcome(outputs)),
    {
        let k = RowKey { kind: ObjectKind::PhonRule, stratum, object_index: id.0, allomorph: ALLOMORPH_NONE, direction };
        self.apply(k, Delta::Outcome(outputs));
    }

    /// The rule invocation's single `attempts` tick when at least one allomorph was reached.
    pub fn record_mrule_reach_attempt(&mut self, stratum: StratumId, id: MRuleId, direction: Direction)
        requires
            old(self).wf(),
            old(self).dense_in_range(mrule_key(stratum, id, direction)),
            delta_fits(old(self).row(mrule_key(stratum, id, direction)), Delta::Attempt),
        ensures
            recorded(*old(self), *final(self), mrule_key(stratum, id, direction), Delta::Attempt),
    {
        let k = RowKey { kind: ObjectKind::MorphRule, stratum, object_index: id.0, allomorph: ALLOMORPH_NONE, direction };
        self.apply(k, Delta::Attempt);
    }

    /// One allomorph's own match cost and outcome, on its own allomorph row.
    pub fn record_mrule_allomorph_try(
        &mut self,
        stratum: StratumId,
        id: MRuleId,
        allomorph: u32,
        direction: Direction,
        segments: u64,
        outputs: u64,
    )
        requires
            old(self).wf(),
            allomorph != ALLOMORPH_NONE,
            delta_fits(
                old(self).row(RowKey { kind: ObjectKind::MorphRule, stratum, object_index: id.0, allomorph, direction }),
                Delta::AllomorphTry(segments, outputs),
            ),
        ensures
            recorded(
                *old(self),
                *final(self),
                RowKey { kind: ObjectKind::MorphRule, stratum, object_index: id.0, allomorph, direction },
                Delta::AllomorphTry(segments, outputs),
            ),
    {
        let k = RowKey { kind: ObjectKind::MorphRule, stratum, object_index: id.0, allomorph, direction };
        self.apply(k, Delta::AllomorphTry(segments, outputs));
    }

    /// The invocation reached allomorphs but none produced output: `not_applied += 1` on the rule row.
    pub fn record_mrule_invocation_not_applied(&mut self, stratum: StratumId, id: MRuleId, direction: Direction)
        requires
            old(self).wf(),
            old(self).dense_in_range(mrule_key(stratum, id, direction)),
            delta_fits(old(self).row(mrule_key(stratum, id, direction)), Delta::NotApplied),
        ensures
            recorded(*old(self), *final(self), mrule_key(stratum, id, direction), Delta::NotApplied),
    {
        let k = RowKey { kind: ObjectKind::MorphRule, stratum, object_index: id.0, allomorph: ALLOMORPH_NONE, direction };
        self.apply(k, Delta::NotApplied);
    }

    /// An analysis candidate's lookup found no root; charged to the last rule applied (analysis).
    pub fn record_no_root_mrule(&mut self, stratum: StratumId, id: MRuleId)
        requires
            old(self).wf(),
            old(self).dense_in_range(mrule_key(stratum, id, Direction::Analysis)),
            delta_fits(old(self).row(mrule_key(stratum, id, Direction::Analysis)), Delta::NoRoot),
        ensures
            recorded(*old(self), *final(self), mrule_key(stratum, id, Direction::Analysis), Delta::NoRoot),
    {
        let k = RowKey {
            kind: ObjectKind::MorphRule,
            stratum,
            object_index: id.0,
            allomorph: ALLOMORPH_NONE,
            direction: Direction::Analysis,
        };
        self.apply(k, Delta::NoRoot);
    }

    /// One lexical-entry candidate materialized (analysis).
    pub fn record_lex_entry_attempt(&mut self, stratum: StratumId, entry: LexEntryId, allomorph: u32)
        requires
            old(self).wf(),
            delta_fits(
                old(self).row(RowKey { kind: ObjectKind::LexEntry, stratum, object_index: entry.0, allomorph, direction: Direction::Analysis }),
                Delta::Attempt,
            ),
        ensures
            recorded(
                *old(self),
                *final(self),
                RowKey { kind: ObjectKind::LexEntry, stratum, object_index: entry.0, allomorph, direction: Direction::Analysis },
                Delta::Attempt,
            ),
    {
        let k = RowKey { kind: ObjectKind::LexEntry, stratum, object_index: entry.0, allomorph, direction: Direction::Analysis };
        self.apply(k, Delta::Attempt);
    }

    /// One walk of a stratum's root trie: `attempts += 1`, `work += segments`.
    pub fn record_root_index_attempt(&mut self, stratum: StratumId, segments: u64)
        requires
            old(self).wf(),
            delta_fits(old(self).row(pseudo_key(ObjectKind::RootIndex, stratum)), Delta::AttemptWork(segments)),
        ensures
            recorded(*old(self), *final(self), pseudo_key(ObjectKind::RootIndex, stratum), Delta::AttemptWork(segments)),
    {
        let k = RowKey {
            kind: ObjectKind::RootIndex,
            stratum,
            object_index: 0,
            allomorph: ALLOMORPH_NONE,
            direction: Direction::Analysis,
        };
        self.apply(k, Delta::AttemptWork(segments));
    }

    /// `no_root` charged to the stratum's own root lookup.
    pub fn record_no_root_root_index(&mut self, stratum: StratumId)
        requires
            old(self).wf(),
            delta_fits(old(self).row(pseudo_key(ObjectKind::RootIndex, stratum)), Delta::NoRoot),
        ensures
            recorded(*old(self), *final(self), pseudo_key(ObjectKind::RootIndex, stratum), Delta::NoRoot),
    {
        let k = RowKey {
            kind: ObjectKind::RootIndex,
            stratum,
            object_index: 0,
            allomorph: ALLOMORPH_NONE,
            direction: Direction::Analysis,
        };
        self.apply(k, Delta::NoRoot);
    }

    /// One lexical-pattern guess attempt.
    pub fn record_guesser_attempt(&mut self, stratum: StratumId, segments: u64)
        requires
            old(self).wf(),
            delta_fits(old(self).row(pseudo_key(ObjectKind::Guesser, stratum)), Delta::AttemptWork(segments)),
        ensures
            recorded(*old(self), *final(self), pseudo_key(ObjectKind::Guesser, stratum), Delta::AttemptWork(segments)),
    {
        let k = RowKey {
            kind: ObjectKind::Guesser,
            stratum,
            object_index: 0,
            allomorph: ALLOMORPH_NONE,
            direction: Direction::Analysis,
        };
        self.apply(k, Delta::AttemptWork(segments));
    }

    /// One supplied-root overlay candidate materialized.
    pub fn record_overlay_attempt(&mut self, stratum: StratumId, segments: u64)
        requires
            old(self).wf(),
            delta_fits(old(self).row(pseudo_key(ObjectKind::Overlay, stratum)), Delta::AttemptWork(segments)),
        ensures
            recorded(*old(self), *final(self), pseudo_key(ObjectKind::Overlay, stratum), Delta::AttemptWork(segments)),
    {
        let k = RowKey {
            kind: ObjectKind::Overlay,
            stratum,
            object_index: 0,
            allomorph: ALLOMORPH_NONE,
            direction: Direction::Analysis,
        };
        self.apply(k, Delta::AttemptWork(segments));
    }

    /// A root rebuilt by synthesis did not match the actual word (synthesis).
    pub fn record_surface_mismatch(&mut self, stratum: StratumId, entry: LexEntryId, allomorph: u32)
        requires
            old(self).wf(),
            delta_fits(
                old(self).row(RowKey { kind: ObjectKind::LexEntry, stratum, object_index: entry.0, allomorph, direction: Direction::Synthesis }),
                Delta::SurfaceMismatch,
            ),
        ensures
            recorded(
                *old(self),
                *final(self),
                RowKey { kind: ObjectKind::LexEntry, stratum, object_index: entry.0, allomorph, direction: Direction::Synthesis },
                Delta::SurfaceMismatch,
            ),
    {
        let k = RowKey { kind: ObjectKind::LexEntry, stratum, object_index: entry.0, allomorph, direction: Direction::Synthesis };
        self.apply(k, Delta::SurfaceMismatch);
    }

    /// A morphological rule appeared in a surviving analysis (synthesis).
    pub fn record_use_mrule(&mut self, stratum: StratumId, id: MRuleId)
        requires
            old(self).wf(),
            old(self).dense_in_range(mrule_key(stratum, id, Direction::Synthesis)),
            delta_fits(old(self).row(mrule_key(stratum, id, Direction::Synthesis)), Delta::Use),
        ensures
            recorded(*old(self), *final(self), mrule_key(stratum, id, Direction::Synthesis), Delta::Use),
    {
        let k = RowKey {
            kind: ObjectKind::MorphRule,
            stratum,
            object_index: id.0,
            allomorph: ALLOMORPH_NONE,
            direction: Direction::Synthesis,
        };
        self.apply(k, Delta::Use);
    }

    /// A lexical entry was the resolved root of a surviving analysis (synthesis).
    pub fn record_use_lex_entry(&mut self, stratum: StratumId, entry: LexEntryId, allomorph: u32)
        requires
            old(self).wf(),
            delta_fits(
                old(self).row(RowKey { kind: ObjectKind::LexEntry, stratum, object_index: entry.0, allomorph, direction: Direction::Synthesis }),
                Delta::Use,
            ),
        ensures
            recorded(
                *old(self),
                *final(self),
                RowKey { kind: ObjectKind::LexEntry, stratum, object_index: entry.0, allomorph, direction: Direction::Synthesis },
                Delta::Use,
            ),
    {
        let k = RowKey { kind: ObjectKind::LexEntry, stratum, object_index: entry.0, allomorph, direction: Direction::Synthesis };
        self.apply(k, Delta::Use);
    }

    /// Enter a self-time region booked at `(kind, stratum, object_index, allomorph, direction)` on
    /// exit. Nesting-aware: a region's elapsed time is subtracted from its enclosing region's own.
    pub fn time_enter(
        &mut self,
        kind: ObjectKind,
        stratum: StratumId,
        object_index: u32,
        allomorph: u32,
        direction: Direction,
    ) -> (g: ObjectTimeGuard)
        ensures
            final(self).wf() == old(self).wf(),
            final(self).num_strata() == old(self).num_strata(),
            final(self).num_mrules() == old(self).num_mrules(),
            final(self).num_prules() == old(self).num_prules(),
            final(self).table() == old(self).table(),
            final(self).open_regions() == old(self).open_regions().push(RowKey { kind, stratum, object_index, allomorph, direction }),
            final(self).open_nested() == old(self).open_nested().push(0u64),
            g.depth() == final(self).open_regions().len(),
    {
        let key = RowKey { kind, stratum, object_index, allomorph, direction };
        let start = instant_now();
        self.obj_time_stack.push(ObjTimeFrame { start, nested_ns: 0, key });
        let ghost old_self = *old(self);
        assert(self.morph == old_self.morph && self.phon == old_self.phon && self.sparse == old_self.sparse);
        assert(self.open_regions() =~= old_self.open_regions().push(key));
        assert(self.open_nested() =~= old_self.open_nested().push(0u64));
        assert(self.table() =~= old_self.table());
        ObjectTimeGuard { depth: self.obj_time_stack.len() }
    }

    /// Close the innermost region: its self time (elapsed minus nested regions' elapsed) is added to
    /// its row's `self_time_ns`, and its elapsed time is charged to the enclosing region as nested.
    /// The elapsed time is read off the clock when the region closes.
    pub fn time_exit(&mut self)
        requires
            old(self).wf(),
            old(self).open_regions().len() > 0,
            is_dense_key(old(self).open_regions().last()) ==> old(self).dense_in_range(old(self).open_regions().last()),
        ensures
            exists|elapsed_ns: u64| region_closed(*old(self), *final(self), elapsed_ns),
    {
        let n = self.obj_time_stack.len();
        let elapsed = instant_elapsed(&self.obj_time_stack[n - 1].start);
        let nanos = duration_as_nanos(&elapsed);
        let elapsed_ns: u64 = #[verifier::truncate] (nanos as u64);
        self.close_region(elapsed_ns);
    }

    /// Close the innermost region, `elapsed_ns` after it was entered: the region's row gains
    /// `elapsed_ns` minus the time of the regions nested inside it (saturating at zero), and the
    /// enclosing region, if any, has `elapsed_ns` added to its nested time.
    pub fn close_region(&mut self, elapsed_ns: u64)
        requires
            old(self).wf(),
            old(self).open_regions().len() > 0,
            is_dense_key(old(self).open_regions().last()) ==> old(self).dense_in_range(old(self).open_regions().last()),
        ensures
            region_closed(*old(self), *final(self), elapsed_ns),
    {
        let ghost old_regions = self.open_regions();
        let ghost old_nested = self.open_nested();
        let frame = self.obj_time_stack.pop().unwrap();
        let self_ns = elapsed_ns.saturating_sub(frame.nested_ns);
        let n = self.obj_time_stack.len();
        if n > 0 {
            let parent = &self.obj_time_stack[n - 1];
            let updated = ObjTimeFrame {
                start: parent.start,
                nested_ns: parent.nested_ns.wrapping_add(elapsed_ns),
                key: parent.key,
            };
            self.obj_time_stack.set(n - 1, updated);
        }
        assert(self.open_regions() =~= old_regions.drop_last());
        assert(self.open_nested() =~= nested_after_close(old_nested, elapsed_ns));
        assert(old_regions.last() == frame.key);
        assert(old_nested.last() == frame.nested_ns);
        let ghost mid = *self;
        assert(mid.morph == old(self).morph && mid.phon == old(self).phon && mid.sparse == old(self).sparse);
        assert(mid.row(frame.key) == old(self).row(frame.key));
        assert(mid.table() =~= old(self).table());
        self.apply(frame.key, Delta::SelfTime(self_ns));
        assert(self.table() == old(self).table().insert(frame.key, apply_delta(old(self).row(frame.key), Delta::SelfTime(self_ns))));
    }
}

/// The nested tallies after the innermost region, `elapsed` long, closes: it is dropped, and its
/// elapsed time is added (wrapping) to the enclosing region's tally.
pub open spec fn nested_after_close(nested: Seq<u64>, elapsed: u64) -> Seq<u64> {
    if nested.len() >= 2 {
        nested.drop_last().update(
            nested.len() - 2,
            ((nested[nested.len() - 2] + elapsed) % 0x1_0000_0000_0000_0000) as u64,
        )
    } else {
        nested.drop_last()
    }
}

/// `after` is `before` with its innermost region closed `elapsed` after it opened: the region's
/// row gains `elapsed` minus its nested time (saturating at zero), the region is popped, and its
/// elapsed time is charged to the enclosing region.
pub open spec fn region_closed(before: StatsCollector, after: StatsCollector, elapsed: u64) -> bool {
    let k = before.open_regions().last();
    let nested = before.open_nested().last();
    let self_ns = (if elapsed >= nested { elapsed - nested } else { 0 }) as u64;
    &&& after.wf()
    &&& after.num_strata() == before.num_strata()
    &&& after.num_mrules() == before.num_mrules()
    &&& after.num_prules() == before.num_prules()
    &&& after.open_regions() == before.open_regions().drop_last()
    &&& after.open_nested() == nested_after_close(before.open_nested(), elapsed)
    &&& after.table() == before.table().insert(k, apply_delta(before.row(k), Delta::SelfTime(self_ns)))
}

/// Nested self time is never counted twice: when a region that has just been entered inside another
/// closes `inner_ns` after it opened, and the enclosing region (with nothing nested in it before)
/// then closes `outer_ns` after it opened, the inner row gains `inner_ns` and the outer row gains
/// `outer_ns - inner_ns` (zero if negative).
pub proof fn law_nested_region_time_is_subtracted_from_its_parent(
    s0: StatsCollector,
    s1: StatsCollector,
    s2: StatsCollector,
    inner_ns: u64,
    outer_ns: u64,
)
    requires
        s0.wf(),
        s0.open_regions().len() >= 2,
        s0.open_nested().last() == 0,
        s0.open_nested()[s0.open_nested().len() - 2] == 0,
        s0.open_regions().last() != s0.open_regions()[s0.open_regions().len() - 2],
        region_closed(s0, s1, inner_ns),
        region_closed(s1, s2, outer_ns),
    ensures
        ({
            let inner = s0.open_regions().last();
            let outer = s0.open_regions()[s0.open_regions().len() - 2];
            &&& s2.row(inner) == apply_delta(s0.row(inner), Delta::SelfTime(inner_ns))
            &&& s2.row(outer) == apply_delta(
                s0.row(outer),
                Delta::SelfTime((if outer_ns >= inner_ns { outer_ns - inner_ns } else { 0 }) as u64),
            )
            &&& s2.open_regions() == s0.open_regions().drop_last().drop_last()
        }),
{
    let inner = s0.open_regions().last();
    let outer = s0.open_regions()[s0.open_regions().len() - 2];
    assert(s0.open_nested().len() == s0.open_regions().len());
    assert(s1.open_regions().last() == outer);
    assert(s1.open_nested().last() == inner_ns);
    assert(s1.table()[inner] == s1.row(inner));
    assert(s2.table()[inner] == s2.row(inner));
    assert(s2.table()[outer] == s2.row(outer));
    assert(s1.table()[outer] == s1.row(outer));
    assert(s0.table()[outer] == s0.row(outer));
}

impl ObjectTimeGuard {
    pub closed spec fn depth(&self) -> nat {
        self.depth as nat
    }

    /// Close the region this guard opened (see `StatsCollector::time_exit`).
    pub fn exit(self, stats: &mut StatsCollector)
        requires
            old(stats).wf(),
            old(stats).open_regions().len() > 0,
            is_dense_key(old(stats).open_regions().last()) ==> old(stats).dense_in_range(old(stats).open_regions().last()),
        ensures
            exists|elapsed_ns: u64| region_closed(*old(stats), *final(stats), elapsed_ns),
    {
        stats.time_exit();
    }
}

/// The key of a row.
pub open spec fn row_key(r: StatsRow) -> RowKey {
    RowKey { kind: r.kind, stratum: r.stratum, object_index: r.object_index, allomorph: r.allomorph, direction: r.direction }
}

/// The key at flat position `i` of a dense table of `kind` spanning `ns` strata and `nr` rules.
pub open spec fn dense_key_at(kind: ObjectKind, ns: int, nr: int, i: int) -> RowKey {
    let per = ns * nr;
    RowKey {
        kind,
        stratum: StratumId(((i % per) / nr) as u8),
        object_index: ((i % per) % nr) as u32,
        allomorph: ALLOMORPH_NONE,
        direction: if i / per == 0 { Direction::Analysis } else { Direction::Synthesis },
    }
}

/// The non-zero rows among the first `n` flat positions of a dense table, in table order.
pub open spec fn dense_rows(t: Map<RowKey, Counters>, kind: ObjectKind, ns: int, nr: int, n: nat) -> Seq<StatsRow>
    decreases n,
{
    if n == 0 {
        Seq::empty()
    } else {
        let prev = dense_rows(t, kind, ns, nr, (n - 1) as nat);
        let k = dense_key_at(kind, ns, nr, n - 1);
        if t[k] != zero_counters() { prev.push(row_of(k, t[k])) } else { prev }
    }
}

proof fn lemma_dense_key_at(kind: ObjectKind, ns: int, nr: int, i: int)
    requires
        1 <= ns <= 256,
        1 <= nr <= 0x1_0000_0000,
        0 <= i < 2 * ns * nr,
    ensures
        ({
            let k = dense_key_at(kind, ns, nr, i);
            &&& k.stratum.0 == (i % (ns * nr)) / nr
            &&& k.object_index == (i % (ns * nr)) % nr
            &&& k.stratum.0 < ns
            &&& k.object_index < nr
            &&& dense_index(k.direction, k.stratum.0 as int, k.object_index as int, ns, nr) == i
        }),
{
    let per = ns * nr;
    assert(per >= 1) by (nonlinear_arith)
        requires ns >= 1, nr >= 1, per == ns * nr;
    assert(2 * ns * nr == 2 * per) by (nonlinear_arith)
        requires per == ns * nr;
    let q = i / per;
    let rem = i % per;
    vstd::arithmetic::div_mod::lemma_fundamental_div_mod(i, per);
    vstd::arithmetic::div_mod::lemma_mod_bound(i, per);
    assert(i == per * q + rem);
    assert(0 <= q < 2) by (nonlinear_arith)
        requires i == per * q + rem, 0 <= rem < per, 0 <= i < 2 * per, per >= 1;
    let s = rem / nr;
    let r = rem % nr;
    vstd::arithmetic::div_mod::lemma_fundamental_div_mod(rem, nr);
    vstd::arithmetic::div_mod::lemma_mod_bound(rem, nr);
    assert(0 <= s < ns) by (nonlinear_arith)
        requires rem == nr * s + r, 0 <= r < nr, 0 <= rem < per, per == ns * nr, nr >= 1;
    let k = dense_key_at(kind, ns, nr, i);
    assert(k.stratum.0 == s);
    assert(k.object_index == r);
    assert(dir_code(k.direction) == q);
    assert(dense_index(k.direction, s, r, ns, nr) == q * per + s * nr + r);
    assert(q * per == per * q) by (nonlinear_arith);
    assert(s * nr == nr * s) by (nonlinear_arith);
}

/// A row's position in the order of `(kind, stratum, object_index, allomorph, direction)`.
pub open spec fn row_rank(r: StatsRow) -> int {
    key_rank(row_key(r))
}

/// Rows strictly ascending by key.
pub open spec fn sorted_by_rank(s: Seq<StatsRow>) -> bool {
    forall|i: int, j: int| 0 <= i < j < s.len() ==> row_rank(s[i]) < row_rank(s[j])
}

/// `s` holds exactly the non-zero rows of the sparse keys of `t`, ascending by key.
pub open spec fn sparse_rows_ok(t: Map<RowKey, Counters>, s: Seq<StatsRow>) -> bool {
    &&& sorted_by_rank(s)
    &&& forall|i: int| 0 <= i < s.len() ==> sparse_row_ok(t, #[trigger] s[i])
    &&& forall|k: RowKey| !is_dense_key(k) && #[trigger] t[k] != zero_counters() ==> s.contains(row_of(k, t[k]))
}

/// `r` is a non-zero sparse row carrying its key's counters in `t`.
pub open spec fn sparse_row_ok(t: Map<RowKey, Counters>, r: StatsRow) -> bool {
    &&& !is_dense_key(row_key(r))
    &&& r.counters == t[row_key(r)]
    &&& r.counters != zero_counters()
}

impl StatsCollector {
    /// The rows `rows` returns, before the sparse part: the morphological table's non-zero rows,
    /// then the phonological table's.
    pub open spec fn dense_part(&self) -> Seq<StatsRow> {
        dense_rows(self.table(), ObjectKind::MorphRule, self.num_strata() as int, self.num_mrules() as int,
            (2 * self.num_strata() * self.num_mrules()) as nat)
            + dense_rows(self.table(), ObjectKind::PhonRule, self.num_strata() as int, self.num_prules() as int,
            (2 * self.num_strata() * self.num_prules()) as nat)
    }

    proof fn lemma_dense_cells(&self, kind: ObjectKind, table: DenseTable)
        requires
            self.wf(),
            (kind == ObjectKind::MorphRule && table == self.morph) || (kind == ObjectKind::PhonRule && table == self.phon),
        ensures
            forall|i: int| 0 <= i < table.cells@.len() ==> self.table()[dense_key_at(kind, table.num_strata as int, table.num_rules as int, i)]
                == #[trigger] table.cells@[i],
    {
        assert forall|i: int| 0 <= i < table.cells@.len() implies self.table()[dense_key_at(kind, table.num_strata as int, table.num_rules as int, i)]
            == #[trigger] table.cells@[i] by {
            lemma_dense_key_at(kind, table.num_strata as int, table.num_rules as int, i);
        }
    }

    /// Every non-zero row: the dense rows first, in table order (direction, stratum, rule), then the
    /// sparse rows ascending by `(kind, stratum, object_index, allomorph, direction)`.
    pub fn rows(&self) -> (out: Vec<StatsRow>)
        requires
            self.wf(),
        ensures
            self.dense_part().len() <= out@.len(),
            out@.subrange(0, self.dense_part().len() as int) == self.dense_part(),
            sparse_rows_ok(self.table(), out@.skip(self.dense_part().len() as int)),
    {
        let mut out: Vec<StatsRow> = Vec::new();
        proof {
            self.lemma_dense_cells(ObjectKind::MorphRule, self.morph);
            self.lemma_dense_cells(ObjectKind::PhonRule, self.phon);
        }
        collect_rows(&self.morph, ObjectKind::MorphRule, &mut out, Ghost(self.table()));
        collect_rows(&self.phon, ObjectKind::PhonRule, &mut out, Ghost(self.table()));
        let ghost dense = out@;
        assert(dense == self.dense_part());
        let sorted = self.sparse_rows();
        let ghost sp = sorted@;
        let mut sorted = sorted;
        out.append(&mut sorted);
        assert(out@.subrange(0, dense.len() as int) =~= dense);
        assert(out@.skip(dense.len() as int) =~= sp);
        out
    }

    /// The non-zero sparse rows, ascending by key.
    fn sparse_rows(&self) -> (sorted: Vec<StatsRow>)
        requires
            self.wf(),
        ensures
            sparse_rows_ok(self.table(), sorted@),
    {
        let es = fx_entries_u128(&self.sparse);
        let mut sorted: Vec<StatsRow> = Vec::new();
        let mut i: usize = 0;
        while i < es.len()
            invariant
                self.wf(),
                i <= es@.len(),
                forall|j: int| 0 <= j < es@.len() ==> self.sparse@.contains_key(#[trigger] es@[j].0) && self.sparse@[es@[j].0] == es@[j].1,
                forall|j1: int, j2: int| 0 <= j1 < j2 < es@.len() ==> es@[j1].0 != es@[j2].0,
                sorted_by_rank(sorted@),
                forall|a: int| 0 <= a < sorted@.len() ==> sparse_row_ok(self.table(), #[trigger] sorted@[a]),
                forall|a: int| #![trigger sorted@[a]] 0 <= a < sorted@.len() ==> exists|j: int| 0 <= j < i && #[trigger] es@[j].0 == row_rank(sorted@[a]),
                forall|j: int| 0 <= j < i && #[trigger] es@[j].1.1 != zero_counters() ==> sorted@.contains(row_of(es@[j].1.0, es@[j].1.1)),
            decreases es@.len() - i,
        {
            let (r, (key, counters)) = es[i];
            proof {
                assert(self.sparse@.contains_key(es@[i as int].0));
                assert(key_rank(key) == r);
                assert(!is_dense_key(key));
                assert(self.table()[key] == counters);
            }
            if !counters.is_zero() {
                let row = StatsRow {
                    kind: key.kind,
                    object_index: key.object_index,
                    stratum: key.stratum,
                    allomorph: key.allomorph,
                    direction: key.direction,
                    counters,
                };
                assert(row == row_of(key, counters));
                proof {
                    assert forall|a: int| 0 <= a < sorted@.len() implies row_rank(sorted@[a]) != row_rank(row) by {
                        let j = choose|j: int| 0 <= j < i && #[trigger] es@[j].0 == row_rank(sorted@[a]);
                        assert(es@[j].0 != es@[i as int].0);
                    }
                }
                let ghost before = sorted@;
                insert_sorted(&mut sorted, row);
                proof {
                    assert forall|a: int| 0 <= a < sorted@.len() implies sparse_row_ok(self.table(), #[trigger] sorted@[a])
                        && exists|j: int| 0 <= j < i + 1 && #[trigger] es@[j].0 == row_rank(sorted@[a]) by {
                        if sorted@[a] == row {
                            assert(es@[i as int].0 == row_rank(sorted@[a]));
                        } else {
                            let b = choose|b: int| 0 <= b < before.len() && before[b] == sorted@[a];
                            assert(sparse_row_ok(self.table(), before[b]));
                            let j = choose|j: int| 0 <= j < i && #[trigger] es@[j].0 == row_rank(before[b]);
                            assert(es@[j].0 == row_rank(sorted@[a]));
                        }
                    }
                    assert forall|j: int| 0 <= j < i + 1 && #[trigger] es@[j].1.1 != zero_counters() implies sorted@.contains(
                        row_of(es@[j].1.0, es@[j].1.1),
                    ) by {
                        if j < i {
                            let b = choose|b: int| 0 <= b < before.len() && before[b] == row_of(es@[j].1.0, es@[j].1.1);
                            assert(sorted@.contains(before[b]));
                        }
                    }
                }
            } else {
                proof {
                    assert forall|a: int| #![trigger sorted@[a]] 0 <= a < sorted@.len() implies exists|j: int| 0 <= j < i + 1 && #[trigger] es@[j].0
                        == row_rank(sorted@[a]) by {
                        let j = choose|j: int| 0 <= j < i && #[trigger] es@[j].0 == row_rank(sorted@[a]);
                    }
                }
            }
            i = i + 1;
        }
        proof {
            assert forall|k: RowKey| !is_dense_key(k) && #[trigger] self.table()[k] != zero_counters() implies sorted@.contains(
                row_of(k, self.table()[k]),
            ) by {
                assert(self.row(k) != zero_counters());
                let r = key_rank(k) as u128;
                assert(self.sparse@.contains_key(r));
                let j = choose|j: int| 0 <= j < es@.len() && #[trigger] es@[j].0 == r;
                assert(self.sparse@.contains_key(es@[j].0));
                lemma_rank_injective(es@[j].1.0, k);
                assert(es@[j].1.1 != zero_counters());
            }
        }
        sorted
    }
}

/// Insert `row` into a vector ascending by key, keeping it ascending.
#[verifier::spinoff_prover]
#[verifier::rlimit(40)]
fn insert_sorted(sorted: &mut Vec<StatsRow>, row: StatsRow)
    requires
        sorted_by_rank(old(sorted)@),
        forall|a: int| 0 <= a < old(sorted)@.len() ==> row_rank(#[trigger] old(sorted)@[a]) != row_rank(row),
    ensures
        sorted_by_rank(final(sorted)@),
        final(sorted)@.contains(row),
        forall|a: int| 0 <= a < old(sorted)@.len() ==> final(sorted)@.contains(#[trigger] old(sorted)@[a]),
        forall|a: int| 0 <= a < final(sorted)@.len() ==> #[trigger] final(sorted)@[a] == row || old(sorted)@.contains(
            final(sorted)@[a],
        ),
{
    let kr = rank(&row_key_of(&row));
    let mut pos: usize = 0;
    while pos < sorted.len() && rank(&row_key_of(&sorted[pos])) < kr
        invariant
            pos <= sorted@.len(),
            kr == row_rank(row),
            forall|a: int| 0 <= a < pos ==> row_rank(#[trigger] sorted@[a]) < kr,
        decreases sorted@.len() - pos,
    {
        pos = pos + 1;
    }
    let ghost before = sorted@;
    sorted.insert(pos, row);
    proof {
        before.insert_ensures(pos as int, row);
        assert(sorted@[pos as int] == row);
        assert forall|a: int, b: int| 0 <= a < b < sorted@.len() implies row_rank(sorted@[a]) < row_rank(sorted@[b]) by {
            if b < pos {
            } else if b == pos {
            } else if a < pos {
                assert(sorted@[b] == before[b - 1]);
            } else if a == pos {
                assert(sorted@[b] == before[b - 1]);
                assert(row_rank(before[pos as int]) >= kr);
                if b - 1 > pos {
                    assert(row_rank(before[pos as int]) < row_rank(before[b - 1]));
                }
            } else {
                assert(sorted@[a] == before[a - 1]);
                assert(sorted@[b] == before[b - 1]);
            }
        }
        assert forall|a: int| 0 <= a < before.len() implies sorted@.contains(#[trigger] before[a]) by {
            if a < pos {
                assert(sorted@[a] == before[a]);
            } else {
                assert(sorted@[a + 1] == before[a]);
            }
        }
        assert forall|a: int| 0 <= a < sorted@.len() implies #[trigger] sorted@[a] == row || before.contains(sorted@[a]) by {
            if a < pos {
                assert(sorted@[a] == before[a]);
            } else if a > pos {
                assert(sorted@[a] == before[a - 1]);
            }
        }
    }
}

fn row_key_of(r: &StatsRow) -> (k: RowKey)
    ensures
        k == row_key(*r),
{
    RowKey { kind: r.kind, stratum: r.stratum, object_index: r.object_index, allomorph: r.allomorph, direction: r.direction }
}

/// Append the non-zero rows of one dense table, in flat order.
fn collect_rows(table: &DenseTable, kind: ObjectKind, out: &mut Vec<StatsRow>, Ghost(t): Ghost<Map<RowKey, Counters>>)
    requires
        table.wf(),
        table.num_strata <= 256,
        table.num_rules <= 0x1_0000_0000,
        forall|i: int| 0 <= i < table.cells@.len() ==> t[dense_key_at(kind, table.num_strata as int, table.num_rules as int, i)]
            == #[trigger] table.cells@[i],
    ensures
        final(out)@ == old(out)@ + dense_rows(t, kind, table.num_strata as int, table.num_rules as int, table.cells@.len()),
{
    let ns = table.num_strata;
    let nr = table.num_rules;
    proof {
        assert(ns * nr <= 2 * ns * nr) by (nonlinear_arith)
            requires ns >= 1, nr >= 1;
        assert(ns * nr >= 1) by (nonlinear_arith)
            requires ns >= 1, nr >= 1;
        assert(table.cells@.len() == table.cells.len());
    }
    let per = ns * nr;
    let n = table.cells.len();
    let mut i: usize = 0;
    while i < n
        invariant
            i <= n,
            n == table.cells@.len(),
            per == ns * nr,
            per >= 1,
            ns == table.num_strata,
            nr == table.num_rules,
            nr >= 1,
            nr <= 0x1_0000_0000,
            ns <= 256,
            forall|j: int| 0 <= j < table.cells@.len() ==> t[dense_key_at(kind, ns as int, nr as int, j)]
                == #[trigger] table.cells@[j],
            out@ == old(out)@ + dense_rows(t, kind, ns as int, nr as int, i as nat),
        decreases n - i,
    {
        let counters = table.cells[i];
        let ghost k = dense_key_at(kind, ns as int, nr as int, i as int);
        if !counters.is_zero() {
            let direction = if i / per == 0 { Direction::Analysis } else { Direction::Synthesis };
            let rem = i % per;
            proof {
                assert(rem / nr < 256) by (nonlinear_arith)
                    requires rem < per, per == ns * nr, ns <= 256, nr >= 1;
                assert(rem % nr < 0x1_0000_0000) by (nonlinear_arith)
                    requires nr <= 0x1_0000_0000, nr >= 1;
            }
            #[verifier::truncate]
            let object_index = (rem % nr) as u32;
            #[verifier::truncate]
            let stratum = StratumId((rem / nr) as u8);
            let row = StatsRow { kind, object_index, stratum, allomorph: ALLOMORPH_NONE, direction, counters };
            assert(row == row_of(k, t[k]));
            out.push(row);
        }
        i = i + 1;
        proof {
            let ghost prev = dense_rows(t, kind, ns as int, nr as int, (i - 1) as nat);
            assert(dense_rows(t, kind, ns as int, nr as int, i as nat) == (if t[k] != zero_counters() { prev.push(row_of(k, t[k])) } else { prev }));
        }
    }
}

} // verus!

verus! {

/// Two ascending rows sequences holding the same rows are the same sequence.
proof fn lemma_sorted_same_rows_equal(s1: Seq<StatsRow>, s2: Seq<StatsRow>)
    requires
        sorted_by_rank(s1),
        sorted_by_rank(s2),
        forall|x: StatsRow| s1.contains(x) <==> s2.contains(x),
    ensures
        s1 == s2,
    decreases s1.len(),
{
    if s1.len() == 0 {
        if s2.len() > 0 {
            assert(s2.contains(s2[0]));
        }
        assert(s1 =~= s2);
    } else {
        assert(s1.contains(s1[0]));
        let j = choose|j: int| 0 <= j < s2.len() && s2[j] == s1[0];
        assert(s2.contains(s2[0]));
        let k = choose|k: int| 0 <= k < s1.len() && s1[k] == s2[0];
        if j > 0 {
            assert(row_rank(s2[0]) < row_rank(s2[j]));
            if k > 0 {
                assert(row_rank(s1[0]) < row_rank(s1[k]));
            }
        }
        assert(j == 0);
        let t1 = s1.drop_first();
        let t2 = s2.drop_first();
        assert forall|x: StatsRow| t1.contains(x) <==> t2.contains(x) by {
            if t1.contains(x) {
                let a = choose|a: int| 0 <= a < t1.len() && t1[a] == x;
                assert(s1[a + 1] == x);
                assert(row_rank(s1[0]) < row_rank(s1[a + 1]));
                assert(s2.contains(x));
                let b = choose|b: int| 0 <= b < s2.len() && s2[b] == x;
                assert(b != 0);
                assert(t2[b - 1] == x);
            }
            if t2.contains(x) {
                let a = choose|a: int| 0 <= a < t2.len() && t2[a] == x;
                assert(s2[a + 1] == x);
                assert(row_rank(s2[0]) < row_rank(s2[a + 1]));
                assert(s1.contains(x));
                let b = choose|b: int| 0 <= b < s1.len() && s1[b] == x;
                assert(b != 0);
                assert(t1[b - 1] == x);
            }
        }
        lemma_sorted_same_rows_equal(t1, t2);
        assert(s1 =~= s2) by {
            assert(s1 == seq![s1[0]] + t1);
            assert(s2 == seq![s2[0]] + t2);
        }
    }
}

/// The rows are reproducible: two collectors with the same dimensions and the same counts list
/// exactly the same rows in exactly the same order, whatever order the counts were recorded in.
pub proof fn law_rows_reproducible(c1: StatsCollector, c2: StatsCollector, out1: Seq<StatsRow>, out2: Seq<StatsRow>)
    requires
        c1.num_strata() == c2.num_strata(),
        c1.num_mrules() == c2.num_mrules(),
        c1.num_prules() == c2.num_prules(),
        c1.table() == c2.table(),
        c1.dense_part().len() <= out1.len(),
        c2.dense_part().len() <= out2.len(),
        out1.subrange(0, c1.dense_part().len() as int) == c1.dense_part(),
        sparse_rows_ok(c1.table(), out1.skip(c1.dense_part().len() as int)),
        out2.subrange(0, c2.dense_part().len() as int) == c2.dense_part(),
        sparse_rows_ok(c2.table(), out2.skip(c2.dense_part().len() as int)),
    ensures
        out1 == out2,
{
    let n = c1.dense_part().len() as int;
    assert(c1.dense_part() == c2.dense_part());
    let t = c1.table();
    let s1 = out1.skip(n);
    let s2 = out2.skip(n);
    assert forall|x: StatsRow| s1.contains(x) <==> s2.contains(x) by {
        if s1.contains(x) {
            let a = choose|a: int| 0 <= a < s1.len() && s1[a] == x;
            assert(sparse_row_ok(t, s1[a]));
            assert(row_of(row_key(x), t[row_key(x)]) == x);
        }
        if s2.contains(x) {
            let a = choose|a: int| 0 <= a < s2.len() && s2[a] == x;
            assert(sparse_row_ok(t, s2[a]));
            assert(row_of(row_key(x), t[row_key(x)]) == x);
        }
    }
    lemma_sorted_same_rows_equal(s1, s2);
    assert(out1 =~= out1.subrange(0, n) + s1);
    assert(out2 =~= out2.subrange(0, n) + s2);
}

} // verus!
