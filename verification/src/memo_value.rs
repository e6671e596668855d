//! The per-entry value diagnostic of the analysis memo table: for every stored analysis state, the
//! bytes it holds, the result count and cascade depth at insert time, how many later lookups hit
//! it, and the recompute work a hit avoids (`SubtreeWork`).
//!
//! The work figures come from nested tick windows: `enter_subtree` opens a window at the current
//! step count, `exit_subtree` closes it and rolls its ticks and descendant count up into the
//! enclosing window. Inclusive work counts every tick inside the window; exclusive work subtracts
//! the inclusive work of every immediate child window, so it is free of double counting.
//!
//! The recorder is an explicit value threaded by the caller (one per analysis run); it records
//! nothing unless it was created enabled.
use vstd::prelude::*;

verus! {

/// The recompute cost one stored entry's subtree consumed, read off step ticks at the window
/// boundary around that entry's own expansion.
#[derive(Clone, Copy, Debug, PartialEq, Eq, Structural)]
pub struct SubtreeWork {
    /// Ticks from entry to exit of the window, descendants included.
    pub inclusive: u64,
    /// `inclusive` minus the inclusive ticks of every immediate child window.
    pub exclusive: u64,
    /// Windows opened and closed beneath this one, transitively.
    pub descendant_count: u32,
}

impl Default for SubtreeWork {
    fn default() -> (w: Self)
        ensures
            w == zero_work(),
    {
        SubtreeWork { inclusive: 0, exclusive: 0, descendant_count: 0 }
    }
}

/// One open window: its start tick, and the inclusive ticks and descendant count of the child
/// windows closed inside it so far.
#[derive(Clone, Copy, Debug, PartialEq, Eq, Structural)]
pub struct SubtreeFrame {
    pub tick_start: u64,
    pub child_ticks: u64,
    pub descendant_count: u32,
}

/// The all-zero figures.
pub open spec fn zero_work() -> SubtreeWork {
    SubtreeWork { inclusive: 0, exclusive: 0, descendant_count: 0 }
}

/// A window just opened at `tick_start`.
pub open spec fn fresh_frame(tick_start: u64) -> SubtreeFrame {
    SubtreeFrame { tick_start, child_ticks: 0, descendant_count: 0 }
}

/// `a - b`, or 0 when `b > a`.
pub open spec fn sat_sub(a: int, b: int) -> int {
    if a >= b { a - b } else { 0 }
}

/// `a + b`, capped at `max`.
pub open spec fn sat_add(a: int, b: int, max: int) -> int {
    if a + b <= max { a + b } else { max }
}

/// The figures a window starting at `frame` reports when it closes at `tick_end`.
pub open spec fn closed_work(frame: SubtreeFrame, tick_end: u64) -> SubtreeWork {
    let inclusive = sat_sub(tick_end as int, frame.tick_start as int);
    SubtreeWork {
        inclusive: inclusive as u64,
        exclusive: sat_sub(inclusive, frame.child_ticks as int) as u64,
        descendant_count: frame.descendant_count,
    }
}

/// The parent frame after a child that reported `work` closed inside it.
pub open spec fn absorb_child(parent: SubtreeFrame, work: SubtreeWork) -> SubtreeFrame {
    SubtreeFrame {
        tick_start: parent.tick_start,
        child_ticks: sat_add(parent.child_ticks as int, work.inclusive as int, u64::MAX as int) as u64,
        descendant_count: sat_add(
            parent.descendant_count as int,
            work.descendant_count as int + 1,
            u32::MAX as int,
        ) as u32,
    }
}

/// The stack of open windows, innermost last.
pub struct SubtreeStack {
    frames: Vec<SubtreeFrame>,
}

impl View for SubtreeStack {
    type V = Seq<SubtreeFrame>;

    closed spec fn view(&self) -> Seq<SubtreeFrame> {
        self.frames@
    }
}

impl SubtreeStack {
    pub fn new() -> (s: Self)
        ensures
            s@ == Seq::<SubtreeFrame>::empty(),
    {
        SubtreeStack { frames: Vec::new() }
    }

    /// Open a window at `tick_start`.
    pub fn push_frame(&mut self, tick_start: u64)
        ensures
            final(self)@ == old(self)@.push(fresh_frame(tick_start)),
    {
        self.frames.push(SubtreeFrame { tick_start, child_ticks: 0, descendant_count: 0 });
    }

    /// Close the innermost window at `tick_end`, returning its figures and folding its inclusive
    /// ticks and descendant count (plus itself) into the enclosing window, if any.
    pub fn pop_frame(&mut self, tick_end: u64) -> (work: SubtreeWork)
        requires
            old(self)@.len() > 0,
            old(self)@.last().descendant_count < u32::MAX,
        ensures
            work == closed_work(old(self)@.last(), tick_end),
            old(self)@.len() == 1 ==> final(self)@ == old(self)@.drop_last(),
            old(self)@.len() > 1 ==> final(self)@ == old(self)@.drop_last().drop_last().push(
                absorb_child(old(self)@.drop_last().last(), work),
            ),
    {
        let frame = self.frames.pop().unwrap();
        let inclusive = tick_end.saturating_sub(frame.tick_start);
        let exclusive = inclusive.saturating_sub(frame.child_ticks);
        let work = SubtreeWork { inclusive, exclusive, descendant_count: frame.descendant_count };
        let n = self.frames.len();
        if n > 0 {
            let parent = self.frames[n - 1];
            let updated = SubtreeFrame {
                tick_start: parent.tick_start,
                child_ticks: parent.child_ticks.saturating_add(inclusive),
                descendant_count: parent.descendant_count.saturating_add(frame.descendant_count + 1),
            };
            self.frames.set(n - 1, updated);
            assert(self.frames@ =~= old(self)@.drop_last().drop_last().push(absorb_child(old(self)@.drop_last().last(), work)));
        }
        work
    }
}

/// The exclusive work of a closed window never exceeds its inclusive work.
pub proof fn law_exclusive_within_inclusive(frame: SubtreeFrame, tick_end: u64)
    ensures
        closed_work(frame, tick_end).exclusive <= closed_work(frame, tick_end).inclusive,
{
}

/// A window with no child closed inside it reports equal inclusive and exclusive work and no
/// descendants.
pub proof fn law_leaf_window(tick_start: u64, tick_end: u64)
    ensures
        ({
            let w = closed_work(fresh_frame(tick_start), tick_end);
            w.exclusive == w.inclusive && w.descendant_count == 0
        }),
{
}

/// Descendant counts roll up transitively: closing a child that reported `d` descendants adds
/// `d + 1` to its parent (below the counter's ceiling).
pub proof fn law_descendants_roll_up(parent: SubtreeFrame, child: SubtreeWork)
    requires
        parent.descendant_count + child.descendant_count + 1 <= u32::MAX,
    ensures
        absorb_child(parent, child).descendant_count == parent.descendant_count + child.descendant_count + 1,
        absorb_child(parent, child).tick_start == parent.tick_start,
{
}

/// One stored entry's raw fields.
#[derive(Clone, Copy, Debug, PartialEq, Eq, Structural)]
pub struct EntryDump {
    pub bytes: u64,
    pub results_len: u32,
    pub depth_at_insert: u32,
    pub hits: u64,
    pub subtree_work_inclusive: u64,
    pub subtree_work_exclusive: u64,
    pub descendant_count: u32,
}

/// The entry a fresh insert stores.
pub open spec fn fresh_entry(bytes: usize, results_len: usize, depth_at_insert: usize, work: SubtreeWork) -> EntryDump {
    EntryDump {
        bytes: bytes as u64,
        results_len: results_len as u32,
        depth_at_insert: depth_at_insert as u32,
        hits: 0,
        subtree_work_inclusive: work.inclusive,
        subtree_work_exclusive: work.exclusive,
        descendant_count: work.descendant_count,
    }
}

/// The entry after one more hit.
pub open spec fn hit_entry(e: EntryDump) -> EntryDump {
    EntryDump { hits: (e.hits + 1) as u64, ..e }
}

/// The per-entry value recorder. Entries are keyed by the integer identity of the stored analysis
/// state and kept in first-insert order.
pub struct MemoValueRecorder {
    enabled: bool,
    keys: Vec<u64>,
    entries: Vec<EntryDump>,
    stack: SubtreeStack,
}

impl MemoValueRecorder {
    /// Keys are distinct and aligned with the entries.
    pub closed spec fn wf(&self) -> bool {
        &&& self.keys@.len() == self.entries@.len()
        &&& self.keys@.no_duplicates()
    }

    pub closed spec fn is_enabled(&self) -> bool {
        self.enabled
    }

    /// The stored entries, keyed by state.
    pub closed spec fn entry_map(&self) -> Map<u64, EntryDump> {
        Map::new(
            |k: u64| self.keys@.contains(k),
            |k: u64| self.entries@[self.keys@.index_of(k)],
        )
    }

    /// The stored entries in first-insert order.
    pub closed spec fn entry_seq(&self) -> Seq<EntryDump> {
        self.entries@
    }

    /// The stored keys in first-insert order.
    pub closed spec fn key_order(&self) -> Seq<u64> {
        self.keys@
    }

    /// The entries, in order, are those of the keys in first-insert order.
    pub open spec fn in_key_order(&self) -> bool {
        self.entry_seq() == self.key_order().map_values(|k: u64| self.entry_map()[k])
    }

    proof fn lemma_in_key_order(&self)
        requires
            self.wf(),
        ensures
            self.in_key_order(),
    {
        assert forall|j: int| 0 <= j < self.keys@.len() implies self.entries@[j] == self.entry_map()[self.keys@[j]] by {
            assert(self.keys@.contains(self.keys@[j]));
            lemma_index_of_unique(self.keys@, self.keys@[j]);
        }
        assert(self.entry_seq() =~= self.key_order().map_values(|k: u64| self.entry_map()[k]));
    }

    /// The open windows.
    pub closed spec fn frames(&self) -> Seq<SubtreeFrame> {
        self.stack@
    }

    pub fn new(enabled: bool) -> (r: Self)
        ensures
            r.wf(),
            r.is_enabled() == enabled,
            r.entry_map() == Map::<u64, EntryDump>::empty(),
            r.entry_seq() == Seq::<EntryDump>::empty(),
            r.key_order() == Seq::<u64>::empty(),
            r.frames() == Seq::<SubtreeFrame>::empty(),
    {
        let r = MemoValueRecorder { enabled, keys: Vec::new(), entries: Vec::new(), stack: SubtreeStack::new() };
        assert(r.entry_map() =~= Map::<u64, EntryDump>::empty());
        r
    }

    pub fn enabled(&self) -> (b: bool)
        ensures
            b == self.is_enabled(),
    {
        self.enabled
    }

    /// Open a work window at `tick_start`; nothing happens when disabled.
    pub fn enter_subtree(&mut self, tick_start: u64)
        ensures
            final(self).is_enabled() == old(self).is_enabled(),
            final(self).entry_map() == old(self).entry_map(),
            final(self).entry_seq() == old(self).entry_seq(),
            final(self).key_order() == old(self).key_order(),
            final(self).wf() == old(self).wf(),
            old(self).is_enabled() ==> final(self).frames() == old(self).frames().push(fresh_frame(tick_start)),
            !old(self).is_enabled() ==> final(self).frames() == old(self).frames(),
    {
        if !self.enabled {
            return;
        }
        self.stack.push_frame(tick_start);
    }

    /// Close the window opened by the matching `enter_subtree` at `tick_end`; the default (all zero)
    /// figures when disabled.
    pub fn exit_subtree(&mut self, tick_end: u64) -> (work: SubtreeWork)
        requires
            old(self).is_enabled() ==> old(self).frames().len() > 0,
            old(self).is_enabled() ==> old(self).frames().last().descendant_count < u32::MAX,
        ensures
            final(self).is_enabled() == old(self).is_enabled(),
            final(self).entry_map() == old(self).entry_map(),
            final(self).entry_seq() == old(self).entry_seq(),
            final(self).key_order() == old(self).key_order(),
            final(self).wf() == old(self).wf(),
            !old(self).is_enabled() ==> work == zero_work() && final(self).frames() == old(self).frames(),
            old(self).is_enabled() ==> work == closed_work(old(self).frames().last(), tick_end),
            old(self).is_enabled() && old(self).frames().len() == 1 ==> final(self).frames() == old(self).frames().drop_last(),
            old(self).is_enabled() && old(self).frames().len() > 1 ==> final(self).frames()
                == old(self).frames().drop_last().drop_last().push(absorb_child(old(self).frames().drop_last().last(), work)),
    {
        if !self.enabled {
            return SubtreeWork::default();
        }
        self.stack.pop_frame(tick_end)
    }

    /// Store the entry of `key` (replacing any earlier one); nothing happens when disabled.
    pub fn record_insert(
        &mut self,
        key: u64,
        bytes: usize,
        results_len: usize,
        depth_at_insert: usize,
        subtree_work: SubtreeWork,
    )
        requires
            old(self).wf(),
        ensures
            final(self).wf(),
            final(self).is_enabled() == old(self).is_enabled(),
            final(self).frames() == old(self).frames(),
            old(self).is_enabled() ==> final(self).entry_map()
                == old(self).entry_map().insert(key, fresh_entry(bytes, results_len, depth_at_insert, subtree_work)),
            !old(self).is_enabled() ==> final(self).entry_map() == old(self).entry_map(),
            !old(self).is_enabled() ==> final(self).entry_seq() == old(self).entry_seq(),
            final(self).key_order() == (if old(self).is_enabled() && !old(self).key_order().contains(key) {
                old(self).key_order().push(key)
            } else {
                old(self).key_order()
            }),
            final(self).in_key_order(),
    {
        if !self.enabled {
            proof {
                self.lemma_in_key_order();
            }
            return;
        }
        #[verifier::truncate]
        let results_len32 = results_len as u32;
        #[verifier::truncate]
        let depth32 = depth_at_insert as u32;
        let e = EntryDump {
            bytes: bytes as u64,
            results_len: results_len32,
            depth_at_insert: depth32,
            hits: 0,
            subtree_work_inclusive: subtree_work.inclusive,
            subtree_work_exclusive: subtree_work.exclusive,
            descendant_count: subtree_work.descendant_count,
        };
        assert(e == fresh_entry(bytes, results_len, depth_at_insert, subtree_work));
        let ghost old_map = self.entry_map();
        match find_key(&self.keys, key) {
            Some(i) => {
                self.entries.set(i, e);
                proof {
                    assert forall|k: u64| self.keys@.contains(k) implies self.entries@[self.keys@.index_of(k)]
                        == old_map.insert(key, e)[k] by {
                        lemma_index_of_unique(self.keys@, k);
                        lemma_index_of_unique(self.keys@, key);
                    }
                    assert(self.entry_map() =~= old_map.insert(key, e));
                    self.lemma_in_key_order();
                }
            },
            None => {
                self.keys.push(key);
                self.entries.push(e);
                proof {
                    let ks = self.keys@;
                    assert(ks.no_duplicates()) by {
                        assert forall|a: int, b: int| 0 <= a < ks.len() && 0 <= b < ks.len() && a != b
                            implies ks[a] != ks[b] by {
                            if a == ks.len() - 1 {
                                assert(old(self).keys@.contains(ks[b]) || b == ks.len() - 1);
                            } else if b == ks.len() - 1 {
                                assert(old(self).keys@.contains(ks[a]));
                            }
                        }
                    }
                    assert forall|k: u64| ks.contains(k) implies self.entries@[ks.index_of(k)]
                        == old_map.insert(key, e)[k] by {
                        lemma_index_of_unique(ks, k);
                        if k == key {
                            assert(ks[ks.len() - 1] == key);
                        } else {
                            let i = old(self).keys@.index_of(k);
                            lemma_index_of_unique(old(self).keys@, k);
                            assert(ks[i] == k);
                        }
                    }
                    assert forall|k: u64| ks.contains(k) <==> old_map.insert(key, e).contains_key(k) by {
                        if ks.contains(k) && k != key {
                            let a = choose|a: int| 0 <= a < ks.len() && ks[a] == k;
                            assert(old(self).keys@[a] == k);
                        }
                        if old(self).keys@.contains(k) {
                            let a = choose|a: int| 0 <= a < old(self).keys@.len() && old(self).keys@[a] == k;
                            assert(ks[a] == k);
                        }
                        if k == key {
                            assert(ks[ks.len() - 1] == key);
                        }
                    }
                    assert(self.entry_map() =~= old_map.insert(key, e));
                    self.lemma_in_key_order();
                }
            },
        }
    }

    /// Count one lookup that found `key` stored; nothing happens when disabled or when `key` was
    /// never stored.
    pub fn record_hit(&mut self, key: u64)
        requires
            old(self).wf(),
            old(self).entry_map().contains_key(key) ==> old(self).entry_map()[key].hits < u64::MAX,
        ensures
            final(self).wf(),
            final(self).is_enabled() == old(self).is_enabled(),
            final(self).frames() == old(self).frames(),
            old(self).is_enabled() && old(self).entry_map().contains_key(key) ==> final(self).entry_map()
                == old(self).entry_map().insert(key, hit_entry(old(self).entry_map()[key])),
            !(old(self).is_enabled() && old(self).entry_map().contains_key(key)) ==> final(self).entry_map()
                == old(self).entry_map(),
            final(self).key_order() == old(self).key_order(),
            final(self).in_key_order(),
            !old(self).is_enabled() ==> final(self).entry_seq() == old(self).entry_seq(),
    {
        proof {
            self.lemma_in_key_order();
        }
        if !self.enabled {
            return;
        }
        let ghost old_map = self.entry_map();
        match find_key(&self.keys, key) {
            Some(i) => {
                proof {
                    lemma_index_of_unique(self.keys@, key);
                }
                let e = self.entries[i];
                let updated = EntryDump { hits: e.hits + 1, ..e };
                self.entries.set(i, updated);
                proof {
                    assert forall|k: u64| self.keys@.contains(k) implies self.entries@[self.keys@.index_of(k)]
                        == old_map.insert(key, hit_entry(old_map[key]))[k] by {
                        lemma_index_of_unique(self.keys@, k);
                    }
                    assert(self.entry_map() =~= old_map.insert(key, hit_entry(old_map[key])));
                    self.lemma_in_key_order();
                }
            },
            None => {},
        }
    }

    /// Every stored entry's raw fields, in first-insert order.
    pub fn dump_entries(&self) -> (out: Vec<EntryDump>)
        ensures
            out@ == self.entry_seq(),
    {
        self.entries.clone()
    }
}

/// The integer aggregates over every stored entry.
#[derive(Clone, Copy, Debug, PartialEq, Eq, Structural)]
pub struct MemoValueTotals {
    pub entries: usize,
    pub total_bytes: u64,
    /// Entries stored but never hit afterwards, and the bytes they hold.
    pub zero_hit_entries: usize,
    pub zero_hit_bytes: u64,
    pub hits_total: u64,
    pub results_len_total: u64,
    pub depth_at_insert_total: u64,
    pub subtree_work_inclusive_total: u64,
    pub subtree_work_exclusive_total: u64,
    pub descendant_count_total: u64,
    /// The sum over entries of `hits * subtree_work_exclusive` (each product saturating): the work
    /// the memo saved.
    pub total_work_saved_exclusive: u64,
}

/// The sum of `f` over `s`.
pub open spec fn sum_by(s: Seq<EntryDump>, f: spec_fn(EntryDump) -> int) -> int
    decreases s.len(),
{
    if s.len() == 0 {
        0
    } else {
        sum_by(s.drop_last(), f) + f(s.last())
    }
}

pub open spec fn bytes_of() -> spec_fn(EntryDump) -> int {
    |e: EntryDump| e.bytes as int
}

pub open spec fn zero_hit_of() -> spec_fn(EntryDump) -> int {
    |e: EntryDump| if e.hits == 0 { 1int } else { 0int }
}

pub open spec fn zero_hit_bytes_of() -> spec_fn(EntryDump) -> int {
    |e: EntryDump| if e.hits == 0 { e.bytes as int } else { 0int }
}

pub open spec fn hits_of() -> spec_fn(EntryDump) -> int {
    |e: EntryDump| e.hits as int
}

pub open spec fn results_len_of() -> spec_fn(EntryDump) -> int {
    |e: EntryDump| e.results_len as int
}

pub open spec fn depth_of() -> spec_fn(EntryDump) -> int {
    |e: EntryDump| e.depth_at_insert as int
}

pub open spec fn inclusive_of() -> spec_fn(EntryDump) -> int {
    |e: EntryDump| e.subtree_work_inclusive as int
}

pub open spec fn exclusive_of() -> spec_fn(EntryDump) -> int {
    |e: EntryDump| e.subtree_work_exclusive as int
}

pub open spec fn descendants_of() -> spec_fn(EntryDump) -> int {
    |e: EntryDump| e.descendant_count as int
}

/// `hits * subtree_work_exclusive`, capped at `u64::MAX`.
pub open spec fn work_saved_of() -> spec_fn(EntryDump) -> int {
    |e: EntryDump|
        if e.hits * e.subtree_work_exclusive <= u64::MAX {
            e.hits * e.subtree_work_exclusive
        } else {
            u64::MAX as int
        }
}

proof fn lemma_sum_prefix(s: Seq<EntryDump>, f: spec_fn(EntryDump) -> int, i: int)
    requires
        0 <= i <= s.len(),
        forall|e: EntryDump| #[trigger] f(e) >= 0,
    ensures
        0 <= sum_by(s.take(i), f) <= sum_by(s, f),
    decreases s.len(),
{
    if s.len() > 0 {
        if i == s.len() {
            assert(s.take(i) =~= s);
            lemma_sum_prefix(s.drop_last(), f, i - 1);
            assert(s.drop_last().take(i - 1) =~= s.drop_last());
        } else {
            lemma_sum_prefix(s.drop_last(), f, i);
            assert(s.drop_last().take(i) =~= s.take(i));
        }
    }
}

/// One more entry added to a running sum that stays within `u64`.
proof fn lemma_sum_step(s: Seq<EntryDump>, f: spec_fn(EntryDump) -> int, i: int)
    requires
        0 <= i < s.len(),
        forall|e: EntryDump| #[trigger] f(e) >= 0,
    ensures
        sum_by(s.take(i + 1), f) == sum_by(s.take(i), f) + f(s[i]),
        sum_by(s.take(i + 1), f) <= sum_by(s, f),
{
    assert(s.take(i + 1).drop_last() =~= s.take(i));
    lemma_sum_prefix(s, f, i + 1);
}

impl MemoValueRecorder {
    /// The integer aggregates over every stored entry.
    pub fn totals(&self) -> (t: MemoValueTotals)
        requires
            sum_by(self.entry_seq(), bytes_of()) <= u64::MAX,
            sum_by(self.entry_seq(), hits_of()) <= u64::MAX,
            sum_by(self.entry_seq(), results_len_of()) <= u64::MAX,
            sum_by(self.entry_seq(), depth_of()) <= u64::MAX,
            sum_by(self.entry_seq(), inclusive_of()) <= u64::MAX,
            sum_by(self.entry_seq(), exclusive_of()) <= u64::MAX,
            sum_by(self.entry_seq(), descendants_of()) <= u64::MAX,
            sum_by(self.entry_seq(), work_saved_of()) <= u64::MAX,
        ensures
            t.entries == self.entry_seq().len(),
            t.total_bytes == sum_by(self.entry_seq(), bytes_of()),
            t.zero_hit_entries == sum_by(self.entry_seq(), zero_hit_of()),
            t.zero_hit_bytes == sum_by(self.entry_seq(), zero_hit_bytes_of()),
            t.hits_total == sum_by(self.entry_seq(), hits_of()),
            t.results_len_total == sum_by(self.entry_seq(), results_len_of()),
            t.depth_at_insert_total == sum_by(self.entry_seq(), depth_of()),
            t.subtree_work_inclusive_total == sum_by(self.entry_seq(), inclusive_of()),
            t.subtree_work_exclusive_total == sum_by(self.entry_seq(), exclusive_of()),
            t.descendant_count_total == sum_by(self.entry_seq(), descendants_of()),
            t.total_work_saved_exclusive == sum_by(self.entry_seq(), work_saved_of()),
    {
        let ghost s = self.entries@;
        let mut t = MemoValueTotals {
            entries: self.entries.len(),
            total_bytes: 0,
            zero_hit_entries: 0,
            zero_hit_bytes: 0,
            hits_total: 0,
            results_len_total: 0,
            depth_at_insert_total: 0,
            subtree_work_inclusive_total: 0,
            subtree_work_exclusive_total: 0,
            descendant_count_total: 0,
            total_work_saved_exclusive: 0,
        };
        let mut i: usize = 0;
        while i < self.entries.len()
            invariant
                s == self.entries@,
                i <= s.len(),
                t.entries == s.len(),
                sum_by(s, bytes_of()) <= u64::MAX,
                sum_by(s, hits_of()) <= u64::MAX,
                sum_by(s, results_len_of()) <= u64::MAX,
                sum_by(s, depth_of()) <= u64::MAX,
                sum_by(s, inclusive_of()) <= u64::MAX,
                sum_by(s, exclusive_of()) <= u64::MAX,
                sum_by(s, descendants_of()) <= u64::MAX,
                sum_by(s, work_saved_of()) <= u64::MAX,
                t.total_bytes == sum_by(s.take(i as int), bytes_of()),
                t.zero_hit_entries == sum_by(s.take(i as int), zero_hit_of()),
                t.zero_hit_bytes == sum_by(s.take(i as int), zero_hit_bytes_of()),
                t.hits_total == sum_by(s.take(i as int), hits_of()),
                t.results_len_total == sum_by(s.take(i as int), results_len_of()),
                t.depth_at_insert_total == sum_by(s.take(i as int), depth_of()),
                t.subtree_work_inclusive_total == sum_by(s.take(i as int), inclusive_of()),
                t.subtree_work_exclusive_total == sum_by(s.take(i as int), exclusive_of()),
                t.descendant_count_total == sum_by(s.take(i as int), descendants_of()),
                t.total_work_saved_exclusive == sum_by(s.take(i as int), work_saved_of()),
                t.zero_hit_entries <= i,
                t.zero_hit_bytes <= t.total_bytes,
            decreases s.len() - i,
        {
            let e = self.entries[i];
            proof {
                let ii = i as int;
                lemma_sum_step(s, bytes_of(), ii);
                lemma_sum_step(s, zero_hit_of(), ii);
                lemma_sum_step(s, zero_hit_bytes_of(), ii);
                lemma_sum_step(s, hits_of(), ii);
                lemma_sum_step(s, results_len_of(), ii);
                lemma_sum_step(s, depth_of(), ii);
                lemma_sum_step(s, inclusive_of(), ii);
                lemma_sum_step(s, exclusive_of(), ii);
                lemma_sum_step(s, descendants_of(), ii);
                lemma_sum_step(s, work_saved_of(), ii);
            }
            t.total_bytes = t.total_bytes + e.bytes;
            if e.hits == 0 {
                t.zero_hit_entries = t.zero_hit_entries + 1;
                t.zero_hit_bytes = t.zero_hit_bytes + e.bytes;
            }
            t.hits_total = t.hits_total + e.hits;
            t.results_len_total = t.results_len_total + e.results_len as u64;
            t.depth_at_insert_total = t.depth_at_insert_total + e.depth_at_insert as u64;
            t.subtree_work_inclusive_total = t.subtree_work_inclusive_total + e.subtree_work_inclusive;
            t.subtree_work_exclusive_total = t.subtree_work_exclusive_total + e.subtree_work_exclusive;
            t.descendant_count_total = t.descendant_count_total + e.descendant_count as u64;
            let saved: u64 = match e.hits.checked_mul(e.subtree_work_exclusive) {
                Some(p) => p,
                None => u64::MAX,
            };
            t.total_work_saved_exclusive = t.total_work_saved_exclusive + saved;
            i = i + 1;
        }
        assert(s.take(i as int) =~= s);
        t
    }
}

/// The entry `e` after `h` more hits.
pub open spec fn after_hits(e: EntryDump, h: nat) -> EntryDump
    decreases h,
{
    if h == 0 {
        e
    } else {
        hit_entry(after_hits(e, (h - 1) as nat))
    }
}

proof fn lemma_after_hits(e: EntryDump, h: nat)
    requires
        e.hits + h <= u64::MAX,
    ensures
        after_hits(e, h) == (EntryDump { hits: (e.hits + h) as u64, ..e }),
    decreases h,
{
    if h > 0 {
        lemma_after_hits(e, (h - 1) as nat);
    }
}

/// A dump shows each stored key's last insert with the hits counted since: when the recorder goes
/// through `states`, the first just after `key` was stored with the given arguments and each later
/// one just after a hit of `key`, the last state holds the fresh entry with one hit per later
/// state, its dump lists that entry, and the dump has one entry per distinct stored key.
pub proof fn law_dump_shows_last_insert_and_its_hits(
    states: Seq<MemoValueRecorder>,
    key: u64,
    bytes: usize,
    results_len: usize,
    depth_at_insert: usize,
    work: SubtreeWork,
)
    requires
        1 <= states.len() <= u64::MAX,
        forall|i: int| 0 <= i < states.len() ==> #[trigger] states[i].wf(),
        states[0].entry_map().contains_key(key),
        states[0].entry_map()[key] == fresh_entry(bytes, results_len, depth_at_insert, work),
        forall|i: int|
            0 < i < states.len() ==> #[trigger] states[i].entry_map() == states[i - 1].entry_map().insert(
                key,
                hit_entry(states[i - 1].entry_map()[key]),
            ),
    ensures
        states.last().entry_map()[key] == (EntryDump {
            hits: (states.len() - 1) as u64,
            ..fresh_entry(bytes, results_len, depth_at_insert, work)
        }),
        states.last().entry_seq().contains(states.last().entry_map()[key]),
        states.last().entry_seq().len() == states.last().entry_map().dom().len(),
{
    let fresh = fresh_entry(bytes, results_len, depth_at_insert, work);
    let n = states.len() - 1;
    lemma_hits_along(states, key, fresh, n);
    lemma_after_hits(fresh, n as nat);
    let last = states.last();
    assert(last.wf());
    last.lemma_in_key_order();
    assert(last.keys@.contains(key));
    lemma_index_of_unique(last.keys@, key);
    let j = last.keys@.index_of(key);
    assert(last.entry_seq()[j] == last.entry_map()[last.keys@[j]]);
    last.keys@.unique_seq_to_set();
    assert(last.entry_map().dom() =~= last.keys@.to_set());
}

proof fn lemma_hits_along(states: Seq<MemoValueRecorder>, key: u64, fresh: EntryDump, n: int)
    requires
        0 <= n < states.len(),
        states[0].entry_map().contains_key(key),
        states[0].entry_map()[key] == fresh,
        forall|i: int|
            0 < i < states.len() ==> #[trigger] states[i].entry_map() == states[i - 1].entry_map().insert(
                key,
                hit_entry(states[i - 1].entry_map()[key]),
            ),
    ensures
        states[n].entry_map().contains_key(key),
        states[n].entry_map()[key] == after_hits(fresh, n as nat),
    decreases n,
{
    if n > 0 {
        lemma_hits_along(states, key, fresh, n - 1);
        assert(states[n].entry_map() == states[n - 1].entry_map().insert(key, hit_entry(states[n - 1].entry_map()[key])));
    }
}

/// The position of `key` in `keys`, if present.
fn find_key(keys: &Vec<u64>, key: u64) -> (r: Option<usize>)
    ensures
        r matches Some(i) ==> i < keys@.len() && keys@[i as int] == key,
        r is None ==> !keys@.contains(key),
{
    let mut i: usize = 0;
    while i < keys.len()
        invariant
            i <= keys@.len(),
            forall|j: int| 0 <= j < i ==> keys@[j] != key,
        decreases keys.len() - i,
    {
        if keys[i] == key {
            return Some(i);
        }
        i = i + 1;
    }
    None
}

/// In a sequence without duplicates, `index_of` finds the one position holding the value.
proof fn lemma_index_of_unique(s: Seq<u64>, k: u64)
    requires
        s.no_duplicates(),
        s.contains(k),
    ensures
        0 <= s.index_of(k) < s.len(),
        s[s.index_of(k)] == k,
        forall|j: int| 0 <= j < s.len() && s[j] == k ==> j == s.index_of(k),
{
    assert(s.contains(k));
    let i = s.index_of(k);
    assert forall|j: int| 0 <= j < s.len() && s[j] == k implies j == i by {
        if j != i {
            assert(s[j] != s[i]);
        }
    }
}

} // verus!
