//! Morph attribution: which input morph owns each node of a rule's output word, and the output
//! word's morph records, one per contiguous run of positions a morph owns.
use vstd::prelude::*;

use rustc_hash::FxHashMap;

use crate::fxmap::{fx_get_i64, fx_insert_i64, fx_new};

verus! {

/// How a morph record relates to the word's nodes.
#[derive(Clone, Copy, PartialEq, Eq, Debug, Structural)]
pub enum MorphStatus {
    /// The record owns the nodes from its `order` up to the next real record's.
    Real,
    /// A marker not yet attached to any node.
    Floating,
    /// A marker attached to the real record sharing its order.
    SubsumedChild,
    /// A marker attached to the word's first node.
    SubsumedFirst,
}

/// Where an output node of a rule came from.
#[derive(Clone, Copy, PartialEq, Eq, Debug, Structural)]
pub enum Origin {
    /// Copied from interior node `idx` of the head (input) word.
    Head(usize),
    /// Copied from interior node `idx` of the non-head word.
    NonHead(usize),
    /// New material of the affix.
    Affix,
    /// Linker material that belongs to no morpheme.
    Insert,
}

/// One morph of a word: the allomorph and morpheme it realises, the position of its first node,
/// the parts the rule passed over, its status, and the runtime root it was analysed against (an
/// opaque handle carried along unchanged).
#[derive(Clone, PartialEq, Eq, Debug)]
pub struct MorphRecord {
    pub allomorph: u32,
    pub morpheme: u32,
    pub order: u32,
    pub passed_over: Option<Vec<u16>>,
    pub status: MorphStatus,
    pub runtime_root: Option<u32>,
}

/// A morph record as a value.
pub ghost struct MorphView {
    pub allomorph: u32,
    pub morpheme: u32,
    pub order: u32,
    pub passed_over: Option<Seq<u16>>,
    pub status: MorphStatus,
    pub runtime_root: Option<u32>,
}

/// The parts a rule passed over, as a value.
pub open spec fn parts_view(p: Option<Vec<u16>>) -> Option<Seq<u16>> {
    match p {
        Some(v) => Some(v@),
        None => None,
    }
}

impl View for MorphRecord {
    type V = MorphView;

    open spec fn view(&self) -> MorphView {
        MorphView {
            allomorph: self.allomorph,
            morpheme: self.morpheme,
            order: self.order,
            passed_over: parts_view(self.passed_over),
            status: self.status,
            runtime_root: self.runtime_root,
        }
    }
}

/// The records of a slice, as values.
pub open spec fn views(s: Seq<MorphRecord>) -> Seq<MorphView> {
    s.map_values(|r: MorphRecord| r@)
}

/// The index of the morph that owns node `idx`: among the real records starting at or before
/// `idx`, the one with the largest order, the last of them if several share it.
pub open spec fn owner(ms: Seq<MorphView>, idx: int) -> Option<int>
    decreases ms.len(),
{
    if ms.len() == 0 {
        None
    } else {
        let prev = owner(ms.drop_last(), idx);
        let i = ms.len() - 1;
        if ms[i].status == MorphStatus::Real && ms[i].order <= idx && (prev matches Some(p) ==> ms[p].order
            <= ms[i].order) {
            Some(i)
        } else {
            prev
        }
    }
}

/// The real records at or before `idx`.
pub open spec fn owns_candidate(ms: Seq<MorphView>, idx: int, j: int) -> bool {
    0 <= j < ms.len() && ms[j].status == MorphStatus::Real && ms[j].order <= idx
}

/// `owner` is the last real record with the largest order at or before `idx`, and there is none
/// exactly when no real record starts at or before `idx`.
pub proof fn lemma_owner(ms: Seq<MorphView>, idx: int)
    ensures
        owner(ms, idx) is None <==> (forall|j: int| !#[trigger] owns_candidate(ms, idx, j)),
        owner(ms, idx) matches Some(i) ==> {
            &&& owns_candidate(ms, idx, i)
            &&& forall|j: int| #[trigger] owns_candidate(ms, idx, j) ==> ms[j].order <= ms[i].order
            &&& forall|j: int| i < j && #[trigger] owns_candidate(ms, idx, j) ==> ms[j].order < ms[i].order
        },
    decreases ms.len(),
{
    if ms.len() > 0 {
        let pre = ms.drop_last();
        let last = ms.len() - 1;
        lemma_owner(pre, idx);
        assert forall|j: int| #[trigger] owns_candidate(ms, idx, j) && j < last implies owns_candidate(pre, idx, j)
            && pre[j] == ms[j] by {}
        assert forall|j: int| #[trigger] owns_candidate(pre, idx, j) implies owns_candidate(ms, idx, j) && pre[j]
            == ms[j] by {}
        if let Some(p) = owner(pre, idx) {
            assert(pre[p] == ms[p]);
            assert(owns_candidate(pre, idx, p));
        } else {
            assert forall|j: int| owns_candidate(ms, idx, j) implies owner(ms, idx) is Some by {
                if j < last {
                    assert(owns_candidate(pre, idx, j));
                }
            }
        }
    } else {
        assert forall|j: int| !#[trigger] owns_candidate(ms, idx, j) by {}
    }
    if let Some(i) = owner(ms, idx) {
        assert(owns_candidate(ms, idx, i));
    }
}

/// The morph that owns node `idx`: the real record with the largest order at or before `idx` (the
/// last of them if several share it), or `None` when no real record starts at or before it.
pub fn owning_morph(morphs: &[MorphRecord], idx: usize) -> (r: Option<usize>)
    ensures
        r == (match owner(views(morphs@), idx as int) {
            Some(i) => Some(i as usize),
            None => None::<usize>,
        }),
        r is None <==> (forall|j: int|
            0 <= j < morphs@.len() ==> !(morphs@[j].status == MorphStatus::Real && morphs@[j].order <= idx)),
        r matches Some(i) ==> {
            &&& i < morphs@.len()
            &&& morphs@[i as int].status == MorphStatus::Real
            &&& morphs@[i as int].order <= idx
            &&& forall|j: int|
                0 <= j < morphs@.len() && morphs@[j].status == MorphStatus::Real && morphs@[j].order <= idx
                    ==> morphs@[j].order <= morphs@[i as int].order
            &&& forall|j: int|
                i < j < morphs@.len() && morphs@[j].status == MorphStatus::Real && morphs@[j].order <= idx
                    ==> morphs@[j].order < morphs@[i as int].order
        },
{
    let mut best: Option<usize> = None;
    let mut i: usize = 0;
    while i < morphs.len()
        invariant
            i <= morphs@.len(),
            best == (match owner(views(morphs@).take(i as int), idx as int) {
                Some(b) => Some(b as usize),
                None => None::<usize>,
            }),
            forall|b: int| owner(views(morphs@).take(i as int), idx as int) == Some(b) ==> 0 <= b < i,
        decreases morphs@.len() - i,
    {
        let m = &morphs[i];
        proof {
            let vs = views(morphs@);
            assert(vs.take(i as int + 1).drop_last() =~= vs.take(i as int));
            lemma_owner(vs.take(i as int), idx as int);
        }
        let take_it = m.status == MorphStatus::Real && (m.order as usize) <= idx && match best {
            Some(b) => morphs[b].order <= m.order,
            None => true,
        };
        if take_it {
            best = Some(i);
        }
        i = i + 1;
    }
    proof {
        let vs = views(morphs@);
        assert(vs.take(morphs@.len() as int) =~= vs);
        lemma_owner(vs, idx as int);
        assert forall|j: int| 0 <= j < morphs@.len() implies #[trigger] owns_candidate(vs, idx as int, j) == (
        morphs@[j].status == MorphStatus::Real && morphs@[j].order <= idx) by {
            assert(vs[j] == morphs@[j]@);
        }
        if let Some(b) = owner(vs, idx as int) {
            assert(owns_candidate(vs, idx as int, b));
            assert forall|j: int|
                0 <= j < morphs@.len() && morphs@[j].status == MorphStatus::Real && morphs@[j].order <= idx
                implies morphs@[j].order <= morphs@[b].order && (b < j ==> morphs@[j].order < morphs@[b].order) by {
                assert(owns_candidate(vs, idx as int, j));
            }
        } else {
            assert forall|j: int| 0 <= j < morphs@.len() implies !(morphs@[j].status == MorphStatus::Real
                && morphs@[j].order <= idx) by {
                assert(!owns_candidate(vs, idx as int, j));
            }
        }
    }
    best
}

/// The order of an unresolved floating marker: past every real position, so it owns no node and
/// sorts last.
pub const FLOATING_ORDER: u32 = 0xffff_ffffu32;

/// Whose output positions a run belongs to: a morph of the head word, a morph of the non-head
/// word, or the affix.
#[derive(Clone, Copy, PartialEq, Eq, Debug, Structural)]
pub enum MorphKey {
    Head(usize),
    NonHead(usize),
    Affix,
}

/// The key output position `pos` is attributed to, if any: the owner of the node it was copied
/// from, or the affix for new affix material (only when a rule's affix is given).
pub open spec fn key_at(
    origins: Seq<Origin>,
    head: Seq<MorphView>,
    non_head: Option<Seq<MorphView>>,
    has_affix: bool,
    pos: int,
) -> Option<MorphKey> {
    match origins[pos] {
        Origin::Head(idx) => match owner(head, idx as int) {
            Some(mi) => Some(MorphKey::Head(mi as usize)),
            None => None,
        },
        Origin::NonHead(idx) => match non_head {
            Some(nh) => match owner(nh, idx as int) {
                Some(mi) => Some(MorphKey::NonHead(mi as usize)),
                None => None,
            },
            None => None,
        },
        Origin::Affix => if has_affix {
            Some(MorphKey::Affix)
        } else {
            None
        },
        Origin::Insert => None,
    }
}

/// The keys of all output positions.
pub open spec fn keys_of(
    origins: Seq<Origin>,
    head: Seq<MorphView>,
    non_head: Option<Seq<MorphView>>,
    has_affix: bool,
) -> Seq<Option<MorphKey>> {
    Seq::new(origins.len(), |pos: int| key_at(origins, head, non_head, has_affix, pos))
}

/// The positions below `n` whose key is `k`, ascending.
pub open spec fn positions_upto(keys: Seq<Option<MorphKey>>, k: MorphKey, n: int) -> Seq<u32>
    decreases n,
{
    if n <= 0 {
        Seq::empty()
    } else {
        let ps = positions_upto(keys, k, n - 1);
        if keys[n - 1] == Some(k) {
            ps.push((n - 1) as u32)
        } else {
            ps
        }
    }
}

/// The positions whose key is `k`, ascending.
pub open spec fn positions(keys: Seq<Option<MorphKey>>, k: MorphKey) -> Seq<u32> {
    positions_upto(keys, k, keys.len() as int)
}

/// The maximal runs of consecutive values in `ps`, as `(first, length)`.
pub open spec fn runs(ps: Seq<u32>) -> Seq<(u32, u32)>
    decreases ps.len(),
{
    if ps.len() == 0 {
        Seq::empty()
    } else {
        let rs = runs(ps.drop_last());
        let p = ps.last();
        if rs.len() > 0 && rs.last().0 + rs.last().1 == p {
            rs.update(rs.len() - 1, (rs.last().0, (rs.last().1 + 1) as u32))
        } else {
            rs.push((p, 1u32))
        }
    }
}

/// The first of the longest runs.
pub open spec fn longest_run(rs: Seq<(u32, u32)>) -> (u32, u32)
    decreases rs.len(),
{
    if rs.len() <= 1 {
        rs[0]
    } else {
        let b = longest_run(rs.drop_last());
        if rs.last().1 > b.1 {
            rs.last()
        } else {
            b
        }
    }
}

/// Where the longest run of `k` starts, if `k` owns any position.
pub open spec fn longest_order(keys: Seq<Option<MorphKey>>, k: MorphKey) -> Option<u32> {
    if positions(keys, k).len() > 0 {
        Some(longest_run(runs(positions(keys, k))).0)
    } else {
        None
    }
}

/// `m` placed at `order` with `status`.
pub open spec fn placed(m: MorphView, order: u32, status: MorphStatus) -> MorphView {
    MorphView { order, status, ..m }
}

/// One real record of `m` per run.
pub open spec fn run_records(rs: Seq<(u32, u32)>, m: MorphView) -> Seq<MorphView> {
    rs.map_values(|r: (u32, u32)| placed(m, r.0, MorphStatus::Real))
}

/// The first real record of `ms` at `order`.
pub open spec fn first_real_at(ms: Seq<MorphView>, order: u32) -> Option<int>
    decreases ms.len(),
{
    if ms.len() == 0 {
        None
    } else {
        match first_real_at(ms.drop_last(), order) {
            Some(h) => Some(h),
            None => if ms.last().status == MorphStatus::Real && ms.last().order == order {
                Some(ms.len() - 1)
            } else {
                None
            },
        }
    }
}

/// `x` inserted into `s` after every record whose order is at most its own.
pub open spec fn insert_by_order(s: Seq<MorphView>, x: MorphView) -> Seq<MorphView>
    decreases s.len(),
{
    if s.len() == 0 || s.last().order <= x.order {
        s.push(x)
    } else {
        insert_by_order(s.drop_last(), x).push(s.last())
    }
}

/// `s` sorted by order, records of equal order kept in their order in `s`.
pub open spec fn sort_by_order(s: Seq<MorphView>) -> Seq<MorphView>
    decreases s.len(),
{
    if s.len() == 0 {
        s
    } else {
        insert_by_order(sort_by_order(s.drop_last()), s.last())
    }
}

proof fn lemma_insert_at(s: Seq<MorphView>, x: MorphView, j: int)
    requires
        0 <= j <= s.len(),
        forall|k: int| j <= k < s.len() ==> s[k].order > x.order,
        j > 0 ==> s[j - 1].order <= x.order,
    ensures
        insert_by_order(s, x) =~= s.take(j).push(x) + s.skip(j),
    decreases s.len(),
{
    if s.len() > 0 && s.last().order > x.order {
        lemma_insert_at(s.drop_last(), x, j);
        assert(s.drop_last().take(j) =~= s.take(j));
        assert(s.drop_last().skip(j).push(s.last()) =~= s.skip(j));
    } else if s.len() > 0 {
        assert(s.take(j) =~= s);
    }
}

/// A copy of a record with the same value.
fn copy_record(m: &MorphRecord) -> (r: MorphRecord)
    ensures
        r@ == m@,
{
    let passed_over = match &m.passed_over {
        Some(v) => {
            let mut c: Vec<u16> = Vec::new();
            let mut i: usize = 0;
            while i < v.len()
                invariant
                    i <= v@.len(),
                    c@ =~= v@.take(i as int),
                decreases v@.len() - i,
            {
                c.push(v[i]);
                i = i + 1;
            }
            assert(v@.take(v@.len() as int) =~= v@);
            Some(c)
        },
        None => None,
    };
    MorphRecord {
        allomorph: m.allomorph,
        morpheme: m.morpheme,
        order: m.order,
        passed_over,
        status: m.status,
        runtime_root: m.runtime_root,
    }
}

/// A copy of `m` placed at `order` with `status`.
fn place(m: &MorphRecord, order: u32, status: MorphStatus) -> (r: MorphRecord)
    ensures
        r@ == placed(m@, order, status),
{
    let mut r = copy_record(m);
    r.order = order;
    r.status = status;
    r
}

/// Whether `x` occurs in `v`.
fn contains_u32(v: &Vec<u32>, x: u32) -> (b: bool)
    ensures
        b == v@.contains(x),
{
    let mut i: usize = 0;
    while i < v.len()
        invariant
            i <= v@.len(),
            forall|j: int| 0 <= j < i ==> v@[j] != x,
        decreases v@.len() - i,
    {
        if v[i] == x {
            return true;
        }
        i = i + 1;
    }
    false
}

/// The runs of consecutive values in `ps`.
fn runs_of(ps: &Vec<u32>) -> (rs: Vec<(u32, u32)>)
    requires
        ps@.len() <= u32::MAX,
    ensures
        rs@ == runs(ps@),
{
    let mut rs: Vec<(u32, u32)> = Vec::new();
    let mut i: usize = 0;
    while i < ps.len()
        invariant
            i <= ps@.len(),
            ps@.len() <= u32::MAX,
            rs@ == runs(ps@.take(i as int)),
            forall|a: int| 0 <= a < rs@.len() ==> rs@[a].1 <= i,
        decreases ps@.len() - i,
    {
        let p = ps[i];
        proof {
            assert(ps@.take(i as int + 1).drop_last() =~= ps@.take(i as int));
        }
        let n = rs.len();
        if n > 0 && rs[n - 1].0 as u64 + rs[n - 1].1 as u64 == p as u64 {
            let last = rs[n - 1];
            assert(last.1 < u32::MAX);
            rs.set(n - 1, (last.0, last.1 + 1));
        } else {
            rs.push((p, 1));
        }
        i = i + 1;
    }
    assert(ps@.take(ps@.len() as int) =~= ps@);
    rs
}

/// Where the first of the longest runs starts.
fn longest_run_order(rs: &Vec<(u32, u32)>) -> (o: u32)
    requires
        rs@.len() > 0,
    ensures
        o == longest_run(rs@).0,
{
    let mut best = rs[0];
    let mut i: usize = 1;
    while i < rs.len()
        invariant
            1 <= i <= rs@.len(),
            best == longest_run(rs@.take(i as int)),
        decreases rs@.len() - i,
    {
        proof {
            assert(rs@.take(i as int + 1).drop_last() =~= rs@.take(i as int));
        }
        if rs[i].1 > best.1 {
            best = rs[i];
        }
        i = i + 1;
    }
    assert(rs@.take(rs@.len() as int) =~= rs@);
    best.0
}

/// The first real record of `ms` at `order`.
fn find_first_real_at(ms: &[MorphRecord], order: u32) -> (h: Option<usize>)
    ensures
        h == (match first_real_at(views(ms@), order) {
            Some(i) => Some(i as usize),
            None => None::<usize>,
        }),
{
    let ghost vs = views(ms@);
    let mut i: usize = 0;
    while i < ms.len()
        invariant
            i <= ms@.len(),
            vs == views(ms@),
            first_real_at(vs.take(i as int), order) is None,
        decreases ms@.len() - i,
    {
        proof {
            assert(vs.take(i as int + 1).drop_last() =~= vs.take(i as int));
        }
        if ms[i].status == MorphStatus::Real && ms[i].order == order {
            proof {
                lemma_first_real_prefix(vs, order, i as int + 1);
            }
            return Some(i);
        }
        i = i + 1;
    }
    assert(vs.take(ms@.len() as int) =~= vs);
    None
}

/// Once found in a prefix, the first real record at `order` stays the same in the whole sequence.
proof fn lemma_first_real_prefix(ms: Seq<MorphView>, order: u32, n: int)
    requires
        0 <= n <= ms.len(),
        first_real_at(ms.take(n), order) is Some,
    ensures
        first_real_at(ms, order) == first_real_at(ms.take(n), order),
    decreases ms.len() - n,
{
    if n < ms.len() {
        assert(ms.take(n + 1).drop_last() =~= ms.take(n));
        lemma_first_real_prefix(ms, order, n + 1);
    } else {
        assert(ms.take(n) =~= ms);
    }
}

/// `records` sorted by order, records of equal order kept in their given order.
fn sort_records(records: &Vec<MorphRecord>) -> (out: Vec<MorphRecord>)
    ensures
        views(out@) == sort_by_order(views(records@)),
{
    let ghost vs = views(records@);
    let mut out: Vec<MorphRecord> = Vec::new();
    let mut i: usize = 0;
    while i < records.len()
        invariant
            i <= records@.len(),
            vs == views(records@),
            views(out@) == sort_by_order(vs.take(i as int)),
        decreases records@.len() - i,
    {
        let x = copy_record(&records[i]);
        let mut j: usize = out.len();
        while j > 0 && out[j - 1].order > x.order
            invariant
                j <= out@.len(),
                forall|k: int| j <= k < out@.len() ==> out@[k].order > x.order,
            decreases j,
        {
            j = j - 1;
        }
        let ghost before = views(out@);
        proof {
            assert(vs.take(i as int + 1).drop_last() =~= vs.take(i as int));
            assert(vs.take(i as int + 1).last() == x@);
            lemma_insert_at(before, x@, j as int);
        }
        out.insert(j, x);
        assert(views(out@) =~= before.take(j as int).push(x@) + before.skip(j as int));
        i = i + 1;
    }
    assert(vs.take(records@.len() as int) =~= vs);
    out
}

/// The key's code in the map of runs: 0 for the affix, odd for head morphs, even for non-head ones.
pub open spec fn key_code(k: MorphKey) -> int {
    match k {
        MorphKey::Affix => 0,
        MorphKey::Head(mi) => 2 * mi + 1,
        MorphKey::NonHead(mi) => 2 * mi + 2,
    }
}

/// The key's morph index is small enough for its code to fit an `i64`.
pub open spec fn key_fits(k: MorphKey) -> bool {
    match k {
        MorphKey::Affix => true,
        MorphKey::Head(mi) => mi < 0x2000_0000_0000_0000,
        MorphKey::NonHead(mi) => mi < 0x2000_0000_0000_0000,
    }
}

fn code_of(k: MorphKey) -> (c: i64)
    requires
        key_fits(k),
    ensures
        c == key_code(k),
{
    match k {
        MorphKey::Affix => 0,
        MorphKey::Head(mi) => 2 * (mi as i64) + 1,
        MorphKey::NonHead(mi) => 2 * (mi as i64) + 2,
    }
}

/// The map from key codes to slots, the slots' keys and the slots' position lists hold, for the
/// first `n` positions, exactly the keys owning a position and their positions.
pub open spec fn grouped(
    keys: Seq<Option<MorphKey>>,
    n: int,
    m: Map<i64, usize>,
    slot_keys: Seq<MorphKey>,
    lists: Seq<Vec<u32>>,
) -> bool {
    &&& slot_keys.len() == lists.len()
    &&& forall|s: int|
        0 <= s < slot_keys.len() ==> key_fits(#[trigger] slot_keys[s]) && lists[s]@ == positions_upto(
            keys,
            slot_keys[s],
            n,
        ) && lists[s]@.len() > 0 && m.contains_key(key_code(slot_keys[s]) as i64) && m[key_code(slot_keys[s]) as i64]
            == s
    &&& forall|k: MorphKey|
        key_fits(k) && #[trigger] m.contains_key(key_code(k) as i64) ==> m[key_code(k) as i64] < slot_keys.len()
            && slot_keys[m[key_code(k) as i64] as int] == k
    &&& forall|k: MorphKey|
        key_fits(k) && #[trigger] positions_upto(keys, k, n).len() > 0 ==> m.contains_key(key_code(k) as i64)
}

/// Every key of `keys` fits.
pub open spec fn keys_fit(keys: Seq<Option<MorphKey>>) -> bool {
    forall|p: int| 0 <= p < keys.len() ==> (#[trigger] keys[p] matches Some(k) ==> key_fits(k))
}

/// Group the positions by key.
fn group_positions(keys: &Vec<Option<MorphKey>>) -> (res: (FxHashMap<i64, usize>, Vec<MorphKey>, Vec<Vec<u32>>))
    requires
        keys@.len() <= u32::MAX,
        keys_fit(keys@),
    ensures
        grouped(keys@, keys@.len() as int, res.0@, res.1@, res.2@),
{
    let mut m: FxHashMap<i64, usize> = fx_new();
    let mut slot_keys: Vec<MorphKey> = Vec::new();
    let mut lists: Vec<Vec<u32>> = Vec::new();
    let mut pos: usize = 0;
    while pos < keys.len()
        invariant
            pos <= keys@.len(),
            keys@.len() <= u32::MAX,
            keys_fit(keys@),
            grouped(keys@, pos as int, m@, slot_keys@, lists@),
        decreases keys@.len() - pos,
    {
        let ghost n = pos as int;
        assert forall|k: MorphKey| #[trigger] positions_upto(keys@, k, n + 1) == (if keys@[n] == Some(k) {
            positions_upto(keys@, k, n).push(n as u32)
        } else {
            positions_upto(keys@, k, n)
        }) by {}
        match keys[pos] {
            None => {
                assert forall|k: MorphKey| positions_upto(keys@, k, n + 1) == positions_upto(keys@, k, n) by {
                    assert(positions_upto(keys@, k, n + 1) == positions_upto(keys@, k, n));
                }
            },
            Some(k) => {
                assert(keys@[n] matches Some(kk) ==> key_fits(kk));
                let c = code_of(k);
                assert(c == key_code(k) as i64);
                match fx_get_i64(&m, c) {
                    Some(s) => {
                        assert(m@.contains_key(key_code(k) as i64));
                        assert(s < slot_keys@.len() && slot_keys@[s as int] == k);
                        let ghost old_lists = lists@;
                        let mut l = Vec::new();
                        std::mem::swap(&mut l, &mut lists[s]);
                        assert(l == old_lists[s as int]);
                        assert(old_lists[s as int]@ == positions_upto(keys@, k, n));
                        l.push(pos as u32);
                        lists.set(s, l);
                        assert(lists@[s as int]@ == positions_upto(keys@, k, n).push(n as u32));
                        assert forall|t: int| 0 <= t < slot_keys@.len() implies lists@[t]@ == positions_upto(
                            keys@,
                            #[trigger] slot_keys@[t],
                            n + 1,
                        ) by {
                            assert(positions_upto(keys@, slot_keys@[t], n + 1) == (if keys@[n] == Some(
                                slot_keys@[t],
                            ) {
                                positions_upto(keys@, slot_keys@[t], n).push(n as u32)
                            } else {
                                positions_upto(keys@, slot_keys@[t], n)
                            }));
                            if t != s as int {
                                assert(lists@[t] == old_lists[t]);
                                assert(slot_keys@[t] != k);
                            }
                        }
                    },
                    None => {
                        let mut l = Vec::new();
                        l.push(pos as u32);
                        let ghost old_keys = slot_keys@;
                        let ghost old_lists = lists@;
                        fx_insert_i64(&mut m, c, slot_keys.len());
                        slot_keys.push(k);
                        lists.push(l);
                        assert(positions_upto(keys@, k, n).len() == 0);
                        assert forall|t: int| 0 <= t < slot_keys@.len() implies lists@[t]@ == positions_upto(
                            keys@,
                            #[trigger] slot_keys@[t],
                            n + 1,
                        ) by {
                            assert(positions_upto(keys@, slot_keys@[t], n + 1) == (if keys@[n] == Some(
                                slot_keys@[t],
                            ) {
                                positions_upto(keys@, slot_keys@[t], n).push(n as u32)
                            } else {
                                positions_upto(keys@, slot_keys@[t], n)
                            }));
                            if t < old_keys.len() {
                                assert(slot_keys@[t] == old_keys[t]);
                                assert(lists@[t] == old_lists[t]);
                                assert(slot_keys@[t] != k);
                            } else {
                                assert(positions_upto(keys@, k, n) =~= Seq::<u32>::empty());
                            }
                        }
                    },
                }
            },
        }
        pos = pos + 1;
    }
    (m, slot_keys, lists)
}

proof fn lemma_positions_len(keys: Seq<Option<MorphKey>>, k: MorphKey, n: int)
    requires
        0 <= n,
    ensures
        positions_upto(keys, k, n).len() <= n,
    decreases n,
{
    if n > 0 {
        lemma_positions_len(keys, k, n - 1);
    }
}

/// The runs of every key owning a position, reachable by the key's code.
struct RunTable {
    slot_of: FxHashMap<i64, usize>,
    slot_keys: Vec<MorphKey>,
    slot_runs: Vec<Vec<(u32, u32)>>,
    pos_keys: Ghost<Seq<Option<MorphKey>>>,
}

impl RunTable {
    spec fn wf(&self) -> bool {
        let keys = self.pos_keys@;
        let m = self.slot_of@;
        &&& self.slot_keys@.len() == self.slot_runs@.len()
        &&& forall|s: int|
            0 <= s < self.slot_keys@.len() ==> key_fits(#[trigger] self.slot_keys@[s]) && self.slot_runs@[s]@
                == runs(positions(keys, self.slot_keys@[s])) && positions(keys, self.slot_keys@[s]).len() > 0
                && m.contains_key(key_code(self.slot_keys@[s]) as i64) && m[key_code(self.slot_keys@[s]) as i64]
                == s
        &&& forall|k: MorphKey|
            key_fits(k) && #[trigger] m.contains_key(key_code(k) as i64) ==> m[key_code(k) as i64]
                < self.slot_keys@.len() && self.slot_keys@[m[key_code(k) as i64] as int] == k
        &&& forall|k: MorphKey|
            key_fits(k) && #[trigger] positions(keys, k).len() > 0 ==> m.contains_key(key_code(k) as i64)
    }

    /// Group the positions of `keys` by key and cut each group into runs.
    fn build(keys: &Vec<Option<MorphKey>>) -> (t: RunTable)
        requires
            keys@.len() <= u32::MAX,
            keys_fit(keys@),
        ensures
            t.wf(),
            t.pos_keys@ == keys@,
    {
        let (slot_of, slot_keys, lists) = group_positions(keys);
        let mut slot_runs: Vec<Vec<(u32, u32)>> = Vec::new();
        let mut s: usize = 0;
        while s < lists.len()
            invariant
                s <= lists@.len(),
                keys@.len() <= u32::MAX,
                grouped(keys@, keys@.len() as int, slot_of@, slot_keys@, lists@),
                slot_runs@.len() == s,
                forall|t: int| 0 <= t < s ==> #[trigger] slot_runs@[t]@ == runs(lists@[t]@),
            decreases lists@.len() - s,
        {
            proof {
                assert(key_fits(slot_keys@[s as int]));
                lemma_positions_len(keys@, slot_keys@[s as int], keys@.len() as int);
            }
            let rs = runs_of(&lists[s]);
            slot_runs.push(rs);
            s = s + 1;
        }
        let t = RunTable { slot_of, slot_keys, slot_runs, pos_keys: Ghost(keys@) };
        assert forall|s: int| 0 <= s < t.slot_keys@.len() implies t.slot_runs@[s]@ == runs(
            positions(keys@, #[trigger] t.slot_keys@[s]),
        ) by {
            assert(key_fits(slot_keys@[s]));
        }
        t
    }

    /// The runs of `k`, if it owns any position.
    fn get(&self, k: MorphKey) -> (r: Option<&Vec<(u32, u32)>>)
        requires
            self.wf(),
            key_fits(k),
        ensures
            r matches Some(v) ==> positions(self.pos_keys@, k).len() > 0 && v@ == runs(positions(self.pos_keys@, k)),
            r is None ==> positions(self.pos_keys@, k).len() == 0,
    {
        let c = code_of(k);
        assert(c == key_code(k) as i64);
        match fx_get_i64(&self.slot_of, c) {
            Some(s) => {
                assert(self.slot_of@.contains_key(key_code(k) as i64));
                assert(key_fits(self.slot_keys@[s as int]));
                Some(&self.slot_runs[s])
            },
            None => {
                proof {
                    if positions(self.pos_keys@, k).len() > 0 {
                        assert(self.slot_of@.contains_key(key_code(k) as i64));
                    }
                }
                None
            },
        }
    }

    /// Where the first of the longest runs of `k` starts, if `k` owns any position.
    fn longest(&self, k: MorphKey) -> (o: Option<u32>)
        requires
            self.wf(),
            key_fits(k),
        ensures
            o == longest_order(self.pos_keys@, k),
    {
        match self.get(k) {
            Some(rs) => {
                proof {
                    lemma_runs_nonempty(positions(self.pos_keys@, k));
                }
                Some(longest_run_order(rs))
            },
            None => None,
        }
    }
}

proof fn lemma_runs_nonempty(ps: Seq<u32>)
    ensures
        ps.len() > 0 <==> runs(ps).len() > 0,
    decreases ps.len(),
{
    if ps.len() > 0 {
        lemma_runs_nonempty(ps.drop_last());
    }
}

/// The morphs of the non-head word, as values, if there is one.
pub open spec fn opt_views(non_head: Option<&[MorphRecord]>) -> Option<Seq<MorphView>> {
    match non_head {
        Some(nh) => Some(views(nh@)),
        None => None,
    }
}

/// The key of every output position.
fn output_keys(origins: &[Origin], head: &[MorphRecord], non_head: Option<&[MorphRecord]>, has_affix: bool) -> (keys:
    Vec<Option<MorphKey>>)
    ensures
        keys@ == keys_of(origins@, views(head@), opt_views(non_head), has_affix),
        head@.len() <= 0x2000_0000_0000_0000 && (non_head matches Some(nh) ==> nh@.len() <= 0x2000_0000_0000_0000)
            ==> keys_fit(keys@),
{
    let ghost spec_keys = keys_of(origins@, views(head@), opt_views(non_head), has_affix);
    let mut keys: Vec<Option<MorphKey>> = Vec::new();
    let mut pos: usize = 0;
    while pos < origins.len()
        invariant
            pos <= origins@.len(),
            spec_keys == keys_of(origins@, views(head@), opt_views(non_head), has_affix),
            keys@ == spec_keys.take(pos as int),
            forall|p: int|
                0 <= p < pos ==> match #[trigger] keys@[p] {
                    Some(MorphKey::Head(mi)) => mi < head@.len(),
                    Some(MorphKey::NonHead(mi)) => non_head matches Some(nh) && mi < nh@.len(),
                    _ => true,
                },
        decreases origins@.len() - pos,
    {
        let key = match origins[pos] {
            Origin::Head(idx) => match owning_morph(head, idx) {
                Some(mi) => Some(MorphKey::Head(mi)),
                None => None,
            },
            Origin::NonHead(idx) => match non_head {
                Some(nh) => match owning_morph(nh, idx) {
                    Some(mi) => Some(MorphKey::NonHead(mi)),
                    None => None,
                },
                None => None,
            },
            Origin::Affix => if has_affix {
                Some(MorphKey::Affix)
            } else {
                None
            },
            Origin::Insert => None,
        };
        proof {
            assert(views(head@).len() == head@.len());
            if let Some(nh) = non_head {
                assert(views(nh@).len() == nh@.len());
            }
        }
        keys.push(key);
        assert(keys@ =~= spec_keys.take(pos as int + 1));
        pos = pos + 1;
    }
    assert(spec_keys.take(origins@.len() as int) =~= spec_keys);
    keys
}

/// What the second pass over the head word's morphs works from: the position keys, the head
/// word's morphs, whether a rule's affix is given, where the affix's longest run starts, and
/// whether the output has any node.
pub ghost struct PassContext {
    pub keys: Seq<Option<MorphKey>>,
    pub head: Seq<MorphView>,
    pub affix: bool,
    pub host: Option<u32>,
    pub nonempty: bool,
}

/// Where a subsumed record `m` of the head word is re-anchored, and with which status: onto its
/// host's longest run while the host keeps nodes, else onto the affix's longest run, else (a pure
/// truncation) a first-node marker stays at the first node and a child marker is lost.
pub open spec fn subsumed_anchor(cx: PassContext, m: MorphView) -> Option<(u32, MorphStatus)> {
    let host_runs = match first_real_at(cx.head, m.order) {
        Some(h) => longest_order(cx.keys, MorphKey::Head(h as usize)),
        None => None,
    };
    match host_runs {
        Some(o) => Some((o, m.status)),
        None => match cx.host {
            Some(o) => Some((o, MorphStatus::SubsumedChild)),
            None => if m.status == MorphStatus::SubsumedFirst && cx.nonempty {
                Some((0u32, MorphStatus::SubsumedFirst))
            } else {
                None
            },
        },
    }
}

/// The records and the marked allomorphs after the head word's morph `mi`: a morph that owns
/// positions gets one real record per run; with no affix an untouched morph is dropped; otherwise
/// an untouched real morph (not yet marked) is subsumed onto the affix's longest run, or onto the
/// first node, and a subsumed marker is re-anchored (see `subsumed_anchor`); floating markers wait
/// for the affix.
pub open spec fn head_step(cx: PassContext, st: (Seq<MorphView>, Seq<u32>), mi: int) -> (Seq<MorphView>, Seq<u32>) {
    let m = cx.head[mi];
    let (recs, marked) = st;
    let k = MorphKey::Head(mi as usize);
    if positions(cx.keys, k).len() > 0 {
        (recs + run_records(runs(positions(cx.keys, k)), m), marked.push(m.allomorph))
    } else if !cx.affix || m.status == MorphStatus::Floating || marked.contains(m.allomorph) {
        st
    } else if m.status == MorphStatus::Real {
        let recs2 = match cx.host {
            Some(o) => recs.push(placed(m, o, MorphStatus::SubsumedChild)),
            None => if cx.nonempty {
                recs.push(placed(m, 0, MorphStatus::SubsumedFirst))
            } else {
                recs
            },
        };
        (recs2, marked.push(m.allomorph))
    } else {
        match subsumed_anchor(cx, m) {
            Some((o, status)) => (recs.push(placed(m, o, status)), marked.push(m.allomorph)),
            None => st,
        }
    }
}

/// The second pass over the first `n` morphs of the head word.
pub open spec fn head_pass(cx: PassContext, n: int) -> (Seq<MorphView>, Seq<u32>)
    decreases n,
{
    if n <= 0 {
        (Seq::empty(), Seq::empty())
    } else {
        head_step(cx, head_pass(cx, n - 1), n - 1)
    }
}

/// The real records of the first `n` morphs of the non-head word, one per run.
pub open spec fn non_head_pass(keys: Seq<Option<MorphKey>>, nh: Seq<MorphView>, n: int) -> Seq<MorphView>
    decreases n,
{
    if n <= 0 {
        Seq::empty()
    } else {
        let k = MorphKey::NonHead((n - 1) as usize);
        let recs = non_head_pass(keys, nh, n - 1);
        if positions(keys, k).len() > 0 {
            recs + run_records(runs(positions(keys, k)), nh[n - 1])
        } else {
            recs
        }
    }
}

/// The floating markers of `ms`, in order.
pub open spec fn floaters(ms: Seq<MorphView>) -> Seq<MorphView>
    decreases ms.len(),
{
    if ms.len() == 0 {
        Seq::empty()
    } else if ms.last().status == MorphStatus::Floating {
        floaters(ms.drop_last()).push(ms.last())
    } else {
        floaters(ms.drop_last())
    }
}

/// The affix's own record at `order`.
pub open spec fn affix_record(allomorph: u32, morpheme: u32, parts: Seq<u16>, order: u32, status: MorphStatus) -> MorphView {
    MorphView { allomorph, morpheme, order, passed_over: Some(parts), status, runtime_root: None }
}

/// The records a rule's affix adds: the head word's floating markers, subsumed onto the affix's
/// longest run or carried over (with the affix's own floating marker minted after them when the
/// affix has no material but the output has nodes), then one real record per run of the affix.
pub open spec fn affix_records(cx: PassContext, allomorph: u32, morpheme: u32, parts: Seq<u16>) -> Seq<MorphView> {
    let fl = floaters(cx.head);
    let markers = match cx.host {
        Some(o) => fl.map_values(|f: MorphView| placed(f, o, MorphStatus::SubsumedChild)),
        None => if cx.nonempty {
            fl.push(affix_record(allomorph, morpheme, parts, FLOATING_ORDER, MorphStatus::Floating))
        } else {
            fl
        },
    };
    let own = runs(positions(cx.keys, MorphKey::Affix)).map_values(
        |r: (u32, u32)| affix_record(allomorph, morpheme, parts, r.0, MorphStatus::Real),
    );
    markers + own
}

/// The rule's affix, if any, as a value.
pub open spec fn affix_view(affix: Option<(u32, u32, &[u16])>) -> Option<(u32, u32, Seq<u16>)> {
    match affix {
        Some((a, mo, p)) => Some((a, mo, p@)),
        None => None,
    }
}

/// The context of the second pass.
pub open spec fn pass_context(
    origins: Seq<Origin>,
    head: Seq<MorphView>,
    non_head: Option<Seq<MorphView>>,
    affix: Option<(u32, u32, Seq<u16>)>,
) -> PassContext {
    let keys = keys_of(origins, head, non_head, affix is Some);
    PassContext {
        keys,
        head,
        affix: affix is Some,
        host: longest_order(keys, MorphKey::Affix),
        nonempty: origins.len() > 0,
    }
}

/// The output word's morph records, before sorting: the head word's, the non-head word's, then
/// the affix's.
pub open spec fn unsorted_records(
    origins: Seq<Origin>,
    head: Seq<MorphView>,
    non_head: Option<Seq<MorphView>>,
    affix: Option<(u32, u32, Seq<u16>)>,
) -> Seq<MorphView> {
    let cx = pass_context(origins, head, non_head, affix);
    let from_non_head = match non_head {
        Some(nh) => non_head_pass(cx.keys, nh, nh.len() as int),
        None => Seq::empty(),
    };
    let from_affix = match affix {
        Some((a, mo, p)) => affix_records(cx, a, mo, p),
        None => Seq::empty(),
    };
    head_pass(cx, head.len() as int).0 + from_non_head + from_affix
}

/// The output word's morph records, sorted by order (records of equal order in the order above).
pub open spec fn attribution(
    origins: Seq<Origin>,
    head: Seq<MorphView>,
    non_head: Option<Seq<MorphView>>,
    affix: Option<(u32, u32, Seq<u16>)>,
) -> Seq<MorphView> {
    sort_by_order(unsorted_records(origins, head, non_head, affix))
}

proof fn lemma_first_real_in_range(ms: Seq<MorphView>, order: u32)
    ensures
        first_real_at(ms, order) matches Some(h) ==> 0 <= h < ms.len(),
    decreases ms.len(),
{
    if ms.len() > 0 {
        lemma_first_real_in_range(ms.drop_last(), order);
    }
}

proof fn lemma_views_push(s: Seq<MorphRecord>, r: MorphRecord)
    ensures
        views(s.push(r)) =~= views(s).push(r@),
{
}

/// Append one real record of `m` per run.
fn push_runs(records: &mut Vec<MorphRecord>, rs: &Vec<(u32, u32)>, m: &MorphRecord)
    ensures
        views(final(records)@) == views(old(records)@) + run_records(rs@, m@),
{
    let ghost base = views(records@);
    let mut i: usize = 0;
    while i < rs.len()
        invariant
            i <= rs@.len(),
            views(records@) == base + run_records(rs@.take(i as int), m@),
        decreases rs@.len() - i,
    {
        let r = place(m, rs[i].0, MorphStatus::Real);
        proof {
            lemma_views_push(records@, r);
            assert(run_records(rs@.take(i as int + 1), m@) =~= run_records(rs@.take(i as int), m@).push(r@));
        }
        records.push(r);
        i = i + 1;
    }
    assert(rs@.take(rs@.len() as int) =~= rs@);
}

/// The context the exec pass works in, as a value.
spec fn context_of(tab: &RunTable, head: &[MorphRecord], affix: bool, host: Option<u32>, nonempty: bool) -> PassContext {
    PassContext { keys: tab.pos_keys@, head: views(head@), affix, host, nonempty }
}

/// Where a subsumed record `m` of the head word is re-anchored.
fn anchor_of(head: &[MorphRecord], tab: &RunTable, host: Option<u32>, nonempty: bool, m: &MorphRecord) -> (a: Option<
    (u32, MorphStatus),
>)
    requires
        tab.wf(),
        head@.len() <= 0x2000_0000_0000_0000,
    ensures
        forall|affix: bool| a == #[trigger] subsumed_anchor(context_of(tab, head, affix, host, nonempty), m@),
{
    let host_runs = match find_first_real_at(head, m.order) {
        Some(h) => {
            proof {
                lemma_first_real_in_range(views(head@), m.order);
            }
            tab.longest(MorphKey::Head(h))
        },
        None => None,
    };
    match host_runs {
        Some(o) => Some((o, m.status)),
        None => match host {
            Some(o) => Some((o, MorphStatus::SubsumedChild)),
            None => if m.status == MorphStatus::SubsumedFirst && nonempty {
                Some((0, MorphStatus::SubsumedFirst))
            } else {
                None
            },
        },
    }
}

/// The second pass over the head word's morphs.
fn head_records(head: &[MorphRecord], tab: &RunTable, affix: bool, host: Option<u32>, nonempty: bool) -> (records: Vec<
    MorphRecord,
>)
    requires
        tab.wf(),
        head@.len() <= 0x2000_0000_0000_0000,
    ensures
        views(records@) == head_pass(context_of(tab, head, affix, host, nonempty), head@.len() as int).0,
{
    let ghost cx = context_of(tab, head, affix, host, nonempty);
    let mut records: Vec<MorphRecord> = Vec::new();
    let mut marked: Vec<u32> = Vec::new();
    let mut mi: usize = 0;
    while mi < head.len()
        invariant
            mi <= head@.len(),
            head@.len() <= 0x2000_0000_0000_0000,
            tab.wf(),
            cx == context_of(tab, head, affix, host, nonempty),
            (views(records@), marked@) == head_pass(cx, mi as int),
        decreases head@.len() - mi,
    {
        let m = &head[mi];
        assert(cx.head[mi as int] == m@);
        match tab.get(MorphKey::Head(mi)) {
            Some(rs) => {
                push_runs(&mut records, rs, m);
                marked.push(m.allomorph);
            },
            None => {
                if affix && m.status != MorphStatus::Floating && !contains_u32(&marked, m.allomorph) {
                    if m.status == MorphStatus::Real {
                        match host {
                            Some(o) => {
                                let r = place(m, o, MorphStatus::SubsumedChild);
                                proof {
                                    lemma_views_push(records@, r);
                                }
                                records.push(r);
                            },
                            None => {
                                if nonempty {
                                    let r = place(m, 0, MorphStatus::SubsumedFirst);
                                    proof {
                                        lemma_views_push(records@, r);
                                    }
                                    records.push(r);
                                }
                            },
                        }
                        marked.push(m.allomorph);
                    } else {
                        let anchor = anchor_of(head, tab, host, nonempty, m);
                        assert(anchor == subsumed_anchor(cx, m@));
                        if let Some((o, st)) = anchor {
                            let r = place(m, o, st);
                            proof {
                                lemma_views_push(records@, r);
                            }
                            records.push(r);
                            marked.push(m.allomorph);
                        }
                    }
                }
            },
        }
        mi = mi + 1;
    }
    records
}

/// Append the real records of the non-head word's morphs, one per run.
fn non_head_records(nh: &[MorphRecord], tab: &RunTable, records: &mut Vec<MorphRecord>)
    requires
        tab.wf(),
        nh@.len() <= 0x2000_0000_0000_0000,
    ensures
        views(final(records)@) == views(old(records)@) + non_head_pass(tab.pos_keys@, views(nh@), nh@.len() as int),
{
    let ghost base = views(records@);
    let mut mi: usize = 0;
    while mi < nh.len()
        invariant
            mi <= nh@.len(),
            nh@.len() <= 0x2000_0000_0000_0000,
            tab.wf(),
            views(records@) == base + non_head_pass(tab.pos_keys@, views(nh@), mi as int),
        decreases nh@.len() - mi,
    {
        assert(views(nh@)[mi as int] == nh@[mi as int]@);
        match tab.get(MorphKey::NonHead(mi)) {
            Some(rs) => {
                push_runs(records, rs, &nh[mi]);
            },
            None => {},
        }
        mi = mi + 1;
    }
}

/// Append the records a rule's affix adds.
fn affix_records_of(
    head: &[MorphRecord],
    tab: &RunTable,
    host: Option<u32>,
    nonempty: bool,
    allomorph: u32,
    morpheme: u32,
    parts: &[u16],
    records: &mut Vec<MorphRecord>,
)
    requires
        tab.wf(),
    ensures
        forall|affix: bool|
            views(final(records)@) == views(old(records)@) + #[trigger] affix_records(
                context_of(tab, head, affix, host, nonempty),
                allomorph,
                morpheme,
                parts@,
            ),
{
    let ghost base = views(records@);
    let ghost vs = views(head@);
    let mut i: usize = 0;
    while i < head.len()
        invariant
            i <= head@.len(),
            vs == views(head@),
            views(records@) == base + match host {
                Some(o) => floaters(vs.take(i as int)).map_values(|f: MorphView| placed(f, o, MorphStatus::SubsumedChild)),
                None => floaters(vs.take(i as int)),
            },
        decreases head@.len() - i,
    {
        proof {
            assert(vs.take(i as int + 1).drop_last() =~= vs.take(i as int));
            assert(vs[i as int] == head@[i as int]@);
        }
        if head[i].status == MorphStatus::Floating {
            let r = match host {
                Some(o) => place(&head[i], o, MorphStatus::SubsumedChild),
                None => copy_record(&head[i]),
            };
            proof {
                lemma_views_push(records@, r);
                if let Some(o) = host {
                    assert(floaters(vs.take(i as int + 1)).map_values(
                        |f: MorphView| placed(f, o, MorphStatus::SubsumedChild),
                    ) =~= floaters(vs.take(i as int)).map_values(
                        |f: MorphView| placed(f, o, MorphStatus::SubsumedChild),
                    ).push(r@));
                }
            }
            records.push(r);
        }
        i = i + 1;
    }
    assert(vs.take(head@.len() as int) =~= vs);
    let ghost with_markers = views(records@);
    if host.is_none() && nonempty {
        let mut own = Vec::new();
        let mut j: usize = 0;
        while j < parts.len()
            invariant
                j <= parts@.len(),
                own@ =~= parts@.take(j as int),
            decreases parts@.len() - j,
        {
            own.push(parts[j]);
            j = j + 1;
        }
        assert(parts@.take(parts@.len() as int) =~= parts@);
        let r = MorphRecord {
            allomorph,
            morpheme,
            order: FLOATING_ORDER,
            passed_over: Some(own),
            status: MorphStatus::Floating,
            runtime_root: None,
        };
        proof {
            lemma_views_push(records@, r);
        }
        records.push(r);
    }
    let ghost after_markers = views(records@);
    match tab.get(MorphKey::Affix) {
        Some(rs) => {
            let mut i: usize = 0;
            while i < rs.len()
                invariant
                    i <= rs@.len(),
                    views(records@) == after_markers + rs@.take(i as int).map_values(
                        |r: (u32, u32)| affix_record(allomorph, morpheme, parts@, r.0, MorphStatus::Real),
                    ),
                decreases rs@.len() - i,
            {
                let mut own = Vec::new();
                let mut j: usize = 0;
                while j < parts.len()
                    invariant
                        j <= parts@.len(),
                        own@ =~= parts@.take(j as int),
                    decreases parts@.len() - j,
                {
                    own.push(parts[j]);
                    j = j + 1;
                }
                assert(parts@.take(parts@.len() as int) =~= parts@);
                let r = MorphRecord {
                    allomorph,
                    morpheme,
                    order: rs[i].0,
                    passed_over: Some(own),
                    status: MorphStatus::Real,
                    runtime_root: None,
                };
                proof {
                    lemma_views_push(records@, r);
                    assert(rs@.take(i as int + 1).map_values(
                        |r: (u32, u32)| affix_record(allomorph, morpheme, parts@, r.0, MorphStatus::Real),
                    ) =~= rs@.take(i as int).map_values(
                        |r: (u32, u32)| affix_record(allomorph, morpheme, parts@, r.0, MorphStatus::Real),
                    ).push(r@));
                }
                records.push(r);
                i = i + 1;
            }
            assert(rs@.take(rs@.len() as int) =~= rs@);
        },
        None => {
            assert(positions(tab.pos_keys@, MorphKey::Affix).len() == 0);
            assert(runs(positions(tab.pos_keys@, MorphKey::Affix)) =~= Seq::<(u32, u32)>::empty());
        },
    }
    assert forall|affix: bool|
        views(records@) == views(old(records)@) + #[trigger] affix_records(
            context_of(tab, head, affix, host, nonempty),
            allomorph,
            morpheme,
            parts@,
        ) by {
        assert(views(records@) =~= views(old(records)@) + affix_records(
            context_of(tab, head, affix, host, nonempty),
            allomorph,
            morpheme,
            parts@,
        ));
    }
}

/// The output word's morph records: one real record per maximal run of consecutive output
/// positions owned by one morph of the head word, of the non-head word, or by the affix, placed at
/// the run's first position; with a rule's affix, the head word's morphs that keep no node are
/// subsumed or re-anchored and its floating markers attached or carried over; sorted by order,
/// records of equal order kept in that order. (The length bounds keep every position within the
/// `u32` orders and every morph index within the run table's codes; no word in memory exceeds
/// them.)
pub fn attribute_morphs(
    origins: &[Origin],
    head: &[MorphRecord],
    non_head: Option<&[MorphRecord]>,
    affix: Option<(u32, u32, &[u16])>,
) -> (records: Vec<MorphRecord>)
    requires
        origins@.len() <= u32::MAX,
        head@.len() <= 0x2000_0000_0000_0000,
        non_head matches Some(nh) ==> nh@.len() <= 0x2000_0000_0000_0000,
    ensures
        views(records@) == attribution(origins@, views(head@), opt_views(non_head), affix_view(affix)),
{
    let has_affix = affix.is_some();
    let keys = output_keys(origins, head, non_head, has_affix);
    let tab = RunTable::build(&keys);
    let host = tab.longest(MorphKey::Affix);
    let nonempty = origins.len() > 0;
    let ghost cx = context_of(&tab, head, has_affix, host, nonempty);
    assert(cx == pass_context(origins@, views(head@), opt_views(non_head), affix_view(affix)));
    let mut records = head_records(head, &tab, has_affix, host, nonempty);
    let ghost from_head = views(records@);
    match non_head {
        Some(nh) => {
            non_head_records(nh, &tab, &mut records);
        },
        None => {},
    }
    let ghost from_both = views(records@);
    match affix {
        Some((a, mo, p)) => {
            affix_records_of(head, &tab, host, nonempty, a, mo, p, &mut records);
            assert(views(records@) == from_both + affix_records(cx, a, mo, p@));
        },
        None => {},
    }
    assert(views(records@) =~= unsorted_records(origins@, views(head@), opt_views(non_head), affix_view(affix)));
    sort_records(&records)
}

/// The records are in ascending order.
pub open spec fn ascending(s: Seq<MorphView>) -> bool {
    forall|i: int, j: int| 0 <= i < j < s.len() ==> s[i].order <= s[j].order
}

proof fn lemma_insert_by_order(s: Seq<MorphView>, x: MorphView)
    ensures
        ascending(s) ==> ascending(insert_by_order(s, x)),
        insert_by_order(s, x).contains(x),
        forall|y: MorphView| #[trigger] insert_by_order(s, x).contains(y) <==> (s.contains(y) || y == x),
    decreases s.len(),
{
    let r = insert_by_order(s, x);
    if s.len() == 0 || s.last().order <= x.order {
        assert(r == s.push(x));
        assert(r[s.len() as int] == x);
        assert forall|y: MorphView| r.contains(y) <==> (s.contains(y) || y == x) by {
            if r.contains(y) {
                let i = choose|i: int| 0 <= i < r.len() && r[i] == y;
                if i < s.len() {
                    assert(s[i] == y);
                }
            }
            if s.contains(y) {
                let i = choose|i: int| 0 <= i < s.len() && s[i] == y;
                assert(r[i] == y);
            }
            if y == x {
                assert(r[s.len() as int] == y);
            }
        }
    } else {
        let pre = s.drop_last();
        let r0 = insert_by_order(pre, x);
        lemma_insert_by_order(pre, x);
        assert(r == r0.push(s.last()));
        assert forall|y: MorphView| r.contains(y) <==> (s.contains(y) || y == x) by {
            if r.contains(y) {
                let i = choose|i: int| 0 <= i < r.len() && r[i] == y;
                if i < r0.len() {
                    assert(r0[i] == y);
                    assert(r0.contains(y));
                    if pre.contains(y) {
                        let j = choose|j: int| 0 <= j < pre.len() && pre[j] == y;
                        assert(s[j] == y);
                    }
                } else {
                    assert(s[s.len() - 1] == y);
                }
            }
            if s.contains(y) {
                let i = choose|i: int| 0 <= i < s.len() && s[i] == y;
                if i < pre.len() {
                    assert(pre[i] == y);
                    assert(pre.contains(y));
                    assert(r0.contains(y) <==> (pre.contains(y) || y == x));
                    assert(r0.contains(y));
                    let j = choose|j: int| 0 <= j < r0.len() && r0[j] == y;
                    assert(r[j] == y);
                } else {
                    assert(r[r.len() - 1] == y);
                }
            }
            if y == x {
                assert(r0.contains(x));
                let j = choose|j: int| 0 <= j < r0.len() && r0[j] == y;
                assert(r[j] == y);
            }
        }
        assert(r0.contains(x));
        let jx = choose|j: int| 0 <= j < r0.len() && r0[j] == x;
        assert(r[jx] == x);
        if ascending(s) {
            assert(ascending(pre));
            assert forall|i: int| 0 <= i < r0.len() implies r0[i].order <= s.last().order by {
                assert(r0.contains(r0[i]));
                if pre.contains(r0[i]) {
                    let j = choose|j: int| 0 <= j < pre.len() && pre[j] == r0[i];
                    assert(s[j] == pre[j]);
                }
            }
            assert forall|i: int, j: int| 0 <= i < j < r.len() implies r[i].order <= r[j].order by {
                if j < r0.len() {
                    assert(r[i] == r0[i] && r[j] == r0[j]);
                } else {
                    assert(r[i] == r0[i]);
                }
            }
        }
    }
}

proof fn lemma_sort_by_order(s: Seq<MorphView>)
    ensures
        ascending(sort_by_order(s)),
        forall|y: MorphView| sort_by_order(s).contains(y) <==> s.contains(y),
    decreases s.len(),
{
    if s.len() > 0 {
        let pre = s.drop_last();
        lemma_sort_by_order(pre);
        lemma_insert_by_order(sort_by_order(pre), s.last());
        assert forall|y: MorphView| sort_by_order(s).contains(y) <==> s.contains(y) by {
            if s.contains(y) {
                let i = choose|i: int| 0 <= i < s.len() && s[i] == y;
                if i < pre.len() {
                    assert(pre[i] == y);
                    assert(pre.contains(y));
                }
            }
            if pre.contains(y) {
                let i = choose|i: int| 0 <= i < pre.len() && pre[i] == y;
                assert(s[i] == y);
            }
            if y == s.last() {
                assert(s[s.len() - 1] == y);
            }
        }
    } else {
        assert(ascending(sort_by_order(s)));
    }
}

/// The output word's morph records come out in ascending order, and are exactly the records built
/// for the head word, the non-head word and the affix.
pub proof fn law_attribution_is_sorted(
    origins: Seq<Origin>,
    head: Seq<MorphView>,
    non_head: Option<Seq<MorphView>>,
    affix: Option<(u32, u32, Seq<u16>)>,
)
    ensures
        ascending(attribution(origins, head, non_head, affix)),
        forall|y: MorphView|
            attribution(origins, head, non_head, affix).contains(y) <==> unsorted_records(
                origins,
                head,
                non_head,
                affix,
            ).contains(y),
{
    lemma_sort_by_order(unsorted_records(origins, head, non_head, affix));
}

proof fn lemma_head_pass_real(cx: PassContext, n: int)
    requires
        !cx.affix,
    ensures
        forall|i: int| 0 <= i < head_pass(cx, n).0.len() ==> (#[trigger] head_pass(cx, n).0[i]).status
            == MorphStatus::Real,
    decreases n,
{
    if n > 0 {
        lemma_head_pass_real(cx, n - 1);
        let prev = head_pass(cx, n - 1).0;
        let cur = head_pass(cx, n).0;
        assert forall|i: int| 0 <= i < cur.len() implies (#[trigger] cur[i]).status == MorphStatus::Real by {
            if i >= prev.len() {
                let k = MorphKey::Head((n - 1) as usize);
                let rr = run_records(runs(positions(cx.keys, k)), cx.head[n - 1]);
                assert(cur == prev + rr);
                assert(cur[i] == rr[i - prev.len()]);
            } else {
                assert(cur[i] == prev[i]);
            }
        }
    }
}

proof fn lemma_non_head_pass_real(keys: Seq<Option<MorphKey>>, nh: Seq<MorphView>, n: int)
    ensures
        forall|i: int| 0 <= i < non_head_pass(keys, nh, n).len() ==> (#[trigger] non_head_pass(keys, nh, n)[i]).status
            == MorphStatus::Real,
    decreases n,
{
    if n > 0 {
        lemma_non_head_pass_real(keys, nh, n - 1);
        let prev = non_head_pass(keys, nh, n - 1);
        let cur = non_head_pass(keys, nh, n);
        assert forall|i: int| 0 <= i < cur.len() implies (#[trigger] cur[i]).status == MorphStatus::Real by {
            if i >= prev.len() {
                let k = MorphKey::NonHead((n - 1) as usize);
                let rr = run_records(runs(positions(keys, k)), nh[n - 1]);
                assert(cur == prev + rr);
                assert(cur[i] == rr[i - prev.len()]);
            } else {
                assert(cur[i] == prev[i]);
            }
        }
    }
}

/// Without an affix (compounding), every output record is real: morphs that keep no node are
/// dropped rather than subsumed.
pub proof fn law_compounding_records_are_real(
    origins: Seq<Origin>,
    head: Seq<MorphView>,
    non_head: Option<Seq<MorphView>>,
)
    ensures
        forall|i: int|
            0 <= i < attribution(origins, head, non_head, None).len() ==> (#[trigger] attribution(
                origins,
                head,
                non_head,
                None,
            )[i]).status == MorphStatus::Real,
{
    let cx = pass_context(origins, head, non_head, None);
    let u = unsorted_records(origins, head, non_head, None);
    let a = attribution(origins, head, non_head, None);
    lemma_head_pass_real(cx, head.len() as int);
    let hp = head_pass(cx, head.len() as int).0;
    let np = match non_head {
        Some(nh) => non_head_pass(cx.keys, nh, nh.len() as int),
        None => Seq::empty(),
    };
    if let Some(nh) = non_head {
        lemma_non_head_pass_real(cx.keys, nh, nh.len() as int);
    }
    assert(u =~= hp + np);
    assert forall|i: int| 0 <= i < u.len() implies (#[trigger] u[i]).status == MorphStatus::Real by {
        if i < hp.len() {
            assert(u[i] == hp[i]);
        } else {
            assert(u[i] == np[i - hp.len()]);
        }
    }
    law_attribution_is_sorted(origins, head, non_head, None);
    assert forall|i: int| 0 <= i < a.len() implies (#[trigger] a[i]).status == MorphStatus::Real by {
        assert(a.contains(a[i]));
        assert(u.contains(a[i]));
        let j = choose|j: int| 0 <= j < u.len() && u[j] == a[i];
        assert(u[j].status == MorphStatus::Real);
    }
}

/// The values of `ps` strictly increase.
pub open spec fn increasing(ps: Seq<u32>) -> bool {
    forall|i: int, j: int| 0 <= i < j < ps.len() ==> ps[i] < ps[j]
}

/// The runs of `ps` are its maximal runs of consecutive values: each run's values all occur in
/// `ps`, the values just before and just after it do not, and every value of `ps` lies in a run.
pub open spec fn maximal_runs(ps: Seq<u32>, rs: Seq<(u32, u32)>) -> bool {
    &&& forall|i: int| 0 <= i < rs.len() ==> (#[trigger] rs[i]).1 >= 1
    &&& forall|i: int, q: u32|
        #![trigger ps.contains(q), rs[i]]
        0 <= i < rs.len() && rs[i].0 <= q < rs[i].0 + rs[i].1 ==> ps.contains(q)
    &&& forall|i: int| 0 <= i < rs.len() ==> !ps.contains(((#[trigger] rs[i]).0 + rs[i].1) as u32) || rs[i].0 + rs[i].1 > u32::MAX
    &&& forall|i: int| 0 <= i < rs.len() && (#[trigger] rs[i]).0 > 0 ==> !ps.contains((rs[i].0 - 1) as u32)
    &&& forall|p: u32| ps.contains(p) ==> exists|i: int| 0 <= i < rs.len() && (#[trigger] rs[i]).0 <= p < rs[i].0 + rs[i].1
}

proof fn lemma_runs_maximal(ps: Seq<u32>)
    requires
        increasing(ps),
        ps.len() < u32::MAX,
    ensures
        maximal_runs(ps, runs(ps)),
        forall|i: int, j: int| 0 <= i < j < runs(ps).len() ==> runs(ps)[i].0 + runs(ps)[i].1 < runs(ps)[j].0,
        runs(ps).len() > 0 ==> runs(ps).last().0 + runs(ps).last().1 == ps.last() + 1,
        forall|i: int| 0 <= i < runs(ps).len() ==> (#[trigger] runs(ps)[i]).1 <= ps.len(),
    decreases ps.len(),
{
    if ps.len() > 0 {
        let pre = ps.drop_last();
        let p = ps.last();
        assert(increasing(pre));
        lemma_runs_maximal(pre);
        let rs0 = runs(pre);
        let rs = runs(ps);
        assert forall|q: u32| pre.contains(q) implies q < p && ps.contains(q) by {
            let i = choose|i: int| 0 <= i < pre.len() && pre[i] == q;
            assert(ps[i] == q);
        }
        assert forall|q: u32| ps.contains(q) implies pre.contains(q) || q == p by {
            let i = choose|i: int| 0 <= i < ps.len() && ps[i] == q;
            if i < pre.len() {
                assert(pre[i] == q);
            }
        }
        assert(ps[ps.len() - 1] == p);
        if rs0.len() > 0 && rs0.last().0 + rs0.last().1 == p {
            let last = rs0.len() - 1;
            assert(rs0[last].1 <= pre.len());
            assert(rs == rs0.update(last, (rs0[last].0, (rs0[last].1 + 1) as u32)));
            assert(rs[last].1 == rs0[last].1 + 1);
            assert forall|i: int, q: u32|
                #![trigger ps.contains(q), rs[i]]
                0 <= i < rs.len() && rs[i].0 <= q < rs[i].0 + rs[i].1 implies ps.contains(q) by {
                if i == last && q == p {
                } else {
                    assert(rs0[i].0 <= q < rs0[i].0 + rs0[i].1);
                    assert(pre.contains(q));
                }
            }
            assert forall|i: int| 0 <= i < rs.len() implies !ps.contains(((#[trigger] rs[i]).0 + rs[i].1) as u32)
                || rs[i].0 + rs[i].1 > u32::MAX by {
                if i < last {
                    assert(rs0[i].0 + rs0[i].1 < rs0[last].0);
                    if ps.contains(((rs[i]).0 + rs[i].1) as u32) {
                        assert(pre.contains(((rs0[i]).0 + rs0[i].1) as u32));
                    }
                } else {
                    if ps.contains(((rs[i]).0 + rs[i].1) as u32) && rs[i].0 + rs[i].1 <= u32::MAX {
                        assert(rs[i].0 + rs[i].1 == p + 1);
                        assert(pre.contains(((rs[i]).0 + rs[i].1) as u32));
                    }
                }
            }
            assert forall|i: int| 0 <= i < rs.len() && (#[trigger] rs[i]).0 > 0 implies !ps.contains(
                (rs[i].0 - 1) as u32,
            ) by {
                assert(rs[i].0 == rs0[i].0);
                if ps.contains((rs[i].0 - 1) as u32) {
                    assert(pre.contains((rs0[i].0 - 1) as u32));
                }
            }
            assert forall|q: u32| ps.contains(q) implies exists|i: int|
                0 <= i < rs.len() && (#[trigger] rs[i]).0 <= q < rs[i].0 + rs[i].1 by {
                if q == p {
                    assert(rs[last].0 <= q < rs[last].0 + rs[last].1);
                } else {
                    assert(pre.contains(q));
                    let i = choose|i: int| 0 <= i < rs0.len() && (#[trigger] rs0[i]).0 <= q < rs0[i].0 + rs0[i].1;
                    assert(rs[i].0 <= q < rs[i].0 + rs[i].1);
                }
            }
            assert forall|i: int| 0 <= i < rs.len() implies (#[trigger] rs[i]).1 <= ps.len() by {
                if i == last {
                    assert(rs0[last].1 <= pre.len());
                    if rs0[last].1 == pre.len() {
                    }
                }
            }
        } else {
            assert(rs == rs0.push((p, 1u32)));
            if rs0.len() > 0 {
                assert(rs0.last().0 + rs0.last().1 == pre.last() + 1);
                assert(pre.last() < p);
            }
            assert forall|i: int, q: u32|
                #![trigger ps.contains(q), rs[i]]
                0 <= i < rs.len() && rs[i].0 <= q < rs[i].0 + rs[i].1 implies ps.contains(q) by {
                if i < rs0.len() {
                    assert(pre.contains(q));
                }
            }
            assert forall|i: int| 0 <= i < rs.len() implies !ps.contains(((#[trigger] rs[i]).0 + rs[i].1) as u32)
                || rs[i].0 + rs[i].1 > u32::MAX by {
                if i < rs0.len() {
                    if ps.contains(((rs[i]).0 + rs[i].1) as u32) && rs[i].0 + rs[i].1 <= u32::MAX {
                        if ((rs[i]).0 + rs[i].1) as u32 == p {
                            if i < rs0.len() - 1 {
                                assert(rs0[i].0 + rs0[i].1 < rs0.last().0);
                            }
                        } else {
                            assert(pre.contains(((rs0[i]).0 + rs0[i].1) as u32));
                        }
                    }
                } else {
                    if ps.contains((p + 1) as u32) && p + 1 <= u32::MAX {
                        assert(pre.contains((p + 1) as u32));
                    }
                }
            }
            assert forall|i: int| 0 <= i < rs.len() && (#[trigger] rs[i]).0 > 0 implies !ps.contains(
                (rs[i].0 - 1) as u32,
            ) by {
                if i < rs0.len() {
                    if ps.contains((rs[i].0 - 1) as u32) {
                        assert(pre.contains((rs0[i].0 - 1) as u32));
                    }
                } else {
                    if ps.contains((p - 1) as u32) {
                        assert(pre.contains((p - 1) as u32));
                        let j = choose|j: int| 0 <= j < pre.len() && pre[j] == (p - 1) as u32;
                        if j < pre.len() - 1 {
                            assert(pre[j] < pre[pre.len() - 1]);
                        }
                    }
                }
            }
            assert forall|q: u32| ps.contains(q) implies exists|i: int|
                0 <= i < rs.len() && (#[trigger] rs[i]).0 <= q < rs[i].0 + rs[i].1 by {
                if q == p {
                    assert(rs[rs.len() - 1].0 <= q < rs[rs.len() - 1].0 + rs[rs.len() - 1].1);
                } else {
                    assert(pre.contains(q));
                    let i = choose|i: int| 0 <= i < rs0.len() && (#[trigger] rs0[i]).0 <= q < rs0[i].0 + rs0[i].1;
                    assert(rs[i].0 <= q < rs[i].0 + rs[i].1);
                }
            }
        }
    }
}

proof fn lemma_positions(keys: Seq<Option<MorphKey>>, k: MorphKey, n: int)
    requires
        0 <= n <= keys.len(),
        keys.len() <= u32::MAX,
    ensures
        increasing(positions_upto(keys, k, n)),
        forall|j: int| 0 <= j < positions_upto(keys, k, n).len() ==> #[trigger] positions_upto(keys, k, n)[j] < n,
        forall|q: u32| #[trigger] positions_upto(keys, k, n).contains(q) <==> (q < n && keys[q as int] == Some(k)),
    decreases n,
{
    if n > 0 {
        lemma_positions(keys, k, n - 1);
        let ps0 = positions_upto(keys, k, n - 1);
        let ps = positions_upto(keys, k, n);
        if keys[n - 1] == Some(k) {
            assert(ps == ps0.push((n - 1) as u32));
            assert forall|q: u32| ps.contains(q) <==> (q < n && keys[q as int] == Some(k)) by {
                if q < n - 1 && keys[q as int] == Some(k) {
                    assert(ps0.contains(q));
                    let j = choose|j: int| 0 <= j < ps0.len() && ps0[j] == q;
                    assert(ps[j] == q);
                }
                if q == n - 1 {
                    assert(ps[ps.len() - 1] == q);
                }
                if ps.contains(q) {
                    let j = choose|j: int| 0 <= j < ps.len() && ps[j] == q;
                    if j < ps0.len() {
                        assert(ps0[j] == q);
                        assert(ps0.contains(q));
                    }
                }
            }
        } else {
            assert forall|q: u32| ps.contains(q) <==> (q < n && keys[q as int] == Some(k)) by {
                if q < n - 1 && keys[q as int] == Some(k) {
                    assert(ps0.contains(q));
                }
            }
        }
    }
}

proof fn lemma_head_pass_prefix(cx: PassContext, a: int, b: int)
    requires
        0 <= a <= b,
    ensures
        head_pass(cx, a).0.len() <= head_pass(cx, b).0.len(),
        forall|j: int| 0 <= j < head_pass(cx, a).0.len() ==> #[trigger] head_pass(cx, b).0[j] == head_pass(cx, a).0[j],
    decreases b - a,
{
    if a < b {
        lemma_head_pass_prefix(cx, a, b - 1);
        let prev = head_pass(cx, b - 1).0;
        let cur = head_pass(cx, b).0;
        assert(prev.len() <= cur.len());
        assert forall|j: int| 0 <= j < prev.len() implies cur[j] == prev[j] by {}
    }
}

proof fn lemma_non_head_pass_prefix(keys: Seq<Option<MorphKey>>, nh: Seq<MorphView>, a: int, b: int)
    requires
        0 <= a <= b,
    ensures
        non_head_pass(keys, nh, a).len() <= non_head_pass(keys, nh, b).len(),
        forall|j: int|
            0 <= j < non_head_pass(keys, nh, a).len() ==> #[trigger] non_head_pass(keys, nh, b)[j] == non_head_pass(
                keys,
                nh,
                a,
            )[j],
    decreases b - a,
{
    if a < b {
        lemma_non_head_pass_prefix(keys, nh, a, b - 1);
    }
}

/// The real record a run of `k` starting at `order` yields.
pub open spec fn run_record(
    head: Seq<MorphView>,
    non_head: Option<Seq<MorphView>>,
    affix: Option<(u32, u32, Seq<u16>)>,
    k: MorphKey,
    order: u32,
) -> MorphView {
    match k {
        MorphKey::Head(mi) => placed(head[mi as int], order, MorphStatus::Real),
        MorphKey::NonHead(mi) => placed(non_head.unwrap()[mi as int], order, MorphStatus::Real),
        MorphKey::Affix => affix_record(affix.unwrap().0, affix.unwrap().1, affix.unwrap().2, order, MorphStatus::Real),
    }
}

/// Every run is a maximal run of consecutive output positions owned by one key (a morph of the
/// head word, a morph of the non-head word, or the affix), and it yields a real record of that
/// key's morph at the run's first position.
pub proof fn law_each_run_yields_a_real_record(
    origins: Seq<Origin>,
    head: Seq<MorphView>,
    non_head: Option<Seq<MorphView>>,
    affix: Option<(u32, u32, Seq<u16>)>,
    k: MorphKey,
    i: int,
)
    requires
        origins.len() < u32::MAX,
        0 <= i < runs(positions(keys_of(origins, head, non_head, affix is Some), k)).len(),
    ensures
        ({
            let r = runs(positions(keys_of(origins, head, non_head, affix is Some), k))[i];
            &&& r.1 >= 1
            &&& r.0 + r.1 <= origins.len()
            &&& forall|q: int| r.0 <= q < r.0 + r.1 ==> #[trigger] key_at(origins, head, non_head, affix is Some, q) == Some(k)
            &&& r.0 + r.1 < origins.len() ==> key_at(origins, head, non_head, affix is Some, r.0 + r.1) != Some(k)
            &&& r.0 > 0 ==> key_at(origins, head, non_head, affix is Some, r.0 - 1) != Some(k)
            &&& attribution(origins, head, non_head, affix).contains(run_record(head, non_head, affix, k, r.0))
        }),
{
    let has_affix = affix is Some;
    let keys = keys_of(origins, head, non_head, has_affix);
    let ps = positions(keys, k);
    lemma_positions(keys, k, keys.len() as int);
    lemma_positions_len(keys, k, keys.len() as int);
    lemma_runs_maximal(ps);
    let rs = runs(ps);
    let r = rs[i];
    assert(r.1 >= 1);
    assert(ps.contains(r.0));
    let last_q = (r.0 + r.1 - 1) as u32;
    assert(ps.contains(last_q));
    assert forall|q: int| r.0 <= q < r.0 + r.1 implies #[trigger] key_at(origins, head, non_head, has_affix, q) == Some(k) by {
        assert(ps.contains(q as u32));
        assert(keys[q] == key_at(origins, head, non_head, has_affix, q));
    }
    if r.0 + r.1 < origins.len() {
        assert(keys[r.0 + r.1] == key_at(origins, head, non_head, has_affix, r.0 + r.1));
    }
    if r.0 > 0 {
        assert(keys[r.0 - 1] == key_at(origins, head, non_head, has_affix, r.0 - 1));
    }
    // The run's first position is owned by `k`, which tells which morph `k` names.
    let p0 = r.0 as int;
    assert(keys[p0] == Some(k));
    assert(keys[p0] == key_at(origins, head, non_head, has_affix, p0));
    let cx = pass_context(origins, head, non_head, affix);
    let u = unsorted_records(origins, head, non_head, affix);
    let hp = head_pass(cx, head.len() as int).0;
    let np = match non_head {
        Some(nh) => non_head_pass(cx.keys, nh, nh.len() as int),
        None => Seq::empty(),
    };
    let want = run_record(head, non_head, affix, k, r.0);
    match k {
        MorphKey::Head(mi) => {
            match origins[p0] {
                Origin::Head(idx) => {
                    lemma_owner(head, idx as int);
                },
                _ => {},
            }
            let prev = head_pass(cx, mi as int).0;
            let rr = run_records(rs, head[mi as int]);
            assert(head_pass(cx, mi as int + 1).0 == prev + rr);
            assert(head_pass(cx, mi as int + 1).0[prev.len() + i] == want);
            lemma_head_pass_prefix(cx, mi as int + 1, head.len() as int);
            assert(hp[prev.len() + i] == want);
            assert(u[prev.len() + i] == want);
        },
        MorphKey::NonHead(mi) => {
            let nh = non_head.unwrap();
            match origins[p0] {
                Origin::NonHead(idx) => {
                    lemma_owner(nh, idx as int);
                },
                _ => {},
            }
            let prev = non_head_pass(cx.keys, nh, mi as int);
            let rr = run_records(rs, nh[mi as int]);
            assert(non_head_pass(cx.keys, nh, mi as int + 1) == prev + rr);
            assert(non_head_pass(cx.keys, nh, mi as int + 1)[prev.len() + i] == want);
            lemma_non_head_pass_prefix(cx.keys, nh, mi as int + 1, nh.len() as int);
            assert(np[prev.len() + i] == want);
            assert(u[hp.len() + prev.len() + i] == want);
        },
        MorphKey::Affix => {
            let (a, mo, p) = affix.unwrap();
            let ar = affix_records(cx, a, mo, p);
            let own = rs.map_values(|x: (u32, u32)| affix_record(a, mo, p, x.0, MorphStatus::Real));
            let markers_len = ar.len() - own.len();
            assert(ar[markers_len + i] == want);
            assert(u[hp.len() + np.len() + markers_len + i] == want);
        },
    }
    law_attribution_is_sorted(origins, head, non_head, affix);
}

proof fn lemma_longest_run(rs: Seq<(u32, u32)>)
    requires
        rs.len() > 0,
    ensures
        exists|h: int|
            0 <= h < rs.len() && rs[h] == longest_run(rs) && (forall|k: int| 0 <= k < rs.len() ==> rs[k].1 <= rs[h].1)
                && (forall|k: int| 0 <= k < h ==> rs[k].1 < rs[h].1),
    decreases rs.len(),
{
    if rs.len() > 1 {
        let pre = rs.drop_last();
        lemma_longest_run(pre);
        let h0 = choose|h: int|
            0 <= h < pre.len() && pre[h] == longest_run(pre) && (forall|k: int| 0 <= k < pre.len() ==> pre[k].1 <= pre[h].1)
                && (forall|k: int| 0 <= k < h ==> pre[k].1 < pre[h].1);
        if rs.last().1 > longest_run(pre).1 {
            let h = rs.len() - 1;
            assert forall|k: int| 0 <= k < rs.len() implies rs[k].1 <= rs[h].1 by {
                if k < h {
                    assert(pre[k] == rs[k]);
                }
            }
            assert forall|k: int| 0 <= k < h implies rs[k].1 < rs[h].1 by {
                assert(pre[k] == rs[k]);
            }
        } else {
            assert(rs[h0] == pre[h0]);
            assert forall|k: int| 0 <= k < rs.len() implies rs[k].1 <= rs[h0].1 by {
                if k < rs.len() - 1 {
                    assert(pre[k] == rs[k]);
                }
            }
            assert forall|k: int| 0 <= k < h0 implies rs[k].1 < rs[h0].1 by {
                assert(pre[k] == rs[k]);
            }
        }
    } else {
        assert(rs[0] == longest_run(rs));
    }
}

/// Where the longest run of a key starts: the start of one of its runs, none longer, every
/// earlier one strictly shorter; absent exactly when the key owns no position.
pub proof fn law_longest_order_is_first_longest_run(keys: Seq<Option<MorphKey>>, k: MorphKey)
    ensures
        longest_order(keys, k) is None <==> positions(keys, k).len() == 0,
        longest_order(keys, k) matches Some(o) ==> exists|h: int|
            0 <= h < runs(positions(keys, k)).len() && runs(positions(keys, k))[h].0 == o && (forall|j: int|
                0 <= j < runs(positions(keys, k)).len() ==> runs(positions(keys, k))[j].1 <= runs(positions(keys, k))[h].1)
                && (forall|j: int| 0 <= j < h ==> runs(positions(keys, k))[j].1 < runs(positions(keys, k))[h].1),
{
    lemma_runs_nonempty(positions(keys, k));
    if positions(keys, k).len() > 0 {
        lemma_longest_run(runs(positions(keys, k)));
    }
}

/// The morphs a rule's affix subsumes (dropped real morphs, re-anchored markers, floating markers)
/// attach at the start of the affix's first longest run: the subsumption host is present exactly
/// when the affix owns an output position, and then no run of the affix is longer than the one it
/// starts, and every earlier run is shorter.
pub proof fn law_affix_host_is_first_longest_run(
    origins: Seq<Origin>,
    head: Seq<MorphView>,
    non_head: Option<Seq<MorphView>>,
    affix: Option<(u32, u32, Seq<u16>)>,
)
    ensures
        ({
            let cx = pass_context(origins, head, non_head, affix);
            let rs = runs(positions(cx.keys, MorphKey::Affix));
            &&& cx.host is None <==> rs.len() == 0
            &&& cx.host matches Some(o) ==> exists|h: int|
                0 <= h < rs.len() && rs[h].0 == o && (forall|j: int| 0 <= j < rs.len() ==> rs[j].1 <= rs[h].1) && (
                forall|j: int| 0 <= j < h ==> rs[j].1 < rs[h].1)
        }),
{
    let cx = pass_context(origins, head, non_head, affix);
    lemma_runs_nonempty(positions(cx.keys, MorphKey::Affix));
    law_longest_order_is_first_longest_run(cx.keys, MorphKey::Affix);
}

/// The records of `s` at `order`, in their order in `s`.
pub open spec fn at_order(s: Seq<MorphView>, order: u32) -> Seq<MorphView>
    decreases s.len(),
{
    if s.len() == 0 {
        Seq::empty()
    } else if s.last().order == order {
        at_order(s.drop_last(), order).push(s.last())
    } else {
        at_order(s.drop_last(), order)
    }
}

proof fn lemma_at_order_insert(s: Seq<MorphView>, x: MorphView, order: u32)
    ensures
        at_order(insert_by_order(s, x), order) == (if x.order == order {
            at_order(s, order).push(x)
        } else {
            at_order(s, order)
        }),
    decreases s.len(),
{
    if s.len() == 0 || s.last().order <= x.order {
        assert(insert_by_order(s, x).drop_last() =~= s);
    } else {
        let pre = s.drop_last();
        lemma_at_order_insert(pre, x, order);
        assert(insert_by_order(s, x).drop_last() =~= insert_by_order(pre, x));
    }
}

proof fn lemma_at_order_sort(s: Seq<MorphView>, order: u32)
    ensures
        at_order(sort_by_order(s), order) == at_order(s, order),
    decreases s.len(),
{
    if s.len() > 0 {
        lemma_at_order_sort(s.drop_last(), order);
        lemma_at_order_insert(sort_by_order(s.drop_last()), s.last(), order);
    }
}

/// The sort is stable: for every order, the records at that order come out in the sequence they
/// were built in (the head word's, the non-head word's, then the affix's, so the records subsumed
/// onto the affix's run precede the affix's own record there).
pub proof fn law_attribution_sort_is_stable(
    origins: Seq<Origin>,
    head: Seq<MorphView>,
    non_head: Option<Seq<MorphView>>,
    affix: Option<(u32, u32, Seq<u16>)>,
    order: u32,
)
    ensures
        at_order(attribution(origins, head, non_head, affix), order) == at_order(
            unsorted_records(origins, head, non_head, affix),
            order,
        ),
{
    lemma_at_order_sort(unsorted_records(origins, head, non_head, affix), order);
}

} // verus!
