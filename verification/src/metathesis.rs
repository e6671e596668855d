//! The plain-index steps of metathesis: translating a matched segment range to the shape nodes it
//! covers, and the node reordering of synthesis, which moves the two switched ranges past each
//! other one segment at a time. Non-segment nodes inside a range never move, but the cursor still
//! advances past them, so the result is not a swap of the two ranges as blocks.
use vstd::prelude::*;

verus! {

broadcast use vstd::seq_lib::group_to_multiset_ensures;

/// The node indices `node_of` gives for the segment positions `range.0 .. range.1`.
pub fn seg_range_to_nodes(node_of: &[usize], range: (usize, usize)) -> (nodes: Vec<usize>)
    requires
        range.0 <= range.1 <= node_of@.len(),
    ensures
        nodes@ == node_of@.subrange(range.0 as int, range.1 as int),
{
    let mut nodes: Vec<usize> = Vec::new();
    let mut i = range.0;
    while i < range.1
        invariant
            range.0 <= i <= range.1 <= node_of@.len(),
            nodes@ == node_of@.subrange(range.0 as int, i as int),
        decreases range.1 - i,
    {
        nodes.push(node_of[i]);
        i = i + 1;
        assert(nodes@ =~= node_of@.subrange(range.0 as int, i as int));
    }
    nodes
}

/// `order` after moving node `n` to just after node `cur` (to the front when `cur` is absent, to
/// the end when `cur` is not in `order`): its first occurrence is taken out, then it is put back.
pub open spec fn move_one(order: Seq<usize>, cur: Option<usize>, n: usize) -> Seq<usize> {
    let o = match order.index_of_first(n) {
        Some(p) => order.remove(p),
        None => order,
    };
    let at: int = match cur {
        None => 0,
        Some(c) => match o.index_of_first(c) {
            Some(p) => p + 1,
            None => o.len() as int,
        },
    };
    o.insert(if at <= o.len() { at } else { o.len() as int }, n)
}

/// `order` after walking `range` from `cur`: each segment node is moved to just after the cursor,
/// and the cursor then advances to the node just walked, moved or not.
pub open spec fn moved_after(order: Seq<usize>, is_segment: Seq<bool>, cur: Option<usize>, range: Seq<usize>) -> Seq<
    usize,
>
    decreases range.len(),
{
    if range.len() == 0 {
        order
    } else {
        let n = range[0];
        let o1 = if is_segment[n as int] { move_one(order, cur, n) } else { order };
        moved_after(o1, is_segment, Some(n), range.drop_first())
    }
}

/// The first position of `x` in `order`.
fn position_of(order: &Vec<usize>, x: usize) -> (r: Option<usize>)
    ensures
        match order@.index_of_first(x) {
            Some(p) => r == Some(p as usize) && 0 <= p < order@.len(),
            None => r is None,
        },
{
    let mut i: usize = 0;
    while i < order.len()
        invariant
            i <= order@.len(),
            forall|j: int| 0 <= j < i ==> order@[j] != x,
        decreases order@.len() - i,
    {
        if order[i] == x {
            proof {
                order@.index_of_first_ensures(x);
                let p = order@.index_of_first(x)->0;
                assert(p == i);
            }
            return Some(i);
        }
        i = i + 1;
    }
    proof {
        order@.index_of_first_ensures(x);
    }
    None
}

/// Walk `range` from the cursor `cur` over the window whose node kinds `is_segment` gives: each
/// segment node is taken out of `order` and put back just after the cursor's node, and the cursor
/// then advances to that node, moved or not.
pub fn move_nodes_after(order: &mut Vec<usize>, is_segment: &[bool], cur: Option<usize>, range: &[usize])
    requires
        forall|k: int| 0 <= k < range@.len() ==> range@[k] < is_segment@.len(),
    ensures
        final(order)@ == moved_after(old(order)@, is_segment@, cur, range@),
{
    assert(range@.skip(0) =~= range@);
    let ghost cur0 = cur;
    let mut cur = cur;
    let mut k: usize = 0;
    while k < range.len()
        invariant
            k <= range@.len(),
            forall|j: int| 0 <= j < range@.len() ==> range@[j] < is_segment@.len(),
            moved_after(old(order)@, is_segment@, cur0, range@) == moved_after(
                order@,
                is_segment@,
                cur,
                range@.skip(k as int),
            ),
        decreases range@.len() - k,
    {
        let n = range[k];
        let ghost before = order@;
        let ghost cur_before = cur;
        if is_segment[n] {
            let np = position_of(order, n);
            match np {
                Some(np) => {
                    order.remove(np);
                },
                None => {},
            }
            let insert_at: usize = match cur {
                None => 0,
                Some(c) => match position_of(order, c) {
                    Some(p) => {
                        assert(p < order.len());
                        p + 1
                    },
                    None => order.len(),
                },
            };
            let at = if insert_at <= order.len() { insert_at } else { order.len() };
            order.insert(at, n);
            assert(order@ == move_one(before, cur_before, n));
        }
        cur = Some(n);
        proof {
            assert(range@.skip(k as int)[0] == n);
            assert(range@.skip(k as int).drop_first() =~= range@.skip(k + 1));
        }
        k = k + 1;
    }
    assert(range@.skip(k as int) =~= Seq::<usize>::empty());
}

/// Moving one node that is in `order` keeps every node of `order`, each as often as before.
proof fn lemma_move_one_permutes(order: Seq<usize>, cur: Option<usize>, n: usize)
    requires
        order.contains(n),
    ensures
        move_one(order, cur, n).to_multiset() == order.to_multiset(),
{
    broadcast use vstd::multiset::group_multiset_axioms;

    order.index_of_first_ensures(n);
    let p = order.index_of_first(n)->0;
    let o = order.remove(p);
    assert(o.to_multiset() == order.to_multiset().remove(n));
    let at: int = match cur {
        None => 0,
        Some(c) => match o.index_of_first(c) {
            Some(q) => q + 1,
            None => o.len() as int,
        },
    };
    if let Some(c) = cur {
        o.index_of_first_ensures(c);
    }
    let at2 = if at <= o.len() { at } else { o.len() as int };
    assert(0 <= at2 <= o.len());
    assert(move_one(order, cur, n) == o.insert(at2, n));
    assert(o.insert(at2, n).to_multiset() == o.to_multiset().insert(n));
    assert(order.to_multiset().count(n) > 0);
    assert(order.to_multiset().remove(n).insert(n) =~= order.to_multiset());
}

/// Moving nodes reorders them and nothing more: when every segment node the walk visits is in
/// `order`, the result holds exactly the nodes of `order`, each as often as before.
pub proof fn law_move_nodes_after_permutes(order: Seq<usize>, is_segment: Seq<bool>, cur: Option<usize>, range: Seq<usize>)
    requires
        forall|k: int| 0 <= k < range.len() && is_segment[range[k] as int] ==> order.contains(#[trigger] range[k]),
    ensures
        moved_after(order, is_segment, cur, range).to_multiset() == order.to_multiset(),
    decreases range.len(),
{
    if range.len() > 0 {
        let n = range[0];
        let o1 = if is_segment[n as int] { move_one(order, cur, n) } else { order };
        if is_segment[n as int] {
            lemma_move_one_permutes(order, cur, n);
        }
        let rest = range.drop_first();
        assert forall|k: int| 0 <= k < rest.len() && is_segment[rest[k] as int] implies o1.contains(#[trigger] rest[k]) by {
            assert(rest[k] == range[k + 1]);
            assert(order.contains(range[k + 1]));
            assert(o1.to_multiset().count(rest[k]) > 0);
        }
        law_move_nodes_after_permutes(o1, is_segment, Some(n), rest);
    }
}

/// The facts of one move: taking `m` out of an order without duplicates and putting it back at `q`,
/// just after the cursor's node (or at the front).
proof fn lemma_move_one_facts(order: Seq<usize>, cur: Option<usize>, m: usize)
    requires
        order.no_duplicates(),
        order.contains(m),
        cur matches Some(x) ==> order.contains(x) && x != m,
    ensures
        ({
            let pm = order.index_of_first(m)->0;
            let o = order.remove(pm);
            let q: int = match cur {
                None => 0,
                Some(x) => o.index_of_first(x)->0 + 1,
            };
            &&& 0 <= pm < order.len() && order[pm] == m
            &&& 0 <= q <= o.len()
            &&& (cur matches Some(x) ==> q >= 1 && o[q - 1] == x)
            &&& move_one(order, cur, m) == o.insert(q, m)
            &&& move_one(order, cur, m).no_duplicates()
            &&& move_one(order, cur, m).len() == order.len()
            &&& forall|y: usize| move_one(order, cur, m).contains(y) <==> order.contains(y)
        }),
{
    order.index_of_first_ensures(m);
    let pm = order.index_of_first(m)->0;
    let o = order.remove(pm);
    assert forall|a: int, b: int| 0 <= a < b < o.len() implies o[a] != o[b] by {
        let a2 = if a < pm { a } else { a + 1 };
        let b2 = if b < pm { b } else { b + 1 };
        assert(o[a] == order[a2] && o[b] == order[b2]);
    }
    assert(!o.contains(m)) by {
        if o.contains(m) {
            let k = choose|k: int| 0 <= k < o.len() && o[k] == m;
            let k2 = if k < pm { k } else { k + 1 };
            assert(order[k2] == m && k2 != pm);
        }
    }
    let q: int = match cur {
        None => 0,
        Some(x) => {
            let kx = choose|k: int| 0 <= k < order.len() && order[k] == x;
            let kx2 = if kx < pm { kx } else { kx - 1 };
            assert(o[kx2] == x);
            o.index_of_first_ensures(x);
            o.index_of_first(x)->0 + 1
        },
    };
    let r = o.insert(q, m);
    assert(move_one(order, cur, m) == r);
    assert forall|a: int, b: int| 0 <= a < b < r.len() implies r[a] != r[b] by {
        if a == q {
            assert(o.contains(r[b]) || r[b] == m);
            if b > q {
                assert(r[b] == o[b - 1]);
            }
        } else if b == q {
            assert(r[a] == o[a]);
        } else {
            let a2 = if a < q { a } else { a - 1 };
            let b2 = if b < q { b } else { b - 1 };
            assert(r[a] == o[a2] && r[b] == o[b2]);
        }
    }
    assert forall|y: usize| r.contains(y) <==> order.contains(y) by {
        if r.contains(y) {
            let k = choose|k: int| 0 <= k < r.len() && r[k] == y;
            if k == q {
                assert(order[pm] == y);
            } else {
                let k2 = if k < q { k } else { k - 1 };
                assert(o[k2] == y);
                let k3 = if k2 < pm { k2 } else { k2 + 1 };
                assert(order[k3] == y);
            }
        }
        if order.contains(y) {
            let k = choose|k: int| 0 <= k < order.len() && order[k] == y;
            if k == pm {
                assert(r[q] == y);
            } else {
                let k2 = if k < pm { k } else { k - 1 };
                assert(o[k2] == y);
                let k3 = if k2 < q { k2 } else { k2 + 1 };
                assert(r[k3] == y);
            }
        }
    }
}

/// Node `c` is immediately followed by node `n` in `s`.
pub open spec fn adjacent(s: Seq<usize>, c: usize, n: usize) -> bool {
    exists|a: int| 0 <= a && a + 1 < s.len() && s[a] == c && #[trigger] s[a + 1] == n
}

/// Moving other nodes after a cursor other than `c` keeps `c` immediately followed by `n`.
proof fn lemma_moves_keep_adjacent(
    order: Seq<usize>,
    is_segment: Seq<bool>,
    x: usize,
    range: Seq<usize>,
    c: usize,
    n: usize,
)
    requires
        order.no_duplicates(),
        range.no_duplicates(),
        adjacent(order, c, n),
        order.contains(x),
        x != c,
        !range.contains(c),
        !range.contains(n),
        !range.contains(x),
        forall|k: int| 0 <= k < range.len() ==> order.contains(#[trigger] range[k]),
    ensures
        adjacent(moved_after(order, is_segment, Some(x), range), c, n),
        moved_after(order, is_segment, Some(x), range).no_duplicates(),
    decreases range.len(),
{
    if range.len() > 0 {
        let m = range[0];
        let rest = range.drop_first();
        let o1 = if is_segment[m as int] { move_one(order, Some(x), m) } else { order };
        if is_segment[m as int] {
            lemma_move_one_facts(order, Some(x), m);
            let pm = order.index_of_first(m)->0;
            let o = order.remove(pm);
            let q = o.index_of_first(x)->0 + 1;
            let a = choose|a: int| 0 <= a && a + 1 < order.len() && order[a] == c && #[trigger] order[a + 1] == n;
            assert(pm != a && pm != a + 1);
            let b = if pm < a { a - 1 } else { a };
            assert(o[b] == c && o[b + 1] == n);
            assert(q != b + 1) by {
                if q == b + 1 {
                    assert(o[q - 1] == x);
                }
            }
            let b2 = if q <= b { b + 1 } else { b };
            assert(o1[b2] == c && o1[b2 + 1] == n);
            assert(adjacent(o1, c, n));
        }
        assert(range[0] == m);
        assert(!rest.contains(m)) by {
            if rest.contains(m) {
                let k = choose|k: int| 0 <= k < rest.len() && rest[k] == m;
                assert(range[k + 1] == m);
            }
        }
        assert forall|k: int| 0 <= k < rest.len() implies o1.contains(#[trigger] rest[k]) by {
            assert(rest[k] == range[k + 1]);
            assert(order.contains(range[k + 1]));
        }
        assert(o1.contains(m)) by {
            assert(order.contains(range[0]));
        }
        assert(m != c && m != n) by {
            assert(range.contains(m));
        }
        assert(rest.no_duplicates());
        assert(!rest.contains(c) && !rest.contains(n));
        lemma_moves_keep_adjacent(o1, is_segment, m, rest, c, n);
    }
}

/// Moving other nodes after a cursor keeps `n` at the front.
proof fn lemma_moves_keep_front(order: Seq<usize>, is_segment: Seq<bool>, x: usize, range: Seq<usize>, n: usize)
    requires
        order.no_duplicates(),
        range.no_duplicates(),
        order.len() > 0 && order[0] == n,
        order.contains(x),
        !range.contains(n),
        !range.contains(x),
        forall|k: int| 0 <= k < range.len() ==> order.contains(#[trigger] range[k]),
    ensures
        moved_after(order, is_segment, Some(x), range).len() > 0,
        moved_after(order, is_segment, Some(x), range)[0] == n,
        moved_after(order, is_segment, Some(x), range).no_duplicates(),
    decreases range.len(),
{
    if range.len() > 0 {
        let m = range[0];
        let rest = range.drop_first();
        let o1 = if is_segment[m as int] { move_one(order, Some(x), m) } else { order };
        assert(m != n) by {
            assert(range.contains(m));
        }
        if is_segment[m as int] {
            lemma_move_one_facts(order, Some(x), m);
            let pm = order.index_of_first(m)->0;
            let o = order.remove(pm);
            assert(pm != 0);
            assert(o[0] == n);
            assert(o1[0] == n);
        }
        assert(!rest.contains(m)) by {
            if rest.contains(m) {
                let k = choose|k: int| 0 <= k < rest.len() && rest[k] == m;
                assert(range[k + 1] == m);
            }
        }
        assert forall|k: int| 0 <= k < rest.len() implies o1.contains(#[trigger] rest[k]) by {
            assert(rest[k] == range[k + 1]);
            assert(order.contains(range[k + 1]));
        }
        assert(o1.contains(m)) by {
            assert(order.contains(range[0]));
        }
        assert(!rest.contains(n));
        lemma_moves_keep_front(o1, is_segment, m, rest, n);
    }
}

/// The nodes of `range` sit in `s` contiguously and in range order, just after the cursor's node,
/// or at the front when there is no cursor.
pub open spec fn follows_cursor(s: Seq<usize>, cur: Option<usize>, range: Seq<usize>) -> bool {
    exists|j: int|
        0 <= j && j + range.len() <= s.len() && (match cur {
            None => j == 0,
            Some(c) => j >= 1 && s[j - 1] == c,
        }) && #[trigger] s.subrange(j, j + range.len()) == range
}

/// Moving a walked range of segment nodes after a cursor keeps the range's nodes in range order:
/// in an order without duplicates holding the cursor's node and every node of `range` (distinct,
/// the cursor's node not among them), the result holds the nodes of `range` contiguously, in the
/// order they have in `range`, just after the cursor's node (or at the front without a cursor).
pub proof fn law_move_nodes_after_keeps_range_order(
    order: Seq<usize>,
    is_segment: Seq<bool>,
    cur: Option<usize>,
    range: Seq<usize>,
)
    requires
        order.no_duplicates(),
        range.no_duplicates(),
        forall|k: int| 0 <= k < range.len() ==> order.contains(#[trigger] range[k]) && is_segment[range[k] as int],
        cur matches Some(c) ==> order.contains(c) && !range.contains(c),
    ensures
        follows_cursor(moved_after(order, is_segment, cur, range), cur, range),
        moved_after(order, is_segment, cur, range).no_duplicates(),
    decreases range.len(),
{
    let res = moved_after(order, is_segment, cur, range);
    if range.len() == 0 {
        let j: int = match cur {
            None => 0,
            Some(c) => {
                order.index_of_first_ensures(c);
                let kc = choose|k: int| 0 <= k < order.len() && order[k] == c;
                kc + 1
            },
        };
        assert(res.subrange(j, j + range.len()) =~= range);
        assert(follows_cursor(res, cur, range));
    } else {
        let n = range[0];
        let rest = range.drop_first();
        assert(order.contains(range[0]) && is_segment[range[0] as int]);
        let o1 = move_one(order, cur, n);
        lemma_move_one_facts(order, cur, n);
        let pm = order.index_of_first(n)->0;
        let o = order.remove(pm);
        let q: int = match cur {
            None => 0,
            Some(x) => o.index_of_first(x)->0 + 1,
        };
        assert(o1[q] == n);
        assert(!rest.contains(n)) by {
            if rest.contains(n) {
                let k = choose|k: int| 0 <= k < rest.len() && rest[k] == n;
                assert(range[k + 1] == n);
            }
        }
        assert forall|k: int| 0 <= k < rest.len() implies o1.contains(#[trigger] rest[k]) && is_segment[rest[k] as int] by {
            assert(rest[k] == range[k + 1]);
            assert(order.contains(range[k + 1]));
        }
        assert(rest.no_duplicates());
        assert(o1.contains(n));
        law_move_nodes_after_keeps_range_order(o1, is_segment, Some(n), rest);
        assert(res == moved_after(o1, is_segment, Some(n), rest));
        let j1 = choose|j: int|
            0 <= j && j + rest.len() <= res.len() && (j >= 1 && res[j - 1] == n) && #[trigger] res.subrange(j, j + rest.len()) == rest;
        match cur {
            None => {
                lemma_moves_keep_front(o1, is_segment, n, rest, n);
                assert(res[0] == n);
                assert(j1 - 1 == 0);
                assert(res.subrange(0int, 0int + range.len()) =~= range) by {
                    assert forall|k: int| 0 <= k < range.len() implies res[k] == range[k] by {
                        if k > 0 {
                            assert(res.subrange(j1, j1 + rest.len())[k - 1] == rest[k - 1]);
                        }
                    }
                }
                assert(follows_cursor(res, cur, range));
            },
            Some(c) => {
                assert(c != n) by {
                    assert(range.contains(n));
                }
                assert(o1[q - 1] == c) by {
                    assert(o[q - 1] == c);
                }
                assert(adjacent(o1, c, n)) by {
                    assert(o1[(q - 1) + 1] == n);
                }
                assert(!rest.contains(c));
                lemma_moves_keep_adjacent(o1, is_segment, n, rest, c, n);
                let a = choose|a: int| 0 <= a && a + 1 < res.len() && res[a] == c && #[trigger] res[a + 1] == n;
                assert(a + 1 == j1 - 1);
                let j = a + 1;
                assert(res.subrange(j, j + range.len()) =~= range) by {
                    assert forall|k: int| 0 <= k < range.len() implies res[j + k] == range[k] by {
                        if k > 0 {
                            assert(res.subrange(j1, j1 + rest.len())[k - 1] == rest[k - 1]);
                        }
                    }
                }
                assert(res[j - 1] == c);
                assert(follows_cursor(res, cur, range));
            },
        }
    }
}

/// `xs` shifted down by `lo`.
pub open spec fn local(xs: Seq<usize>, lo: int) -> Seq<usize> {
    xs.map_values(|x: usize| (x - lo) as usize)
}

/// The identity order of a window of `len` nodes.
pub open spec fn identity_order(len: nat) -> Seq<usize> {
    Seq::new(len, |i: int| i as usize)
}

/// The node order synthesis gives the window `lo .. hi` when it switches the node ranges `left`
/// and `right` (absolute indices): the right range's segments move to just after the left range's
/// last node, then the left range's segments move to just after the node that preceded the right
/// range (to the front when it started the window).
pub open spec fn switched_order(is_segment: Seq<bool>, left: Seq<usize>, right: Seq<usize>, lo: int, hi: int) -> Seq<usize> {
    let window = is_segment.subrange(lo, hi);
    let left_loc = local(left, lo);
    let right_loc = local(right, lo);
    let first = moved_after(identity_order((hi - lo) as nat), window, Some(left_loc.last()), right_loc);
    let before_right: Option<usize> = if right_loc[0] >= 1 { Some((right_loc[0] - 1) as usize) } else { None };
    moved_after(first, window, before_right, left_loc)
}

/// Shift every index of `xs` down by `lo`.
fn to_local(xs: &[usize], lo: usize) -> (out: Vec<usize>)
    requires
        forall|k: int| 0 <= k < xs@.len() ==> lo <= #[trigger] xs@[k],
    ensures
        out@ == local(xs@, lo as int),
{
    let mut out: Vec<usize> = Vec::new();
    let mut k: usize = 0;
    while k < xs.len()
        invariant
            k <= xs@.len(),
            forall|j: int| 0 <= j < xs@.len() ==> lo <= #[trigger] xs@[j],
            out@ == local(xs@.take(k as int), lo as int),
        decreases xs@.len() - k,
    {
        out.push(xs[k] - lo);
        k = k + 1;
        assert(out@ =~= local(xs@.take(k as int), lo as int));
    }
    assert(xs@.take(k as int) =~= xs@);
    out
}

/// The new node order of the window a metathesis synthesis rewrites, for the switched node ranges
/// `left` and `right` (absolute, each non-empty) of a shape whose node kinds `is_segment` gives:
/// the window's first node `lo`, and the order of its nodes as indices from `lo`. The order is a
/// permutation of the window.
pub fn reorder_window(is_segment: &[bool], left: &[usize], right: &[usize]) -> (r: (usize, Vec<usize>))
    requires
        left@.len() > 0,
        right@.len() > 0,
        forall|k: int| 0 <= k < (left@ + right@).len() ==> #[trigger] (left@ + right@)[k] < is_segment@.len(),
    ensures
        (left@ + right@).contains(r.0),
        forall|k: int| 0 <= k < (left@ + right@).len() ==> r.0 <= #[trigger] (left@ + right@)[k],
        (left@ + right@).contains((r.0 + r.1@.len() - 1) as usize),
        forall|k: int| 0 <= k < (left@ + right@).len() ==> #[trigger] (left@ + right@)[k] < r.0 + r.1@.len(),
        r.1@ == switched_order(is_segment@, left@, right@, r.0 as int, r.0 + r.1@.len()),
        r.1@.to_multiset() == identity_order(r.1@.len()).to_multiset(),
{
    let ghost all = left@ + right@;
    let mut lo = left[0];
    let mut max = left[0];
    assert(all[0] == left@[0]);
    let mut k: usize = 0;
    while k < left.len()
        invariant
            all == left@ + right@,
            k <= left@.len(),
            all.contains(lo),
            all.contains(max),
            forall|j: int| 0 <= j < k ==> lo <= #[trigger] all[j] <= max,
        decreases left@.len() - k,
    {
        assert(all[k as int] == left@[k as int]);
        if left[k] < lo {
            lo = left[k];
        }
        if left[k] > max {
            max = left[k];
        }
        k = k + 1;
    }
    let mut k: usize = 0;
    while k < right.len()
        invariant
            all == left@ + right@,
            k <= right@.len(),
            all.contains(lo),
            all.contains(max),
            forall|j: int| 0 <= j < left@.len() + k ==> lo <= #[trigger] all[j] <= max,
        decreases right@.len() - k,
    {
        assert(all[left@.len() + k] == right@[k as int]);
        if right[k] < lo {
            lo = right[k];
        }
        if right[k] > max {
            max = right[k];
        }
        k = k + 1;
    }
    assert(max < is_segment@.len());
    assert(max < is_segment.len());
    let hi = max + 1;
    let mut window: Vec<bool> = Vec::new();
    let mut i = lo;
    while i < hi
        invariant
            lo <= i <= hi <= is_segment@.len(),
            window@ == is_segment@.subrange(lo as int, i as int),
        decreases hi - i,
    {
        window.push(is_segment[i]);
        i = i + 1;
        assert(window@ =~= is_segment@.subrange(lo as int, i as int));
    }
    assert forall|j: int| 0 <= j < left@.len() implies lo <= #[trigger] left@[j] <= max by {
        assert(all[j] == left@[j]);
    }
    assert forall|j: int| 0 <= j < right@.len() implies lo <= #[trigger] right@[j] <= max by {
        assert(all[left@.len() + j] == right@[j]);
    }
    let left_loc = to_local(left, lo);
    let right_loc = to_local(right, lo);
    let n = hi - lo;
    let mut order: Vec<usize> = Vec::new();
    let mut i: usize = 0;
    while i < n
        invariant
            i <= n,
            order@ == identity_order(i as nat),
        decreases n - i,
    {
        order.push(i);
        i = i + 1;
        assert(order@ =~= identity_order(i as nat));
    }
    let ghost id = order@;
    let left_end = left_loc[left_loc.len() - 1];
    move_nodes_after(&mut order, window.as_slice(), Some(left_end), right_loc.as_slice());
    let ghost first = order@;
    let right_start = right_loc[0];
    let before_right = if right_start >= 1 { Some(right_start - 1) } else { None };
    move_nodes_after(&mut order, window.as_slice(), before_right, left_loc.as_slice());
    proof {
        assert forall|k: int| 0 <= k < right_loc@.len() && window@[right_loc@[k] as int] implies id.contains(
            #[trigger] right_loc@[k],
        ) by {
            assert(id[right_loc@[k] as int] == right_loc@[k]);
        }
        law_move_nodes_after_permutes(id, window@, Some(left_end), right_loc@);
        assert forall|k: int| 0 <= k < left_loc@.len() && window@[left_loc@[k] as int] implies first.contains(
            #[trigger] left_loc@[k],
        ) by {
            assert(id[left_loc@[k] as int] == left_loc@[k]);
            assert(id.to_multiset().count(left_loc@[k]) > 0);
        }
        law_move_nodes_after_permutes(first, window@, before_right, left_loc@);
        assert(order@.len() == n) by {
            assert(order@.to_multiset().len() == id.to_multiset().len());
        }
        assert(all[left@.len() - 1] == left@.last());
    }
    (lo, order)
}

} // verus!
