//! The exact search: partition every element into groups of permitted sizes
//! so that the total score is as high as possible.
use vstd::prelude::*;
use itertools::Itertools;
use crate::connections::{copy_list, feasible, group_score, list_views, Connections};

verus! {

// ---------------------------------------------------------------------------
// The quota table: `(size, remaining count)` pairs. A negative count means
// that the size has no limit; a zero count means that the size is spent.
// ---------------------------------------------------------------------------

/// Entry `i` of the quota table can still take a group.
pub open spec fn available(q: Seq<(usize, i16)>, i: int) -> bool {
    0 <= i < q.len() && q[i].1 != 0
}

/// Each size appears at most once in the quota table.
pub open spec fn quota_wf(q: Seq<(usize, i16)>) -> bool {
    forall|i: int, j: int| 0 <= i < q.len() && 0 <= j < q.len() && i != j ==> q[i].0 != q[j].0
}

/// Some size of the quota table can still take a group.
pub open spec fn has_quota(q: Seq<(usize, i16)>) -> bool {
    exists|i: int| available(q, i)
}

/// Entry `i` holds the largest available size.
pub open spec fn is_largest(q: Seq<(usize, i16)>, i: int) -> bool {
    available(q, i) && forall|j: int| available(q, j) ==> q[j].0 <= q[i].0
}

/// The largest size that can still take a group, 0 if none can.
pub open spec fn max_size(q: Seq<(usize, i16)>) -> int {
    if exists|i: int| is_largest(q, i) {
        q[choose|i: int| is_largest(q, i)].0 as int
    } else {
        0
    }
}

/// Entry `i` is where a group of `k` members goes: the smallest available
/// size that holds it, which is `k` itself where that size is available.
pub open spec fn is_bucket(q: Seq<(usize, i16)>, k: int, i: int) -> bool {
    &&& available(q, i)
    &&& q[i].0 >= k
    &&& forall|j: int| available(q, j) && q[j].0 >= k ==> q[i].0 <= q[j].0
}

/// The quota table after a group of `k` members took its bucket: a limited
/// count goes down by one, an unlimited one stays.
pub open spec fn take_quota(q: Seq<(usize, i16)>, k: int) -> Seq<(usize, i16)> {
    let i = choose|i: int| is_bucket(q, k, i);
    if q[i].1 < 0 {
        q
    } else {
        q.update(i, (q[i].0, (q[i].1 - 1) as i16))
    }
}

// ---------------------------------------------------------------------------
// Search states and plans.
// ---------------------------------------------------------------------------

/// Every element has been placed.
pub open spec fn all_placed(placed: Seq<bool>) -> bool {
    forall|i: int| 0 <= i < placed.len() ==> placed[i]
}

/// The elements that are not placed yet, as a predicate.
pub open spec fn unplaced(placed: Seq<bool>) -> spec_fn(usize) -> bool {
    |e: usize| !placed[e as int]
}

/// The candidates of an anchor's list that are not placed yet.
pub open spec fn open_candidates(item: Seq<usize>, placed: Seq<bool>) -> Seq<usize> {
    item.drop_first().filter(unplaced(placed))
}

/// Every selection of `k` members of `s`, each in the order of `s`, in
/// lexicographic order of positions.
pub open spec fn choose_k(s: Seq<usize>, k: nat) -> Seq<Seq<usize>>
    decreases s.len(),
{
    if k == 0 {
        seq![Seq::<usize>::empty()]
    } else if s.len() == 0 {
        Seq::empty()
    } else {
        choose_k(s.drop_first(), (k - 1) as nat).map_values(|c: Seq<usize>| seq![s[0]] + c)
            + choose_k(s.drop_first(), k)
    }
}

/// `placed` with the members of `g` marked.
pub open spec fn place(placed: Seq<bool>, g: Seq<usize>) -> Seq<bool> {
    Seq::new(placed.len(), |i: int| placed[i] || g.contains(i as usize))
}

/// `g` is a group that the search may form around the anchor of `item`:
/// the anchor followed by a selection of its open candidates, with at least
/// two and at most the largest available number of members, and feasible.
pub open spec fn next_group(
    m: Seq<Seq<i16>>,
    item: Seq<usize>,
    placed: Seq<bool>,
    q: Seq<(usize, i16)>,
    g: Seq<usize>,
) -> bool {
    &&& 2 <= g.len() <= max_size(q)
    &&& g[0] == item[0]
    &&& choose_k(open_candidates(item, placed), (g.len() - 1) as nat).contains(g.drop_first())
    &&& feasible(m, g)
}

/// `groups` is a complete plan from the state `(start, placed, q)` over the
/// anchor lists `anchors`: at each anchor that is not placed yet, its group
/// comes next, until every element is placed. A plan is a partition written
/// in the order of the walk, each group taking the smallest size that holds
/// it; every plan is a valid partition (`lemma_partition_valid`), and the
/// search's optimum is taken over plans.
pub open spec fn is_plan(
    m: Seq<Seq<i16>>,
    anchors: Seq<Seq<usize>>,
    start: int,
    placed: Seq<bool>,
    q: Seq<(usize, i16)>,
    groups: Seq<Seq<usize>>,
) -> bool
    decreases anchors.len() - start,
{
    if all_placed(placed) {
        groups.len() == 0
    } else if start < 0 || start >= anchors.len() || anchors[start].len() < 2 {
        false
    } else if placed[anchors[start][0] as int] {
        is_plan(m, anchors, start + 1, placed, q, groups)
    } else {
        &&& groups.len() > 0
        &&& next_group(m, anchors[start], placed, q, groups[0])
        &&& is_plan(
            m,
            anchors,
            start + 1,
            place(placed, groups[0]),
            take_quota(q, groups[0].len() as int),
            groups.drop_first(),
        )
    }
}

/// Following `groups` from the state `(start, placed, q)` leads to an anchor
/// that has open candidates while no size is available any more.
pub open spec fn stuck_path(
    m: Seq<Seq<i16>>,
    anchors: Seq<Seq<usize>>,
    start: int,
    placed: Seq<bool>,
    q: Seq<(usize, i16)>,
    groups: Seq<Seq<usize>>,
) -> bool
    decreases anchors.len() - start,
{
    if all_placed(placed) {
        false
    } else if start < 0 || start >= anchors.len() || anchors[start].len() < 2 {
        false
    } else if placed[anchors[start][0] as int] {
        stuck_path(m, anchors, start + 1, placed, q, groups)
    } else if open_candidates(anchors[start], placed).len() == 0 {
        false
    } else if !has_quota(q) {
        groups.len() == 0
    } else {
        &&& groups.len() > 0
        &&& next_group(m, anchors[start], placed, q, groups[0])
        &&& stuck_path(
            m,
            anchors,
            start + 1,
            place(placed, groups[0]),
            take_quota(q, groups[0].len() as int),
            groups.drop_first(),
        )
    }
}

/// The total score of a sequence of groups.
pub open spec fn plan_score(m: Seq<Seq<i16>>, groups: Seq<Seq<usize>>) -> int
    decreases groups.len(),
{
    if groups.len() == 0 {
        0
    } else {
        group_score(m, groups[0]) + plan_score(m, groups.drop_first())
    }
}

/// The number of placed elements.
pub open spec fn count_placed(placed: Seq<bool>) -> nat
    decreases placed.len(),
{
    if placed.len() == 0 {
        0
    } else {
        count_placed(placed.drop_last()) + if placed.last() {
            1nat
        } else {
            0nat
        }
    }
}

/// The most that one placed element adds to the magnitude of a score: 255
/// partners at 32767 each.
pub open spec fn per_element_bound() -> int {
    8355585int
}

// ---------------------------------------------------------------------------
// Lemmas.
// ---------------------------------------------------------------------------

proof fn lemma_count_le(s: Seq<bool>)
    ensures
        count_placed(s) <= s.len(),
    decreases s.len(),
{
    if s.len() > 0 {
        lemma_count_le(s.drop_last());
    }
}

proof fn lemma_count_update(s: Seq<bool>, i: int)
    requires
        0 <= i < s.len(),
        !s[i],
    ensures
        count_placed(s.update(i, true)) == count_placed(s) + 1,
    decreases s.len(),
{
    let t = s.update(i, true);
    if i == s.len() - 1 {
        assert(t.drop_last() =~= s.drop_last());
    } else {
        assert(t.drop_last() =~= s.drop_last().update(i, true));
        lemma_count_update(s.drop_last(), i);
    }
}

/// Placing `g`, whose members are distinct and not placed yet, places
/// exactly `g.len()` more elements.
proof fn lemma_place_count(p: Seq<bool>, g: Seq<usize>)
    requires
        p.len() <= usize::MAX,
        g.no_duplicates(),
        forall|i: int| 0 <= i < g.len() ==> (#[trigger] g[i] as int) < p.len() && !p[g[i] as int],
    ensures
        count_placed(place(p, g)) == count_placed(p) + g.len(),
        place(p, g).len() == p.len(),
    decreases g.len(),
{
    if g.len() == 0 {
        assert(place(p, g) =~= p);
    } else {
        let marked = p.update(g[0] as int, true);
        let rest = g.drop_first();
        assert forall|i: int| 0 <= i < rest.len() implies (#[trigger] rest[i] as int) < marked.len()
            && !marked[rest[i] as int] by {
            assert(rest[i] == g[i + 1]);
            assert(g[i + 1] != g[0]);
        }
        lemma_place_count(marked, rest);
        lemma_count_update(p, g[0] as int);
        assert(place(p, g) =~= place(marked, rest)) by {
            assert forall|i: int| 0 <= i < p.len() implies place(p, g)[i] == place(marked, rest)[i] by {
                let u = i as usize;
                assert(u as int == i);
                if i == g[0] as int {
                    assert(g.contains(u));
                } else {
                    if g.contains(u) {
                        let k = choose|k: int| 0 <= k < g.len() && g[k] == u;
                        assert(k > 0);
                        assert(rest[k - 1] == u);
                    }
                    if rest.contains(u) {
                        let k = choose|k: int| 0 <= k < rest.len() && rest[k] == u;
                        assert(g[k + 1] == u);
                    }
                }
            }
        }
    }
}

/// Every selection has `k` members, each a member of `s`.
proof fn lemma_choose_k_members(s: Seq<usize>, k: nat, c: Seq<usize>)
    requires
        choose_k(s, k).contains(c),
    ensures
        c.len() == k,
        k <= s.len(),
        forall|i: int| 0 <= i < c.len() ==> s.contains(#[trigger] c[i]),
    decreases s.len(),
{
    if k == 0 {
        assert(c == Seq::<usize>::empty());
    } else {
        let t = s.drop_first();
        let left = choose_k(t, (k - 1) as nat).map_values(|d: Seq<usize>| seq![s[0]] + d);
        let right = choose_k(t, k);
        let j = choose|j: int| 0 <= j < choose_k(s, k).len() && choose_k(s, k)[j] == c;
        if j < left.len() {
            let d = choose_k(t, (k - 1) as nat)[j];
            assert(choose_k(t, (k - 1) as nat).contains(d));
            lemma_choose_k_members(t, (k - 1) as nat, d);
            assert(c == seq![s[0]] + d);
            assert forall|i: int| 0 <= i < c.len() implies s.contains(#[trigger] c[i]) by {
                if i == 0 {
                    assert(s[0] == c[0]);
                } else {
                    assert(c[i] == d[i - 1]);
                    let x = choose|x: int| 0 <= x < t.len() && t[x] == d[i - 1];
                    assert(s[x + 1] == c[i]);
                }
            }
        } else {
            assert(right[j - left.len()] == c);
            assert(right.contains(c));
            lemma_choose_k_members(t, k, c);
            assert forall|i: int| 0 <= i < c.len() implies s.contains(#[trigger] c[i]) by {
                let x = choose|x: int| 0 <= x < t.len() && t[x] == c[i];
                assert(s[x + 1] == c[i]);
            }
        }
    }
}

/// A feasible group never holds an element twice: the diagonal is excluded.
proof fn lemma_feasible_distinct(m: Seq<Seq<i16>>, g: Seq<usize>)
    requires
        feasible(m, g),
        forall|i: int| 0 <= i < g.len() ==> m[#[trigger] g[i] as int][g[i] as int] == i16::MIN,
    ensures
        g.no_duplicates(),
{
    assert forall|i: int, j: int| 0 <= i < g.len() && 0 <= j < g.len() && i != j implies g[i]
        != g[j] by {
        if g[i] == g[j] {
            assert(m[g[i] as int][g[j] as int] != i16::MIN);
        }
    }
}

proof fn lemma_row_bound(m: Seq<Seq<i16>>, g: Seq<usize>, x: int, k: int)
    requires
        feasible(m, g),
        0 <= x < g.len(),
        0 <= k <= g.len(),
    ensures
        -32767 * (k - if x < k { 1int } else { 0int }) <= crate::connections::row_score(m, g, x, k)
            <= 32767 * (k - if x < k { 1int } else { 0int }),
    decreases k,
{
    if k > 0 {
        lemma_row_bound(m, g, x, k - 1);
        if k - 1 != x {
            assert(m[g[x] as int][g[k - 1] as int] != i16::MIN);
        }
    }
}

proof fn lemma_rows_bound(m: Seq<Seq<i16>>, g: Seq<usize>, k: int)
    requires
        feasible(m, g),
        1 <= g.len() <= 256,
        0 <= k <= g.len(),
    ensures
        -(per_element_bound() * k) <= crate::connections::rows_score(m, g, k),
        crate::connections::rows_score(m, g, k) <= per_element_bound() * k,
    decreases k,
{
    if k > 0 {
        lemma_rows_bound(m, g, k - 1);
        lemma_row_bound(m, g, k - 1, g.len() as int);
        let r = crate::connections::row_score(m, g, k - 1, g.len() as int);
        assert(-8355585 <= r <= 8355585);
        assert(8355585 * k == 8355585 * (k - 1) + 8355585);
        assert(crate::connections::rows_score(m, g, k) == crate::connections::rows_score(m, g, k - 1)
            + r);
        assert(per_element_bound() == 8355585);
    }
}

/// A feasible group of at most 256 members scores at most 32767 * 255 per
/// member in magnitude.
proof fn lemma_group_bound(m: Seq<Seq<i16>>, g: Seq<usize>)
    requires
        feasible(m, g),
        1 <= g.len() <= 256,
    ensures
        -(per_element_bound() * g.len()) <= group_score(m, g),
        group_score(m, g) <= per_element_bound() * g.len(),
{
    lemma_rows_bound(m, g, g.len() as int);
}

// ---------------------------------------------------------------------------
// What a complete plan guarantees.
// ---------------------------------------------------------------------------

/// No element placed yet.
pub open spec fn none_placed(n: nat) -> Seq<bool> {
    Seq::new(n, |i: int| false)
}

/// The size of the entry that a group of `k` members takes.
pub open spec fn bucket_size(q: Seq<(usize, i16)>, k: int) -> int {
    q[choose|i: int| is_bucket(q, k, i)].0 as int
}

/// How many of the groups, taken in order, use the entry of size `s`.
pub open spec fn uses_of(q: Seq<(usize, i16)>, groups: Seq<Seq<usize>>, s: int) -> nat
    decreases groups.len(),
{
    if groups.len() == 0 {
        0
    } else {
        (if bucket_size(q, groups[0].len() as int) == s {
            1nat
        } else {
            0nat
        }) + uses_of(take_quota(q, groups[0].len() as int), groups.drop_first(), s)
    }
}

/// `e` stands at exactly one place among the groups.
pub open spec fn placed_once(groups: Seq<Seq<usize>>, e: usize) -> bool {
    exists|i: int, j: int|
        0 <= i < groups.len() && 0 <= j < groups[i].len() && groups[i][j] == e && forall|
            i2: int,
            j2: int,
        |
            0 <= i2 < groups.len() && 0 <= j2 < groups[i2].len() && #[trigger] groups[i2][j2] == e
                ==> i2 == i && j2 == j
}

/// `e` stands in none of the groups.
pub open spec fn absent(groups: Seq<Seq<usize>>, e: usize) -> bool {
    forall|i: int, j: int| 0 <= i < groups.len() && 0 <= j < groups[i].len() ==> #[trigger] groups[i][j] != e
}

/// Every element `0..m.len()` stands in exactly one group, every group has
/// at least two members none of which exclude each other, and no limited
/// size takes more groups than its count.
pub open spec fn valid_partition(m: Seq<Seq<i16>>, q: Seq<(usize, i16)>, groups: Seq<Seq<usize>>) -> bool {
    &&& forall|e: usize| (e as int) < m.len() ==> #[trigger] placed_once(groups, e)
    &&& forall|i: int, j: int|
        0 <= i < groups.len() && 0 <= j < groups[i].len() ==> (#[trigger] groups[i][j] as int) < m.len()
    &&& forall|i: int| 0 <= i < groups.len() ==> (#[trigger] groups[i]).len() >= 2 && feasible(m, groups[i])
    &&& forall|i: int| 0 <= i < q.len() && q[i].1 >= 0 ==> #[trigger] uses_of(q, groups, q[i].0 as int) <= q[i].1
}

/// Where some available size holds `k` members, a smallest one does.
proof fn lemma_bucket_exists(q: Seq<(usize, i16)>, k: int)
    requires
        exists|j: int| available(q, j) && q[j].0 >= k,
    ensures
        exists|i: int| is_bucket(q, k, i),
    decreases q.len(),
{
    let last = q.len() - 1;
    let r = q.drop_last();
    assert forall|j: int| 0 <= j < last implies r[j] == q[j] && (available(r, j) == available(q, j)) by {}
    if exists|j: int| available(r, j) && r[j].0 >= k {
        lemma_bucket_exists(r, k);
        let i = choose|i: int| is_bucket(r, k, i);
        assert(r[i] == q[i] && available(q, i));
        if available(q, last) && q[last].0 >= k && q[last].0 < r[i].0 {
            assert forall|j: int| available(q, j) && q[j].0 >= k implies q[last].0 <= q[j].0 by {
                if j != last {
                    assert(available(r, j));
                }
            }
            assert(is_bucket(q, k, last));
        } else {
            assert forall|j: int| available(q, j) && q[j].0 >= k implies q[i].0 <= q[j].0 by {
                if j != last {
                    assert(available(r, j));
                }
            }
            assert(is_bucket(q, k, i));
        }
    } else {
        let j0 = choose|j: int| available(q, j) && q[j].0 >= k;
        if j0 != last {
            assert(available(r, j0));
        }
        assert forall|j: int| available(q, j) && q[j].0 >= k implies q[last].0 <= q[j].0 by {
            if j != last {
                assert(available(r, j));
            }
        }
        assert(is_bucket(q, k, last));
    }
}

proof fn lemma_plan_valid(
    m: Seq<Seq<i16>>,
    anchors: Seq<Seq<usize>>,
    start: int,
    placed: Seq<bool>,
    q: Seq<(usize, i16)>,
    groups: Seq<Seq<usize>>,
)
    requires
        is_plan(m, anchors, start, placed, q, groups),
        crate::connections::square_with_diagonal(m, placed.len()),
        placed.len() <= usize::MAX,
        anchor_lists(m, anchors),
        quota_wf(q),
    ensures
        forall|i: int| 0 <= i < groups.len() ==> (#[trigger] groups[i]).len() >= 2 && feasible(m, groups[i]),
        forall|i: int, j: int|
            0 <= i < groups.len() && 0 <= j < groups[i].len() ==> (#[trigger] groups[i][j] as int)
                < placed.len(),
        forall|e: usize| (e as int) < placed.len() && placed[e as int] ==> #[trigger] absent(groups, e),
        forall|e: usize| (e as int) < placed.len() && !placed[e as int] ==> #[trigger] placed_once(groups, e),
        forall|i: int| 0 <= i < q.len() && q[i].1 >= 0 ==> #[trigger] uses_of(q, groups, q[i].0 as int) <= q[i].1,
    decreases anchors.len() - start,
{
    if all_placed(placed) {
    } else if placed[anchors[start][0] as int] {
        lemma_plan_valid(m, anchors, start + 1, placed, q, groups);
    } else {
        let item = anchors[start];
        let g = groups[0];
        let rest = groups.drop_first();
        let open = open_candidates(item, placed);
        let placed_after = place(placed, g);
        let quota_after = take_quota(q, g.len() as int);
        lemma_choose_k_members(open, (g.len() - 1) as nat, g.drop_first());
        assert forall|x: int| 0 <= x < g.len() implies (#[trigger] g[x] as int) < placed.len() && !placed[g[x] as int] by {
            if x > 0 {
                assert(g[x] == g.drop_first()[x - 1]);
                assert(open.contains(g[x]));
                let y = choose|y: int| 0 <= y < open.len() && open[y] == g[x];
                item.drop_first().lemma_filter_pred(unplaced(placed), y);
                item.drop_first().lemma_filter_contains_rev(unplaced(placed), g[x]);
                let z = choose|z: int| 0 <= z < item.drop_first().len() && item.drop_first()[z] == g[x];
                assert(item[z + 1] == g[x]);
                assert(crate::connections::candidate_list(m, item[0] as int, item));
            }
        }
        assert forall|x: int| 0 <= x < g.len() implies m[#[trigger] g[x] as int][g[x] as int] == i16::MIN by {
            assert(m[g[x] as int][g[x] as int] == i16::MIN);
        }
        lemma_feasible_distinct(m, g);
        // the group takes a bucket
        let c = choose|c: int| is_largest(q, c);
        assert(is_largest(q, c));
        lemma_bucket_exists(q, g.len() as int);
        let b = choose|i: int| is_bucket(q, g.len() as int, i);
        assert(quota_wf(quota_after));
        lemma_plan_valid(m, anchors, start + 1, placed_after, quota_after, rest);
        assert forall|i: int| 0 <= i < groups.len() implies (#[trigger] groups[i]).len() >= 2 && feasible(m, groups[i]) by {
            if i > 0 {
                assert(groups[i] == rest[i - 1]);
            }
        }
        assert forall|i: int, j: int|
            0 <= i < groups.len() && 0 <= j < groups[i].len() implies (#[trigger] groups[i][j] as int)
                < placed.len() by {
            if i > 0 {
                assert(groups[i][j] == rest[i - 1][j]);
            }
        }
        assert forall|e: usize| (e as int) < placed.len() && placed[e as int] implies #[trigger] absent(groups, e) by {
            assert(placed_after[e as int]);
            assert(absent(rest, e));
            assert forall|i: int, j: int| 0 <= i < groups.len() && 0 <= j < groups[i].len() implies #[trigger] groups[i][j] != e by {
                if i > 0 {
                    assert(groups[i][j] == rest[i - 1][j]);
                }
            }
        }
        assert forall|e: usize| (e as int) < placed.len() && !placed[e as int] implies #[trigger] placed_once(groups, e) by {
            if g.contains(e) {
                let j = choose|j: int| 0 <= j < g.len() && g[j] == e;
                assert(placed_after[e as int]);
                assert(absent(rest, e));
                assert forall|i2: int, j2: int|
                    0 <= i2 < groups.len() && 0 <= j2 < groups[i2].len() && #[trigger] groups[i2][j2] == e
                        implies i2 == 0 && j2 == j by {
                    if i2 > 0 {
                        assert(groups[i2][j2] == rest[i2 - 1][j2]);
                    }
                }
                assert(groups[0][j] == e);
            } else {
                assert(!placed_after[e as int]);
                assert(placed_once(rest, e));
                let (i1, j1) = choose|i1: int, j1: int|
                    0 <= i1 < rest.len() && 0 <= j1 < rest[i1].len() && rest[i1][j1] == e && forall|
                        i2: int,
                        j2: int,
                    |
                        0 <= i2 < rest.len() && 0 <= j2 < rest[i2].len() && #[trigger] rest[i2][j2]
                            == e ==> i2 == i1 && j2 == j1;
                assert(groups[i1 + 1][j1] == e);
                assert forall|i2: int, j2: int|
                    0 <= i2 < groups.len() && 0 <= j2 < groups[i2].len() && #[trigger] groups[i2][j2] == e
                        implies i2 == i1 + 1 && j2 == j1 by {
                    if i2 == 0 {
                        assert(g.contains(e));
                    } else {
                        assert(rest[i2 - 1][j2] == e);
                    }
                }
            }
        }
        assert forall|i: int| 0 <= i < q.len() && q[i].1 >= 0 implies #[trigger] uses_of(q, groups, q[i].0 as int) <= q[i].1 by {
            assert(uses_of(quota_after, rest, quota_after[i].0 as int) <= quota_after[i].1);
            if i == b {
                assert(quota_after[i].1 == q[i].1 - 1);
            } else {
                assert(quota_after[i] == q[i]);
                assert(q[b].0 != q[i].0);
            }
        }
    }
}

/// A complete plan from the start, with nothing placed, is a valid
/// partition: every element stands in exactly one group, every group has at
/// least two members none of which exclude each other, and no size is used
/// by more groups than the quota table allows.
pub proof fn lemma_partition_valid(
    m: Seq<Seq<i16>>,
    anchors: Seq<Seq<usize>>,
    q: Seq<(usize, i16)>,
    groups: Seq<Seq<usize>>,
)
    requires
        is_plan(m, anchors, 0, none_placed(m.len()), q, groups),
        crate::connections::square_with_diagonal(m, m.len()),
        m.len() <= usize::MAX,
        anchor_lists(m, anchors),
        quota_wf(q),
    ensures
        valid_partition(m, q, groups),
{
    lemma_plan_valid(m, anchors, 0, none_placed(m.len()), q, groups);
}

// ---------------------------------------------------------------------------
// Executable steps.
// ---------------------------------------------------------------------------

/// Relies on `itertools::Itertools::combinations`: every selection of `k`
/// items, each in the order of `items`, in lexicographic order of positions;
/// one empty selection for `k == 0`, none for `k` above the item count.
#[verifier::external_body]
fn combinations(items: &Vec<usize>, k: usize) -> (r: Vec<Vec<usize>>)
    ensures
        r@.map_values(|c: Vec<usize>| c@) == choose_k(items@, k as nat),
{
    items.iter().cloned().combinations(k).collect()
}

/// The largest size that can still take a group.
fn largest_size(outputs: &Vec<(usize, i16)>) -> (r: Option<usize>)
    ensures
        r is None <==> !has_quota(outputs@),
        r matches Some(s) ==> s == max_size(outputs@),
{
    let mut best: Option<usize> = None;
    let mut i: usize = 0;
    while i < outputs.len()
        invariant
            i <= outputs@.len(),
            best is None ==> forall|j: int| 0 <= j < i ==> !available(outputs@, j),
            best matches Some(b) ==> b < i && available(outputs@, b as int) && forall|j: int|
                0 <= j < i && available(outputs@, j) ==> outputs@[j].0 <= outputs@[b as int].0,
        decreases outputs.len() - i,
    {
        if outputs[i].1 != 0 {
            match best {
                Some(b) if outputs[b].0 >= outputs[i].0 => {},
                _ => {
                    best = Some(i);
                },
            }
        }
        i += 1;
    }
    match best {
        Some(b) => {
            assert(is_largest(outputs@, b as int));
            let ghost c = choose|c: int| is_largest(outputs@, c);
            assert(outputs@[c].0 == outputs@[b as int].0);
            Some(outputs[b].0)
        },
        None => None,
    }
}

/// Where a group of `k` members goes: the entry with the smallest available
/// size of at least `k`.
fn bucket_of(outputs: &Vec<(usize, i16)>, k: usize) -> (r: Option<usize>)
    ensures
        r matches Some(i) ==> is_bucket(outputs@, k as int, i as int),
        r is None ==> forall|j: int| available(outputs@, j) ==> outputs@[j].0 < k,
{
    let mut best: Option<usize> = None;
    let mut i: usize = 0;
    while i < outputs.len()
        invariant
            i <= outputs@.len(),
            best is None ==> forall|j: int| 0 <= j < i && available(outputs@, j) ==> outputs@[j].0 < k,
            best matches Some(b) ==> b < i && available(outputs@, b as int) && outputs@[b as int].0
                >= k && forall|j: int|
                0 <= j < i && available(outputs@, j) && outputs@[j].0 >= k ==> outputs@[b as int].0
                    <= outputs@[j].0,
        decreases outputs.len() - i,
    {
        if outputs[i].1 != 0 && outputs[i].0 >= k {
            match best {
                Some(b) if outputs[b].0 <= outputs[i].0 => {},
                _ => {
                    best = Some(i);
                },
            }
        }
        i += 1;
    }
    best
}

/// The quota table after a group took entry `i`.
fn take_bucket(outputs: &Vec<(usize, i16)>, i: usize, k: usize) -> (r: Vec<(usize, i16)>)
    requires
        quota_wf(outputs@),
        is_bucket(outputs@, k as int, i as int),
    ensures
        r@ == take_quota(outputs@, k as int),
        quota_wf(r@),
{
    let mut r: Vec<(usize, i16)> = Vec::new();
    let mut j: usize = 0;
    while j < outputs.len()
        invariant
            j <= outputs@.len(),
            r@ == outputs@.subrange(0, j as int),
        decreases outputs.len() - j,
    {
        r.push(outputs[j]);
        assert(outputs@.subrange(0, j + 1) =~= outputs@.subrange(0, j as int).push(outputs@[j as int]));
        j += 1;
    }
    assert(r@ =~= outputs@);
    let ghost c = choose|c: int| is_bucket(outputs@, k as int, c);
    assert(c == i) by {
        assert(outputs@[c].0 == outputs@[i as int].0);
    }
    let (size, count) = outputs[i];
    if count > 0 {
        r.set(i, (size, count - 1));
    }
    r
}

/// The flags with the members of `g` marked as placed.
fn mark_placed(ignore: &Vec<bool>, g: &Vec<usize>) -> (r: Vec<bool>)
    requires
        forall|i: int| 0 <= i < g@.len() ==> #[trigger] g@[i] < ignore@.len(),
    ensures
        r@ == place(ignore@, g@),
{
    let mut r: Vec<bool> = Vec::new();
    let mut j: usize = 0;
    while j < ignore.len()
        invariant
            j <= ignore@.len(),
            r@ == ignore@.subrange(0, j as int),
        decreases ignore.len() - j,
    {
        r.push(ignore[j]);
        assert(ignore@.subrange(0, j + 1) =~= ignore@.subrange(0, j as int).push(ignore@[j as int]));
        j += 1;
    }
    let n = ignore.len();
    let mut k: usize = 0;
    while k < g.len()
        invariant
            n == ignore@.len(),
            forall|i: int| 0 <= i < g@.len() ==> #[trigger] g@[i] < ignore@.len(),
            k <= g@.len(),
            r@.len() == ignore@.len(),
            forall|i: int|
                0 <= i < ignore@.len() ==> #[trigger] r@[i] == (ignore@[i] || g@.subrange(
                    0,
                    k as int,
                ).contains(i as usize)),
        decreases g.len() - k,
    {
        let e = g[k];
        let ghost before = r@;
        r.set(e, true);
        assert forall|i: int| 0 <= i < ignore@.len() implies #[trigger] r@[i] == (ignore@[i]
            || g@.subrange(0, k + 1).contains(i as usize)) by {
            let u = i as usize;
            let s1 = g@.subrange(0, k + 1);
            let s0 = g@.subrange(0, k as int);
            if s1.contains(u) && !s0.contains(u) {
                let x = choose|x: int| 0 <= x < s1.len() && s1[x] == u;
                if x < k {
                    assert(s0[x] == u);
                }
            }
            if s0.contains(u) {
                let x = choose|x: int| 0 <= x < s0.len() && s0[x] == u;
                assert(s1[x] == u);
            }
            assert(u as int == i);
            if i == e as int {
                assert(s1[k as int] == u);
            } else {
                assert(r@[i] == before[i]);
            }
        }
        k += 1;
    }
    assert(g@.subrange(0, g@.len() as int) =~= g@);
    assert(r@ =~= place(ignore@, g@));
    r
}

/// The candidates of `item`, after its anchor, that are not placed yet.
fn open_candidates_of(item: &Vec<usize>, ignore: &Vec<bool>) -> (r: Vec<usize>)
    requires
        item@.len() >= 1,
        forall|i: int| 0 <= i < item@.len() ==> #[trigger] item@[i] < ignore@.len(),
    ensures
        r@ == open_candidates(item@, ignore@),
        forall|i: int|
            0 <= i < r@.len() ==> #[trigger] r@[i] < ignore@.len() && !ignore@[r@[i] as int],
{
    let mut r: Vec<usize> = Vec::new();
    let mut j: usize = 1;
    while j < item.len()
        invariant
            item@.len() >= 1,
            forall|i: int| 0 <= i < item@.len() ==> #[trigger] item@[i] < ignore@.len(),
            1 <= j <= item@.len(),
            r@ == item@.subrange(1, j as int).filter(unplaced(ignore@)),
            forall|i: int|
                0 <= i < r@.len() ==> #[trigger] r@[i] < ignore@.len() && !ignore@[r@[i] as int],
        decreases item.len() - j,
    {
        let e = item[j];
        proof {
            assert(item@.subrange(1, j + 1) =~= item@.subrange(1, j as int).push(e));
            item@.subrange(1, j as int).lemma_filter_push(e, unplaced(ignore@));
        }
        if !ignore[e] {
            r.push(e);
        }
        j += 1;
    }
    assert(item@.subrange(1, item@.len() as int) =~= item@.drop_first());
    r
}

/// A candidate list is at most one longer than the number of elements: after
/// the anchor its entries strictly increase.
proof fn lemma_increasing_len(l: Seq<usize>, n: int)
    requires
        n >= 0,
        l.len() >= 1,
        forall|i: int, j: int| 1 <= i < j < l.len() ==> l[i] < l[j],
        forall|i: int| 1 <= i < l.len() ==> (#[trigger] l[i] as int) < n,
    ensures
        l.len() <= n + 1,
{
    if l.len() >= 2 {
        assert forall|i: int| 1 <= i < l.len() implies (#[trigger] l[i] as int) >= i - 1 by {
            lemma_increasing_at(l, i);
        }
        assert(l[l.len() - 1] as int >= l.len() - 2);
        assert((l[l.len() - 1] as int) < n);
    }
}

proof fn lemma_increasing_at(l: Seq<usize>, i: int)
    requires
        1 <= i < l.len(),
        forall|a: int, b: int| 1 <= a < b < l.len() ==> l[a] < l[b],
    ensures
        l[i] as int >= i - 1,
    decreases i,
{
    if i > 1 {
        lemma_increasing_at(l, i - 1);
    }
}

/// The anchor followed by the selection `c`.
fn with_anchor(a: usize, c: &Vec<usize>) -> (g: Vec<usize>)
    ensures
        g@ == seq![a] + c@,
{
    let mut g: Vec<usize> = Vec::new();
    g.push(a);
    let mut i: usize = 0;
    while i < c.len()
        invariant
            i <= c@.len(),
            g@ == seq![a] + c@.subrange(0, i as int),
        decreases c.len() - i,
    {
        g.push(c[i]);
        assert(seq![a] + c@.subrange(0, i + 1) =~= (seq![a] + c@.subrange(0, i as int)).push(
            c@[i as int],
        ));
        i += 1;
    }
    assert(c@.subrange(0, c@.len() as int) =~= c@);
    g
}

/// Inserts `entry` after every entry whose score is at least its own.
fn insert_by_score(out: &mut Vec<(i32, Vec<usize>)>, entry: (i32, Vec<usize>))
    requires
        forall|i: int, j: int| 0 <= i < j < old(out)@.len() ==> old(out)@[i].0 >= old(out)@[j].0,
    ensures
        forall|i: int, j: int|
            0 <= i < j < final(out)@.len() ==> final(out)@[i].0 >= final(out)@[j].0,
        exists|p: int| 0 <= p <= old(out)@.len() && final(out)@ == old(out)@.insert(p, entry),
{
    let mut p: usize = 0;
    while p < out.len() && out[p].0 >= entry.0
        invariant
            p <= out@.len(),
            forall|i: int| 0 <= i < p ==> out@[i].0 >= entry.0,
        decreases out.len() - p,
    {
        p += 1;
    }
    let ghost before = out@;
    out.insert(p, entry);
    assert(out@ == before.insert(p as int, entry));
}

/// Every group that the search may form around the anchor of `item`, with
/// its score, best score first.
fn candidate_groups(
    connections: &Connections,
    item: &Vec<usize>,
    open: &Vec<usize>,
    ignore: &Vec<bool>,
    outputs: &Vec<(usize, i16)>,
    kmax: usize,
) -> (r: Vec<(i32, Vec<usize>)>)
    requires
        connections.wf(),
        connections.fixed_order@.len() <= 255,
        ignore@.len() == connections.fixed_order@.len(),
        1 <= item@.len() <= 256,
        item@[0] < connections.fixed_order@.len(),
        open@ == open_candidates(item@, ignore@),
        forall|i: int| 0 <= i < open@.len() ==> #[trigger] open@[i] < ignore@.len(),
        kmax == max_size(outputs@),
    ensures
        forall|j: int|
            0 <= j < r@.len() ==> next_group(
                connections.grid(),
                item@,
                ignore@,
                outputs@,
                #[trigger] r@[j].1@,
            ) && r@[j].0 == group_score(connections.grid(), r@[j].1@),
        forall|g: Seq<usize>|
            #[trigger] next_group(connections.grid(), item@, ignore@, outputs@, g) ==> exists|j: int|
                0 <= j < r@.len() && r@[j].1@ == g,
{
    let ghost m = connections.grid();
    let ghost q = outputs@;
    let a = item[0];
    proof {
        item@.drop_first().lemma_filter_len(unplaced(ignore@));
    }
    let top = if kmax < open.len() + 1 {
        kmax
    } else {
        open.len() + 1
    };
    let mut out: Vec<(i32, Vec<usize>)> = Vec::new();
    let mut k: usize = 2;
    while k <= top
        invariant
            connections.wf(),
            m == connections.grid(),
            q == outputs@,
            connections.fixed_order@.len() <= 255,
            a == item@[0],
            a < connections.fixed_order@.len(),
            open@ == open_candidates(item@, ignore@),
            open@.len() <= 255,
            forall|i: int| 0 <= i < open@.len() ==> #[trigger] open@[i] < ignore@.len(),
            ignore@.len() == connections.fixed_order@.len(),
            kmax == max_size(q),
            top <= kmax,
            top <= open@.len() + 1,
            2 <= k,
            forall|i: int, j: int| 0 <= i < j < out@.len() ==> out@[i].0 >= out@[j].0,
            forall|j: int|
                0 <= j < out@.len() ==> next_group(m, item@, ignore@, q, #[trigger] out@[j].1@)
                    && out@[j].0 == group_score(m, out@[j].1@),
            forall|g: Seq<usize>|
                #[trigger] next_group(m, item@, ignore@, q, g) && g.len() < k ==> exists|j: int|
                    0 <= j < out@.len() && out@[j].1@ == g,
        decreases top + 1 - k,
    {
        let combs = combinations(open, k - 1);
        let ghost views = combs@.map_values(|c: Vec<usize>| c@);
        let mut idx: usize = 0;
        while idx < combs.len()
            invariant
                connections.wf(),
                m == connections.grid(),
                q == outputs@,
                connections.fixed_order@.len() <= 255,
                a == item@[0],
                a < connections.fixed_order@.len(),
                open@ == open_candidates(item@, ignore@),
                open@.len() <= 255,
                forall|i: int| 0 <= i < open@.len() ==> #[trigger] open@[i] < ignore@.len(),
                ignore@.len() == connections.fixed_order@.len(),
                kmax == max_size(q),
                top <= kmax,
                top <= open@.len() + 1,
                2 <= k <= top,
                views == combs@.map_values(|c: Vec<usize>| c@),
                views == choose_k(open@, (k - 1) as nat),
                idx <= combs@.len(),
                forall|i: int, j: int| 0 <= i < j < out@.len() ==> out@[i].0 >= out@[j].0,
                forall|j: int|
                    0 <= j < out@.len() ==> next_group(m, item@, ignore@, q, #[trigger] out@[j].1@)
                        && out@[j].0 == group_score(m, out@[j].1@),
                forall|g: Seq<usize>|
                    #[trigger] next_group(m, item@, ignore@, q, g) && (g.len() < k || (g.len() == k
                        && exists|x: int| 0 <= x < idx && views[x] == g.drop_first())) ==> exists|
                        j: int,
                    |
                        0 <= j < out@.len() && out@[j].1@ == g,
            decreases combs.len() - idx,
        {
            let g = with_anchor(a, &combs[idx]);
            proof {
                assert(views[idx as int] == combs@[idx as int]@);
                assert(views.contains(views[idx as int]));
                lemma_choose_k_members(open@, (k - 1) as nat, views[idx as int]);
                assert(g@.drop_first() =~= views[idx as int]);
                assert forall|i: int| 0 <= i < g@.len() implies #[trigger] g@[i]
                    < connections.fixed_order@.len() by {
                    if i > 0 {
                        let x = choose|x: int|
                            0 <= x < open@.len() && open@[x] == views[idx as int][i - 1];
                        assert(open@[x] < ignore@.len());
                    }
                }
            }
            let (ok, score) = connections.calc_score(&g);
            let ghost before = out@;
            if ok {
                assert(next_group(m, item@, ignore@, q, g@));
                insert_by_score(&mut out, (score, g));
                proof {
                    let p = choose|p: int|
                        0 <= p <= before.len() && out@ == before.insert(p, (score, g));
                    assert forall|j: int| 0 <= j < out@.len() implies next_group(
                        m,
                        item@,
                        ignore@,
                        q,
                        #[trigger] out@[j].1@,
                    ) && out@[j].0 == group_score(m, out@[j].1@) by {
                        if j < p {
                            assert(out@[j] == before[j]);
                        } else if j > p {
                            assert(out@[j] == before[j - 1]);
                        }
                    }
                    assert forall|h: Seq<usize>|
                        #[trigger] next_group(m, item@, ignore@, q, h) && (h.len() < k || (h.len()
                            == k && exists|x: int| 0 <= x < idx + 1 && views[x] == h.drop_first()))
                            implies exists|j: int| 0 <= j < out@.len() && out@[j].1@ == h by {
                        if h.len() == k && views[idx as int] == h.drop_first() {
                            assert(h =~= g@);
                            assert(out@[p].1@ == h);
                        } else {
                            if h.len() == k {
                                let x = choose|x: int| 0 <= x < idx + 1 && views[x] == h.drop_first();
                                assert(x < idx);
                            }
                            let j = choose|j: int| 0 <= j < before.len() && before[j].1@ == h;
                            if j < p {
                                assert(out@[j] == before[j]);
                            } else {
                                assert(out@[j + 1] == before[j]);
                            }
                        }
                    }
                }
            } else {
                proof {
                    assert forall|h: Seq<usize>|
                        #[trigger] next_group(m, item@, ignore@, q, h) && (h.len() < k || (h.len()
                            == k && exists|x: int| 0 <= x < idx + 1 && views[x] == h.drop_first()))
                            implies exists|j: int| 0 <= j < out@.len() && out@[j].1@ == h by {
                        if h.len() == k && views[idx as int] == h.drop_first() {
                            assert(h =~= g@);
                        } else if h.len() == k {
                            let x = choose|x: int| 0 <= x < idx + 1 && views[x] == h.drop_first();
                            assert(x < idx);
                        }
                    }
                }
            }
            idx += 1;
        }
        proof {
            assert forall|g: Seq<usize>|
                #[trigger] next_group(m, item@, ignore@, q, g) && g.len() < k + 1 implies exists|
                j: int,
            | 0 <= j < out@.len() && out@[j].1@ == g by {
                if g.len() == k {
                    let x = choose|x: int| 0 <= x < views.len() && views[x] == g.drop_first();
                    assert(0 <= x < idx);
                }
            }
        }
        k += 1;
    }
    proof {
        assert forall|g: Seq<usize>| #[trigger] next_group(m, item@, ignore@, q, g) implies exists|
            j: int,
        | 0 <= j < out@.len() && out@[j].1@ == g by {
            lemma_choose_k_members(open@, (g.len() - 1) as nat, g.drop_first());
        }
    }
    out
}

/// The anchor lists that the search walks: each one an element's candidate
/// list over the matrix.
pub open spec fn anchor_lists(m: Seq<Seq<i16>>, anchors: Seq<Seq<usize>>) -> bool {
    forall|i: int|
        0 <= i < anchors.len() ==> (#[trigger] anchors[i]).len() >= 1 && (anchors[i][0] as int)
            < m.len() && crate::connections::candidate_list(m, anchors[i][0] as int, anchors[i])
}

/// The quota table has no room left for a group: the search cannot place
/// the elements that remain.
#[derive(Clone, Copy, Debug, PartialEq, Eq, Structural)]
pub struct NoViableOutput;

/// Whether every element is placed.
fn every_placed(ignore: &Vec<bool>) -> (r: bool)
    ensures
        r == all_placed(ignore@),
{
    let mut i: usize = 0;
    while i < ignore.len()
        invariant
            i <= ignore@.len(),
            forall|j: int| 0 <= j < i ==> ignore@[j],
        decreases ignore.len() - i,
    {
        if !ignore[i] {
            return false;
        }
        i += 1;
    }
    true
}

/// The best partition of the elements that are not placed yet, from anchor
/// list `start` on: the anchor of the first list whose anchor is not placed
/// forms a group with some of its open candidates, and the search goes on
/// with the next list. Every such group is tried, best score first, and
/// the first plan of the highest total score is kept.
///
/// The result is `i32::MIN` with no groups where no complete plan exists,
/// and `NoViableOutput` where some sequence of groups leads to an anchor
/// with open candidates while the quota table has no size left.
pub fn calc_max_combinations(
    connections: &Connections,
    possible_connections: &Vec<Vec<usize>>,
    start: usize,
    ignore: Vec<bool>,
    outputs: &Vec<(usize, i16)>,
) -> (r: Result<(i32, Vec<Vec<usize>>), NoViableOutput>)
    requires
        connections.wf(),
        connections.fixed_order@.len() <= 255,
        ignore@.len() == connections.fixed_order@.len(),
        quota_wf(outputs@),
        start <= possible_connections@.len(),
        anchor_lists(connections.grid(), list_views(possible_connections@)),
    ensures
        r is Err <==> exists|p: Seq<Seq<usize>>|
            stuck_path(
                connections.grid(),
                list_views(possible_connections@),
                start as int,
                ignore@,
                outputs@,
                p,
            ),
        r matches Ok((v, groups)) ==> (v == i32::MIN <==> !exists|p: Seq<Seq<usize>>|
            is_plan(
                connections.grid(),
                list_views(possible_connections@),
                start as int,
                ignore@,
                outputs@,
                p,
            )),
        r matches Ok((v, groups)) ==> (v == i32::MIN ==> groups@.len() == 0),
        r matches Ok((v, groups)) ==> v != i32::MIN ==> {
            &&& is_plan(
                connections.grid(),
                list_views(possible_connections@),
                start as int,
                ignore@,
                outputs@,
                list_views(groups@),
            )
            &&& v == plan_score(connections.grid(), list_views(groups@))
            &&& forall|p: Seq<Seq<usize>>|
                is_plan(
                    connections.grid(),
                    list_views(possible_connections@),
                    start as int,
                    ignore@,
                    outputs@,
                    p,
                ) ==> plan_score(connections.grid(), p) <= v
            &&& -(per_element_bound() * (ignore@.len() - count_placed(ignore@))) <= v
            &&& v <= per_element_bound() * (ignore@.len() - count_placed(ignore@))
        },
    decreases possible_connections@.len() - start,
{
    let ghost m = connections.grid();
    let ghost anchors = list_views(possible_connections@);
    let ghost n = ignore@.len();
    proof {
        lemma_count_le(ignore@);
    }
    if every_placed(&ignore) {
        let none: Vec<Vec<usize>> = Vec::new();
        proof {
            assert(list_views(none@) =~= Seq::<Seq<usize>>::empty());
            assert(is_plan(m, anchors, start as int, ignore@, outputs@, list_views(none@)));
        }
        return Ok((0, none));
    }
    if start >= possible_connections.len() {
        return Ok((i32::MIN, Vec::new()));
    }
    let item = &possible_connections[start];
    assert(anchors[start as int] == item@);
    if item.len() < 2 {
        return Ok((i32::MIN, Vec::new()));
    }
    let next_start = start + 1;
    if ignore[item[0]] {
        let ghost placed = ignore@;
        let ghost q = outputs@;
        let ghost next = next_start as int;
        let r = calc_max_combinations(connections, possible_connections, next_start, ignore, outputs);
        proof {
            assert forall|p: Seq<Seq<usize>>|
                #[trigger] is_plan(m, anchors, start as int, placed, q, p) == is_plan(
                    m,
                    anchors,
                    next,
                    placed,
                    q,
                    p,
                ) by {}
            assert forall|p: Seq<Seq<usize>>|
                #[trigger] stuck_path(m, anchors, start as int, placed, q, p) == stuck_path(
                    m,
                    anchors,
                    next,
                    placed,
                    q,
                    p,
                ) by {}
            if exists|p: Seq<Seq<usize>>| stuck_path(m, anchors, next, placed, q, p) {
                let p = choose|p: Seq<Seq<usize>>| stuck_path(m, anchors, next, placed, q, p);
                assert(stuck_path(m, anchors, start as int, placed, q, p));
            }
            if exists|p: Seq<Seq<usize>>| is_plan(m, anchors, next, placed, q, p) {
                let p = choose|p: Seq<Seq<usize>>| is_plan(m, anchors, next, placed, q, p);
                assert(is_plan(m, anchors, start as int, placed, q, p));
            }
        }
        return r;
    }
    proof {
        assert(anchors[start as int].len() >= 1);
        crate::connections::lemma_candidate_list_facts(m, item@[0] as int, item@);
        lemma_increasing_len(item@, n as int);
    }
    let open = open_candidates_of(item, &ignore);
    if open.len() == 0 {
        proof {
            assert forall|p: Seq<Seq<usize>>| !is_plan(m, anchors, start as int, ignore@, outputs@, p) by {
                if p.len() > 0 && next_group(m, item@, ignore@, outputs@, p[0]) {
                    lemma_choose_k_members(open@, (p[0].len() - 1) as nat, p[0].drop_first());
                }
            }
        }
        return Ok((i32::MIN, Vec::new()));
    }
    let kmax = match largest_size(outputs) {
        Some(k) => k,
        None => {
            assert(stuck_path(m, anchors, start as int, ignore@, outputs@, Seq::empty()));
            return Err(NoViableOutput);
        },
    };
    let groups = candidate_groups(connections, item, &open, &ignore, outputs, kmax);
    let ghost q = outputs@;
    let ghost placed = ignore@;
    let ghost next = start + 1;
    let mut best_score: i32 = i32::MIN;
    let mut best_groups: Vec<Vec<usize>> = Vec::new();
    let mut i: usize = 0;
    while i < groups.len()
        invariant
            connections.wf(),
            connections.fixed_order@.len() <= 255,
            m == connections.grid(),
            anchors == list_views(possible_connections@),
            anchor_lists(m, anchors),
            placed == ignore@,
            q == outputs@,
            n == placed.len(),
            n == connections.fixed_order@.len(),
            quota_wf(q),
            start < possible_connections@.len(),
            next == start + 1,
            next_start == next,
            count_placed(placed) <= n,
            !all_placed(placed),
            anchors[start as int] == item@,
            item@.len() >= 2,
            !placed[item@[0] as int],
            open@ == open_candidates(item@, placed),
            open@.len() > 0,
            forall|x: int| 0 <= x < open@.len() ==> #[trigger] open@[x] < n && !placed[open@[x] as int],
            has_quota(q),
            kmax == max_size(q),
            i <= groups@.len(),
            forall|j: int|
                0 <= j < groups@.len() ==> next_group(m, item@, placed, q, #[trigger] groups@[j].1@)
                    && groups@[j].0 == group_score(m, groups@[j].1@),
            forall|g: Seq<usize>|
                #[trigger] next_group(m, item@, placed, q, g) ==> exists|j: int|
                    0 <= j < groups@.len() && groups@[j].1@ == g,
            best_score == i32::MIN ==> best_groups@.len() == 0,
            best_score != i32::MIN ==> {
                &&& is_plan(m, anchors, start as int, placed, q, list_views(best_groups@))
                &&& best_score == plan_score(m, list_views(best_groups@))
                &&& -(per_element_bound() * (n - count_placed(placed))) <= best_score
                &&& best_score <= per_element_bound() * (n - count_placed(placed))
            },
            forall|j: int, p: Seq<Seq<usize>>|
                0 <= j < i && #[trigger] is_plan(
                    m,
                    anchors,
                    next,
                    place(placed, groups@[j].1@),
                    take_quota(q, groups@[j].1@.len() as int),
                    p,
                ) ==> best_score != i32::MIN && groups@[j].0 + plan_score(m, p) <= best_score,
            forall|j: int, p: Seq<Seq<usize>>|
                0 <= j < i ==> !#[trigger] stuck_path(
                    m,
                    anchors,
                    next,
                    place(placed, groups@[j].1@),
                    take_quota(q, groups@[j].1@.len() as int),
                    p,
                ),
        decreases groups.len() - i,
    {
        let score = groups[i].0;
        let g = &groups[i].1;
        let ghost gv = g@;
        assert(next_group(m, item@, placed, q, gv));
        proof {
            lemma_choose_k_members(open@, (gv.len() - 1) as nat, gv.drop_first());
            assert forall|x: int| 0 <= x < gv.len() implies (#[trigger] gv[x] as int) < n && !placed[gv[x] as int] by {
                if x > 0 {
                    assert(gv[x] == gv.drop_first()[x - 1]);
                    let y = choose|y: int| 0 <= y < open@.len() && open@[y] == gv.drop_first()[x - 1];
                }
            }
            assert forall|x: int| 0 <= x < gv.len() implies m[#[trigger] gv[x] as int][gv[x] as int] == i16::MIN by {
                assert(m[gv[x] as int][gv[x] as int] == i16::MIN);
            }
            lemma_feasible_distinct(m, gv);
            lemma_place_count(placed, gv);
            lemma_count_le(place(placed, gv));
            lemma_group_bound(m, gv);
        }
        let b = match bucket_of(outputs, g.len()) {
            Some(b) => b,
            None => {
                proof {
                    let c = choose|c: int| is_largest(q, c);
                    assert(available(q, c));
                }
                return Err(NoViableOutput);
            },
        };
        let new_outputs = take_bucket(outputs, b, g.len());
        let new_ignore = mark_placed(&ignore, g);
        let ghost child_placed = new_ignore@;
        let ghost child_q = new_outputs@;
        match calc_max_combinations(connections, possible_connections, next_start, new_ignore, &new_outputs) {
            Err(e) => {
                proof {
                    let pc = choose|pc: Seq<Seq<usize>>| stuck_path(m, anchors, next, child_placed, child_q, pc);
                    let p = seq![gv] + pc;
                    assert(p.drop_first() =~= pc);
                    assert(stuck_path(m, anchors, start as int, placed, q, p));
                }
                return Err(e);
            },
            Ok((child_score, child_groups)) => {
                if child_score != i32::MIN {
                    let total = score + child_score;
                    if total > best_score {
                        let mut all = child_groups;
                        let ghost rest = list_views(all@);
                        all.insert(0, copy_list(g));
                        proof {
                            let p = list_views(all@);
                            assert(p.drop_first() =~= rest);
                            assert(p[0] == gv);
                            assert(is_plan(m, anchors, start as int, placed, q, p));
                            assert(plan_score(m, p) == group_score(m, gv) + plan_score(m, rest));
                        }
                        best_score = total;
                        best_groups = all;
                    }
                }
            },
        }
        i += 1;
    }
    proof {
        assert forall|p: Seq<Seq<usize>>| !stuck_path(m, anchors, start as int, placed, q, p) by {
            if p.len() > 0 && next_group(m, item@, placed, q, p[0]) {
                let j = choose|j: int| 0 <= j < groups@.len() && groups@[j].1@ == p[0];
                assert(!stuck_path(
                    m,
                    anchors,
                    next,
                    place(placed, groups@[j].1@),
                    take_quota(q, groups@[j].1@.len() as int),
                    p.drop_first(),
                ));
            }
        }
        assert forall|p: Seq<Seq<usize>>| is_plan(m, anchors, start as int, placed, q, p) implies best_score != i32::MIN && plan_score(m, p) <= best_score by {
            let j = choose|j: int| 0 <= j < groups@.len() && groups@[j].1@ == p[0];
            assert(is_plan(
                m,
                anchors,
                start + 1,
                place(placed, groups@[j].1@),
                take_quota(q, groups@[j].1@.len() as int),
                p.drop_first(),
            ));
        }
    }
    Ok((best_score, best_groups))
}

} // verus!
