//! Ranking of categories by the border edges that they hold.
//!
//! An edge is credited to a category when both of its ends belong to the
//! category (through their ancestor sets).  A category is kept when it has
//! enough credited edges and when those edges are dense enough over the
//! distinct first ends (`a`) of the credited edges.
use crate::closure::{closure, contains_id};
use crate::store::{ancestor_set, lemma_ancestors_unbanned, GraphStore, StoreContents};
use vstd::prelude::*;

verus! {

broadcast use vstd::seq_lib::lemma_seq_contains_after_push;

/// The fewest credited edges that a ranked category has.
pub const MIN_CREDITED_EDGES: u64 = 28;

/// The least density, in tenths of a credited edge per distinct first end.
pub const MIN_DENSITY_TENTHS: u64 = 18;

/// The most categories that a ranking returns.
pub const MAX_RANKED: usize = 600;

/// Whether edge `e` counts for category `c`: both ends belong to it.
pub open spec fn credits(v: StoreContents, e: (u64, u64), c: u64) -> bool {
    ancestor_set(v, e.0).contains(c) && ancestor_set(v, e.1).contains(c)
}

/// The edges among the first `n` that count for `c`, in table order.
pub open spec fn credited_prefix(v: StoreContents, c: u64, n: int) -> Seq<(u64, u64)> {
    v.edges.subrange(0, n).filter(|e: (u64, u64)| credits(v, e, c))
}

/// The edges that count for `c`, in table order.
pub open spec fn credited_edges(v: StoreContents, c: u64) -> Seq<(u64, u64)> {
    credited_prefix(v, c, v.edges.len() as int)
}

/// How many edges count for `c`.
pub open spec fn edge_count(v: StoreContents, c: u64) -> nat {
    credited_edges(v, c).len()
}

/// The distinct first ends of the edges that count for `c`.
pub open spec fn credited_sources(v: StoreContents, c: u64) -> Set<u64> {
    sources_prefix(v, c, v.edges.len() as int)
}

/// The selection rule: enough credited edges, and at least
/// `MIN_DENSITY_TENTHS / 10` of them per distinct first end, in integer
/// division.
pub open spec fn qualifies(v: StoreContents, c: u64) -> bool {
    &&& edge_count(v, c) >= MIN_CREDITED_EDGES
    &&& (10 * edge_count(v, c)) / credited_sources(v, c).len() >= MIN_DENSITY_TENTHS
}

/// Ranking order on `(category, edge count)`: more edges first, then the
/// smaller category id.
pub open spec fn ranks_before(x: (u64, u64), y: (u64, u64)) -> bool {
    x.1 > y.1 || (x.1 == y.1 && x.0 < y.0)
}

/// The number of entries that a ranking asked for `limit` holds at most.
pub open spec fn ranking_cap(limit: usize) -> int {
    if limit < MAX_RANKED {
        limit as int
    } else {
        MAX_RANKED as int
    }
}

/// What a ranking asked for `limit` must be: qualifying categories with
/// their edge counts, in ranking order, and no qualifying category left out
/// unless the ranking is full and every entry ranks before it.
pub open spec fn is_ranking(v: StoreContents, limit: usize, r: Seq<(u64, u64)>) -> bool {
    &&& r.len() <= ranking_cap(limit)
    &&& forall|i: int| 0 <= i < r.len() ==> qualifies(v, (#[trigger] r[i]).0) && r[i].1 == edge_count(v, r[i].0)
    &&& forall|i: int, j: int| 0 <= i < j < r.len() ==> ranks_before(#[trigger] r[i], #[trigger] r[j])
    &&& forall|c: u64|
        #![trigger qualifies(v, c)]
        qualifies(v, c) && !(exists|i: int| 0 <= i < r.len() && (#[trigger] r[i]).0 == c) ==> {
            &&& r.len() == ranking_cap(limit)
            &&& forall|i: int| 0 <= i < r.len() ==> ranks_before(#[trigger] r[i], (c, edge_count(v, c) as u64))
        }
}

/// A category with fewer credited edges than the minimum is never ranked,
/// whatever its density.
pub proof fn lemma_sparse_category_not_ranked(v: StoreContents, limit: usize, r: Seq<(u64, u64)>, c: u64)
    requires
        is_ranking(v, limit, r),
        edge_count(v, c) < MIN_CREDITED_EDGES,
    ensures
        forall|i: int| 0 <= i < r.len() ==> (#[trigger] r[i]).0 != c,
{
}

/// Unless the ranking is full, a category is ranked exactly when it
/// qualifies, and then with its edge count.
pub proof fn lemma_ranked_iff_qualifies(v: StoreContents, limit: usize, r: Seq<(u64, u64)>, c: u64)
    requires
        is_ranking(v, limit, r),
        r.len() < ranking_cap(limit),
    ensures
        (exists|i: int| 0 <= i < r.len() && (#[trigger] r[i]).0 == c) <==> qualifies(v, c),
        qualifies(v, c) ==> exists|i: int| 0 <= i < r.len() && (#[trigger] r[i]) == (c, edge_count(v, c) as u64),
{
    if exists|i: int| 0 <= i < r.len() && (#[trigger] r[i]).0 == c {
        let i = choose|i: int| 0 <= i < r.len() && (#[trigger] r[i]).0 == c;
        assert(qualifies(v, r[i].0));
        assert(r[i] == (c, edge_count(v, c) as u64));
    }
}

/// A qualifying category left out of a ranking is outranked by every entry,
/// and the ranking is full: so a qualifying category that fewer entries than
/// the cap would outrank is always ranked.
pub proof fn lemma_unranked_qualifier_is_outranked(v: StoreContents, limit: usize, r: Seq<(u64, u64)>, c: u64)
    requires
        is_ranking(v, limit, r),
        qualifies(v, c),
        !(exists|i: int| 0 <= i < r.len() && (#[trigger] r[i]).0 == c),
    ensures
        r.len() == ranking_cap(limit),
        forall|i: int| 0 <= i < r.len() ==> ranks_before(#[trigger] r[i], (c, edge_count(v, c) as u64)),
{
}

/// No banned category is ranked.
pub proof fn lemma_ranked_categories_unbanned(v: StoreContents, limit: usize, r: Seq<(u64, u64)>)
    requires
        is_ranking(v, limit, r),
    ensures
        forall|i: int| 0 <= i < r.len() ==> !v.banned.contains(#[trigger] r[i].0),
{
    assert forall|i: int| 0 <= i < r.len() implies !v.banned.contains(#[trigger] r[i].0) by {
        let c = r[i].0;
        assert(qualifies(v, c));
        let pred = |e: (u64, u64)| credits(v, e, c);
        assert(v.edges.subrange(0, v.edges.len() as int) =~= v.edges);
        assert(credited_edges(v, c) == v.edges.filter(pred));
        v.edges.lemma_filter_pred(pred, 0);
        let e = credited_edges(v, c)[0];
        assert(ancestor_set(v, e.0).contains(c));
        lemma_ancestors_unbanned(v, e.0);
    };
}

/// The ids found in both lists.
fn intersect(a: &Vec<u64>, b: &Vec<u64>) -> (r: Vec<u64>)
    requires
        a@.no_duplicates(),
    ensures
        r@.no_duplicates(),
        forall|x: u64| r@.contains(x) <==> a@.contains(x) && b@.contains(x),
{
    let mut r: Vec<u64> = Vec::new();
    let mut i: usize = 0;
    while i < a.len()
        invariant
            i <= a@.len(),
            a@.no_duplicates(),
            r@.no_duplicates(),
            forall|x: u64| r@.contains(x) <==> a@.subrange(0, i as int).contains(x) && b@.contains(x),
        decreases a@.len() - i,
    {
        let x = a[i];
        assert(a@.subrange(0, i + 1) =~= a@.subrange(0, i as int).push(x));
        assert(!a@.subrange(0, i as int).contains(x)) by {
            if a@.subrange(0, i as int).contains(x) {
                let q = choose|q: int| 0 <= q < i && a@.subrange(0, i as int)[q] == x;
                assert(a@[q] == a@[i as int]);
            }
        };
        if contains_id(b, x) {
            r.push(x);
        }
        i = i + 1;
    }
    assert(a@.subrange(0, i as int) =~= a@);
    r
}

/// The entries of `cands` that rank first, at most `cap` of them, in ranking
/// order.
fn select_top(cands: Vec<(u64, u64)>, cap: usize) -> (r: Vec<(u64, u64)>)
    requires
        forall|i: int, j: int| 0 <= i < j < cands@.len() ==> (#[trigger] cands@[i]).0 != (#[trigger] cands@[j]).0,
    ensures
        r@.len() <= cap,
        forall|i: int| 0 <= i < r@.len() ==> cands@.contains(#[trigger] r@[i]),
        forall|i: int, j: int| 0 <= i < j < r@.len() ==> ranks_before(#[trigger] r@[i], #[trigger] r@[j]),
        forall|x: (u64, u64)|
            cands@.contains(x) && !r@.contains(x) ==> r@.len() == cap && forall|i: int|
                0 <= i < r@.len() ==> ranks_before(#[trigger] r@[i], x),
{
    let mut rest = cands;
    let mut r: Vec<(u64, u64)> = Vec::new();
    while r.len() < cap && rest.len() > 0
        invariant
            r@.len() <= cap,
            forall|i: int, j: int| 0 <= i < j < rest@.len() ==> (#[trigger] rest@[i]).0 != (#[trigger] rest@[j]).0,
            forall|x: (u64, u64)| cands@.contains(x) <==> r@.contains(x) || rest@.contains(x),
            forall|x: (u64, u64)| r@.contains(x) ==> !rest@.contains(x),
            forall|i: int, j: int| 0 <= i < j < r@.len() ==> ranks_before(#[trigger] r@[i], #[trigger] r@[j]),
            forall|i: int, j: int| 0 <= i < r@.len() && 0 <= j < rest@.len() ==> ranks_before(#[trigger] r@[i], #[trigger] rest@[j]),
        decreases rest@.len(),
    {
        let mut best: usize = 0;
        let mut k: usize = 1;
        while k < rest.len()
            invariant
                0 <= best < k <= rest@.len(),
                forall|i: int, j: int| 0 <= i < j < rest@.len() ==> (#[trigger] rest@[i]).0 != (#[trigger] rest@[j]).0,
                forall|j: int| 0 <= j < k && j != best ==> ranks_before(rest@[best as int], #[trigger] rest@[j]),
            decreases rest@.len() - k,
        {
            let x = rest[k];
            let b = rest[best];
            if x.1 > b.1 || (x.1 == b.1 && x.0 < b.0) {
                proof {
                    assert forall|j: int| 0 <= j < k + 1 && j != k implies ranks_before(x, #[trigger] rest@[j]) by {
                        if j != best {
                            assert(ranks_before(b, rest@[j]));
                        }
                    };
                }
                best = k;
            } else {
                assert(rest@[best as int].0 != rest@[k as int].0);
            }
            k = k + 1;
        }
        let ghost before = rest@;
        let chosen = rest.remove(best);
        proof {
            assert(chosen == before[best as int]);
            assert forall|j: int| 0 <= j < rest@.len() implies #[trigger] rest@[j] == (if j < best {
                before[j]
            } else {
                before[j + 1]
            }) by {};
            assert forall|j: int| 0 <= j < rest@.len() implies ranks_before(chosen, #[trigger] rest@[j]) by {
                if j < best {
                    assert(rest@[j] == before[j]);
                } else {
                    assert(rest@[j] == before[j + 1]);
                }
            };
            assert forall|x: (u64, u64)| before.contains(x) <==> x == chosen || rest@.contains(x) by {
                if before.contains(x) && x != chosen {
                    let q = choose|q: int| 0 <= q < before.len() && before[q] == x;
                    if q < best {
                        assert(rest@[q] == x);
                    } else {
                        assert(q != best);
                        assert(rest@[q - 1] == x);
                    }
                }
                if rest@.contains(x) {
                    let q = choose|q: int| 0 <= q < rest@.len() && rest@[q] == x;
                    if q < best {
                        assert(before[q] == x);
                    } else {
                        assert(before[q + 1] == x);
                    }
                }
                if x == chosen {
                    assert(before[best as int] == x);
                }
            };
            assert(!rest@.contains(chosen)) by {
                if rest@.contains(chosen) {
                    let q = choose|q: int| 0 <= q < rest@.len() && rest@[q] == chosen;
                    if q < best {
                        assert(before[q] == chosen);
                    } else {
                        assert(before[q + 1] == chosen);
                    }
                }
            };
            assert forall|i: int, j: int| 0 <= i < j < rest@.len() implies (#[trigger] rest@[i]).0 != (#[trigger] rest@[j]).0 by {
                let bi = if i < best { i } else { i + 1 };
                let bj = if j < best { j } else { j + 1 };
                assert(rest@[i] == before[bi] && rest@[j] == before[bj]);
            };
        }
        let ghost r_before = r@;
        r.push(chosen);
        proof {
            assert forall|i: int, j: int| 0 <= i < j < r@.len() implies ranks_before(#[trigger] r@[i], #[trigger] r@[j]) by {
                if j == r@.len() - 1 {
                    assert(r@[i] == r_before[i]);
                    assert(before[best as int] == chosen);
                } else {
                    assert(r@[i] == r_before[i] && r@[j] == r_before[j]);
                }
            };
            assert forall|i: int, j: int| 0 <= i < r@.len() && 0 <= j < rest@.len() implies ranks_before(#[trigger] r@[i], #[trigger] rest@[j]) by {
                if i < r@.len() - 1 {
                    assert(r@[i] == r_before[i]);
                    if j < best {
                        assert(rest@[j] == before[j]);
                    } else {
                        assert(rest@[j] == before[j + 1]);
                    }
                }
            };
        }
    }
    proof {
        assert forall|i: int| 0 <= i < r@.len() implies cands@.contains(#[trigger] r@[i]) by {
            assert(r@.contains(r@[i]));
        };
        assert forall|x: (u64, u64)| cands@.contains(x) && !r@.contains(x) implies r@.len() == cap && forall|i: int|
            0 <= i < r@.len() ==> ranks_before(#[trigger] r@[i], x) by {
            assert(rest@.contains(x));
            let q = choose|q: int| 0 <= q < rest@.len() && rest@[q] == x;
            assert forall|i: int| 0 <= i < r@.len() implies ranks_before(#[trigger] r@[i], x) by {
                assert(ranks_before(r@[i], rest@[q]));
            };
        };
    }
    r
}

/// The distinct first ends of the edges among the first `n` that count for `c`.
pub open spec fn sources_prefix(v: StoreContents, c: u64, n: int) -> Set<u64> {
    credited_prefix(v, c, n).map_values(|e: (u64, u64)| e.0).to_set()
}

/// A tally row `(category, edge count, distinct first ends, largest first
/// end)` is right for the first `n` edges.
pub open spec fn row_right(v: StoreContents, row: (u64, u64, u64, u64), n: int) -> bool {
    let srcs = sources_prefix(v, row.0, n);
    &&& credited_prefix(v, row.0, n).len() > 0
    &&& row.1 == credited_prefix(v, row.0, n).len()
    &&& row.2 == srcs.len()
    &&& row.2 <= row.1
    &&& srcs.contains(row.3)
    &&& forall|x: u64| srcs.contains(x) ==> x <= row.3
}

/// How many edges of the current one a category's row has counted: one more
/// once the category has been credited for it.
pub open spec fn stage(list: Seq<u64>, m: int, c: u64, i: int) -> int {
    if list.take(m).contains(c) {
        i + 1
    } else {
        i
    }
}

/// Tally rows are sorted by category, each category once.
pub open spec fn rows_sorted(t: Seq<(u64, u64, u64, u64)>) -> bool {
    forall|a: int, b: int| 0 <= a < b < t.len() ==> (#[trigger] t[a]).0 < (#[trigger] t[b]).0
}

/// The tally row of a category after one more credited edge with first end `a`.
pub open spec fn bumped(row: (u64, u64, u64, u64), a: u64) -> (u64, u64, u64, u64) {
    (row.0, (row.1 + 1) as u64, (if row.3 == a { row.2 } else { (row.2 + 1) as u64 }), a)
}

proof fn lemma_prefix_step(v: StoreContents, c: u64, n: int)
    requires
        0 <= n < v.edges.len(),
    ensures
        credited_prefix(v, c, n + 1) == (if credits(v, v.edges[n], c) {
            credited_prefix(v, c, n).push(v.edges[n])
        } else {
            credited_prefix(v, c, n)
        }),
        credits(v, v.edges[n], c) ==> sources_prefix(v, c, n + 1) == sources_prefix(v, c, n).insert(v.edges[n].0),
        credited_prefix(v, c, n).len() <= n,
{
    let pred = |e: (u64, u64)| credits(v, e, c);
    let pre = v.edges.subrange(0, n);
    assert(v.edges.subrange(0, n + 1) =~= pre.push(v.edges[n]));
    pre.lemma_filter_push(v.edges[n], pred);
    pre.lemma_filter_len(pred);
    if credits(v, v.edges[n], c) {
        let cp = pre.filter(pred);
        let first = |e: (u64, u64)| e.0;
        assert(cp.push(v.edges[n]).map_values(first) =~= cp.map_values(first).push(v.edges[n].0));
        assert(cp.map_values(first).push(v.edges[n].0).to_set() =~= cp.map_values(first).to_set().insert(v.edges[n].0));
    }
}

/// Every first end counted among the first `n` edges is at most that of edge
/// `n`, the edges being sorted.
proof fn lemma_sources_below(v: StoreContents, c: u64, n: int)
    requires
        v.wf(),
        0 <= n < v.edges.len(),
    ensures
        forall|x: u64| sources_prefix(v, c, n).contains(x) ==> x <= v.edges[n].0,
{
    let pred = |e: (u64, u64)| credits(v, e, c);
    let pre = v.edges.subrange(0, n);
    let cp = pre.filter(pred);
    let first = |e: (u64, u64)| e.0;
    assert forall|x: u64| sources_prefix(v, c, n).contains(x) implies x <= v.edges[n].0 by {
        let idx = choose|idx: int| 0 <= idx < cp.map_values(first).len() && cp.map_values(first)[idx] == x;
        let e = cp[idx];
        assert(cp.contains(e));
        pre.lemma_filter_contains_rev(pred, e);
        let k = choose|k: int| 0 <= k < pre.len() && pre[k] == e;
        assert(v.edges[k] == e);
        assert(crate::tables::pair_lt(v.edges[k], v.edges[n]));
    };
}

/// One more credited edge keeps a right row right.
proof fn lemma_bumped_right(v: StoreContents, row: (u64, u64, u64, u64), i: int)
    requires
        v.wf(),
        0 <= i < v.edges.len(),
        credits(v, v.edges[i], row.0),
        row_right(v, row, i),
        row.1 < u64::MAX,
    ensures
        row_right(v, bumped(row, v.edges[i].0), i + 1),
{
    let c = row.0;
    let a = v.edges[i].0;
    lemma_prefix_step(v, c, i);
    lemma_sources_below(v, c, i);
    let srcs = sources_prefix(v, c, i);
    assert(row.3 <= a);
    if row.3 != a {
        assert(!srcs.contains(a));
    } else {
        assert(srcs.insert(a) =~= srcs);
    }
}

/// The first credited edge of a category gives the row `(c, 1, 1, a)`.
proof fn lemma_fresh_right(v: StoreContents, c: u64, i: int)
    requires
        0 <= i < v.edges.len(),
        credits(v, v.edges[i], c),
        credited_prefix(v, c, i).len() == 0,
    ensures
        row_right(v, (c, 1u64, 1u64, v.edges[i].0), i + 1),
{
    lemma_prefix_step(v, c, i);
    let srcs = sources_prefix(v, c, i);
    assert(credited_prefix(v, c, i) =~= Seq::<(u64, u64)>::empty());
    assert(srcs =~= Set::<u64>::empty());
    assert(srcs.insert(v.edges[i].0) =~= set![v.edges[i].0]);
}

/// A right row counts no more edges than it has seen.
proof fn lemma_row_bounded(v: StoreContents, row: (u64, u64, u64, u64), i: int)
    requires
        0 <= i < v.edges.len(),
        row_right(v, row, i),
    ensures
        row.1 <= i,
        row.2 <= row.1,
{
    lemma_prefix_step(v, row.0, i);
}

/// The first position whose category is not below `c`.
fn row_slot(t: &Vec<(u64, u64, u64, u64)>, c: u64) -> (r: usize)
    requires
        rows_sorted(t@),
    ensures
        r <= t@.len(),
        forall|q: int| 0 <= q < r ==> (#[trigger] t@[q]).0 < c,
        forall|q: int| r <= q < t@.len() ==> (#[trigger] t@[q]).0 >= c,
{
    let mut lo: usize = 0;
    let mut hi: usize = t.len();
    while lo < hi
        invariant
            rows_sorted(t@),
            lo <= hi <= t@.len(),
            forall|q: int| 0 <= q < lo ==> (#[trigger] t@[q]).0 < c,
            forall|q: int| hi <= q < t@.len() ==> (#[trigger] t@[q]).0 >= c,
        decreases hi - lo,
    {
        let mid = lo + (hi - lo) / 2;
        if t[mid].0 < c {
            assert forall|q: int| 0 <= q <= mid implies (#[trigger] t@[q]).0 < c by {
                if q < mid {
                    assert(t@[q].0 < t@[mid as int].0);
                }
            };
            lo = mid + 1;
        } else {
            assert forall|q: int| mid <= q < t@.len() implies (#[trigger] t@[q]).0 >= c by {
                if q > mid {
                    assert(t@[mid as int].0 < t@[q].0);
                }
            };
            hi = mid;
        }
    }
    lo
}

/// Counts one more credited edge with first end `a` for category `c`.
fn credit_row(t: &mut Vec<(u64, u64, u64, u64)>, c: u64, a: u64)
    requires
        rows_sorted(old(t)@),
        forall|q: int| 0 <= q < old(t)@.len() && (#[trigger] old(t)@[q]).0 == c ==> old(t)@[q].1 < u64::MAX && old(t)@[q].2 < u64::MAX,
    ensures
        rows_sorted(final(t)@),
        forall|k: int| 0 <= k < old(t)@.len() && (#[trigger] old(t)@[k]).0 != c ==> final(t)@.contains(old(t)@[k]),
        forall|j: int| 0 <= j < final(t)@.len() && (#[trigger] final(t)@[j]).0 != c ==> old(t)@.contains(final(t)@[j]),
        exists|j: int| 0 <= j < final(t)@.len() && (#[trigger] final(t)@[j]).0 == c,
        forall|j: int| 0 <= j < final(t)@.len() && (#[trigger] final(t)@[j]).0 == c ==> {
            ||| (exists|k: int| 0 <= k < old(t)@.len() && (#[trigger] old(t)@[k]).0 == c && final(t)@[j] == bumped(old(t)@[k], a))
            ||| ((forall|k: int| 0 <= k < old(t)@.len() ==> (#[trigger] old(t)@[k]).0 != c) && final(t)@[j] == (c, 1u64, 1u64, a))
        },
{
    let ghost before = t@;
    let pos = row_slot(t, c);
    if pos < t.len() && t[pos].0 == c {
        let row = t[pos];
        let new_row = (c, row.1 + 1, if row.3 == a { row.2 } else { row.2 + 1 }, a);
        t.set(pos, new_row);
        proof {
            assert(t@ == before.update(pos as int, new_row));
            assert forall|k: int| 0 <= k < before.len() && (#[trigger] before[k]).0 != c implies t@.contains(before[k]) by {
                assert(k != pos);
                assert(t@[k] == before[k]);
            };
            assert forall|j: int| 0 <= j < t@.len() && (#[trigger] t@[j]).0 != c implies before.contains(t@[j]) by {
                assert(j != pos);
                assert(t@[j] == before[j]);
            };
            assert(t@[pos as int].0 == c);
            assert forall|j: int| 0 <= j < t@.len() && (#[trigger] t@[j]).0 == c implies j == pos by {
                if j != pos {
                    assert(t@[j] == before[j]);
                    if j < pos {
                        assert(before[j].0 < before[pos as int].0);
                    } else {
                        assert(before[pos as int].0 < before[j].0);
                    }
                }
            };
            assert(bumped(before[pos as int], a) == new_row);
            assert forall|x: int, y: int| 0 <= x < y < t@.len() implies (#[trigger] t@[x]).0 < (#[trigger] t@[y]).0 by {
                assert(before[x].0 < before[y].0);
                assert(t@[x].0 == before[x].0 && t@[y].0 == before[y].0);
            };
        }
    } else {
        let new_row = (c, 1u64, 1u64, a);
        proof {
            assert forall|k: int| 0 <= k < before.len() implies (#[trigger] before[k]).0 != c by {
                if k >= pos && pos < before.len() && k > pos {
                    assert(before[pos as int].0 < before[k].0);
                }
            };
        }
        t.insert(pos, new_row);
        proof {
            let after = t@;
            assert forall|q: int| 0 <= q < pos implies #[trigger] after[q] == before[q] by {};
            assert forall|q: int| pos < q < after.len() implies #[trigger] after[q] == before[q - 1] by {};
            assert(after[pos as int] == new_row);
            assert forall|k: int| 0 <= k < before.len() && (#[trigger] before[k]).0 != c implies after.contains(before[k]) by {
                if k < pos {
                    assert(after[k] == before[k]);
                } else {
                    assert(after[k + 1] == before[k]);
                }
            };
            assert forall|j: int| 0 <= j < after.len() && (#[trigger] after[j]).0 != c implies before.contains(after[j]) by {
                if j < pos {
                    assert(after[j] == before[j]);
                } else if j > pos {
                    assert(after[j] == before[j - 1]);
                }
            };
            assert forall|j: int| 0 <= j < after.len() && (#[trigger] after[j]).0 == c implies j == pos by {
                if j < pos {
                    assert(after[j] == before[j]);
                } else if j > pos {
                    assert(after[j] == before[j - 1]);
                }
            };
            assert forall|x: int, y: int| 0 <= x < y < after.len() implies (#[trigger] after[x]).0 < (#[trigger] after[y]).0 by {
                if y < pos {
                    assert(after[x] == before[x] && after[y] == before[y]);
                } else if y == pos {
                    assert(after[x] == before[x]);
                } else if x < pos {
                    assert(after[x] == before[x] && after[y] == before[y - 1]);
                } else if x == pos {
                    assert(after[y] == before[y - 1]);
                } else {
                    assert(after[x] == before[x - 1] && after[y] == before[y - 1]);
                }
            };
        }
    }
}

impl GraphStore {
    /// For each edge, in table order, the categories that it counts for.
    fn edge_credits(&self) -> (r: Vec<Vec<u64>>)
        ensures
            r@.len() == self@.edges.len(),
            forall|i: int| 0 <= i < r@.len() ==> (#[trigger] r@[i])@.no_duplicates(),
            forall|i: int, c: u64|
                0 <= i < r@.len() ==> (r@[i]@.contains(c) <==> credits(self@, self@.edges[i], c)),
    {
        let steps = self.upward_steps();
        let edges = self.edge_list();
        let mut r: Vec<Vec<u64>> = Vec::new();
        // Edges come sorted by their first end: its ancestors are kept for
        // the following edges that share it.
        let mut last_a: u64 = 0;
        let mut up_a: Vec<u64> = Vec::new();
        let mut have_a = false;
        let mut i: usize = 0;
        while i < edges.len()
            invariant
                have_a ==> up_a@.to_set() == ancestor_set(self@, last_a),
                have_a ==> up_a@.no_duplicates(),
                forall|k: int| 0 <= k < i ==> (#[trigger] r@[k])@.no_duplicates(),
                edges@ == self@.edges,
                steps@ == crate::store::up_steps(self@),
                crate::closure::sources_sorted(steps@),
                i <= edges@.len(),
                r@.len() == i,
                forall|k: int, c: u64|
                    0 <= k < i ==> (r@[k]@.contains(c) <==> credits(self@, self@.edges[k], c)),
            decreases edges@.len() - i,
        {
            let (a, b) = edges[i];
            if !have_a || last_a != a {
                up_a = closure(&self.seeds_of(a), &steps, true);
                last_a = a;
                have_a = true;
            }
            let up_b = closure(&self.seeds_of(b), &steps, true);
            let both = intersect(&up_a, &up_b);
            proof {
                assert forall|c: u64| both@.contains(c) <==> credits(self@, self@.edges[i as int], c) by {
                    assert(up_a@.contains(c) <==> up_a@.to_set().contains(c));
                    assert(up_b@.contains(c) <==> up_b@.to_set().contains(c));
                };
            }
            r.push(both);
            i = i + 1;
        }
        r
    }

    /// For each category that some edge counts for, in increasing order: its
    /// number of credited edges and of their distinct first ends.
    fn tallies(&self, credited: &Vec<Vec<u64>>) -> (r: Vec<(u64, u64, u64, u64)>)
        requires
            credited@.len() == self@.edges.len(),
            forall|i: int| 0 <= i < credited@.len() ==> (#[trigger] credited@[i])@.no_duplicates(),
            forall|i: int, x: u64|
                0 <= i < credited@.len() ==> (credited@[i]@.contains(x) <==> credits(self@, self@.edges[i], x)),
        ensures
            rows_sorted(r@),
            forall|j: int| 0 <= j < r@.len() ==> row_right(self@, #[trigger] r@[j], self@.edges.len() as int),
            forall|c: u64| #[trigger] edge_count(self@, c) > 0 ==> exists|j: int| 0 <= j < r@.len() && (#[trigger] r@[j]).0 == c,
    {
        let ghost v = self@;
        self.establish_wf();
        let edges = self.edge_list();
        let mut t: Vec<(u64, u64, u64, u64)> = Vec::new();
        let mut i: usize = 0;
        while i < edges.len()
            invariant
                v == self@,
                v.wf(),
                edges@ == v.edges,
                credited@.len() == v.edges.len(),
                forall|i: int| 0 <= i < credited@.len() ==> (#[trigger] credited@[i])@.no_duplicates(),
                forall|i: int, x: u64|
                    0 <= i < credited@.len() ==> (credited@[i]@.contains(x) <==> credits(v, v.edges[i], x)),
                i <= edges@.len(),
                rows_sorted(t@),
                forall|j: int| 0 <= j < t@.len() ==> row_right(v, #[trigger] t@[j], i as int),
                forall|c: u64| #[trigger] credited_prefix(v, c, i as int).len() > 0 ==> exists|j: int| 0 <= j < t@.len() && (#[trigger] t@[j]).0 == c,
            decreases edges@.len() - i,
        {
            let a = edges[i].0;
            let list = &credited[i];
            let mut m: usize = 0;
            assert(list@.take(0) =~= Seq::<u64>::empty());
            while m < list.len()
                invariant
                    v == self@,
                    v.wf(),
                    edges@ == v.edges,
                    i < edges@.len(),
                    edges@.len() <= usize::MAX,
                    a == v.edges[i as int].0,
                    list@.no_duplicates(),
                    forall|x: u64| list@.contains(x) <==> credits(v, v.edges[i as int], x),
                    m <= list@.len(),
                    rows_sorted(t@),
                    forall|j: int| 0 <= j < t@.len() ==> row_right(v, #[trigger] t@[j], stage(list@, m as int, t@[j].0, i as int)),
                    forall|c: u64| #[trigger] credited_prefix(v, c, stage(list@, m as int, c, i as int)).len() > 0 ==> exists|j: int| 0 <= j < t@.len() && (#[trigger] t@[j]).0 == c,
                decreases list@.len() - m,
            {
                let c = list[m];
                let ghost before = t@;
                proof {
                    assert(list@.take(m + 1) =~= list@.take(m as int).push(c));
                    assert(!list@.take(m as int).contains(c)) by {
                        if list@.take(m as int).contains(c) {
                            let q = choose|q: int| 0 <= q < m && list@.take(m as int)[q] == c;
                            assert(list@[q] == list@[m as int]);
                        }
                    };
                    assert(list@.contains(c));
                    assert(stage(list@, m as int, c, i as int) == i);
                    assert(usize::MAX <= u64::MAX);
                    assert(i < u64::MAX);
                    assert forall|q: int| 0 <= q < before.len() && (#[trigger] before[q]).0 == c implies before[q].1 < u64::MAX && before[q].2 < u64::MAX by {
                        assert(row_right(v, before[q], i as int));
                        lemma_row_bounded(v, before[q], i as int);
                    };
                }
                credit_row(&mut t, c, a);
                proof {
                    assert forall|x: u64| x != c implies stage(list@, m + 1, x, i as int) == stage(list@, m as int, x, i as int) by {
                        assert(list@.take(m as int).push(c).contains(x) <==> list@.take(m as int).contains(x) || x == c);
                    };
                    assert(stage(list@, m + 1, c, i as int) == i + 1) by {
                        assert(list@.take(m as int).push(c).contains(c));
                    };
                    assert forall|j: int| 0 <= j < t@.len() implies row_right(v, #[trigger] t@[j], stage(list@, m + 1, t@[j].0, i as int)) by {
                        if t@[j].0 != c {
                            assert(before.contains(t@[j]));
                            let k = choose|k: int| 0 <= k < before.len() && before[k] == t@[j];
                            assert(row_right(v, before[k], stage(list@, m as int, before[k].0, i as int)));
                        } else {
                            if exists|k: int| 0 <= k < before.len() && (#[trigger] before[k]).0 == c && t@[j] == bumped(before[k], a) {
                                let k = choose|k: int| 0 <= k < before.len() && (#[trigger] before[k]).0 == c && t@[j] == bumped(before[k], a);
                                assert(row_right(v, before[k], i as int));
                                lemma_row_bounded(v, before[k], i as int);
                                lemma_bumped_right(v, before[k], i as int);
                            } else {
                                assert(credited_prefix(v, c, i as int).len() == 0) by {
                                    if credited_prefix(v, c, i as int).len() > 0 {
                                        let k = choose|k: int| 0 <= k < before.len() && (#[trigger] before[k]).0 == c;
                                    }
                                };
                                lemma_fresh_right(v, c, i as int);
                            }
                        }
                    };
                    assert forall|x: u64| #[trigger] credited_prefix(v, x, stage(list@, m + 1, x, i as int)).len() > 0 implies exists|j: int| 0 <= j < t@.len() && (#[trigger] t@[j]).0 == x by {
                        if x != c {
                            assert(stage(list@, m + 1, x, i as int) == stage(list@, m as int, x, i as int));
                            assert(credited_prefix(v, x, stage(list@, m as int, x, i as int)).len() > 0);
                            let k = choose|k: int| 0 <= k < before.len() && (#[trigger] before[k]).0 == x;
                            assert(t@.contains(before[k]));
                            let j = choose|j: int| 0 <= j < t@.len() && t@[j] == before[k];
                            assert(t@[j].0 == x);
                        }
                    };
                }
                m = m + 1;
            }
            proof {
                assert(list@.take(m as int) =~= list@);
                assert forall|x: u64| stage(list@, m as int, x, i as int) != i + 1 implies #[trigger] credited_prefix(v, x, i + 1) == credited_prefix(v, x, i as int)
                    && sources_prefix(v, x, i + 1) == sources_prefix(v, x, i as int) by {
                    lemma_prefix_step(v, x, i as int);
                };
                assert forall|j: int| 0 <= j < t@.len() implies row_right(v, #[trigger] t@[j], i + 1) by {
                    let x = t@[j].0;
                    lemma_prefix_step(v, x, i as int);
                    assert(row_right(v, t@[j], stage(list@, m as int, x, i as int)));
                };
                assert forall|x: u64| #[trigger] credited_prefix(v, x, i + 1).len() > 0 implies exists|j: int| 0 <= j < t@.len() && (#[trigger] t@[j]).0 == x by {
                    lemma_prefix_step(v, x, i as int);
                    assert(credited_prefix(v, x, stage(list@, m as int, x, i as int)).len() > 0);
                };
            }
            i = i + 1;
        }
        proof {
            assert forall|c: u64| #[trigger] edge_count(v, c) > 0 implies exists|j: int| 0 <= j < t@.len() && (#[trigger] t@[j]).0 == c by {
                assert(credited_prefix(v, c, i as int).len() > 0);
            };
        }
        t
    }

    /// The categories worth drawing, best first: each qualifying category
    /// with its number of credited edges, ordered by that number (largest
    /// first, then by id), at most `limit` and at most `MAX_RANKED` of them.
    pub fn top_categories(&self, limit: usize) -> (r: Vec<(u64, u64)>)
        ensures
            is_ranking(self@, limit, r@),
    {
        let ghost v = self@;
        let credited = self.edge_credits();
        let rows = self.tallies(&credited);
        let mut kept: Vec<(u64, u64)> = Vec::new();
        let mut j: usize = 0;
        while j < rows.len()
            invariant
                v == self@,
                rows_sorted(rows@),
                forall|q: int| 0 <= q < rows@.len() ==> row_right(v, #[trigger] rows@[q], v.edges.len() as int),
                forall|c: u64| #[trigger] edge_count(v, c) > 0 ==> exists|q: int| 0 <= q < rows@.len() && (#[trigger] rows@[q]).0 == c,
                j <= rows@.len(),
                forall|i: int| 0 <= i < kept@.len() ==> {
                    &&& qualifies(v, (#[trigger] kept@[i]).0)
                    &&& kept@[i].1 == edge_count(v, kept@[i].0)
                    &&& exists|q: int| 0 <= q < j && rows@[q].0 == kept@[i].0
                },
                forall|a: int, b: int| 0 <= a < b < kept@.len() ==> (#[trigger] kept@[a]).0 != (#[trigger] kept@[b]).0,
                forall|q: int| 0 <= q < j && qualifies(v, (#[trigger] rows@[q]).0) ==> kept@.contains((rows@[q].0, edge_count(v, rows@[q].0) as u64)),
            decreases rows@.len() - j,
        {
            let (c, count, nsources, _) = rows[j];
            proof {
                assert(row_right(v, rows@[j as int], v.edges.len() as int));
            }
            if count >= MIN_CREDITED_EDGES && nsources > 0
                && (10 * (count as u128)) / (nsources as u128) >= MIN_DENSITY_TENTHS as u128 {
                let ghost before = kept@;
                kept.push((c, count));
                proof {
                    assert forall|a: int, b: int| 0 <= a < b < kept@.len() implies (#[trigger] kept@[a]).0 != (#[trigger] kept@[b]).0 by {
                        if b == kept@.len() - 1 {
                            assert(kept@[a] == before[a]);
                            let q = choose|q: int| 0 <= q < j && rows@[q].0 == before[a].0;
                            assert(rows@[q].0 < rows@[j as int].0);
                        }
                    };
                    assert forall|i: int| 0 <= i < kept@.len() implies exists|q: int| 0 <= q < j + 1 && rows@[q].0 == (#[trigger] kept@[i]).0 by {
                        if i < kept@.len() - 1 {
                            assert(kept@[i] == before[i]);
                            let q = choose|q: int| 0 <= q < j && rows@[q].0 == before[i].0;
                        } else {
                            assert(rows@[j as int].0 == kept@[i].0);
                        }
                    };
                    assert(kept@[kept@.len() - 1] == (c, count));
                }
            } else {
                proof {
                    if qualifies(v, c) {
                        assert(nsources == credited_sources(v, c).len());
                        assert(nsources > 0);
                    }
                }
            }
            j = j + 1;
        }
        let cap = if limit < MAX_RANKED { limit } else { MAX_RANKED };
        let ghost kept_v = kept@;
        let r = select_top(kept, cap);
        proof {
            assert forall|i: int| 0 <= i < r@.len() implies qualifies(v, (#[trigger] r@[i]).0) && r@[i].1 == edge_count(v, r@[i].0) by {
                let q = choose|q: int| 0 <= q < kept_v.len() && kept_v[q] == r@[i];
                assert(qualifies(v, kept_v[q].0));
            };
            assert forall|c: u64|
                #![trigger qualifies(v, c)]
                qualifies(v, c) && !(exists|i: int| 0 <= i < r@.len() && (#[trigger] r@[i]).0 == c) implies {
                    &&& r@.len() == ranking_cap(limit)
                    &&& forall|i: int| 0 <= i < r@.len() ==> ranks_before(#[trigger] r@[i], (c, edge_count(v, c) as u64))
                } by {
                let ec = edge_count(v, c);
                assert(edge_count(v, c) > 0);
                let q = choose|q: int| 0 <= q < rows@.len() && (#[trigger] rows@[q]).0 == c;
                assert(qualifies(v, rows@[q].0));
                assert(kept_v.contains((c, ec as u64)));
                if r@.contains((c, ec as u64)) {
                    let i = choose|i: int| 0 <= i < r@.len() && r@[i] == (c, ec as u64);
                    assert(r@[i].0 == c);
                }
            };
        }
        r
    }
}

} // verus!
