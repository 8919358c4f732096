//! Fixed-point closure of a set of ids under a step relation.
//!
//! Both directions of the category hierarchy (descendants of a category,
//! ancestors of an entity's natures) are instances of one computation: the
//! least set that holds some seeds and, with the source of any step, its
//! target.  The computation terminates on cyclic relations because an id is
//! only ever added once and every added id is a seed or a step target.
use vstd::prelude::*;
use vstd::set_lib::*;

verus! {

broadcast use vstd::seq_lib::lemma_seq_contains_after_push;

/// `s` holds the target of every step whose source it holds.
pub open spec fn closed_under(s: Set<u64>, steps: Seq<(u64, u64)>) -> bool {
    forall|k: int| 0 <= k < steps.len() && s.contains(#[trigger] steps[k].0) ==> s.contains(steps[k].1)
}

/// The least set that contains `seeds` and is closed under `steps`: the ids
/// that belong to every such set.
pub open spec fn closure_of(seeds: Set<u64>, steps: Seq<(u64, u64)>) -> Set<u64> {
    Set::new(
        |x: u64|
            forall|t: Set<u64>| seeds.subset_of(t) && #[trigger] closed_under(t, steps) ==> t.contains(x),
    )
}

/// The closure holds its seeds and is itself closed.
pub proof fn lemma_closure_is_closed(seeds: Set<u64>, steps: Seq<(u64, u64)>)
    ensures
        seeds.subset_of(closure_of(seeds, steps)),
        closed_under(closure_of(seeds, steps), steps),
{
    let c = closure_of(seeds, steps);
    assert forall|k: int| 0 <= k < steps.len() && c.contains(#[trigger] steps[k].0) implies c.contains(
        steps[k].1,
    ) by {
        assert forall|t: Set<u64>| seeds.subset_of(t) && #[trigger] closed_under(t, steps) implies t.contains(
            steps[k].1,
        ) by {
            assert(t.contains(steps[k].0));
        };
    };
}

/// Any closed set that holds the seeds is the closure, if it is also below it.
pub proof fn lemma_closure_unique(seeds: Set<u64>, steps: Seq<(u64, u64)>, s: Set<u64>)
    requires
        seeds.subset_of(s),
        closed_under(s, steps),
        s.subset_of(closure_of(seeds, steps)),
    ensures
        s == closure_of(seeds, steps),
{
    assert forall|x: u64| closure_of(seeds, steps).contains(x) implies s.contains(x) by {
        assert(closed_under(s, steps));
    };
    assert(s =~= closure_of(seeds, steps));
}

/// Whether `x` occurs in `v`.
pub fn contains_id(v: &Vec<u64>, x: u64) -> (r: bool)
    ensures
        r == v@.contains(x),
{
    let mut i: usize = 0;
    while i < v.len()
        invariant
            i <= v@.len(),
            forall|j: int| 0 <= j < i ==> v@[j] != x,
        decreases v@.len() - i,
    {
        if v[i] == x {
            return true;
        }
        i = i + 1;
    }
    false
}

/// `x` is a seed or the target of some step.
pub open spec fn seed_or_target(seeds: Seq<u64>, steps: Seq<(u64, u64)>, x: u64) -> bool {
    seeds.contains(x) || exists|k: int| 0 <= k < steps.len() && (#[trigger] steps[k]).1 == x
}

/// An id list without repetition drawn from seeds and step targets is no
/// longer than the two lists together.
proof fn lemma_found_bound(found: Seq<u64>, seeds: Seq<u64>, steps: Seq<(u64, u64)>)
    requires
        found.no_duplicates(),
        forall|x: u64| found.contains(x) ==> seed_or_target(seeds, steps, x),
    ensures
        found.len() <= seeds.len() + steps.len(),
{
    let targets = steps.map_values(|p: (u64, u64)| p.1);
    let both = seeds.to_set().union(targets.to_set());
    assert forall|x: u64| found.to_set().contains(x) implies both.contains(x) by {
        assert(found.contains(x));
        if !seeds.contains(x) {
            let k = choose|k: int| 0 <= k < steps.len() && (#[trigger] steps[k]).1 == x;
            assert(targets[k] == x);
            assert(targets.contains(x));
        }
    };
    found.unique_seq_to_set();
    seeds.lemma_cardinality_of_set();
    targets.lemma_cardinality_of_set();
    lemma_len_union(seeds.to_set(), targets.to_set());
    lemma_len_subset(found.to_set(), both);
}

/// The step sources never decrease along the list.
pub open spec fn sources_sorted(steps: Seq<(u64, u64)>) -> bool {
    forall|i: int, j: int| 0 <= i < j < steps.len() ==> (#[trigger] steps[i]).0 <= (#[trigger] steps[j]).0
}

/// A range of positions outside which no step starts at `x`: found by
/// binary search where the sources are sorted, else the whole list.
pub fn step_range(steps: &Vec<(u64, u64)>, x: u64, sorted: bool) -> (r: (usize, usize))
    requires
        sorted ==> sources_sorted(steps@),
    ensures
        r.0 <= r.1 <= steps@.len(),
        forall|q: int| 0 <= q < r.0 ==> (#[trigger] steps@[q]).0 != x,
        forall|q: int| r.1 <= q < steps@.len() ==> (#[trigger] steps@[q]).0 != x,
{
    if !sorted {
        return (0, steps.len());
    }
    let mut lo: usize = 0;
    let mut hi: usize = steps.len();
    while lo < hi
        invariant
            sources_sorted(steps@),
            lo <= hi <= steps@.len(),
            forall|q: int| 0 <= q < lo ==> (#[trigger] steps@[q]).0 < x,
            forall|q: int| hi <= q < steps@.len() ==> (#[trigger] steps@[q]).0 >= x,
        decreases hi - lo,
    {
        let mid = lo + (hi - lo) / 2;
        if steps[mid].0 < x {
            assert forall|q: int| 0 <= q <= mid implies (#[trigger] steps@[q]).0 < x by {
                if q < mid {
                    assert(steps@[q].0 <= steps@[mid as int].0);
                }
            };
            lo = mid + 1;
        } else {
            assert forall|q: int| mid <= q < steps@.len() implies (#[trigger] steps@[q]).0 >= x by {
                if q > mid {
                    assert(steps@[mid as int].0 <= steps@[q].0);
                }
            };
            hi = mid;
        }
    }
    let start = lo;
    let mut end = lo;
    hi = steps.len();
    while end < hi
        invariant
            sources_sorted(steps@),
            start <= end <= hi <= steps@.len(),
            forall|q: int| 0 <= q < start ==> (#[trigger] steps@[q]).0 < x,
            forall|q: int| start <= q < end ==> (#[trigger] steps@[q]).0 <= x,
            forall|q: int| hi <= q < steps@.len() ==> (#[trigger] steps@[q]).0 > x,
        decreases hi - end,
    {
        let mid = end + (hi - end) / 2;
        if steps[mid].0 <= x {
            assert forall|q: int| start <= q <= mid implies (#[trigger] steps@[q]).0 <= x by {
                if q < mid {
                    assert(steps@[q].0 <= steps@[mid as int].0);
                }
            };
            end = mid + 1;
        } else {
            assert forall|q: int| mid <= q < steps@.len() implies (#[trigger] steps@[q]).0 > x by {
                if q > mid {
                    assert(steps@[mid as int].0 <= steps@[q].0);
                }
            };
            hi = mid;
        }
    }
    (start, end)
}

/// The least set of ids that contains `seeds` and is closed under `steps`,
/// each id once. Where `sorted` is set, the steps must be sorted by source,
/// and the steps of each id are then found by binary search.
pub fn closure(seeds: &Vec<u64>, steps: &Vec<(u64, u64)>, sorted: bool) -> (r: Vec<u64>)
    requires
        sorted ==> sources_sorted(steps@),
    ensures
        r@.no_duplicates(),
        r@.to_set() == closure_of(seeds@.to_set(), steps@),
{
    let ghost ss = seeds@.to_set();
    let ghost c = closure_of(ss, steps@);
    proof {
        lemma_closure_is_closed(ss, steps@);
    }
    let mut found: Vec<u64> = Vec::new();
    let mut j: usize = 0;
    while j < seeds.len()
        invariant
            j <= seeds@.len(),
            ss == seeds@.to_set(),
            c == closure_of(ss, steps@),
            ss.subset_of(c),
            found@.no_duplicates(),
            forall|k: int| 0 <= k < j ==> found@.contains(#[trigger] seeds@[k]),
            forall|x: u64| found@.contains(x) ==> seeds@.contains(x),
        decreases seeds@.len() - j,
    {
        let x = seeds[j];
        if !contains_id(&found, x) {
            found.push(x);
        }
        j = j + 1;
    }
    let ghost bound = seeds@.len() + steps@.len();
    proof {
        assert forall|x: u64| found@.contains(x) implies c.contains(x) by {
            assert(ss.contains(x));
        };
        lemma_found_bound(found@, seeds@, steps@);
    }
    let mut i: usize = 0;
    while i < found.len()
        invariant
            sorted ==> sources_sorted(steps@),
            ss == seeds@.to_set(),
            c == closure_of(ss, steps@),
            closed_under(c, steps@),
            i <= found@.len() <= bound,
            bound == seeds@.len() + steps@.len(),
            found@.no_duplicates(),
            forall|k: int| 0 <= k < seeds@.len() ==> found@.contains(#[trigger] seeds@[k]),
            forall|x: u64| found@.contains(x) ==> seed_or_target(seeds@, steps@, x),
            forall|x: u64| found@.contains(x) ==> c.contains(x),
            forall|a: int, k: int|
                0 <= a < i && 0 <= k < steps@.len() && (#[trigger] steps@[k]).0 == #[trigger] found@[a]
                    ==> found@.contains(steps@[k].1),
        decreases bound - i,
    {
        let x = found[i];
        let (lo, hi) = step_range(steps, x, sorted);
        let mut k: usize = lo;
        while k < hi
            invariant
                lo <= k <= hi <= steps@.len(),
                forall|q: int| hi <= q < steps@.len() ==> (#[trigger] steps@[q]).0 != x,
                c == closure_of(ss, steps@),
                closed_under(c, steps@),
                i < found@.len(),
                x == found@[i as int],
                found@.no_duplicates(),
                forall|k: int| 0 <= k < seeds@.len() ==> found@.contains(#[trigger] seeds@[k]),
                forall|x: u64| found@.contains(x) ==> seed_or_target(seeds@, steps@, x),
                forall|x: u64| found@.contains(x) ==> c.contains(x),
                forall|a: int, k: int|
                    0 <= a < i && 0 <= k < steps@.len() && (#[trigger] steps@[k]).0
                        == #[trigger] found@[a] ==> found@.contains(steps@[k].1),
                forall|q: int| 0 <= q < k && (#[trigger] steps@[q]).0 == x ==> found@.contains(steps@[q].1),
            decreases hi - k,
        {
            let (from, to) = steps[k];
            if from == x && !contains_id(&found, to) {
                proof {
                    assert(c.contains(x));
                    assert(steps@[k as int].0 == x);
                }
                found.push(to);
            }
            k = k + 1;
        }
        proof {
            lemma_found_bound(found@, seeds@, steps@);
        }
        i = i + 1;
    }
    proof {
        let fs = found@.to_set();
        assert forall|k: int| 0 <= k < steps@.len() && fs.contains(#[trigger] steps@[k].0) implies fs.contains(
            steps@[k].1,
        ) by {
            assert(found@.contains(steps@[k].0));
            let a = choose|a: int| 0 <= a < found@.len() && found@[a] == steps@[k].0;
            assert(steps@[k].0 == found@[a]);
        };
        assert(closed_under(fs, steps@));
        assert forall|x: u64| ss.contains(x) implies fs.contains(x) by {
            let k = choose|k: int| 0 <= k < seeds@.len() && seeds@[k] == x;
            assert(found@.contains(seeds@[k]));
        };
        lemma_closure_unique(ss, steps@, fs);
    }
    found
}

} // verus!
