//! Sorted, duplicate-free tables: relations of id pairs and rows keyed by id.
//!
//! A table kept in strictly increasing key order holds each key once, and
//! its sequence is fixed by the set of its rows.
use vstd::prelude::*;

verus! {

broadcast use vstd::seq_lib::lemma_seq_contains_after_push;

/// Lexicographic order on id pairs.
pub open spec fn pair_lt(p: (u64, u64), q: (u64, u64)) -> bool {
    p.0 < q.0 || (p.0 == q.0 && p.1 < q.1)
}

/// Each pair is lexicographically smaller than every later one.
pub open spec fn strictly_sorted(s: Seq<(u64, u64)>) -> bool {
    forall|i: int, j: int| 0 <= i < j < s.len() ==> pair_lt(#[trigger] s[i], #[trigger] s[j])
}

/// The ids of keyed rows strictly increase.
pub open spec fn keys_sorted<A, B>(s: Seq<(u64, A, B)>) -> bool {
    forall|i: int, j: int| 0 <= i < j < s.len() ==> (#[trigger] s[i]).0 < (#[trigger] s[j]).0
}

/// Whether some row has key `id`.
pub open spec fn has_key<A, B>(s: Seq<(u64, A, B)>, id: u64) -> bool {
    exists|i: int| 0 <= i < s.len() && (#[trigger] s[i]).0 == id
}

/// An unordered pair written with its smaller id first.
pub open spec fn canonical(x: u64, y: u64) -> (u64, u64) {
    if x <= y {
        (x, y)
    } else {
        (y, x)
    }
}

/// `canonical` on executable values.
pub fn canonical_pair(x: u64, y: u64) -> (r: (u64, u64))
    ensures
        r == canonical(x, y),
        r.0 <= r.1,
{
    if x <= y {
        (x, y)
    } else {
        (y, x)
    }
}

fn pair_less(p: (u64, u64), q: (u64, u64)) -> (r: bool)
    ensures
        r == pair_lt(p, q),
{
    p.0 < q.0 || (p.0 == q.0 && p.1 < q.1)
}

/// The first position whose pair is not below `p`.
fn pair_slot(v: &Vec<(u64, u64)>, p: (u64, u64)) -> (r: usize)
    requires
        strictly_sorted(v@),
    ensures
        r <= v@.len(),
        forall|i: int| 0 <= i < r ==> pair_lt(#[trigger] v@[i], p),
        forall|i: int| r <= i < v@.len() ==> !pair_lt(#[trigger] v@[i], p),
{
    let mut lo: usize = 0;
    let mut hi: usize = v.len();
    while lo < hi
        invariant
            strictly_sorted(v@),
            lo <= hi <= v@.len(),
            forall|i: int| 0 <= i < lo ==> pair_lt(#[trigger] v@[i], p),
            forall|i: int| hi <= i < v@.len() ==> !pair_lt(#[trigger] v@[i], p),
        decreases hi - lo,
    {
        let mid = lo + (hi - lo) / 2;
        if pair_less(v[mid], p) {
            assert forall|i: int| 0 <= i <= mid implies pair_lt(#[trigger] v@[i], p) by {
                if i < mid {
                    assert(pair_lt(v@[i], v@[mid as int]));
                }
            };
            lo = mid + 1;
        } else {
            assert forall|i: int| mid <= i < v@.len() implies !pair_lt(#[trigger] v@[i], p) by {
                if i > mid {
                    assert(pair_lt(v@[mid as int], v@[i]));
                }
            };
            hi = mid;
        }
    }
    lo
}

/// Adds `p` to a sorted pair table unless it is there already; returns
/// whether it was added.
pub fn insert_pair(v: &mut Vec<(u64, u64)>, p: (u64, u64)) -> (added: bool)
    requires
        strictly_sorted(old(v)@),
    ensures
        strictly_sorted(final(v)@),
        added == !old(v)@.contains(p),
        !added ==> final(v)@ == old(v)@,
        final(v)@.to_set() == old(v)@.to_set().insert(p),
        added ==> final(v)@.len() == old(v)@.len() + 1,
{
    let pos = pair_slot(v, p);
    if pos < v.len() && v[pos].0 == p.0 && v[pos].1 == p.1 {
        assert(old(v)@.to_set().insert(p) =~= old(v)@.to_set());
        return false;
    }
    proof {
        if old(v)@.contains(p) {
            let j = choose|j: int| 0 <= j < old(v)@.len() && old(v)@[j] == p;
            if j > pos {
                assert(pair_lt(v@[pos as int], v@[j]));
            }
        }
    }
    let ghost before = v@;
    v.insert(pos, p);
    proof {
        let after = v@;
        assert forall|i: int, j: int| 0 <= i < j < after.len() implies pair_lt(
            #[trigger] after[i],
            #[trigger] after[j],
        ) by {
            if j < pos {
                assert(after[i] == before[i] && after[j] == before[j]);
            } else if j == pos {
                assert(after[i] == before[i]);
            } else if i < pos {
                assert(after[i] == before[i] && after[j] == before[j - 1]);
                assert(pair_lt(before[i], p));
                assert(!pair_lt(before[j - 1], p));
                assert(before[j - 1] != p);
            } else if i == pos {
                assert(after[j] == before[j - 1]);
                assert(!pair_lt(before[j - 1], p));
                assert(before[j - 1] != p);
            } else {
                assert(after[i] == before[i - 1] && after[j] == before[j - 1]);
            }
        };
        assert forall|x: (u64, u64)| after.to_set().contains(x) <==> before.to_set().insert(p).contains(
            x,
        ) by {
            if after.contains(x) {
                let k = choose|k: int| 0 <= k < after.len() && after[k] == x;
                if k < pos {
                    assert(before[k] == x);
                } else if k > pos {
                    assert(before[k - 1] == x);
                }
            }
            if before.contains(x) {
                let k = choose|k: int| 0 <= k < before.len() && before[k] == x;
                if k < pos {
                    assert(after[k] == x);
                } else {
                    assert(after[k + 1] == x);
                }
            }
            if x == p {
                assert(after[pos as int] == p);
            }
        };
        assert(after.to_set() =~= before.to_set().insert(p));
    }
    true
}

/// The view of rows keyed by id that carry two texts.
pub open spec fn rows_view(v: Seq<(u64, String, String)>) -> Seq<(u64, Seq<char>, Seq<char>)> {
    v.map_values(|r: (u64, String, String)| (r.0, r.1@, r.2@))
}

/// The first position whose key is not below `id`.
fn key_slot(v: &Vec<(u64, String, String)>, id: u64) -> (r: usize)
    requires
        keys_sorted(rows_view(v@)),
    ensures
        r <= v@.len(),
        forall|i: int| 0 <= i < r ==> (#[trigger] rows_view(v@)[i]).0 < id,
        forall|i: int| r <= i < v@.len() ==> (#[trigger] rows_view(v@)[i]).0 >= id,
{
    let ghost w = rows_view(v@);
    let mut lo: usize = 0;
    let mut hi: usize = v.len();
    while lo < hi
        invariant
            w == rows_view(v@),
            keys_sorted(w),
            lo <= hi <= v@.len(),
            forall|i: int| 0 <= i < lo ==> (#[trigger] w[i]).0 < id,
            forall|i: int| hi <= i < v@.len() ==> (#[trigger] w[i]).0 >= id,
        decreases hi - lo,
    {
        let mid = lo + (hi - lo) / 2;
        assert(w[mid as int].0 == v@[mid as int].0);
        if v[mid].0 < id {
            assert forall|i: int| 0 <= i <= mid implies (#[trigger] w[i]).0 < id by {
                if i < mid {
                    assert(w[i].0 < w[mid as int].0);
                }
            };
            lo = mid + 1;
        } else {
            assert forall|i: int| mid <= i < v@.len() implies (#[trigger] w[i]).0 >= id by {
                if i > mid {
                    assert(w[mid as int].0 < w[i].0);
                }
            };
            hi = mid;
        }
    }
    lo
}

/// The position of the row with key `id`, if any.
pub fn find_key(v: &Vec<(u64, String, String)>, id: u64) -> (r: Option<usize>)
    requires
        keys_sorted(rows_view(v@)),
    ensures
        r is None <==> !has_key(rows_view(v@), id),
        r matches Some(i) ==> i < v@.len() && rows_view(v@)[i as int].0 == id,
{
    let ghost w = rows_view(v@);
    let pos = key_slot(v, id);
    if pos < v.len() && v[pos].0 == id {
        assert(w[pos as int].0 == id);
        Some(pos)
    } else {
        proof {
            if pos < v.len() {
                assert(w[pos as int].0 == v@[pos as int].0);
            }
            if has_key(w, id) {
                let j = choose|j: int| 0 <= j < w.len() && (#[trigger] w[j]).0 == id;
                if j > pos {
                    assert(w[pos as int].0 < w[j].0);
                }
            }
        }
        None
    }
}

/// Adds a row keyed by `id` unless a row with that key exists; returns
/// whether it was added.
pub fn insert_keyed(v: &mut Vec<(u64, String, String)>, id: u64, a: String, b: String) -> (added: bool)
    requires
        keys_sorted(rows_view(old(v)@)),
    ensures
        keys_sorted(rows_view(final(v)@)),
        added == !has_key(rows_view(old(v)@), id),
        !added ==> final(v)@ == old(v)@,
        rows_view(final(v)@).to_set() == (if added {
            rows_view(old(v)@).to_set().insert((id, a@, b@))
        } else {
            rows_view(old(v)@).to_set()
        }),
{
    let ghost before = rows_view(v@);
    let ghost row = (id, a@, b@);
    match find_key(v, id) {
        Some(_) => {
            return false;
        },
        None => {},
    }
    let pos = key_slot(v, id);
    if pos < v.len() {
        assert(before[pos as int].0 == v@[pos as int].0);
    }
    let ghost old_v = v@;
    v.insert(pos, (id, a, b));
    proof {
        let after = rows_view(v@);
        assert(v@ == old_v.insert(pos as int, (id, a, b)));
        assert(after.len() == before.len() + 1);
        assert forall|k: int| 0 <= k < pos implies #[trigger] after[k] == before[k] by {
            assert(v@[k] == old_v[k]);
        };
        assert forall|k: int| pos < k < after.len() implies #[trigger] after[k] == before[k - 1] by {
            assert(v@[k] == old_v[k - 1]);
        };
        assert(after[pos as int] == row);
        assert forall|i: int, j: int| 0 <= i < j < after.len() implies (#[trigger] after[i]).0 < (
        #[trigger] after[j]).0 by {
            if j < pos {
                assert(after[i] == before[i] && after[j] == before[j]);
            } else if j == pos {
                assert(after[i] == before[i]);
            } else if i < pos {
                assert(after[i] == before[i] && after[j] == before[j - 1]);
                assert(before[j - 1].0 != id);
            } else if i == pos {
                assert(after[j] == before[j - 1]);
                assert(before[j - 1].0 != id);
            } else {
                assert(after[i] == before[i - 1] && after[j] == before[j - 1]);
            }
        };
        assert forall|x: (u64, Seq<char>, Seq<char>)| after.to_set().contains(x) <==> before.to_set().insert(
            row,
        ).contains(x) by {
            if after.contains(x) {
                let k = choose|k: int| 0 <= k < after.len() && after[k] == x;
                if k < pos {
                    assert(before[k] == x);
                } else if k > pos {
                    assert(before[k - 1] == x);
                }
            }
            if before.contains(x) {
                let k = choose|k: int| 0 <= k < before.len() && before[k] == x;
                if k < pos {
                    assert(after[k] == x);
                } else {
                    assert(after[k + 1] == x);
                }
            }
            if x == row {
                assert(after[pos as int] == row);
            }
        };
        assert(after.to_set() =~= before.to_set().insert(row));
    }
    true
}

} // verus!
