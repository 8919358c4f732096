//! The graph store: entity labels, positions, natures, border edges and the
//! subtype hierarchy, each kept as a sorted table without repeated rows.
use crate::closure::{
    closed_under, closure, closure_of, contains_id, lemma_closure_is_closed, sources_sorted, step_range,
};
use crate::tables::{
    canonical, canonical_pair, find_key, has_key, insert_keyed, insert_pair, keys_sorted, rows_view,
    strictly_sorted,
};
use vstd::prelude::*;

verus! {

broadcast use vstd::seq_lib::lemma_seq_contains_after_push;

/// The contents of a store, table by table, each in increasing key order.
pub struct StoreContents {
    /// `(id, english label, french label)`.
    pub entities: Seq<(u64, Seq<char>, Seq<char>)>,
    /// `(id, latitude text, longitude text)`.
    pub positions: Seq<(u64, Seq<char>, Seq<char>)>,
    /// `(entity id, type id)`.
    pub natures: Seq<(u64, u64)>,
    /// `(a, b)` with `a <= b`, one row per unordered pair.
    pub edges: Seq<(u64, u64)>,
    /// `(child type id, parent type id)`.
    pub subclass: Seq<(u64, u64)>,
    /// Categories excluded from the ranking and from ancestor expansion.
    pub banned: Set<u64>,
}

impl StoreContents {
    /// Every table is sorted by key without repetition, and every edge has
    /// its smaller id first.
    pub open spec fn wf(self) -> bool {
        &&& keys_sorted(self.entities)
        &&& keys_sorted(self.positions)
        &&& strictly_sorted(self.natures)
        &&& strictly_sorted(self.edges)
        &&& strictly_sorted(self.subclass)
        &&& forall|i: int| 0 <= i < self.edges.len() ==> (#[trigger] self.edges[i]).0 <= self.edges[i].1
    }
}

/// The hierarchy read downward: from each parent to its child.
pub open spec fn down_steps(subclass: Seq<(u64, u64)>) -> Seq<(u64, u64)> {
    subclass.map_values(|p: (u64, u64)| (p.1, p.0))
}

/// A category and all its subtypes, to any depth.
pub open spec fn descendant_set(v: StoreContents, category: u64) -> Set<u64> {
    closure_of(set![category], down_steps(v.subclass))
}

/// The hierarchy read upward, without steps into a banned category.
pub open spec fn up_steps(v: StoreContents) -> Seq<(u64, u64)> {
    v.subclass.filter(|p: (u64, u64)| !v.banned.contains(p.1))
}

/// The natures recorded for an entity, banned ones left out.
pub open spec fn nature_seeds(v: StoreContents, entity: u64) -> Set<u64> {
    Set::new(|n: u64| v.natures.contains((entity, n)) && !v.banned.contains(n))
}

/// Every unbanned category that an entity belongs to: its unbanned natures
/// and, through unbanned parents, all their ancestors.
pub open spec fn ancestor_set(v: StoreContents, entity: u64) -> Set<u64> {
    closure_of(nature_seeds(v, entity), up_steps(v))
}

/// The text pair stored for `id` in a keyed table.
pub open spec fn row_texts(s: Seq<(u64, Seq<char>, Seq<char>)>, id: u64) -> Option<(Seq<char>, Seq<char>)> {
    if has_key(s, id) {
        let i = choose|i: int| 0 <= i < s.len() && (#[trigger] s[i]).0 == id;
        Some((s[i].1, s[i].2))
    } else {
        None
    }
}

/// Keys are unique in a sorted keyed table, so the row found is the row.
proof fn lemma_row_texts(s: Seq<(u64, Seq<char>, Seq<char>)>, i: int)
    requires
        keys_sorted(s),
        0 <= i < s.len(),
    ensures
        row_texts(s, s[i].0) == Some((s[i].1, s[i].2)),
{
    assert(has_key(s, s[i].0));
    let j = choose|j: int| 0 <= j < s.len() && (#[trigger] s[j]).0 == s[i].0;
    if j < i {
        assert(s[j].0 < s[i].0);
    } else if j > i {
        assert(s[i].0 < s[j].0);
    }
}

/// A border edge is stored with its smaller id first, and the pair `(y, x)`
/// is the same row as `(x, y)`: once one is stored, storing the other adds
/// no row.
pub proof fn lemma_reverse_edge_is_same_row(before: Seq<(u64, u64)>, after: Seq<(u64, u64)>, x: u64, y: u64)
    requires
        after.to_set() == before.to_set().insert(canonical(x, y)),
    ensures
        canonical(x, y).0 <= canonical(x, y).1,
        canonical(y, x) == canonical(x, y),
        after.contains(canonical(y, x)),
{
    assert(after.to_set().contains(canonical(x, y)));
}

/// In a well-formed store each border edge is one row, smaller id first: no
/// row repeats and no row has its ids reversed.
pub proof fn lemma_edge_rows_canonical(v: StoreContents)
    requires
        v.wf(),
    ensures
        v.edges.no_duplicates(),
        forall|i: int| 0 <= i < v.edges.len() ==> (#[trigger] v.edges[i]).0 <= v.edges[i].1,
        forall|a: u64, b: u64| a > b ==> !#[trigger] v.edges.contains((a, b)),
{
    assert forall|i: int, j: int| 0 <= i < v.edges.len() && 0 <= j < v.edges.len() && i != j implies v.edges[i]
        != v.edges[j] by {
        if i < j {
            assert(crate::tables::pair_lt(v.edges[i], v.edges[j]));
        } else {
            assert(crate::tables::pair_lt(v.edges[j], v.edges[i]));
        }
    };
}

/// A category with two subtypes, one of which has a subtype of its own, has
/// exactly those four types as descendants, whatever the other rows of the
/// hierarchy that do not hang below them.
pub proof fn lemma_two_level_descendants(v: StoreContents, k: u64, c1: u64, c2: u64, c3: u64)
    requires
        v.subclass.contains((c1, k)),
        v.subclass.contains((c2, k)),
        v.subclass.contains((c3, c1)),
        forall|i: int|
            0 <= i < v.subclass.len() && set![k, c1, c2, c3].contains((#[trigger] v.subclass[i]).1) ==> v.subclass[i]
                == (c1, k) || v.subclass[i] == (c2, k) || v.subclass[i] == (c3, c1),
    ensures
        descendant_set(v, k) == set![k, c1, c2, c3],
{
    let steps = down_steps(v.subclass);
    let seeds = set![k];
    let four = set![k, c1, c2, c3];
    assert forall|q: int| 0 <= q < steps.len() && four.contains(#[trigger] steps[q].0) implies four.contains(
        steps[q].1,
    ) by {
        assert(steps[q] == (v.subclass[q].1, v.subclass[q].0));
    };
    assert(closed_under(four, steps));
    assert(seeds.subset_of(four));
    lemma_closure_is_closed(seeds, steps);
    let c = closure_of(seeds, steps);
    assert(c.contains(k));
    let i1 = choose|i: int| 0 <= i < v.subclass.len() && v.subclass[i] == (c1, k);
    assert(steps[i1] == (k, c1));
    assert(c.contains(steps[i1].0));
    assert(c.contains(c1));
    let i2 = choose|i: int| 0 <= i < v.subclass.len() && v.subclass[i] == (c2, k);
    assert(steps[i2] == (k, c2));
    assert(c.contains(steps[i2].0));
    assert(c.contains(c2));
    let i3 = choose|i: int| 0 <= i < v.subclass.len() && v.subclass[i] == (c3, c1);
    assert(steps[i3] == (c1, c3));
    assert(c.contains(steps[i3].0));
    assert(c.contains(c3));
    assert(c =~= four);
}

/// A category without subtypes is its own descendant closure.
pub proof fn lemma_leaf_descendants(v: StoreContents, category: u64)
    requires
        forall|i: int| 0 <= i < v.subclass.len() ==> (#[trigger] v.subclass[i]).1 != category,
    ensures
        descendant_set(v, category) == set![category],
{
    let steps = down_steps(v.subclass);
    let seeds = set![category];
    assert forall|k: int| 0 <= k < steps.len() && seeds.contains(#[trigger] steps[k].0) implies seeds.contains(
        steps[k].1,
    ) by {
        assert(steps[k].0 == v.subclass[k].1);
    };
    assert(closed_under(seeds, steps));
    lemma_closure_is_closed(seeds, steps);
    assert(descendant_set(v, category) =~= seeds);
}

/// The descendants of a category depend on the set of hierarchy rows alone,
/// not on their order or on the order in which they were recorded.
pub proof fn lemma_descendants_ignore_row_order(v: StoreContents, w: StoreContents, category: u64)
    requires
        v.subclass.to_set() == w.subclass.to_set(),
    ensures
        descendant_set(v, category) == descendant_set(w, category),
{
    let sv = down_steps(v.subclass);
    let sw = down_steps(w.subclass);
    assert forall|t: Set<u64>| closed_under(t, sv) <==> closed_under(t, sw) by {
        if closed_under(t, sv) {
            assert forall|k: int| 0 <= k < sw.len() && t.contains(#[trigger] sw[k].0) implies t.contains(sw[k].1) by {
                assert(w.subclass.to_set().contains(w.subclass[k]));
                let j = choose|j: int| 0 <= j < v.subclass.len() && v.subclass[j] == w.subclass[k];
                assert(sv[j] == sw[k]);
            };
        }
        if closed_under(t, sw) {
            assert forall|k: int| 0 <= k < sv.len() && t.contains(#[trigger] sv[k].0) implies t.contains(sv[k].1) by {
                assert(v.subclass.to_set().contains(v.subclass[k]));
                let j = choose|j: int| 0 <= j < w.subclass.len() && w.subclass[j] == v.subclass[k];
                assert(sw[j] == sv[k]);
            };
        }
    };
    assert(descendant_set(v, category) =~= descendant_set(w, category));
}

/// No banned category is among the ancestors of an entity.
pub proof fn lemma_ancestors_unbanned(v: StoreContents, entity: u64)
    ensures
        forall|c: u64| #[trigger] ancestor_set(v, entity).contains(c) ==> !v.banned.contains(c),
{
    let unbanned = Set::new(|c: u64| !v.banned.contains(c));
    let steps = up_steps(v);
    let pred = |p: (u64, u64)| !v.banned.contains(p.1);
    assert forall|k: int| 0 <= k < steps.len() && unbanned.contains(#[trigger] steps[k].0) implies unbanned.contains(
        steps[k].1,
    ) by {
        v.subclass.lemma_filter_pred(pred, k);
    };
    assert(nature_seeds(v, entity).subset_of(unbanned));
    assert(closed_under(unbanned, steps));
}

/// An in-memory graph store.
pub struct GraphStore {
    entities: Vec<(u64, String, String)>,
    positions: Vec<(u64, String, String)>,
    natures: Vec<(u64, u64)>,
    edges: Vec<(u64, u64)>,
    subclass: Vec<(u64, u64)>,
    banned: Vec<u64>,
}

impl View for GraphStore {
    type V = StoreContents;

    closed spec fn view(&self) -> StoreContents {
        StoreContents {
            entities: rows_view(self.entities@),
            positions: rows_view(self.positions@),
            natures: self.natures@,
            edges: self.edges@,
            subclass: self.subclass@,
            banned: self.banned@.to_set(),
        }
    }
}

impl GraphStore {
    #[verifier::type_invariant]
    closed spec fn inv(self) -> bool {
        self@.wf()
    }

    /// An empty store whose ranking leaves out the categories in `banned`.
    pub fn new(banned: Vec<u64>) -> (s: GraphStore)
        ensures
            s@.wf(),
            s@.entities == Seq::<(u64, Seq<char>, Seq<char>)>::empty(),
            s@.positions == Seq::<(u64, Seq<char>, Seq<char>)>::empty(),
            s@.natures == Seq::<(u64, u64)>::empty(),
            s@.edges == Seq::<(u64, u64)>::empty(),
            s@.subclass == Seq::<(u64, u64)>::empty(),
            s@.banned == banned@.to_set(),
    {
        let s = GraphStore {
            entities: Vec::new(),
            positions: Vec::new(),
            natures: Vec::new(),
            edges: Vec::new(),
            subclass: Vec::new(),
            banned,
        };
        assert(rows_view(s.entities@) =~= Seq::<(u64, Seq<char>, Seq<char>)>::empty());
        assert(rows_view(s.positions@) =~= Seq::<(u64, Seq<char>, Seq<char>)>::empty());
        s
    }

    /// Every store is well formed.
    pub(crate) fn establish_wf(&self)
        ensures
            self@.wf(),
    {
        proof {
            use_type_invariant(self);
        }
    }

    /// Records an entity's labels unless the id is already recorded; returns
    /// whether it was added.
    pub fn insert_entity(&mut self, id: u64, name_en: String, name_fr: String) -> (added: bool)
        ensures
            final(self)@.wf(),
            added == !has_key(old(self)@.entities, id),
            !added ==> final(self)@ == old(self)@,
            added ==> final(self)@.entities.to_set() == old(self)@.entities.to_set().insert(
                (id, name_en@, name_fr@),
            ),
            final(self)@ == (StoreContents { entities: final(self)@.entities, ..old(self)@ }),
    {
        proof {
            use_type_invariant(&*self);
        }
        let mut t: Vec<(u64, String, String)> = Vec::new();
        std::mem::swap(&mut t, &mut self.entities);
        let added = insert_keyed(&mut t, id, name_en, name_fr);
        self.entities = t;
        proof {
            use_type_invariant(&*self);
        }
        added
    }

    /// Records an entity's position unless one is already recorded; returns
    /// whether it was added.
    pub fn insert_position(&mut self, id: u64, lat: String, lon: String) -> (added: bool)
        ensures
            final(self)@.wf(),
            added == !has_key(old(self)@.positions, id),
            !added ==> final(self)@ == old(self)@,
            added ==> final(self)@.positions.to_set() == old(self)@.positions.to_set().insert(
                (id, lat@, lon@),
            ),
            final(self)@ == (StoreContents { positions: final(self)@.positions, ..old(self)@ }),
    {
        proof {
            use_type_invariant(&*self);
        }
        let mut t: Vec<(u64, String, String)> = Vec::new();
        std::mem::swap(&mut t, &mut self.positions);
        let added = insert_keyed(&mut t, id, lat, lon);
        self.positions = t;
        proof {
            use_type_invariant(&*self);
        }
        added
    }

    /// Records that entity `id` has nature `nature`; a repeated row is ignored.
    pub fn insert_nature(&mut self, id: u64, nature: u64) -> (added: bool)
        ensures
            final(self)@.wf(),
            added == !old(self)@.natures.contains((id, nature)),
            !added ==> final(self)@ == old(self)@,
            final(self)@.natures.to_set() == old(self)@.natures.to_set().insert((id, nature)),
            final(self)@ == (StoreContents { natures: final(self)@.natures, ..old(self)@ }),
    {
        proof {
            use_type_invariant(&*self);
        }
        let mut t: Vec<(u64, u64)> = Vec::new();
        std::mem::swap(&mut t, &mut self.natures);
        let added = insert_pair(&mut t, (id, nature));
        self.natures = t;
        proof {
            use_type_invariant(&*self);
        }
        added
    }

    /// Records that `x` and `y` share a border, as the pair with the smaller
    /// id first; a pair already recorded, in either order, is ignored.
    pub fn insert_edge(&mut self, x: u64, y: u64) -> (added: bool)
        ensures
            final(self)@.wf(),
            added == !old(self)@.edges.contains(canonical(x, y)),
            !added ==> final(self)@ == old(self)@,
            final(self)@.edges.to_set() == old(self)@.edges.to_set().insert(canonical(x, y)),
            final(self)@ == (StoreContents { edges: final(self)@.edges, ..old(self)@ }),
    {
        proof {
            use_type_invariant(&*self);
        }
        let p = canonical_pair(x, y);
        let ghost before = self.edges@;
        let mut t: Vec<(u64, u64)> = Vec::new();
        std::mem::swap(&mut t, &mut self.edges);
        let added = insert_pair(&mut t, p);
        proof {
            let after = t@;
            assert forall|i: int| 0 <= i < after.len() implies (#[trigger] after[i]).0 <= after[i].1 by {
                assert(after.to_set().contains(after[i]));
                if after[i] != p {
                    assert(before.to_set().contains(after[i]));
                    let j = choose|j: int| 0 <= j < before.len() && before[j] == after[i];
                    assert(before[j].0 <= before[j].1);
                }
            };
        }
        self.edges = t;
        added
    }

    /// Records that type `child` is a subtype of `parent`; a repeated row is
    /// ignored.
    pub fn insert_subtype(&mut self, child: u64, parent: u64) -> (added: bool)
        ensures
            final(self)@.wf(),
            added == !old(self)@.subclass.contains((child, parent)),
            !added ==> final(self)@ == old(self)@,
            final(self)@.subclass.to_set() == old(self)@.subclass.to_set().insert((child, parent)),
            final(self)@ == (StoreContents { subclass: final(self)@.subclass, ..old(self)@ }),
    {
        proof {
            use_type_invariant(&*self);
        }
        let mut t: Vec<(u64, u64)> = Vec::new();
        std::mem::swap(&mut t, &mut self.subclass);
        let added = insert_pair(&mut t, (child, parent));
        self.subclass = t;
        proof {
            use_type_invariant(&*self);
        }
        added
    }

    /// The labels recorded for an entity.
    pub fn entity_names(&self, id: u64) -> (r: Option<(String, String)>)
        ensures
            match r {
                Some(names) => row_texts(self@.entities, id) == Some((names.0@, names.1@)),
                None => row_texts(self@.entities, id) is None,
            },
    {
        proof {
            use_type_invariant(self);
        }
        match find_key(&self.entities, id) {
            Some(i) => {
                proof {
                    lemma_row_texts(self@.entities, i as int);
                }
                Some((self.entities[i].1.clone(), self.entities[i].2.clone()))
            },
            None => None,
        }
    }

    /// The position recorded for an entity, as `(latitude, longitude)` text.
    pub fn position(&self, id: u64) -> (r: Option<(String, String)>)
        ensures
            match r {
                Some(pos) => row_texts(self@.positions, id) == Some((pos.0@, pos.1@)),
                None => row_texts(self@.positions, id) is None,
            },
    {
        proof {
            use_type_invariant(self);
        }
        match find_key(&self.positions, id) {
            Some(i) => {
                proof {
                    lemma_row_texts(self@.positions, i as int);
                }
                Some((self.positions[i].1.clone(), self.positions[i].2.clone()))
            },
            None => None,
        }
    }

    /// The border edges, in table order.
    pub fn edge_list(&self) -> (r: &Vec<(u64, u64)>)
        ensures
            r@ == self@.edges,
    {
        &self.edges
    }

    /// The type assignments, in table order.
    pub fn nature_list(&self) -> (r: &Vec<(u64, u64)>)
        ensures
            r@ == self@.natures,
    {
        &self.natures
    }

    /// The entity rows, in increasing id order.
    pub fn entity_list(&self) -> (r: &Vec<(u64, String, String)>)
        ensures
            rows_view(r@) == self@.entities,
    {
        &self.entities
    }

    /// The position rows, in increasing id order.
    pub fn position_list(&self) -> (r: &Vec<(u64, String, String)>)
        ensures
            rows_view(r@) == self@.positions,
    {
        &self.positions
    }

    /// The hierarchy rows, in table order.
    pub fn subclass_list(&self) -> (r: &Vec<(u64, u64)>)
        ensures
            r@ == self@.subclass,
    {
        &self.subclass
    }

    /// The banned categories.
    pub fn banned_list(&self) -> (r: &Vec<u64>)
        ensures
            r@.to_set() == self@.banned,
    {
        &self.banned
    }

    /// Whether `id` is a banned category.
    pub fn is_banned(&self, id: u64) -> (r: bool)
        ensures
            r == self@.banned.contains(id),
    {
        contains_id(&self.banned, id)
    }

    /// A category and all its subtypes, each once.
    pub fn descendants(&self, category: u64) -> (r: Vec<u64>)
        ensures
            r@.no_duplicates(),
            r@.to_set() == descendant_set(self@, category),
    {
        let mut steps: Vec<(u64, u64)> = Vec::new();
        let mut i: usize = 0;
        while i < self.subclass.len()
            invariant
                i <= self.subclass@.len(),
                steps@ == down_steps(self.subclass@.subrange(0, i as int)),
            decreases self.subclass@.len() - i,
        {
            let (child, parent) = self.subclass[i];
            steps.push((parent, child));
            i = i + 1;
            assert(steps@ =~= down_steps(self.subclass@.subrange(0, i as int)));
        }
        assert(self.subclass@.subrange(0, i as int) =~= self.subclass@);
        let seeds = vec![category];
        assert(seeds@.to_set() =~= set![category]) by {
            assert(seeds@[0] == category);
        };
        closure(&seeds, &steps, false)
    }

    /// The hierarchy rows whose parent is not banned, in table order.
    pub(crate) fn upward_steps(&self) -> (r: Vec<(u64, u64)>)
        ensures
            r@ == up_steps(self@),
            sources_sorted(r@),
    {
        proof {
            use_type_invariant(self);
        }
        let ghost pred = |p: (u64, u64)| !self@.banned.contains(p.1);
        let mut steps: Vec<(u64, u64)> = Vec::new();
        let mut i: usize = 0;
        while i < self.subclass.len()
            invariant
                i <= self.subclass@.len(),
                pred == (|p: (u64, u64)| !self@.banned.contains(p.1)),
                steps@ == self.subclass@.subrange(0, i as int).filter(pred),
                strictly_sorted(self.subclass@),
                sources_sorted(steps@),
                forall|k: int| 0 <= k < steps@.len() ==> exists|j: int| 0 <= j < i && #[trigger] steps@[k] == self.subclass@[j],
            decreases self.subclass@.len() - i,
        {
            let p = self.subclass[i];
            proof {
                let pre = self.subclass@.subrange(0, i as int);
                assert(self.subclass@.subrange(0, i + 1) =~= pre.push(p));
                pre.lemma_filter_push(p, pred);
            }
            if !self.is_banned(p.1) {
                let ghost before = steps@;
                steps.push(p);
                proof {
                    assert forall|a: int, b: int| 0 <= a < b < steps@.len() implies (#[trigger] steps@[a]).0 <= (
                    #[trigger] steps@[b]).0 by {
                        if b == steps@.len() - 1 {
                            assert(steps@[a] == before[a]);
                            let j = choose|j: int| 0 <= j < i && before[a] == self.subclass@[j];
                            assert(crate::tables::pair_lt(self.subclass@[j], self.subclass@[i as int]));
                        } else {
                            assert(steps@[a] == before[a] && steps@[b] == before[b]);
                        }
                    };
                    assert forall|k: int| 0 <= k < steps@.len() implies exists|j: int| 0 <= j < i + 1 && #[trigger] steps@[k] == self.subclass@[j] by {
                        if k < steps@.len() - 1 {
                            assert(steps@[k] == before[k]);
                        } else {
                            assert(steps@[k] == self.subclass@[i as int]);
                        }
                    };
                }
            }
            i = i + 1;
        }
        assert(self.subclass@.subrange(0, i as int) =~= self.subclass@);
        steps
    }

    /// The unbanned natures recorded for an entity.
    pub(crate) fn seeds_of(&self, entity: u64) -> (r: Vec<u64>)
        ensures
            r@.to_set() == nature_seeds(self@, entity),
    {
        let (lo, hi) = self.nature_range(entity);
        let mut seeds: Vec<u64> = Vec::new();
        let mut i: usize = lo;
        while i < hi
            invariant
                lo <= i <= hi <= self.natures@.len(),
                forall|q: int| 0 <= q < lo ==> (#[trigger] self.natures@[q]).0 != entity,
                forall|q: int| hi <= q < self.natures@.len() ==> (#[trigger] self.natures@[q]).0 != entity,
                forall|n: u64|
                    seeds@.contains(n) <==> (exists|q: int| 0 <= q < i && #[trigger] self.natures@[q] == (entity, n))
                        && !self@.banned.contains(n),
            decreases hi - i,
        {
            let (e, n) = self.natures[i];
            if e == entity && !self.is_banned(n) {
                seeds.push(n);
            }
            i = i + 1;
        }
        proof {
            assert forall|n: u64| seeds@.to_set().contains(n) <==> nature_seeds(self@, entity).contains(n) by {
                if self.natures@.contains((entity, n)) {
                    let q = choose|q: int| 0 <= q < self.natures@.len() && self.natures@[q] == (entity, n);
                    assert(self.natures@[q].0 == entity);
                }
            };
            assert(seeds@.to_set() =~= nature_seeds(self@, entity));
        }
        seeds
    }

    /// A range of the type rows outside which no row belongs to `entity`.
    pub(crate) fn nature_range(&self, entity: u64) -> (r: (usize, usize))
        ensures
            r.0 <= r.1 <= self@.natures.len(),
            forall|q: int| 0 <= q < r.0 ==> (#[trigger] self@.natures[q]).0 != entity,
            forall|q: int| r.1 <= q < self@.natures.len() ==> (#[trigger] self@.natures[q]).0 != entity,
    {
        proof {
            use_type_invariant(self);
            let s = self.natures@;
            assert forall|i: int, j: int| 0 <= i < j < s.len() implies (#[trigger] s[i]).0 <= (#[trigger] s[j]).0 by {
                assert(crate::tables::pair_lt(s[i], s[j]));
            };
        }
        step_range(&self.natures, entity, true)
    }

    /// Every unbanned category that an entity belongs to, each once.
    pub fn ancestors(&self, entity: u64) -> (r: Vec<u64>)
        ensures
            r@.no_duplicates(),
            r@.to_set() == ancestor_set(self@, entity),
    {
        let seeds = self.seeds_of(entity);
        let steps = self.upward_steps();
        closure(&seeds, &steps, true)
    }
}

} // verus!
