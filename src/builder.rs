//! Writing a record's facts into the store.
use crate::facts::{
    claim_list, first_coordinate, hierarchy_facts, nature_set, neighbour_ids, node_error,
    node_facts, parent_ids, HierarchyFacts, NodeFacts, RecordError,
};
use crate::ids::{entity_number, int_id};
use crate::record::{
    claims_of, display_names, names, names_q, service_names, Element, POSITION_CLAIM,
    SUBCLASS_OF_CLAIM,
};
use crate::store::{GraphStore, StoreContents};
use crate::tables::{canonical, has_key};
use vstd::prelude::*;

verus! {

broadcast use vstd::seq_lib::lemma_seq_contains_after_push;

/// The type rows of entity `id`.
pub open spec fn nature_rows(id: u64, natures: Set<u64>) -> Set<(u64, u64)> {
    Set::new(|p: (u64, u64)| p.0 == id && natures.contains(p.1))
}

/// The border edges between entity `id` and each of `neighbours`.
pub open spec fn edge_rows(id: u64, neighbours: Seq<u64>) -> Set<(u64, u64)> {
    Set::new(|p: (u64, u64)| exists|k: int| 0 <= k < neighbours.len() && p == canonical(id, #[trigger] neighbours[k]))
}

/// The hierarchy rows from type `id` to each of `parents`.
pub open spec fn parent_rows(id: u64, parents: Seq<u64>) -> Set<(u64, u64)> {
    Set::new(|p: (u64, u64)| p.0 == id && parents.contains(p.1))
}

/// The rows of a place are added: its label row, its position unless one was
/// recorded, a type row per type and an edge per neighbour; nothing else
/// changes.
pub open spec fn node_added(
    before: StoreContents,
    after: StoreContents,
    id: u64,
    names: (Seq<char>, Seq<char>),
    position: (Seq<char>, Seq<char>),
    natures: Set<u64>,
    neighbours: Seq<u64>,
) -> bool {
    &&& after.entities.to_set() == before.entities.to_set().insert((id, names.0, names.1))
    &&& after.positions.to_set() == (if has_key(before.positions, id) {
        before.positions.to_set()
    } else {
        before.positions.to_set().insert((id, position.0, position.1))
    })
    &&& after.natures.to_set() == before.natures.to_set().union(nature_rows(id, natures))
    &&& after.edges.to_set() == before.edges.to_set().union(edge_rows(id, neighbours))
    &&& after.subclass == before.subclass
    &&& after.banned == before.banned
}

/// A hierarchy row per parent of type `id` is added; nothing else changes.
pub open spec fn hierarchy_added(before: StoreContents, after: StoreContents, id: u64, parents: Seq<u64>) -> bool {
    &&& after.subclass.to_set() == before.subclass.to_set().union(parent_rows(id, parents))
    &&& after.entities == before.entities
    &&& after.positions == before.positions
    &&& after.natures == before.natures
    &&& after.edges == before.edges
    &&& after.banned == before.banned
}

/// The label row of a record is added unless its id has one; nothing else
/// changes. `written` tells whether it was added.
pub open spec fn base_written(before: StoreContents, after: StoreContents, el: Element, written: bool) -> bool {
    let names = display_names(el.labels@);
    &&& written == !has_key(before.entities, record_id(el))
    &&& !written ==> after == before
    &&& written ==> after.entities.to_set() == before.entities.to_set().insert(
        (record_id(el), names.0, names.1),
    )
    &&& after == (StoreContents { entities: after.entities, ..before })
}

/// The number that a record's id decodes to (zero where it does not).
pub open spec fn record_id(el: Element) -> u64 {
    match entity_number(el.id@) {
        Ok(n) => n,
        Err(_) => 0,
    }
}

/// How a readable place record changes the store: where it has coordinates
/// and a new id, its rows are added; otherwise nothing changes.
pub open spec fn node_written(before: StoreContents, after: StoreContents, el: Element, written: bool) -> bool {
    let coordinate = first_coordinate(claim_list(el, POSITION_CLAIM@));
    &&& written == (coordinate is Some && !has_key(before.entities, record_id(el)))
    &&& !written ==> after == before
    &&& written ==> node_added(
        before,
        after,
        record_id(el),
        display_names(el.labels@),
        coordinate->Some_0,
        nature_set(el),
        neighbour_ids(el),
    )
}

/// How a readable type record changes the store: its label row is added
/// unless its id has one (`written` tells which), and a hierarchy row per
/// unbanned parent is added either way.
pub open spec fn hierarchy_written(
    before: StoreContents,
    after: StoreContents,
    el: Element,
    banned_parents: Seq<u64>,
    written: bool,
) -> bool {
    let names = display_names(el.labels@);
    &&& written == !has_key(before.entities, record_id(el))
    &&& after.entities.to_set() == (if written {
        before.entities.to_set().insert((record_id(el), names.0, names.1))
    } else {
        before.entities.to_set()
    })
    &&& after.subclass.to_set() == before.subclass.to_set().union(
        parent_rows(record_id(el), parent_ids(el, banned_parents)),
    )
    &&& after.positions == before.positions
    &&& after.natures == before.natures
    &&& after.edges == before.edges
    &&& after.banned == before.banned
}

impl GraphStore {
    /// Writes the facts of a place, unless its id already has a label row;
    /// returns whether they were written.
    pub fn insert_node(&mut self, f: &NodeFacts) -> (added: bool)
        ensures
            final(self)@.wf(),
            added == !has_key(old(self)@.entities, f.id),
            !added ==> final(self)@ == old(self)@,
            added ==> node_added(
                old(self)@,
                final(self)@,
                f.id,
                (f.name_en@, f.name_fr@),
                (f.lat@, f.lon@),
                f.natures@.to_set(),
                f.neighbours@,
            ),
    {
        let ghost start = self@;
        if !self.insert_entity(f.id, f.name_en.clone(), f.name_fr.clone()) {
            return false;
        }
        let ghost after_entity = self@;
        self.insert_position(f.id, f.lat.clone(), f.lon.clone());
        let ghost after_pos = self@;
        let mut i: usize = 0;
        while i < f.natures.len()
            invariant
                i <= f.natures@.len(),
                self@.wf(),
                self@ == (StoreContents { natures: self@.natures, ..after_pos }),
                self@.natures.to_set() == start.natures.to_set().union(
                    Set::new(|p: (u64, u64)| p.0 == f.id && f.natures@.take(i as int).contains(p.1)),
                ),
            decreases f.natures@.len() - i,
        {
            let n = f.natures[i];
            let ghost before = self@.natures.to_set();
            self.insert_nature(f.id, n);
            proof {
                assert(f.natures@.take(i + 1) =~= f.natures@.take(i as int).push(n));
                assert forall|x: u64| f.natures@.take(i + 1).contains(x) <==> f.natures@.take(i as int).contains(x) || x == n by {
                    assert(f.natures@.take(i as int).push(n).contains(x) <==> f.natures@.take(i as int).contains(x) || x == n);
                };
                assert(self@.natures.to_set() =~= start.natures.to_set().union(
                    Set::new(|p: (u64, u64)| p.0 == f.id && f.natures@.take(i + 1).contains(p.1)),
                ));
            }
            i = i + 1;
        }
        assert(f.natures@.take(i as int) =~= f.natures@);
        let ghost after_natures = self@;
        let mut j: usize = 0;
        while j < f.neighbours.len()
            invariant
                j <= f.neighbours@.len(),
                self@.wf(),
                self@ == (StoreContents { edges: self@.edges, ..after_natures }),
                self@.edges.to_set() == start.edges.to_set().union(
                    Set::new(|p: (u64, u64)| exists|k: int| 0 <= k < j && p == canonical(f.id, #[trigger] f.neighbours@[k])),
                ),
            decreases f.neighbours@.len() - j,
        {
            let n = f.neighbours[j];
            self.insert_edge(f.id, n);
            proof {
                assert(self@.edges.to_set() =~= start.edges.to_set().union(
                    Set::new(|p: (u64, u64)| exists|k: int| 0 <= k < j + 1 && p == canonical(f.id, #[trigger] f.neighbours@[k])),
                )) by {
                    assert(f.neighbours@[j as int] == n);
                };
            }
            j = j + 1;
        }
        proof {
            assert(self@.natures.to_set() =~= start.natures.to_set().union(nature_rows(f.id, f.natures@.to_set())));
            assert(self@.edges.to_set() =~= start.edges.to_set().union(edge_rows(f.id, f.neighbours@)));
        }
        true
    }

    /// Writes a hierarchy row for each parent of a type.
    pub fn insert_hierarchy(&mut self, f: &HierarchyFacts)
        ensures
            final(self)@.wf(),
            hierarchy_added(old(self)@, final(self)@, f.id, f.parents@),
    {
        let ghost start = self@;
        let mut i: usize = 0;
        assert(start.subclass.to_set() =~= start.subclass.to_set().union(parent_rows(f.id, f.parents@.take(0))));
        self.establish_wf();
        while i < f.parents.len()
            invariant
                i <= f.parents@.len(),
                self@.wf(),
                self@ == (StoreContents { subclass: self@.subclass, ..start }),
                self@.subclass.to_set() == start.subclass.to_set().union(parent_rows(f.id, f.parents@.take(i as int))),
            decreases f.parents@.len() - i,
        {
            let p = f.parents[i];
            self.insert_subtype(f.id, p);
            proof {
                assert(f.parents@.take(i + 1) =~= f.parents@.take(i as int).push(p));
                assert forall|x: u64| f.parents@.take(i + 1).contains(x) <==> f.parents@.take(i as int).contains(x) || x == p by {
                    assert(f.parents@.take(i as int).push(p).contains(x) <==> f.parents@.take(i as int).contains(x) || x == p);
                };
                assert(self@.subclass.to_set() =~= start.subclass.to_set().union(parent_rows(f.id, f.parents@.take(i + 1))));
            }
            i = i + 1;
        }
        assert(f.parents@.take(i as int) =~= f.parents@);
    }

    /// Keeps the labels that the label service gave for a category whose id
    /// had no label row, and returns them: the english (or language-neutral)
    /// and french names of the answer.
    pub fn record_fetched_names(&mut self, id: u64, labels: &Vec<(String, String)>) -> (r: (String, String))
        ensures
            (r.0@, r.1@) == service_names(labels@),
            final(self)@.wf(),
            !has_key(old(self)@.entities, id) ==> final(self)@.entities.to_set() == old(self)@.entities.to_set().insert(
                (id, r.0@, r.1@),
            ),
            has_key(old(self)@.entities, id) ==> final(self)@ == old(self)@,
            final(self)@ == (StoreContents { entities: final(self)@.entities, ..old(self)@ }),
    {
        let (en, fr) = names_q(labels);
        self.insert_entity(id, en.clone(), fr.clone());
        (en, fr)
    }

    /// Writes a place record: an error where its facts cannot be read (the
    /// store is then unchanged); `false` where it has no coordinates or its
    /// id already has a label row (unchanged too); else `true`, its rows
    /// added.
    pub fn insert(&mut self, el: &Element) -> (r: Result<bool, RecordError>)
        ensures
            final(self)@.wf(),
            match r {
                Err(e) => node_error(*el) == Some(e) && final(self)@ == old(self)@,
                Ok(written) => node_error(*el) is None && node_written(old(self)@, final(self)@, *el, written),
            },
    {
        self.establish_wf();
        match node_facts(el) {
            Err(e) => Err(e),
            Ok(None) => Ok(false),
            Ok(Some(f)) => Ok(self.insert_node(&f)),
        }
    }

    /// Writes the label row of a record (english or language-neutral name,
    /// french name) unless its id already has one: an error where the id does
    /// not decode (the store is then unchanged), else whether the row was
    /// added.
    pub fn insert_base(&mut self, el: &Element) -> (r: Result<bool, RecordError>)
        ensures
            final(self)@.wf(),
            match r {
                Err(e) => entity_number(el.id@) matches Err(x) && e == RecordError::BadId(x) && final(self)@
                    == old(self)@,
                Ok(written) => entity_number(el.id@) is Ok && base_written(old(self)@, final(self)@, *el, written),
            },
    {
        self.establish_wf();
        let id = match int_id(el.id.as_str()) {
            Ok(n) => n,
            Err(e) => {
                return Err(RecordError::BadId(e));
            },
        };
        let (en, fr) = names(&el.labels);
        Ok(self.insert_entity(id, en, fr))
    }

    /// Writes the hierarchy rows of a record that carries subtype claims: one
    /// per valid claim naming an unbanned parent. An error where the record's
    /// id does not decode; the store is then unchanged. The label row is not
    /// written here (see `insert_base`).
    pub fn insert_subclass(&mut self, el: &Element, banned_parents: &Vec<u64>) -> (r: Result<(), RecordError>)
        requires
            claims_of(*el, SUBCLASS_OF_CLAIM@) is Some,
        ensures
            final(self)@.wf(),
            match r {
                Err(e) => entity_number(el.id@) matches Err(x) && e == RecordError::BadId(x) && final(self)@
                    == old(self)@,
                Ok(()) => hierarchy_added(old(self)@, final(self)@, record_id(*el), parent_ids(*el, banned_parents@)),
            },
    {
        self.establish_wf();
        match hierarchy_facts(el, banned_parents) {
            Err(e) => Err(e),
            Ok(f) => {
                self.insert_hierarchy(&f);
                Ok(())
            },
        }
    }
}

} // verus!
