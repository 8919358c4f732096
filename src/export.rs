//! The subgraph of one category: its nodes with their positions, and the
//! border edges between them.
use crate::closure::contains_id;
use crate::store::{descendant_set, row_texts, GraphStore, StoreContents};
use vstd::prelude::*;

verus! {

/// Whether the entity carries a nature within `cats`.
pub open spec fn has_nature_in(v: StoreContents, id: u64, cats: Set<u64>) -> bool {
    exists|n: u64| cats.contains(n) && #[trigger] v.natures.contains((id, n))
}

/// The node row of an entity of the category: its labels and its position
/// as `(longitude, latitude)`.
pub open spec fn node_of(v: StoreContents, cats: Set<u64>, e: (u64, Seq<char>, Seq<char>)) -> Option<
    (Seq<char>, Seq<char>, Seq<char>, Seq<char>),
> {
    match row_texts(v.positions, e.0) {
        Some(pos) => if has_nature_in(v, e.0, cats) {
            Some((e.1, e.2, pos.1, pos.0))
        } else {
            None
        },
        None => None,
    }
}

/// The nodes of category `category`: each entity with a position and with a
/// nature among the category's descendants, in increasing id order.
pub open spec fn category_node_rows(v: StoreContents, category: u64) -> Seq<
    (Seq<char>, Seq<char>, Seq<char>, Seq<char>),
> {
    v.entities.filter_map(|e: (u64, Seq<char>, Seq<char>)| node_of(v, descendant_set(v, category), e))
}

/// The edge row of an edge of the category: the positions of its ends as
/// `(longitude a, latitude a, longitude b, latitude b)`.
pub open spec fn edge_of(v: StoreContents, cats: Set<u64>, e: (u64, u64)) -> Option<
    (Seq<char>, Seq<char>, Seq<char>, Seq<char>),
> {
    match (row_texts(v.positions, e.0), row_texts(v.positions, e.1)) {
        (Some(pa), Some(pb)) => if has_nature_in(v, e.0, cats) && has_nature_in(v, e.1, cats) {
            Some((pa.1, pa.0, pb.1, pb.0))
        } else {
            None
        },
        _ => None,
    }
}

/// The edges of category `category`: each edge whose two ends have a
/// position and a nature among the category's descendants, in table order.
pub open spec fn category_edge_rows(v: StoreContents, category: u64) -> Seq<
    (Seq<char>, Seq<char>, Seq<char>, Seq<char>),
> {
    v.edges.filter_map(|e: (u64, u64)| edge_of(v, descendant_set(v, category), e))
}

/// The view of four texts.
pub open spec fn quad_view(r: (String, String, String, String)) -> (Seq<char>, Seq<char>, Seq<char>, Seq<char>) {
    (r.0@, r.1@, r.2@, r.3@)
}

/// Exporting a category is a function of the store's contents: two exports
/// of one category from one unchanged store give the same nodes and the same
/// edges, in the same order.
pub proof fn lemma_export_is_deterministic(
    v: StoreContents,
    category: u64,
    nodes1: Seq<(String, String, String, String)>,
    nodes2: Seq<(String, String, String, String)>,
    edges1: Seq<(String, String, String, String)>,
    edges2: Seq<(String, String, String, String)>,
)
    requires
        nodes1.map_values(|x: (String, String, String, String)| quad_view(x)) == category_node_rows(v, category),
        nodes2.map_values(|x: (String, String, String, String)| quad_view(x)) == category_node_rows(v, category),
        edges1.map_values(|x: (String, String, String, String)| quad_view(x)) == category_edge_rows(v, category),
        edges2.map_values(|x: (String, String, String, String)| quad_view(x)) == category_edge_rows(v, category),
    ensures
        nodes1.map_values(|x: (String, String, String, String)| quad_view(x)) == nodes2.map_values(
            |x: (String, String, String, String)| quad_view(x),
        ),
        edges1.map_values(|x: (String, String, String, String)| quad_view(x)) == edges2.map_values(
            |x: (String, String, String, String)| quad_view(x),
        ),
{
}

impl GraphStore {
    /// Whether the entity carries a nature listed in `cats`.
    fn has_nature_among(&self, id: u64, cats: &Vec<u64>) -> (r: bool)
        ensures
            r == has_nature_in(self@, id, cats@.to_set()),
    {
        let natures = self.nature_list();
        let (lo, hi) = self.nature_range(id);
        let mut i: usize = lo;
        while i < hi
            invariant
                natures@ == self@.natures,
                lo <= i <= hi <= natures@.len(),
                forall|q: int| 0 <= q < lo ==> (#[trigger] natures@[q]).0 != id,
                forall|q: int| hi <= q < natures@.len() ==> (#[trigger] natures@[q]).0 != id,
                forall|j: int| 0 <= j < i ==> !(natures@[j].0 == id && cats@.contains(#[trigger] natures@[j].1)),
            decreases hi - i,
        {
            let (e, n) = natures[i];
            if e == id && contains_id(cats, n) {
                proof {
                    assert(self@.natures.contains((id, n)));
                    assert(cats@.to_set().contains(n));
                }
                return true;
            }
            i = i + 1;
        }
        proof {
            if has_nature_in(self@, id, cats@.to_set()) {
                let n = choose|n: u64| cats@.to_set().contains(n) && #[trigger] self@.natures.contains((id, n));
                let j = choose|j: int| 0 <= j < natures@.len() && natures@[j] == (id, n);
                assert(natures@[j].0 == id);
                assert(cats@.contains(natures@[j].1));
            }
        }
        false
    }

    /// The nodes of a category, in increasing id order: labels (english,
    /// french) and position (longitude, latitude).
    pub fn category_nodes(&self, category: u64) -> (r: Vec<(String, String, String, String)>)
        ensures
            r@.map_values(|x: (String, String, String, String)| quad_view(x)) == category_node_rows(self@, category),
    {
        let ghost v = self@;
        let cats = self.descendants(category);
        let ghost f = |e: (u64, Seq<char>, Seq<char>)| node_of(v, descendant_set(v, category), e);
        let entities = self.entity_list();
        let mut out: Vec<(String, String, String, String)> = Vec::new();
        let mut i: usize = 0;
        while i < entities.len()
            invariant
                v == self@,
                cats@.to_set() == descendant_set(v, category),
                f == (|e: (u64, Seq<char>, Seq<char>)| node_of(v, descendant_set(v, category), e)),
                crate::tables::rows_view(entities@) == v.entities,
                i <= entities@.len(),
                out@.map_values(|x: (String, String, String, String)| quad_view(x)) == v.entities.take(i as int).filter_map(f),
            decreases entities@.len() - i,
        {
            proof {
                v.entities.lemma_filter_map_take_succ(f, i as int);
            }
            let id = entities[i].0;
            let ghost e = v.entities[i as int];
            assert(e == (id, entities@[i as int].1@, entities@[i as int].2@));
            let ghost before = out@;
            match self.position(id) {
                Some(pos) => {
                    if self.has_nature_among(id, &cats) {
                        out.push((entities[i].1.clone(), entities[i].2.clone(), pos.1, pos.0));
                        assert(out@.map_values(|x: (String, String, String, String)| quad_view(x)) =~= before.map_values(
                            |x: (String, String, String, String)| quad_view(x),
                        ).push(f(e).unwrap()));
                    }
                },
                None => {},
            }
            i = i + 1;
        }
        assert(v.entities.take(i as int) =~= v.entities);
        out
    }

    /// The edges of a category, in table order: the positions of the two
    /// ends (longitude, latitude, longitude, latitude).
    pub fn category_edges(&self, category: u64) -> (r: Vec<(String, String, String, String)>)
        ensures
            r@.map_values(|x: (String, String, String, String)| quad_view(x)) == category_edge_rows(self@, category),
    {
        let ghost v = self@;
        let cats = self.descendants(category);
        let ghost f = |e: (u64, u64)| edge_of(v, descendant_set(v, category), e);
        let edges = self.edge_list();
        let mut out: Vec<(String, String, String, String)> = Vec::new();
        let mut i: usize = 0;
        while i < edges.len()
            invariant
                v == self@,
                cats@.to_set() == descendant_set(v, category),
                f == (|e: (u64, u64)| edge_of(v, descendant_set(v, category), e)),
                edges@ == v.edges,
                i <= edges@.len(),
                out@.map_values(|x: (String, String, String, String)| quad_view(x)) == v.edges.take(i as int).filter_map(f),
            decreases edges@.len() - i,
        {
            proof {
                v.edges.lemma_filter_map_take_succ(f, i as int);
            }
            let (a, b) = edges[i];
            let ghost before = out@;
            match (self.position(a), self.position(b)) {
                (Some(pa), Some(pb)) => {
                    if self.has_nature_among(a, &cats) && self.has_nature_among(b, &cats) {
                        out.push((pa.1, pa.0, pb.1, pb.0));
                        assert(out@.map_values(|x: (String, String, String, String)| quad_view(x)) =~= before.map_values(
                            |x: (String, String, String, String)| quad_view(x),
                        ).push(f((a, b)).unwrap()));
                    }
                },
                _ => {},
            }
            i = i + 1;
        }
        assert(v.edges.take(i as int) =~= v.edges);
        out
    }
}

} // verus!
