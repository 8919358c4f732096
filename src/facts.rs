//! What a record contributes to the graph: for a place, its labels,
//! position, natures and border edges; for a type, its parent types.
use crate::closure::contains_id;
use crate::ids::{entity_number, int_id, IdError};
use crate::record::{
    claims_of, display_names, find_entry, lookup, names, Claim, Element, Snak, NATURE_CLAIM,
    POSITION_CLAIM, SHARES_BORDER_WITH_CLAIM, SUBCLASS_OF_CLAIM, SUBJECT_ROLE_CLAIM,
};
use crate::validity::{claim_still_valid, claim_valid};
use vstd::prelude::*;

verus! {

broadcast use vstd::seq_lib::lemma_seq_contains_after_push;

/// Why a record cannot be turned into graph facts.
#[derive(Debug, Clone, Copy, PartialEq, Eq, Structural)]
pub enum RecordError {
    /// The record's own id does not decode.
    BadId(IdError),
    /// A claim kind that the extraction needs is absent.
    MissingClaim,
    /// A valid type claim does not name an entity with a decodable id.
    BadNature,
}

impl RecordError {
    /// Whether the error ends an import: a record whose own id or whose type
    /// claims do not decode is malformed input; a record that lacks a claim
    /// kind is only left out.
    pub fn is_fatal(&self) -> (r: bool)
        ensures
            r == !(*self matches RecordError::MissingClaim),
    {
        match self {
            RecordError::MissingClaim => false,
            _ => true,
        }
    }
}

/// The number of the entity that a value refers to, if it refers to one with
/// a decodable id.
pub open spec fn item_number(s: Snak) -> Option<u64> {
    match s {
        Snak::Item { id } => match entity_number(id@) {
            Ok(n) => Some(n),
            Err(_) => None,
        },
        _ => None,
    }
}

/// The number of the entity that a value refers to, if any.
pub fn item_id(s: &Snak) -> (r: Option<u64>)
    ensures
        r == item_number(*s),
{
    match s {
        Snak::Item { id } => match int_id(id.as_str()) {
            Ok(n) => Some(n),
            Err(_) => None,
        },
        _ => None,
    }
}

/// The role qualifiers of a claim.
pub open spec fn role_snaks(c: Claim) -> Seq<Snak> {
    match c.qualifiers {
        Some(qs) => match lookup(qs@, SUBJECT_ROLE_CLAIM@) {
            Some(v) => v@,
            None => Seq::<Snak>::empty(),
        },
        None => Seq::<Snak>::empty(),
    }
}

/// The types that a type claim asserts: the main type, then each role
/// sub-type with a decodable id.
pub open spec fn claim_types(c: Claim) -> Option<Seq<u64>> {
    match item_number(c.mainsnak) {
        Some(main) => Some(seq![main] + role_snaks(c).filter_map(|s: Snak| item_number(s))),
        None => None,
    }
}

/// The entity ids among a list of values, in order, those without one left out.
fn item_ids(snaks: &Vec<Snak>) -> (r: Vec<u64>)
    ensures
        r@ == snaks@.filter_map(|s: Snak| item_number(s)),
{
    let ghost f = |s: Snak| item_number(s);
    let mut r: Vec<u64> = Vec::new();
    let mut i: usize = 0;
    while i < snaks.len()
        invariant
            f == (|s: Snak| item_number(s)),
            i <= snaks@.len(),
            r@ == snaks@.take(i as int).filter_map(f),
        decreases snaks@.len() - i,
    {
        proof {
            snaks@.lemma_filter_map_take_succ(f, i as int);
        }
        match item_id(&snaks[i]) {
            Some(n) => {
                r.push(n);
            },
            None => {},
        }
        i = i + 1;
    }
    assert(snaks@.take(i as int) =~= snaks@);
    r
}

/// Whether a type claim asserts type `n`.
pub open spec fn asserts_type(c: Claim, n: u64) -> bool {
    match claim_types(c) {
        Some(t) => t.contains(n),
        None => false,
    }
}

/// The types that a type claim asserts; its main value must name an entity
/// with a decodable id.
pub fn claim_and_roles(claim: &Claim) -> (r: Vec<u64>)
    requires
        item_number(claim.mainsnak) is Some,
    ensures
        claim_types(*claim) == Some(r@),
{
    let main = match item_id(&claim.mainsnak) {
        Some(n) => n,
        None => {
            return Vec::new();
        },
    };
    let mut out: Vec<u64> = vec![main];
    let roles: Vec<u64> = match &claim.qualifiers {
        Some(qs) => match find_entry(qs, SUBJECT_ROLE_CLAIM) {
            Some(i) => item_ids(&qs[i].1),
            None => {
                assert(Seq::<Snak>::empty().filter_map(|s: Snak| item_number(s)) =~= Seq::<u64>::empty());
                Vec::new()
            },
        },
        None => {
            assert(Seq::<Snak>::empty().filter_map(|s: Snak| item_number(s)) =~= Seq::<u64>::empty());
            Vec::new()
        },
    };
    let ghost expected = seq![main] + roles@;
    let mut j: usize = 0;
    while j < roles.len()
        invariant
            j <= roles@.len(),
            out@ == seq![main] + roles@.take(j as int),
        decreases roles@.len() - j,
    {
        out.push(roles[j]);
        j = j + 1;
        assert(out@ =~= seq![main] + roles@.take(j as int));
    }
    assert(roles@.take(j as int) =~= roles@);
    out
}

/// The claims of a kind, as a sequence (empty where the record has none).
pub open spec fn claim_list(el: Element, kind: Seq<char>) -> Seq<Claim> {
    match claims_of(el, kind) {
        Some(v) => v@,
        None => Seq::<Claim>::empty(),
    }
}

/// The type claims of a record that still hold.
pub open spec fn valid_nature_claims(el: Element) -> Seq<Claim> {
    claim_list(el, NATURE_CLAIM@).filter(|c: Claim| claim_valid(c))
}

/// Every valid type claim names an entity with a decodable id.
pub open spec fn natures_decode(el: Element) -> bool {
    forall|i: int| 0 <= i < valid_nature_claims(el).len() ==> (#[trigger] claim_types(valid_nature_claims(el)[i])) is Some
}

/// The types of a record: those of its valid type claims, roles included.
pub open spec fn nature_set(el: Element) -> Set<u64> {
    Set::new(
        |n: u64|
            exists|i: int|
                0 <= i < valid_nature_claims(el).len() && #[trigger] asserts_type(valid_nature_claims(el)[i], n),
    )
}

/// The coordinates, as `(latitude, longitude)` text, of the first claim that
/// gives a point on the globe.
pub open spec fn first_coordinate(claims: Seq<Claim>) -> Option<(Seq<char>, Seq<char>)>
    decreases claims.len(),
{
    if claims.len() == 0 {
        None
    } else {
        match claims[0].mainsnak {
            Snak::GlobeCoordinate { latitude, longitude } => Some((latitude@, longitude@)),
            _ => first_coordinate(claims.drop_first()),
        }
    }
}

/// The entities that a record says it shares a border with, in claim order,
/// those without a decodable id left out.
pub open spec fn neighbour_ids(el: Element) -> Seq<u64> {
    claim_list(el, SHARES_BORDER_WITH_CLAIM@).filter_map(|c: Claim| item_number(c.mainsnak))
}

/// Why a place record gives no facts, if it does not.
pub open spec fn node_error(el: Element) -> Option<RecordError> {
    match entity_number(el.id@) {
        Err(e) => Some(RecordError::BadId(e)),
        Ok(_) => if claims_of(el, NATURE_CLAIM@) is None || claims_of(el, POSITION_CLAIM@) is None
            || claims_of(el, SHARES_BORDER_WITH_CLAIM@) is None {
            Some(RecordError::MissingClaim)
        } else if !natures_decode(el) {
            Some(RecordError::BadNature)
        } else {
            None
        },
    }
}

/// What a place record contributes.
#[derive(Debug, Clone)]
pub struct NodeFacts {
    pub id: u64,
    pub name_en: String,
    pub name_fr: String,
    pub lat: String,
    pub lon: String,
    /// Its types, each once.
    pub natures: Vec<u64>,
    /// The entities it shares a border with, in claim order.
    pub neighbours: Vec<u64>,
}

/// The record's place facts hold the record's id, labels, first coordinates,
/// types and neighbours.
pub open spec fn node_facts_of(el: Element, f: NodeFacts) -> bool {
    &&& entity_number(el.id@) == Ok::<u64, IdError>(f.id)
    &&& (f.name_en@, f.name_fr@) == display_names(el.labels@)
    &&& first_coordinate(claim_list(el, POSITION_CLAIM@)) == Some((f.lat@, f.lon@))
    &&& f.natures@.no_duplicates()
    &&& f.natures@.to_set() == nature_set(el)
    &&& f.neighbours@ == neighbour_ids(el)
}

/// The first claim that gives a point on the globe.
fn first_coordinate_of(claims: &Vec<Claim>) -> (r: Option<(String, String)>)
    ensures
        match r {
            Some(p) => first_coordinate(claims@) == Some((p.0@, p.1@)),
            None => first_coordinate(claims@) is None,
        },
{
    let mut i: usize = 0;
    assert(claims@.subrange(0, claims@.len() as int) =~= claims@);
    while i < claims.len()
        invariant
            i <= claims@.len(),
            first_coordinate(claims@) == first_coordinate(claims@.subrange(i as int, claims@.len() as int)),
        decreases claims@.len() - i,
    {
        let ghost rest = claims@.subrange(i as int, claims@.len() as int);
        assert(rest[0] == claims@[i as int]);
        match &claims[i].mainsnak {
            Snak::GlobeCoordinate { latitude, longitude } => {
                return Some((latitude.clone(), longitude.clone()));
            },
            _ => {},
        }
        assert(rest.drop_first() =~= claims@.subrange(i + 1, claims@.len() as int));
        i = i + 1;
    }
    None
}

/// The neighbour ids of border claims, in order.
fn border_ids(claims: &Vec<Claim>) -> (r: Vec<u64>)
    ensures
        r@ == claims@.filter_map(|c: Claim| item_number(c.mainsnak)),
{
    let ghost f = |c: Claim| item_number(c.mainsnak);
    let mut r: Vec<u64> = Vec::new();
    let mut i: usize = 0;
    while i < claims.len()
        invariant
            f == (|c: Claim| item_number(c.mainsnak)),
            i <= claims@.len(),
            r@ == claims@.take(i as int).filter_map(f),
        decreases claims@.len() - i,
    {
        proof {
            claims@.lemma_filter_map_take_succ(f, i as int);
        }
        match item_id(&claims[i].mainsnak) {
            Some(n) => {
                r.push(n);
            },
            None => {},
        }
        i = i + 1;
    }
    assert(claims@.take(i as int) =~= claims@);
    r
}

/// Appends each id of `ids` that `out` does not hold yet.
fn add_missing(out: &mut Vec<u64>, ids: &Vec<u64>)
    requires
        old(out)@.no_duplicates(),
    ensures
        final(out)@.no_duplicates(),
        forall|x: u64| final(out)@.contains(x) <==> old(out)@.contains(x) || ids@.contains(x),
{
    let mut j: usize = 0;
    while j < ids.len()
        invariant
            j <= ids@.len(),
            out@.no_duplicates(),
            forall|x: u64| out@.contains(x) <==> old(out)@.contains(x) || ids@.take(j as int).contains(x),
        decreases ids@.len() - j,
    {
        let n = ids[j];
        assert(ids@.take(j + 1) =~= ids@.take(j as int).push(n));
        if !contains_id(out, n) {
            out.push(n);
        }
        j = j + 1;
    }
    assert(ids@.take(j as int) =~= ids@);
}

/// The types of the valid claims of a list, each once; nothing where a valid
/// claim's main value does not decode.
fn nature_ids(claims: &Vec<Claim>) -> (r: Option<Vec<u64>>)
    ensures
        ({
            let valid = claims@.filter(|c: Claim| claim_valid(c));
            match r {
                Some(v) => {
                    &&& forall|i: int| 0 <= i < valid.len() ==> (#[trigger] claim_types(valid[i])) is Some
                    &&& v@.no_duplicates()
                    &&& forall|n: u64|
                        v@.contains(n) <==> exists|i: int|
                            0 <= i < valid.len() && #[trigger] asserts_type(valid[i], n)
                },
                None => exists|i: int| 0 <= i < valid.len() && (#[trigger] claim_types(valid[i])) is None,
            }
        }),
{
    let ghost pred = |c: Claim| claim_valid(c);
    let mut out: Vec<u64> = Vec::new();
    let mut i: usize = 0;
    while i < claims.len()
        invariant
            pred == (|c: Claim| claim_valid(c)),
            i <= claims@.len(),
            out@.no_duplicates(),
            ({
                let valid = claims@.take(i as int).filter(pred);
                &&& forall|k: int| 0 <= k < valid.len() ==> (#[trigger] claim_types(valid[k])) is Some
                &&& forall|n: u64|
                    out@.contains(n) <==> exists|k: int|
                        0 <= k < valid.len() && #[trigger] asserts_type(valid[k], n)
            }),
        decreases claims@.len() - i,
    {
        let ghost pre = claims@.take(i as int);
        let ghost c = claims@[i as int];
        proof {
            assert(claims@.take(i + 1) =~= pre.push(c));
            pre.lemma_filter_push(c, pred);
        }
        if claim_still_valid(&claims[i]) {
            let ghost valid = pre.filter(pred).push(c);
            match item_id(&claims[i].mainsnak) {
                None => {
                    proof {
                        assert(item_number(c.mainsnak) is None);
                        assert(claim_types(c) is None);
                        assert(valid[valid.len() - 1] == c);
                        assert(claims@.take(claims@.len() as int) =~= claims@);
                        lemma_filter_prefix_contains(claims@, pred, i as int);
                    }
                    return None;
                },
                Some(_) => {
                    let types = claim_and_roles(&claims[i]);
                    let ghost before = out@;
                    add_missing(&mut out, &types);
                    proof {
                        let k_last = valid.len() - 1;
                        assert(valid[k_last] == c);
                        assert forall|k: int| 0 <= k < valid.len() implies (#[trigger] claim_types(valid[k])) is Some by {
                            if k < k_last {
                                assert(valid[k] == pre.filter(pred)[k]);
                            }
                        };
                        assert forall|n: u64| out@.contains(n) <==> exists|k: int|
                            0 <= k < valid.len() && #[trigger] asserts_type(valid[k], n) by {
                            if before.contains(n) {
                                let k = choose|k: int|
                                    0 <= k < pre.filter(pred).len() && #[trigger] asserts_type(pre.filter(pred)[k], n);
                                assert(valid[k] == pre.filter(pred)[k]);
                                assert(asserts_type(valid[k], n));
                            }
                            if types@.contains(n) {
                                assert(claim_types(valid[k_last]) == Some(types@));
                                assert(asserts_type(valid[k_last], n));
                            }
                            if exists|k: int| 0 <= k < valid.len() && #[trigger] asserts_type(valid[k], n) {
                                let k = choose|k: int| 0 <= k < valid.len() && #[trigger] asserts_type(valid[k], n);
                                if k < k_last {
                                    assert(valid[k] == pre.filter(pred)[k]);
                                }
                            }
                        };
                    }
                },
            }
        }
        i = i + 1;
    }
    assert(claims@.take(i as int) =~= claims@);
    Some(out)
}

/// The facts of a place record: an error where the record's id does not
/// decode, a needed claim kind is absent, or a valid type claim does not
/// decode; nothing where no claim gives coordinates (the record is dropped);
/// else its id, labels, first coordinates, types and neighbours.
pub fn node_facts(el: &Element) -> (r: Result<Option<NodeFacts>, RecordError>)
    ensures
        match r {
            Err(e) => node_error(*el) == Some(e),
            Ok(None) => node_error(*el) is None && first_coordinate(claim_list(*el, POSITION_CLAIM@)) is None,
            Ok(Some(f)) => node_error(*el) is None && node_facts_of(*el, f),
        },
{
    let id = match int_id(el.id.as_str()) {
        Ok(n) => n,
        Err(e) => {
            return Err(RecordError::BadId(e));
        },
    };
    let nature_at = find_entry(&el.claims, NATURE_CLAIM);
    let position_at = find_entry(&el.claims, POSITION_CLAIM);
    let border_at = find_entry(&el.claims, SHARES_BORDER_WITH_CLAIM);
    let (ni, pi, bi) = match (nature_at, position_at, border_at) {
        (Some(ni), Some(pi), Some(bi)) => (ni, pi, bi),
        _ => {
            return Err(RecordError::MissingClaim);
        },
    };
    let natures = match nature_ids(&el.claims[ni].1) {
        Some(v) => v,
        None => {
            return Err(RecordError::BadNature);
        },
    };
    let (lat, lon) = match first_coordinate_of(&el.claims[pi].1) {
        Some(p) => p,
        None => {
            return Ok(None);
        },
    };
    let neighbours = border_ids(&el.claims[bi].1);
    let (name_en, name_fr) = names(&el.labels);
    let f = NodeFacts { id, name_en, name_fr, lat, lon, natures, neighbours };
    proof {
        assert(nature_set(*el) =~= f.natures@.to_set());
    }
    Ok(Some(f))
}

/// The parent that a subtype claim contributes: the entity it names, where
/// the claim still holds, the id decodes, and the parent is not banned.
pub open spec fn parent_of(c: Claim, banned_parents: Seq<u64>) -> Option<u64> {
    if claim_valid(c) {
        match item_number(c.mainsnak) {
            Some(p) => if banned_parents.contains(p) {
                None
            } else {
                Some(p)
            },
            None => None,
        }
    } else {
        None
    }
}

/// The parents of a type record, in claim order.
pub open spec fn parent_ids(el: Element, banned_parents: Seq<u64>) -> Seq<u64> {
    claim_list(el, SUBCLASS_OF_CLAIM@).filter_map(|c: Claim| parent_of(c, banned_parents))
}

/// What a type record contributes.
#[derive(Debug, Clone)]
pub struct HierarchyFacts {
    pub id: u64,
    /// Its parent types, in claim order.
    pub parents: Vec<u64>,
}

/// The facts of a type record, which must carry subtype claims: an error
/// where its id does not decode; else its id and parent types.
pub fn hierarchy_facts(el: &Element, banned_parents: &Vec<u64>) -> (r: Result<HierarchyFacts, RecordError>)
    requires
        claims_of(*el, SUBCLASS_OF_CLAIM@) is Some,
    ensures
        match r {
            Err(e) => entity_number(el.id@) matches Err(x) && e == RecordError::BadId(x),
            Ok(f) => {
                &&& entity_number(el.id@) == Ok::<u64, IdError>(f.id)
                &&& f.parents@ == parent_ids(*el, banned_parents@)
            },
        },
{
    let id = match int_id(el.id.as_str()) {
        Ok(n) => n,
        Err(e) => {
            return Err(RecordError::BadId(e));
        },
    };
    let claims = match find_entry(&el.claims, SUBCLASS_OF_CLAIM) {
        Some(i) => &el.claims[i].1,
        None => {
            return Ok(HierarchyFacts { id, parents: Vec::new() });
        },
    };
    let ghost f = |c: Claim| parent_of(c, banned_parents@);
    let mut parents: Vec<u64> = Vec::new();
    let mut i: usize = 0;
    while i < claims.len()
        invariant
            f == (|c: Claim| parent_of(c, banned_parents@)),
            i <= claims@.len(),
            parents@ == claims@.take(i as int).filter_map(f),
        decreases claims@.len() - i,
    {
        proof {
            claims@.lemma_filter_map_take_succ(f, i as int);
        }
        if claim_still_valid(&claims[i]) {
            match item_id(&claims[i].mainsnak) {
                Some(p) => {
                    if !contains_id(banned_parents, p) {
                        parents.push(p);
                    }
                },
                None => {},
            }
        }
        i = i + 1;
    }
    assert(claims@.take(i as int) =~= claims@);
    Ok(HierarchyFacts { id, parents })
}

/// A claim of a prefix that survives the filter is found in the filter of the
/// whole sequence at the same place.
proof fn lemma_filter_prefix_contains(s: Seq<Claim>, pred: spec_fn(Claim) -> bool, i: int)
    requires
        0 <= i < s.len(),
        pred(s[i]),
    ensures
        s.take(i + 1).filter(pred).len() >= 1,
        s.take(i + 1).filter(pred).len() <= s.filter(pred).len(),
        s.filter(pred)[s.take(i + 1).filter(pred).len() - 1] == s[i],
    decreases s.len(),
{
    if i + 1 == s.len() {
        assert(s.take(i + 1) =~= s);
        s.drop_last().lemma_filter_push(s.last(), pred);
        assert(s.drop_last().push(s.last()) =~= s);
    } else {
        let t = s.drop_last();
        assert(t.take(i + 1) =~= s.take(i + 1));
        lemma_filter_prefix_contains(t, pred, i);
        t.lemma_filter_push(s.last(), pred);
        assert(t.push(s.last()) =~= s);
    }
}

} // verus!
