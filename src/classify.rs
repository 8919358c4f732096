//! Which records become graph nodes, which only feed the type hierarchy,
//! and which are left out.
use crate::builder::{hierarchy_written, node_written};
use crate::facts::{node_error, RecordError};
use crate::ids::entity_number;
use crate::record::{
    claims_of, find_entry, Claim, Element, Snak, NATURE_CLAIM, POSITION_CLAIM,
    SHARES_BORDER_WITH_CLAIM, SUBCLASS_OF_CLAIM,
};
use crate::store::GraphStore;
use crate::validity::{claim_still_valid, claim_valid};
use vstd::prelude::*;
use vstd::string::*;

verus! {

/// The settings of an import.
#[derive(Debug, Clone)]
pub struct Config {
    /// The claim kinds that a node record must carry.
    pub mandatory_claims: Vec<String>,
    /// Where not empty, the type ids (textual) that a node record must have
    /// one of, through a claim that still holds.
    pub filtered_natures: Vec<String>,
    /// Categories too broad to rank.
    pub banned_generic_categories: Vec<u64>,
    /// Parent types never recorded in the hierarchy.
    pub banned_parents: Vec<u64>,
}

/// The parent types left out of the hierarchy by default: the few very
/// general parents that would otherwise hold much of it.
pub open spec fn default_banned_parents() -> Seq<u64> {
    seq![11173u64, 20747295u64, 8054u64, 7187u64, 277338u64]
}

impl Config {
    /// The default settings, with the given categories banned from ranking:
    /// type, position and border claims are mandatory and no type filter
    /// applies.
    pub fn new(banned_generic_categories: Vec<u64>) -> (c: Config)
        ensures
            c.mandatory_claims@.len() == 3,
            c.mandatory_claims@[0]@ == NATURE_CLAIM@,
            c.mandatory_claims@[1]@ == POSITION_CLAIM@,
            c.mandatory_claims@[2]@ == SHARES_BORDER_WITH_CLAIM@,
            c.filtered_natures@.len() == 0,
            c.banned_generic_categories@ == banned_generic_categories@,
            c.banned_parents@ == default_banned_parents(),
    {
        let mandatory_claims = vec![
            String::from_str(NATURE_CLAIM),
            String::from_str(POSITION_CLAIM),
            String::from_str(SHARES_BORDER_WITH_CLAIM),
        ];
        let banned_parents: Vec<u64> = vec![11173, 20747295, 8054, 7187, 277338];
        assert(banned_parents@ =~= default_banned_parents());
        Config { mandatory_claims, filtered_natures: Vec::new(), banned_generic_categories, banned_parents }
    }
}

/// The record carries every mandatory claim kind.
pub open spec fn has_mandatory(el: Element, mandatory: Seq<String>) -> bool {
    forall|k: int| 0 <= k < mandatory.len() ==> (#[trigger] claims_of(el, mandatory[k]@)) is Some
}

/// A type claim that still holds and names one of the filtered types.
pub open spec fn nature_matches(c: Claim, filtered: Seq<String>) -> bool {
    match c.mainsnak {
        Snak::Item { id } => (exists|j: int| 0 <= j < filtered.len() && (#[trigger] filtered[j])@ == id@) && claim_valid(c),
        _ => false,
    }
}

/// The record has a type claim that matches the filter.
pub open spec fn has_matching_nature(el: Element, filtered: Seq<String>) -> bool {
    match claims_of(el, NATURE_CLAIM@) {
        Some(cs) => any_nature_matches(cs@, filtered),
        None => false,
    }
}

/// Some claim of the list matches the filter.
pub open spec fn any_nature_matches(cs: Seq<Claim>, filtered: Seq<String>) -> bool {
    exists|i: int| 0 <= i < cs.len() && nature_matches(#[trigger] cs[i], filtered)
}

/// A record becomes a node: it carries every mandatory claim kind and, where
/// a type filter is set, a type claim that matches it.
pub open spec fn selected(el: Element, config: Config) -> bool {
    &&& has_mandatory(el, config.mandatory_claims@)
    &&& (config.filtered_natures@.len() == 0 || has_matching_nature(el, config.filtered_natures@))
}

/// What becomes of a record.
#[derive(Debug, Clone, Copy, PartialEq, Eq, Structural)]
pub enum Disposition {
    /// A place: a node of the graph.
    Node,
    /// A type: it only adds to the hierarchy.
    Hierarchy,
    /// Neither.
    Reject,
}

/// What becomes of a record under `config`.
pub open spec fn disposition(el: Element, config: Config) -> Disposition {
    if selected(el, config) {
        Disposition::Node
    } else if claims_of(el, SUBCLASS_OF_CLAIM@) is Some {
        Disposition::Hierarchy
    } else {
        Disposition::Reject
    }
}

/// Whether a type claim matches the type filter.
fn nature_filtered(c: &Claim, filtered: &Vec<String>) -> (r: bool)
    ensures
        r == nature_matches(*c, filtered@),
{
    match &c.mainsnak {
        Snak::Item { id } => {
            let mut j: usize = 0;
            while j < filtered.len()
                invariant
                    c.mainsnak == (Snak::Item { id: *id }),
                    j <= filtered@.len(),
                    forall|k: int| 0 <= k < j ==> (#[trigger] filtered@[k])@ != id@,
                decreases filtered@.len() - j,
            {
                if filtered[j] == *id {
                    assert(filtered@[j as int]@ == id@);
                    return claim_still_valid(c);
                }
                j = j + 1;
            }
            false
        },
        _ => false,
    }
}

/// Whether a record becomes a node of the graph.
pub fn query(el: &Element, config: &Config) -> (r: bool)
    ensures
        r == selected(*el, *config),
{
    let mut k: usize = 0;
    while k < config.mandatory_claims.len()
        invariant
            k <= config.mandatory_claims@.len(),
            forall|j: int| 0 <= j < k ==> (#[trigger] claims_of(*el, config.mandatory_claims@[j]@)) is Some,
        decreases config.mandatory_claims@.len() - k,
    {
        if find_entry(&el.claims, config.mandatory_claims[k].as_str()).is_none() {
            assert(claims_of(*el, config.mandatory_claims@[k as int]@) is None);
            return false;
        }
        k = k + 1;
    }
    assert(has_mandatory(*el, config.mandatory_claims@));
    if config.filtered_natures.len() == 0 {
        return true;
    }
    match find_entry(&el.claims, NATURE_CLAIM) {
        Some(i) => {
            let cs = &el.claims[i].1;
            let mut q: usize = 0;
            while q < cs.len()
                invariant
                    q <= cs@.len(),
                    has_mandatory(*el, config.mandatory_claims@),
                    claims_of(*el, NATURE_CLAIM@) == Some(*cs),
                    forall|p: int| 0 <= p < q ==> !nature_matches(#[trigger] cs@[p], config.filtered_natures@),
                decreases cs@.len() - q,
            {
                if nature_filtered(&cs[q], &config.filtered_natures) {
                    assert(nature_matches(cs@[q as int], config.filtered_natures@));
                    assert(any_nature_matches(cs@, config.filtered_natures@));
                    return true;
                }
                q = q + 1;
            }
            false
        },
        None => false,
    }
}

/// What becomes of a record.
pub fn classify(el: &Element, config: &Config) -> (r: Disposition)
    ensures
        r == disposition(*el, *config),
{
    if query(el, config) {
        Disposition::Node
    } else if find_entry(&el.claims, SUBCLASS_OF_CLAIM).is_some() {
        Disposition::Hierarchy
    } else {
        Disposition::Reject
    }
}

impl GraphStore {
    /// Classifies a record and writes what it contributes: a place's rows, a
    /// type's hierarchy rows, or nothing. Returns the disposition and whether
    /// rows were written.
    pub fn ingest(&mut self, el: &Element, config: &Config) -> (r: Result<(Disposition, bool), RecordError>)
        ensures
            final(self)@.wf(),
            match disposition(*el, *config) {
                Disposition::Node => match r {
                    Err(e) => node_error(*el) == Some(e) && final(self)@ == old(self)@,
                    Ok((d, written)) => {
                        &&& d == Disposition::Node
                        &&& node_error(*el) is None
                        &&& node_written(old(self)@, final(self)@, *el, written)
                    },
                },
                Disposition::Hierarchy => match r {
                    Err(e) => entity_number(el.id@) matches Err(x) && e == RecordError::BadId(x) && final(self)@
                        == old(self)@,
                    Ok((d, written)) => {
                        &&& d == Disposition::Hierarchy
                        &&& entity_number(el.id@) is Ok
                        &&& hierarchy_written(old(self)@, final(self)@, *el, config.banned_parents@, written)
                    },
                },
                Disposition::Reject => r == Ok::<(Disposition, bool), RecordError>((Disposition::Reject, false))
                    && final(self)@ == old(self)@,
            },
    {
        self.establish_wf();
        match classify(el, config) {
            Disposition::Node => match self.insert(el) {
                Ok(written) => Ok((Disposition::Node, written)),
                Err(e) => Err(e),
            },
            Disposition::Hierarchy => match self.insert_base(el) {
                Ok(written) => {
                    let ghost mid = self@;
                    match self.insert_subclass(el, &config.banned_parents) {
                        Ok(()) => {},
                        Err(_) => {},
                    }
                    proof {
                        assert(self@.entities == mid.entities);
                    }
                    Ok((Disposition::Hierarchy, written))
                },
                Err(e) => Err(e),
            },
            Disposition::Reject => Ok((Disposition::Reject, false)),
        }
    }
}

} // verus!
