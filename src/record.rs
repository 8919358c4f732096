//! A record of the dump: its id, labels by language, and claims by kind.
use vstd::prelude::*;
use vstd::string::*;

verus! {

/// The claim kind that gives an entity's type.
pub const NATURE_CLAIM: &'static str = "P31";

/// The claim kind that gives an entity's geographic coordinates.
pub const POSITION_CLAIM: &'static str = "P625";

/// The claim kind that names an entity sharing a border.
pub const SHARES_BORDER_WITH_CLAIM: &'static str = "P47";

/// The qualifier kind that gives a claim's end of validity.
pub const EXPIRY_CLAIM: &'static str = "P582";

/// The qualifier kind that gives a role sub-type of a type claim.
pub const SUBJECT_ROLE_CLAIM: &'static str = "P2868";

/// The claim kind that gives a type's parent type.
pub const SUBCLASS_OF_CLAIM: &'static str = "P279";

/// The value of a claim or of a qualifier.
#[derive(Debug, Clone)]
pub enum Snak {
    /// A reference to another entity, by its textual id.
    Item { id: String },
    /// A point on the globe, as decimal text.
    GlobeCoordinate { latitude: String, longitude: String },
    /// A point in time as text, with a precision code.
    Time { time: String, precision: u8 },
    /// Any other kind of value.
    Unknown,
}

/// A claim: its main value and its qualifiers by kind.
#[derive(Debug, Clone)]
pub struct Claim {
    pub mainsnak: Snak,
    pub qualifiers: Option<Vec<(String, Vec<Snak>)>>,
}

/// A label in one language.
#[derive(Debug, Clone)]
pub struct Label {
    pub value: String,
}

/// A parsed record.
#[derive(Debug, Clone)]
pub struct Element {
    pub id: String,
    pub labels: Vec<(String, Label)>,
    pub claims: Vec<(String, Vec<Claim>)>,
}

/// The value of the first entry with key `key`.
pub open spec fn lookup<V>(s: Seq<(String, V)>, key: Seq<char>) -> Option<V>
    decreases s.len(),
{
    if s.len() == 0 {
        None
    } else if s[0].0@ == key {
        Some(s[0].1)
    } else {
        lookup(s.drop_first(), key)
    }
}

proof fn lemma_lookup_skip<V>(s: Seq<(String, V)>, key: Seq<char>, i: int)
    requires
        0 <= i < s.len(),
        forall|j: int| 0 <= j <= i ==> (#[trigger] s[j]).0@ != key,
    ensures
        lookup(s, key) == lookup(s.subrange(i + 1, s.len() as int), key),
    decreases i,
{
    if i > 0 {
        lemma_lookup_skip(s.drop_first(), key, i - 1);
        assert(s.drop_first().subrange(i, s.len() - 1) =~= s.subrange(i + 1, s.len() as int));
    } else {
        assert(s.drop_first() =~= s.subrange(1, s.len() as int));
    }
}

/// The position of the first entry with key `key`.
pub fn find_entry<V>(s: &Vec<(String, V)>, key: &str) -> (r: Option<usize>)
    ensures
        match r {
            Some(i) => i < s@.len() && lookup(s@, key@) == Some(s@[i as int].1),
            None => lookup(s@, key@) is None,
        },
{
    let k = String::from_str(key);
    let mut i: usize = 0;
    while i < s.len()
        invariant
            k@ == key@,
            i <= s@.len(),
            forall|j: int| 0 <= j < i ==> (#[trigger] s@[j]).0@ != key@,
        decreases s@.len() - i,
    {
        if s[i].0 == k {
            proof {
                if i > 0 {
                    lemma_lookup_skip(s@, key@, i - 1);
                }
                assert(s@.subrange(i as int, s@.len() as int)[0] == s@[i as int]);
            }
            return Some(i);
        }
        i = i + 1;
    }
    proof {
        if s@.len() > 0 {
            lemma_lookup_skip(s@, key@, s@.len() - 1);
        }
    }
    None
}

/// The claims of kind `kind` in a record, if it has any.
pub open spec fn claims_of(el: Element, kind: Seq<char>) -> Option<Vec<Claim>> {
    lookup(el.claims@, kind)
}

/// The label of a record in language `lang`.
pub open spec fn label_in(labels: Seq<(String, Label)>, lang: Seq<char>) -> Option<Seq<char>> {
    match lookup(labels, lang) {
        Some(l) => Some(l.value@),
        None => None,
    }
}

/// The label of a record in language `lang`, if it has one.
pub fn label(labels: &Vec<(String, Label)>, lang: &str) -> (r: Option<String>)
    ensures
        match r {
            Some(s) => label_in(labels@, lang@) == Some(s@),
            None => label_in(labels@, lang@) is None,
        },
{
    match find_entry(labels, lang) {
        Some(i) => Some(labels[i].1.value.clone()),
        None => None,
    }
}

/// The label of a record in language `lang`, or the empty text.
pub fn label_or_empty(labels: &Vec<(String, Label)>, lang: &str) -> (r: String)
    ensures
        r@ == match label_in(labels@, lang@) {
            Some(s) => s,
            None => Seq::<char>::empty(),
        },
{
    match label(labels, lang) {
        Some(s) => s,
        None => String::new(),
    }
}

/// A record's english label, else its language-neutral one, else the empty
/// text; and its french label, else the empty text.
pub open spec fn display_names(labels: Seq<(String, Label)>) -> (Seq<char>, Seq<char>) {
    let en = match label_in(labels, "en"@) {
        Some(s) => s,
        None => match label_in(labels, "mul"@) {
            Some(s) => s,
            None => Seq::<char>::empty(),
        },
    };
    let fr = match label_in(labels, "fr"@) {
        Some(s) => s,
        None => Seq::<char>::empty(),
    };
    (en, fr)
}

/// The english (or language-neutral) and french labels of a record.
pub fn names(labels: &Vec<(String, Label)>) -> (r: (String, String))
    ensures
        (r.0@, r.1@) == display_names(labels@),
{
    let en = match label(labels, "en") {
        Some(s) => s,
        None => label_or_empty(labels, "mul"),
    };
    let fr = label_or_empty(labels, "fr");
    (en, fr)
}

/// The label in language `lang` of a label-service answer.
pub open spec fn service_label(labels: Seq<(String, String)>, lang: Seq<char>) -> Option<Seq<char>> {
    match lookup(labels, lang) {
        Some(s) => Some(s@),
        None => None,
    }
}

/// The label in language `lang` of a label-service answer, if it has one.
pub fn label_q(labels: &Vec<(String, String)>, lang: &str) -> (r: Option<String>)
    ensures
        match r {
            Some(s) => service_label(labels@, lang@) == Some(s@),
            None => service_label(labels@, lang@) is None,
        },
{
    match find_entry(labels, lang) {
        Some(i) => Some(labels[i].1.clone()),
        None => None,
    }
}

/// The label in language `lang` of a label-service answer, or the empty text.
pub fn label_or_empty_q(labels: &Vec<(String, String)>, lang: &str) -> (r: String)
    ensures
        r@ == match service_label(labels@, lang@) {
            Some(s) => s,
            None => Seq::<char>::empty(),
        },
{
    match label_q(labels, lang) {
        Some(s) => s,
        None => String::new(),
    }
}

/// The english (or language-neutral) and french names of a label-service
/// answer, each empty where absent.
pub open spec fn service_names(labels: Seq<(String, String)>) -> (Seq<char>, Seq<char>) {
    let en = match service_label(labels, "en"@) {
        Some(s) => s,
        None => match service_label(labels, "mul"@) {
            Some(s) => s,
            None => Seq::<char>::empty(),
        },
    };
    let fr = match service_label(labels, "fr"@) {
        Some(s) => s,
        None => Seq::<char>::empty(),
    };
    (en, fr)
}

/// The english (or language-neutral) and french names of a label-service
/// answer.
pub fn names_q(labels: &Vec<(String, String)>) -> (r: (String, String))
    ensures
        (r.0@, r.1@) == service_names(labels@),
{
    let en = match label_q(labels, "en") {
        Some(s) => s,
        None => label_or_empty_q(labels, "mul"),
    };
    let fr = label_or_empty_q(labels, "fr");
    (en, fr)
}

} // verus!
