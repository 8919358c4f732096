use border_explorer::classify::{classify, query, Config, Disposition};
use border_explorer::facts::{claim_and_roles, hierarchy_facts, node_facts, RecordError};
use border_explorer::ids::IdError;
use border_explorer::record::{Claim, Element, Label, Snak};
use border_explorer::validity::{
    claim_before, claim_still_valid, expiry_before, is_before, normalize_time, EXPIRY_CUTOFF,
};

fn item(id: &str) -> Snak {
    Snak::Item { id: id.to_string() }
}

fn time(t: &str, precision: u8) -> Snak {
    Snak::Time { time: t.to_string(), precision }
}

fn claim(main: Snak, qualifiers: Vec<(&str, Vec<Snak>)>) -> Claim {
    Claim {
        mainsnak: main,
        qualifiers: if qualifiers.is_empty() {
            None
        } else {
            Some(qualifiers.into_iter().map(|(k, v)| (k.to_string(), v)).collect())
        },
    }
}

fn coord(lat: &str, lon: &str) -> Claim {
    claim(Snak::GlobeCoordinate { latitude: lat.to_string(), longitude: lon.to_string() }, vec![])
}

fn element(id: &str, claims: Vec<(&str, Vec<Claim>)>) -> Element {
    Element {
        id: id.to_string(),
        labels: vec![("en".to_string(), Label { value: format!("name of {id}") })],
        claims: claims.into_iter().map(|(k, v)| (k.to_string(), v)).collect(),
    }
}

#[test]
fn claim_without_expiry_is_valid() {
    assert!(claim_still_valid(&claim(item("Q5"), vec![])));
    assert!(claim_still_valid(&claim(item("Q5"), vec![("P2868", vec![item("Q7")])])));
}

#[test]
fn claim_expired_before_cutoff_is_invalid() {
    let c = claim(item("Q5"), vec![("P582", vec![time("+2001-12-31T00:00:00Z", 11)])]);
    assert!(!claim_still_valid(&c));
}

#[test]
fn claim_expiring_after_cutoff_is_valid() {
    let c = claim(item("Q5"), vec![("P582", vec![time("+2030-06-01T00:00:00Z", 11)])]);
    assert!(claim_still_valid(&c));
}

#[test]
fn claim_with_unreadable_expiry_is_invalid() {
    let c = claim(item("Q5"), vec![("P582", vec![time("sometime", 11)])]);
    assert!(!claim_still_valid(&c));
    let c = claim(item("Q5"), vec![("P582", vec![time("+20", 9)])]);
    assert!(!claim_still_valid(&c));
}

#[test]
fn one_later_expiry_keeps_a_claim_valid() {
    let c = claim(
        item("Q5"),
        vec![("P582", vec![time("+1990-01-01T00:00:00Z", 11), time("+2031-01-01T00:00:00Z", 11)])],
    );
    assert!(claim_still_valid(&c));
}

#[test]
fn expiry_that_is_not_a_time_keeps_a_claim_valid() {
    let c = claim(item("Q5"), vec![("P582", vec![Snak::Unknown])]);
    assert!(claim_still_valid(&c));
    assert!(!claim_before(&vec![item("Q1")], EXPIRY_CUTOFF));
    assert!(claim_before(&vec![], EXPIRY_CUTOFF));
}

#[test]
fn year_precision_reads_january_first() {
    assert_eq!(
        normalize_time("+2024-07-14T00:00:00Z", 9),
        Some("+2024-01-01T00:00:00Z".to_string())
    );
    assert_eq!(
        normalize_time("+2024-07-14T00:00:00Z", 10),
        Some("+2024-07-01T00:00:00Z".to_string())
    );
    assert_eq!(
        normalize_time("+2024-07-14T00:00:00Z", 11),
        Some("+2024-07-14T00:00:00Z".to_string())
    );
    assert_eq!(normalize_time("+202", 9), None);
    assert_eq!(normalize_time("+2024-0", 10), None);
    // A year-precision date in the cutoff year itself reads as the cutoff: not before it.
    assert!(!expiry_before(&time("+2025-07-14T00:00:00Z", 9), EXPIRY_CUTOFF));
    assert!(expiry_before(&time("+2024-12-31T00:00:00Z", 10), EXPIRY_CUTOFF));
}

#[test]
fn parsed_instant_against_cutoff() {
    assert!(is_before(None, EXPIRY_CUTOFF));
    assert!(is_before(Some(EXPIRY_CUTOFF - 1), EXPIRY_CUTOFF));
    assert!(!is_before(Some(EXPIRY_CUTOFF), EXPIRY_CUTOFF));
    assert!(!is_before(Some(EXPIRY_CUTOFF + 1), EXPIRY_CUTOFF));
    assert_eq!(EXPIRY_CUTOFF, 1735689600);
}

#[test]
fn claim_and_roles_lists_main_type_then_roles() {
    let c = claim(item("Q515"), vec![("P2868", vec![item("Q1549591"), item("bad"), Snak::Unknown, item("Q3")])]);
    assert_eq!(claim_and_roles(&c), vec![515, 1549591, 3]);
    assert_eq!(claim_and_roles(&claim(item("Q8"), vec![])), vec![8]);
}

fn place(id: &str, natures: Vec<Claim>, borders: Vec<Claim>) -> Element {
    element(id, vec![("P31", natures), ("P625", vec![coord("48.85", "2.35")]), ("P47", borders)])
}

#[test]
fn node_facts_collect_natures_position_and_neighbours() {
    let el = place(
        "Q90",
        vec![
            claim(item("Q515"), vec![("P2868", vec![item("Q200")])]),
            claim(item("Q515"), vec![]),
            claim(item("Q999"), vec![("P582", vec![time("+1900-01-01T00:00:00Z", 11)])]),
        ],
        vec![claim(item("Q3"), vec![]), claim(Snak::Unknown, vec![]), claim(item("Q1"), vec![])],
    );
    let f = node_facts(&el).unwrap().unwrap();
    assert_eq!(f.id, 90);
    assert_eq!(f.name_en, "name of Q90");
    assert_eq!(f.name_fr, "");
    assert_eq!((f.lat.as_str(), f.lon.as_str()), ("48.85", "2.35"));
    let mut natures = f.natures.clone();
    natures.sort();
    assert_eq!(natures, vec![200, 515]);
    assert_eq!(f.neighbours, vec![3, 1]);
}

#[test]
fn node_without_coordinates_is_dropped() {
    let el = element(
        "Q90",
        vec![
            ("P31", vec![claim(item("Q515"), vec![])]),
            ("P625", vec![claim(Snak::Unknown, vec![])]),
            ("P47", vec![]),
        ],
    );
    assert!(matches!(node_facts(&el), Ok(None)));
}

#[test]
fn node_errors() {
    let el = place("P90", vec![claim(item("Q515"), vec![])], vec![]);
    assert!(matches!(node_facts(&el), Err(RecordError::BadId(IdError::NotAnEntity))));
    let el = place("Q90", vec![claim(Snak::Unknown, vec![])], vec![]);
    assert!(matches!(node_facts(&el), Err(RecordError::BadNature)));
    let el = element("Q90", vec![("P31", vec![claim(item("Q515"), vec![])])]);
    assert!(matches!(node_facts(&el), Err(RecordError::MissingClaim)));
    // An expired malformed type claim is not read.
    let el = place(
        "Q90",
        vec![claim(Snak::Unknown, vec![("P582", vec![time("+1900-01-01T00:00:00Z", 11)])])],
        vec![],
    );
    assert!(matches!(node_facts(&el), Ok(Some(_))));
}

#[test]
fn hierarchy_facts_skip_banned_expired_and_non_items() {
    let el = element(
        "Q515",
        vec![(
            "P279",
            vec![
                claim(item("Q486972"), vec![]),
                claim(item("Q11173"), vec![]),
                claim(item("Q7"), vec![("P582", vec![time("+2000-01-01T00:00:00Z", 11)])]),
                claim(Snak::Unknown, vec![]),
                claim(item("Q8"), vec![]),
            ],
        )],
    );
    let f = hierarchy_facts(&el, &vec![11173]).unwrap();
    assert_eq!(f.id, 515);
    assert_eq!(f.parents, vec![486972, 8]);
    let el = element("X515", vec![("P279", vec![])]);
    assert!(matches!(hierarchy_facts(&el, &vec![]), Err(RecordError::BadId(IdError::NotAnEntity))));
}

#[test]
fn classification_of_records() {
    let config = Config::new(vec![]);
    let node = place("Q1", vec![claim(item("Q515"), vec![])], vec![]);
    assert!(query(&node, &config));
    assert_eq!(classify(&node, &config), Disposition::Node);
    let kind = element("Q515", vec![("P279", vec![claim(item("Q486972"), vec![])])]);
    assert!(!query(&kind, &config));
    assert_eq!(classify(&kind, &config), Disposition::Hierarchy);
    let other = element("Q2", vec![("P31", vec![claim(item("Q5"), vec![])])]);
    assert_eq!(classify(&other, &config), Disposition::Reject);
}

#[test]
fn type_filter_needs_a_valid_matching_nature() {
    let mut config = Config::new(vec![]);
    config.filtered_natures = vec!["Q515".to_string()];
    let city = place("Q1", vec![claim(item("Q5"), vec![]), claim(item("Q515"), vec![])], vec![]);
    assert!(query(&city, &config));
    let village = place("Q2", vec![claim(item("Q532"), vec![])], vec![]);
    assert!(!query(&village, &config));
    assert_eq!(classify(&village, &config), Disposition::Reject);
    let former = place(
        "Q3",
        vec![claim(item("Q515"), vec![("P582", vec![time("+1950-01-01T00:00:00Z", 11)])])],
        vec![],
    );
    assert!(!query(&former, &config));
}

#[test]
fn default_config() {
    let config = Config::new(vec![5]);
    assert_eq!(config.mandatory_claims, vec!["P31", "P625", "P47"]);
    assert!(config.filtered_natures.is_empty());
    assert_eq!(config.banned_generic_categories, vec![5]);
    assert_eq!(config.banned_parents, vec![11173, 20747295, 8054, 7187, 277338]);
}

#[test]
fn record_errors_that_end_an_import() {
    assert!(RecordError::BadNature.is_fatal());
    assert!(RecordError::BadId(IdError::NotANumber).is_fatal());
    assert!(!RecordError::MissingClaim.is_fatal());
}
