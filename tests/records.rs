use border_explorer::banned::parse_banned_categories;
use border_explorer::ids::{int_id, IdError};
use border_explorer::prefilter::{grep, passes_prefilter, record_text};
use border_explorer::record::{label, label_or_empty, label_or_empty_q, label_q, names, names_q, Label};

fn labels(pairs: &[(&str, &str)]) -> Vec<(String, Label)> {
    pairs
        .iter()
        .map(|(l, v)| (l.to_string(), Label { value: v.to_string() }))
        .collect()
}

#[test]
fn int_id_decodes_entity_ids() {
    assert_eq!(int_id("Q42"), Ok(42));
    assert_eq!(int_id("Q0"), Ok(0));
    assert_eq!(int_id("Q+7"), Ok(7));
    assert_eq!(int_id("Q18446744073709551615"), Ok(u64::MAX));
}

#[test]
fn int_id_rejects_other_prefixes() {
    assert_eq!(int_id("P31"), Err(IdError::NotAnEntity));
    assert_eq!(int_id(""), Err(IdError::NotAnEntity));
    assert_eq!(int_id("q5"), Err(IdError::NotAnEntity));
}

#[test]
fn int_id_rejects_bad_numbers() {
    assert_eq!(int_id("Q"), Err(IdError::NotANumber));
    assert_eq!(int_id("Q+"), Err(IdError::NotANumber));
    assert_eq!(int_id("Q12a"), Err(IdError::NotANumber));
    assert_eq!(int_id("Q-3"), Err(IdError::NotANumber));
    assert_eq!(int_id("Q18446744073709551616"), Err(IdError::NotANumber));
}

#[test]
fn banned_list_skips_comments_and_reads_first_column() {
    let text = "# generic categories\nQ5\thuman\n\nQ515\tcity\r\n#Q9\nQ486972\n";
    assert_eq!(parse_banned_categories(text), Ok(vec![5, 515, 486972]));
}

#[test]
fn banned_list_of_nothing_is_empty() {
    assert_eq!(parse_banned_categories(""), Ok(vec![]));
    assert_eq!(parse_banned_categories("# only a comment"), Ok(vec![]));
}

#[test]
fn banned_list_reports_first_bad_line() {
    assert_eq!(parse_banned_categories("Q5\nP31\tproperty\nQx\n"), Err(IdError::NotAnEntity));
    assert_eq!(parse_banned_categories("Q5\nQx\tbad\nP1\n"), Err(IdError::NotANumber));
}

#[test]
fn grep_finds_byte_substrings() {
    assert!(grep("{\"claims\":{\"P31\":[]}}", "P31"));
    assert!(!grep("{\"claims\":{\"P3\":[]}}", "P31"));
    assert!(grep("abc", ""));
    assert!(!grep("", "a"));
}

#[test]
fn prefilter_needs_all_mandatory_or_subclass() {
    let mandatory = vec!["P31".to_string(), "P625".to_string(), "P47".to_string()];
    assert!(passes_prefilter("P31 P625 P47", &mandatory));
    assert!(!passes_prefilter("P31 P625", &mandatory));
    assert!(passes_prefilter("P279 only", &mandatory));
    assert!(passes_prefilter("anything", &vec![]));
}

#[test]
fn record_text_strips_the_separator() {
    assert_eq!(record_text("["), None);
    assert_eq!(record_text("]"), None);
    assert_eq!(record_text("{}"), None);
    assert_eq!(record_text("{\"id\":\"Q1\"},"), Some("{\"id\":\"Q1\"}".to_string()));
    assert_eq!(record_text("{\"id\":\"Q1\"}"), Some("{\"id\":\"Q1\"".to_string()));
}

#[test]
fn labels_by_language() {
    let l = labels(&[("fr", "Paris (fr)"), ("en", "Paris")]);
    assert_eq!(label(&l, "en"), Some("Paris".to_string()));
    assert_eq!(label(&l, "de"), None);
    assert_eq!(label_or_empty(&l, "de"), "");
    assert_eq!(label_or_empty(&l, "fr"), "Paris (fr)");
}

#[test]
fn names_fall_back_to_multilingual_then_empty() {
    let l = labels(&[("mul", "Lutetia"), ("fr", "Lutèce")]);
    assert_eq!(names(&l), ("Lutetia".to_string(), "Lutèce".to_string()));
    let l = labels(&[("de", "Paris")]);
    assert_eq!(names(&l), (String::new(), String::new()));
    let l = labels(&[("mul", "M"), ("en", "E")]);
    assert_eq!(names(&l), ("E".to_string(), String::new()));
}

#[test]
fn service_labels_by_language() {
    let l = vec![("en".to_string(), "river".to_string()), ("fr".to_string(), "rivière".to_string())];
    assert_eq!(label_q(&l, "en"), Some("river".to_string()));
    assert_eq!(label_q(&l, "mul"), None);
    assert_eq!(label_or_empty_q(&l, "de"), "");
    assert_eq!(names_q(&l), ("river".to_string(), "rivière".to_string()));
    let l = vec![("mul".to_string(), "x".to_string())];
    assert_eq!(names_q(&l), ("x".to_string(), String::new()));
}
