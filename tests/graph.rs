use border_explorer::classify::{Config, Disposition};
use border_explorer::record::{Claim, Element, Label, Snak};
use border_explorer::store::GraphStore;

const SETTLEMENT: u64 = 486972;

fn item(id: &str) -> Snak {
    Snak::Item { id: id.to_string() }
}

fn plain(main: Snak) -> Claim {
    Claim { mainsnak: main, qualifiers: None }
}

fn settlement(id: &str, lat: &str, lon: &str, borders: &[&str]) -> Element {
    Element {
        id: id.to_string(),
        labels: vec![
            ("en".to_string(), Label { value: format!("{id} en") }),
            ("fr".to_string(), Label { value: format!("{id} fr") }),
        ],
        claims: vec![
            ("P31".to_string(), vec![plain(item("Q486972"))]),
            (
                "P625".to_string(),
                vec![plain(Snak::GlobeCoordinate { latitude: lat.to_string(), longitude: lon.to_string() })],
            ),
            ("P47".to_string(), borders.iter().map(|b| plain(item(b))).collect()),
        ],
    }
}

fn sorted(mut v: Vec<u64>) -> Vec<u64> {
    v.sort();
    v
}

/// A store whose nodes all have nature `nature` and whose edges are `edges`.
fn graph(nature: u64, edges: &[(u64, u64)]) -> GraphStore {
    let mut s = GraphStore::new(vec![]);
    for &(a, b) in edges {
        for n in [a, b] {
            s.insert_nature(n, nature);
        }
        s.insert_edge(a, b);
    }
    s
}

#[test]
fn edges_are_stored_smaller_id_first() {
    let mut s = GraphStore::new(vec![]);
    assert!(s.insert_edge(9, 4));
    assert_eq!(s.edge_list(), &vec![(4, 9)]);
    assert!(!s.insert_edge(4, 9));
    assert!(!s.insert_edge(9, 4));
    assert_eq!(s.edge_list(), &vec![(4, 9)]);
    assert!(s.insert_edge(1, 2));
    assert!(s.insert_edge(7, 7));
    assert_eq!(s.edge_list(), &vec![(1, 2), (4, 9), (7, 7)]);
}

#[test]
fn keyed_rows_keep_the_first_value() {
    let mut s = GraphStore::new(vec![]);
    assert!(s.insert_entity(3, "three".to_string(), "trois".to_string()));
    assert!(!s.insert_entity(3, "other".to_string(), String::new()));
    assert_eq!(s.entity_names(3), Some(("three".to_string(), "trois".to_string())));
    assert_eq!(s.entity_names(4), None);
    assert!(s.insert_position(3, "1.5".to_string(), "2.5".to_string()));
    assert!(!s.insert_position(3, "0".to_string(), "0".to_string()));
    assert_eq!(s.position(3), Some(("1.5".to_string(), "2.5".to_string())));
    assert!(s.insert_nature(3, 8));
    assert!(!s.insert_nature(3, 8));
    assert_eq!(s.nature_list(), &vec![(3, 8)]);
}

#[test]
fn leaf_category_is_its_own_closure() {
    let mut s = GraphStore::new(vec![]);
    s.insert_subtype(2, 1);
    assert_eq!(s.descendants(7), vec![7]);
    assert_eq!(s.descendants(2), vec![2]);
}

#[test]
fn descendants_regardless_of_insertion_order() {
    let rows = [(11, 10), (12, 10), (13, 11)];
    let orders = [[0, 1, 2], [2, 1, 0], [1, 2, 0], [2, 0, 1]];
    for order in orders {
        let mut s = GraphStore::new(vec![]);
        for i in order {
            s.insert_subtype(rows[i].0, rows[i].1);
        }
        assert_eq!(sorted(s.descendants(10)), vec![10, 11, 12, 13]);
        assert_eq!(sorted(s.descendants(11)), vec![11, 13]);
    }
}

#[test]
fn closures_stop_on_cycles() {
    let mut s = GraphStore::new(vec![]);
    s.insert_subtype(1, 2);
    s.insert_subtype(2, 3);
    s.insert_subtype(3, 1);
    assert_eq!(sorted(s.descendants(1)), vec![1, 2, 3]);
    s.insert_nature(50, 1);
    assert_eq!(sorted(s.ancestors(50)), vec![1, 2, 3]);
}

#[test]
fn ancestors_skip_banned_categories() {
    let mut s = GraphStore::new(vec![3]);
    s.insert_subtype(1, 2);
    s.insert_subtype(2, 3);
    s.insert_subtype(3, 4);
    s.insert_subtype(1, 5);
    s.insert_nature(50, 1);
    s.insert_nature(50, 3);
    assert_eq!(sorted(s.ancestors(50)), vec![1, 2, 5]);
    assert!(s.is_banned(3));
}

#[test]
fn dense_category_of_thirty_edges_is_ranked() {
    // Thirty nodes: 1..=15 each border two of 16..=30, every node touching two others.
    let mut edges = vec![];
    for a in 1..=15u64 {
        edges.push((a, 15 + a));
        edges.push((a, 15 + (a % 15) + 1));
    }
    let s = graph(77, &edges);
    assert_eq!(s.edge_list().len(), 30);
    assert_eq!(s.top_categories(600), vec![(77, 30)]);
}

#[test]
fn sparse_ring_of_thirty_edges_is_not_ranked() {
    // A ring over thirty nodes: 29 distinct first ends, density 10 * 30 / 29 = 10.
    let mut edges: Vec<(u64, u64)> = (1..30u64).map(|a| (a, a + 1)).collect();
    edges.push((30, 1));
    let s = graph(77, &edges);
    assert_eq!(s.edge_list().len(), 30);
    assert_eq!(s.top_categories(600), vec![]);
}

#[test]
fn twenty_seven_edges_are_too_few() {
    let mut edges = vec![];
    for a in 1..=15u64 {
        edges.push((a, 15 + a));
        edges.push((a, 15 + (a % 15) + 1));
    }
    edges.truncate(27);
    let s = graph(77, &edges);
    assert_eq!(s.top_categories(600), vec![]);
}

#[test]
fn ranking_credits_ancestors_and_orders_by_count() {
    // Category 5 holds 30 dense edges, its parent 6 those and 28 more of nature 9 (a subtype of 6).
    let mut s = GraphStore::new(vec![]);
    s.insert_subtype(5, 6);
    s.insert_subtype(9, 6);
    for a in 1..=15u64 {
        for b in [100 + 2 * a, 101 + 2 * a] {
            s.insert_nature(a, 5);
            s.insert_nature(b, 5);
            s.insert_edge(a, b);
        }
    }
    for a in 1000..1014u64 {
        for b in [2000 + 2 * a, 2001 + 2 * a] {
            s.insert_nature(a, 9);
            s.insert_nature(b, 9);
            s.insert_edge(a, b);
        }
    }
    assert_eq!(s.top_categories(600), vec![(6, 58), (5, 30), (9, 28)]);
    assert_eq!(s.top_categories(2), vec![(6, 58), (5, 30)]);
    assert_eq!(s.top_categories(0), vec![]);
}

#[test]
fn equal_counts_rank_by_id_and_banned_are_left_out() {
    let mut edges = vec![];
    for a in 1..=15u64 {
        edges.push((a, 100 + 2 * a));
        edges.push((a, 101 + 2 * a));
    }
    let mut s = GraphStore::new(vec![8]);
    for &(a, b) in &edges {
        for n in [a, b] {
            s.insert_nature(n, 7);
            s.insert_nature(n, 4);
            s.insert_nature(n, 8);
        }
        s.insert_edge(a, b);
    }
    assert_eq!(s.top_categories(600), vec![(4, 30), (7, 30)]);
}

fn ingest_three(s: &mut GraphStore) {
    let config = Config::new(vec![]);
    let a = settlement("Q1", "10.5", "20.5", &["Q2"]);
    let b = settlement("Q2", "11.5", "21.5", &["Q1", "Q3"]);
    let c = settlement("Q3", "12.5", "22.5", &["Q2"]);
    for el in [&a, &b, &c] {
        assert_eq!(s.ingest(el, &config), Ok((Disposition::Node, true)));
    }
}

#[test]
fn three_settlements_end_to_end() {
    let mut s = GraphStore::new(vec![]);
    ingest_three(&mut s);
    let ids: Vec<u64> = s.entity_list().iter().map(|r| r.0).collect();
    assert_eq!(ids, vec![1, 2, 3]);
    for id in 1..=3u64 {
        assert!(s.position(id).is_some());
    }
    assert_eq!(s.edge_list(), &vec![(1, 2), (2, 3)]);
    assert_eq!(s.nature_list(), &vec![(1, SETTLEMENT), (2, SETTLEMENT), (3, SETTLEMENT)]);
    let nodes = s.category_nodes(SETTLEMENT);
    assert_eq!(nodes.len(), 3);
    assert_eq!(
        nodes[0],
        ("Q1 en".to_string(), "Q1 fr".to_string(), "20.5".to_string(), "10.5".to_string())
    );
    let edges = s.category_edges(SETTLEMENT);
    assert_eq!(edges.len(), 2);
    assert_eq!(
        edges[1],
        ("21.5".to_string(), "11.5".to_string(), "22.5".to_string(), "12.5".to_string())
    );
}

#[test]
fn export_twice_is_identical() {
    let mut s = GraphStore::new(vec![]);
    ingest_three(&mut s);
    assert_eq!(s.category_nodes(SETTLEMENT), s.category_nodes(SETTLEMENT));
    assert_eq!(s.category_edges(SETTLEMENT), s.category_edges(SETTLEMENT));
}

#[test]
fn export_follows_subtypes() {
    let mut s = GraphStore::new(vec![]);
    ingest_three(&mut s);
    s.insert_subtype(SETTLEMENT, 1000);
    assert_eq!(s.category_nodes(1000).len(), 3);
    assert_eq!(s.category_edges(1000).len(), 2);
    assert_eq!(s.category_nodes(SETTLEMENT + 1).len(), 0);
}

#[test]
fn repeated_record_is_not_written_twice() {
    let mut s = GraphStore::new(vec![]);
    ingest_three(&mut s);
    let config = Config::new(vec![]);
    let again = settlement("Q1", "0", "0", &["Q9"]);
    assert_eq!(s.ingest(&again, &config), Ok((Disposition::Node, false)));
    assert_eq!(s.edge_list(), &vec![(1, 2), (2, 3)]);
}

#[test]
fn hierarchy_record_adds_parent_rows() {
    let mut s = GraphStore::new(vec![]);
    let config = Config::new(vec![]);
    let kind = Element {
        id: "Q515".to_string(),
        labels: vec![("mul".to_string(), Label { value: "city".to_string() })],
        claims: vec![(
            "P279".to_string(),
            vec![plain(item("Q486972")), plain(item("Q7187")), plain(item("Q486972"))],
        )],
    };
    assert_eq!(s.ingest(&kind, &config), Ok((Disposition::Hierarchy, true)));
    assert_eq!(s.entity_names(515), Some(("city".to_string(), String::new())));
    assert_eq!(sorted(s.descendants(486972)), vec![515, 486972]);
    assert_eq!(s.descendants(7187), vec![7187]);
}

#[test]
fn fetched_names_are_kept() {
    let mut s = GraphStore::new(vec![]);
    let labels = vec![("fr".to_string(), "ville".to_string()), ("mul".to_string(), "city".to_string())];
    assert_eq!(s.record_fetched_names(515, &labels), ("city".to_string(), "ville".to_string()));
    assert_eq!(s.entity_names(515), Some(("city".to_string(), "ville".to_string())));
    let labels = vec![("en".to_string(), "town".to_string())];
    assert_eq!(s.record_fetched_names(516, &labels), ("town".to_string(), String::new()));
    assert_eq!(s.entity_names(516), Some(("town".to_string(), String::new())));
}

#[test]
fn subclass_rows_do_not_touch_labels() {
    let mut s = GraphStore::new(vec![]);
    let kind = Element {
        id: "Q515".to_string(),
        labels: vec![("en".to_string(), Label { value: "city".to_string() })],
        claims: vec![("P279".to_string(), vec![plain(item("Q486972")), plain(item("Q7187"))])],
    };
    assert_eq!(s.insert_subclass(&kind, &vec![7187]), Ok(()));
    assert_eq!(s.entity_names(515), None);
    assert_eq!(s.subclass_list(), &vec![(515, 486972)]);
    assert_eq!(s.insert_base(&kind), Ok(true));
    assert_eq!(s.insert_base(&kind), Ok(false));
    assert_eq!(s.entity_names(515), Some(("city".to_string(), String::new())));
    // A second pass adds the rows of a parent no longer banned, though the label row exists.
    assert_eq!(s.insert_subclass(&kind, &vec![]), Ok(()));
    assert_eq!(s.subclass_list(), &vec![(515, 7187), (515, 486972)]);
}
