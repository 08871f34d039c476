use feature_lint::graph::{CrateAndFeature, Dag};

fn v(a: &str, b: &str) -> CrateAndFeature {
    CrateAndFeature(a.to_owned(), b.to_owned())
}

fn names(path: &[CrateAndFeature]) -> Vec<(String, String)> {
    path.iter().map(|x| (x.0.clone(), x.1.clone())).collect()
}

#[test]
fn add_edge_is_idempotent() {
    let mut d = Dag::new();
    d.add_edge(&v("a", "f"), &v("b", "g"));
    d.add_edge(&v("a", "f"), &v("b", "g"));
    let lhs = d.lhs_nodes();
    assert_eq!(lhs.len(), 1);
    assert!(lhs[0] == v("a", "f"));
    // The duplicate edge was not recorded twice: the path is still a->b.
    let p = d.reachable_predicate(&v("a", "f"), &"g".to_owned()).unwrap();
    assert_eq!(p.len(), 2);
}

#[test]
fn lhs_nodes_in_insertion_order() {
    let mut d = Dag::new();
    d.add_edge(&v("b", "x"), &v("c", "y"));
    d.add_edge(&v("a", "x"), &v("c", "y"));
    d.add_edge(&v("c", "y"), &v("a", "x"));
    let lhs = d.lhs_nodes();
    // Vertices are interned in first-appearance order: `c` appears as an
    // edge target before `a` is ever seen.
    assert_eq!(
        names(&lhs),
        vec![
            ("b".to_owned(), "x".to_owned()),
            ("c".to_owned(), "y".to_owned()),
            ("a".to_owned(), "x".to_owned()),
        ]
    );
}

#[test]
fn search_returns_shortest_path() {
    // Two routes from s to a goal vertex: one of three hops, one of one hop.
    let mut d = Dag::new();
    d.add_edge(&v("s", "f"), &v("m1", "f"));
    d.add_edge(&v("m1", "f"), &v("m2", "f"));
    d.add_edge(&v("m2", "f"), &v("t", "goal"));
    d.add_edge(&v("s", "f"), &v("t2", "goal"));
    let p = d.reachable_predicate(&v("s", "f"), &"goal".to_owned()).unwrap();
    assert_eq!(p.len(), 2);
    assert!(p[0] == v("s", "f"));
    assert!(p[1] == v("t2", "goal"));
}

#[test]
fn search_breaks_ties_by_insertion_order() {
    let mut d = Dag::new();
    d.add_edge(&v("s", "f"), &v("t1", "goal"));
    d.add_edge(&v("s", "f"), &v("t2", "goal"));
    let p = d.reachable_predicate(&v("s", "f"), &"goal".to_owned()).unwrap();
    assert_eq!(p.len(), 2);
    assert!(p[1] == v("t1", "goal"));
}

#[test]
fn search_terminates_on_cycle_and_finds_goal() {
    // A cycle through the start vertex must not hang the search.
    let mut d = Dag::new();
    d.add_edge(&v("s", "f"), &v("a", "f"));
    d.add_edge(&v("a", "f"), &v("s", "f"));
    d.add_edge(&v("a", "f"), &v("t", "goal"));
    let p = d.reachable_predicate(&v("s", "f"), &"goal".to_owned()).unwrap();
    assert_eq!(p.len(), 3);
    assert!(p[0] == v("s", "f"));
    assert!(p[1] == v("a", "f"));
    assert!(p[2] == v("t", "goal"));
}

#[test]
fn search_terminates_on_cycle_without_goal() {
    let mut d = Dag::new();
    d.add_edge(&v("s", "f"), &v("a", "f"));
    d.add_edge(&v("a", "f"), &v("b", "f"));
    d.add_edge(&v("b", "f"), &v("s", "f"));
    assert!(d.reachable_predicate(&v("s", "f"), &"goal".to_owned()).is_none());
}

#[test]
fn search_start_satisfying_predicate() {
    let d = Dag::new();
    let p = d.reachable_predicate(&v("s", "goal"), &"goal".to_owned()).unwrap();
    assert_eq!(p.len(), 1);
    assert!(p[0] == v("s", "goal"));
}

#[test]
fn search_unknown_start_is_none() {
    let d = Dag::new();
    assert!(d.reachable_predicate(&v("s", "f"), &"goal".to_owned()).is_none());
}
