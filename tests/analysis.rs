use andersen::constraint::{Constraint, ConstraintKind};
use andersen::graph::ConstraintGraph;
use andersen::parser::{parse_constraint, parse_constraint_list, parse_identifier, ParseError};

fn solved(text: &str) -> ConstraintGraph {
    let cs = parse_constraint_list(text).expect("input parses");
    let mut g = ConstraintGraph::new();
    g.solve(&cs);
    g
}

fn pts(g: &ConstraintGraph, id: &str) -> Vec<String> {
    let mut l = g.points_to_ids(&id.to_string()).expect("node exists");
    l.sort();
    l
}

fn chars(s: &str) -> Vec<char> {
    s.chars().collect()
}

#[test]
fn copy_propagates_address() {
    let g = solved("a = &b; c = a;");
    assert_eq!(pts(&g, "b"), Vec::<String>::new());
    assert_eq!(pts(&g, "a"), vec!["b".to_string()]);
    assert_eq!(pts(&g, "c"), vec!["b".to_string()]);
    assert_eq!(g.edge_count(), 1);
    assert!(g.contains_edge(&"a".to_string(), &"c".to_string()));
    assert!(!g.contains_edge(&"c".to_string(), &"a".to_string()));
}

#[test]
fn load_takes_pointee_set() {
    let g = solved("a = &b; c = *a;");
    assert_eq!(g.edge_count(), 1);
    assert_eq!(pts(&g, "a"), vec!["b".to_string()]);
    assert_eq!(pts(&g, "b"), Vec::<String>::new());
    assert_eq!(pts(&g, "c"), Vec::<String>::new());
    assert!(g.contains_edge(&"b".to_string(), &"c".to_string()));
}

#[test]
fn load_with_nonempty_pointee() {
    let g = solved("a = &b; b = &x; c = *a;");
    assert_eq!(pts(&g, "c"), vec!["x".to_string()]);
}

#[test]
fn store_before_address_is_resolved() {
    let g = solved("a = &b; *a = c; c = &d;");
    assert_eq!(pts(&g, "a"), vec!["b".to_string()]);
    assert_eq!(pts(&g, "b"), vec!["d".to_string()]);
    assert_eq!(pts(&g, "c"), vec!["d".to_string()]);
    assert_eq!(pts(&g, "d"), Vec::<String>::new());
    assert!(g.contains_edge(&"c".to_string(), &"b".to_string()));
    assert_eq!(g.edge_count(), 1);
}

#[test]
fn copy_cycle_terminates_empty() {
    let g = solved("a = b; b = a;");
    assert_eq!(pts(&g, "a"), Vec::<String>::new());
    assert_eq!(pts(&g, "b"), Vec::<String>::new());
    assert_eq!(g.edge_count(), 2);
    assert!(g.contains_edge(&"a".to_string(), &"b".to_string()));
    assert!(g.contains_edge(&"b".to_string(), &"a".to_string()));
}

#[test]
fn copy_cycle_shares_facts() {
    let g = solved("a = b; b = a; a = &x; b = &y;");
    assert_eq!(pts(&g, "a"), vec!["x".to_string(), "y".to_string()]);
    assert_eq!(pts(&g, "b"), vec!["x".to_string(), "y".to_string()]);
}

#[test]
fn double_equals_is_rejected() {
    assert_eq!(parse_constraint_list("a == b").err(), Some(ParseError));
}

#[test]
fn whitespace_only_input_is_empty_graph() {
    let cs = parse_constraint_list("  \n\t \r\n ").expect("whitespace parses");
    assert_eq!(cs.len(), 0);
    let mut g = ConstraintGraph::new();
    g.solve(&cs);
    assert_eq!(g.node_count(), 0);
    assert_eq!(g.edge_count(), 0);
    assert_eq!(g.export_dot(), "digraph {\n}\n");
}

#[test]
fn export_lists_nodes_and_edges() {
    let g = solved("a = &b; c = a;");
    let expected = "digraph {\n  a [label=\"a\\n{b}\"]\n  b [label=\"b\\n{}\"]\n  c [label=\"c\\n{b}\"]\n  a -> c\n}\n";
    assert_eq!(g.export_dot(), expected);
}

#[test]
fn export_after_store() {
    let g = solved("a = &b; *a = c; c = &d;");
    let expected = "digraph {\n  a [label=\"a\\n{b}\"]\n  b [label=\"b\\n{d}\"]\n  c [label=\"c\\n{d}\"]\n  d [label=\"d\\n{}\"]\n  c -> b\n}\n";
    assert_eq!(g.export_dot(), expected);
}

#[test]
fn export_joins_with_commas() {
    let g = solved("p = &x; p = &y");
    assert_eq!(
        g.export_dot(),
        "digraph {\n  p [label=\"p\\n{x,y}\"]\n  x [label=\"x\\n{}\"]\n  y [label=\"y\\n{}\"]\n}\n"
    );
}

#[test]
fn export_twice_is_identical() {
    let g = solved("a = &b; *a = c; c = &d; e = *a; e = c");
    assert_eq!(g.export_dot(), g.export_dot());
}

#[test]
fn same_input_same_sets() {
    let text = "x = &o1; y = &o2; *x = y; z = *x; w = z; x = w;";
    let g1 = solved(text);
    let g2 = solved(text);
    assert_eq!(g1.node_ids(), g2.node_ids());
    for id in g1.node_ids() {
        assert_eq!(pts(&g1, &id), pts(&g2, &id));
    }
}

#[test]
fn facts_come_from_address_taken_only() {
    let g = solved("x = &o1; y = &o2; *x = y; z = *x; w = z; x = w;");
    for id in g.node_ids() {
        for o in pts(&g, &id) {
            assert!(o == "o1" || o == "o2");
        }
    }
    assert_eq!(pts(&g, "o1"), vec!["o2".to_string()]);
    assert_eq!(pts(&g, "z"), vec!["o2".to_string()]);
    assert_eq!(pts(&g, "x"), vec!["o1".to_string(), "o2".to_string()]);
}

#[test]
fn parses_each_kind() {
    let cs = parse_constraint_list("a = &b\nc = d\ne = *f\n*g = h").unwrap();
    let got: Vec<(String, String, ConstraintKind)> =
        cs.into_iter().map(|c: Constraint| (c.left, c.right, c.kind)).collect();
    assert_eq!(
        got,
        vec![
            ("a".to_string(), "b".to_string(), ConstraintKind::Addr),
            ("c".to_string(), "d".to_string(), ConstraintKind::Equal),
            ("e".to_string(), "f".to_string(), ConstraintKind::DerefRight),
            ("g".to_string(), "h".to_string(), ConstraintKind::DerefLeft),
        ]
    );
}

#[test]
fn parses_without_spaces_and_with_trailing_space() {
    let cs = parse_constraint_list("p1=&q2;*p1=r ; s =*  t;  \n").unwrap();
    assert_eq!(cs.len(), 3);
    assert_eq!(cs[0].left, "p1");
    assert_eq!(cs[0].right, "q2");
    assert_eq!(cs[1].kind, ConstraintKind::DerefLeft);
    assert_eq!(cs[2].right, "t");
}

#[test]
fn rejects_leftover_text() {
    assert_eq!(parse_constraint_list("a = b;;").err(), Some(ParseError));
    assert_eq!(parse_constraint_list("a = 1b").err(), Some(ParseError));
    assert_eq!(parse_constraint_list("a = bc = d").err(), Some(ParseError));
    assert_eq!(parse_constraint_list("a = &").err(), Some(ParseError));
    assert_eq!(parse_constraint_list("= b").err(), Some(ParseError));
}

#[test]
fn identifier_bounds() {
    let s = chars("ab1 c");
    assert_eq!(parse_identifier(&s, 0), 3);
    assert_eq!(parse_identifier(&s, 3), 3);
    assert_eq!(parse_identifier(&s, 4), 5);
    assert_eq!(parse_identifier(&chars("9a"), 0), 0);
}

#[test]
fn statement_with_separator() {
    let s = chars("  x = *y ; z = w");
    let (c, j) = parse_constraint(&s, 0).unwrap();
    assert_eq!(c.left, "x");
    assert_eq!(c.right, "y");
    assert_eq!(c.kind, ConstraintKind::DerefRight);
    assert_eq!(j, 10);
    let (c2, j2) = parse_constraint(&s, j).unwrap();
    assert_eq!(c2.kind, ConstraintKind::Equal);
    assert_eq!(j2, s.len());
    assert!(parse_constraint(&s, s.len()).is_none());
}

#[test]
fn add_node_is_idempotent() {
    let mut g = ConstraintGraph::new();
    g.add_node("a".to_string());
    g.add_node("b".to_string());
    g.add_node("a".to_string());
    assert_eq!(g.node_count(), 2);
    assert_eq!(g.node_ids(), vec!["a".to_string(), "b".to_string()]);
    assert_eq!(g.index_of(&"b".to_string()), Some(1));
    assert_eq!(g.index_of(&"z".to_string()), None);
}

#[test]
fn edges_added_by_hand() {
    let mut g = ConstraintGraph::new();
    g.add_node("a".to_string());
    g.add_node("b".to_string());
    assert!(!g.contains_edge(&"a".to_string(), &"b".to_string()));
    g.add_edge(&"a".to_string(), &"b".to_string());
    assert!(g.contains_edge(&"a".to_string(), &"b".to_string()));
    assert_eq!(g.edge_count(), 1);
}

#[test]
fn stages_one_by_one() {
    let cs = parse_constraint_list("a = &b; c = a; d = *c").unwrap();
    let mut g = ConstraintGraph::new();
    g.init_nodes(&cs);
    assert_eq!(g.node_count(), 4);
    g.init_basic_ptrs(&cs);
    assert_eq!(pts(&g, "a"), vec!["b".to_string()]);
    assert_eq!(pts(&g, "c"), Vec::<String>::new());
    g.init_simple_edges(&cs);
    assert_eq!(g.edge_count(), 1);
    g.solve_complex_edges(&cs);
    assert_eq!(pts(&g, "c"), vec!["b".to_string()]);
    assert!(g.contains_edge(&"b".to_string(), &"d".to_string()));
}

#[test]
fn unknown_identifier_has_no_set() {
    let g = solved("a = &b");
    assert!(g.points_to_ids(&"q".to_string()).is_none());
}

#[test]
fn unicode_identifiers() {
    let g = solved("é1 = &ß; ω = é1");
    assert_eq!(pts(&g, "ω"), vec!["ß".to_string()]);
}

#[test]
fn repeated_copy_makes_one_edge() {
    let g = solved("a = b; a = b; b = &c");
    assert_eq!(g.edge_count(), 1);
    assert_eq!(pts(&g, "a"), vec!["c".to_string()]);
}

#[test]
fn store_and_load_through_same_pointer() {
    let g = solved("p = &x; q = &y; *p = q; r = *p");
    assert_eq!(pts(&g, "x"), vec!["y".to_string()]);
    assert_eq!(pts(&g, "r"), vec!["y".to_string()]);
    assert!(g.contains_edge(&"q".to_string(), &"x".to_string()));
    assert!(g.contains_edge(&"x".to_string(), &"r".to_string()));
}

#[test]
fn constraint_order_does_not_change_result() {
    let g1 = solved("a = &b; *a = c; c = &d;");
    let g2 = solved("c = &d; a = &b; *a = c;");
    for id in ["a", "b", "c", "d"] {
        assert_eq!(pts(&g1, id), pts(&g2, id));
    }
    assert_eq!(g1.edge_count(), g2.edge_count());
    assert!(g2.contains_edge(&"c".to_string(), &"b".to_string()));
}

#[test]
fn dynamic_edges_are_not_repeated() {
    let g = solved("p = &x; q = &x; r = *p; r = *q; *p = s; *q = s");
    assert_eq!(g.edge_count(), 2);
    assert!(g.contains_edge(&"x".to_string(), &"r".to_string()));
    assert!(g.contains_edge(&"s".to_string(), &"x".to_string()));
}
