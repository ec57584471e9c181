use payback::graph::{Edge, Graph};
use payback::graph_parser::{
    edge_records_fit, graph_from_edge_records, graph_from_node_records, EdgeRecord, NodeRecord,
};

fn edge_list(entries: &[(&str, &str, i64)]) -> Vec<((String, String), i64)> {
    entries
        .iter()
        .map(|(a, b, w)| ((a.to_string(), b.to_string()), *w))
        .collect()
}

fn names_and_weights(g: &Graph) -> Vec<(String, i64)> {
    g.vertices().iter().map(|v| (v.name.clone(), v.weight)).collect()
}

#[test]
fn graph_from_weights_names_by_position() {
    let g = Graph::from_weights(vec![-2, -1, 1, 2]);
    let ids: Vec<usize> = g.vertices().iter().map(|v| v.id).collect();
    assert_eq!(ids, vec![0, 1, 2, 3]);
    assert_eq!(
        names_and_weights(&g),
        vec![
            ("0".to_string(), -2),
            ("1".to_string(), -1),
            ("2".to_string(), 1),
            ("3".to_string(), 2)
        ]
    );
}

#[test]
fn graph_names_past_nine_have_two_digits() {
    let g = Graph::from_weights(vec![0; 12]);
    assert_eq!(g.get_node_name(10), Some("10".to_string()));
    assert_eq!(g.get_node_name(11), Some("11".to_string()));
}

#[test]
fn graph_edges_are_all_ordered_pairs() {
    let g = Graph::from_weights(vec![1, 2, -3]);
    assert_eq!(
        g.edges().clone(),
        vec![
            Edge { u: 0, v: 1 },
            Edge { u: 0, v: 2 },
            Edge { u: 1, v: 0 },
            Edge { u: 1, v: 2 },
            Edge { u: 2, v: 0 },
            Edge { u: 2, v: 1 },
        ]
    );
    let g = Graph::from_weights(vec![5]);
    assert!(g.edges().is_empty());
}

#[test]
fn graph_lookups() {
    let g = Graph::from_named_weights(vec![
        ("A".to_string(), -2),
        ("B".to_string(), -1),
        ("C".to_string(), 1),
        ("D".to_string(), 2),
    ]);
    assert_eq!(g.get_node_from_name("C".to_string()).unwrap().id, 2);
    assert!(g.get_node_from_name("E".to_string()).is_none());
    assert_eq!(g.get_node_from_id(3).unwrap().weight, 2);
    assert!(g.get_node_from_id(4).is_none());
    assert_eq!(g.get_node_name(1), Some("B".to_string()));
    assert_eq!(g.get_node_name(9), None);
    assert_eq!(g.get_node_name_or(0, "x".to_string()), "A".to_string());
    assert_eq!(g.get_node_name_or(9, "x".to_string()), "x".to_string());
}

#[test]
fn graph_from_weighted_edges_readme_example() {
    let g = Graph::from_weighted_edges(edge_list(&[("A", "C", 1), ("A", "D", 1), ("B", "D", 1)]));
    assert_eq!(
        names_and_weights(&g),
        vec![
            ("A".to_string(), -2),
            ("C".to_string(), 1),
            ("D".to_string(), 2),
            ("B".to_string(), -1)
        ]
    );
    assert_eq!(g.vertices().iter().map(|v| v.weight).sum::<i64>(), 0);
}

#[test]
fn graph_from_weighted_edges_later_entry_wins_and_loops_move_nothing() {
    let g = Graph::from_weighted_edges(edge_list(&[("A", "B", 5), ("B", "B", 3), ("A", "B", 2)]));
    assert_eq!(
        names_and_weights(&g),
        vec![("A".to_string(), -2), ("B".to_string(), 2)]
    );
    let g = Graph::from_weighted_edges(edge_list(&[("A", "A", 4)]));
    assert_eq!(names_and_weights(&g), vec![("A".to_string(), 0)]);
}

#[test]
fn graph_records() {
    let nodes = vec![
        NodeRecord { name: "A".to_string(), weight: -1 },
        NodeRecord { name: "B".to_string(), weight: 2 },
        NodeRecord { name: "C".to_string(), weight: -1 },
    ];
    assert_eq!(nodes[1].to_tuple(), ("B".to_string(), 2));
    let g = graph_from_node_records(&nodes);
    assert_eq!(
        names_and_weights(&g),
        vec![("A".to_string(), -1), ("B".to_string(), 2), ("C".to_string(), -1)]
    );
    let edges = vec![
        EdgeRecord { from: "A".to_string(), to: "B".to_string(), weight: 1 },
        EdgeRecord { from: "B".to_string(), to: "C".to_string(), weight: 1 },
        EdgeRecord { from: "C".to_string(), to: "A".to_string(), weight: 1 },
    ];
    assert_eq!(edges[0].to_tuple(), (("A".to_string(), "B".to_string()), 1));
    assert!(edge_records_fit(&edges));
    let g = graph_from_edge_records(&edges);
    assert_eq!(
        names_and_weights(&g),
        vec![("A".to_string(), 0), ("B".to_string(), 0), ("C".to_string(), 0)]
    );
    let big = vec![
        EdgeRecord { from: "A".to_string(), to: "B".to_string(), weight: i64::MAX },
        EdgeRecord { from: "C".to_string(), to: "B".to_string(), weight: i64::MAX },
    ];
    assert!(!edge_records_fit(&big));
}
