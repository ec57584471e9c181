use payback::approximation::{greedy_satisfaction, star_expand};
use payback::graph::{Edge, Graph};
use payback::probleminstance::ProblemInstance;

#[test]
fn approximation_test_star_expand() {
    let graph: Graph = Graph::from_named_weights(vec![
        ("A".to_owned(), -2_i64),
        ("B".to_owned(), 2_i64),
        ("C".to_owned(), 3_i64),
        ("D".to_owned(), -4_i64),
    ]);
    let instance: ProblemInstance = graph.into();
    let sol = star_expand(&instance);
    assert!(sol.is_none());

    let graph: Graph = Graph::from_named_weights(vec![
        ("A".to_owned(), -1_i64),
        ("B".to_owned(), 2_i64),
        ("C".to_owned(), 3_i64),
        ("D".to_owned(), -4_i64),
    ]);
    let instance: ProblemInstance = graph.into();
    let sol_opt = star_expand(&instance);
    assert!(sol_opt.is_some());
    let na = instance.graph().get_node_from_name("A".to_owned()).unwrap();
    let nb = instance.graph().get_node_from_name("B".to_owned()).unwrap();
    let nc = instance.graph().get_node_from_name("C".to_owned()).unwrap();
    let nd = instance.graph().get_node_from_name("D".to_owned()).unwrap();
    let res: Vec<(Edge, f64)> = vec![
        (Edge { u: nc.id, v: na.id }, 1.0_f64),
        (Edge { u: nc.id, v: nd.id }, 4.0_f64),
        (Edge { u: nb.id, v: nc.id }, 2.0_f64),
    ];
    let sol = sol_opt.unwrap();
    for (e, w) in sol {
        let found = res.iter().find(|(re, _)| *re == e);
        assert!(found.is_some(), "Edge '{:?}' should not be in the solution.", e);
        let rew = found.unwrap().1;
        assert!(
            rew == w as f64,
            "Edge '{:?}' should have a weight of '{:?}' but has '{:?}'",
            e,
            rew,
            w
        );
    }
}

#[test]
fn approximation_test_greedy_satisfaction() {
    let graph: Graph = Graph::from_named_weights(vec![
        ("A".to_owned(), -2_i64),
        ("B".to_owned(), 2_i64),
        ("C".to_owned(), 3_i64),
        ("D".to_owned(), -4_i64),
    ]);
    let instance: ProblemInstance = graph.into();
    let sol = greedy_satisfaction(&instance);
    assert!(sol.is_none());

    let graph: Graph = Graph::from_named_weights(vec![
        ("A".to_owned(), -1_i64),
        ("B".to_owned(), 2_i64),
        ("C".to_owned(), 3_i64),
        ("D".to_owned(), -4_i64),
    ]);
    let instance: ProblemInstance = graph.into();
    let sol = greedy_satisfaction(&instance);
    assert!(sol.is_some());
    assert_eq!(sol.unwrap().into_iter().map(|(_, v)| v as f64).sum::<f64>(), 5_f64);
}
