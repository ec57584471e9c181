use std::collections::HashSet;

use payback::exact_partitioning::collect_all_partitionigns;
use payback::graph::{Edge, Graph};
use payback::partition::ProblemInstancePartition;

#[test]
fn partition_test_perfect_matching_sol() {
    let graph: Graph = Graph::from_weights(vec![-1, -1, 1, 1, 2, -2, 3, -3]);
    let instance = ProblemInstancePartition::from(graph);
    let sol = instance.solve();
    assert!(sol.is_some());
    assert!(sol.unwrap().len() == 4);
}

#[test]
fn partition_test_star_expand() {
    let graph: Graph = Graph::from_named_weights(vec![
        ("A".to_owned(), -2_i64),
        ("B".to_owned(), 2_i64),
        ("C".to_owned(), 3_i64),
        ("D".to_owned(), -4_i64),
    ]);
    let instance: ProblemInstancePartition = graph.into();
    assert!(instance.star_expand().is_none());

    let graph: Graph = Graph::from_named_weights(vec![
        ("A".to_owned(), -1_i64),
        ("B".to_owned(), 2_i64),
        ("C".to_owned(), 3_i64),
        ("D".to_owned(), -4_i64),
    ]);
    let instance: ProblemInstancePartition = graph.into();
    let sol_opt = instance.star_expand();
    assert!(sol_opt.is_some());
    let na = instance.graph().get_node_from_name("A".to_owned()).unwrap();
    let nb = instance.graph().get_node_from_name("B".to_owned()).unwrap();
    let nc = instance.graph().get_node_from_name("C".to_owned()).unwrap();
    let nd = instance.graph().get_node_from_name("D".to_owned()).unwrap();
    let res: Vec<(Edge, f64)> = vec![
        (Edge { u: nc.id, v: na.id }, 1.0_f64),
        (Edge { u: nc.id, v: nd.id }, 4.0_f64),
        (Edge { u: nb.id, v: nc.id }, 2.0_f64),
    ];
    let sol = sol_opt.unwrap();
    for (e, w) in sol {
        let found = res.iter().find(|(re, _)| *re == e);
        assert!(found.is_some(), "Edge '{:?}' should not be in the solution.", e);
        let rew = found.unwrap().1;
        assert!(
            rew == w as f64,
            "Edge '{:?}' should have a weight of '{:?}' but has '{:?}'",
            e,
            rew,
            w
        );
    }
}

#[test]
fn partition_test_partitionings() {
    let v: Vec<i64> = vec![1, 2, 3];
    let acc = collect_all_partitionigns(&v);
    assert!(acc.len() == 5);
    let calulated: HashSet<Vec<Vec<&i64>>> = acc.into_iter().collect();
    let res: HashSet<Vec<Vec<&i64>>> = vec![
        vec![vec![&1, &2, &3]],
        vec![vec![&1], vec![&2, &3]],
        vec![vec![&1, &2], vec![&3]],
        vec![vec![&1, &3], vec![&2]],
        vec![vec![&1], vec![&2], vec![&3]],
    ]
    .into_iter()
    .collect();
    assert_eq!(calulated, res);

    let v: Vec<i64> = vec![1, 2, 3, 4];
    let acc = collect_all_partitionigns(&v);
    let res: HashSet<Vec<Vec<&i64>>> = vec![
        vec![vec![&1, &2, &3, &4]],
        vec![vec![&1], vec![&2, &3, &4]],
        vec![vec![&1, &2], vec![&3, &4]],
        vec![vec![&1, &3, &4], vec![&2]],
        vec![vec![&1], vec![&2], vec![&3, &4]],
        vec![vec![&1, &2, &3], vec![&4]],
        vec![vec![&1, &4], vec![&2, &3]],
        vec![vec![&1], vec![&2, &3], vec![&4]],
        vec![vec![&1, &3], vec![&2, &4]],
        vec![vec![&1, &2, &4], vec![&3]],
        vec![vec![&1], vec![&2, &4], vec![&3]],
        vec![vec![&1, &2], vec![&3], vec![&4]],
        vec![vec![&1, &3], vec![&2], vec![&4]],
        vec![vec![&1, &4], vec![&2], vec![&3]],
        vec![vec![&1], vec![&2], vec![&3], vec![&4]],
    ]
    .into_iter()
    .collect();
    let calulated: HashSet<Vec<Vec<&i64>>> = acc.into_iter().collect();
    assert_eq!(calulated, res);
}

#[test]
fn partition_test_greedy_satisfaction() {
    let graph: Graph = Graph::from_named_weights(vec![
        ("A".to_owned(), -2_i64),
        ("B".to_owned(), 2_i64),
        ("C".to_owned(), 3_i64),
        ("D".to_owned(), -4_i64),
    ]);
    let instance: ProblemInstancePartition = graph.into();
    let _sol = instance.greedy_satisfaction();
    assert!(instance.star_expand().is_none());

    let graph: Graph = Graph::from_named_weights(vec![
        ("A".to_owned(), -1_i64),
        ("B".to_owned(), 2_i64),
        ("C".to_owned(), 3_i64),
        ("D".to_owned(), -4_i64),
    ]);
    let instance: ProblemInstancePartition = graph.into();
    let sol = instance.greedy_satisfaction();
    assert!(sol.is_some());
    assert_eq!(sol.unwrap().into_iter().map(|(_, v)| v as f64).sum::<f64>(), 5_f64);
}
