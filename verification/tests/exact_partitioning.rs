use std::collections::HashSet;

use payback::exact_partitioning::{collect_all_partitionigns, naive_all_partitioning};
use payback::graph::Graph;
use payback::partition::PartitionSolvingMethod;
use payback::probleminstance::ProblemInstance;

#[test]
fn exact_partitioning_test_perfect_matching_sol() {
    let graph: Graph = Graph::from_weights(vec![-1, -1, 1, 1, 2, -2, 3, -3]);
    let instance = ProblemInstance::from(graph);
    let sol = naive_all_partitioning(&instance, PartitionSolvingMethod::GreedySatsifaction);
    assert!(sol.is_some());
    assert!(sol.unwrap().len() == 4);

    let graph: Graph = Graph::from_weights(vec![6, 3, 2, 1, -4, -8]);
    let instance = ProblemInstance::from(graph);
    let sol = naive_all_partitioning(&instance, PartitionSolvingMethod::StarExpand);
    assert!(sol.is_some());
    assert_eq!(sol.unwrap().len(), 4);

    let graph: Graph = Graph::from_weights(vec![6, 3, 2, 1, -4, -8, 0]);
    let instance = ProblemInstance::from(graph);
    let sol = naive_all_partitioning(&instance, PartitionSolvingMethod::StarExpand);
    assert!(sol.is_some());
    assert_eq!(sol.unwrap().len(), 4);
}

#[test]
fn exact_partitioning_test_partitionings() {
    let v: Vec<i64> = vec![1, 2, 3];
    let acc = collect_all_partitionigns(&v);
    assert!(acc.len() == 5);
    let calulated: HashSet<Vec<Vec<&i64>>> = acc.into_iter().collect();
    let res: HashSet<Vec<Vec<&i64>>> = vec![
        vec![vec![&1, &2, &3]],
        vec![vec![&1], vec![&2, &3]],
        vec![vec![&1, &2], vec![&3]],
        vec![vec![&1, &3], vec![&2]],
        vec![vec![&1], vec![&2], vec![&3]],
    ]
    .into_iter()
    .collect();
    assert_eq!(calulated, res);

    let v: Vec<i64> = vec![1, 2, 3, 4];
    let acc = collect_all_partitionigns(&v);
    let res: HashSet<Vec<Vec<&i64>>> = vec![
        vec![vec![&1, &2, &3, &4]],
        vec![vec![&1], vec![&2, &3, &4]],
        vec![vec![&1, &2], vec![&3, &4]],
        vec![vec![&1, &3, &4], vec![&2]],
        vec![vec![&1], vec![&2], vec![&3, &4]],
        vec![vec![&1, &2, &3], vec![&4]],
        vec![vec![&1, &4], vec![&2, &3]],
        vec![vec![&1], vec![&2, &3], vec![&4]],
        vec![vec![&1, &3], vec![&2, &4]],
        vec![vec![&1, &2, &4], vec![&3]],
        vec![vec![&1], vec![&2, &4], vec![&3]],
        vec![vec![&1, &2], vec![&3], vec![&4]],
        vec![vec![&1, &3], vec![&2], vec![&4]],
        vec![vec![&1, &4], vec![&2], vec![&3]],
        vec![vec![&1], vec![&2], vec![&3], vec![&4]],
    ]
    .into_iter()
    .collect();
    let calulated: HashSet<Vec<Vec<&i64>>> = acc.into_iter().collect();
    assert_eq!(calulated, res);
}
