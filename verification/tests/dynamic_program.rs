use payback::dynamic_program::{dp, expand_number, number_and_subset, number_weight, one_indices, patcas_dp, Table};
use payback::graph::Graph;
use payback::partition::PartitionSolvingMethod;
use payback::probleminstance::ProblemInstance;

#[test]
fn test_expand_number_one_indices() {
    let num = 0b100110;
    assert_eq!(one_indices(num), vec![1, 2, 5]);
    assert_eq!(num, expand_number(&one_indices(num)));
}

#[test]
fn test_number_weight() {
    let weights: Vec<i64> = vec![1, 2, 4, 8, 16, 32, 64, 128];
    for i in 0..255 {
        assert_eq!(number_weight(i as u128, &weights), i as i128);
    }
}

#[test]
fn test_number_and_subset() {
    let num = 0b110;
    let mut expected_res: Vec<u128> = vec![0b100, 0b010, 0b110];
    expected_res.sort();
    let mut result = number_and_subset(num);
    result.sort();
    assert_eq!(result, expected_res);
}

#[test]
fn test_dp() {
    let i = 0b1100;
    let j = 0b0011;
    let weights = vec![2, 1, -1, -2];
    let table: &mut Table = &mut Table::new();
    dp(i, j, &weights, table);
    assert!(table.get(&(i, j)).is_some());
    assert_eq!(table.get(&(i, j)).unwrap().0, 2);
}

#[test]
fn test_patcas_dp() {
    let graph: Graph = Graph::from_weights(vec![-1, -1, 1, 1, 2, -2, 3, -3]);
    let instance = ProblemInstance::from(graph);
    let sol = patcas_dp(&instance, PartitionSolvingMethod::StarExpand);
    assert!(sol.is_some());
    assert_eq!(sol.unwrap().len(), 4);

    let graph: Graph = Graph::from_weights(vec![-2, -1, 1, 1, 2, -2, 3, -3]);
    let instance = ProblemInstance::from(graph);
    let sol = patcas_dp(&instance, PartitionSolvingMethod::StarExpand);
    assert!(sol.is_none());

    let graph: Graph = Graph::from_weights(vec![6, 3, 2, 1, -4, -8]);
    let instance = ProblemInstance::from(graph);
    let sol = patcas_dp(&instance, PartitionSolvingMethod::StarExpand);
    assert!(sol.is_some());
    assert_eq!(sol.unwrap().len(), 4);

    let graph: Graph = Graph::from_weights(vec![6, 3, 2, 1, -4, -8, 0]);
    let instance = ProblemInstance::from(graph);
    let sol = patcas_dp(&instance, PartitionSolvingMethod::StarExpand);
    assert!(sol.is_some());
    assert_eq!(sol.unwrap().len(), 4);

    let graph: Graph = Graph::from_weights(vec![1, 1, 1, 1, 1, 1, -6]);
    let instance = ProblemInstance::from(graph);
    let sol = patcas_dp(&instance, PartitionSolvingMethod::StarExpand);
    assert!(sol.is_some());
    assert_eq!(sol.unwrap().len(), 6);

    let graph: Graph = Graph::from_weights(vec![9, 4, 1, -6, -6, -2]);
    let instance = ProblemInstance::from(graph);
    let sol = patcas_dp(&instance, PartitionSolvingMethod::StarExpand);
    assert!(sol.is_some());
    assert_eq!(sol.unwrap().len(), 5);
}
