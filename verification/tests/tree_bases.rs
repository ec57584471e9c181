use payback::graph::Graph;
use payback::partition::PartitionSolvingMethod;
use payback::probleminstance::ProblemInstance;
use payback::tree_bases::best_partition;

#[test]
fn test_best_partition() {
    let graph: Graph = Graph::from_weights(vec![-1, -1, 1, 1, 2, -2, 3, -3]);
    let instance = ProblemInstance::from(graph);
    let sol = best_partition(&instance, PartitionSolvingMethod::StarExpand);
    assert!(sol.is_some());
    assert!(sol.unwrap().len() == 4);
}
