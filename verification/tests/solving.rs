use std::collections::HashMap;

use payback::approximation::{greedy_satisfaction, star_expand};
use payback::dynamic_program::{dp, expand_number, number_and_subset, one_indices, patcas_dp, table_extract_partitioning, Table};
use payback::exact_partitioning::{collect_all_partitionigns, naive_all_partitioning, partition_solver};
use payback::graph::{Edge, Graph};
use payback::partition::{PartitionSolvingMethod, ProblemInstancePartition};
use payback::probleminstance::{ProblemInstance, SolvingMethods};
use payback::solution::Solution;
use payback::tree_bases::{best_partition, best_partition_rec, zero_sum_subsets};

/// What each vertex receives minus what it pays.
fn net_flows(sol: &[(Edge, i128)]) -> HashMap<usize, i128> {
    let mut m = HashMap::new();
    for (e, a) in sol {
        *m.entry(e.u).or_insert(0) += *a;
        *m.entry(e.v).or_insert(0) -= *a;
    }
    m
}

fn assert_settles(g: &Graph, sol: &[(Edge, i128)]) {
    let flows = net_flows(sol);
    for v in g.vertices() {
        assert_eq!(*flows.get(&v.id).unwrap_or(&0), v.weight as i128, "vertex {}", v.name);
    }
    for (e, a) in sol {
        assert!(e.u != e.v);
        assert!(*a >= 0);
    }
}

const ALL_METHODS: [SolvingMethods; 8] = [
    SolvingMethods::ApproxStarExpand,
    SolvingMethods::ApproxGreedySatisfaction,
    SolvingMethods::PartitioningStarExpand,
    SolvingMethods::PartitioningGreedySatisfaction,
    SolvingMethods::BranchingPartitionStarExpand,
    SolvingMethods::BranchingPartitionGreedySatisfaction,
    SolvingMethods::DPStarExpand,
    SolvingMethods::DPGreedySatisfaction,
];

#[test]
fn every_method_settles_a_solvable_network() {
    let instance = ProblemInstance::from(Graph::from_weights(vec![-2, -1, 1, 2, 0]));
    for m in ALL_METHODS {
        assert!(instance.method_applies(m));
        let sol = instance.solve_with(m).unwrap();
        assert_settles(instance.graph(), &sol);
    }
}

#[test]
fn every_method_refuses_an_unbalanced_network() {
    let instance = ProblemInstance::from(Graph::from_weights(vec![-2, -1, 1, 1]));
    for m in ALL_METHODS {
        if instance.method_applies(m) {
            assert!(instance.solve_with(m).is_none());
        }
    }
}

#[test]
fn star_expand_has_one_transfer_per_other_vertex() {
    let instance = ProblemInstance::from(Graph::from_weights(vec![6, 3, 2, 1, -4, -8]));
    let sol = star_expand(&instance).unwrap();
    assert_eq!(sol.len(), 5);
    assert_settles(instance.graph(), &sol);
    // The center is the heaviest vertex, 0.
    assert!(sol.iter().all(|(e, _)| e.u == 0 || e.v == 0));
}

#[test]
fn greedy_moves_half_the_absolute_weights() {
    let instance = ProblemInstance::from(Graph::from_weights(vec![6, 3, 2, 1, -4, -8]));
    let sol = greedy_satisfaction(&instance).unwrap();
    assert_settles(instance.graph(), &sol);
    let total: i128 = sol.iter().map(|(_, a)| *a).sum();
    assert_eq!(total, 12);
    assert_eq!(instance.optimal_transaction_amount(), 12);
    let star: i128 = star_expand(&instance).unwrap().iter().map(|(_, a)| *a).sum();
    assert!(star >= total);
    assert_eq!(star, 18);
}

#[test]
fn greedy_passes_creditors_of_weight_zero_in_order() {
    let instance = ProblemInstance::from(Graph::from_weights(vec![0, 3, -3]));
    let sol = greedy_satisfaction(&instance).unwrap();
    assert_eq!(sol, vec![(Edge { u: 0, v: 2 }, 0), (Edge { u: 1, v: 2 }, 3)]);
    assert_settles(instance.graph(), &sol);
}

#[test]
fn greedy_when_the_first_debtor_owes_more() {
    let instance = ProblemInstance::from(Graph::from_weights(vec![-5, 2, 3]));
    let sol = greedy_satisfaction(&instance).unwrap();
    assert_eq!(sol, vec![(Edge { u: 1, v: 0 }, 2), (Edge { u: 2, v: 0 }, 3)]);
    assert_settles(instance.graph(), &sol);
}

#[test]
fn naive_solver_on_empty_and_unbalanced_networks() {
    let instance = ProblemInstance::from(Graph::from_weights(vec![]));
    assert_eq!(naive_all_partitioning(&instance, PartitionSolvingMethod::StarExpand), Some(vec![]));
    let instance = ProblemInstance::from(Graph::from_weights(vec![1, 2, -4]));
    assert!(naive_all_partitioning(&instance, PartitionSolvingMethod::StarExpand).is_none());
}

#[test]
fn partitionings_of_four_items_are_fifteen() {
    let v: Vec<u8> = vec![1, 2, 3, 4];
    let ps = collect_all_partitionigns(&v);
    assert_eq!(ps.len(), 15);
    assert_eq!(ps[0], vec![vec![&1, &2, &3, &4]]);
    assert_eq!(ps[14], vec![vec![&1], vec![&2], vec![&3], vec![&4]]);
    let empty: Vec<u8> = vec![];
    assert_eq!(collect_all_partitionigns(&empty).len(), 1);
}

#[test]
fn one_indices_and_back_at_the_extremes() {
    assert_eq!(one_indices(0), Vec::<usize>::new());
    assert_eq!(expand_number(&one_indices(u128::MAX)), u128::MAX);
    assert_eq!(one_indices(1u128 << 127), vec![127]);
    for x in [0u128, 1, 2, 5, 1000, 0xdead_beef] {
        assert_eq!(expand_number(&one_indices(x)), x);
    }
}

#[test]
fn number_and_subset_lists_the_nonzero_submasks_in_powerset_order() {
    assert_eq!(number_and_subset(0b1011), vec![0b1, 0b10, 0b1000, 0b11, 0b1001, 0b1010, 0b1011]);
    assert!(number_and_subset(0).is_empty());
}

#[test]
fn dp_on_masks_that_do_not_cancel() {
    let weights = vec![1, -2];
    let table = &mut Table::new();
    assert_eq!(dp(0b01, 0b10, &weights, table), None);
    assert!(table.get(&(0b01, 0b10)).is_none());
    assert_eq!(dp(0, 0, &weights, table), Some(0));
    let weights = vec![2, 1, -1, -2];
    let table = &mut Table::new();
    assert_eq!(dp(0b0011, 0b1100, &weights, table), Some(2));
    assert_eq!(dp(0b0001, 0b1000, &weights, table), Some(1));
}

#[test]
fn patcas_settles_and_splits_into_zero_sum_blocks() {
    let instance = ProblemInstance::from(Graph::from_weights(vec![9, 4, 1, -6, -6, -2, 0]));
    let sol = patcas_dp(&instance, PartitionSolvingMethod::StarExpand).unwrap();
    assert_settles(instance.graph(), &sol);
    assert_eq!(sol.len(), 5);
    let sol = patcas_dp(&instance, PartitionSolvingMethod::GreedySatsifaction).unwrap();
    assert_settles(instance.graph(), &sol);
    let instance = ProblemInstance::from(Graph::from_weights(vec![0, 0]));
    assert_eq!(patcas_dp(&instance, PartitionSolvingMethod::StarExpand), Some(vec![]));
}

#[test]
fn zero_sum_subsets_in_powerset_order() {
    let g = Graph::from_weights(vec![1, -1, 0]);
    let subsets = zero_sum_subsets(g.vertices());
    let ids: Vec<Vec<usize>> = subsets.iter().map(|s| s.iter().map(|v| v.id).collect()).collect();
    assert_eq!(ids, vec![vec![], vec![2], vec![0, 1], vec![0, 1, 2]]);
}

#[test]
fn branching_solver_splits_into_most_zero_sum_blocks() {
    let instance = ProblemInstance::from(Graph::from_weights(vec![1, -1, 0, 2, -2]));
    let sol = best_partition(&instance, PartitionSolvingMethod::StarExpand).unwrap();
    assert_eq!(sol.len(), 2);
    assert_settles(instance.graph(), &sol);
    let instance = ProblemInstance::from(Graph::from_weights(vec![6, 3, 2, 1, -4, -8]));
    assert!(instance.method_applies(SolvingMethods::BranchingPartitionStarExpand));
    assert!(instance.method_applies(SolvingMethods::DPStarExpand));
    let sol = best_partition(&instance, PartitionSolvingMethod::GreedySatsifaction).unwrap();
    assert_eq!(sol.len(), 4);
    assert_settles(instance.graph(), &sol);
    let instance = ProblemInstance::from(Graph::from_weights(vec![1, 2]));
    assert!(best_partition(&instance, PartitionSolvingMethod::StarExpand).is_none());
}

#[test]
fn best_partition_rec_keeps_the_whole_set_when_nothing_smaller_balances() {
    let g = Graph::from_weights(vec![1, 1, -2]);
    let mut current: Vec<Vec<payback::graph::NamedNode>> = Vec::new();
    let parts = best_partition_rec(g.vertices(), &mut current);
    let ids: Vec<Vec<usize>> = parts.iter().map(|s| s.iter().map(|v| v.id).collect()).collect();
    assert_eq!(ids, vec![vec![0, 1, 2]]);
    assert_eq!(current.len(), 1);
}

#[test]
fn best_partition_rec_counts_the_blocks_of_pairs_and_zeros() {
    let g = Graph::from_weights(vec![-1, -1, 1, 1, 2, -2, 3, -3, 0]);
    let mut current: Vec<Vec<payback::graph::NamedNode>> = Vec::new();
    let parts = best_partition_rec(g.vertices(), &mut current);
    assert_eq!(parts.len(), 5);
    for block in &parts {
        assert_eq!(block.iter().map(|v| v.weight).sum::<i64>(), 0);
    }
    let mut ids: Vec<usize> = parts.iter().flat_map(|s| s.iter().map(|v| v.id)).collect();
    ids.sort();
    assert_eq!(ids, (0..9).collect::<Vec<usize>>());
}

#[test]
fn solution_lines_name_the_payer_first() {
    let instance = ProblemInstance::from(Graph::from_named_weights(vec![
        ("A".to_string(), -1),
        ("B".to_string(), 1),
    ]));
    let sol = instance.solve_with(SolvingMethods::ApproxStarExpand);
    assert_eq!(sol, Some(vec![(Edge { u: 1, v: 0 }, 1)]));
    assert_eq!(
        instance.solution_lines(&sol),
        Ok(vec![("A".to_string(), "B".to_string(), 1)])
    );
    assert_eq!(instance.solution_lines(&None), Err("No result was found.".to_string()));
    let unknown = Some(vec![(Edge { u: 7, v: 0 }, 4)]);
    assert_eq!(
        instance.solution_lines(&unknown),
        Ok(vec![("A".to_string(), "7".to_string(), 4)])
    );
}

#[test]
fn partition_instance_interprets_receiver_first() {
    let instance = ProblemInstancePartition::from(Graph::from_named_weights(vec![
        ("A".to_string(), -1),
        ("B".to_string(), 1),
    ]));
    assert!(instance.is_solvable());
    assert_eq!(
        instance.solve_and_interpret(),
        Some(vec![("B".to_string(), "A".to_string(), 1)])
    );
    assert_eq!(instance.optimal_transaction_amount(), 2);
    let instance = ProblemInstancePartition::from(Graph::from_weights(vec![1, 1]));
    assert!(!instance.is_solvable());
    assert_eq!(instance.solve_and_interpret(), None);
    assert_eq!(instance.solve_and_interpret_with(PartitionSolvingMethod::StarExpand), None);
}

#[test]
fn optimal_amount_halves_the_absolute_weights() {
    let instance = ProblemInstance::from(Graph::from_weights(vec![-2, -1, 1, 2]));
    assert_eq!(instance.optimal_transaction_amount(), 3);
    assert!(instance.is_solvable());
}

#[test]
fn approximations_stay_within_twice_an_exact_solution() {
    let instance = ProblemInstance::from(Graph::from_weights(vec![6, 3, 2, 1, -4, -8]));
    let exact = patcas_dp(&instance, PartitionSolvingMethod::StarExpand).unwrap();
    let star = star_expand(&instance).unwrap();
    let greedy = greedy_satisfaction(&instance).unwrap();
    assert_eq!(exact.len(), 4);
    assert!(star.len() < 2 * exact.len());
    assert!(greedy.len() < 2 * exact.len());
}

#[test]
fn expand_number_sets_a_repeated_index_once() {
    assert_eq!(expand_number(&[1, 1]), 0b10);
    assert_eq!(expand_number(&[5, 0, 5]), 0b100001);
    assert_eq!(expand_number(&[]), 0);
}

#[test]
fn transfer_positions_give_payer_then_receiver() {
    let instance = ProblemInstance::from(Graph::from_named_weights(vec![
        ("a".to_string(), 5),
        ("b".to_string(), -5),
    ]));
    let sol: Solution = Some(vec![(Edge { u: 0, v: 1 }, 5)]);
    assert_eq!(instance.transfer_positions(&sol), Ok(vec![(1, 0, 5)]));
    assert_eq!(instance.transfer_positions(&None), Err(None));
    let bad: Solution = Some(vec![(Edge { u: 0, v: 7 }, 5)]);
    assert_eq!(instance.transfer_positions(&bad), Err(Some(7)));
    assert_eq!(instance.graph().position_of_id(1), Some(1));
    assert_eq!(instance.graph().position_of_id(9), None);
}

#[test]
fn exact_solvers_agree_on_the_fewest_transfers() {
    let instance = ProblemInstance::from(Graph::from_weights(vec![6, 3, 2, 1, -4, -8]));
    let naive = naive_all_partitioning(&instance, PartitionSolvingMethod::StarExpand).unwrap();
    let dp_sol = patcas_dp(&instance, PartitionSolvingMethod::StarExpand).unwrap();
    let branching = best_partition(&instance, PartitionSolvingMethod::StarExpand).unwrap();
    assert_eq!(naive.len(), 4);
    assert_eq!(dp_sol.len(), 4);
    assert_eq!(branching.len(), 4);
}

#[test]
fn dp_reads_a_table_whose_entries_hold_right_values() {
    let i = 0b1100;
    let j = 0b0011;
    let weights = vec![2, 1, -1, -2];
    let mut table = Table::new();
    table.insert((0b0100, 0b0010), (1, Some((7, 7))));
    assert_eq!(dp(i, j, &weights, &mut table), Some(2));
    assert_eq!(table.get(&(i, j)).unwrap().0, 2);
    assert_eq!(table.get(&(0b0100, 0b0010)), Some(&(1, Some((7, 7)))));

    let mut fresh = Table::new();
    assert_eq!(dp(i, j, &weights, &mut fresh), Some(2));
    let masks = table_extract_partitioning(i, j, &fresh);
    assert_eq!(masks.len(), 4 - 2);
    assert_eq!(masks.iter().fold(0u128, |a, x| a | x), i | j);
    for (s, x) in masks.iter().enumerate() {
        assert!(x & i != 0 && x & j != 0);
        assert_eq!(number_weight_of(*x, &weights), 0);
        for y in masks.iter().skip(s + 1) {
            assert_eq!(x & y, 0);
        }
    }
}

/// The weights at the ones of `x`, added up.
fn number_weight_of(x: u128, weights: &[i64]) -> i64 {
    (0..weights.len()).filter(|k| (x >> k) & 1 == 1).map(|k| weights[k]).sum()
}

#[test]
fn partition_solver_settles_disjoint_blocks_once_per_edge() {
    let g = Graph::from_weights(vec![1, -1, 2, -2]);
    let v = g.vertices();
    let blocks = vec![vec![&v[0], &v[1]], vec![&v[2], &v[3]]];
    let sol = partition_solver(&blocks, PartitionSolvingMethod::StarExpand).unwrap();
    assert_eq!(sol.len(), 2);
    assert_ne!(sol[0].0, sol[1].0);
    assert_settles(&g, &sol);
}

#[test]
fn every_set_partition_is_listed_once() {
    let bell = [1usize, 1, 2, 5, 15, 52];
    for (n, expected) in bell.iter().enumerate() {
        let items: Vec<usize> = (0..n).collect();
        let parts = collect_all_partitionigns(&items);
        assert_eq!(parts.len(), *expected);
        let mut seen: Vec<Vec<Vec<usize>>> = Vec::new();
        for p in &parts {
            let mut blocks: Vec<Vec<usize>> = p.iter().map(|b| {
                let mut v: Vec<usize> = b.iter().map(|x| **x).collect();
                v.sort();
                v
            }).collect();
            blocks.sort();
            assert!(!seen.contains(&blocks));
            seen.push(blocks);
        }
    }
}
