//! The partition based solver, as an instance type of its own.
use crate::approximation::{greedy_satisfaction_nodes, greedy_transfers, star_expand_nodes, star_transfers};
use crate::exact_partitioning::{
    blocks_view, naive_all_partitioning_nodes, naive_transfers, partition_solver, partition_transfers,
};
use crate::graph::{decimal_string, ids_distinct, name_or_id, total_abs_weight, Edge, Graph, NamedNode};
use crate::probleminstance::{abs_weight_sum, nodes_solvable, solvable};
use crate::solution::{settles, Solution};
use vstd::prelude::*;

verus! {

/// The approximation scheme that settles each block of a partitioning.
#[derive(Debug, Clone, Copy)]
pub enum PartitionSolvingMethod {
    StarExpand,
    GreedySatsifaction,
}

/// One line of an interpreted solution: two names and an amount.
pub type Line = (String, String, i128);

/// The lines read as values.
pub open spec fn lines_view(lines: Seq<Line>) -> Seq<(Seq<char>, Seq<char>, i128)> {
    lines.map_values(|l: Line| (l.0@, l.1@, l.2))
}

/// The line for a transfer `(Edge { u, v }, a)`: the name of `u`, then of `v`,
/// and the amount, where it is not negative; the other way round otherwise.
pub open spec fn receiver_line(vs: Seq<NamedNode>, t: (Edge, i128)) -> (Seq<char>, Seq<char>, i128) {
    if t.1 >= 0 {
        (name_or_id(vs, t.0.u), name_or_id(vs, t.0.v), t.1)
    } else {
        (name_or_id(vs, t.0.v), name_or_id(vs, t.0.u), (-t.1) as i128)
    }
}

/// The line of a transfer names first the vertex that receives and then the
/// one that pays, with the amount: for `(Edge { u, v }, a)` with `a >= 0`, `u`
/// receives `a` from `v`, so `u` comes first whatever the identifiers are;
/// with `a < 0` the other way round, with `-a`.
pub proof fn law_receiver_line(vs: Seq<NamedNode>, x: (Edge, i128))
    requires
        x.0.u != x.0.v,
        x.1 > i128::MIN,
    ensures
        x.1 >= 0 ==> receiver_line(vs, x) == (name_or_id(vs, x.0.u), name_or_id(vs, x.0.v), x.1),
        x.1 >= 0 ==> crate::solution::net_flow(seq![x], x.0.u) == x.1 && crate::solution::net_flow(seq![x], x.0.v)
            == -x.1,
        x.1 < 0 ==> receiver_line(vs, x).0 == name_or_id(vs, x.0.v) && receiver_line(vs, x).1 == name_or_id(vs, x.0.u)
            && receiver_line(vs, x).2 == -x.1,
{
    let s = seq![x];
    assert(s.drop_last() =~= Seq::<(Edge, i128)>::empty());
    assert(s.last() == x);
    assert(crate::solution::net_flow(s.drop_last(), x.0.u) == 0);
    assert(crate::solution::net_flow(s.drop_last(), x.0.v) == 0);
}

/// A network to be settled by trying its partitionings.
pub struct ProblemInstancePartition {
    g: Graph,
}

impl vstd::std_specs::convert::FromSpecImpl<Graph> for ProblemInstancePartition {
    open spec fn obeys_from_spec() -> bool {
        true
    }

    closed spec fn from_spec(v: Graph) -> ProblemInstancePartition {
        ProblemInstancePartition { g: v }
    }
}

impl From<Graph> for ProblemInstancePartition {
    fn from(value: Graph) -> (res: Self) {
        ProblemInstancePartition { g: value }
    }
}

/// The instance made from a graph holds the graph's vertices.
pub proof fn lemma_partition_instance_from_graph(g: Graph)
    ensures
        <ProblemInstancePartition as vstd::std_specs::convert::FromSpec<Graph>>::from_spec(g).vs() == g.vs(),
        <ProblemInstancePartition as vstd::std_specs::convert::FromSpec<Graph>>::from_spec(g).es() == g.es(),
{
}

impl ProblemInstancePartition {
    /// The vertices of the instance.
    pub closed spec fn vs(&self) -> Seq<NamedNode> {
        self.g.vs()
    }

    /// The edges of the instance's graph.
    pub closed spec fn es(&self) -> Seq<Edge> {
        self.g.es()
    }

    /// The instance of the given graph.
    pub fn new(g: Graph) -> (res: Self)
        ensures
            res.vs() == g.vs(),
            res.es() == g.es(),
    {
        Self { g }
    }

    /// The graph of the instance.
    pub fn graph(&self) -> (res: &Graph)
        ensures
            res.vs() == self.vs(),
            res.es() == self.es(),
    {
        &self.g
    }

    /// Whether the average vertex weight is zero.
    pub fn is_solvable(&self) -> (res: bool)
        ensures
            res == solvable(self.vs()),
    {
        nodes_solvable(self.g.vertices())
    }

    /// The star around the last heaviest vertex, where the network can be settled.
    pub fn star_expand(&self) -> (res: Solution)
        ensures
            res is Some <==> solvable(self.vs()),
            res matches Some(t) ==> t@ == star_transfers(self.vs()),
            res matches Some(t) ==> settles(self.vs(), t@),
            res matches Some(t) ==> t@.len() == self.vs().len() - 1,
            res matches Some(t) ==> crate::solution::edges_distinct(t@),
            res matches Some(t) ==> forall|k: int|
                0 <= k < t@.len() ==> crate::approximation::touches_heaviest(self.vs(), #[trigger] t@[k]),
    {
        let vs = self.g.vertices();
        let res = star_expand_nodes(vs);
        proof {
            if res is Some {
                crate::approximation::lemma_star_settles(vs@);
                crate::approximation::lemma_star_edges(vs@);
                crate::approximation::law_star_center(vs@);
            }
        }
        res
    }

    /// Debtors pay creditors in order, as much as each still owes or is owed,
    /// where the network can be settled.
    pub fn greedy_satisfaction(&self) -> (res: Solution)
        ensures
            res is Some <==> solvable(self.vs()),
            res matches Some(t) ==> t@ == greedy_transfers(self.vs()),
            res matches Some(t) ==> settles(self.vs(), t@),
            res matches Some(t) ==> 2 * crate::solution::total_amount(t@) == total_abs_weight(self.vs()),
            res matches Some(t) ==> (self.vs().len() > 0 ==> t@.len() < self.vs().len()),
            res matches Some(t) ==> crate::solution::edges_distinct(t@),
    {
        let vs = self.g.vertices();
        let res = greedy_satisfaction_nodes(vs);
        proof {
            if res is Some {
                assert(vs@.len() == vs.len());
                crate::approximation::lemma_greedy_settles(vs@);
                crate::approximation::law_greedy_minimal_amount(vs@);
                if vs@.len() > 0 {
                    crate::approximation::lemma_greedy_len(vs@);
                }
                crate::approximation::lemma_greedy_edges(vs@);
            }
        }
        res
    }

    /// The sum of the absolute vertex weights.
    pub fn optimal_transaction_amount(&self) -> (res: i64)
        requires
            total_abs_weight(self.vs()) <= i64::MAX,
        ensures
            res == total_abs_weight(self.vs()),
    {
        abs_weight_sum(self.g.vertices())
    }

    /// Settles each block of the partitioning, whose blocks share no vertex,
    /// with `solving_method` and joins the transfers; `None` as soon as a block
    /// cannot be settled.
    pub fn partition_solver(&self, partitioning: &Vec<Vec<&NamedNode>>, solving_method: PartitionSolvingMethod) -> (res:
        Solution)
        requires
            forall|j: int| 0 <= j < partitioning@.len() ==> ids_distinct(#[trigger] blocks_view(partitioning@)[j]),
            crate::exact_partitioning::blocks_disjoint(blocks_view(partitioning@)),
        ensures
            res matches Some(t) ==> partition_transfers(solving_method, blocks_view(partitioning@)) == Some(t@),
            res is None ==> partition_transfers(solving_method, blocks_view(partitioning@)) is None,
            res matches Some(t) ==> crate::solution::edges_distinct(t@),
            res matches Some(t) ==> (solving_method == PartitionSolvingMethod::GreedySatsifaction ==> 2
                * crate::solution::total_amount(t@) == crate::exact_partitioning::blocks_abs(blocks_view(partitioning@))),
            res matches Some(t) ==> (solving_method == PartitionSolvingMethod::StarExpand ==> forall|k: int|
                0 <= k < t@.len() ==> exists|j: int|
                    0 <= j < partitioning@.len() && crate::graph::has_id(blocks_view(partitioning@)[j], (#[trigger] t@[k]).0.u)
                        && crate::graph::has_id(blocks_view(partitioning@)[j], t@[k].0.v)
                        && crate::approximation::touches_heaviest(blocks_view(partitioning@)[j], t@[k])),
    {
        partition_solver(partitioning, solving_method)
    }

    /// Solves the instance with greedy satisfaction on the blocks.
    pub fn solve(&self) -> (res: Solution)
        ensures
            res matches Some(t) ==> naive_transfers(PartitionSolvingMethod::GreedySatsifaction, self.vs()) == Some(t@),
            res is None ==> naive_transfers(PartitionSolvingMethod::GreedySatsifaction, self.vs()) is None,
            res matches Some(t) ==> settles(self.vs(), t@),
            res matches Some(t) ==> crate::solution::edges_distinct(t@),
            res matches Some(t) ==> 2 * crate::solution::total_amount(t@) == total_abs_weight(self.vs()),
            res is Some <==> (self.vs().len() == 0 || solvable(self.vs())),
    {
        self.solve_with(PartitionSolvingMethod::GreedySatsifaction)
    }

    /// Tries the partitionings of the vertices by decreasing number of blocks and
    /// settles the first whose blocks can all be settled with `solving_method`.
    pub fn solve_with(&self, solving_method: PartitionSolvingMethod) -> (res: Solution)
        ensures
            res matches Some(t) ==> naive_transfers(solving_method, self.vs()) == Some(t@),
            res is None ==> naive_transfers(solving_method, self.vs()) is None,
            res matches Some(t) ==> settles(self.vs(), t@),
            res matches Some(t) ==> crate::solution::edges_distinct(t@),
            res matches Some(t) ==> (solving_method == PartitionSolvingMethod::GreedySatsifaction ==> 2
                * crate::solution::total_amount(t@) == total_abs_weight(self.vs())),
            res matches Some(t) ==> (solving_method == PartitionSolvingMethod::StarExpand
                ==> crate::exact_partitioning::star_settling(self.vs(), t@)),
            res is Some <==> (self.vs().len() == 0 || solvable(self.vs())),
    {
        let vs = self.g.vertices();
        let res = naive_all_partitioning_nodes(vs, solving_method);
        proof {
            crate::exact_partitioning::law_naive_succeeds(solving_method, self.vs());
            if res is Some {
                assert(vs@.len() == vs.len());
                crate::exact_partitioning::lemma_naive_settles(solving_method, self.vs());
            }
        }
        res
    }

    /// Solves the instance with greedy satisfaction on the blocks and reads out
    /// the transfers, each as the name of the receiver, the name of the payer
    /// and the amount; `None` where no result was found.
    pub fn solve_and_interpret(&self) -> (res: Option<Vec<Line>>)
        ensures
            match naive_transfers(PartitionSolvingMethod::GreedySatsifaction, self.vs()) {
                Some(t) => res matches Some(l) && lines_view(l@) == t.map_values(|x: (Edge, i128)| receiver_line(self.vs(), x)),
                None => res is None,
            },
    {
        self.solve_and_interpret_with(PartitionSolvingMethod::GreedySatsifaction)
    }

    /// Solves the instance with `solving_method` on the blocks and reads out the
    /// transfers, each as the name of the receiver, the name of the payer and
    /// the amount; `None` where no result was found.
    pub fn solve_and_interpret_with(&self, solving_method: PartitionSolvingMethod) -> (res: Option<Vec<Line>>)
        ensures
            match naive_transfers(solving_method, self.vs()) {
                Some(t) => res matches Some(l) && lines_view(l@) == t.map_values(|x: (Edge, i128)| receiver_line(self.vs(), x)),
                None => res is None,
            },
    {
        match self.solve_with(solving_method) {
            None => None,
            Some(map) => {
                let mut lines: Vec<Line> = Vec::new();
                let mut k: usize = 0;
                while k < map.len()
                    invariant
                        k <= map@.len(),
                        settles(self.vs(), map@),
                        lines_view(lines@) == map@.take(k as int).map_values(|x: (Edge, i128)| receiver_line(self.vs(), x)),
                    decreases map@.len() - k,
                {
                    let (edge, weight) = map[k];
                    assert(map@[k as int].1 >= 0);
                    let u = self.g.get_node_name_or(edge.u, decimal_string(edge.u));
                    let v = self.g.get_node_name_or(edge.v, decimal_string(edge.v));
                    let ghost before = lines@;
                    if weight >= 0 {
                        lines.push((u, v, weight));
                    } else {
                        lines.push((v, u, -weight));
                    }
                    proof {
                        assert(lines_view(lines@) =~= lines_view(before).push(receiver_line(self.vs(), map@[k as int])));
                        assert(map@.take(k + 1) =~= map@.take(k as int).push(map@[k as int]));
                    }
                    k = k + 1;
                }
                assert(map@.take(k as int) == map@);
                Some(lines)
            },
        }
    }
}

} // verus!
