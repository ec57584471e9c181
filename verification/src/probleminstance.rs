//! A problem instance: a graph whose weights are to be settled.
use crate::approximation::{approx_solve, scheme_solution};
use crate::dynamic_program::{dp_fits, dp_transfers, fits_masks, patcas_dp};
use crate::exact_partitioning::{naive_all_partitioning, naive_transfers};
use crate::graph::{abs, decimal_string, first_with_id, name_or_id, total_abs_weight, total_weight, Edge, Graph, NamedNode};
use crate::partition::{lines_view, Line};
use crate::partition::PartitionSolvingMethod;
use crate::solution::{settles, Solution};
use crate::tree_bases::{best_partition, branching_transfers};
use vstd::prelude::*;

verus! {

/// A network has a solution exactly when it has a vertex and its weights sum to zero
/// (its average weight is zero).
pub open spec fn solvable(vs: Seq<NamedNode>) -> bool {
    vs.len() > 0 && total_weight(vs) == 0
}

/// The total weight never exceeds `2^63` per vertex in absolute value.
pub proof fn lemma_total_weight_bound(vs: Seq<NamedNode>)
    ensures
        -(vs.len() * 0x8000_0000_0000_0000) <= total_weight(vs) <= vs.len() * 0x8000_0000_0000_0000,
    decreases vs.len(),
{
    if vs.len() > 0 {
        lemma_total_weight_bound(vs.drop_last());
    }
}

/// The sum of the weights of `vs`, computed without overflow.
pub fn weight_sum(vs: &Vec<NamedNode>) -> (res: i128)
    ensures
        res == total_weight(vs@),
{
    let mut acc: i128 = 0;
    let mut i: usize = 0;
    while i < vs.len()
        invariant
            i <= vs.len(),
            acc == total_weight(vs@.take(i as int)),
        decreases vs.len() - i,
    {
        proof {
            lemma_total_weight_bound(vs@.take(i + 1));
            assert(vs@.take(i + 1).drop_last() == vs@.take(i as int));
        }
        acc = acc + vs[i].weight as i128;
        i = i + 1;
    }
    assert(vs@.take(i as int) == vs@);
    acc
}

/// Whether the network of `vs` can be settled: it is not empty and its
/// average weight is zero.
pub fn nodes_solvable(vs: &Vec<NamedNode>) -> (res: bool)
    ensures
        res == solvable(vs@),
{
    vs.len() > 0 && weight_sum(vs) == 0
}

/// The sum of the absolute weights of `vs`, where it fits in an `i64`.
pub fn abs_weight_sum(vs: &Vec<NamedNode>) -> (res: i64)
    requires
        total_abs_weight(vs@) <= i64::MAX,
    ensures
        res == total_abs_weight(vs@),
{
    let mut acc: i64 = 0;
    let mut i: usize = 0;
    while i < vs.len()
        invariant
            i <= vs.len(),
            total_abs_weight(vs@) <= i64::MAX,
            acc == total_abs_weight(vs@.take(i as int)),
        decreases vs.len() - i,
    {
        proof {
            assert(vs@.take(i + 1).drop_last() == vs@.take(i as int));
            lemma_abs_weight_prefix(vs@, i + 1);
            assert(vs@.take(i + 1).last() == vs@[i as int]);
            lemma_abs_weight_nonneg(vs@.take(i as int));
            assert(total_abs_weight(vs@.take(i + 1)) == acc + abs(vs@[i as int].weight as int));
        }
        let w = vs[i].weight;
        let a: i64 = if w < 0 { -w } else { w };
        acc = acc + a;
        i = i + 1;
    }
    assert(vs@.take(i as int) == vs@);
    acc
}

/// Absolute weights of a prefix add up to at most those of the whole.
pub proof fn lemma_abs_weight_prefix(vs: Seq<NamedNode>, k: int)
    requires
        0 <= k <= vs.len(),
    ensures
        0 <= total_abs_weight(vs.take(k)) <= total_abs_weight(vs),
    decreases vs.len(),
{
    if k == vs.len() {
        assert(vs.take(k) == vs);
        lemma_abs_weight_nonneg(vs);
    } else {
        lemma_abs_weight_prefix(vs.drop_last(), k);
        assert(vs.drop_last().take(k) == vs.take(k));
    }
}

pub proof fn lemma_abs_weight_nonneg(vs: Seq<NamedNode>)
    ensures
        0 <= total_abs_weight(vs),
    decreases vs.len(),
{
    if vs.len() > 0 {
        lemma_abs_weight_nonneg(vs.drop_last());
    }
}

/// A network to be settled.
pub struct ProblemInstance {
    pub(crate) g: Graph,
}

impl ProblemInstance {
    /// The vertices of the instance.
    pub closed spec fn vs(&self) -> Seq<NamedNode> {
        self.g.vs()
    }

    /// The edges of the instance's graph.
    pub closed spec fn es(&self) -> Seq<crate::graph::Edge> {
        self.g.es()
    }

    /// The instance of the given graph.
    pub fn new(graph: Graph) -> (res: Self)
        ensures
            res.vs() == graph.vs(),
            res.es() == graph.es(),
    {
        ProblemInstance { g: graph }
    }

    /// The graph of the instance.
    pub fn graph(&self) -> (res: &Graph)
        ensures
            res.vs() == self.vs(),
            res.es() == self.es(),
    {
        &self.g
    }

    /// Whether the average vertex weight is zero.
    pub fn is_solvable(&self) -> (res: bool)
        ensures
            res == solvable(self.vs()),
    {
        nodes_solvable(self.g.vertices())
    }

    /// The least total amount any settling must move: half the sum of the absolute weights.
    pub fn optimal_transaction_amount(&self) -> (res: i64)
        requires
            total_abs_weight(self.vs()) <= i64::MAX,
        ensures
            res == total_abs_weight(self.vs()) / 2,
    {
        proof {
            lemma_abs_weight_nonneg(self.vs());
        }
        abs_weight_sum(self.g.vertices()) / 2
    }
}


/// The solvers a problem instance can be solved with.
#[derive(Copy, Clone, Debug)]
pub enum SolvingMethods {
    /// 2-approximation with one vertex to which every transfer is incident.
    /// Does not necessarily move the least total amount possible.
    ApproxStarExpand,
    /// 2-approximation that moves the least total amount possible.
    ApproxGreedySatisfaction,
    /// Exact partitioning based solver, which settles the blocks with star expand.
    PartitioningStarExpand,
    /// Exact partitioning based solver, which settles the blocks with greedy satisfaction.
    PartitioningGreedySatisfaction,
    /// Branching over zero-sum subsets, which settles the blocks with star expand.
    BranchingPartitionStarExpand,
    /// Branching over zero-sum subsets, which settles the blocks with greedy satisfaction.
    BranchingPartitionGreedySatisfaction,
    /// Dynamic program over creditor and debtor masks, which settles the blocks with star expand.
    DPStarExpand,
    /// Dynamic program over creditor and debtor masks, which settles the blocks with greedy satisfaction.
    DPGreedySatisfaction,
}

/// What solving the network `vs` with `method` returns.
pub open spec fn solve_spec(method: SolvingMethods, vs: Seq<NamedNode>) -> Option<Seq<(Edge, i128)>> {
    match method {
        SolvingMethods::ApproxStarExpand => scheme_solution(PartitionSolvingMethod::StarExpand, vs),
        SolvingMethods::ApproxGreedySatisfaction => scheme_solution(PartitionSolvingMethod::GreedySatsifaction, vs),
        SolvingMethods::PartitioningStarExpand => naive_transfers(PartitionSolvingMethod::StarExpand, vs),
        SolvingMethods::PartitioningGreedySatisfaction => naive_transfers(PartitionSolvingMethod::GreedySatsifaction, vs),
        SolvingMethods::BranchingPartitionStarExpand => branching_transfers(PartitionSolvingMethod::StarExpand, vs),
        SolvingMethods::BranchingPartitionGreedySatisfaction => branching_transfers(
            PartitionSolvingMethod::GreedySatsifaction,
            vs,
        ),
        SolvingMethods::DPStarExpand => dp_transfers(PartitionSolvingMethod::StarExpand, vs),
        SolvingMethods::DPGreedySatisfaction => dp_transfers(PartitionSolvingMethod::GreedySatsifaction, vs),
    }
}

/// What `method` needs of the network: the branching solver lists the subsets
/// of fewer than 64 vertices, and the dynamic program needs the network to fit
/// its masks.
pub open spec fn method_applies(method: SolvingMethods, vs: Seq<NamedNode>) -> bool {
    match method {
        SolvingMethods::BranchingPartitionStarExpand | SolvingMethods::BranchingPartitionGreedySatisfaction => vs.len()
            < 64,
        SolvingMethods::DPStarExpand | SolvingMethods::DPGreedySatisfaction => dp_fits(vs),
        _ => true,
    }
}

impl ProblemInstance {
    /// Whether `method` can be run on the instance: the branching solver only
    /// on fewer than 64 vertices, the dynamic program only where the network
    /// fits its masks.
    pub fn method_applies(&self, method: SolvingMethods) -> (res: bool)
        ensures
            res == method_applies(method, self.vs()),
    {
        let vs = self.g.vertices();
        match method {
            SolvingMethods::BranchingPartitionStarExpand | SolvingMethods::BranchingPartitionGreedySatisfaction => {
                vs.len() < 64
            },
            SolvingMethods::DPStarExpand | SolvingMethods::DPGreedySatisfaction => fits_masks(vs),
            _ => true,
        }
    }

    /// Solves the instance with the given method.
    pub fn solve_with(&self, method: SolvingMethods) -> (res: Solution)
        requires
            method_applies(method, self.vs()),
        ensures
            res matches Some(t) ==> solve_spec(method, self.vs()) == Some(t@),
            res is None ==> solve_spec(method, self.vs()) is None,
            res matches Some(t) ==> crate::solution::edges_distinct(t@),
            res matches Some(t) ==> (method == SolvingMethods::ApproxGreedySatisfaction || method
                == SolvingMethods::PartitioningGreedySatisfaction || method
                == SolvingMethods::BranchingPartitionGreedySatisfaction || method == SolvingMethods::DPGreedySatisfaction
                ==> 2 * crate::solution::total_amount(t@) == total_abs_weight(self.vs())),
            res matches Some(t) ==> (method == SolvingMethods::ApproxStarExpand || method
                == SolvingMethods::PartitioningStarExpand || method == SolvingMethods::BranchingPartitionStarExpand
                || method == SolvingMethods::DPStarExpand ==> crate::exact_partitioning::star_settling(self.vs(), t@)),
            res matches Some(t) ==> settles(self.vs(), t@),
    {
        match method {
            SolvingMethods::ApproxStarExpand => approx_solve(PartitionSolvingMethod::StarExpand, self),
            SolvingMethods::ApproxGreedySatisfaction => approx_solve(PartitionSolvingMethod::GreedySatsifaction, self),
            SolvingMethods::PartitioningStarExpand => naive_all_partitioning(self, PartitionSolvingMethod::StarExpand),
            SolvingMethods::PartitioningGreedySatisfaction => naive_all_partitioning(
                self,
                PartitionSolvingMethod::GreedySatsifaction,
            ),
            SolvingMethods::BranchingPartitionStarExpand => best_partition(self, PartitionSolvingMethod::StarExpand),
            SolvingMethods::BranchingPartitionGreedySatisfaction => best_partition(
                self,
                PartitionSolvingMethod::GreedySatsifaction,
            ),
            SolvingMethods::DPStarExpand => patcas_dp(self, PartitionSolvingMethod::StarExpand),
            SolvingMethods::DPGreedySatisfaction => patcas_dp(self, PartitionSolvingMethod::GreedySatsifaction),
        }
    }
}


impl vstd::std_specs::convert::FromSpecImpl<Graph> for ProblemInstance {
    open spec fn obeys_from_spec() -> bool {
        true
    }

    closed spec fn from_spec(v: Graph) -> ProblemInstance {
        ProblemInstance { g: v }
    }
}

impl From<Graph> for ProblemInstance {
    fn from(value: Graph) -> (res: Self) {
        ProblemInstance { g: value }
    }
}

/// The instance made from a graph holds the graph's vertices and edges.
pub proof fn lemma_instance_from_graph(g: Graph)
    ensures
        <ProblemInstance as vstd::std_specs::convert::FromSpec<Graph>>::from_spec(g).vs() == g.vs(),
        <ProblemInstance as vstd::std_specs::convert::FromSpec<Graph>>::from_spec(g).es() == g.es(),
{
}

/// The positions in `vs` of the payer and the receiver of each of the first
/// `k` transfers, with the amount; where an end of a transfer is no vertex,
/// the first such identifier, the receiver's before the payer's.
pub open spec fn transfer_positions(vs: Seq<NamedNode>, sol: Seq<(Edge, i128)>, k: nat) -> Result<
    Seq<(usize, usize, i128)>,
    usize,
>
    decreases k,
{
    if k == 0 {
        Ok(Seq::empty())
    } else {
        match transfer_positions(vs, sol, (k - 1) as nat) {
            Err(id) => Err(id),
            Ok(p) => {
                let t = sol[k - 1];
                match (first_with_id(vs, t.0.u, 0), first_with_id(vs, t.0.v, 0)) {
                    (Some(a), Some(b)) => Ok(p.push((b as usize, a as usize, t.1))),
                    (None, _) => Err(t.0.u),
                    (Some(_), None) => Err(t.0.v),
                }
            },
        }
    }
}

impl ProblemInstance {
    /// For drawing a solution: the position of the payer and of the receiver
    /// of each transfer among the vertices, with the amount. `Err(None)` where
    /// there is no solution, and `Err(Some(id))` for the first end of a
    /// transfer that is no vertex.
    pub fn transfer_positions(&self, solution: &Solution) -> (res: Result<Vec<(usize, usize, i128)>, Option<usize>>)
        ensures
            match solution {
                None => res == Err::<Vec<(usize, usize, i128)>, Option<usize>>(None),
                Some(t) => match transfer_positions(self.vs(), t@, t@.len()) {
                    Ok(p) => res matches Ok(r) && r@ == p,
                    Err(id) => res == Err::<Vec<(usize, usize, i128)>, Option<usize>>(Some(id)),
                },
            },
    {
        match solution {
            None => Err(None),
            Some(sol) => {
                let mut res: Vec<(usize, usize, i128)> = Vec::new();
                let mut k: usize = 0;
                while k < sol.len()
                    invariant
                        k <= sol@.len(),
                        transfer_positions(self.vs(), sol@, k as nat) == Ok::<Seq<(usize, usize, i128)>, usize>(res@),
                        solution matches Some(t) && t@ == sol@,
                    decreases sol@.len() - k,
                {
                    let (edge, amount) = sol[k];
                    let a = self.g.position_of_id(edge.u);
                    let b = self.g.position_of_id(edge.v);
                    match (a, b) {
                        (Some(a), Some(b)) => {
                            res.push((b, a, amount));
                        },
                        (None, _) => {
                            proof {
                                lemma_transfer_positions_err(self.vs(), sol@, (k + 1) as nat, edge.u);
                            }
                            return Err(Some(edge.u));
                        },
                        (Some(_), None) => {
                            proof {
                                lemma_transfer_positions_err(self.vs(), sol@, (k + 1) as nat, edge.v);
                            }
                            return Err(Some(edge.v));
                        },
                    }
                    k = k + 1;
                }
                assert(sol@.len() == k);
                Ok(res)
            },
        }
    }
}

/// Once an identifier is missing, it stays the answer.
pub proof fn lemma_transfer_positions_err(vs: Seq<NamedNode>, sol: Seq<(Edge, i128)>, k: nat, id: usize)
    requires
        k <= sol.len(),
        transfer_positions(vs, sol, k) == Err::<Seq<(usize, usize, i128)>, usize>(id),
    ensures
        transfer_positions(vs, sol, sol.len()) == Err::<Seq<(usize, usize, i128)>, usize>(id),
    decreases sol.len() - k,
{
    if k < sol.len() {
        lemma_transfer_positions_err(vs, sol, k + 1, id);
    }
}

/// The line for a transfer `(Edge { u, v }, a)`: the name of the payer `v`,
/// then of the receiver `u`, and the amount, where it is not negative; the
/// other way round otherwise.
pub open spec fn payer_line(vs: Seq<NamedNode>, t: (Edge, i128)) -> (Seq<char>, Seq<char>, i128) {
    if t.1 >= 0 {
        (name_or_id(vs, t.0.v), name_or_id(vs, t.0.u), t.1)
    } else {
        (name_or_id(vs, t.0.u), name_or_id(vs, t.0.v), (-t.1) as i128)
    }
}

/// For drawing, each transfer becomes the position of its payer `v`, the
/// position of its receiver `u`, and its amount, in the order of the
/// transfers; the answer is an identifier only where some end is no vertex.
pub proof fn law_transfer_positions(vs: Seq<NamedNode>, sol: Seq<(Edge, i128)>, k: nat)
    requires
        k <= sol.len(),
        vs.len() <= usize::MAX,
    ensures
        match transfer_positions(vs, sol, k) {
            Ok(p) => p.len() == k && forall|x: int|
                0 <= x < k ==> {
                    &&& (#[trigger] p[x]).0 < vs.len()
                    &&& p[x].1 < vs.len()
                    &&& vs[p[x].0 as int].id == sol[x].0.v
                    &&& vs[p[x].1 as int].id == sol[x].0.u
                    &&& p[x].2 == sol[x].1
                },
            Err(id) => exists|x: int|
                0 <= x < k && (#[trigger] sol[x].0.u == id || sol[x].0.v == id) && forall|i: int|
                    0 <= i < vs.len() ==> #[trigger] vs[i].id != id,
        },
    decreases k,
{
    if k > 0 {
        law_transfer_positions(vs, sol, (k - 1) as nat);
        let t = sol[k - 1];
        crate::graph::law_first_with_id(vs, t.0.u);
        crate::graph::law_first_with_id(vs, t.0.v);
        match transfer_positions(vs, sol, (k - 1) as nat) {
            Ok(p) => {
                match transfer_positions(vs, sol, k) {
                    Ok(p2) => {
                        assert forall|x: int| 0 <= x < k implies {
                            &&& (#[trigger] p2[x]).0 < vs.len()
                            &&& p2[x].1 < vs.len()
                            &&& vs[p2[x].0 as int].id == sol[x].0.v
                            &&& vs[p2[x].1 as int].id == sol[x].0.u
                            &&& p2[x].2 == sol[x].1
                        } by {
                            if x < k - 1 {
                                assert(p2[x] == p[x]);
                            } else {
                                let a = first_with_id(vs, t.0.u, 0)->0;
                                let b = first_with_id(vs, t.0.v, 0)->0;
                                assert(p2 == p.push((b as usize, a as usize, t.1)));
                                assert(p2[x] == (b as usize, a as usize, t.1));
                            }
                        }
                    },
                    Err(id) => {
                        assert(sol[k - 1].0.u == id || sol[k - 1].0.v == id);
                    },
                }
            },
            Err(id) => {
                let x = choose|x: int|
                    0 <= x < k - 1 && (#[trigger] sol[x].0.u == id || sol[x].0.v == id) && forall|i: int|
                        0 <= i < vs.len() ==> #[trigger] vs[i].id != id;
                assert(0 <= x < k);
            },
        }
    }
}

/// The line of a transfer names first the vertex that pays and then the one
/// that receives, with the amount paid: for `(Edge { u, v }, a)` with `a >= 0`
/// the transfer lowers the balance of `v` by `a` and raises that of `u`, so
/// `v` comes first whatever the identifiers are; with `a < 0` the other way
/// round, with `-a`.
pub proof fn law_payer_line(vs: Seq<NamedNode>, x: (Edge, i128))
    requires
        x.0.u != x.0.v,
        x.1 > i128::MIN,
    ensures
        x.1 >= 0 ==> payer_line(vs, x) == (name_or_id(vs, x.0.v), name_or_id(vs, x.0.u), x.1),
        x.1 >= 0 ==> crate::solution::net_flow(seq![x], x.0.v) == -x.1 && crate::solution::net_flow(seq![x], x.0.u)
            == x.1,
        x.1 < 0 ==> payer_line(vs, x).0 == name_or_id(vs, x.0.u) && payer_line(vs, x).1 == name_or_id(vs, x.0.v)
            && payer_line(vs, x).2 == -x.1,
{
    let s = seq![x];
    assert(s.drop_last() =~= Seq::<(Edge, i128)>::empty());
    assert(s.last() == x);
    assert(crate::solution::net_flow(s.drop_last(), x.0.u) == 0);
    assert(crate::solution::net_flow(s.drop_last(), x.0.v) == 0);
}

impl ProblemInstance {
    /// The lines of a solution, each the name of the payer, the name of the
    /// receiver and the amount; the error "No result was found." where there is
    /// no solution.
    pub fn solution_lines(&self, solution: &Solution) -> (res: Result<Vec<Line>, String>)
        requires
            solution matches Some(t) ==> forall|k: int| 0 <= k < t@.len() ==> #[trigger] t@[k].1 > i128::MIN,
        ensures
            match solution {
                None => res matches Err(e) && e@ == "No result was found."@,
                Some(t) => res matches Ok(l) && lines_view(l@) == t@.map_values(|x: (Edge, i128)| payer_line(self.vs(), x)),
            },
    {
        match solution {
            None => {
                let e = String::from_str("No result was found.");
                Err(e)
            },
            Some(map) => {
                let mut lines: Vec<Line> = Vec::new();
                let mut k: usize = 0;
                while k < map.len()
                    invariant
                        k <= map@.len(),
                        forall|x: int| 0 <= x < map@.len() ==> #[trigger] map@[x].1 > i128::MIN,
                        lines_view(lines@) == map@.take(k as int).map_values(|x: (Edge, i128)| payer_line(self.vs(), x)),
                    decreases map@.len() - k,
                {
                    let (edge, weight) = map[k];
                    assert(map@[k as int].1 > i128::MIN);
                    let u = self.g.get_node_name_or(edge.u, decimal_string(edge.u));
                    let v = self.g.get_node_name_or(edge.v, decimal_string(edge.v));
                    let ghost before = lines@;
                    if weight >= 0 {
                        lines.push((v, u, weight));
                    } else {
                        lines.push((u, v, -weight));
                    }
                    proof {
                        assert(lines_view(lines@) =~= lines_view(before).push(payer_line(self.vs(), map@[k as int])));
                        assert(map@.take(k + 1) =~= map@.take(k as int).push(map@[k as int]));
                    }
                    k = k + 1;
                }
                assert(map@.take(k as int) == map@);
                Ok(lines)
            },
        }
    }
}

} // verus!
