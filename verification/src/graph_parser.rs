//! The records a graph is read from: vertices with weights, or weighted edges.
use crate::graph::{complete_edges, edge_names, edge_net, ids_of, total_weight, Graph, NamedEdge};
use vstd::prelude::*;

verus! {

/// A vertex and its weight, as one line of input holds it.
#[derive(Debug)]
pub struct NodeRecord {
    pub name: String,
    pub weight: i64,
}

/// A weighted edge, as one line of input holds it.
#[derive(Debug)]
pub struct EdgeRecord {
    pub from: String,
    pub to: String,
    pub weight: i64,
}

impl NodeRecord {
    /// The name and the weight.
    pub fn to_tuple(&self) -> (res: (String, i64))
        ensures
            res.0 == self.name,
            res.1 == self.weight,
    {
        (self.name.clone(), self.weight)
    }
}

impl EdgeRecord {
    /// The pair of names and the weight.
    pub fn to_tuple(&self) -> (res: NamedEdge)
        ensures
            res.0.0 == self.from,
            res.0.1 == self.to,
            res.1 == self.weight,
    {
        ((self.from.clone(), self.to.clone()), self.weight)
    }
}

/// The edges that the records hold, in order.
pub open spec fn edge_tuples(records: Seq<EdgeRecord>) -> Seq<NamedEdge> {
    records.map_values(|r: EdgeRecord| ((r.from, r.to), r.weight))
}

/// The graph of vertex records, in order.
pub fn graph_from_node_records(records: &Vec<NodeRecord>) -> (g: Graph)
    ensures
        g.vs().len() == records@.len(),
        forall|i: int|
            0 <= i < records@.len() ==> (#[trigger] g.vs()[i]).id == i && g.vs()[i].name == records@[i].name
                && g.vs()[i].weight == records@[i].weight,
        g.es() == complete_edges(ids_of(g.vs())),
{
    let mut tuples: Vec<(String, i64)> = Vec::new();
    let mut k: usize = 0;
    while k < records.len()
        invariant
            k <= records@.len(),
            tuples@.len() == k,
            forall|i: int| 0 <= i < k ==> (#[trigger] tuples@[i]).0 == records@[i].name && tuples@[i].1 == records@[i].weight,
        decreases records@.len() - k,
    {
        tuples.push(records[k].to_tuple());
        k = k + 1;
    }
    Graph::from_named_weights(tuples)
}

/// Whether the weight of every vertex of the edge records fits in an `i64`.
pub fn edge_records_fit(records: &Vec<EdgeRecord>) -> (res: bool)
    ensures
        res == forall|x: Seq<char>|
            #[trigger] edge_names(edge_tuples(records@), records@.len()).contains(x) ==> i64::MIN <= edge_net(
                edge_tuples(records@),
                x,
                records@.len(),
            ) <= i64::MAX,
{
    let tuples = edge_tuples_of(records);
    crate::graph::edge_weights_fit(&tuples)
}

fn edge_tuples_of(records: &Vec<EdgeRecord>) -> (res: Vec<NamedEdge>)
    ensures
        res@ == edge_tuples(records@),
{
    let mut tuples: Vec<NamedEdge> = Vec::new();
    let mut k: usize = 0;
    while k < records.len()
        invariant
            k <= records@.len(),
            tuples@ == edge_tuples(records@.take(k as int)),
        decreases records@.len() - k,
    {
        tuples.push(records[k].to_tuple());
        k = k + 1;
        assert(tuples@ =~= edge_tuples(records@.take(k as int)));
    }
    assert(records@.take(k as int) == records@);
    tuples
}

/// The graph of edge records: a vertex for each name, in the order the names
/// first appear, weighing what the edges move into it minus what they move
/// out of it.
pub fn graph_from_edge_records(records: &Vec<EdgeRecord>) -> (g: Graph)
    requires
        forall|x: Seq<char>|
            #[trigger] edge_names(edge_tuples(records@), records@.len()).contains(x) ==> i64::MIN <= edge_net(
                edge_tuples(records@),
                x,
                records@.len(),
            ) <= i64::MAX,
    ensures
        g.vs().len() == edge_names(edge_tuples(records@), records@.len()).len(),
        forall|i: int|
            0 <= i < g.vs().len() ==> (#[trigger] g.vs()[i]).id == i && g.vs()[i].name@ == edge_names(
                edge_tuples(records@),
                records@.len(),
            )[i] && g.vs()[i].weight == edge_net(
                edge_tuples(records@),
                edge_names(edge_tuples(records@), records@.len())[i],
                records@.len(),
            ),
        g.es() == complete_edges(ids_of(g.vs())),
        total_weight(g.vs()) == 0,
{
    let tuples = edge_tuples_of(records);
    Graph::from_weighted_edges(tuples)
}

} // verus!
