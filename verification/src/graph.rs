//! Vertices with weights, and the complete directed graph on them.
use crate::enumerate::{ordered_pairs, ordered_pairs_spec};
use vstd::prelude::*;

verus! {

/// A person of the network: an identifier, a name and the amount they are owed
/// (positive) or owe (negative).
#[derive(Debug)]
pub struct NamedNode {
    pub id: usize,
    pub name: String,
    pub weight: i64,
}

impl Clone for NamedNode {
    fn clone(&self) -> (res: Self)
        ensures
            res == *self,
    {
        NamedNode { id: self.id, name: self.name.clone(), weight: self.weight }
    }
}

/// A directed edge between two vertex identifiers.
#[derive(Clone, Copy, Debug, PartialEq, Eq, Hash, Structural)]
pub struct Edge {
    pub u: usize,
    pub v: usize,
}

/// No two vertices share an identifier.
pub open spec fn ids_distinct(vs: Seq<NamedNode>) -> bool {
    forall|i: int, j: int| 0 <= i < vs.len() && 0 <= j < vs.len() && i != j ==> vs[i].id != vs[j].id
}

/// The identifiers of the vertices, in order.
pub open spec fn ids_of(vs: Seq<NamedNode>) -> Seq<usize> {
    vs.map_values(|v: NamedNode| v.id)
}

/// `id` is the identifier of one of the vertices.
pub open spec fn has_id(vs: Seq<NamedNode>, id: usize) -> bool {
    exists|i: int| 0 <= i < vs.len() && vs[i].id == id
}

/// The sum of the weights of the vertices.
pub open spec fn total_weight(vs: Seq<NamedNode>) -> int
    decreases vs.len(),
{
    if vs.len() == 0 {
        0
    } else {
        total_weight(vs.drop_last()) + vs.last().weight
    }
}

/// The sum of the absolute values of the weights.
pub open spec fn total_abs_weight(vs: Seq<NamedNode>) -> int
    decreases vs.len(),
{
    if vs.len() == 0 {
        0
    } else {
        total_abs_weight(vs.drop_last()) + abs(vs.last().weight as int)
    }
}

pub open spec fn abs(x: int) -> int {
    if x < 0 {
        -x
    } else {
        x
    }
}

/// The edges between every ordered pair of distinct vertices, in the order of
/// their positions.
pub open spec fn complete_edges(ids: Seq<usize>) -> Seq<Edge> {
    ordered_pairs_spec(ids.len()).map_values(
        |p: (usize, usize)| Edge { u: ids[p.0 as int], v: ids[p.1 as int] },
    )
}

/// The vertices that `Graph::new` builds from names and weights.
pub open spec fn numbered_nodes(names: Seq<String>, weights: Seq<i64>) -> Seq<NamedNode> {
    Seq::new(
        names.len(),
        |i: int| NamedNode { id: i as usize, name: names[i], weight: weights[i] },
    )
}

/// The weighted vertices and the edges between them.
#[derive(Debug)]
pub struct Graph {
    pub(crate) vertices: Vec<NamedNode>,
    pub(crate) edges: Vec<Edge>,
}

impl Graph {
    /// The vertices of the graph.
    pub closed spec fn vs(&self) -> Seq<NamedNode> {
        self.vertices@
    }

    /// The edges of the graph.
    pub closed spec fn es(&self) -> Seq<Edge> {
        self.edges@
    }

    #[verifier::type_invariant]
    closed spec fn wf(self) -> bool {
        ids_distinct(self.vertices@)
    }

    /// The vertices of the graph.
    pub fn vertices(&self) -> (res: &Vec<NamedNode>)
        ensures
            res@ == self.vs(),
            ids_distinct(res@),
    {
        proof {
            use_type_invariant(self);
        }
        &self.vertices
    }

    /// The edges of the graph.
    pub fn edges(&self) -> (res: &Vec<Edge>)
        ensures
            res@ == self.es(),
    {
        &self.edges
    }

    /// The complete directed graph on the given vertices, which keep their identifiers.
    pub fn from_nodes(nodes: Vec<NamedNode>) -> (g: Graph)
        requires
            ids_distinct(nodes@),
        ensures
            g.vs() == nodes@,
            g.es() == complete_edges(ids_of(nodes@)),
    {
        let pairs = ordered_pairs(nodes.len());
        let mut edges: Vec<Edge> = Vec::new();
        let mut k: usize = 0;
        while k < pairs.len()
            invariant
                pairs@ == ordered_pairs_spec(nodes@.len()),
                k <= pairs@.len(),
                edges@ == pairs@.take(k as int).map_values(
                    |p: (usize, usize)| Edge { u: ids_of(nodes@)[p.0 as int], v: ids_of(nodes@)[p.1 as int] },
                ),
            decreases pairs@.len() - k,
        {
            proof {
                lemma_pairs_in_range(nodes.len() as nat);
            }
            let (i, j) = pairs[k];
            edges.push(Edge { u: nodes[i].id, v: nodes[j].id });
            k = k + 1;
            assert(pairs@.take(k as int).drop_last() == pairs@.take(k - 1));
        }
        assert(pairs@.take(k as int) == pairs@);
        Graph { vertices: nodes, edges }
    }

    /// Numbers the vertices `0..n` in the order of `names` and `weights`, and
    /// joins every ordered pair of distinct vertices by an edge.
    pub fn new(names: Vec<String>, weights: Vec<i64>) -> (g: Graph)
        requires
            names.len() == weights.len(),
        ensures
            g.vs() == numbered_nodes(names@, weights@),
            g.es() == complete_edges(ids_of(numbered_nodes(names@, weights@))),
    {
        let mut vertices: Vec<NamedNode> = Vec::new();
        let mut id: usize = 0;
        while id < names.len()
            invariant
                names.len() == weights.len(),
                id <= names.len(),
                vertices@ == numbered_nodes(names@, weights@).take(id as int),
            decreases names.len() - id,
        {
            vertices.push(NamedNode { id, name: names[id].clone(), weight: weights[id] });
            id = id + 1;
        }
        assert(vertices@ == numbered_nodes(names@, weights@));
        Graph::from_nodes(vertices)
    }
}

/// Every pair in the ordered pairs of `0..n` holds two distinct positions below `n`.
pub proof fn lemma_pairs_in_range(n: nat)
    requires
        n <= usize::MAX,
    ensures
        forall|k: int|
            0 <= k < ordered_pairs_spec(n).len() ==> {
                let p = #[trigger] ordered_pairs_spec(n)[k];
                p.0 < n && p.1 < n && p.0 != p.1
            },
{
    lemma_pair_rows_in_range(n, n);
}

proof fn lemma_pair_rows_in_range(n: nat, k: nat)
    requires
        k <= n <= usize::MAX,
    ensures
        forall|m: int|
            0 <= m < crate::enumerate::pair_rows(n, k).len() ==> {
                let p = #[trigger] crate::enumerate::pair_rows(n, k)[m];
                p.0 < n && p.1 < n && p.0 != p.1
            },
    decreases k,
{
    if k > 0 {
        lemma_pair_rows_in_range(n, (k - 1) as nat);
        let a = crate::enumerate::pair_rows(n, (k - 1) as nat);
        let r = crate::enumerate::pair_row(n, (k - 1) as nat);
        assert forall|m: int| 0 <= m < r.len() implies {
            let p = #[trigger] r[m];
            p.0 < n && p.1 < n && p.0 != p.1
        } by {
            let full = Seq::new(n, |j: int| ((k - 1) as usize, j as usize));
            if m < k - 1 {
                assert(r[m] == full[m]);
            } else {
                assert(r[m] == full[m + 1]);
            }
        }
        assert forall|m: int| 0 <= m < (a + r).len() implies {
            let p = #[trigger] (a + r)[m];
            p.0 < n && p.1 < n && p.0 != p.1
        } by {
            if m < a.len() {
                assert((a + r)[m] == a[m]);
            } else {
                assert((a + r)[m] == r[m - a.len()]);
            }
        }
    }
}


// ------------------------------------------------------------- more builders

/// The character of the decimal digit `d`.
pub open spec fn digit_char(d: nat) -> char {
    (48 + d) as char
}

/// The decimal digits of `n`, without sign or leading zeros.
pub open spec fn decimal(n: nat) -> Seq<char>
    decreases n,
{
    if n < 10 {
        seq![digit_char(n)]
    } else {
        decimal(n / 10).push(digit_char(n % 10))
    }
}

/// The decimal representation of `n`.
///
/// Calls `usize::to_string`: the `Display` implementation of the integer
/// types writes the decimal digits of the number, without sign or leading
/// zeros, which the contract states.
#[verifier::external_body]
pub(crate) fn decimal_string(n: usize) -> (res: String)
    ensures
        res@ == decimal(n as nat),
{
    n.to_string()
}

/// The first position of a vertex with identifier `id`, if any.
pub open spec fn first_with_id(vs: Seq<NamedNode>, id: usize, k: nat) -> Option<int>
    decreases vs.len() - k,
{
    if k >= vs.len() {
        None
    } else if vs[k as int].id == id {
        Some(k as int)
    } else {
        first_with_id(vs, id, k + 1)
    }
}

/// The first position of a vertex named `name`, if any.
pub open spec fn first_with_name(vs: Seq<NamedNode>, name: Seq<char>, k: nat) -> Option<int>
    decreases vs.len() - k,
{
    if k >= vs.len() {
        None
    } else if vs[k as int].name@ == name {
        Some(k as int)
    } else {
        first_with_name(vs, name, k + 1)
    }
}

proof fn lemma_first_with_id(vs: Seq<NamedNode>, id: usize, k: nat)
    ensures
        match first_with_id(vs, id, k) {
            Some(p) => k <= p < vs.len() && vs[p].id == id && forall|i: int| k <= i < p ==> #[trigger] vs[i].id != id,
            None => forall|i: int| k <= i < vs.len() ==> #[trigger] vs[i].id != id,
        },
    decreases vs.len() - k,
{
    if k < vs.len() {
        lemma_first_with_id(vs, id, k + 1);
    }
}

/// The lookup by identifier finds the first vertex with that identifier, and
/// finds none exactly where no vertex has it.
pub proof fn law_first_with_id(vs: Seq<NamedNode>, id: usize)
    ensures
        match first_with_id(vs, id, 0) {
            Some(p) => 0 <= p < vs.len() && vs[p].id == id && forall|i: int| 0 <= i < p ==> #[trigger] vs[i].id != id,
            None => forall|i: int| 0 <= i < vs.len() ==> #[trigger] vs[i].id != id,
        },
{
    lemma_first_with_id(vs, id, 0);
}

proof fn lemma_first_with_name(vs: Seq<NamedNode>, name: Seq<char>, k: nat)
    ensures
        match first_with_name(vs, name, k) {
            Some(p) => k <= p < vs.len() && vs[p].name@ == name && forall|i: int| k <= i < p ==> #[trigger] vs[i].name@ != name,
            None => forall|i: int| k <= i < vs.len() ==> #[trigger] vs[i].name@ != name,
        },
    decreases vs.len() - k,
{
    if k < vs.len() {
        lemma_first_with_name(vs, name, k + 1);
    }
}

/// The lookup by name finds the first vertex with that name, and finds none
/// exactly where no vertex has it.
pub proof fn law_first_with_name(vs: Seq<NamedNode>, name: Seq<char>)
    ensures
        match first_with_name(vs, name, 0) {
            Some(p) => 0 <= p < vs.len() && vs[p].name@ == name && forall|i: int| 0 <= i < p ==> #[trigger] vs[i].name@ != name,
            None => forall|i: int| 0 <= i < vs.len() ==> #[trigger] vs[i].name@ != name,
        },
{
    lemma_first_with_name(vs, name, 0);
}

/// The name of the vertex with identifier `id`, or the decimal digits of `id`
/// where there is none.
pub open spec fn name_or_id(vs: Seq<NamedNode>, id: usize) -> Seq<char> {
    match first_with_id(vs, id, 0) {
        Some(k) => vs[k].name@,
        None => decimal(id as nat),
    }
}

impl Graph {
    /// The graph whose vertices are named `0`, `1`, ... and carry the given weights.
    pub fn from_weights(value: Vec<i64>) -> (g: Graph)
        ensures
            g.vs().len() == value@.len(),
            forall|i: int|
                0 <= i < value@.len() ==> (#[trigger] g.vs()[i]).id == i && g.vs()[i].name@ == decimal(i as nat)
                    && g.vs()[i].weight == value@[i],
            g.es() == complete_edges(ids_of(g.vs())),
    {
        let mut names: Vec<String> = Vec::new();
        let mut k: usize = 0;
        while k < value.len()
            invariant
                k <= value@.len(),
                names@.len() == k,
                forall|i: int| 0 <= i < k ==> (#[trigger] names@[i])@ == decimal(i as nat),
            decreases value@.len() - k,
        {
            names.push(decimal_string(k));
            k = k + 1;
        }
        Graph::new(names, value)
    }

    /// The graph whose vertices carry the given names and weights, in order.
    pub fn from_named_weights(value: Vec<(String, i64)>) -> (g: Graph)
        ensures
            g.vs() == numbered_nodes(value@.map_values(|p: (String, i64)| p.0), value@.map_values(|p: (String, i64)| p.1)),
            g.es() == complete_edges(ids_of(g.vs())),
    {
        let mut names: Vec<String> = Vec::new();
        let mut weights: Vec<i64> = Vec::new();
        let mut k: usize = 0;
        while k < value.len()
            invariant
                k <= value@.len(),
                names@ == value@.take(k as int).map_values(|p: (String, i64)| p.0),
                weights@ == value@.take(k as int).map_values(|p: (String, i64)| p.1),
            decreases value@.len() - k,
        {
            names.push(value[k].0.clone());
            weights.push(value[k].1);
            k = k + 1;
            assert(names@ =~= value@.take(k as int).map_values(|p: (String, i64)| p.0));
            assert(weights@ =~= value@.take(k as int).map_values(|p: (String, i64)| p.1));
        }
        assert(value@.take(k as int) == value@);
        Graph::new(names, weights)
    }

    /// The first vertex named `s`.
    pub fn get_node_from_name(&self, s: String) -> (res: Option<&NamedNode>)
        ensures
            match first_with_name(self.vs(), s@, 0) {
                Some(k) => res == Some(&self.vs()[k]),
                None => res is None,
            },
    {
        let mut k: usize = 0;
        while k < self.vertices.len()
            invariant
                k <= self.vertices@.len(),
                first_with_name(self.vs(), s@, 0) == first_with_name(self.vs(), s@, k as nat),
            decreases self.vertices@.len() - k,
        {
            if self.vertices[k].name == s {
                return Some(&self.vertices[k]);
            }
            k = k + 1;
        }
        None
    }

    /// The first vertex with identifier `id`.
    pub fn get_node_from_id(&self, id: usize) -> (res: Option<&NamedNode>)
        ensures
            match first_with_id(self.vs(), id, 0) {
                Some(k) => res == Some(&self.vs()[k]),
                None => res is None,
            },
    {
        let mut k: usize = 0;
        while k < self.vertices.len()
            invariant
                k <= self.vertices@.len(),
                first_with_id(self.vs(), id, 0) == first_with_id(self.vs(), id, k as nat),
            decreases self.vertices@.len() - k,
        {
            if self.vertices[k].id == id {
                return Some(&self.vertices[k]);
            }
            k = k + 1;
        }
        None
    }

    /// The position of the first vertex with identifier `id`.
    pub fn position_of_id(&self, id: usize) -> (res: Option<usize>)
        ensures
            match first_with_id(self.vs(), id, 0) {
                Some(k) => res == Some(k as usize) && 0 <= k < self.vs().len() && self.vs()[k].id == id,
                None => res is None,
            },
    {
        let mut k: usize = 0;
        while k < self.vertices.len()
            invariant
                k <= self.vertices@.len(),
                first_with_id(self.vs(), id, 0) == first_with_id(self.vs(), id, k as nat),
            decreases self.vertices@.len() - k,
        {
            if self.vertices[k].id == id {
                return Some(k);
            }
            k = k + 1;
        }
        None
    }

    /// The name of the vertex with identifier `id`.
    pub fn get_node_name(&self, id: usize) -> (res: Option<String>)
        ensures
            match first_with_id(self.vs(), id, 0) {
                Some(k) => res matches Some(n) && n@ == self.vs()[k].name@,
                None => res is None,
            },
    {
        match self.get_node_from_id(id) {
            Some(v) => Some(v.name.clone()),
            None => None,
        }
    }

    /// The name of the vertex with identifier `id`, or `or` where there is none.
    pub fn get_node_name_or(&self, id: usize, or: String) -> (res: String)
        ensures
            match first_with_id(self.vs(), id, 0) {
                Some(k) => res@ == self.vs()[k].name@,
                None => res == or,
            },
    {
        match self.get_node_name(id) {
            Some(n) => n,
            None => or,
        }
    }
}


// ------------------------------------------------------ graphs from edge lists

/// A weighted edge between two named vertices: `((from, to), amount)`.
pub type NamedEdge = ((String, String), i64);

/// The entry at `k` is the last one with its pair of names (a later entry
/// with the same pair replaces it).
pub open spec fn last_of_pair(es: Seq<NamedEdge>, k: int) -> bool {
    forall|l: int| k < l < es.len() ==> !(es[l].0.0@ == es[k].0.0@ && es[l].0.1@ == es[k].0.1@)
}

/// What the edge `e` adds to the weight of `name`: `to` gains the amount and
/// `from` loses it; an edge from a vertex to itself moves nothing.
pub open spec fn edge_share(e: NamedEdge, name: Seq<char>) -> int {
    if e.0.0@ == e.0.1@ {
        0
    } else {
        (if e.0.1@ == name {
            e.1 as int
        } else {
            0
        }) - (if e.0.0@ == name {
            e.1 as int
        } else {
            0
        })
    }
}

/// The weight of `name` over the first `k` entries, each pair of names counted once.
pub open spec fn edge_net(es: Seq<NamedEdge>, name: Seq<char>, k: nat) -> int
    decreases k,
{
    if k == 0 {
        0
    } else {
        edge_net(es, name, (k - 1) as nat) + (if last_of_pair(es, k - 1) {
            edge_share(es[k - 1], name)
        } else {
            0
        })
    }
}

/// Appending an entry whose ordered pair of names no earlier entry has leaves
/// what the earlier entries count as they were.
proof fn lemma_edge_net_fresh_prefix(es: Seq<NamedEdge>, e: NamedEdge, name: Seq<char>, k: nat)
    requires
        k <= es.len(),
        forall|l: int| 0 <= l < es.len() ==> !(#[trigger] es[l].0.0@ == e.0.0@ && es[l].0.1@ == e.0.1@),
    ensures
        edge_net(es.push(e), name, k) == edge_net(es, name, k),
    decreases k,
{
    if k > 0 {
        lemma_edge_net_fresh_prefix(es, e, name, (k - 1) as nat);
        let t = es.push(e);
        assert(t[k - 1] == es[k - 1]);
        assert(last_of_pair(t, k - 1) == last_of_pair(es, k - 1)) by {
            if last_of_pair(es, k - 1) {
                assert forall|l: int| k - 1 < l < t.len() implies !(#[trigger] t[l].0.0@ == t[k - 1].0.0@ && t[l].0.1@ == t[k
                    - 1].0.1@) by {
                    if l < es.len() {
                        assert(t[l] == es[l]);
                    } else {
                        assert(t[l] == e);
                    }
                }
            } else {
                let l = choose|l: int| k - 1 < l < es.len() && (#[trigger] es[l].0.0@ == es[k - 1].0.0@ && es[l].0.1@ == es[k - 1].0.1@);
                assert(t[l] == es[l]);
            }
        }
    }
}

/// An edge `from -> to` whose ordered pair of names no earlier entry has adds
/// its amount to the weight of `to` and takes it from the weight of `from`,
/// and changes no other weight; an edge between opposite names, or between
/// other names, still counts. An edge from a name to itself moves nothing.
pub proof fn law_edge_net_fresh_pair(es: Seq<NamedEdge>, e: NamedEdge, name: Seq<char>)
    requires
        forall|l: int| 0 <= l < es.len() ==> !(#[trigger] es[l].0.0@ == e.0.0@ && es[l].0.1@ == e.0.1@),
    ensures
        edge_net(es.push(e), name, es.len() + 1) == edge_net(es, name, es.len()) + if e.0.0@ == e.0.1@ {
            0
        } else {
            (if e.0.1@ == name {
                e.1 as int
            } else {
                0
            }) - (if e.0.0@ == name {
                e.1 as int
            } else {
                0
            })
        },
{
    lemma_edge_net_fresh_prefix(es, e, name, es.len());
    let t = es.push(e);
    assert(t[es.len() as int] == e);
    assert(last_of_pair(t, es.len() as int));
}

/// Of two entries with the same ordered pair of names, the later replaces the
/// earlier: the earlier one counts for nothing.
pub proof fn law_edge_net_replace(es: Seq<NamedEdge>, e1: NamedEdge, e2: NamedEdge, name: Seq<char>)
    requires
        e1.0.0@ == e2.0.0@,
        e1.0.1@ == e2.0.1@,
    ensures
        edge_net(es.push(e1).push(e2), name, es.len() + 2) == edge_net(es.push(e2), name, es.len() + 1),
{
    let t1 = es.push(e1).push(e2);
    let t2 = es.push(e2);
    assert forall|k: nat| k <= es.len() implies edge_net(t1, name, k) == edge_net(t2, name, k) by {
        lemma_edge_net_same_prefix(es, e1, e2, name, k);
    }
    assert(t1[es.len() as int] == e1);
    assert(t1[es.len() as int + 1] == e2);
    assert(t2[es.len() as int] == e2);
    assert(!last_of_pair(t1, es.len() as int)) by {
        assert(t1[es.len() as int + 1].0.0@ == t1[es.len() as int].0.0@);
    }
    assert(last_of_pair(t1, es.len() as int + 1));
    assert(last_of_pair(t2, es.len() as int));
    assert(edge_net(t1, name, (es.len() + 1) as nat) == edge_net(t1, name, es.len()));
}

proof fn lemma_edge_net_same_prefix(es: Seq<NamedEdge>, e1: NamedEdge, e2: NamedEdge, name: Seq<char>, k: nat)
    requires
        k <= es.len(),
        e1.0.0@ == e2.0.0@,
        e1.0.1@ == e2.0.1@,
    ensures
        edge_net(es.push(e1).push(e2), name, k) == edge_net(es.push(e2), name, k),
    decreases k,
{
    if k > 0 {
        lemma_edge_net_same_prefix(es, e1, e2, name, (k - 1) as nat);
        let t1 = es.push(e1).push(e2);
        let t2 = es.push(e2);
        assert(t1[k - 1] == es[k - 1]);
        assert(t2[k - 1] == es[k - 1]);
        assert(last_of_pair(t1, k - 1) == last_of_pair(t2, k - 1)) by {
            if last_of_pair(t2, k - 1) {
                assert forall|l: int| k - 1 < l < t1.len() implies !(#[trigger] t1[l].0.0@ == t1[k - 1].0.0@ && t1[l].0.1@ == t1[k
                    - 1].0.1@) by {
                    if l < es.len() {
                        assert(t1[l] == es[l]);
                        assert(t2[l] == es[l]);
                    } else if l == es.len() {
                        assert(t1[l] == e1);
                        assert(t2[l] == e2);
                    } else {
                        assert(t1[l] == e2);
                        assert(t2[es.len() as int] == e2);
                    }
                }
            } else {
                let l = choose|l: int| k - 1 < l < t2.len() && (#[trigger] t2[l].0.0@ == t2[k - 1].0.0@ && t2[l].0.1@ == t2[k - 1].0.1@);
                if l < es.len() {
                    assert(t1[l] == t2[l]);
                } else {
                    assert(t2[l] == e2);
                    assert(t1[l] == e1);
                }
            }
        }
    }
}

/// The entry `e` names `x` as sender or as receiver.
pub open spec fn mentions(e: NamedEdge, x: Seq<char>) -> bool {
    e.0.0@ == x || e.0.1@ == x
}

/// The names of the graph of an edge list are the names that occur in the
/// entries, as sender or as receiver, each once.
pub proof fn law_edge_names(es: Seq<NamedEdge>, k: nat)
    requires
        k <= es.len(),
    ensures
        forall|a: int, b: int|
            0 <= a < b < edge_names(es, k).len() ==> #[trigger] edge_names(es, k)[a] != #[trigger] edge_names(es, k)[b],
        forall|x: Seq<char>|
            #[trigger] edge_names(es, k).contains(x) <==> exists|l: int| 0 <= l < k && #[trigger] mentions(es[l], x),
    decreases k,
{
    if k > 0 {
        law_edge_names(es, (k - 1) as nat);
        let prev = edge_names(es, (k - 1) as nat);
        let a = es[k - 1].0.0@;
        let b = es[k - 1].0.1@;
        let p1 = if prev.contains(a) {
            prev
        } else {
            prev.push(a)
        };
        let p2 = if p1.contains(b) {
            p1
        } else {
            p1.push(b)
        };
        assert(edge_names(es, k) == p2);
        assert forall|x: Seq<char>| #[trigger] p1.contains(x) <==> (prev.contains(x) || x == a) by {
            if !prev.contains(a) {
                if p1.contains(x) {
                    let i = choose|i: int| 0 <= i < p1.len() && p1[i] == x;
                    if i < prev.len() {
                        assert(prev[i] == x);
                    }
                }
                if prev.contains(x) {
                    let i = choose|i: int| 0 <= i < prev.len() && prev[i] == x;
                    assert(p1[i] == x);
                }
                if x == a {
                    assert(p1[prev.len() as int] == x);
                }
            }
        }
        assert forall|x: Seq<char>| #[trigger] p2.contains(x) <==> (p1.contains(x) || x == b) by {
            if !p1.contains(b) {
                if p2.contains(x) {
                    let i = choose|i: int| 0 <= i < p2.len() && p2[i] == x;
                    if i < p1.len() {
                        assert(p1[i] == x);
                    }
                }
                if p1.contains(x) {
                    let i = choose|i: int| 0 <= i < p1.len() && p1[i] == x;
                    assert(p2[i] == x);
                }
                if x == b {
                    assert(p2[p1.len() as int] == x);
                }
            }
        }
        assert forall|a1: int, b1: int| 0 <= a1 < b1 < p1.len() implies #[trigger] p1[a1] != #[trigger] p1[b1] by {
            if !prev.contains(a) && b1 == prev.len() {
                assert(prev[a1] == p1[a1]);
            } else {
                assert(p1[a1] == prev[a1] && p1[b1] == prev[b1]);
            }
        }
        assert forall|a1: int, b1: int| 0 <= a1 < b1 < p2.len() implies #[trigger] p2[a1] != #[trigger] p2[b1] by {
            if !p1.contains(b) && b1 == p1.len() {
                assert(p1[a1] == p2[a1]);
            } else {
                assert(p2[a1] == p1[a1] && p2[b1] == p1[b1]);
            }
        }
        assert forall|x: Seq<char>| #[trigger] p2.contains(x) <==> exists|l: int|
            0 <= l < k && #[trigger] mentions(es[l], x) by {
            if exists|l: int| 0 <= l < k && #[trigger] mentions(es[l], x) {
                let l = choose|l: int| 0 <= l < k && #[trigger] mentions(es[l], x);
                if l < k - 1 {
                    assert(0 <= l < (k - 1) as nat && mentions(es[l], x));
                    assert(prev.contains(x));
                }
            }
            if p2.contains(x) {
                if prev.contains(x) {
                    let l = choose|l: int| 0 <= l < (k - 1) as nat && #[trigger] mentions(es[l], x);
                    assert(0 <= l < k && mentions(es[l], x));
                } else {
                    assert(mentions(es[k - 1], x));
                }
            }
        }
    }
}

/// The names in the first `k` entries, each once, in the order they first appear.
pub open spec fn edge_names(es: Seq<NamedEdge>, k: nat) -> Seq<Seq<char>>
    decreases k,
{
    if k == 0 {
        Seq::empty()
    } else {
        let prev = edge_names(es, (k - 1) as nat);
        let a = es[k - 1].0.0@;
        let b = es[k - 1].0.1@;
        let p1 = if prev.contains(a) {
            prev
        } else {
            prev.push(a)
        };
        if p1.contains(b) {
            p1
        } else {
            p1.push(b)
        }
    }
}

/// The names of a list of strings.
pub open spec fn names_view(names: Seq<String>) -> Seq<Seq<char>> {
    names.map_values(|s: String| s@)
}

/// An edge moves at most `2^63` into or out of a vertex.
proof fn lemma_edge_net_bound(es: Seq<NamedEdge>, name: Seq<char>, k: nat)
    ensures
        -(k * 0x8000_0000_0000_0000) <= edge_net(es, name, k) <= k * 0x8000_0000_0000_0000,
    decreases k,
{
    if k > 0 {
        lemma_edge_net_bound(es, name, (k - 1) as nat);
    }
}

/// The position of `name` in `names`, if it is there.
fn position_of(names: &Vec<String>, name: &String) -> (res: Option<usize>)
    ensures
        match res {
            Some(i) => i < names@.len() && names@[i as int]@ == name@,
            None => !names_view(names@).contains(name@),
        },
{
    let mut k: usize = 0;
    while k < names.len()
        invariant
            k <= names@.len(),
            forall|x: int| 0 <= x < k ==> names@[x]@ != name@,
        decreases names@.len() - k,
    {
        if names[k] == *name {
            return Some(k);
        }
        k = k + 1;
    }
    proof {
        if names_view(names@).contains(name@) {
            let x = choose|x: int| 0 <= x < names_view(names@).len() && names_view(names@)[x] == name@;
            assert(names@[x]@ == name@);
        }
    }
    None
}

/// Whether the entry at `k` is the last one with its pair of names.
fn is_last_of_pair(es: &Vec<NamedEdge>, k: usize) -> (res: bool)
    requires
        k < es@.len(),
    ensures
        res == last_of_pair(es@, k as int),
{
    assert(es@.len() == es.len());
    let mut l: usize = k + 1;
    while l < es.len()
        invariant
            k < l <= es@.len(),
            forall|x: int| k < x < l ==> !(es@[x].0.0@ == es@[k as int].0.0@ && es@[x].0.1@ == es@[k as int].0.1@),
        decreases es@.len() - l,
    {
        if es[l].0.0 == es[k].0.0 && es[l].0.1 == es[k].0.1 {
            return false;
        }
        l = l + 1;
    }
    true
}

/// The names of the edges, each once in the order they first appear, and the
/// weight of each, computed without overflow.
fn edge_nets(value: &Vec<NamedEdge>) -> (res: (Vec<String>, Vec<i128>))
    ensures
        names_view(res.0@) == edge_names(value@, value@.len()),
        res.1@.len() == res.0@.len(),
        forall|x: int| 0 <= x < res.1@.len() ==> #[trigger] res.1@[x] == edge_net(value@, res.0@[x]@, value@.len()),
{
    let n = value.len();
    let mut names: Vec<String> = Vec::new();
    let mut nets: Vec<i128> = Vec::new();
    let mut k: usize = 0;
    while k < n
        invariant
            k <= n,
            n == value@.len(),
            names_view(names@) == edge_names(value@, k as nat),
            nets@.len() == names@.len(),
            forall|x: int, y: int| 0 <= x < names@.len() && 0 <= y < names@.len() && x != y ==> #[trigger] names@[x]@
                != #[trigger] names@[y]@,
            forall|x: int| 0 <= x < nets@.len() ==> #[trigger] nets@[x] == edge_net(value@, names@[x]@, k as nat),
        decreases n - k,
    {
        let ghost prev = names_view(names@);
        let ghost a = value@[k as int].0.0@;
        let ghost b = value@[k as int].0.1@;
        let mut ia: usize = 0;
        match position_of(&names, &value[k].0.0) {
            Some(i) => {
                ia = i;
                assert(prev[i as int] == a);
                assert(prev.contains(a));
            },
            None => {
                names.push(value[k].0.0.clone());
                nets.push(0);
                assert(names_view(names@) =~= prev.push(a));
                ia = names.len() - 1;
            },
        }
        let ghost p1 = names_view(names@);
        assert(p1 == if prev.contains(a) { prev } else { prev.push(a) });
        let mut ib: usize = 0;
        match position_of(&names, &value[k].0.1) {
            Some(i) => {
                ib = i;
                assert(p1[i as int] == b);
                assert(p1.contains(b));
            },
            None => {
                names.push(value[k].0.1.clone());
                nets.push(0);
                assert(names_view(names@) =~= p1.push(b));
                ib = names.len() - 1;
            },
        }
        assert(names_view(names@) == edge_names(value@, (k + 1) as nat));
        proof {
            assert forall|x: int, y: int| 0 <= x < names@.len() && 0 <= y < names@.len() && x != y implies #[trigger] names@[x]@
                != #[trigger] names@[y]@ by {
                assert(names_view(names@)[x] == names@[x]@);
                assert(names_view(names@)[y] == names@[y]@);
                if x >= prev.len() || y >= prev.len() {
                    if x < p1.len() && y < p1.len() {
                        if x >= prev.len() {
                            assert(!prev.contains(a));
                            assert(prev[y] == names@[y]@);
                        } else {
                            assert(!prev.contains(a));
                            assert(prev[x] == names@[x]@);
                        }
                    } else {
                        assert(!p1.contains(b));
                        if x >= p1.len() {
                            assert(p1[y] == names@[y]@);
                        } else {
                            assert(p1[x] == names@[x]@);
                        }
                    }
                } else {
                    assert(prev[x] == names@[x]@ && prev[y] == names@[y]@);
                }
            }
        }
        assert(names@[ia as int]@ == a);
        assert(names@[ib as int]@ == b);
        proof {
            assert forall|x: int| 0 <= x < nets@.len() implies #[trigger] nets@[x] == edge_net(value@, names@[x]@, k as nat) by {
                if x >= prev.len() {
                    // A name seen for the first time has no weight yet.
                    assert(names_view(names@)[x] == names@[x]@);
                    if x < p1.len() {
                        assert(p1[x] == a);
                        assert(!prev.contains(a));
                    } else {
                        assert(names@[x]@ == b);
                        assert(!p1.contains(b));
                        assert(!prev.contains(b)) by {
                            if prev.contains(b) {
                                let y = choose|y: int| 0 <= y < prev.len() && prev[y] == b;
                                assert(p1[y] == b);
                            }
                        }
                    }
                    lemma_edge_net_unseen(value@, names@[x]@, k as nat);
                }
            }
            assert forall|x: int| 0 <= x < nets@.len() implies -(k * 0x8000_0000_0000_0000) <= #[trigger] nets@[x] <= k
                * 0x8000_0000_0000_0000 by {
                lemma_edge_net_bound(value@, names@[x]@, k as nat);
            }
        }
        if is_last_of_pair(&value, k) && !(value[k].0.0 == value[k].0.1) {
            let w = value[k].1 as i128;
            let old_a = nets[ia];
            nets.set(ia, old_a - w);
            let old_b = nets[ib];
            nets.set(ib, old_b + w);
        }
        proof {
            assert forall|x: int| 0 <= x < nets@.len() implies #[trigger] nets@[x] == edge_net(value@, names@[x]@, (k + 1) as nat) by {
                if x != ia && x != ib {
                    assert(names@[x]@ != a);
                    assert(names@[x]@ != b);
                }
            }
        }
        k = k + 1;
    }
    (names, nets)
}

/// Whether the weight of every vertex of the edge list fits in an `i64`.
pub fn edge_weights_fit(value: &Vec<NamedEdge>) -> (res: bool)
    ensures
        res == forall|x: Seq<char>|
            #[trigger] edge_names(value@, value@.len()).contains(x) ==> i64::MIN <= edge_net(value@, x, value@.len())
                <= i64::MAX,
{
    let (names, nets) = edge_nets(value);
    let mut k: usize = 0;
    while k < nets.len()
        invariant
            k <= nets@.len(),
            nets@.len() == names@.len(),
            names_view(names@) == edge_names(value@, value@.len()),
            forall|x: int| 0 <= x < nets@.len() ==> #[trigger] nets@[x] == edge_net(value@, names@[x]@, value@.len()),
            forall|y: int| 0 <= y < k ==> i64::MIN <= #[trigger] nets@[y] <= i64::MAX,
        decreases nets@.len() - k,
    {
        if nets[k] < i64::MIN as i128 || nets[k] > i64::MAX as i128 {
            assert(names_view(names@)[k as int] == names@[k as int]@);
            assert(edge_names(value@, value@.len()).contains(names@[k as int]@));
            return false;
        }
        k = k + 1;
    }
    assert forall|x: Seq<char>| #[trigger] edge_names(value@, value@.len()).contains(x) implies i64::MIN <= edge_net(
        value@,
        x,
        value@.len(),
    ) <= i64::MAX by {
        let y = choose|y: int| 0 <= y < names_view(names@).len() && names_view(names@)[y] == x;
        assert(names@[y]@ == x);
        assert(nets@[y] == edge_net(value@, x, value@.len()));
    }
    true
}

impl Graph {
    /// The graph of a list of weighted edges: a vertex for each name, in the
    /// order the names first appear, whose weight is what the edges move into it
    /// minus what they move out of it; of two edges with the same pair of names
    /// the later counts.
    pub fn from_weighted_edges(value: Vec<NamedEdge>) -> (g: Graph)
        requires
            forall|x: Seq<char>|
                #[trigger] edge_names(value@, value@.len()).contains(x) ==> i64::MIN <= edge_net(value@, x, value@.len())
                    <= i64::MAX,
        ensures
            g.vs().len() == edge_names(value@, value@.len()).len(),
            forall|i: int|
                0 <= i < g.vs().len() ==> (#[trigger] g.vs()[i]).id == i && g.vs()[i].name@ == edge_names(
                    value@,
                    value@.len(),
                )[i] && g.vs()[i].weight == edge_net(value@, edge_names(value@, value@.len())[i], value@.len()),
            g.es() == complete_edges(ids_of(g.vs())),
            total_weight(g.vs()) == 0,
    {
        let n = value.len();
        let (names, nets) = edge_nets(&value);
        let mut weights: Vec<i64> = Vec::new();
        let mut x: usize = 0;
        while x < nets.len()
            invariant
                x <= nets@.len(),
                n == value@.len(),
                nets@.len() == names@.len(),
                names_view(names@) == edge_names(value@, n as nat),
                forall|y: int| 0 <= y < nets@.len() ==> #[trigger] nets@[y] == edge_net(value@, names@[y]@, n as nat),
                forall|z: Seq<char>|
                    #[trigger] edge_names(value@, value@.len()).contains(z) ==> i64::MIN <= edge_net(value@, z, value@.len())
                        <= i64::MAX,
                weights@.len() == x,
                forall|y: int| 0 <= y < x ==> #[trigger] weights@[y] == nets@[y],
            decreases nets@.len() - x,
        {
            assert(names_view(names@)[x as int] == names@[x as int]@);
            assert(edge_names(value@, value@.len()).contains(names@[x as int]@));
            weights.push(nets[x] as i64);
            x = x + 1;
        }
        let ghost nv = names_view(names@);
        let g = Graph::new(names, weights);
        proof {
            assert forall|i: int| 0 <= i < g.vs().len() implies (#[trigger] g.vs()[i]).weight == edge_net(value@, nv[i], n as nat) by {
                assert(nv[i] == g.vs()[i].name@);
            }
            lemma_total_net(g.vs(), value@, nv, n as nat);
            law_edges_balanced(value@, n as nat);
        }
        g
    }
}

/// A name that no entry before `k` mentions has weight zero there.
proof fn lemma_edge_net_unseen(es: Seq<NamedEdge>, name: Seq<char>, k: nat)
    requires
        k <= es.len(),
        !edge_names(es, k).contains(name),
    ensures
        edge_net(es, name, k) == 0,
    decreases k,
{
    if k > 0 {
        let prev = edge_names(es, (k - 1) as nat);
        let a = es[k - 1].0.0@;
        let b = es[k - 1].0.1@;
        assert(!prev.contains(name)) by {
            if prev.contains(name) {
                let x = choose|x: int| 0 <= x < prev.len() && prev[x] == name;
                let p1 = if prev.contains(a) { prev } else { prev.push(a) };
                assert(p1[x] == name);
                let p2 = if p1.contains(b) { p1 } else { p1.push(b) };
                assert(p2[x] == name);
            }
        }
        assert(a != name) by {
            let p1 = if prev.contains(a) { prev } else { prev.push(a) };
            assert(p1.contains(a)) by {
                if prev.contains(a) {
                } else {
                    assert(p1[prev.len() as int] == a);
                }
            }
            let x = choose|x: int| 0 <= x < p1.len() && p1[x] == a;
            let p2 = if p1.contains(b) { p1 } else { p1.push(b) };
            assert(p2[x] == a);
        }
        assert(b != name) by {
            let p1 = if prev.contains(a) { prev } else { prev.push(a) };
            let p2 = if p1.contains(b) { p1 } else { p1.push(b) };
            assert(p2.contains(b)) by {
                if p1.contains(b) {
                    let x = choose|x: int| 0 <= x < p1.len() && p1[x] == b;
                    assert(p2[x] == b);
                } else {
                    assert(p2[p1.len() as int] == b);
                }
            }
        }
        lemma_edge_net_unseen(es, name, (k - 1) as nat);
    }
}


// --------------------------------------------- an edge list is always balanced

/// The sum over `names` of their weights over the first `k` entries.
pub open spec fn net_sum(es: Seq<NamedEdge>, names: Seq<Seq<char>>, k: nat) -> int
    decreases names.len(),
{
    if names.len() == 0 {
        0
    } else {
        net_sum(es, names.drop_last(), k) + edge_net(es, names.last(), k)
    }
}

/// The sum over `names` of what the edge `e` adds to each.
pub open spec fn share_sum(e: NamedEdge, names: Seq<Seq<char>>) -> int
    decreases names.len(),
{
    if names.len() == 0 {
        0
    } else {
        share_sum(e, names.drop_last()) + edge_share(e, names.last())
    }
}

/// How often `x` is listed in `names`.
pub open spec fn count_of(names: Seq<Seq<char>>, x: Seq<char>) -> int
    decreases names.len(),
{
    if names.len() == 0 {
        0
    } else {
        count_of(names.drop_last(), x) + (if names.last() == x {
            1int
        } else {
            0
        })
    }
}

/// No name is listed twice.
pub open spec fn distinct_names(names: Seq<Seq<char>>) -> bool {
    forall|x: int, y: int| 0 <= x < names.len() && 0 <= y < names.len() && x != y ==> names[x] != names[y]
}

proof fn lemma_count_once(names: Seq<Seq<char>>, x: Seq<char>)
    requires
        distinct_names(names),
    ensures
        names.contains(x) ==> count_of(names, x) == 1,
        !names.contains(x) ==> count_of(names, x) == 0,
    decreases names.len(),
{
    if names.len() > 0 {
        let n2 = names.drop_last();
        assert(distinct_names(n2)) by {
            assert forall|a: int, b: int| 0 <= a < n2.len() && 0 <= b < n2.len() && a != b implies n2[a] != n2[b] by {
                assert(n2[a] == names[a] && n2[b] == names[b]);
            }
        }
        lemma_count_once(n2, x);
        assert(names[names.len() - 1] == names.last());
        if names.last() == x {
            assert(!n2.contains(x)) by {
                if n2.contains(x) {
                    let a = choose|a: int| 0 <= a < n2.len() && n2[a] == x;
                    assert(names[a] == x);
                }
            }
        } else {
            if names.contains(x) {
                let a = choose|a: int| 0 <= a < names.len() && names[a] == x;
                assert(n2[a] == x);
            }
            if n2.contains(x) {
                let a = choose|a: int| 0 <= a < n2.len() && n2[a] == x;
                assert(names[a] == x);
            }
        }
    }
}

proof fn lemma_share_sum_count(e: NamedEdge, names: Seq<Seq<char>>)
    ensures
        share_sum(e, names) == (if e.0.0@ == e.0.1@ {
            0
        } else {
            e.1 * count_of(names, e.0.1@) - e.1 * count_of(names, e.0.0@)
        }),
    decreases names.len(),
{
    if names.len() > 0 {
        lemma_share_sum_count(e, names.drop_last());
        let c1 = count_of(names.drop_last(), e.0.1@);
        let c0 = count_of(names.drop_last(), e.0.0@);
        assert(e.1 * (c1 + 1) == e.1 * c1 + e.1) by (nonlinear_arith);
        assert(e.1 * (c0 + 1) == e.1 * c0 + e.1) by (nonlinear_arith);
    }
}

proof fn lemma_net_sum_step(es: Seq<NamedEdge>, names: Seq<Seq<char>>, k: nat)
    requires
        k > 0,
    ensures
        net_sum(es, names, k) == net_sum(es, names, (k - 1) as nat) + (if last_of_pair(es, k - 1) {
            share_sum(es[k - 1], names)
        } else {
            0
        }),
    decreases names.len(),
{
    if names.len() > 0 {
        lemma_net_sum_step(es, names.drop_last(), k);
    }
}

proof fn lemma_net_sum_push_unseen(es: Seq<NamedEdge>, names: Seq<Seq<char>>, x: Seq<char>, k: nat)
    requires
        edge_net(es, x, k) == 0,
    ensures
        net_sum(es, names.push(x), k) == net_sum(es, names, k),
{
    assert(names.push(x).drop_last() == names);
}

proof fn lemma_edge_names_distinct(es: Seq<NamedEdge>, k: nat)
    requires
        k <= es.len(),
    ensures
        distinct_names(edge_names(es, k)),
        k > 0 ==> edge_names(es, k).contains(es[k - 1].0.0@) && edge_names(es, k).contains(es[k - 1].0.1@),
    decreases k,
{
    if k > 0 {
        lemma_edge_names_distinct(es, (k - 1) as nat);
        let prev = edge_names(es, (k - 1) as nat);
        let a = es[k - 1].0.0@;
        let b = es[k - 1].0.1@;
        let p1 = if prev.contains(a) { prev } else { prev.push(a) };
        assert(distinct_names(p1)) by {
            if !prev.contains(a) {
                assert forall|x: int, y: int| 0 <= x < p1.len() && 0 <= y < p1.len() && x != y implies p1[x] != p1[y] by {
                    if x < prev.len() && y < prev.len() {
                        assert(p1[x] == prev[x] && p1[y] == prev[y]);
                    } else if x < prev.len() {
                        assert(p1[x] == prev[x]);
                    } else {
                        assert(p1[y] == prev[y]);
                    }
                }
            }
        }
        assert(p1.contains(a)) by {
            if !prev.contains(a) {
                assert(p1[prev.len() as int] == a);
            }
        }
        let p2 = if p1.contains(b) { p1 } else { p1.push(b) };
        assert(distinct_names(p2)) by {
            if !p1.contains(b) {
                assert forall|x: int, y: int| 0 <= x < p2.len() && 0 <= y < p2.len() && x != y implies p2[x] != p2[y] by {
                    if x < p1.len() && y < p1.len() {
                        assert(p2[x] == p1[x] && p2[y] == p1[y]);
                    } else if x < p1.len() {
                        assert(p2[x] == p1[x]);
                    } else {
                        assert(p2[y] == p1[y]);
                    }
                }
            }
        }
        let q = choose|q: int| 0 <= q < p1.len() && p1[q] == a;
        assert(p2[q] == a);
        if !p1.contains(b) {
            assert(p2[p1.len() as int] == b);
        }
    }
}

/// The weights of the vertices of an edge list add up to zero: every edge
/// moves into one vertex what it moves out of another.
pub proof fn law_edges_balanced(es: Seq<NamedEdge>, k: nat)
    requires
        k <= es.len(),
    ensures
        net_sum(es, edge_names(es, k), k) == 0,
    decreases k,
{
    if k > 0 {
        law_edges_balanced(es, (k - 1) as nat);
        let prev = edge_names(es, (k - 1) as nat);
        let a = es[k - 1].0.0@;
        let b = es[k - 1].0.1@;
        let p1 = if prev.contains(a) { prev } else { prev.push(a) };
        let names = edge_names(es, k);
        // The names new at `k` weigh nothing before it.
        if !prev.contains(a) {
            lemma_edge_net_unseen(es, a, (k - 1) as nat);
            lemma_net_sum_push_unseen(es, prev, a, (k - 1) as nat);
        }
        if !p1.contains(b) {
            assert(!prev.contains(b)) by {
                if prev.contains(b) {
                    let q = choose|q: int| 0 <= q < prev.len() && prev[q] == b;
                    assert(p1[q] == b);
                }
            }
            lemma_edge_net_unseen(es, b, (k - 1) as nat);
            lemma_net_sum_push_unseen(es, p1, b, (k - 1) as nat);
        }
        assert(net_sum(es, names, (k - 1) as nat) == 0);
        lemma_net_sum_step(es, names, k);
        lemma_edge_names_distinct(es, k);
        lemma_share_sum_count(es[k - 1], names);
        lemma_count_once(names, a);
        lemma_count_once(names, b);
    }
}

/// Vertices weighing what the names weigh add up to their net sum.
proof fn lemma_total_net(vs: Seq<NamedNode>, es: Seq<NamedEdge>, names: Seq<Seq<char>>, k: nat)
    requires
        vs.len() == names.len(),
        forall|i: int| 0 <= i < vs.len() ==> (#[trigger] vs[i]).weight == edge_net(es, names[i], k),
    ensures
        total_weight(vs) == net_sum(es, names, k),
    decreases vs.len(),
{
    if vs.len() > 0 {
        assert forall|i: int| 0 <= i < vs.drop_last().len() implies (#[trigger] vs.drop_last()[i]).weight == edge_net(
            es,
            names.drop_last()[i],
            k,
        ) by {
            assert(vs.drop_last()[i] == vs[i]);
        }
        lemma_total_net(vs.drop_last(), es, names.drop_last(), k);
        assert(vs[vs.len() - 1] == vs.last());
    }
}

} // verus!
