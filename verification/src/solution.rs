//! Transfers and what it means for them to settle a network.
use crate::graph::{has_id, ids_distinct, total_abs_weight, total_weight, Edge, NamedNode};
use vstd::prelude::*;

verus! {

/// A proposed list of transfers: `(Edge { u, v }, a)` reads "`v` pays `a` to `u`",
/// or nothing where no solution was found.
pub type Solution = Option<Vec<(Edge, i128)>>;

/// What `id` receives minus what it pays over the transfers.
pub open spec fn net_flow(sol: Seq<(Edge, i128)>, id: usize) -> int
    decreases sol.len(),
{
    if sol.len() == 0 {
        0
    } else {
        let t = sol.last();
        net_flow(sol.drop_last(), id) + (if t.0.u == id {
            t.1 as int
        } else {
            0
        }) - (if t.0.v == id {
            t.1 as int
        } else {
            0
        })
    }
}

/// Every transfer joins two distinct vertices of `vs` and moves a nonnegative amount.
pub open spec fn transfers_within(vs: Seq<NamedNode>, sol: Seq<(Edge, i128)>) -> bool {
    forall|k: int|
        0 <= k < sol.len() ==> {
            let t = #[trigger] sol[k];
            &&& has_id(vs, t.0.u)
            &&& has_id(vs, t.0.v)
            &&& t.0.u != t.0.v
            &&& t.1 >= 0
        }
}

/// Every vertex receives, net, exactly its weight.
pub open spec fn balanced(vs: Seq<NamedNode>, sol: Seq<(Edge, i128)>) -> bool {
    forall|i: int| 0 <= i < vs.len() ==> net_flow(sol, #[trigger] vs[i].id) == vs[i].weight
}

/// The transfers settle the network of `vs`.
pub open spec fn settles(vs: Seq<NamedNode>, sol: Seq<(Edge, i128)>) -> bool {
    transfers_within(vs, sol) && balanced(vs, sol)
}

/// No edge carries two transfers.
pub open spec fn edges_distinct(sol: Seq<(Edge, i128)>) -> bool {
    forall|a: int, b: int| 0 <= a < b < sol.len() ==> #[trigger] sol[a].0 != #[trigger] sol[b].0
}

/// No transfer touches `id`.
pub open spec fn untouched(sol: Seq<(Edge, i128)>, id: usize) -> bool {
    forall|k: int| 0 <= k < sol.len() ==> (#[trigger] sol[k]).0.u != id && sol[k].0.v != id
}

/// The sum of the amounts.
pub open spec fn total_amount(sol: Seq<(Edge, i128)>) -> int
    decreases sol.len(),
{
    if sol.len() == 0 {
        0
    } else {
        total_amount(sol.drop_last()) + sol.last().1
    }
}

/// Net flow is additive over concatenation.
pub proof fn lemma_net_flow_concat(a: Seq<(Edge, i128)>, b: Seq<(Edge, i128)>, id: usize)
    ensures
        net_flow(a + b, id) == net_flow(a, id) + net_flow(b, id),
    decreases b.len(),
{
    if b.len() == 0 {
        assert(a + b == a);
    } else {
        lemma_net_flow_concat(a, b.drop_last(), id);
        assert((a + b).drop_last() == a + b.drop_last());
    }
}

/// A vertex that no transfer touches has net flow zero.
pub proof fn lemma_net_flow_untouched(sol: Seq<(Edge, i128)>, id: usize)
    requires
        untouched(sol, id),
    ensures
        net_flow(sol, id) == 0,
    decreases sol.len(),
{
    if sol.len() > 0 {
        assert(sol[sol.len() - 1] == sol.last());
        assert(untouched(sol.drop_last(), id)) by {
            assert forall|k: int| 0 <= k < sol.drop_last().len() implies (#[trigger] sol.drop_last()[k]).0.u != id
                && sol.drop_last()[k].0.v != id by {
                assert(sol.drop_last()[k] == sol[k]);
            }
        }
        lemma_net_flow_untouched(sol.drop_last(), id);
    }
}

/// Net flow after appending one transfer.
pub proof fn lemma_net_flow_push(a: Seq<(Edge, i128)>, t: (Edge, i128), id: usize)
    ensures
        net_flow(a.push(t), id) == net_flow(a, id) + (if t.0.u == id {
            t.1 as int
        } else {
            0
        }) - (if t.0.v == id {
            t.1 as int
        } else {
            0
        }),
{
    assert(a.push(t).drop_last() == a);
}

/// The total amount is additive over concatenation.
pub proof fn lemma_total_amount_concat(a: Seq<(Edge, i128)>, b: Seq<(Edge, i128)>)
    ensures
        total_amount(a + b) == total_amount(a) + total_amount(b),
    decreases b.len(),
{
    if b.len() == 0 {
        assert(a + b == a);
    } else {
        lemma_total_amount_concat(a, b.drop_last());
        assert((a + b).drop_last() == a + b.drop_last());
    }
}


// ------------------------------------------------------------ amounts moved

/// What `id` receives over the transfers.
pub open spec fn inflow(sol: Seq<(Edge, i128)>, id: usize) -> int
    decreases sol.len(),
{
    if sol.len() == 0 {
        0
    } else {
        inflow(sol.drop_last(), id) + (if sol.last().0.u == id {
            sol.last().1 as int
        } else {
            0
        })
    }
}

/// What `id` pays over the transfers.
pub open spec fn outflow(sol: Seq<(Edge, i128)>, id: usize) -> int
    decreases sol.len(),
{
    if sol.len() == 0 {
        0
    } else {
        outflow(sol.drop_last(), id) + (if sol.last().0.v == id {
            sol.last().1 as int
        } else {
            0
        })
    }
}

/// The sum of the weights of the vertices that are owed something (or nothing).
pub open spec fn creditor_weight(vs: Seq<NamedNode>) -> int
    decreases vs.len(),
{
    if vs.len() == 0 {
        0
    } else {
        creditor_weight(vs.drop_last()) + (if vs.last().weight >= 0 {
            vs.last().weight as int
        } else {
            0
        })
    }
}

/// What the vertices of nonnegative weight receive over the transfers, together.
pub open spec fn creditor_inflow(vs: Seq<NamedNode>, sol: Seq<(Edge, i128)>) -> int
    decreases vs.len(),
{
    if vs.len() == 0 {
        0
    } else {
        creditor_inflow(vs.drop_last(), sol) + (if vs.last().weight >= 0 {
            inflow(sol, vs.last().id)
        } else {
            0
        })
    }
}

/// The transfer goes to a vertex of `vs` of nonnegative weight.
pub open spec fn to_creditor(vs: Seq<NamedNode>, t: (Edge, i128)) -> bool {
    exists|i: int| 0 <= i < vs.len() && vs[i].weight >= 0 && vs[i].id == t.0.u
}

/// The transfer comes from a vertex of `vs` of negative weight.
pub open spec fn from_debtor(vs: Seq<NamedNode>, t: (Edge, i128)) -> bool {
    exists|j: int| 0 <= j < vs.len() && vs[j].weight < 0 && vs[j].id == t.0.v
}

/// `a` for each vertex of nonnegative weight with identifier `u`.
pub open spec fn creditor_hits(vs: Seq<NamedNode>, u: usize, a: int) -> int
    decreases vs.len(),
{
    if vs.len() == 0 {
        0
    } else {
        creditor_hits(vs.drop_last(), u, a) + (if vs.last().weight >= 0 && vs.last().id == u {
            a
        } else {
            0
        })
    }
}

/// Net flow is inflow minus outflow, and with nonnegative amounts both are nonnegative.
pub proof fn lemma_net_in_out(sol: Seq<(Edge, i128)>, id: usize)
    ensures
        net_flow(sol, id) == inflow(sol, id) - outflow(sol, id),
        (forall|k: int| 0 <= k < sol.len() ==> (#[trigger] sol[k]).1 >= 0) ==> inflow(sol, id) >= 0 && outflow(sol, id)
            >= 0,
    decreases sol.len(),
{
    if sol.len() > 0 {
        lemma_net_in_out(sol.drop_last(), id);
        if forall|k: int| 0 <= k < sol.len() ==> (#[trigger] sol[k]).1 >= 0 {
            assert forall|k: int| 0 <= k < sol.drop_last().len() implies (#[trigger] sol.drop_last()[k]).1 >= 0 by {
                assert(sol.drop_last()[k] == sol[k]);
            }
            assert(sol[sol.len() - 1] == sol.last());
        }
    }
}

proof fn lemma_hits_none(vs: Seq<NamedNode>, u: usize, a: int)
    requires
        forall|i: int| 0 <= i < vs.len() ==> !(vs[i].weight >= 0 && #[trigger] vs[i].id == u),
    ensures
        creditor_hits(vs, u, a) == 0,
    decreases vs.len(),
{
    if vs.len() > 0 {
        assert(vs[vs.len() - 1] == vs.last());
        assert forall|i: int| 0 <= i < vs.drop_last().len() implies !(vs.drop_last()[i].weight >= 0 && #[trigger] vs.drop_last()[i].id
            == u) by {
            assert(vs.drop_last()[i] == vs[i]);
        }
        lemma_hits_none(vs.drop_last(), u, a);
    }
}

/// With distinct identifiers at most one vertex is hit: `a` where one of
/// nonnegative weight has identifier `u`, and nothing otherwise.
proof fn lemma_hits(vs: Seq<NamedNode>, u: usize, a: int)
    requires
        ids_distinct(vs),
    ensures
        (exists|i: int| 0 <= i < vs.len() && vs[i].weight >= 0 && #[trigger] vs[i].id == u) ==> creditor_hits(vs, u, a)
            == a,
        !(exists|i: int| 0 <= i < vs.len() && vs[i].weight >= 0 && #[trigger] vs[i].id == u) ==> creditor_hits(vs, u, a)
            == 0,
    decreases vs.len(),
{
    if vs.len() > 0 {
        let v2 = vs.drop_last();
        assert(ids_distinct(v2)) by {
            assert forall|x: int, y: int| 0 <= x < v2.len() && 0 <= y < v2.len() && x != y implies v2[x].id != v2[y].id by {
                assert(v2[x] == vs[x] && v2[y] == vs[y]);
            }
        }
        lemma_hits(v2, u, a);
        assert(vs[vs.len() - 1] == vs.last());
        if vs.last().weight >= 0 && vs.last().id == u {
            assert forall|i: int| 0 <= i < v2.len() implies !(v2[i].weight >= 0 && #[trigger] v2[i].id == u) by {
                assert(v2[i] == vs[i]);
            }
            lemma_hits_none(v2, u, a);
        } else {
            if exists|i: int| 0 <= i < vs.len() && vs[i].weight >= 0 && #[trigger] vs[i].id == u {
                let i = choose|i: int| 0 <= i < vs.len() && vs[i].weight >= 0 && #[trigger] vs[i].id == u;
                assert(v2[i] == vs[i]);
            }
            if exists|i: int| 0 <= i < v2.len() && v2[i].weight >= 0 && #[trigger] v2[i].id == u {
                let i = choose|i: int| 0 <= i < v2.len() && v2[i].weight >= 0 && #[trigger] v2[i].id == u;
                assert(vs[i] == v2[i]);
            }
        }
    }
}

/// One more transfer adds its amount to the receiver, if that is a vertex of
/// nonnegative weight.
proof fn lemma_creditor_inflow_push(vs: Seq<NamedNode>, sol: Seq<(Edge, i128)>, t: (Edge, i128))
    ensures
        creditor_inflow(vs, sol.push(t)) == creditor_inflow(vs, sol) + creditor_hits(vs, t.0.u, t.1 as int),
    decreases vs.len(),
{
    if vs.len() > 0 {
        lemma_creditor_inflow_push(vs.drop_last(), sol, t);
        assert(sol.push(t).drop_last() == sol);
    }
}

/// With distinct identifiers and nonnegative amounts, the vertices of
/// nonnegative weight receive at most the total amount, and exactly it where
/// every transfer goes to one of them.
proof fn lemma_creditor_inflow_total(vs: Seq<NamedNode>, sol: Seq<(Edge, i128)>)
    requires
        ids_distinct(vs),
        forall|k: int| 0 <= k < sol.len() ==> (#[trigger] sol[k]).1 >= 0,
    ensures
        creditor_inflow(vs, sol) <= total_amount(sol),
        (forall|k: int| 0 <= k < sol.len() ==> to_creditor(vs, #[trigger] sol[k])) ==> creditor_inflow(vs, sol)
            == total_amount(sol),
    decreases sol.len(),
{
    if sol.len() == 0 {
        lemma_creditor_inflow_empty(vs, sol);
    } else {
        let s2 = sol.drop_last();
        let t = sol.last();
        assert(sol[sol.len() - 1] == t);
        assert forall|k: int| 0 <= k < s2.len() implies (#[trigger] s2[k]).1 >= 0 by {
            assert(s2[k] == sol[k]);
        }
        lemma_creditor_inflow_total(vs, s2);
        assert(s2.push(t) == sol);
        lemma_creditor_inflow_push(vs, s2, t);
        lemma_hits(vs, t.0.u, t.1 as int);
        if forall|k: int| 0 <= k < sol.len() ==> to_creditor(vs, #[trigger] sol[k]) {
            assert forall|k: int| 0 <= k < s2.len() implies to_creditor(vs, #[trigger] s2[k]) by {
                assert(s2[k] == sol[k]);
            }
            assert(to_creditor(vs, sol[sol.len() - 1]));
        }
    }
}

proof fn lemma_creditor_inflow_empty(vs: Seq<NamedNode>, sol: Seq<(Edge, i128)>)
    requires
        sol.len() == 0,
    ensures
        creditor_inflow(vs, sol) == 0,
    decreases vs.len(),
{
    if vs.len() > 0 {
        lemma_creditor_inflow_empty(vs.drop_last(), sol);
    }
}

/// The absolute weights add up to twice the nonnegative ones, less the total.
pub proof fn lemma_abs_creditor(vs: Seq<NamedNode>)
    ensures
        total_abs_weight(vs) == 2 * creditor_weight(vs) - total_weight(vs),
    decreases vs.len(),
{
    if vs.len() > 0 {
        lemma_abs_creditor(vs.drop_last());
    }
}

/// Every settling moves at least what the vertices of nonnegative weight are
/// owed, which is half the sum of the absolute weights where the weights add
/// up to zero.
pub proof fn law_amount_lower_bound(vs: Seq<NamedNode>, sol: Seq<(Edge, i128)>)
    requires
        ids_distinct(vs),
        settles(vs, sol),
    ensures
        total_amount(sol) >= creditor_weight(vs),
        total_weight(vs) == 0 ==> 2 * total_amount(sol) >= total_abs_weight(vs),
{
    assert forall|k: int| 0 <= k < sol.len() implies (#[trigger] sol[k]).1 >= 0 by {
        assert(transfers_within(vs, sol));
    }
    lemma_creditor_inflow_total(vs, sol);
    lemma_creditor_weight_le(vs, vs, sol);
    lemma_abs_creditor(vs);
}

/// Vertices of `sub`, a part of `vs`, that are settled receive at least their weight.
proof fn lemma_creditor_weight_le(sub: Seq<NamedNode>, vs: Seq<NamedNode>, sol: Seq<(Edge, i128)>)
    requires
        forall|i: int| 0 <= i < sub.len() ==> net_flow(sol, #[trigger] sub[i].id) == sub[i].weight,
        forall|k: int| 0 <= k < sol.len() ==> (#[trigger] sol[k]).1 >= 0,
    ensures
        creditor_weight(sub) <= creditor_inflow(sub, sol),
    decreases sub.len(),
{
    if sub.len() > 0 {
        let s2 = sub.drop_last();
        assert forall|i: int| 0 <= i < s2.len() implies net_flow(sol, #[trigger] s2[i].id) == s2[i].weight by {
            assert(s2[i] == sub[i]);
        }
        lemma_creditor_weight_le(s2, vs, sol);
        assert(sub[sub.len() - 1] == sub.last());
        lemma_net_in_out(sol, sub.last().id);
    }
}

/// A settling whose every transfer goes to a vertex of nonnegative weight and
/// comes from one of negative weight moves exactly what the first are owed.
pub proof fn lemma_amount_of_one_way(vs: Seq<NamedNode>, sol: Seq<(Edge, i128)>)
    requires
        ids_distinct(vs),
        settles(vs, sol),
        forall|k: int| 0 <= k < sol.len() ==> to_creditor(vs, #[trigger] sol[k]),
        forall|k: int| 0 <= k < sol.len() ==> from_debtor(vs, #[trigger] sol[k]),
    ensures
        total_amount(sol) == creditor_weight(vs),
{
    assert forall|k: int| 0 <= k < sol.len() implies (#[trigger] sol[k]).1 >= 0 by {
        assert(transfers_within(vs, sol));
    }
    lemma_creditor_inflow_total(vs, sol);
    assert forall|i: int| 0 <= i < vs.len() && vs[i].weight >= 0 implies outflow(sol, #[trigger] vs[i].id) == 0 by {
        lemma_outflow_none(vs, sol, vs[i].id, i);
    }
    lemma_creditor_weight_eq(vs, vs, sol);
}

proof fn lemma_outflow_none(vs: Seq<NamedNode>, sol: Seq<(Edge, i128)>, id: usize, i: int)
    requires
        ids_distinct(vs),
        0 <= i < vs.len(),
        vs[i].weight >= 0,
        vs[i].id == id,
        forall|k: int| 0 <= k < sol.len() ==> from_debtor(vs, #[trigger] sol[k]),
    ensures
        outflow(sol, id) == 0,
    decreases sol.len(),
{
    if sol.len() > 0 {
        let s2 = sol.drop_last();
        assert forall|k: int| 0 <= k < s2.len() implies from_debtor(vs, #[trigger] s2[k]) by {
            assert(s2[k] == sol[k]);
        }
        lemma_outflow_none(vs, s2, id, i);
        assert(sol[sol.len() - 1] == sol.last());
        assert(from_debtor(vs, sol[sol.len() - 1]));
        let j = choose|j: int| 0 <= j < vs.len() && vs[j].weight < 0 && vs[j].id == sol.last().0.v;
        assert(j != i);
    }
}

proof fn lemma_creditor_weight_eq(sub: Seq<NamedNode>, vs: Seq<NamedNode>, sol: Seq<(Edge, i128)>)
    requires
        forall|i: int| 0 <= i < sub.len() ==> net_flow(sol, #[trigger] sub[i].id) == sub[i].weight,
        forall|i: int| 0 <= i < sub.len() && sub[i].weight >= 0 ==> outflow(sol, #[trigger] sub[i].id) == 0,
    ensures
        creditor_weight(sub) == creditor_inflow(sub, sol),
    decreases sub.len(),
{
    if sub.len() > 0 {
        let s2 = sub.drop_last();
        assert forall|i: int| 0 <= i < s2.len() implies net_flow(sol, #[trigger] s2[i].id) == s2[i].weight by {
            assert(s2[i] == sub[i]);
        }
        assert forall|i: int| 0 <= i < s2.len() && s2[i].weight >= 0 implies outflow(sol, #[trigger] s2[i].id) == 0 by {
            assert(s2[i] == sub[i]);
        }
        lemma_creditor_weight_eq(s2, vs, sol);
        assert(sub[sub.len() - 1] == sub.last());
        lemma_net_in_out(sol, sub.last().id);
    }
}


// ------------------------------------------------------ transfers needed

/// The identifiers that the transfers touch.
pub open spec fn endpoints(sol: Seq<(Edge, i128)>) -> Set<usize>
    decreases sol.len(),
{
    if sol.len() == 0 {
        Set::empty()
    } else {
        endpoints(sol.drop_last()).insert(sol.last().0.u).insert(sol.last().0.v)
    }
}

/// The identifiers of the vertices.
pub open spec fn id_set(vs: Seq<NamedNode>) -> Set<usize>
    decreases vs.len(),
{
    if vs.len() == 0 {
        Set::empty()
    } else {
        id_set(vs.drop_last()).insert(vs.last().id)
    }
}

proof fn lemma_endpoints(sol: Seq<(Edge, i128)>)
    ensures
        endpoints(sol).finite(),
        endpoints(sol).len() <= 2 * sol.len(),
        forall|id: usize| #[trigger] endpoints(sol).contains(id) ==> !untouched(sol, id),
    decreases sol.len(),
{
    broadcast use vstd::set::group_set_axioms;

    if sol.len() > 0 {
        let s2 = sol.drop_last();
        lemma_endpoints(s2);
        assert forall|id: usize| #[trigger] endpoints(sol).contains(id) implies !untouched(sol, id) by {
            if endpoints(s2).contains(id) {
                assert(!untouched(s2, id));
                let k = choose|k: int| 0 <= k < s2.len() && !((#[trigger] s2[k]).0.u != id && s2[k].0.v != id);
                assert(sol[k] == s2[k]);
            } else {
                assert(sol[sol.len() - 1] == sol.last());
            }
        }
    }
}

proof fn lemma_id_set(vs: Seq<NamedNode>)
    requires
        ids_distinct(vs),
    ensures
        id_set(vs).finite(),
        id_set(vs).len() == vs.len(),
        forall|id: usize| #[trigger] id_set(vs).contains(id) ==> exists|i: int| 0 <= i < vs.len() && vs[i].id == id,
    decreases vs.len(),
{
    broadcast use vstd::set::group_set_axioms;

    if vs.len() > 0 {
        let v2 = vs.drop_last();
        assert(ids_distinct(v2)) by {
            assert forall|x: int, y: int| 0 <= x < v2.len() && 0 <= y < v2.len() && x != y implies v2[x].id != v2[y].id by {
                assert(v2[x] == vs[x] && v2[y] == vs[y]);
            }
        }
        lemma_id_set(v2);
        assert(!id_set(v2).contains(vs.last().id)) by {
            if id_set(v2).contains(vs.last().id) {
                let i = choose|i: int| 0 <= i < v2.len() && v2[i].id == vs.last().id;
                assert(vs[i] == v2[i]);
                assert(vs[vs.len() - 1] == vs.last());
            }
        }
        assert forall|id: usize| #[trigger] id_set(vs).contains(id) implies exists|i: int| 0 <= i < vs.len() && vs[i].id == id by {
            if id_set(v2).contains(id) {
                let i = choose|i: int| 0 <= i < v2.len() && v2[i].id == id;
                assert(vs[i] == v2[i]);
            } else {
                assert(vs[vs.len() - 1] == vs.last());
            }
        }
    }
}

/// Settling a network whose every weight is nonzero takes at least one
/// transfer for every two vertices: each vertex must be touched.
pub proof fn law_transfers_needed(vs: Seq<NamedNode>, sol: Seq<(Edge, i128)>)
    requires
        ids_distinct(vs),
        balanced(vs, sol),
        forall|i: int| 0 <= i < vs.len() ==> (#[trigger] vs[i]).weight != 0,
    ensures
        vs.len() <= 2 * sol.len(),
{
    broadcast use vstd::set::group_set_axioms;

    lemma_endpoints(sol);
    lemma_id_set(vs);
    assert forall|id: usize| #[trigger] id_set(vs).contains(id) implies endpoints(sol).contains(id) by {
        let i = choose|i: int| 0 <= i < vs.len() && vs[i].id == id;
        if !endpoints(sol).contains(id) {
            assert forall|k: int| 0 <= k < sol.len() implies (#[trigger] sol[k]).0.u != id && sol[k].0.v != id by {
                lemma_endpoint_member(sol, k);
            }
            lemma_net_flow_untouched(sol, id);
            assert(net_flow(sol, vs[i].id) == vs[i].weight);
        }
    }
    vstd::set_lib::lemma_len_subset(id_set(vs), endpoints(sol));
}

proof fn lemma_endpoint_member(sol: Seq<(Edge, i128)>, k: int)
    requires
        0 <= k < sol.len(),
    ensures
        endpoints(sol).contains(sol[k].0.u),
        endpoints(sol).contains(sol[k].0.v),
    decreases sol.len(),
{
    broadcast use vstd::set::group_set_axioms;

    if k < sol.len() - 1 {
        lemma_endpoint_member(sol.drop_last(), k);
        assert(sol.drop_last()[k] == sol[k]);
    } else {
        assert(sol[k] == sol.last());
    }
}

} // verus!
