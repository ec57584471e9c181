//! The branching solver: zero-sum subsets, and the best split of a network into zero-sum blocks.
use crate::enumerate::{powerset_of, powerset_spec, subsets_of};
use crate::dynamic_program::{increasing, lemma_powerset_valid, lemma_subsets_complete, within};
use crate::exact_partitioning::{
    blocks_disjoint, blocks_view, blocks_wf, deref_seq, lemma_covered_within, lemma_partition_transfers_settle,
    lemma_partition_transfers_some, partition_solver, partition_transfers,
};
use crate::graph::{ids_distinct, total_weight, Edge, NamedNode};
use crate::optimality::{
    pos_of, blocks_size, class_weight, components, label_set, lemma_components, lemma_components_weigh_nothing,
    lemma_partition_transfers_len,
};
use crate::partition::PartitionSolvingMethod;
use crate::probleminstance::{lemma_total_weight_bound, solvable, ProblemInstance};
use crate::solution::{net_flow, settles, Solution};
use vstd::prelude::*;

verus! {

// ------------------------------------------------------------ zero-sum subsets

/// The positions `0..n`, in order.
pub open spec fn range_seq(n: nat) -> Seq<usize> {
    Seq::new(n, |k: int| k as usize)
}

/// The vertices of `vs` at the positions listed in `s`.
pub open spec fn nodes_at(vs: Seq<NamedNode>, s: Seq<usize>) -> Seq<NamedNode> {
    s.map_values(|k: usize| vs[k as int])
}

/// The subsets of positions of `vs`, in the order of `Itertools::powerset`.
pub open spec fn position_subsets(vs: Seq<NamedNode>) -> Seq<Seq<usize>> {
    subsets_of(range_seq(vs.len()))
}

/// Among the first `k` subsets of positions, the vertex sets whose weights add up to zero.
pub open spec fn zero_sum_upto(vs: Seq<NamedNode>, k: nat) -> Seq<Seq<NamedNode>>
    decreases k,
{
    if k == 0 {
        Seq::empty()
    } else {
        let rest = zero_sum_upto(vs, (k - 1) as nat);
        let t = nodes_at(vs, position_subsets(vs)[k - 1]);
        if total_weight(t) == 0 {
            rest.push(t)
        } else {
            rest
        }
    }
}

/// Every subset of the vertices whose weights add up to zero, the empty one
/// included, in the order of `Itertools::powerset`.
pub open spec fn zero_sum_spec(vs: Seq<NamedNode>) -> Seq<Seq<NamedNode>> {
    zero_sum_upto(vs, position_subsets(vs).len())
}

/// A list of vectors of vertices, read as values.
pub open spec fn vecs_view(p: Seq<Vec<NamedNode>>) -> Seq<Seq<NamedNode>> {
    p.map_values(|b: Vec<NamedNode>| b@)
}

/// Every listed subset of positions is an increasing list of positions below `n`.
pub proof fn lemma_position_subsets(vs: Seq<NamedNode>)
    requires
        vs.len() <= usize::MAX,
    ensures
        forall|q: int|
            0 <= q < position_subsets(vs).len() ==> {
                let s = #[trigger] position_subsets(vs)[q];
                &&& increasing(s)
                &&& forall|x: int| 0 <= x < s.len() ==> #[trigger] s[x] < vs.len()
            },
        position_subsets(vs).len() == powerset_spec(vs.len()).len(),
{
    let n = vs.len();
    lemma_powerset_valid(n, n);
    assert forall|q: int| 0 <= q < position_subsets(vs).len() implies {
        let s = #[trigger] position_subsets(vs)[q];
        &&& increasing(s)
        &&& forall|x: int| 0 <= x < s.len() ==> #[trigger] s[x] < vs.len()
    } by {
        let sq = powerset_spec(n)[q];
        let s = position_subsets(vs)[q];
        assert(s == sq.map_values(|k: usize| range_seq(n)[k as int]));
        assert forall|x: int| 0 <= x < s.len() implies #[trigger] s[x] == sq[x] by {
            assert(sq[x] < n);
        }
        assert forall|x: int, y: int| 0 <= x < y < s.len() implies #[trigger] s[x] < #[trigger] s[y] by {
            assert(s[x] == sq[x] && s[y] == sq[y]);
        }
    }
}

proof fn lemma_zero_sum_upto_props(vs: Seq<NamedNode>, k: nat)
    requires
        k <= position_subsets(vs).len(),
        forall|q: int|
            0 <= q < position_subsets(vs).len() ==> {
                let s = #[trigger] position_subsets(vs)[q];
                &&& increasing(s)
                &&& forall|x: int| 0 <= x < s.len() ==> #[trigger] s[x] < vs.len()
            },
    ensures
        forall|j: int|
            0 <= j < zero_sum_upto(vs, k).len() ==> total_weight(#[trigger] zero_sum_upto(vs, k)[j]) == 0 && exists|q: int|
                0 <= q < k && zero_sum_upto(vs, k)[j] == nodes_at(vs, #[trigger] position_subsets(vs)[q]),
        forall|q: int|
            0 <= q < k && total_weight(nodes_at(vs, #[trigger] position_subsets(vs)[q])) == 0 ==> zero_sum_upto(
                vs,
                k,
            ).contains(nodes_at(vs, position_subsets(vs)[q])),
    decreases k,
{
    if k > 0 {
        let k1 = (k - 1) as nat;
        lemma_zero_sum_upto_props(vs, k1);
        let rest = zero_sum_upto(vs, k1);
        let t = nodes_at(vs, position_subsets(vs)[k - 1]);
        let z = zero_sum_upto(vs, k);
        assert forall|j: int| 0 <= j < z.len() implies total_weight(#[trigger] z[j]) == 0 && exists|q: int|
            0 <= q < k && z[j] == nodes_at(vs, #[trigger] position_subsets(vs)[q]) by {
            if j < rest.len() {
                assert(z[j] == rest[j]);
                let q = choose|q: int| 0 <= q < k1 && rest[j] == nodes_at(vs, #[trigger] position_subsets(vs)[q]);
            } else {
                assert(z[j] == t);
                assert(z[j] == nodes_at(vs, position_subsets(vs)[k - 1]));
            }
        }
        assert forall|q: int|
            0 <= q < k && total_weight(nodes_at(vs, #[trigger] position_subsets(vs)[q])) == 0 implies z.contains(
            nodes_at(vs, position_subsets(vs)[q]),
        ) by {
            if q < k1 {
                assert(rest.contains(nodes_at(vs, position_subsets(vs)[q])));
                let y = choose|y: int| 0 <= y < rest.len() && rest[y] == nodes_at(vs, position_subsets(vs)[q]);
                assert(z[y] == rest[y]);
            } else {
                assert(z[rest.len() as int] == t);
            }
        }
    }
}

/// `zero_sum_subsets` lists exactly the subsets of the vertices, each taken in
/// the order of the vertices, whose weights add up to zero.
pub proof fn law_zero_sum_subsets(vs: Seq<NamedNode>)
    requires
        vs.len() <= usize::MAX,
    ensures
        forall|j: int|
            0 <= j < zero_sum_spec(vs).len() ==> total_weight(#[trigger] zero_sum_spec(vs)[j]) == 0 && exists|s: Seq<usize>|
                increasing(s) && (forall|x: int| 0 <= x < s.len() ==> #[trigger] s[x] < vs.len()) && zero_sum_spec(vs)[j]
                    == #[trigger] nodes_at(vs, s),
        forall|s: Seq<usize>|
            increasing(s) && (forall|x: int| 0 <= x < s.len() ==> #[trigger] s[x] < vs.len()) && total_weight(
                #[trigger] nodes_at(vs, s),
            ) == 0 ==> zero_sum_spec(vs).contains(nodes_at(vs, s)),
{
    lemma_position_subsets(vs);
    let n = position_subsets(vs).len();
    lemma_zero_sum_upto_props(vs, n);
    let zs = zero_sum_spec(vs);
    assert forall|j: int| 0 <= j < zs.len() implies total_weight(#[trigger] zs[j]) == 0 && exists|s: Seq<usize>|
        increasing(s) && (forall|x: int| 0 <= x < s.len() ==> #[trigger] s[x] < vs.len()) && zs[j] == #[trigger] nodes_at(vs, s) by {
        let q = choose|q: int| 0 <= q < n && zs[j] == nodes_at(vs, #[trigger] position_subsets(vs)[q]);
        let s = position_subsets(vs)[q];
        assert(increasing(s));
    }
    assert forall|s: Seq<usize>|
        increasing(s) && (forall|x: int| 0 <= x < s.len() ==> #[trigger] s[x] < vs.len()) && total_weight(
            #[trigger] nodes_at(vs, s),
        ) == 0 implies zs.contains(nodes_at(vs, s)) by {
        let b = range_seq(vs.len());
        assert(increasing(b));
        assert(within(s, b)) by {
            assert forall|x: int| 0 <= x < s.len() implies b.contains(#[trigger] s[x]) by {
                assert(b[s[x] as int] == s[x]);
            }
        }
        lemma_subsets_complete(b, s);
        let q = choose|q: int| 0 <= q < subsets_of(b).len() && subsets_of(b)[q] == s;
        assert(position_subsets(vs)[q] == s);
    }
}

/// Every subset of the vertices whose weights add up to zero, in the order
/// of `Itertools::powerset`. The weights are added up exactly, without overflow.
pub fn zero_sum_subsets(vertices: &[NamedNode]) -> (res: Vec<Vec<NamedNode>>)
    requires
        vertices@.len() < 64,
    ensures
        vecs_view(res@) == zero_sum_spec(vertices@),
{
    let n = vertices.len();
    let mut positions: Vec<usize> = Vec::new();
    let mut k: usize = 0;
    while k < n
        invariant
            k <= n,
            n == vertices@.len(),
            positions@ == range_seq(k as nat),
        decreases n - k,
    {
        positions.push(k);
        k = k + 1;
        assert(positions@ =~= range_seq(k as nat));
    }
    let subsets = powerset_of(positions);
    let ghost subs = position_subsets(vertices@);
    proof {
        lemma_position_subsets(vertices@);
    }
    assert(subsets@.len() == subs.len());
    let mut res: Vec<Vec<NamedNode>> = Vec::new();
    let mut q: usize = 0;
    while q < subsets.len()
        invariant
            q <= subsets@.len(),
            n == vertices@.len(),
            n < 64,
            subsets@.map_values(|v: Vec<usize>| v@) == subs,
            subs == position_subsets(vertices@),
            forall|c: int|
                0 <= c < subs.len() ==> {
                    let s = #[trigger] subs[c];
                    &&& increasing(s)
                    &&& forall|x: int| 0 <= x < s.len() ==> #[trigger] s[x] < n
                },
            vecs_view(res@) == zero_sum_upto(vertices@, q as nat),
        decreases subsets@.len() - q,
    {
        let s = &subsets[q];
        let ghost sv = subs[q as int];
        assert(s@ == sv);
        proof {
            crate::dynamic_program::lemma_increasing_len(sv, n as nat);
        }
        let mut sum: i128 = 0;
        let mut t: usize = 0;
        while t < s.len()
            invariant
                t <= s@.len(),
                s@ == sv,
                s@.len() <= n,
                n < 64,
                n == vertices@.len(),
                forall|x: int| 0 <= x < sv.len() ==> #[trigger] sv[x] < n,
                sum == total_weight(nodes_at(vertices@, sv.take(t as int))),
            decreases s@.len() - t,
        {
            proof {
                assert(nodes_at(vertices@, sv.take(t + 1)).drop_last() =~= nodes_at(vertices@, sv.take(t as int)));
                lemma_total_weight_bound(nodes_at(vertices@, sv.take(t + 1)));
            }
            sum = sum + vertices[s[t]].weight as i128;
            t = t + 1;
        }
        assert(sv.take(t as int) == sv);
        if sum == 0 {
            let mut block: Vec<NamedNode> = Vec::new();
            let mut r: usize = 0;
            while r < s.len()
                invariant
                    r <= s@.len(),
                    s@ == sv,
                    n == vertices@.len(),
                    forall|x: int| 0 <= x < sv.len() ==> #[trigger] sv[x] < n,
                    block@ == nodes_at(vertices@, sv.take(r as int)),
                decreases s@.len() - r,
            {
                block.push(vertices[s[r]].clone());
                r = r + 1;
                assert(block@ =~= nodes_at(vertices@, sv.take(r as int)));
            }
            assert(sv.take(r as int) == sv);
            let ghost before = res@;
            res.push(block);
            assert(vecs_view(res@) =~= vecs_view(before).push(nodes_at(vertices@, sv)));
        }
        q = q + 1;
    }
    res
}


// ------------------------------------------------------- zero-sum partitions

/// The vertices among the first `k` of `vs` whose positions `s` lists, in order.
pub open spec fn pick(vs: Seq<NamedNode>, s: Seq<usize>, k: nat) -> Seq<NamedNode>
    decreases k,
{
    if k == 0 {
        Seq::empty()
    } else if s.contains((k - 1) as usize) {
        pick(vs, s, (k - 1) as nat).push(vs[k - 1])
    } else {
        pick(vs, s, (k - 1) as nat)
    }
}

/// The vertices among the first `k` of `vs` whose positions `s` does not list, in order.
pub open spec fn leave(vs: Seq<NamedNode>, s: Seq<usize>, k: nat) -> Seq<NamedNode>
    decreases k,
{
    if k == 0 {
        Seq::empty()
    } else if s.contains((k - 1) as usize) {
        leave(vs, s, (k - 1) as nat)
    } else {
        leave(vs, s, (k - 1) as nat).push(vs[k - 1])
    }
}

/// The labels, among the first `k` of `t`, at the positions that `s` does not list.
pub open spec fn leave_labels(t: Seq<nat>, s: Seq<usize>, k: nat) -> Seq<nat>
    decreases k,
{
    if k == 0 {
        Seq::empty()
    } else if s.contains((k - 1) as usize) {
        leave_labels(t, s, (k - 1) as nat)
    } else {
        leave_labels(t, s, (k - 1) as nat).push(t[k - 1])
    }
}

/// A labelling of the vertices, one label each, under which the vertices of
/// every label weigh nothing together: a split into zero-weight blocks, with
/// as many blocks as labels in use.
pub open spec fn zero_labelling(vs: Seq<NamedNode>, t: Seq<nat>) -> bool {
    &&& t.len() == vs.len()
    &&& forall|c: nat| #[trigger] class_weight(vs, t, c, vs.len()) == 0
}

/// The vertex `v` stands in some block of `p`.
pub open spec fn in_some_block(p: Seq<Seq<NamedNode>>, v: NamedNode) -> bool {
    exists|j: int, x: int| 0 <= j < p.len() && 0 <= x < p[j].len() && #[trigger] p[j][x] == v
}

/// The vertices of `b` stand in `vs` in the order in which `b` lists them.
pub open spec fn in_order(vs: Seq<NamedNode>, b: Seq<NamedNode>) -> bool {
    forall|x: int, y: int| 0 <= x < y < b.len() ==> pos_of(vs, #[trigger] b[x].id) < pos_of(vs, #[trigger] b[y].id)
}

/// `p` splits `vs` into blocks, each listing its vertices in their order in `vs`: each block is nonempty, weighs nothing and
/// holds distinct vertices of `vs`; no two blocks share a vertex; and every
/// vertex of `vs` stands in a block.
pub open spec fn zero_partition(vs: Seq<NamedNode>, p: Seq<Seq<NamedNode>>) -> bool {
    &&& forall|j: int|
        0 <= j < p.len() ==> (#[trigger] p[j]).len() > 0 && p[j].len() <= vs.len() && total_weight(p[j]) == 0
            && ids_distinct(p[j])
    &&& blocks_disjoint(p)
    &&& forall|j: int, x: int| 0 <= j < p.len() && 0 <= x < p[j].len() ==> vs.contains(#[trigger] p[j][x])
    &&& forall|i: int| 0 <= i < vs.len() ==> #[trigger] in_some_block(p, vs[i])
    &&& blocks_size(p) == vs.len()
    &&& forall|j: int| 0 <= j < p.len() ==> in_order(vs, #[trigger] p[j])
}

/// `p` splits `vs` into zero-weight blocks, and into at least as many blocks
/// as any split of `vs` into zero-weight blocks.
pub open spec fn best_zero_partition(vs: Seq<NamedNode>, p: Seq<Seq<NamedNode>>) -> bool {
    &&& zero_partition(vs, p)
    &&& forall|t: Seq<nat>| #[trigger] zero_labelling(vs, t) ==> label_set(t).len() <= p.len()
}

/// `s` lists, among the first `n` positions, exactly those labelled as the first.
pub open spec fn marks_class(s: Seq<usize>, t: Seq<nat>, n: nat) -> bool {
    forall|i: int| 0 <= i < n ==> (s.contains(i as usize) <==> #[trigger] t[i] == t[0])
}

/// The positions below `k` labelled `c`, in order.
pub open spec fn class_positions(t: Seq<nat>, c: nat, k: nat) -> Seq<usize>
    decreases k,
{
    if k == 0 {
        Seq::empty()
    } else if t[k - 1] == c {
        class_positions(t, c, (k - 1) as nat).push((k - 1) as usize)
    } else {
        class_positions(t, c, (k - 1) as nat)
    }
}

/// What the split by `s` keeps apart: the lengths add up, so do the weights,
/// and each vertex goes to the side that `s` says.
proof fn lemma_split(vs: Seq<NamedNode>, s: Seq<usize>, k: nat)
    requires
        k <= vs.len(),
    ensures
        pick(vs, s, k).len() + leave(vs, s, k).len() == k,
        total_weight(pick(vs, s, k)) + total_weight(leave(vs, s, k)) == total_weight(vs.take(k as int)),
        forall|x: int|
            0 <= x < pick(vs, s, k).len() ==> exists|i: int|
                0 <= i < k && s.contains(i as usize) && vs[i] == #[trigger] pick(vs, s, k)[x],
        forall|x: int|
            0 <= x < leave(vs, s, k).len() ==> exists|i: int|
                0 <= i < k && !s.contains(i as usize) && vs[i] == #[trigger] leave(vs, s, k)[x],
        forall|i: int| 0 <= i < k && s.contains(i as usize) ==> pick(vs, s, k).contains(#[trigger] vs[i]),
        forall|i: int| 0 <= i < k && !s.contains(i as usize) ==> leave(vs, s, k).contains(#[trigger] vs[i]),
    decreases k,
{
    if k > 0 {
        let k1 = (k - 1) as nat;
        lemma_split(vs, s, k1);
        let p1 = pick(vs, s, k1);
        let l1 = leave(vs, s, k1);
        let v = vs[k - 1];
        assert(vs.take(k as int).drop_last() == vs.take(k1 as int));
        assert(vs.take(k as int).last() == v);
        if s.contains(k1 as usize) {
            assert(p1.push(v).drop_last() == p1);
            assert forall|x: int| 0 <= x < p1.push(v).len() implies exists|i: int|
                0 <= i < k && s.contains(i as usize) && vs[i] == #[trigger] p1.push(v)[x] by {
                if x < p1.len() {
                    assert(p1.push(v)[x] == p1[x]);
                    let i = choose|i: int| 0 <= i < k1 && s.contains(i as usize) && vs[i] == #[trigger] p1[x];
                } else {
                    assert(p1.push(v)[x] == vs[k1 as int]);
                }
            }
            assert forall|i: int| 0 <= i < k && s.contains(i as usize) implies p1.push(v).contains(#[trigger] vs[i]) by {
                if i < k1 {
                    let x = choose|x: int| 0 <= x < p1.len() && p1[x] == vs[i];
                    assert(p1.push(v)[x] == vs[i]);
                } else {
                    assert(p1.push(v)[p1.len() as int] == vs[i]);
                }
            }
        } else {
            assert(l1.push(v).drop_last() == l1);
            assert forall|x: int| 0 <= x < l1.push(v).len() implies exists|i: int|
                0 <= i < k && !s.contains(i as usize) && vs[i] == #[trigger] l1.push(v)[x] by {
                if x < l1.len() {
                    assert(l1.push(v)[x] == l1[x]);
                    let i = choose|i: int| 0 <= i < k1 && !s.contains(i as usize) && vs[i] == #[trigger] l1[x];
                } else {
                    assert(l1.push(v)[x] == vs[k1 as int]);
                }
            }
            assert forall|i: int| 0 <= i < k && !s.contains(i as usize) implies l1.push(v).contains(#[trigger] vs[i]) by {
                if i < k1 {
                    let x = choose|x: int| 0 <= x < l1.len() && l1[x] == vs[i];
                    assert(l1.push(v)[x] == vs[i]);
                } else {
                    assert(l1.push(v)[l1.len() as int] == vs[i]);
                }
            }
        }
    }
}

/// Of vertices with distinct identifiers, each side of a split holds distinct
/// identifiers, and the two sides share none.
proof fn lemma_split_ids(vs: Seq<NamedNode>, s: Seq<usize>, k: nat)
    requires
        k <= vs.len(),
        ids_distinct(vs),
    ensures
        ids_distinct(pick(vs, s, k)),
        ids_distinct(leave(vs, s, k)),
        forall|x: int, y: int|
            0 <= x < pick(vs, s, k).len() && 0 <= y < leave(vs, s, k).len() ==> #[trigger] pick(vs, s, k)[x].id
                != #[trigger] leave(vs, s, k)[y].id,
    decreases k,
{
    if k > 0 {
        let k1 = (k - 1) as nat;
        lemma_split_ids(vs, s, k1);
        lemma_split(vs, s, k1);
        let p1 = pick(vs, s, k1);
        let l1 = leave(vs, s, k1);
        let v = vs[k - 1];
        assert forall|x: int| 0 <= x < p1.len() implies #[trigger] p1[x].id != v.id by {
            let i = choose|i: int| 0 <= i < k1 && s.contains(i as usize) && vs[i] == #[trigger] p1[x];
        }
        assert forall|y: int| 0 <= y < l1.len() implies #[trigger] l1[y].id != v.id by {
            let i = choose|i: int| 0 <= i < k1 && !s.contains(i as usize) && vs[i] == #[trigger] l1[y];
        }
        if s.contains(k1 as usize) {
            let p = p1.push(v);
            assert forall|a: int, b: int| 0 <= a < p.len() && 0 <= b < p.len() && a != b implies p[a].id != p[b].id by {
                if a < p1.len() && b < p1.len() {
                    assert(p[a] == p1[a] && p[b] == p1[b]);
                } else if a < p1.len() {
                    assert(p[a] == p1[a]);
                } else if b < p1.len() {
                    assert(p[b] == p1[b]);
                }
            }
            assert forall|x: int, y: int| 0 <= x < p.len() && 0 <= y < l1.len() implies #[trigger] p[x].id
                != #[trigger] l1[y].id by {
                if x < p1.len() {
                    assert(p[x] == p1[x]);
                }
            }
        } else {
            let l = l1.push(v);
            assert forall|a: int, b: int| 0 <= a < l.len() && 0 <= b < l.len() && a != b implies l[a].id != l[b].id by {
                if a < l1.len() && b < l1.len() {
                    assert(l[a] == l1[a] && l[b] == l1[b]);
                } else if a < l1.len() {
                    assert(l[a] == l1[a]);
                } else if b < l1.len() {
                    assert(l[b] == l1[b]);
                }
            }
            assert forall|x: int, y: int| 0 <= x < p1.len() && 0 <= y < l.len() implies #[trigger] p1[x].id
                != #[trigger] l[y].id by {
                if y < l1.len() {
                    assert(l[y] == l1[y]);
                }
            }
        }
    }
}

/// Where `s` marks the positions labelled `t0`, the picked vertices weigh what
/// the label `t0` weighs, and the vertices left keep the other labels with
/// their weights.
proof fn lemma_split_labels(vs: Seq<NamedNode>, t: Seq<nat>, s: Seq<usize>, t0: nat, k: nat)
    requires
        k <= vs.len(),
        t.len() == vs.len(),
        forall|i: int| 0 <= i < vs.len() ==> (s.contains(i as usize) <==> #[trigger] t[i] == t0),
    ensures
        leave_labels(t, s, k).len() == leave(vs, s, k).len(),
        forall|c: nat|
            c != t0 ==> #[trigger] class_weight(leave(vs, s, k), leave_labels(t, s, k), c, leave(vs, s, k).len())
                == class_weight(vs, t, c, k),
        class_weight(leave(vs, s, k), leave_labels(t, s, k), t0, leave(vs, s, k).len()) == 0,
        total_weight(pick(vs, s, k)) == class_weight(vs, t, t0, k),
        forall|c: nat| #[trigger] leave_labels(t, s, k).contains(c) <==> (c != t0 && t.take(k as int).contains(c)),
    decreases k,
{
    if k > 0 {
        let k1 = (k - 1) as nat;
        lemma_split_labels(vs, t, s, t0, k1);
        let l1 = leave(vs, s, k1);
        let ll1 = leave_labels(t, s, k1);
        let p1 = pick(vs, s, k1);
        let v = vs[k - 1];
        let tv = t[k1 as int];
        assert(t.take(k as int) =~= t.take(k1 as int).push(tv));
        assert(s.contains(k1 as usize) <==> t[k1 as int] == t0);
        if s.contains(k1 as usize) {
            assert(tv == t0);
            assert(p1.push(v).drop_last() == p1);
            assert forall|c: nat| #[trigger] ll1.contains(c) <==> (c != t0 && t.take(k as int).contains(c)) by {
                if t.take(k as int).contains(c) && c != t0 {
                    let i = choose|i: int| 0 <= i < k && t.take(k as int)[i] == c;
                    assert(t.take(k1 as int)[i] == c);
                }
                if t.take(k1 as int).contains(c) {
                    let i = choose|i: int| 0 <= i < k1 && t.take(k1 as int)[i] == c;
                    assert(t.take(k as int)[i] == c);
                }
            }
        } else {
            assert(tv != t0);
            let l = l1.push(v);
            let ll = ll1.push(tv);
            assert forall|c: nat| #[trigger] class_weight(l, ll, c, l1.len()) == class_weight(l1, ll1, c, l1.len()) by {
                crate::optimality::lemma_class_weight_prefix(l, ll, l1, ll1, c, l1.len());
            }
            assert forall|c: nat| c != t0 implies #[trigger] class_weight(l, ll, c, l.len()) == class_weight(vs, t, c, k) by {
                assert(class_weight(l, ll, c, l1.len()) == class_weight(l1, ll1, c, l1.len()));
            }
            assert(class_weight(l, ll, t0, l1.len()) == class_weight(l1, ll1, t0, l1.len()));
            assert forall|c: nat| #[trigger] ll.contains(c) <==> (c != t0 && t.take(k as int).contains(c)) by {
                if t.take(k as int).contains(c) && c != t0 {
                    let i = choose|i: int| 0 <= i < k && t.take(k as int)[i] == c;
                    if i < k1 {
                        assert(t.take(k1 as int)[i] == c);
                        assert(t.take(k1 as int).contains(c));
                        assert(ll1.contains(c));
                        let y = choose|y: int| 0 <= y < ll1.len() && ll1[y] == c;
                        assert(ll[y] == ll1[y]);
                    } else {
                        assert(ll[ll1.len() as int] == c);
                    }
                }
                if ll.contains(c) {
                    let y = choose|y: int| 0 <= y < ll.len() && ll[y] == c;
                    if y < ll1.len() {
                        assert(ll1[y] == c);
                        assert(ll1.contains(c));
                        assert(t.take(k1 as int).contains(c));
                        let i = choose|i: int| 0 <= i < k1 && t.take(k1 as int)[i] == c;
                        assert(t.take(k as int)[i] == t.take(k1 as int)[i]);
                        assert(t.take(k as int)[i] == c);
                        assert(t.take(k as int).contains(c));
                    } else {
                        assert(c == tv);
                        assert(t.take(k as int)[k1 as int] == c);
                        assert(t.take(k as int).contains(c));
                    }
                }
            }
        }
    }
}

/// The positions labelled `c` increase, and they are exactly the positions
/// below `k` labelled `c`.
proof fn lemma_class_positions(t: Seq<nat>, c: nat, k: nat)
    requires
        k <= t.len(),
        k <= usize::MAX,
    ensures
        increasing(class_positions(t, c, k)),
        forall|x: int| 0 <= x < class_positions(t, c, k).len() ==> #[trigger] class_positions(t, c, k)[x] < k,
        forall|i: int| 0 <= i < k ==> (class_positions(t, c, k).contains(i as usize) <==> #[trigger] t[i] == c),
    decreases k,
{
    if k > 0 {
        let k1 = (k - 1) as nat;
        lemma_class_positions(t, c, k1);
        let c1 = class_positions(t, c, k1);
        if t[k1 as int] == c {
            let cp = c1.push(k1 as usize);
            assert forall|x: int, y: int| 0 <= x < y < cp.len() implies #[trigger] cp[x] < #[trigger] cp[y] by {
                assert(cp[x] == c1[x]);
                if y < c1.len() {
                    assert(cp[y] == c1[y]);
                }
            }
            assert forall|x: int| 0 <= x < cp.len() implies #[trigger] cp[x] < k by {
                if x < c1.len() {
                    assert(cp[x] == c1[x]);
                }
            }
            assert forall|i: int| 0 <= i < k implies (cp.contains(i as usize) <==> #[trigger] t[i] == c) by {
                if cp.contains(i as usize) {
                    let x = choose|x: int| 0 <= x < cp.len() && cp[x] == i as usize;
                    if x < c1.len() {
                        assert(c1[x] == i as usize);
                        assert(c1.contains(i as usize));
                        if i >= k1 {
                            assert(c1[x] < k1);
                        }
                        assert(t[i] == c);
                    }
                }
                if t[i] == c {
                    if i < k1 {
                        let x = choose|x: int| 0 <= x < c1.len() && c1[x] == i as usize;
                        assert(cp[x] == i as usize);
                    } else {
                        assert(cp[c1.len() as int] == i as usize);
                    }
                }
            }
        } else {
            assert forall|i: int| 0 <= i < k implies (c1.contains(i as usize) <==> #[trigger] t[i] == c) by {
                if i < k1 {
                    assert(c1.contains(i as usize) <==> t[i] == c);
                } else {
                    if c1.contains(i as usize) {
                        let x = choose|x: int| 0 <= x < c1.len() && c1[x] == i as usize;
                        assert(c1[x] < k1);
                    }
                }
            }
        }
    }
}

/// The labelling that gives every vertex the label `0`.
pub open spec fn one_label(n: nat) -> Seq<nat> {
    Seq::new(n, |i: int| 0nat)
}

/// Under one label, the label `0` weighs what the vertices weigh together.
pub proof fn lemma_one_label(vs: Seq<NamedNode>, k: nat)
    requires
        k <= vs.len(),
    ensures
        forall|c: nat|
            #[trigger] class_weight(vs, one_label(vs.len()), c, k) == if c == 0 {
                total_weight(vs.take(k as int))
            } else {
                0
            },
    decreases k,
{
    if k > 0 {
        lemma_one_label(vs, (k - 1) as nat);
        assert(vs.take(k as int).drop_last() == vs.take(k - 1));
        assert(vs.take(k as int).last() == vs[k - 1]);
        assert(one_label(vs.len())[k - 1] == 0);
        assert forall|c: nat| #[trigger] class_weight(vs, one_label(vs.len()), c, k) == if c == 0 {
            total_weight(vs.take(k as int))
        } else {
            0
        } by {
            assert(class_weight(vs, one_label(vs.len()), c, (k - 1) as nat) == if c == 0 {
                total_weight(vs.take(k - 1))
            } else {
                0
            });
        }
    }
}

/// The blocks of `seq![b] + r` hold the vertices of `b` and of the blocks of `r`.
proof fn lemma_blocks_size_prepend(b: Seq<NamedNode>, r: Seq<Seq<NamedNode>>)
    ensures
        blocks_size(seq![b] + r) == b.len() + blocks_size(r),
    decreases r.len(),
{
    if r.len() > 0 {
        lemma_blocks_size_prepend(b, r.drop_last());
        assert((seq![b] + r).drop_last() == seq![b] + r.drop_last());
        assert((seq![b] + r).last() == r.last());
    } else {
        assert(seq![b] + r =~= seq![b]);
        assert(seq![b].drop_last() =~= Seq::<Seq<NamedNode>>::empty());
        assert(seq![b].last() == b);
        assert(blocks_size(Seq::<Seq<NamedNode>>::empty()) == 0);
        assert(r =~= Seq::<Seq<NamedNode>>::empty());
    }
}

/// Where `s` marks the positions labelled as the first vertex under a
/// zero-weight labelling `t`, the picked vertices weigh nothing, hold the first
/// vertex, and the labelling of the rest weighs nothing with one label fewer.
proof fn lemma_class_block(vs: Seq<NamedNode>, s: Seq<usize>, t: Seq<nat>)
    requires
        vs.len() > 0,
        zero_labelling(vs, t),
        marks_class(s, t, vs.len()),
    ensures
        s.contains(0usize),
        total_weight(pick(vs, s, vs.len())) == 0,
        zero_labelling(leave(vs, s, vs.len()), leave_labels(t, s, vs.len())),
        label_set(leave_labels(t, s, vs.len())).len() + 1 == label_set(t).len(),
{
    broadcast use vstd::set::group_set_axioms;

    let n = vs.len();
    let t0 = t[0];
    assert(t[0] == t0);
    lemma_split_labels(vs, t, s, t0, n);
    let l = leave(vs, s, n);
    let ll = leave_labels(t, s, n);
    assert(class_weight(vs, t, t0, n) == 0);
    assert forall|c: nat| #[trigger] class_weight(l, ll, c, l.len()) == 0 by {
        if c != t0 {
            assert(class_weight(vs, t, c, n) == 0);
        }
    }
    assert(t.take(n as int) == t);
    crate::optimality::lemma_label_set(ll);
    crate::optimality::lemma_label_set(t);
    assert(label_set(ll) =~= label_set(t).remove(t0));
    assert(t.contains(t0));
    assert(label_set(t).contains(t0));
}


/// The position of a vertex's identifier is the vertex's position.
pub proof fn lemma_pos_of(vs: Seq<NamedNode>, i: int)
    requires
        ids_distinct(vs),
        0 <= i < vs.len(),
    ensures
        pos_of(vs, vs[i].id) == i,
{
    let p = pos_of(vs, vs[i].id);
    assert(0 <= p < vs.len() && vs[p].id == vs[i].id);
}

/// Both sides of a split keep the order of `vs`, and lie before position `k`.
proof fn lemma_split_order(vs: Seq<NamedNode>, s: Seq<usize>, k: nat)
    requires
        k <= vs.len(),
        ids_distinct(vs),
    ensures
        in_order(vs, pick(vs, s, k)),
        in_order(vs, leave(vs, s, k)),
        forall|x: int| 0 <= x < pick(vs, s, k).len() ==> pos_of(vs, #[trigger] pick(vs, s, k)[x].id) < k,
        forall|x: int| 0 <= x < leave(vs, s, k).len() ==> pos_of(vs, #[trigger] leave(vs, s, k)[x].id) < k,
    decreases k,
{
    if k > 0 {
        let k1 = (k - 1) as nat;
        lemma_split_order(vs, s, k1);
        let p1 = pick(vs, s, k1);
        let l1 = leave(vs, s, k1);
        let v = vs[k - 1];
        lemma_pos_of(vs, k - 1);
        if s.contains(k1 as usize) {
            let p = p1.push(v);
            assert forall|x: int, y: int| 0 <= x < y < p.len() implies pos_of(vs, #[trigger] p[x].id) < pos_of(
                vs,
                #[trigger] p[y].id,
            ) by {
                assert(p[x] == p1[x]);
                if y < p1.len() {
                    assert(p[y] == p1[y]);
                }
            }
            assert forall|x: int| 0 <= x < p.len() implies pos_of(vs, #[trigger] p[x].id) < k by {
                if x < p1.len() {
                    assert(p[x] == p1[x]);
                }
            }
        } else {
            let l = l1.push(v);
            assert forall|x: int, y: int| 0 <= x < y < l.len() implies pos_of(vs, #[trigger] l[x].id) < pos_of(
                vs,
                #[trigger] l[y].id,
            ) by {
                assert(l[x] == l1[x]);
                if y < l1.len() {
                    assert(l[y] == l1[y]);
                }
            }
            assert forall|x: int| 0 <= x < l.len() implies pos_of(vs, #[trigger] l[x].id) < k by {
                if x < l1.len() {
                    assert(l[x] == l1[x]);
                }
            }
        }
    }
}

/// Order within a list that keeps the order of `vs` is order within `vs`.
proof fn lemma_in_order_trans(vs: Seq<NamedNode>, l: Seq<NamedNode>, b: Seq<NamedNode>)
    requires
        ids_distinct(vs),
        ids_distinct(l),
        in_order(vs, l),
        in_order(l, b),
        forall|y: int| 0 <= y < l.len() ==> vs.contains(#[trigger] l[y]),
        forall|x: int| 0 <= x < b.len() ==> l.contains(#[trigger] b[x]),
    ensures
        in_order(vs, b),
{
    assert forall|x: int, y: int| 0 <= x < y < b.len() implies pos_of(vs, #[trigger] b[x].id) < pos_of(vs, #[trigger] b[y].id) by {
        assert(l.contains(b[x]));
        assert(l.contains(b[y]));
        let px = choose|q: int| 0 <= q < l.len() && l[q] == b[x];
        let py = choose|q: int| 0 <= q < l.len() && l[q] == b[y];
        lemma_pos_of(l, px);
        lemma_pos_of(l, py);
        assert(pos_of(l, b[x].id) < pos_of(l, b[y].id));
        assert(px < py);
        assert(vs.contains(l[px]));
        assert(vs.contains(l[py]));
        let qx = choose|q: int| 0 <= q < vs.len() && vs[q] == l[px];
        let qy = choose|q: int| 0 <= q < vs.len() && vs[q] == l[py];
        lemma_pos_of(vs, qx);
        lemma_pos_of(vs, qy);
        assert(pos_of(vs, l[px].id) < pos_of(vs, l[py].id));
    }
}

/// Putting the zero-weight block picked by `s`, which holds the first vertex,
/// before a zero-weight split of the rest splits all of `vs`.
proof fn lemma_prepend_block(vs: Seq<NamedNode>, s: Seq<usize>, r: Seq<Seq<NamedNode>>)
    requires
        ids_distinct(vs),
        vs.len() > 0,
        s.contains(0usize),
        total_weight(pick(vs, s, vs.len())) == 0,
        zero_partition(leave(vs, s, vs.len()), r),
    ensures
        zero_partition(vs, seq![pick(vs, s, vs.len())] + r),
{
    let n = vs.len();
    let b = pick(vs, s, n);
    let l = leave(vs, s, n);
    let p = seq![b] + r;
    lemma_split(vs, s, n);
    lemma_split_ids(vs, s, n);
    assert(b.contains(vs[0]));
    assert forall|j: int| 0 <= j < p.len() implies (#[trigger] p[j]).len() > 0 && p[j].len() <= vs.len() && total_weight(p[j])
        == 0 && ids_distinct(p[j]) by {
        if j > 0 {
            assert(p[j] == r[j - 1]);
        }
    }
    assert forall|j: int, x: int| 0 <= j < p.len() && 0 <= x < p[j].len() implies vs.contains(#[trigger] p[j][x]) by {
        if j == 0 {
            let i = choose|i: int| 0 <= i < n && s.contains(i as usize) && vs[i] == #[trigger] b[x];
            assert(vs[i] == p[j][x]);
        } else {
            assert(p[j] == r[j - 1]);
            assert(l.contains(r[j - 1][x]));
            let y = choose|y: int| 0 <= y < l.len() && l[y] == r[j - 1][x];
            let i = choose|i: int| 0 <= i < n && !s.contains(i as usize) && vs[i] == #[trigger] l[y];
            assert(vs[i] == p[j][x]);
        }
    }
    assert(blocks_disjoint(p)) by {
        assert forall|j1: int, j2: int, x: int, y: int|
            0 <= j1 < p.len() && 0 <= j2 < p.len() && j1 != j2 && 0 <= x < p[j1].len() && 0 <= y < p[j2].len()
                implies #[trigger] p[j1][x].id != #[trigger] p[j2][y].id by {
            if j1 > 0 && j2 > 0 {
                assert(p[j1] == r[j1 - 1] && p[j2] == r[j2 - 1]);
            } else if j1 == 0 {
                assert(p[j2] == r[j2 - 1]);
                assert(l.contains(r[j2 - 1][y]));
                let y2 = choose|y2: int| 0 <= y2 < l.len() && l[y2] == r[j2 - 1][y];
                assert(b[x].id != l[y2].id);
            } else {
                assert(p[j1] == r[j1 - 1]);
                assert(l.contains(r[j1 - 1][x]));
                let x2 = choose|x2: int| 0 <= x2 < l.len() && l[x2] == r[j1 - 1][x];
                assert(b[y].id != l[x2].id);
            }
        }
    }
    assert forall|i: int| 0 <= i < n implies #[trigger] in_some_block(p, vs[i]) by {
        if s.contains(i as usize) {
            assert(b.contains(vs[i]));
            let x = choose|x: int| 0 <= x < b.len() && b[x] == vs[i];
            assert(p[0][x] == vs[i]);
        } else {
            assert(l.contains(vs[i]));
            let y = choose|y: int| 0 <= y < l.len() && l[y] == vs[i];
            assert(in_some_block(r, l[y]));
            let (j, x) = choose|j: int, x: int| 0 <= j < r.len() && 0 <= x < r[j].len() && #[trigger] r[j][x] == l[y];
            assert(p[j + 1][x] == vs[i]);
        }
    }
    lemma_blocks_size_prepend(b, r);
    lemma_split_order(vs, s, n);
    assert forall|j: int| 0 <= j < p.len() implies in_order(vs, #[trigger] p[j]) by {
        if j > 0 {
            assert(p[j] == r[j - 1]);
            assert forall|y: int| 0 <= y < l.len() implies vs.contains(#[trigger] l[y]) by {
                let i = choose|i: int| 0 <= i < n && !s.contains(i as usize) && vs[i] == #[trigger] l[y];
            }
            assert forall|x: int| 0 <= x < r[j - 1].len() implies l.contains(#[trigger] r[j - 1][x]) by {
            }
            lemma_in_order_trans(vs, l, r[j - 1]);
        }
    }
}

/// A copy of the blocks, vertex by vertex.
fn copy_blocks(p: &Vec<Vec<NamedNode>>) -> (res: Vec<Vec<NamedNode>>)
    ensures
        vecs_view(res@) == vecs_view(p@),
{
    let mut res: Vec<Vec<NamedNode>> = Vec::new();
    let mut k: usize = 0;
    while k < p.len()
        invariant
            k <= p@.len(),
            vecs_view(res@) == vecs_view(p@).take(k as int),
        decreases p@.len() - k,
    {
        let b = &p[k];
        let mut c: Vec<NamedNode> = Vec::new();
        let mut r: usize = 0;
        while r < b.len()
            invariant
                r <= b@.len(),
                c@ == b@.take(r as int),
            decreases b@.len() - r,
        {
            c.push(b[r].clone());
            r = r + 1;
            assert(c@ =~= b@.take(r as int));
        }
        assert(b@.take(r as int) == b@);
        let ghost before = res@;
        res.push(c);
        proof {
            assert(vecs_view(res@) =~= vecs_view(before).push(c@));
            assert(vecs_view(p@).take(k + 1) =~= vecs_view(p@).take(k as int).push(p@[k as int]@));
        }
        k = k + 1;
    }
    assert(vecs_view(p@).take(k as int) == vecs_view(p@));
    res
}


/// What the branching recursion returns for `vs`: every subset of positions,
/// in the order of `Itertools::powerset`, that holds the first vertex and
/// whose vertices weigh nothing is tried as a block, followed by what the
/// recursion returns for the vertices outside it; a longest result is kept,
/// the last of equally long ones.
pub open spec fn best_rec_spec(vs: Seq<NamedNode>) -> Seq<Seq<NamedNode>>
    decreases vs.len(), 1nat, 0nat,
{
    if vs.len() == 0 {
        Seq::empty()
    } else {
        match best_fold(vs, 0, None) {
            Some(p) => p,
            None => Seq::empty(),
        }
    }
}

/// The best result of the candidates from the `q`-th subset of positions on,
/// after `acc`.
pub open spec fn best_fold(vs: Seq<NamedNode>, q: nat, acc: Option<Seq<Seq<NamedNode>>>) -> Option<Seq<Seq<NamedNode>>>
    decreases vs.len(), 0nat, position_subsets(vs).len() - q,
{
    if vs.len() == 0 || q >= position_subsets(vs).len() {
        acc
    } else {
        best_fold(vs, q + 1, best_step(vs, position_subsets(vs)[q as int], acc))
    }
}

/// The best so far after trying the subset of positions `s`.
pub open spec fn best_step(vs: Seq<NamedNode>, s: Seq<usize>, acc: Option<Seq<Seq<NamedNode>>>) -> Option<
    Seq<Seq<NamedNode>>,
>
    decreases vs.len(), 0nat, 0nat,
{
    let n = vs.len();
    let block = pick(vs, s, n);
    let rest = leave(vs, s, n);
    if s.contains(0usize) && total_weight(block) == 0 && rest.len() < vs.len() {
        let cand = seq![block] + best_rec_spec(rest);
        match acc {
            None => Some(cand),
            Some(b) => if cand.len() >= b.len() {
                Some(cand)
            } else {
                acc
            },
        }
    } else {
        acc
    }
}

/// Whether `s` lists the position `k`.
fn contains_pos(s: &Vec<usize>, k: usize) -> (res: bool)
    ensures
        res == s@.contains(k),
{
    let mut x: usize = 0;
    while x < s.len()
        invariant
            x <= s@.len(),
            forall|y: int| 0 <= y < x ==> s@[y] != k,
        decreases s@.len() - x,
    {
        if s[x] == k {
            return true;
        }
        x = x + 1;
    }
    false
}

/// The best zero-sum partitioning: the vertices are split into blocks that
/// each weigh nothing, into as many blocks as any such split has. Every
/// zero-sum subset that holds the first vertex is tried as a block, with the
/// best partitioning of the vertices outside it after it; a longest one is
/// kept, the last of equally long ones. The blocks go after those already in
/// `current_sol`, and the whole list is returned.
pub fn best_partition_rec(vertices: &[NamedNode], current_sol: &mut Vec<Vec<NamedNode>>) -> (res: Vec<Vec<NamedNode>>)
    requires
        vertices@.len() < 64,
        ids_distinct(vertices@),
        total_weight(vertices@) == 0,
    ensures
        vecs_view(final(current_sol)@).take(old(current_sol)@.len() as int) == vecs_view(old(current_sol)@),
        best_zero_partition(vertices@, vecs_view(final(current_sol)@).skip(old(current_sol)@.len() as int)),
        vecs_view(res@) == vecs_view(final(current_sol)@),
        vecs_view(final(current_sol)@).skip(old(current_sol)@.len() as int) == best_rec_spec(vertices@),
    decreases vertices@.len(),
{
    let ghost vs = vertices@;
    let ghost start = vecs_view(current_sol@);
    let n = vertices.len();
    if n == 0 {
        proof {
            assert(start.take(start.len() as int) == start);
            assert(start.skip(start.len() as int) =~= Seq::<Seq<NamedNode>>::empty());
            assert(best_rec_spec(vs) == Seq::<Seq<NamedNode>>::empty());
            assert forall|t: Seq<nat>| #[trigger] zero_labelling(vs, t) implies label_set(t).len() <= 0 by {
                assert(t =~= Seq::<nat>::empty());
            }
        }
        return copy_blocks(current_sol);
    }
    let mut positions: Vec<usize> = Vec::new();
    let mut k: usize = 0;
    while k < n
        invariant
            k <= n,
            n == vs.len(),
            positions@ == range_seq(k as nat),
        decreases n - k,
    {
        positions.push(k);
        k = k + 1;
        assert(positions@ =~= range_seq(k as nat));
    }
    let subsets = powerset_of(positions);
    let ghost subs = position_subsets(vs);
    proof {
        lemma_position_subsets(vs);
    }
    let mut best: Vec<Vec<NamedNode>> = Vec::new();
    let mut found = false;
    let mut q: usize = 0;
    while q < subsets.len()
        invariant
            q <= subsets@.len(),
            n == vs.len(),
            0 < n < 64,
            vs == vertices@,
            ids_distinct(vs),
            total_weight(vs) == 0,
            subsets@.map_values(|v: Vec<usize>| v@) == subs,
            subs == position_subsets(vs),
            subs.len() == subsets@.len(),
            found ==> zero_partition(vs, vecs_view(best@)),
            best_fold(vs, 0, None) == best_fold(vs, q as nat, if found {
                Some(vecs_view(best@))
            } else {
                None
            }),
            forall|q2: int, t: Seq<nat>|
                0 <= q2 < q && zero_labelling(vs, t) && #[trigger] marks_class(subs[q2], t, n as nat) ==> found
                    && label_set(t).len() <= best@.len(),
        decreases subsets@.len() - q,
    {
        let s = &subsets[q];
        let ghost sv = subs[q as int];
        assert(s@ == sv);
        let mut block: Vec<NamedNode> = Vec::new();
        let mut rest: Vec<NamedNode> = Vec::new();
        let mut k: usize = 0;
        while k < n
            invariant
                k <= n,
                n == vs.len(),
                vs == vertices@,
                s@ == sv,
                block@ == pick(vs, sv, k as nat),
                rest@ == leave(vs, sv, k as nat),
            decreases n - k,
        {
            if contains_pos(s, k) {
                block.push(vertices[k].clone());
            } else {
                rest.push(vertices[k].clone());
            }
            k = k + 1;
        }
        proof {
            lemma_split(vs, sv, n as nat);
            lemma_split_ids(vs, sv, n as nat);
            assert(vs.take(n as int) == vs);
        }
        let in_first = contains_pos(s, 0);
        let mut sum: i128 = 0;
        let mut r: usize = 0;
        while r < block.len()
            invariant
                r <= block@.len(),
                block@.len() <= n,
                n < 64,
                sum == total_weight(block@.take(r as int)),
            decreases block@.len() - r,
        {
            proof {
                assert(block@.take(r + 1).drop_last() == block@.take(r as int));
                assert(block@.take(r + 1).last() == block@[r as int]);
                lemma_total_weight_bound(block@.take(r + 1));
            }
            sum = sum + block[r].weight as i128;
            r = r + 1;
        }
        assert(block@.take(r as int) == block@);
        let ghost acc0: Option<Seq<Seq<NamedNode>>> = if found {
            Some(vecs_view(best@))
        } else {
            None
        };
        assert(best_fold(vs, q as nat, acc0) == best_fold(vs, (q + 1) as nat, best_step(vs, sv, acc0)));
        if in_first && sum == 0 {
            assert(block@.contains(vertices@[0]));
            let mut sub: Vec<Vec<NamedNode>> = Vec::new();
            let mut part = best_partition_rec(rest.as_slice(), &mut sub);
            proof {
                assert(vecs_view(sub@).skip(0) == vecs_view(sub@));
            }
            let ghost rp = vecs_view(part@);
            let ghost bv = block@;
            let mut cand: Vec<Vec<NamedNode>> = Vec::new();
            cand.push(block);
            cand.append(&mut part);
            proof {
                assert(vecs_view(cand@) =~= seq![bv] + rp);
                lemma_prepend_block(vs, sv, rp);
                assert(rp == best_rec_spec(rest@));
                assert(leave(vs, sv, n as nat).len() < vs.len());
            }
            if !found || cand.len() >= best.len() {
                best = cand;
                found = true;
            }
            proof {
                assert(best_step(vs, sv, acc0) == if found {
                    Some(vecs_view(best@))
                } else {
                    None::<Seq<Seq<NamedNode>>>
                });
                assert forall|t: Seq<nat>| zero_labelling(vs, t) && #[trigger] marks_class(sv, t, n as nat) implies label_set(t).len()
                    <= best@.len() by {
                    lemma_class_block(vs, sv, t);
                    assert(label_set(leave_labels(t, sv, n as nat)).len() <= rp.len());
                }
            }
        } else {
            proof {
                assert forall|t: Seq<nat>| zero_labelling(vs, t) && #[trigger] marks_class(sv, t, n as nat) implies false by {
                    lemma_class_block(vs, sv, t);
                }
                assert(best_step(vs, sv, acc0) == acc0);
            }
        }
        q = q + 1;
    }
    proof {
        assert forall|t: Seq<nat>| #[trigger] zero_labelling(vs, t) implies found && label_set(t).len() <= best@.len() by {
            let c = class_positions(t, t[0], n as nat);
            lemma_class_positions(t, t[0], n as nat);
            let b = range_seq(n as nat);
            assert(increasing(b));
            assert(within(c, b)) by {
                assert forall|x: int| 0 <= x < c.len() implies b.contains(#[trigger] c[x]) by {
                    assert(b[c[x] as int] == c[x]);
                }
            }
            lemma_subsets_complete(b, c);
            let q2 = choose|q2: int| 0 <= q2 < subs.len() && subs[q2] == c;
            assert(marks_class(subs[q2], t, n as nat));
        }
        let z = one_label(vs.len());
        lemma_one_label(vs, n as nat);
        assert(vs.take(n as int) == vs);
        assert(zero_labelling(vs, z));
    }
    let ghost bp = vecs_view(best@);
    assert(best_fold(vs, q as nat, Some(bp)) == Some(bp));
    current_sol.append(&mut best);
    proof {
        assert(vecs_view(current_sol@) =~= start + bp);
        assert((start + bp).take(start.len() as int) =~= start);
        assert((start + bp).skip(start.len() as int) =~= bp);
    }
    copy_blocks(current_sol)
}


// ------------------------------------------------------------------ the solver

/// What the branching solver returns: where the network can be settled, the
/// transfers that settle each block of what the branching recursion returns
/// with the scheme `m`.
pub open spec fn branching_transfers(m: PartitionSolvingMethod, vs: Seq<NamedNode>) -> Option<Seq<(Edge, i128)>> {
    if solvable(vs) {
        partition_transfers(m, best_rec_spec(vs))
    } else {
        None
    }
}

/// The transfers `t` settle each block of some best zero-sum partitioning of
/// `vs` with the scheme `m`, block after block.
pub open spec fn branching_result(m: PartitionSolvingMethod, vs: Seq<NamedNode>, t: Seq<(Edge, i128)>) -> bool {
    exists|p: Seq<Seq<NamedNode>>| #[trigger] best_zero_partition(vs, p) && partition_transfers(m, p) == Some(t)
}

/// Settling the blocks of a zero-sum partitioning settles the network.
pub proof fn lemma_zero_partition_settles(m: PartitionSolvingMethod, vs: Seq<NamedNode>, p: Seq<Seq<NamedNode>>)
    requires
        vs.len() <= usize::MAX,
        zero_partition(vs, p),
    ensures
        partition_transfers(m, p) is Some,
        settles(vs, partition_transfers(m, p)->0),
        crate::solution::edges_distinct(partition_transfers(m, p)->0),
{
    assert(blocks_wf(p)) by {
        assert forall|j: int| 0 <= j < p.len() implies ids_distinct(#[trigger] p[j]) && p[j].len() <= usize::MAX by {
        }
    }
    assert forall|j: int| 0 <= j < p.len() implies solvable(#[trigger] p[j]) by {
    }
    lemma_partition_transfers_some(m, p);
    lemma_partition_transfers_settle(m, p);
    let s = partition_transfers(m, p)->0;
    assert forall|j: int, x: int| 0 <= j < p.len() && 0 <= x < p[j].len() implies exists|q: int|
        0 <= q < vs.len() && #[trigger] p[j][x] == vs[q] by {
        assert(vs.contains(p[j][x]));
    }
    lemma_covered_within(vs, p, s);
    crate::exact_partitioning::lemma_partition_edges(m, p);
    assert forall|i: int| 0 <= i < vs.len() implies net_flow(s, #[trigger] vs[i].id) == vs[i].weight by {
        assert(in_some_block(p, vs[i]));
        let (j, x) = choose|j: int, x: int| 0 <= j < p.len() && 0 <= x < p[j].len() && #[trigger] p[j][x] == vs[i];
        assert(net_flow(s, p[j][x].id) == p[j][x].weight);
    }
}

/// Settling the blocks of a zero-sum partitioning with greedy satisfaction
/// moves exactly half the absolute weights, the least any settling moves.
pub proof fn law_zero_partition_greedy_amount(vs: Seq<NamedNode>, p: Seq<Seq<NamedNode>>)
    requires
        ids_distinct(vs),
        vs.len() <= usize::MAX,
        zero_partition(vs, p),
    ensures
        2 * crate::solution::total_amount(partition_transfers(PartitionSolvingMethod::GreedySatsifaction, p)->0)
            == crate::graph::total_abs_weight(vs),
{
    lemma_zero_partition_settles(PartitionSolvingMethod::GreedySatsifaction, vs, p);
    assert(blocks_wf(p));
    assert forall|j: int, x: int| 0 <= j < p.len() && 0 <= x < p[j].len() implies exists|q: int|
        0 <= q < vs.len() && #[trigger] p[j][x] == vs[q] by {
        assert(vs.contains(p[j][x]));
    }
    crate::exact_partitioning::law_greedy_blocks_settling_amount(vs, p);
}

/// The branching solver is exact: settling the blocks of a best zero-sum
/// partitioning, with either scheme, takes no more transfers than any settling.
pub proof fn law_best_partition_optimal(
    m: PartitionSolvingMethod,
    vs: Seq<NamedNode>,
    p: Seq<Seq<NamedNode>>,
    sol: Seq<(Edge, i128)>,
)
    requires
        ids_distinct(vs),
        vs.len() <= usize::MAX,
        best_zero_partition(vs, p),
        settles(vs, sol),
    ensures
        partition_transfers(m, p) is Some,
        partition_transfers(m, p)->0.len() <= sol.len(),
{
    let l = components(vs, sol, sol.len());
    lemma_components(vs, sol, sol.len());
    assert forall|c: nat| #[trigger] class_weight(vs, l, c, vs.len()) == 0 by {
        lemma_components_weigh_nothing(vs, sol, c);
    }
    assert(zero_labelling(vs, l));
    assert forall|j: int| 0 <= j < p.len() implies solvable(#[trigger] p[j]) && ids_distinct(p[j]) && p[j].len() <= usize::MAX by {
    }
    lemma_partition_transfers_len(m, p);
}

/// Settles the network by a best zero-sum partitioning: where the network can
/// be settled, it is split into as many zero-weight blocks as possible, and
/// each block is settled with `approx_solver`. The transfers are the fewest
/// that settle the network.
pub fn best_partition(instance: &ProblemInstance, approx_solver: PartitionSolvingMethod) -> (res: Solution)
    requires
        instance.vs().len() < 64,
    ensures
        res is Some <==> solvable(instance.vs()),
        res matches Some(t) ==> branching_transfers(approx_solver, instance.vs()) == Some(t@),
        res is None ==> branching_transfers(approx_solver, instance.vs()) is None,
        res matches Some(t) ==> branching_result(approx_solver, instance.vs(), t@),
        res matches Some(t) ==> settles(instance.vs(), t@),
        res matches Some(t) ==> forall|sol: Seq<(Edge, i128)>| #[trigger] settles(instance.vs(), sol) ==> t@.len() <= sol.len(),
        res matches Some(t) ==> crate::solution::edges_distinct(t@),
        res matches Some(t) ==> (approx_solver == PartitionSolvingMethod::GreedySatsifaction ==> 2
            * crate::solution::total_amount(t@) == crate::graph::total_abs_weight(instance.vs())),
        res matches Some(t) ==> (approx_solver == PartitionSolvingMethod::StarExpand
            ==> crate::exact_partitioning::star_settling(instance.vs(), t@)),
{
    if !instance.is_solvable() {
        return None;
    }
    let vs = instance.graph().vertices();
    let mut current_sol: Vec<Vec<NamedNode>> = Vec::new();
    let parts = best_partition_rec(vs.as_slice(), &mut current_sol);
    let ghost pp = vecs_view(parts@);
    proof {
        assert(vecs_view(current_sol@).skip(0) == vecs_view(current_sol@));
        assert(best_zero_partition(vs@, pp));
        assert(pp == best_rec_spec(vs@));
    }
    let mut partitioning: Vec<Vec<&NamedNode>> = Vec::new();
    let mut k: usize = 0;
    while k < parts.len()
        invariant
            k <= parts@.len(),
            vecs_view(parts@) == pp,
            blocks_view(partitioning@) == pp.take(k as int),
        decreases parts@.len() - k,
    {
        let b = &parts[k];
        let mut refs: Vec<&NamedNode> = Vec::new();
        let mut r: usize = 0;
        while r < b.len()
            invariant
                r <= b@.len(),
                deref_seq(refs@) == b@.take(r as int),
            decreases b@.len() - r,
        {
            let ghost before = refs@;
            refs.push(&b[r]);
            proof {
                assert(deref_seq(refs@) =~= deref_seq(before).push(b@[r as int]));
                assert(b@.take(r + 1) =~= b@.take(r as int).push(b@[r as int]));
            }
            r = r + 1;
        }
        assert(b@.take(r as int) == b@);
        let ghost before = partitioning@;
        partitioning.push(refs);
        proof {
            assert(blocks_view(partitioning@) =~= blocks_view(before).push(b@));
            assert(pp[k as int] == b@);
            assert(pp.take(k + 1) =~= pp.take(k as int).push(pp[k as int]));
        }
        k = k + 1;
    }
    assert(pp.take(k as int) == pp);
    assert(blocks_disjoint(blocks_view(partitioning@)));
    let res = partition_solver(&partitioning, approx_solver);
    proof {
        lemma_zero_partition_settles(approx_solver, vs@, pp);
        assert(best_zero_partition(vs@, pp));
        assert forall|sol: Seq<(Edge, i128)>| #[trigger] settles(vs@, sol) implies partition_transfers(approx_solver, pp)->0.len() <= sol.len() by {
            law_best_partition_optimal(approx_solver, vs@, pp, sol);
        }
        if approx_solver == PartitionSolvingMethod::GreedySatsifaction {
            law_zero_partition_greedy_amount(vs@, pp);
        } else {
            lemma_zero_partition_settles(approx_solver, vs@, pp);
            assert(blocks_wf(pp));
            assert forall|j: int, x: int| 0 <= j < pp.len() && 0 <= x < pp[j].len() implies exists|q: int|
                0 <= q < vs@.len() && #[trigger] pp[j][x] == vs@[q] by {
                assert(vs@.contains(pp[j][x]));
            }
            crate::exact_partitioning::lemma_star_settling_of(vs@, pp);
        }
    }
    res
}

} // verus!
