//! The two approximation schemes: a star around a heaviest vertex, and greedy
//! matching of debtors to creditors.
use crate::graph::{has_id, ids_distinct, total_weight, Edge, NamedNode};
use crate::partition::PartitionSolvingMethod;
use crate::probleminstance::{nodes_solvable, solvable, ProblemInstance};
use crate::solution::{
    balanced, creditor_weight, edges_distinct, from_debtor, lemma_abs_creditor, lemma_amount_of_one_way, lemma_net_flow_push, net_flow,
    settles, to_creditor, total_amount, transfers_within, law_transfers_needed, Solution,
};
use crate::graph::total_abs_weight;
use vstd::prelude::*;

verus! {

// ---------------------------------------------------------------- star expand

/// The last position below `k` holding a heaviest vertex among `vs[0..k]`
/// (the element `Iterator::max` picks when vertices compare by weight).
pub open spec fn center_index(vs: Seq<NamedNode>, k: nat) -> int
    decreases k,
{
    if k <= 1 {
        0
    } else {
        let m = center_index(vs, (k - 1) as nat);
        if vs[k - 1].weight >= vs[m].weight {
            k - 1
        } else {
            m
        }
    }
}

/// The transfer that settles `u` against the center `c`: a creditor is paid by
/// the center, a debtor pays the center.
pub open spec fn star_transfer(u: NamedNode, c: NamedNode) -> (Edge, i128) {
    if u.weight > 0 {
        (Edge { u: u.id, v: c.id }, u.weight as i128)
    } else {
        (Edge { u: c.id, v: u.id }, (-u.weight) as i128)
    }
}

/// The star transfers of the vertices at positions below `k`, the center excepted.
pub open spec fn star_prefix(vs: Seq<NamedNode>, c: int, k: nat) -> Seq<(Edge, i128)>
    decreases k,
{
    if k == 0 {
        Seq::empty()
    } else if k - 1 == c {
        star_prefix(vs, c, (k - 1) as nat)
    } else {
        star_prefix(vs, c, (k - 1) as nat).push(star_transfer(vs[k - 1], vs[c]))
    }
}

/// The star around the last heaviest vertex: one transfer between the center
/// and each other vertex, in the order of the vertices.
pub open spec fn star_transfers(vs: Seq<NamedNode>) -> Seq<(Edge, i128)> {
    star_prefix(vs, center_index(vs, vs.len()), vs.len())
}

/// The center is a heaviest vertex, and no later vertex is as heavy.
pub proof fn lemma_center_index(vs: Seq<NamedNode>, k: nat)
    requires
        1 <= k <= vs.len(),
    ensures
        0 <= center_index(vs, k) < k,
        forall|i: int| 0 <= i < k ==> (#[trigger] vs[i]).weight <= vs[center_index(vs, k)].weight,
        forall|i: int| center_index(vs, k) < i < k ==> (#[trigger] vs[i]).weight < vs[center_index(vs, k)].weight,
    decreases k,
{
    if k > 1 {
        lemma_center_index(vs, (k - 1) as nat);
    }
}

proof fn lemma_star_prefix(vs: Seq<NamedNode>, c: int, k: nat)
    requires
        ids_distinct(vs),
        0 <= c < vs.len(),
        k <= vs.len(),
    ensures
        forall|i: int|
            0 <= i < vs.len() ==> #[trigger] net_flow(star_prefix(vs, c, k), vs[i].id) == if i == c {
                -(total_weight(vs.take(k as int)) - if c < k {
                    vs[c].weight as int
                } else {
                    0
                })
            } else if i < k {
                vs[i].weight as int
            } else {
                0
            },
        transfers_within(vs, star_prefix(vs, c, k)),
        star_prefix(vs, c, k).len() == if c < k {
            k - 1
        } else {
            k as int
        },
    decreases k,
{
    if k == 0 {
        assert(vs.take(0) =~= Seq::<NamedNode>::empty());
    } else {
        let k1 = (k - 1) as nat;
        lemma_star_prefix(vs, c, k1);
        assert(vs.take(k as int).drop_last() == vs.take(k1 as int));
        assert(vs.take(k as int).last() == vs[k1 as int]);
        let prev = star_prefix(vs, c, k1);
        if k1 != c {
            let t = star_transfer(vs[k1 as int], vs[c]);
            assert forall|i: int| 0 <= i < vs.len() implies #[trigger] net_flow(
                star_prefix(vs, c, k),
                vs[i].id,
            ) == if i == c {
                -(total_weight(vs.take(k as int)) - if c < k {
                    vs[c].weight as int
                } else {
                    0
                })
            } else if i < k {
                vs[i].weight as int
            } else {
                0
            } by {
                lemma_net_flow_push(prev, t, vs[i].id);
                assert(net_flow(prev, vs[i].id) == if i == c {
                    -(total_weight(vs.take(k1 as int)) - if c < k1 {
                        vs[c].weight as int
                    } else {
                        0
                    })
                } else if i < k1 {
                    vs[i].weight as int
                } else {
                    0
                });
            }
            assert forall|m: int| 0 <= m < star_prefix(vs, c, k).len() implies {
                let s = #[trigger] star_prefix(vs, c, k)[m];
                &&& has_id(vs, s.0.u)
                &&& has_id(vs, s.0.v)
                &&& s.0.u != s.0.v
                &&& s.1 >= 0
            } by {
                if m < prev.len() {
                    assert(star_prefix(vs, c, k)[m] == prev[m]);
                } else {
                    assert(star_prefix(vs, c, k)[m] == t);
                    assert(vs[k1 as int].id == vs[k1 as int].id);
                    assert(vs[c].id == vs[c].id);
                }
            }
        } else {
            assert forall|i: int| 0 <= i < vs.len() implies #[trigger] net_flow(
                star_prefix(vs, c, k),
                vs[i].id,
            ) == if i == c {
                -(total_weight(vs.take(k as int)) - if c < k {
                    vs[c].weight as int
                } else {
                    0
                })
            } else if i < k {
                vs[i].weight as int
            } else {
                0
            } by {
                assert(net_flow(prev, vs[i].id) == if i == c {
                    -(total_weight(vs.take(k1 as int)) - if c < k1 {
                        vs[c].weight as int
                    } else {
                        0
                    })
                } else if i < k1 {
                    vs[i].weight as int
                } else {
                    0
                });
            }
        }
    }
}

/// The star settles every solvable network.
pub proof fn lemma_star_settles(vs: Seq<NamedNode>)
    requires
        ids_distinct(vs),
        solvable(vs),
    ensures
        settles(vs, star_transfers(vs)),
        star_transfers(vs).len() == vs.len() - 1,
{
    let c = center_index(vs, vs.len());
    lemma_center_index(vs, vs.len());
    lemma_star_prefix(vs, c, vs.len());
    assert(vs.take(vs.len() as int) == vs);
}

/// The star around the last heaviest vertex of `vs`, where the network is solvable.
pub fn star_expand_nodes(vs: &Vec<NamedNode>) -> (res: Solution)
    ensures
        res is Some <==> solvable(vs@),
        res matches Some(t) ==> t@ == star_transfers(vs@),
{
    if !nodes_solvable(vs) {
        return None;
    }
    let n = vs.len();
    let mut c: usize = 0;
    let mut i: usize = 1;
    while i < n
        invariant
            n == vs.len(),
            1 <= i <= n,
            c == center_index(vs@, i as nat),
        decreases n - i,
    {
        proof {
            lemma_center_index(vs@, i as nat);
        }
        if vs[i].weight >= vs[c].weight {
            c = i;
        }
        i = i + 1;
    }
    proof {
        lemma_center_index(vs@, n as nat);
    }
    let mut out: Vec<(Edge, i128)> = Vec::new();
    let mut k: usize = 0;
    while k < n
        invariant
            n == vs.len(),
            0 <= c < n,
            k <= n,
            c == center_index(vs@, n as nat),
            out@ == star_prefix(vs@, c as int, k as nat),
        decreases n - k,
    {
        if k != c {
            let u = &vs[k];
            let t = if u.weight > 0 {
                (Edge { u: u.id, v: vs[c].id }, u.weight as i128)
            } else {
                (Edge { u: vs[c].id, v: u.id }, -(u.weight as i128))
            };
            out.push(t);
        }
        k = k + 1;
    }
    Some(out)
}

/// Star expand: approximates a settling by choosing a heaviest vertex as the
/// center to which every transfer is incident.
///
/// Returns `None` where the instance cannot be settled; otherwise one transfer
/// per other vertex, which settles the network.
pub fn star_expand(instance: &ProblemInstance) -> (res: Solution)
    ensures
        res is Some <==> solvable(instance.vs()),
        res matches Some(t) ==> t@ == star_transfers(instance.vs()),
        res matches Some(t) ==> settles(instance.vs(), t@),
        res matches Some(t) ==> t@.len() == instance.vs().len() - 1,
        res matches Some(t) ==> edges_distinct(t@),
        res matches Some(t) ==> forall|k: int| 0 <= k < t@.len() ==> touches_heaviest(instance.vs(), #[trigger] t@[k]),
{
    let vs = instance.graph().vertices();
    let res = star_expand_nodes(vs);
    proof {
        if res is Some {
            lemma_star_settles(vs@);
            lemma_star_edges(vs@);
            law_star_center(vs@);
        }
    }
    res
}


// ------------------------------------------------------- greedy satisfaction

/// The positions below `k` of the debtors (`neg`) or of the others (`!neg`), in order.
pub open spec fn side_positions(vs: Seq<NamedNode>, k: nat, neg: bool) -> Seq<usize>
    decreases k,
{
    if k == 0 {
        Seq::empty()
    } else if (vs[k - 1].weight < 0) == neg {
        side_positions(vs, (k - 1) as nat, neg).push((k - 1) as usize)
    } else {
        side_positions(vs, (k - 1) as nat, neg)
    }
}

/// The capacity the greedy run starts with: the first debtor's weight, unless
/// the first creditor is owed more than that debtor owes.
pub open spec fn greedy_start(vs: Seq<NamedNode>, neg: Seq<usize>, pos: Seq<usize>) -> int {
    let s = if neg.len() > 0 {
        vs[neg[0] as int].weight as int
    } else {
        0
    };
    if pos.len() > 0 && vs[pos[0] as int].weight > crate::graph::abs(s) {
        vs[pos[0] as int].weight as int
    } else {
        s
    }
}

/// The transfers of the greedy run from the state where the debtors before `ni`
/// and the creditors before `pi` are settled, and `s` is what is left of the
/// current debtor (`s < 0`) or creditor (`s > 0`).
pub open spec fn greedy_from(
    vs: Seq<NamedNode>,
    neg: Seq<usize>,
    pos: Seq<usize>,
    ni: nat,
    pi: nat,
    s: int,
) -> Seq<(Edge, i128)>
    decreases neg.len() + pos.len() - ni - pi, if s == 0 {
        1int
    } else {
        0int
    },
{
    if ni >= neg.len() || pi >= pos.len() {
        Seq::empty()
    } else {
        let n = vs[neg[ni as int] as int];
        let p = vs[pos[pi as int] as int];
        let e = Edge { u: p.id, v: n.id };
        if s < 0 {
            if p.weight <= -s {
                let rest = if s + p.weight == 0 {
                    greedy_from(vs, neg, pos, ni + 1, pi + 1, 0)
                } else {
                    greedy_from(vs, neg, pos, ni, pi + 1, s + p.weight)
                };
                seq![(e, p.weight as i128)] + rest
            } else {
                seq![(e, (-s) as i128)] + greedy_from(vs, neg, pos, ni + 1, pi, s + p.weight)
            }
        } else if s == 0 {
            if p.weight == 0 {
                greedy_from(vs, neg, pos, ni, pi + 1, 0)
            } else {
                greedy_from(vs, neg, pos, ni, pi, p.weight as int)
            }
        } else {
            if -n.weight <= s {
                let rest = if s + n.weight == 0 {
                    greedy_from(vs, neg, pos, ni + 1, pi + 1, 0)
                } else {
                    greedy_from(vs, neg, pos, ni + 1, pi, s + n.weight)
                };
                seq![(e, (-n.weight) as i128)] + rest
            } else {
                seq![(e, s as i128)] + greedy_from(vs, neg, pos, ni, pi + 1, s + n.weight)
            }
        }
    }
}

/// The transfers of greedy satisfaction: debtors and creditors are each taken
/// in the order of the vertices, and the current debtor pays the current
/// creditor as much as one still owes and the other is still owed.
pub open spec fn greedy_transfers(vs: Seq<NamedNode>) -> Seq<(Edge, i128)> {
    let neg = side_positions(vs, vs.len(), true);
    let pos = side_positions(vs, vs.len(), false);
    greedy_from(vs, neg, pos, 0, 0, greedy_start(vs, neg, pos))
}

/// The debtors' and the others' positions are increasing, lie below `k`, and
/// between them hold every position below `k`.
pub proof fn lemma_side_positions(vs: Seq<NamedNode>, k: nat, neg: bool)
    requires
        k <= vs.len() <= usize::MAX,
    ensures
        forall|j: int|
            0 <= j < side_positions(vs, k, neg).len() ==> #[trigger] side_positions(vs, k, neg)[j] < k
                && (vs[side_positions(vs, k, neg)[j] as int].weight < 0) == neg,
        forall|j1: int, j2: int|
            0 <= j1 < j2 < side_positions(vs, k, neg).len() ==> #[trigger] side_positions(
                vs,
                k,
                neg,
            )[j1] < #[trigger] side_positions(vs, k, neg)[j2],
        forall|i: int|
            0 <= i < k && (#[trigger] vs[i].weight < 0) == neg ==> exists|j: int|
                0 <= j < side_positions(vs, k, neg).len() && side_positions(vs, k, neg)[j] == i,
    decreases k,
{
    if k > 0 {
        lemma_side_positions(vs, (k - 1) as nat, neg);
        let prev = side_positions(vs, (k - 1) as nat, neg);
        let cur = side_positions(vs, k, neg);
        if (vs[k - 1].weight < 0) == neg {
            assert forall|i: int| 0 <= i < k && (#[trigger] vs[i].weight < 0) == neg implies exists|j: int|
                0 <= j < cur.len() && cur[j] == i by {
                if i == k - 1 {
                    assert(cur[cur.len() - 1] == i);
                } else {
                    let j = choose|j: int| 0 <= j < prev.len() && prev[j] == i;
                    assert(cur[j] == i);
                }
            }
        }
    }
}

/// What position `q` is still owed (positive) or still owes (negative) after `acc`.
pub open spec fn rem(vs: Seq<NamedNode>, acc: Seq<(Edge, i128)>, q: usize) -> int {
    vs[q as int].weight - net_flow(acc, vs[q as int].id)
}

/// The sum of `rem` over `idx[f..]`.
pub open spec fn rem_sum(vs: Seq<NamedNode>, acc: Seq<(Edge, i128)>, idx: Seq<usize>, f: nat) -> int
    decreases idx.len() - f,
{
    if f >= idx.len() {
        0
    } else {
        rem(vs, acc, idx[f as int]) + rem_sum(vs, acc, idx, f + 1)
    }
}

/// How one transfer changes the net flow of position `q`.
pub open spec fn flow_delta(vs: Seq<NamedNode>, t: (Edge, i128), q: usize) -> int {
    (if t.0.u == vs[q as int].id {
        t.1 as int
    } else {
        0
    }) - (if t.0.v == vs[q as int].id {
        t.1 as int
    } else {
        0
    })
}

/// Appending `t` lowers `rem_sum(idx, f)` by `d`, where `t` touches only the position
/// `idx[k0]` among `idx[f..]`, changing its flow by `d`, or touches none of them (`d == 0`).
proof fn lemma_rem_sum_push(
    vs: Seq<NamedNode>,
    acc: Seq<(Edge, i128)>,
    t: (Edge, i128),
    idx: Seq<usize>,
    f: nat,
    k0: int,
    d: int,
)
    requires
        forall|k: int| f <= k < idx.len() && k != k0 ==> flow_delta(vs, t, #[trigger] idx[k]) == 0,
        f <= k0 < idx.len() ==> flow_delta(vs, t, idx[k0]) == d,
        !(f <= k0 < idx.len()) ==> d == 0,
    ensures
        rem_sum(vs, acc.push(t), idx, f) == rem_sum(vs, acc, idx, f) - d,
    decreases idx.len() - f,
{
    if f < idx.len() {
        lemma_net_flow_push(acc, t, vs[idx[f as int] as int].id);
        if f == k0 {
            lemma_rem_sum_push(vs, acc, t, idx, f + 1, k0, 0);
        } else {
            lemma_rem_sum_push(vs, acc, t, idx, f + 1, k0, d);
        }
    }
}

/// A sum of nonnegative remainders that is zero has every term zero.
proof fn lemma_rem_sum_nonneg_zero(vs: Seq<NamedNode>, acc: Seq<(Edge, i128)>, idx: Seq<usize>, f: nat)
    requires
        forall|k: int| f <= k < idx.len() ==> rem(vs, acc, #[trigger] idx[k]) >= 0,
    ensures
        rem_sum(vs, acc, idx, f) >= 0,
        rem_sum(vs, acc, idx, f) == 0 ==> forall|k: int| f <= k < idx.len() ==> rem(vs, acc, #[trigger] idx[k]) == 0,
    decreases idx.len() - f,
{
    if f < idx.len() {
        lemma_rem_sum_nonneg_zero(vs, acc, idx, f + 1);
    }
}

/// A nonempty sum of negative remainders is negative.
proof fn lemma_rem_sum_neg(vs: Seq<NamedNode>, acc: Seq<(Edge, i128)>, idx: Seq<usize>, f: nat)
    requires
        f < idx.len(),
        forall|k: int| f <= k < idx.len() ==> rem(vs, acc, #[trigger] idx[k]) < 0,
    ensures
        rem_sum(vs, acc, idx, f) < 0,
    decreases idx.len() - f,
{
    assert(rem(vs, acc, idx[f as int]) < 0);
    if f + 1 < idx.len() {
        lemma_rem_sum_neg(vs, acc, idx, f + 1);
    } else {
        assert(rem_sum(vs, acc, idx, f + 1) == 0);
    }
}

/// The weights of the debtors and of the others add up to the total weight.
proof fn lemma_sides_sum(vs: Seq<NamedNode>, k: nat)
    requires
        k <= vs.len() <= usize::MAX,
    ensures
        rem_sum(vs, Seq::empty(), side_positions(vs, k, true), 0) + rem_sum(
            vs,
            Seq::empty(),
            side_positions(vs, k, false),
            0,
        ) == total_weight(vs.take(k as int)),
    decreases k,
{
    if k > 0 {
        lemma_sides_sum(vs, (k - 1) as nat);
        assert(vs.take(k as int).drop_last() == vs.take(k - 1));
        let q = (k - 1) as usize;
        lemma_rem_sum_append(vs, Seq::empty(), side_positions(vs, (k - 1) as nat, true), q);
        lemma_rem_sum_append(vs, Seq::empty(), side_positions(vs, (k - 1) as nat, false), q);
    } else {
        assert(vs.take(0) =~= Seq::<NamedNode>::empty());
    }
}

/// `rem_sum` over `idx.push(q)` adds the remainder of `q`.
proof fn lemma_rem_sum_append(vs: Seq<NamedNode>, acc: Seq<(Edge, i128)>, idx: Seq<usize>, q: usize)
    ensures
        rem_sum(vs, acc, idx.push(q), 0) == rem_sum(vs, acc, idx, 0) + rem(vs, acc, q),
{
    lemma_rem_sum_append_from(vs, acc, idx, q, 0);
}

proof fn lemma_rem_sum_append_from(
    vs: Seq<NamedNode>,
    acc: Seq<(Edge, i128)>,
    idx: Seq<usize>,
    q: usize,
    f: nat,
)
    requires
        f <= idx.len(),
    ensures
        rem_sum(vs, acc, idx.push(q), f) == rem_sum(vs, acc, idx, f) + rem(vs, acc, q),
    decreases idx.len() - f,
{
    if f < idx.len() {
        lemma_rem_sum_append_from(vs, acc, idx, q, f + 1);
        assert(idx.push(q)[f as int] == idx[f as int]);
    } else {
        assert(idx.push(q)[f as int] == q);
        assert(rem_sum(vs, acc, idx.push(q), f + 1) == 0);
    }
}


/// The invariant of the greedy run: settled vertices are balanced, untouched
/// ones have no flow, the current debtor or creditor has `s` left, and what
/// the remaining vertices are still owed sums to zero.
pub open spec fn greedy_state_ok(
    vs: Seq<NamedNode>,
    neg: Seq<usize>,
    pos: Seq<usize>,
    ni: nat,
    pi: nat,
    s: int,
    acc: Seq<(Edge, i128)>,
) -> bool {
    &&& ids_distinct(vs)
    &&& vs.len() <= usize::MAX
    &&& neg == side_positions(vs, vs.len(), true)
    &&& pos == side_positions(vs, vs.len(), false)
    &&& ni <= neg.len()
    &&& pi <= pos.len()
    &&& i64::MIN <= s <= i64::MAX
    &&& forall|k: int| 0 <= k < ni ==> rem(vs, acc, #[trigger] neg[k]) == 0
    &&& forall|k: int| 0 <= k < pi ==> rem(vs, acc, #[trigger] pos[k]) == 0
    &&& forall|k: int| ni < k < neg.len() ==> net_flow(acc, vs[#[trigger] neg[k] as int].id) == 0
    &&& forall|k: int| pi < k < pos.len() ==> net_flow(acc, vs[#[trigger] pos[k] as int].id) == 0
    &&& ni < neg.len() ==> if s < 0 {
        rem(vs, acc, neg[ni as int]) == s
    } else {
        net_flow(acc, vs[neg[ni as int] as int].id) == 0
    }
    &&& pi < pos.len() ==> if s > 0 {
        rem(vs, acc, pos[pi as int]) == s
    } else {
        net_flow(acc, vs[pos[pi as int] as int].id) == 0
    }
    &&& s < 0 ==> ni < neg.len()
    &&& s > 0 ==> pi < pos.len()
    &&& rem_sum(vs, acc, neg, ni) + rem_sum(vs, acc, pos, pi) == 0
    &&& transfers_within(vs, acc)
}

/// Positions of debtors and of others never coincide, and within each list
/// positions are distinct.
proof fn lemma_sides_disjoint(vs: Seq<NamedNode>)
    requires
        vs.len() <= usize::MAX,
    ensures
        forall|j: int, m: int|
            0 <= j < side_positions(vs, vs.len(), true).len() && 0 <= m < side_positions(
                vs,
                vs.len(),
                false,
            ).len() ==> #[trigger] side_positions(vs, vs.len(), true)[j] != #[trigger] side_positions(
                vs,
                vs.len(),
                false,
            )[m],
{
    lemma_side_positions(vs, vs.len(), true);
    lemma_side_positions(vs, vs.len(), false);
}

/// The effect of the transfer `a` from the current debtor to the current creditor.
proof fn lemma_greedy_transfer(
    vs: Seq<NamedNode>,
    neg: Seq<usize>,
    pos: Seq<usize>,
    ni: nat,
    pi: nat,
    acc: Seq<(Edge, i128)>,
    a: int,
)
    requires
        ids_distinct(vs),
        vs.len() <= usize::MAX,
        neg == side_positions(vs, vs.len(), true),
        pos == side_positions(vs, vs.len(), false),
        ni < neg.len(),
        pi < pos.len(),
        0 <= a <= i128::MAX,
    ensures
        ({
            let t = (Edge { u: vs[pos[pi as int] as int].id, v: vs[neg[ni as int] as int].id }, a as i128);
            let acc2 = acc.push(t);
            &&& forall|q: int|
                0 <= q < vs.len() ==> #[trigger] net_flow(acc2, vs[q].id) == net_flow(acc, vs[q].id) + (
                if q == pos[pi as int] {
                    a
                } else {
                    0
                }) - (if q == neg[ni as int] {
                    a
                } else {
                    0
                })
            &&& rem_sum(vs, acc2, neg, ni) == rem_sum(vs, acc, neg, ni) + a
            &&& rem_sum(vs, acc2, pos, pi) == rem_sum(vs, acc, pos, pi) - a
            &&& transfers_within(vs, acc) ==> transfers_within(vs, acc2)
        }),
{
    lemma_side_positions(vs, vs.len(), true);
    lemma_side_positions(vs, vs.len(), false);
    lemma_sides_disjoint(vs);
    let qn = neg[ni as int];
    let qp = pos[pi as int];
    let t = (Edge { u: vs[qp as int].id, v: vs[qn as int].id }, a as i128);
    let acc2 = acc.push(t);
    assert(qn != qp);
    assert forall|q: int| 0 <= q < vs.len() implies #[trigger] net_flow(acc2, vs[q].id) == net_flow(
        acc,
        vs[q].id,
    ) + (if q == qp {
        a
    } else {
        0
    }) - (if q == qn {
        a
    } else {
        0
    }) by {
        lemma_net_flow_push(acc, t, vs[q].id);
    }
    assert forall|k: int| ni <= k < neg.len() && k != ni implies flow_delta(vs, t, #[trigger] neg[k]) == 0 by {
        assert(neg[k] != qn);
        assert(neg[k] != qp);
    }
    assert(flow_delta(vs, t, neg[ni as int]) == -a);
    lemma_rem_sum_push(vs, acc, t, neg, ni, ni as int, -a);
    assert forall|k: int| pi <= k < pos.len() && k != pi implies flow_delta(vs, t, #[trigger] pos[k]) == 0 by {
        assert(pos[k] != qp);
        assert(pos[k] != qn);
    }
    assert(flow_delta(vs, t, pos[pi as int]) == a);
    lemma_rem_sum_push(vs, acc, t, pos, pi, pi as int, a);
    if transfers_within(vs, acc) {
        assert forall|m: int| 0 <= m < acc2.len() implies {
            let x = #[trigger] acc2[m];
            &&& has_id(vs, x.0.u)
            &&& has_id(vs, x.0.v)
            &&& x.0.u != x.0.v
            &&& x.1 >= 0
        } by {
            if m < acc.len() {
                assert(acc2[m] == acc[m]);
            } else {
                assert(acc2[m] == t);
                assert(vs[qp as int].id == vs[qp as int].id);
                assert(vs[qn as int].id == vs[qn as int].id);
            }
        }
    }
}


/// A finished greedy run leaves every vertex balanced.
proof fn lemma_greedy_done(
    vs: Seq<NamedNode>,
    neg: Seq<usize>,
    pos: Seq<usize>,
    ni: nat,
    pi: nat,
    s: int,
    acc: Seq<(Edge, i128)>,
)
    requires
        greedy_state_ok(vs, neg, pos, ni, pi, s, acc),
        ni >= neg.len() || pi >= pos.len(),
    ensures
        balanced(vs, acc),
{
    lemma_side_positions(vs, vs.len(), true);
    lemma_side_positions(vs, vs.len(), false);
    if ni < neg.len() {
        // every remaining debtor still owes, yet the remainders sum to zero
        assert forall|k: int| ni <= k < neg.len() implies rem(vs, acc, #[trigger] neg[k]) < 0 by {
        }
        lemma_rem_sum_neg(vs, acc, neg, ni);
        assert(rem_sum(vs, acc, pos, pi) == 0);
        assert(false);
    }
    assert(rem_sum(vs, acc, neg, ni) == 0);
    assert forall|k: int| pi <= k < pos.len() implies rem(vs, acc, #[trigger] pos[k]) >= 0 by {
    }
    lemma_rem_sum_nonneg_zero(vs, acc, pos, pi);
    assert forall|i: int| 0 <= i < vs.len() implies net_flow(acc, #[trigger] vs[i].id) == vs[i].weight by {
        if vs[i].weight < 0 {
            let j = choose|j: int| 0 <= j < neg.len() && neg[j] == i;
            assert(rem(vs, acc, neg[j]) == 0);
        } else {
            let j = choose|j: int| 0 <= j < pos.len() && pos[j] == i;
            assert(rem(vs, acc, pos[j]) == 0);
        }
    }
}

/// Every step of the greedy run keeps its invariant, so the run settles the network.
pub proof fn lemma_greedy_from_settles(
    vs: Seq<NamedNode>,
    neg: Seq<usize>,
    pos: Seq<usize>,
    ni: nat,
    pi: nat,
    s: int,
    acc: Seq<(Edge, i128)>,
)
    requires
        greedy_state_ok(vs, neg, pos, ni, pi, s, acc),
    ensures
        settles(vs, acc + greedy_from(vs, neg, pos, ni, pi, s)),
    decreases neg.len() + pos.len() - ni - pi, if s == 0 {
        1int
    } else {
        0int
    },
{
    lemma_side_positions(vs, vs.len(), true);
    lemma_side_positions(vs, vs.len(), false);
    lemma_sides_disjoint(vs);
    if ni >= neg.len() || pi >= pos.len() {
        assert(acc + greedy_from(vs, neg, pos, ni, pi, s) == acc);
        lemma_greedy_done(vs, neg, pos, ni, pi, s, acc);
    } else {
        let qn = neg[ni as int];
        let qp = pos[pi as int];
        let n = vs[qn as int];
        let p = vs[qp as int];
        let e = Edge { u: p.id, v: n.id };
        if s == 0 {
            if p.weight == 0 {
                assert(rem(vs, acc, qp) == 0);
                assert(greedy_state_ok(vs, neg, pos, ni, pi + 1, 0, acc));
                lemma_greedy_from_settles(vs, neg, pos, ni, pi + 1, 0, acc);
            } else {
                assert(greedy_state_ok(vs, neg, pos, ni, pi, p.weight as int, acc));
                lemma_greedy_from_settles(vs, neg, pos, ni, pi, p.weight as int, acc);
            }
        } else {
            let a: int = if s < 0 {
                if p.weight <= -s {
                    p.weight as int
                } else {
                    -s
                }
            } else {
                if -n.weight <= s {
                    -n.weight
                } else {
                    s
                }
            };
            let t = (e, a as i128);
            let acc2 = acc.push(t);
            lemma_greedy_transfer(vs, neg, pos, ni, pi, acc, a);
            let (ni2, pi2, s2): (nat, nat, int) = if s < 0 {
                if p.weight <= -s {
                    if s + p.weight == 0 {
                        (ni + 1, pi + 1, 0)
                    } else {
                        (ni, pi + 1, s + p.weight)
                    }
                } else {
                    (ni + 1, pi, s + p.weight)
                }
            } else {
                if -n.weight <= s {
                    if s + n.weight == 0 {
                        (ni + 1, pi + 1, 0)
                    } else {
                        (ni + 1, pi, s + n.weight)
                    }
                } else {
                    (ni, pi + 1, s + n.weight)
                }
            };
            assert(greedy_from(vs, neg, pos, ni, pi, s) == seq![t] + greedy_from(
                vs,
                neg,
                pos,
                ni2,
                pi2,
                s2,
            ));
            assert(rem(vs, acc2, qn) == rem(vs, acc, qn) + a);
            assert(rem(vs, acc2, qp) == rem(vs, acc, qp) - a);
            assert forall|k: int| 0 <= k < ni2 implies rem(vs, acc2, #[trigger] neg[k]) == 0 by {
                assert(net_flow(acc2, vs[neg[k] as int].id) == net_flow(acc, vs[neg[k] as int].id) + (
                if neg[k] == qp {
                    a
                } else {
                    0
                }) - (if neg[k] == qn {
                    a
                } else {
                    0
                }));
            }
            assert forall|k: int| 0 <= k < pi2 implies rem(vs, acc2, #[trigger] pos[k]) == 0 by {
                assert(net_flow(acc2, vs[pos[k] as int].id) == net_flow(acc, vs[pos[k] as int].id) + (
                if pos[k] == qp {
                    a
                } else {
                    0
                }) - (if pos[k] == qn {
                    a
                } else {
                    0
                }));
            }
            assert forall|k: int| ni2 <= k < neg.len() && k != ni implies net_flow(
                acc2,
                vs[#[trigger] neg[k] as int].id,
            ) == 0 by {
                assert(net_flow(acc2, vs[neg[k] as int].id) == net_flow(acc, vs[neg[k] as int].id) + (
                if neg[k] == qp {
                    a
                } else {
                    0
                }) - (if neg[k] == qn {
                    a
                } else {
                    0
                }));
            }
            assert forall|k: int| pi2 <= k < pos.len() && k != pi implies net_flow(
                acc2,
                vs[#[trigger] pos[k] as int].id,
            ) == 0 by {
                assert(net_flow(acc2, vs[pos[k] as int].id) == net_flow(acc, vs[pos[k] as int].id) + (
                if pos[k] == qp {
                    a
                } else {
                    0
                }) - (if pos[k] == qn {
                    a
                } else {
                    0
                }));
            }
            if ni2 == ni + 1 {
                assert(rem_sum(vs, acc2, neg, ni) == rem(vs, acc2, qn) + rem_sum(vs, acc2, neg, ni + 1));
            }
            if pi2 == pi + 1 {
                assert(rem_sum(vs, acc2, pos, pi) == rem(vs, acc2, qp) + rem_sum(vs, acc2, pos, pi + 1));
            }
            assert(greedy_state_ok(vs, neg, pos, ni2, pi2, s2, acc2));
            lemma_greedy_from_settles(vs, neg, pos, ni2, pi2, s2, acc2);
            assert(acc + greedy_from(vs, neg, pos, ni, pi, s) == acc2 + greedy_from(
                vs,
                neg,
                pos,
                ni2,
                pi2,
                s2,
            ));
        }
    }
}


/// Greedy satisfaction settles every solvable network.
pub proof fn lemma_greedy_settles(vs: Seq<NamedNode>)
    requires
        ids_distinct(vs),
        vs.len() <= usize::MAX,
        solvable(vs),
    ensures
        settles(vs, greedy_transfers(vs)),
{
    let neg = side_positions(vs, vs.len(), true);
    let pos = side_positions(vs, vs.len(), false);
    let s0 = greedy_start(vs, neg, pos);
    let acc = Seq::<(Edge, i128)>::empty();
    lemma_side_positions(vs, vs.len(), true);
    lemma_side_positions(vs, vs.len(), false);
    lemma_sides_sum(vs, vs.len());
    assert(vs.take(vs.len() as int) == vs);
    assert(greedy_state_ok(vs, neg, pos, 0, 0, s0, acc));
    lemma_greedy_from_settles(vs, neg, pos, 0, 0, s0, acc);
    assert(acc + greedy_transfers(vs) == greedy_transfers(vs));
}

/// The debtors (`neg`) or the others (`!neg`) of `vs`, by position, in order.
fn side_positions_exec(vs: &Vec<NamedNode>, neg: bool) -> (res: Vec<usize>)
    ensures
        res@ == side_positions(vs@, vs@.len(), neg),
{
    let mut res: Vec<usize> = Vec::new();
    let mut i: usize = 0;
    while i < vs.len()
        invariant
            i <= vs.len(),
            res@ == side_positions(vs@, i as nat, neg),
        decreases vs.len() - i,
    {
        if (vs[i].weight < 0) == neg {
            res.push(i);
        }
        i = i + 1;
    }
    res
}

/// Greedy satisfaction on the vertices `vs`, where the network is solvable.
pub fn greedy_satisfaction_nodes(vs: &Vec<NamedNode>) -> (res: Solution)
    ensures
        res is Some <==> solvable(vs@),
        res matches Some(t) ==> t@ == greedy_transfers(vs@),
{
    if !nodes_solvable(vs) {
        return None;
    }
    let neg = side_positions_exec(vs, true);
    let pos = side_positions_exec(vs, false);
    proof {
        lemma_side_positions(vs@, vs.len() as nat, true);
        lemma_side_positions(vs@, vs.len() as nat, false);
    }
    let mut side_capacities: i128 = 0;
    if neg.len() > 0 {
        side_capacities = vs[neg[0]].weight as i128;
    }
    if pos.len() > 0 {
        let a: i128 = if side_capacities < 0 { -side_capacities } else { side_capacities };
        if vs[pos[0]].weight as i128 > a {
            side_capacities = vs[pos[0]].weight as i128;
        }
    }
    let mut sol: Vec<(Edge, i128)> = Vec::new();
    let mut ni: usize = 0;
    let mut pi: usize = 0;
    let ghost total = greedy_transfers(vs@);
    assert(sol@ + greedy_from(vs@, neg@, pos@, 0, 0, side_capacities as int) == total);
    while ni < neg.len() && pi < pos.len()
        invariant
            neg@ == side_positions(vs@, vs@.len(), true),
            pos@ == side_positions(vs@, vs@.len(), false),
            forall|j: int| 0 <= j < neg@.len() ==> #[trigger] neg@[j] < vs@.len() && vs@[neg@[j] as int].weight < 0,
            forall|j: int| 0 <= j < pos@.len() ==> #[trigger] pos@[j] < vs@.len() && vs@[pos@[j] as int].weight >= 0,
            ni <= neg.len(),
            pi <= pos.len(),
            i64::MIN <= side_capacities <= i64::MAX,
            sol@ + greedy_from(vs@, neg@, pos@, ni as nat, pi as nat, side_capacities as int) == total,
        decreases neg.len() + pos.len() - ni - pi, if side_capacities == 0 {
            1int
        } else {
            0int
        },
    {
        let ghost s = side_capacities as int;
        let n = &vs[neg[ni]];
        let p = &vs[pos[pi]];
        let e = Edge { u: p.id, v: n.id };
        let pw = p.weight as i128;
        let nw = n.weight as i128;
        if side_capacities < 0 {
            if pw <= -side_capacities {
                let t = (e, pw);
                sol.push(t);
                side_capacities = side_capacities + pw;
                if side_capacities == 0 {
                    ni = ni + 1;
                }
                pi = pi + 1;
                proof {
                    assert(seq![t] + greedy_from(vs@, neg@, pos@, ni as nat, pi as nat, side_capacities as int)
                        == greedy_from(vs@, neg@, pos@, (if side_capacities == 0 { ni - 1 } else { ni as int }) as nat, (pi - 1) as nat, s));
                }
            } else {
                let t = (e, -side_capacities);
                sol.push(t);
                side_capacities = side_capacities + pw;
                ni = ni + 1;
            }
        } else if side_capacities == 0 {
            if pw == 0 {
                pi = pi + 1;
            } else {
                side_capacities = pw;
            }
        } else {
            if -nw <= side_capacities {
                let t = (e, -nw);
                sol.push(t);
                side_capacities = side_capacities + nw;
                if side_capacities == 0 {
                    pi = pi + 1;
                }
                ni = ni + 1;
            } else {
                let t = (e, side_capacities);
                sol.push(t);
                side_capacities = side_capacities + nw;
                pi = pi + 1;
            }
        }
    }
    assert(greedy_from(vs@, neg@, pos@, ni as nat, pi as nat, side_capacities as int) == Seq::<(Edge, i128)>::empty());
    assert(sol@ == total);
    Some(sol)
}

/// Greedy satisfaction: approximates a settling by letting debtors, in order,
/// pay creditors, in order, as much as each still owes or is owed.
///
/// Returns `None` where the instance cannot be settled.
pub fn greedy_satisfaction(instance: &ProblemInstance) -> (res: Solution)
    ensures
        res is Some <==> solvable(instance.vs()),
        res matches Some(t) ==> t@ == greedy_transfers(instance.vs()),
        res matches Some(t) ==> settles(instance.vs(), t@),
        res matches Some(t) ==> 2 * total_amount(t@) == total_abs_weight(instance.vs()),
        res matches Some(t) ==> (instance.vs().len() > 0 ==> t@.len() < instance.vs().len()),
        res matches Some(t) ==> edges_distinct(t@),
{
    let vs = instance.graph().vertices();
    let res = greedy_satisfaction_nodes(vs);
    proof {
        if res is Some {
            assert(vs@.len() == vs.len());
            lemma_greedy_settles(vs@);
            law_greedy_minimal_amount(vs@);
                if vs@.len() > 0 {
                    crate::approximation::lemma_greedy_len(vs@);
                }
                lemma_greedy_edges(vs@);
        }
    }
    res
}


// ------------------------------------------------------------- dispatching

/// The transfers that the scheme `m` proposes for the vertices `vs`.
pub open spec fn scheme_transfers(m: PartitionSolvingMethod, vs: Seq<NamedNode>) -> Seq<(Edge, i128)> {
    match m {
        PartitionSolvingMethod::StarExpand => star_transfers(vs),
        PartitionSolvingMethod::GreedySatsifaction => greedy_transfers(vs),
    }
}

/// What the scheme `m` returns for the vertices `vs`.
pub open spec fn scheme_solution(m: PartitionSolvingMethod, vs: Seq<NamedNode>) -> Option<Seq<(Edge, i128)>> {
    if solvable(vs) {
        Some(scheme_transfers(m, vs))
    } else {
        None
    }
}

/// Both schemes settle every solvable network.
pub proof fn lemma_scheme_settles(m: PartitionSolvingMethod, vs: Seq<NamedNode>)
    requires
        ids_distinct(vs),
        vs.len() <= usize::MAX,
        solvable(vs),
    ensures
        settles(vs, scheme_transfers(m, vs)),
{
    match m {
        PartitionSolvingMethod::StarExpand => lemma_star_settles(vs),
        PartitionSolvingMethod::GreedySatsifaction => lemma_greedy_settles(vs),
    }
}

/// Runs the approximation scheme `m` on the instance.
pub fn approx_solve(m: PartitionSolvingMethod, instance: &ProblemInstance) -> (res: Solution)
    ensures
        res matches Some(t) ==> scheme_solution(m, instance.vs()) == Some(t@),
        res is None ==> scheme_solution(m, instance.vs()) is None,
        res matches Some(t) ==> settles(instance.vs(), t@),
        res matches Some(t) ==> edges_distinct(t@),
        res matches Some(t) ==> (m == PartitionSolvingMethod::GreedySatsifaction ==> 2 * total_amount(t@)
            == total_abs_weight(instance.vs())),
        res matches Some(t) ==> (m == PartitionSolvingMethod::StarExpand ==> forall|k: int|
            0 <= k < t@.len() ==> touches_heaviest(instance.vs(), #[trigger] t@[k])),
        res matches Some(t) ==> (m == PartitionSolvingMethod::StarExpand ==> crate::exact_partitioning::star_settling(
            instance.vs(),
            t@,
        )),
{
    match m {
        PartitionSolvingMethod::StarExpand => {
            let res = star_expand(instance);
            proof {
                if res is Some {
                    lemma_star_settling_whole(instance.vs(), res->0@);
                }
            }
            res
        },
        PartitionSolvingMethod::GreedySatsifaction => greedy_satisfaction(instance),
    }
}

/// Transfers within `vs` that all touch its last vertex of greatest weight
/// form one star.
proof fn lemma_star_settling_whole(vs: Seq<NamedNode>, t: Seq<(Edge, i128)>)
    requires
        transfers_within(vs, t),
        forall|k: int| 0 <= k < t.len() ==> touches_heaviest(vs, #[trigger] t[k]),
    ensures
        crate::exact_partitioning::star_settling(vs, t),
{
    let p = seq![vs];
    assert(crate::exact_partitioning::blocks_disjoint(p));
    assert forall|j: int, x: int| 0 <= j < p.len() && 0 <= x < p[j].len() implies vs.contains(#[trigger] p[j][x]) by {
        assert(p[j] == vs);
    }
    assert forall|k: int| 0 <= k < t.len() implies exists|j: int|
        0 <= j < p.len() && has_id(p[j], (#[trigger] t[k]).0.u) && has_id(p[j], t[k].0.v)
            && touches_heaviest(p[j], t[k]) by {
        assert(p[0] == vs);
    }
}


// ------------------------------------------------------ the amount greedy moves

/// Every transfer of a greedy run goes from a debtor to a creditor (or a
/// vertex of weight zero).
proof fn lemma_greedy_from_sides(vs: Seq<NamedNode>, neg: Seq<usize>, pos: Seq<usize>, ni: nat, pi: nat, s: int)
    requires
        forall|a: int| 0 <= a < neg.len() ==> #[trigger] neg[a] < vs.len() && vs[neg[a] as int].weight < 0,
        forall|b: int| 0 <= b < pos.len() ==> #[trigger] pos[b] < vs.len() && vs[pos[b] as int].weight >= 0,
    ensures
        forall|k: int|
            0 <= k < greedy_from(vs, neg, pos, ni, pi, s).len() ==> to_creditor(vs, #[trigger] greedy_from(vs, neg, pos, ni, pi, s)[k])
                && from_debtor(vs, greedy_from(vs, neg, pos, ni, pi, s)[k]),
    decreases neg.len() + pos.len() - ni - pi, if s == 0 {
        1int
    } else {
        0int
    },
{
    if ni < neg.len() && pi < pos.len() {
        let n = vs[neg[ni as int] as int];
        let p = vs[pos[pi as int] as int];
        let e = Edge { u: p.id, v: n.id };
        let g = greedy_from(vs, neg, pos, ni, pi, s);
        assert(neg[ni as int] < vs.len() && n.weight < 0);
        assert(pos[pi as int] < vs.len() && p.weight >= 0);
        if s < 0 {
            if p.weight <= -s {
                let rest = if s + p.weight == 0 {
                    lemma_greedy_from_sides(vs, neg, pos, ni + 1, pi + 1, 0);
                    greedy_from(vs, neg, pos, ni + 1, pi + 1, 0)
                } else {
                    lemma_greedy_from_sides(vs, neg, pos, ni, pi + 1, s + p.weight);
                    greedy_from(vs, neg, pos, ni, pi + 1, s + p.weight)
                };
                lemma_sides_head(vs, neg, pos, ni, pi, (e, p.weight as i128), rest);
                assert(g == seq![(e, p.weight as i128)] + rest);
            } else {
                lemma_greedy_from_sides(vs, neg, pos, ni + 1, pi, s + p.weight);
                lemma_sides_head(vs, neg, pos, ni, pi, (e, (-s) as i128), greedy_from(vs, neg, pos, ni + 1, pi, s + p.weight));
                assert(g == seq![(e, (-s) as i128)] + greedy_from(vs, neg, pos, ni + 1, pi, s + p.weight));
            }
        } else if s == 0 {
            if p.weight == 0 {
                lemma_greedy_from_sides(vs, neg, pos, ni, pi + 1, 0);
                assert(g == greedy_from(vs, neg, pos, ni, pi + 1, 0));
            } else {
                lemma_greedy_from_sides(vs, neg, pos, ni, pi, p.weight as int);
                assert(g == greedy_from(vs, neg, pos, ni, pi, p.weight as int));
            }
        } else {
            if -n.weight <= s {
                let rest = if s + n.weight == 0 {
                    lemma_greedy_from_sides(vs, neg, pos, ni + 1, pi + 1, 0);
                    greedy_from(vs, neg, pos, ni + 1, pi + 1, 0)
                } else {
                    lemma_greedy_from_sides(vs, neg, pos, ni + 1, pi, s + n.weight);
                    greedy_from(vs, neg, pos, ni + 1, pi, s + n.weight)
                };
                lemma_sides_head(vs, neg, pos, ni, pi, (e, (-n.weight) as i128), rest);
                assert(g == seq![(e, (-n.weight) as i128)] + rest);
            } else {
                lemma_greedy_from_sides(vs, neg, pos, ni, pi + 1, s + n.weight);
                lemma_sides_head(vs, neg, pos, ni, pi, (e, s as i128), greedy_from(vs, neg, pos, ni, pi + 1, s + n.weight));
                assert(g == seq![(e, s as i128)] + greedy_from(vs, neg, pos, ni, pi + 1, s + n.weight));
            }
        }
    }
}

/// A transfer from the current debtor to the current creditor, before
/// transfers that all go from debtors to creditors.
proof fn lemma_sides_head(
    vs: Seq<NamedNode>,
    neg: Seq<usize>,
    pos: Seq<usize>,
    ni: nat,
    pi: nat,
    t: (Edge, i128),
    rest: Seq<(Edge, i128)>,
)
    requires
        ni < neg.len(),
        pi < pos.len(),
        neg[ni as int] < vs.len() && vs[neg[ni as int] as int].weight < 0,
        pos[pi as int] < vs.len() && vs[pos[pi as int] as int].weight >= 0,
        t.0 == (Edge { u: vs[pos[pi as int] as int].id, v: vs[neg[ni as int] as int].id }),
        forall|k: int| 0 <= k < rest.len() ==> to_creditor(vs, #[trigger] rest[k]) && from_debtor(vs, rest[k]),
    ensures
        forall|k: int| 0 <= k < (seq![t] + rest).len() ==> to_creditor(vs, #[trigger] (seq![t] + rest)[k]) && from_debtor(
            vs,
            (seq![t] + rest)[k],
        ),
{
    assert forall|k: int| 0 <= k < (seq![t] + rest).len() implies to_creditor(vs, #[trigger] (seq![t] + rest)[k])
        && from_debtor(vs, (seq![t] + rest)[k]) by {
        if k == 0 {
            let i = pos[pi as int] as int;
            let j = neg[ni as int] as int;
            assert(vs[i].id == t.0.u);
            assert(vs[j].id == t.0.v);
        } else {
            assert((seq![t] + rest)[k] == rest[k - 1]);
        }
    }
}

/// Greedy satisfaction moves the least amount any settling can move: what
/// the creditors are owed, half the sum of the absolute weights.
pub proof fn law_greedy_minimal_amount(vs: Seq<NamedNode>)
    requires
        ids_distinct(vs),
        vs.len() <= usize::MAX,
        solvable(vs),
    ensures
        total_amount(greedy_transfers(vs)) == creditor_weight(vs),
        2 * total_amount(greedy_transfers(vs)) == total_abs_weight(vs),
{
    let neg = side_positions(vs, vs.len(), true);
    let pos = side_positions(vs, vs.len(), false);
    lemma_side_positions(vs, vs.len(), true);
    lemma_side_positions(vs, vs.len(), false);
    lemma_greedy_from_sides(vs, neg, pos, 0, 0, greedy_start(vs, neg, pos));
    lemma_greedy_settles(vs);
    lemma_amount_of_one_way(vs, greedy_transfers(vs));
    lemma_abs_creditor(vs);
}


// ----------------------------------------------------- the factor of two

/// Every greedy transfer settles the current debtor or the current creditor,
/// the last one both: a run makes one transfer fewer than the vertices left.
proof fn lemma_greedy_from_len(vs: Seq<NamedNode>, neg: Seq<usize>, pos: Seq<usize>, ni: nat, pi: nat, s: int)
    requires
        ni <= neg.len(),
        pi <= pos.len(),
    ensures
        greedy_from(vs, neg, pos, ni, pi, s).len() + 1 <= (neg.len() - ni) + (pos.len() - pi)
            || greedy_from(vs, neg, pos, ni, pi, s).len() == 0,
    decreases neg.len() + pos.len() - ni - pi, if s == 0 {
        1int
    } else {
        0int
    },
{
    if ni < neg.len() && pi < pos.len() {
        let n = vs[neg[ni as int] as int];
        let p = vs[pos[pi as int] as int];
        if s < 0 {
            if p.weight <= -s {
                if s + p.weight == 0 {
                    lemma_greedy_from_len(vs, neg, pos, ni + 1, pi + 1, 0);
                } else {
                    lemma_greedy_from_len(vs, neg, pos, ni, pi + 1, s + p.weight);
                }
            } else {
                lemma_greedy_from_len(vs, neg, pos, ni + 1, pi, s + p.weight);
            }
        } else if s == 0 {
            if p.weight == 0 {
                lemma_greedy_from_len(vs, neg, pos, ni, pi + 1, 0);
            } else {
                lemma_greedy_from_len(vs, neg, pos, ni, pi, p.weight as int);
            }
        } else {
            if -n.weight <= s {
                if s + n.weight == 0 {
                    lemma_greedy_from_len(vs, neg, pos, ni + 1, pi + 1, 0);
                } else {
                    lemma_greedy_from_len(vs, neg, pos, ni + 1, pi, s + n.weight);
                }
            } else {
                lemma_greedy_from_len(vs, neg, pos, ni, pi + 1, s + n.weight);
            }
        }
    }
}

/// The debtors and the others are all the vertices.
pub proof fn lemma_sides_len(vs: Seq<NamedNode>, k: nat)
    requires
        k <= vs.len(),
    ensures
        side_positions(vs, k, true).len() + side_positions(vs, k, false).len() == k,
    decreases k,
{
    if k > 0 {
        lemma_sides_len(vs, (k - 1) as nat);
    }
}

/// Star expand is a 2-approximation: on a solvable network whose weights are
/// all nonzero it makes fewer than twice as many transfers as any settling.
pub proof fn law_star_two_approx(vs: Seq<NamedNode>, sol: Seq<(Edge, i128)>)
    requires
        ids_distinct(vs),
        vs.len() <= usize::MAX,
        solvable(vs),
        forall|i: int| 0 <= i < vs.len() ==> (#[trigger] vs[i]).weight != 0,
        settles(vs, sol),
    ensures
        star_transfers(vs).len() < 2 * sol.len(),
{
    lemma_star_settles(vs);
    law_transfers_needed(vs, sol);
}

/// Greedy satisfaction is a 2-approximation: on a solvable network whose
/// weights are all nonzero it makes fewer than twice as many transfers as any
/// settling.
pub proof fn law_greedy_two_approx(vs: Seq<NamedNode>, sol: Seq<(Edge, i128)>)
    requires
        ids_distinct(vs),
        vs.len() <= usize::MAX,
        solvable(vs),
        forall|i: int| 0 <= i < vs.len() ==> (#[trigger] vs[i]).weight != 0,
        settles(vs, sol),
    ensures
        greedy_transfers(vs).len() < 2 * sol.len(),
{
    let neg = side_positions(vs, vs.len(), true);
    let pos = side_positions(vs, vs.len(), false);
    lemma_sides_len(vs, vs.len());
    lemma_greedy_from_len(vs, neg, pos, 0, 0, greedy_start(vs, neg, pos));
    law_transfers_needed(vs, sol);
}


/// Greedy satisfaction makes at most one transfer fewer than the vertices.
pub proof fn lemma_greedy_len(vs: Seq<NamedNode>)
    requires
        vs.len() > 0,
    ensures
        greedy_transfers(vs).len() <= vs.len() - 1,
{
    let neg = side_positions(vs, vs.len(), true);
    let pos = side_positions(vs, vs.len(), false);
    lemma_sides_len(vs, vs.len());
    lemma_greedy_from_len(vs, neg, pos, 0, 0, greedy_start(vs, neg, pos));
}

// ------------------------------------------------------------- no edge twice

/// Every star transfer joins the center to one other vertex, and no edge
/// carries two of them.
proof fn lemma_star_prefix_edges(vs: Seq<NamedNode>, c: int, k: nat)
    requires
        ids_distinct(vs),
        0 <= c < vs.len(),
        k <= vs.len(),
    ensures
        edges_distinct(star_prefix(vs, c, k)),
        forall|x: int|
            0 <= x < star_prefix(vs, c, k).len() ==> {
                let e = (#[trigger] star_prefix(vs, c, k)[x]).0;
                &&& (e.u == vs[c].id || e.v == vs[c].id)
                &&& exists|i: int| 0 <= i < k && i != c && (e.u == vs[i].id || e.v == vs[i].id)
            },
    decreases k,
{
    if k > 0 {
        lemma_star_prefix_edges(vs, c, (k - 1) as nat);
        let sp = star_prefix(vs, c, (k - 1) as nat);
        if k - 1 != c {
            let t = star_transfer(vs[k - 1], vs[c]);
            let s2 = sp.push(t);
            assert forall|x: int| 0 <= x < s2.len() implies {
                let e = (#[trigger] s2[x]).0;
                &&& (e.u == vs[c].id || e.v == vs[c].id)
                &&& exists|i: int| 0 <= i < k && i != c && (e.u == vs[i].id || e.v == vs[i].id)
            } by {
                if x < sp.len() {
                    assert(s2[x] == sp[x]);
                    let e = sp[x].0;
                    let i = choose|i: int| 0 <= i < k - 1 && i != c && (e.u == vs[i].id || e.v == vs[i].id);
                } else {
                    assert(s2[x] == t);
                    let i = k - 1;
                    assert(t.0.u == vs[i].id || t.0.v == vs[i].id);
                }
            }
            assert forall|a: int, b: int| 0 <= a < b < s2.len() implies #[trigger] s2[a].0 != #[trigger] s2[b].0 by {
                if b < sp.len() {
                    assert(s2[a] == sp[a] && s2[b] == sp[b]);
                } else {
                    assert(s2[a] == sp[a]);
                    assert(s2[b] == t);
                    let e = sp[a].0;
                    let i = choose|i: int| 0 <= i < k - 1 && i != c && (e.u == vs[i].id || e.v == vs[i].id);
                    assert(vs[i].id != vs[c].id);
                    assert(vs[i].id != vs[k - 1].id);
                }
            }
        }
    }
}

/// No edge carries two star transfers.
pub proof fn lemma_star_edges(vs: Seq<NamedNode>)
    requires
        ids_distinct(vs),
    ensures
        edges_distinct(star_transfers(vs)),
{
    if vs.len() > 0 {
        lemma_center_index(vs, vs.len());
        lemma_star_prefix_edges(vs, center_index(vs, vs.len()), vs.len());
    } else {
        assert(star_transfers(vs) =~= Seq::<(Edge, i128)>::empty());
    }
}

/// Every greedy transfer from `(ni, pi)` on is paid by a debtor from `ni` on
/// to a creditor from `pi` on, and no edge carries two of them.
proof fn lemma_greedy_from_edges(vs: Seq<NamedNode>, neg: Seq<usize>, pos: Seq<usize>, ni: nat, pi: nat, s: int)
    requires
        ids_distinct(vs),
        forall|x: int| 0 <= x < neg.len() ==> #[trigger] neg[x] < vs.len(),
        forall|x: int| 0 <= x < pos.len() ==> #[trigger] pos[x] < vs.len(),
        forall|x: int, y: int| 0 <= x < y < neg.len() ==> #[trigger] neg[x] < #[trigger] neg[y],
        forall|x: int, y: int| 0 <= x < y < pos.len() ==> #[trigger] pos[x] < #[trigger] pos[y],
    ensures
        edges_distinct(greedy_from(vs, neg, pos, ni, pi, s)),
        forall|k: int|
            0 <= k < greedy_from(vs, neg, pos, ni, pi, s).len() ==> {
                let e = (#[trigger] greedy_from(vs, neg, pos, ni, pi, s)[k]).0;
                &&& exists|x: int| ni <= x < neg.len() && e.v == vs[neg[x] as int].id
                &&& exists|y: int| pi <= y < pos.len() && e.u == vs[pos[y] as int].id
            },
    decreases neg.len() + pos.len() - ni - pi, if s == 0 {
        1int
    } else {
        0int
    },
{
    if ni >= neg.len() || pi >= pos.len() {
    } else {
        let n = vs[neg[ni as int] as int];
        let p = vs[pos[pi as int] as int];
        let e = Edge { u: p.id, v: n.id };
        let g = greedy_from(vs, neg, pos, ni, pi, s);
        if s == 0 {
            if p.weight == 0 {
                lemma_greedy_from_edges(vs, neg, pos, ni, pi + 1, 0);
                assert forall|k: int| 0 <= k < g.len() implies {
                    let e = (#[trigger] g[k]).0;
                    &&& exists|x: int| ni <= x < neg.len() && e.v == vs[neg[x] as int].id
                    &&& exists|y: int| pi <= y < pos.len() && e.u == vs[pos[y] as int].id
                } by {
                    let e = g[k].0;
                    let y = choose|y: int| pi + 1 <= y < pos.len() && e.u == vs[pos[y] as int].id;
                }
            } else {
                lemma_greedy_from_edges(vs, neg, pos, ni, pi, p.weight as int);
            }
        } else {
            let (ni2, pi2, s2, a) = if s < 0 {
                if p.weight <= -s {
                    if s + p.weight == 0 {
                        (ni + 1, pi + 1, 0int, p.weight as i128)
                    } else {
                        (ni, pi + 1, s + p.weight, p.weight as i128)
                    }
                } else {
                    (ni + 1, pi, s + p.weight, (-s) as i128)
                }
            } else {
                if -n.weight <= s {
                    if s + n.weight == 0 {
                        (ni + 1, pi + 1, 0int, (-n.weight) as i128)
                    } else {
                        (ni + 1, pi, s + n.weight, (-n.weight) as i128)
                    }
                } else {
                    (ni, pi + 1, s + n.weight, s as i128)
                }
            };
            let rest = greedy_from(vs, neg, pos, ni2, pi2, s2);
            assert(g == seq![(e, a)] + rest);
            lemma_greedy_from_edges(vs, neg, pos, ni2, pi2, s2);
            assert forall|k: int| 0 <= k < g.len() implies {
                let e = (#[trigger] g[k]).0;
                &&& exists|x: int| ni <= x < neg.len() && e.v == vs[neg[x] as int].id
                &&& exists|y: int| pi <= y < pos.len() && e.u == vs[pos[y] as int].id
            } by {
                if k == 0 {
                    assert(g[k].0 == e);
                    assert(e.v == vs[neg[ni as int] as int].id);
                    assert(e.u == vs[pos[pi as int] as int].id);
                } else {
                    assert(g[k] == rest[k - 1]);
                    let f = rest[k - 1].0;
                    let x = choose|x: int| ni2 <= x < neg.len() && f.v == vs[neg[x] as int].id;
                    let y = choose|y: int| pi2 <= y < pos.len() && f.u == vs[pos[y] as int].id;
                }
            }
            assert forall|a1: int, b1: int| 0 <= a1 < b1 < g.len() implies #[trigger] g[a1].0 != #[trigger] g[b1].0 by {
                assert(g[b1] == rest[b1 - 1]);
                if a1 > 0 {
                    assert(g[a1] == rest[a1 - 1]);
                } else {
                    assert(g[a1].0 == e);
                    let f = rest[b1 - 1].0;
                    let x = choose|x: int| ni2 <= x < neg.len() && f.v == vs[neg[x] as int].id;
                    let y = choose|y: int| pi2 <= y < pos.len() && f.u == vs[pos[y] as int].id;
                    if ni2 == ni + 1 {
                        assert(neg[ni as int] < neg[x]);
                        assert(vs[neg[x] as int].id != vs[neg[ni as int] as int].id);
                    } else {
                        assert(pos[pi as int] < pos[y]);
                        assert(vs[pos[y] as int].id != vs[pos[pi as int] as int].id);
                    }
                }
            }
        }
    }
}

/// No edge carries two greedy transfers.
pub proof fn lemma_greedy_edges(vs: Seq<NamedNode>)
    requires
        ids_distinct(vs),
        vs.len() <= usize::MAX,
    ensures
        edges_distinct(greedy_transfers(vs)),
{
    let neg = side_positions(vs, vs.len(), true);
    let pos = side_positions(vs, vs.len(), false);
    lemma_side_positions(vs, vs.len(), true);
    lemma_side_positions(vs, vs.len(), false);
    lemma_greedy_from_edges(vs, neg, pos, 0, 0, greedy_start(vs, neg, pos));
}

/// No edge carries two transfers of either scheme.
pub proof fn lemma_scheme_edges(m: PartitionSolvingMethod, vs: Seq<NamedNode>)
    requires
        ids_distinct(vs),
        vs.len() <= usize::MAX,
    ensures
        edges_distinct(scheme_transfers(m, vs)),
{
    match m {
        PartitionSolvingMethod::StarExpand => lemma_star_edges(vs),
        PartitionSolvingMethod::GreedySatsifaction => lemma_greedy_edges(vs),
    }
}

/// Every greedy transfer goes to a vertex of nonnegative weight and comes from
/// a vertex of negative weight.
pub proof fn lemma_greedy_one_way(vs: Seq<NamedNode>)
    requires
        vs.len() <= usize::MAX,
    ensures
        forall|k: int|
            0 <= k < greedy_transfers(vs).len() ==> to_creditor(vs, #[trigger] greedy_transfers(vs)[k]) && from_debtor(
                vs,
                greedy_transfers(vs)[k],
            ),
{
    let neg = side_positions(vs, vs.len(), true);
    let pos = side_positions(vs, vs.len(), false);
    lemma_side_positions(vs, vs.len(), true);
    lemma_side_positions(vs, vs.len(), false);
    lemma_greedy_from_sides(vs, neg, pos, 0, 0, greedy_start(vs, neg, pos));
}

/// `c` is the position of the last vertex of greatest weight.
pub open spec fn is_last_heaviest(vs: Seq<NamedNode>, c: int) -> bool {
    &&& 0 <= c < vs.len()
    &&& forall|i: int| 0 <= i < vs.len() ==> (#[trigger] vs[i]).weight <= vs[c].weight
    &&& forall|i: int| c < i < vs.len() ==> (#[trigger] vs[i]).weight < vs[c].weight
}

/// The transfer `x` has the last vertex of greatest weight of `vs` at one end.
pub open spec fn touches_heaviest(vs: Seq<NamedNode>, x: (Edge, i128)) -> bool {
    forall|c: int| #[trigger] is_last_heaviest(vs, c) ==> x.0.u == vs[c].id || x.0.v == vs[c].id
}

/// Star expand is a star: every transfer has the last vertex of greatest
/// weight at one end.
pub proof fn law_star_center(vs: Seq<NamedNode>)
    requires
        ids_distinct(vs),
    ensures
        forall|k: int| 0 <= k < star_transfers(vs).len() ==> touches_heaviest(vs, #[trigger] star_transfers(vs)[k]),
{
    if vs.len() > 0 {
        let c0 = center_index(vs, vs.len());
        lemma_center_index(vs, vs.len());
        lemma_star_prefix_edges(vs, c0, vs.len());
        assert forall|k: int| 0 <= k < star_transfers(vs).len() implies touches_heaviest(vs, #[trigger] star_transfers(vs)[k]) by {
            assert forall|c: int| #[trigger] is_last_heaviest(vs, c) implies star_transfers(vs)[k].0.u == vs[c].id
                || star_transfers(vs)[k].0.v == vs[c].id by {
                if c < c0 {
                    assert(vs[c0].weight < vs[c].weight);
                } else if c > c0 {
                    assert(vs[c].weight < vs[c0].weight);
                }
            }
        }
    } else {
        assert(star_transfers(vs) =~= Seq::<(Edge, i128)>::empty());
    }
}

/// Greedy transfers from `(ni, pi)` on are paid by debtors from `ni` on and
/// received by creditors from `pi` on, both in the order of the vertices.
proof fn lemma_greedy_from_order(vs: Seq<NamedNode>, neg: Seq<usize>, pos: Seq<usize>, ni: nat, pi: nat, s: int)
    requires
        ids_distinct(vs),
        forall|x: int| 0 <= x < neg.len() ==> #[trigger] neg[x] < vs.len(),
        forall|x: int| 0 <= x < pos.len() ==> #[trigger] pos[x] < vs.len(),
        forall|x: int, y: int| 0 <= x < y < neg.len() ==> #[trigger] neg[x] < #[trigger] neg[y],
        forall|x: int, y: int| 0 <= x < y < pos.len() ==> #[trigger] pos[x] < #[trigger] pos[y],
    ensures
        forall|k: int|
            0 <= k < greedy_from(vs, neg, pos, ni, pi, s).len() ==> {
                let e = (#[trigger] greedy_from(vs, neg, pos, ni, pi, s)[k]).0;
                &&& exists|x: int| ni <= x < neg.len() && crate::optimality::pos_of(vs, e.v) == neg[x]
                &&& exists|y: int| pi <= y < pos.len() && crate::optimality::pos_of(vs, e.u) == pos[y]
            },
        forall|k: int, l: int|
            0 <= k < l < greedy_from(vs, neg, pos, ni, pi, s).len() ==> crate::optimality::pos_of(
                vs,
                (#[trigger] greedy_from(vs, neg, pos, ni, pi, s)[k]).0.v,
            ) <= crate::optimality::pos_of(vs, (#[trigger] greedy_from(vs, neg, pos, ni, pi, s)[l]).0.v)
                && crate::optimality::pos_of(vs, greedy_from(vs, neg, pos, ni, pi, s)[k].0.u) <= crate::optimality::pos_of(
                vs,
                greedy_from(vs, neg, pos, ni, pi, s)[l].0.u,
            ),
    decreases neg.len() + pos.len() - ni - pi, if s == 0 {
        1int
    } else {
        0int
    },
{
    if ni >= neg.len() || pi >= pos.len() {
    } else {
        let n = vs[neg[ni as int] as int];
        let p = vs[pos[pi as int] as int];
        let e = Edge { u: p.id, v: n.id };
        let g = greedy_from(vs, neg, pos, ni, pi, s);
        crate::tree_bases::lemma_pos_of(vs, neg[ni as int] as int);
        crate::tree_bases::lemma_pos_of(vs, pos[pi as int] as int);
        if s == 0 {
            if p.weight == 0 {
                lemma_greedy_from_order(vs, neg, pos, ni, pi + 1, 0);
                let g2 = greedy_from(vs, neg, pos, ni, pi + 1, 0);
                assert(g == g2);
                assert forall|k: int| 0 <= k < g.len() implies {
                    let e = (#[trigger] g[k]).0;
                    &&& exists|x: int| ni <= x < neg.len() && crate::optimality::pos_of(vs, e.v) == neg[x]
                    &&& exists|y: int| pi <= y < pos.len() && crate::optimality::pos_of(vs, e.u) == pos[y]
                } by {
                    let e = g2[k].0;
                    let x = choose|x: int| ni <= x < neg.len() && crate::optimality::pos_of(vs, e.v) == neg[x];
                    let y = choose|y: int| pi + 1 <= y < pos.len() && crate::optimality::pos_of(vs, e.u) == pos[y];
                }
            } else {
                lemma_greedy_from_order(vs, neg, pos, ni, pi, p.weight as int);
                assert(g == greedy_from(vs, neg, pos, ni, pi, p.weight as int));
            }
        } else {
            let (ni2, pi2, s2, a) = if s < 0 {
                if p.weight <= -s {
                    if s + p.weight == 0 {
                        (ni + 1, pi + 1, 0int, p.weight as i128)
                    } else {
                        (ni, pi + 1, s + p.weight, p.weight as i128)
                    }
                } else {
                    (ni + 1, pi, s + p.weight, (-s) as i128)
                }
            } else {
                if -n.weight <= s {
                    if s + n.weight == 0 {
                        (ni + 1, pi + 1, 0int, (-n.weight) as i128)
                    } else {
                        (ni + 1, pi, s + n.weight, (-n.weight) as i128)
                    }
                } else {
                    (ni, pi + 1, s + n.weight, s as i128)
                }
            };
            let rest = greedy_from(vs, neg, pos, ni2, pi2, s2);
            assert(g == seq![(e, a)] + rest);
            lemma_greedy_from_order(vs, neg, pos, ni2, pi2, s2);
            assert(crate::optimality::pos_of(vs, e.v) == neg[ni as int]);
            assert(crate::optimality::pos_of(vs, e.u) == pos[pi as int]);
            assert forall|k: int| 0 <= k < g.len() implies {
                let e = (#[trigger] g[k]).0;
                &&& exists|x: int| ni <= x < neg.len() && crate::optimality::pos_of(vs, e.v) == neg[x]
                &&& exists|y: int| pi <= y < pos.len() && crate::optimality::pos_of(vs, e.u) == pos[y]
            } by {
                if k == 0 {
                    assert(g[k].0 == e);
                } else {
                    assert(g[k] == rest[k - 1]);
                    let f = rest[k - 1].0;
                    let x = choose|x: int| ni2 <= x < neg.len() && crate::optimality::pos_of(vs, f.v) == neg[x];
                    let y = choose|y: int| pi2 <= y < pos.len() && crate::optimality::pos_of(vs, f.u) == pos[y];
                }
            }
            assert forall|k: int, l: int| 0 <= k < l < g.len() implies crate::optimality::pos_of(vs, (#[trigger] g[k]).0.v)
                <= crate::optimality::pos_of(vs, (#[trigger] g[l]).0.v) && crate::optimality::pos_of(vs, g[k].0.u)
                <= crate::optimality::pos_of(vs, g[l].0.u) by {
                assert(g[l] == rest[l - 1]);
                if k > 0 {
                    assert(g[k] == rest[k - 1]);
                } else {
                    assert(g[k].0 == e);
                    let f = rest[l - 1].0;
                    let x = choose|x: int| ni2 <= x < neg.len() && crate::optimality::pos_of(vs, f.v) == neg[x];
                    let y = choose|y: int| pi2 <= y < pos.len() && crate::optimality::pos_of(vs, f.u) == pos[y];
                    if x > ni {
                        assert(neg[ni as int] < neg[x]);
                    }
                    if y > pi {
                        assert(pos[pi as int] < pos[y]);
                    }
                }
            }
        }
    }
}

/// Greedy satisfaction takes the debtors and the creditors each in the order
/// of the vertices: along the transfers, payers and receivers never go back.
pub proof fn law_greedy_order(vs: Seq<NamedNode>)
    requires
        ids_distinct(vs),
        vs.len() <= usize::MAX,
    ensures
        forall|k: int, l: int|
            0 <= k < l < greedy_transfers(vs).len() ==> crate::optimality::pos_of(vs, (#[trigger] greedy_transfers(vs)[k]).0.v)
                <= crate::optimality::pos_of(vs, (#[trigger] greedy_transfers(vs)[l]).0.v) && crate::optimality::pos_of(
                vs,
                greedy_transfers(vs)[k].0.u,
            ) <= crate::optimality::pos_of(vs, greedy_transfers(vs)[l].0.u),
{
    let neg = side_positions(vs, vs.len(), true);
    let pos = side_positions(vs, vs.len(), false);
    lemma_side_positions(vs, vs.len(), true);
    lemma_side_positions(vs, vs.len(), false);
    lemma_greedy_from_order(vs, neg, pos, 0, 0, greedy_start(vs, neg, pos));
}

} // verus!
