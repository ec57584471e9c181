//! How few transfers any settling needs: the transfers join the vertices into
//! components, each of zero weight, and a settling with `t` transfers leaves
//! at least `n - t` components. The exact solver settles a partitioning with
//! the most zero-weight blocks, and so needs no more transfers than any settling.
use crate::approximation::{lemma_greedy_len, lemma_star_settles};
use crate::exact_partitioning::{
    all_partitionings, block_counts, blocks_of, by_len_desc, is_rgs, law_naive_most_blocks, lemma_all_partitionings_blocks,
    lemma_blocks_len, lemma_blocks_members, lemma_by_len_desc_contains, lemma_first_success_found, lemma_num_blocks_le,
    lemma_partition_transfers_some, lemma_rgs_blocks_wf, naive_transfers, num_blocks, partition_transfers, rgs_ext,
    rgs_ext_from,
};
use crate::partition::PartitionSolvingMethod;
use crate::probleminstance::solvable;
use crate::graph::{ids_distinct, total_weight, Edge, NamedNode};
use crate::solution::{balanced, lemma_net_flow_push, net_flow, settles, transfers_within};
use vstd::prelude::*;

verus! {

// ------------------------------------------------------------- components

/// The position of the vertex with identifier `id`.
pub open spec fn pos_of(vs: Seq<NamedNode>, id: usize) -> int {
    choose|i: int| 0 <= i < vs.len() && vs[i].id == id
}

/// The labels after joining the components of positions `a` and `b`: every
/// position labelled as `b` takes the label of `a`.
pub open spec fn join(labels: Seq<nat>, a: int, b: int) -> Seq<nat> {
    Seq::new(labels.len(), |i: int| if labels[i] == labels[b] { labels[a] } else { labels[i] })
}

/// The component labels of the vertices after the first `k` transfers: at
/// first every vertex is alone, and each transfer joins its two ends.
pub open spec fn components(vs: Seq<NamedNode>, sol: Seq<(Edge, i128)>, k: nat) -> Seq<nat>
    decreases k,
{
    if k == 0 {
        Seq::new(vs.len(), |i: int| i as nat)
    } else {
        join(
            components(vs, sol, (k - 1) as nat),
            pos_of(vs, sol[k - 1].0.u),
            pos_of(vs, sol[k - 1].0.v),
        )
    }
}

/// The labels in use.
pub open spec fn label_set(labels: Seq<nat>) -> Set<nat>
    decreases labels.len(),
{
    if labels.len() == 0 {
        Set::empty()
    } else {
        label_set(labels.drop_last()).insert(labels.last())
    }
}

pub proof fn lemma_label_set(labels: Seq<nat>)
    ensures
        label_set(labels).finite(),
        forall|c: nat| #[trigger] label_set(labels).contains(c) <==> labels.contains(c),
    decreases labels.len(),
{
    broadcast use vstd::set::group_set_axioms;

    if labels.len() > 0 {
        let l2 = labels.drop_last();
        lemma_label_set(l2);
        assert forall|c: nat| #[trigger] label_set(labels).contains(c) <==> labels.contains(c) by {
            if labels.contains(c) {
                let i = choose|i: int| 0 <= i < labels.len() && labels[i] == c;
                if i < labels.len() - 1 {
                    assert(l2[i] == c);
                }
            }
            if l2.contains(c) {
                let i = choose|i: int| 0 <= i < l2.len() && l2[i] == c;
                assert(labels[i] == c);
            }
            if c == labels.last() {
                assert(labels[labels.len() - 1] == c);
            }
        }
    }
}

/// Every transfer is between two vertices of `vs`.
pub proof fn lemma_ends(vs: Seq<NamedNode>, sol: Seq<(Edge, i128)>, k: int)
    requires
        transfers_within(vs, sol),
        0 <= k < sol.len(),
    ensures
        0 <= pos_of(vs, sol[k].0.u) < vs.len(),
        vs[pos_of(vs, sol[k].0.u)].id == sol[k].0.u,
        0 <= pos_of(vs, sol[k].0.v) < vs.len(),
        vs[pos_of(vs, sol[k].0.v)].id == sol[k].0.v,
{
    let t = sol[k];
    assert(crate::graph::has_id(vs, t.0.u));
    assert(crate::graph::has_id(vs, t.0.v));
}

/// The components keep one label per vertex; the ends of every transfer so
/// far share a label; and each transfer lowers the number of labels by at
/// most one.
pub proof fn lemma_components(vs: Seq<NamedNode>, sol: Seq<(Edge, i128)>, k: nat)
    requires
        transfers_within(vs, sol),
        k <= sol.len(),
    ensures
        components(vs, sol, k).len() == vs.len(),
        forall|x: int|
            0 <= x < k ==> components(vs, sol, k)[pos_of(vs, #[trigger] sol[x].0.u)] == components(vs, sol, k)[pos_of(
                vs,
                sol[x].0.v,
            )],
        label_set(components(vs, sol, k)).len() + k >= vs.len(),
    decreases k,
{
    broadcast use vstd::set::group_set_axioms;

    let c = components(vs, sol, k);
    lemma_label_set(c);
    if k == 0 {
        let l = Seq::new(vs.len(), |i: int| i as nat);
        assert(c == l);
        lemma_label_set_iota(vs.len());
    } else {
        lemma_components(vs, sol, (k - 1) as nat);
        let p = components(vs, sol, (k - 1) as nat);
        lemma_label_set(p);
        lemma_ends(vs, sol, k - 1);
        let a = pos_of(vs, sol[k - 1].0.u);
        let b = pos_of(vs, sol[k - 1].0.v);
        assert(c == join(p, a, b));
        assert forall|x: int| 0 <= x < k implies c[pos_of(vs, #[trigger] sol[x].0.u)] == c[pos_of(vs, sol[x].0.v)] by {
            lemma_ends(vs, sol, x);
        }
        assert(label_set(p).remove(p[b]).subset_of(label_set(c))) by {
            assert forall|l: nat| #[trigger] label_set(p).remove(p[b]).contains(l) implies label_set(c).contains(l) by {
                assert(p.contains(l));
                let i = choose|i: int| 0 <= i < p.len() && p[i] == l;
                assert(c[i] == l);
            }
        }
        assert(label_set(p).contains(p[b])) by {
            assert(p.contains(p[b]));
        }
        vstd::set_lib::lemma_len_subset(label_set(p).remove(p[b]), label_set(c));
    }
}

/// The labels `0..n` are `n` labels.
proof fn lemma_label_set_iota(n: nat)
    ensures
        label_set(Seq::new(n, |i: int| i as nat)).len() == n,
    decreases n,
{
    broadcast use vstd::set::group_set_axioms;

    if n > 0 {
        let l = Seq::new(n, |i: int| i as nat);
        let l2 = Seq::new((n - 1) as nat, |i: int| i as nat);
        assert(l.drop_last() == l2);
        lemma_label_set_iota((n - 1) as nat);
        lemma_label_set(l2);
        assert(!l2.contains((n - 1) as nat)) by {
            if l2.contains((n - 1) as nat) {
                let i = choose|i: int| 0 <= i < l2.len() && l2[i] == (n - 1) as nat;
            }
        }
    }
}


// ------------------------------------------------- components weigh nothing

/// The total weight of the first `k` vertices labelled `c`.
pub open spec fn class_weight(vs: Seq<NamedNode>, labels: Seq<nat>, c: nat, k: nat) -> int
    decreases k,
{
    if k == 0 {
        0
    } else {
        class_weight(vs, labels, c, (k - 1) as nat) + (if labels[k - 1] == c {
            vs[k - 1].weight as int
        } else {
            0
        })
    }
}

/// What the first `k` vertices labelled `c` receive, net, together.
pub open spec fn class_flow(vs: Seq<NamedNode>, labels: Seq<nat>, c: nat, sol: Seq<(Edge, i128)>, k: nat) -> int
    decreases k,
{
    if k == 0 {
        0
    } else {
        class_flow(vs, labels, c, sol, (k - 1) as nat) + (if labels[k - 1] == c {
            net_flow(sol, vs[k - 1].id)
        } else {
            0
        })
    }
}

/// `a` for each of the first `k` vertices labelled `c` whose identifier is `id`.
pub open spec fn class_hits(vs: Seq<NamedNode>, labels: Seq<nat>, c: nat, id: usize, a: int, k: nat) -> int
    decreases k,
{
    if k == 0 {
        0
    } else {
        class_hits(vs, labels, c, id, a, (k - 1) as nat) + (if labels[k - 1] == c && vs[k - 1].id == id {
            a
        } else {
            0
        })
    }
}

pub proof fn lemma_class_weight_flow(vs: Seq<NamedNode>, labels: Seq<nat>, c: nat, sol: Seq<(Edge, i128)>, k: nat)
    requires
        k <= vs.len(),
        balanced(vs, sol),
    ensures
        class_weight(vs, labels, c, k) == class_flow(vs, labels, c, sol, k),
    decreases k,
{
    if k > 0 {
        lemma_class_weight_flow(vs, labels, c, sol, (k - 1) as nat);
        assert(net_flow(sol, vs[k - 1].id) == vs[k - 1].weight);
    }
}

proof fn lemma_class_hits(vs: Seq<NamedNode>, labels: Seq<nat>, c: nat, p: int, a: int, k: nat)
    requires
        ids_distinct(vs),
        0 <= p < vs.len(),
        k <= vs.len(),
    ensures
        class_hits(vs, labels, c, vs[p].id, a, k) == (if p < k && labels[p] == c {
            a
        } else {
            0
        }),
    decreases k,
{
    if k > 0 {
        lemma_class_hits(vs, labels, c, p, a, (k - 1) as nat);
    }
}

proof fn lemma_class_flow_push(
    vs: Seq<NamedNode>,
    labels: Seq<nat>,
    c: nat,
    sol: Seq<(Edge, i128)>,
    t: (Edge, i128),
    k: nat,
)
    requires
        k <= vs.len(),
    ensures
        class_flow(vs, labels, c, sol.push(t), k) == class_flow(vs, labels, c, sol, k) + class_hits(
            vs,
            labels,
            c,
            t.0.u,
            t.1 as int,
            k,
        ) - class_hits(vs, labels, c, t.0.v, t.1 as int, k),
    decreases k,
{
    if k > 0 {
        lemma_class_flow_push(vs, labels, c, sol, t, (k - 1) as nat);
        lemma_net_flow_push(sol, t, vs[k - 1].id);
    }
}

/// Where the ends of every transfer share a label, the vertices of each label
/// receive nothing, net, together.
pub proof fn lemma_class_flow_zero(vs: Seq<NamedNode>, labels: Seq<nat>, c: nat, sol: Seq<(Edge, i128)>)
    requires
        ids_distinct(vs),
        transfers_within(vs, sol),
        forall|x: int| 0 <= x < sol.len() ==> labels[pos_of(vs, #[trigger] sol[x].0.u)] == labels[pos_of(vs, sol[x].0.v)],
    ensures
        class_flow(vs, labels, c, sol, vs.len()) == 0,
    decreases sol.len(),
{
    if sol.len() == 0 {
        lemma_class_flow_empty(vs, labels, c, sol, vs.len());
    } else {
        let s2 = sol.drop_last();
        let t = sol.last();
        assert(transfers_within(vs, s2)) by {
            assert forall|x: int| 0 <= x < s2.len() implies {
                let y = #[trigger] s2[x];
                &&& crate::graph::has_id(vs, y.0.u)
                &&& crate::graph::has_id(vs, y.0.v)
                &&& y.0.u != y.0.v
                &&& y.1 >= 0
            } by {
                assert(s2[x] == sol[x]);
            }
        }
        assert forall|x: int| 0 <= x < s2.len() implies labels[pos_of(vs, #[trigger] s2[x].0.u)] == labels[pos_of(
            vs,
            s2[x].0.v,
        )] by {
            assert(s2[x] == sol[x]);
        }
        lemma_class_flow_zero(vs, labels, c, s2);
        assert(s2.push(t) == sol);
        lemma_class_flow_push(vs, labels, c, s2, t, vs.len());
        lemma_ends(vs, sol, sol.len() - 1);
        assert(sol[sol.len() - 1] == t);
        lemma_class_hits(vs, labels, c, pos_of(vs, t.0.u), t.1 as int, vs.len());
        lemma_class_hits(vs, labels, c, pos_of(vs, t.0.v), t.1 as int, vs.len());
    }
}

proof fn lemma_class_flow_empty(vs: Seq<NamedNode>, labels: Seq<nat>, c: nat, sol: Seq<(Edge, i128)>, k: nat)
    requires
        sol.len() == 0,
    ensures
        class_flow(vs, labels, c, sol, k) == 0,
    decreases k,
{
    if k > 0 {
        lemma_class_flow_empty(vs, labels, c, sol, (k - 1) as nat);
    }
}

/// The components of a settling each weigh nothing.
pub proof fn lemma_components_weigh_nothing(vs: Seq<NamedNode>, sol: Seq<(Edge, i128)>, c: nat)
    requires
        ids_distinct(vs),
        settles(vs, sol),
    ensures
        class_weight(vs, components(vs, sol, sol.len()), c, vs.len()) == 0,
{
    let l = components(vs, sol, sol.len());
    lemma_components(vs, sol, sol.len());
    lemma_class_flow_zero(vs, l, c, sol);
    lemma_class_weight_flow(vs, l, c, sol, vs.len());
}


// -------------------------------------------- components as a partitioning

/// The labels numbered by first appearance: a restricted growth string that
/// groups the first `k` vertices as the labels do.
pub open spec fn canon(labels: Seq<nat>, k: nat) -> Seq<nat>
    decreases k,
{
    if k == 0 {
        Seq::empty()
    } else {
        let prev = canon(labels, (k - 1) as nat);
        let x = labels[k - 1];
        if exists|j: int| 0 <= j < k - 1 && labels[j] == x {
            prev.push(prev[choose|j: int| 0 <= j < k - 1 && labels[j] == x])
        } else {
            prev.push(num_blocks(prev))
        }
    }
}

proof fn lemma_num_blocks_push(r: Seq<nat>, x: nat)
    ensures
        num_blocks(r.push(x)) == (if x + 1 > num_blocks(r) {
            x + 1
        } else {
            num_blocks(r)
        }),
{
    assert(r.push(x).drop_last() == r);
}

proof fn lemma_rgs_push(r: Seq<nat>, x: nat)
    requires
        is_rgs(r),
        x <= num_blocks(r),
    ensures
        is_rgs(r.push(x)),
{
    let q = r.push(x);
    assert forall|i: int| 0 <= i < q.len() implies #[trigger] q[i] <= num_blocks(q.take(i)) by {
        if i < r.len() {
            assert(q.take(i) == r.take(i));
            assert(r[i] <= num_blocks(r.take(i)));
        } else {
            assert(q.take(i) == r);
        }
    }
}

/// The numbering is a restricted growth string with as many blocks as there
/// are labels, and it groups positions exactly as the labels do.
pub proof fn lemma_canon(labels: Seq<nat>, k: nat)
    requires
        k <= labels.len(),
    ensures
        canon(labels, k).len() == k,
        is_rgs(canon(labels, k)),
        forall|i: int, j: int|
            0 <= i < k && 0 <= j < k ==> (#[trigger] canon(labels, k)[i] == #[trigger] canon(labels, k)[j] <==> labels[i]
                == labels[j]),
        forall|i: int| 0 <= i < k ==> #[trigger] canon(labels, k)[i] < num_blocks(canon(labels, k)),
        num_blocks(canon(labels, k)) == label_set(labels.take(k as int)).len(),
        forall|b: nat| b < num_blocks(canon(labels, k)) ==> #[trigger] canon(labels, k).contains(b),
    decreases k,
{
    broadcast use vstd::set::group_set_axioms;

    if k == 0 {
        assert(is_rgs(Seq::<nat>::empty()));
        assert(labels.take(0) =~= Seq::<nat>::empty());
    } else {
        lemma_canon(labels, (k - 1) as nat);
        let prev = canon(labels, (k - 1) as nat);
        let x = labels[k - 1];
        let nb = num_blocks(prev);
        let c = canon(labels, k);
        assert(labels.take(k as int).drop_last() == labels.take(k - 1));
        assert(labels.take(k as int).last() == x);
        lemma_label_set(labels.take(k - 1));
        if exists|j: int| 0 <= j < k - 1 && labels[j] == x {
            let j = choose|j: int| 0 <= j < k - 1 && labels[j] == x;
            let v = prev[j];
            assert(c == prev.push(v));
            lemma_num_blocks_push(prev, v);
            lemma_rgs_push(prev, v);
            assert(labels.take(k - 1)[j] == x);
            assert(label_set(labels.take(k - 1)).contains(x));
            assert forall|i: int, i2: int| 0 <= i < k && 0 <= i2 < k implies (#[trigger] c[i] == #[trigger] c[i2] <==> labels[i]
                == labels[i2]) by {
                if i < k - 1 {
                    assert(c[i] == prev[i]);
                }
                if i2 < k - 1 {
                    assert(c[i2] == prev[i2]);
                }
            }
            assert forall|i: int| 0 <= i < k implies #[trigger] c[i] < num_blocks(c) by {
                if i < k - 1 {
                    assert(c[i] == prev[i]);
                }
            }
            assert forall|b: nat| b < num_blocks(c) implies #[trigger] c.contains(b) by {
                assert(prev.contains(b));
                let i = choose|i: int| 0 <= i < prev.len() && prev[i] == b;
                assert(c[i] == prev[i]);
            }
        } else {
            assert(c == prev.push(nb));
            lemma_num_blocks_push(prev, nb);
            lemma_rgs_push(prev, nb);
            assert(!label_set(labels.take(k - 1)).contains(x)) by {
                let pre = labels.take(k - 1);
                if pre.contains(x) {
                    let j = choose|j: int| 0 <= j < pre.len() && pre[j] == x;
                    assert(labels[j] == x);
                }
            }
            assert forall|i: int, i2: int| 0 <= i < k && 0 <= i2 < k implies (#[trigger] c[i] == #[trigger] c[i2] <==> labels[i]
                == labels[i2]) by {
                if i < k - 1 {
                    assert(c[i] == prev[i]);
                    if i2 == k - 1 {
                        assert(labels[i] != x);
                    }
                }
                if i2 < k - 1 {
                    assert(c[i2] == prev[i2]);
                    if i == k - 1 {
                        assert(labels[i2] != x);
                    }
                }
            }
            assert forall|i: int| 0 <= i < k implies #[trigger] c[i] < num_blocks(c) by {
                if i < k - 1 {
                    assert(c[i] == prev[i]);
                }
            }
            assert forall|b: nat| b < num_blocks(c) implies #[trigger] c.contains(b) by {
                if b < nb {
                    assert(prev.contains(b));
                    let i = choose|i: int| 0 <= i < prev.len() && prev[i] == b;
                    assert(c[i] == prev[i]);
                } else {
                    assert(c[k - 1] == b);
                }
            }
        }
    }
}


// ------------------------------------------------- blocks of a partitioning

/// Every label of a restricted growth string is below its number of blocks.
proof fn lemma_rgs_labels(r: Seq<nat>)
    ensures
        forall|i: int| 0 <= i < r.len() ==> #[trigger] r[i] < num_blocks(r),
    decreases r.len(),
{
    if r.len() > 0 {
        lemma_rgs_labels(r.drop_last());
        assert forall|i: int| 0 <= i < r.len() implies #[trigger] r[i] < num_blocks(r) by {
            if i < r.len() - 1 {
                assert(r[i] == r.drop_last()[i]);
            }
        }
    }
}

pub proof fn lemma_class_weight_prefix(vs: Seq<NamedNode>, l: Seq<nat>, vs2: Seq<NamedNode>, l2: Seq<nat>, c: nat, k: nat)
    requires
        forall|i: int| 0 <= i < k ==> vs[i] == vs2[i] && l[i] == l2[i],
    ensures
        class_weight(vs, l, c, k) == class_weight(vs2, l2, c, k),
    decreases k,
{
    if k > 0 {
        lemma_class_weight_prefix(vs, l, vs2, l2, c, (k - 1) as nat);
    }
}

proof fn lemma_class_weight_same(vs: Seq<NamedNode>, l1: Seq<nat>, c1: nat, l2: Seq<nat>, c2: nat, k: nat)
    requires
        forall|i: int| 0 <= i < k ==> (l1[i] == c1) == (l2[i] == c2),
    ensures
        class_weight(vs, l1, c1, k) == class_weight(vs, l2, c2, k),
    decreases k,
{
    if k > 0 {
        lemma_class_weight_same(vs, l1, c1, l2, c2, (k - 1) as nat);
    }
}

proof fn lemma_class_weight_absent(vs: Seq<NamedNode>, l: Seq<nat>, c: nat, k: nat)
    requires
        forall|i: int| 0 <= i < k ==> l[i] != c,
    ensures
        class_weight(vs, l, c, k) == 0,
    decreases k,
{
    if k > 0 {
        lemma_class_weight_absent(vs, l, c, (k - 1) as nat);
    }
}

/// Block `j` of a partitioning weighs what the items labelled `j` weigh.
pub proof fn lemma_block_weight(items: Seq<NamedNode>, r: Seq<nat>)
    requires
        items.len() == r.len(),
        is_rgs(r),
    ensures
        forall|j: int|
            0 <= j < blocks_of(items, r).len() ==> total_weight(#[trigger] blocks_of(items, r)[j]) == class_weight(
                items,
                r,
                j as nat,
                r.len(),
            ),
    decreases r.len(),
{
    if r.len() > 0 {
        let items2 = items.drop_last();
        let r2 = r.drop_last();
        crate::exact_partitioning::lemma_rgs_drop_last(r);
        lemma_block_weight(items2, r2);
        crate::exact_partitioning::lemma_blocks_len(items2, r2);
        lemma_rgs_labels(r2);
        let b2 = blocks_of(items2, r2);
        let b = blocks_of(items, r);
        let jl = r.last();
        assert forall|j: int| 0 <= j < b.len() implies total_weight(#[trigger] b[j]) == class_weight(items, r, j as nat, r.len()) by {
            assert forall|i: int| 0 <= i < r2.len() implies items[i] == items2[i] && r[i] == r2[i] by {
            }
            lemma_class_weight_prefix(items, r, items2, r2, j as nat, r2.len());
            assert(r[r.len() - 1] == jl);
            assert(items[items.len() - 1] == items.last());
            assert(class_weight(items, r, j as nat, r.len()) == class_weight(items, r, j as nat, r2.len()) + (if jl == j {
                items.last().weight as int
            } else {
                0
            }));
            if jl < b2.len() {
                if j == jl {
                    assert(b[j] == b2[j].push(items.last()));
                    assert(b2[j].push(items.last()).drop_last() == b2[j]);
                } else {
                    assert(b[j] == b2[j]);
                }
            } else {
                if j < b2.len() {
                    assert(b[j] == b2[j]);
                } else {
                    assert(jl <= num_blocks(r2));
                    assert(j == b2.len());
                    assert(b[j] == seq![items.last()]);
                    assert(seq![items.last()].drop_last() =~= Seq::<NamedNode>::empty());
                    assert(total_weight(seq![items.last()]) == total_weight(Seq::<NamedNode>::empty()) + items.last().weight);
                    lemma_class_weight_absent(items2, r2, j as nat, r2.len());
                }
            }
        }
    }
}

/// The sum of the sizes of the blocks.
pub open spec fn blocks_size<A>(p: Seq<Seq<A>>) -> int
    decreases p.len(),
{
    if p.len() == 0 {
        0
    } else {
        blocks_size(p.drop_last()) + p.last().len()
    }
}

proof fn lemma_blocks_size_update<A>(p: Seq<Seq<A>>, j: int, v: Seq<A>)
    requires
        0 <= j < p.len(),
    ensures
        blocks_size(p.update(j, v)) == blocks_size(p) - p[j].len() + v.len(),
    decreases p.len(),
{
    if j < p.len() - 1 {
        assert(p.update(j, v).drop_last() == p.drop_last().update(j, v));
        lemma_blocks_size_update(p.drop_last(), j, v);
    } else {
        assert(p.update(j, v).drop_last() == p.drop_last());
    }
}

/// The blocks of a partitioning hold as many items as there are.
pub proof fn lemma_blocks_size<A>(items: Seq<A>, r: Seq<nat>)
    requires
        items.len() == r.len(),
        is_rgs(r),
    ensures
        blocks_size(blocks_of(items, r)) == items.len(),
    decreases r.len(),
{
    if r.len() > 0 {
        let items2 = items.drop_last();
        let r2 = r.drop_last();
        crate::exact_partitioning::lemma_rgs_drop_last(r);
        lemma_blocks_size(items2, r2);
        let b2 = blocks_of(items2, r2);
        let jl = r.last();
        if jl < b2.len() {
            lemma_blocks_size_update(b2, jl as int, b2[jl as int].push(items.last()));
        } else {
            assert(b2.push(seq![items.last()]).drop_last() == b2);
        }
    }
}

/// Every restricted growth string that extends `r` is listed among its extensions.
pub proof fn lemma_rgs_ext_complete(r: Seq<nat>, t: Seq<nat>)
    requires
        is_rgs(r + t),
    ensures
        rgs_ext(r, t.len()).contains(t),
    decreases t.len(), 1nat,
{
    if t.len() == 0 {
        assert(t =~= Seq::<nat>::empty());
        assert(rgs_ext(r, 0)[0] == t);
    } else {
        let j = t[0];
        let t2 = t.subrange(1, t.len() as int);
        let rt = r + t;
        assert(rt[r.len() as int] == j);
        assert(rt.take(r.len() as int) =~= r);
        assert(rt[r.len() as int] <= num_blocks(rt.take(r.len() as int)));
        assert(j <= num_blocks(r));
        assert(r.push(j) + t2 =~= rt);
        assert(is_rgs(r.push(j) + t2));
        lemma_rgs_ext_complete(r.push(j), t2);
        assert(t =~= seq![j] + t2);
        lemma_rgs_ext_from_contains(r, t.len(), 0, j, t2);
    }
}

proof fn lemma_rgs_ext_from_contains(r: Seq<nat>, m: nat, j0: nat, j: nat, t2: Seq<nat>)
    requires
        m >= 1,
        t2.len() == m - 1,
        j0 <= j <= num_blocks(r),
        rgs_ext(r.push(j), (m - 1) as nat).contains(t2),
    ensures
        rgs_ext_from(r, m, j0).contains(seq![j] + t2),
    decreases num_blocks(r) + 1 - j0,
{
    let a = rgs_ext(r.push(j0), (m - 1) as nat);
    let first = a.map_values(|t: Seq<nat>| seq![j0] + t);
    let rest = rgs_ext_from(r, m, j0 + 1);
    assert(rgs_ext_from(r, m, j0) == first + rest);
    if j0 == j {
        let q = choose|q: int| 0 <= q < a.len() && a[q] == t2;
        assert((first + rest)[q] == seq![j] + t2);
    } else {
        lemma_rgs_ext_from_contains(r, m, j0 + 1, j, t2);
        let q = choose|q: int| 0 <= q < rest.len() && rest[q] == seq![j] + t2;
        assert((first + rest)[first.len() + q] == seq![j] + t2);
    }
}

/// Settling the blocks of a partitioning into nonempty solvable blocks of
/// distinct vertices takes at most one transfer fewer than the vertices of
/// each block.
pub proof fn lemma_partition_transfers_len(m: PartitionSolvingMethod, p: Seq<Seq<NamedNode>>)
    requires
        forall|j: int|
            0 <= j < p.len() ==> solvable(#[trigger] p[j]) && ids_distinct(p[j]) && p[j].len() <= usize::MAX,
    ensures
        partition_transfers(m, p) is Some,
        partition_transfers(m, p)->0.len() <= blocks_size(p) - p.len(),
    decreases p.len(),
{
    if p.len() > 0 {
        let p2 = p.drop_last();
        assert forall|j: int| 0 <= j < p2.len() implies solvable(#[trigger] p2[j]) && ids_distinct(p2[j]) && p2[j].len()
            <= usize::MAX by {
            assert(p2[j] == p[j]);
        }
        lemma_partition_transfers_len(m, p2);
        let b = p.last();
        assert(p[p.len() - 1] == b);
        match m {
            PartitionSolvingMethod::StarExpand => {
                lemma_star_settles(b);
            },
            PartitionSolvingMethod::GreedySatsifaction => {
                lemma_greedy_len(b);
            },
        }
    }
}


// ---------------------------------------------------------- the exact solver

/// The components of a settling, numbered, are a listed partitioning into
/// blocks that can all be settled, with at least `n - t` blocks for `t`
/// transfers.
proof fn lemma_component_partitioning(m: PartitionSolvingMethod, vs: Seq<NamedNode>, sol: Seq<(Edge, i128)>) -> (q: int)
    requires
        ids_distinct(vs),
        vs.len() <= usize::MAX,
        settles(vs, sol),
    ensures
        0 <= q < all_partitionings(vs).len(),
        partition_transfers(m, all_partitionings(vs)[q]) is Some,
        all_partitionings(vs)[q].len() + sol.len() >= vs.len(),
{
    let n = vs.len();
    let l = components(vs, sol, sol.len());
    lemma_components(vs, sol, sol.len());
    lemma_canon(l, n);
    let t = canon(l, n);
    assert(l.take(n as int) == l);
    assert(Seq::<nat>::empty() + t == t);
    lemma_rgs_ext_complete(Seq::<nat>::empty(), t);
    let rs = rgs_ext(Seq::<nat>::empty(), n);
    let q = choose|q: int| 0 <= q < rs.len() && rs[q] == t;
    let ps = all_partitionings(vs);
    assert(ps[q] == blocks_of(vs, t));
    let p = blocks_of(vs, t);
    lemma_blocks_len(vs, t);
    lemma_block_weight(vs, t);
    lemma_blocks_members(vs, t);
    assert forall|j: int| 0 <= j < p.len() implies solvable(#[trigger] p[j]) by {
        assert(t.contains(j as nat));
        let i0 = choose|i: int| 0 <= i < t.len() && t[i] == j as nat;
        assert forall|i: int| 0 <= i < n implies (t[i] == j as nat) == (l[i] == l[i0]) by {
        }
        lemma_class_weight_same(vs, t, j as nat, l, l[i0], n);
        lemma_components_weigh_nothing(vs, sol, l[i0]);
    }
    lemma_partition_transfers_some(m, p);
    q
}

/// What the naive solver returns takes at most one transfer fewer than the
/// vertices of each block of any listed partitioning whose blocks can all be
/// settled.
proof fn lemma_naive_len(m: PartitionSolvingMethod, vs: Seq<NamedNode>, q: int)
    requires
        ids_distinct(vs),
        vs.len() <= usize::MAX,
        0 <= q < all_partitionings(vs).len(),
        partition_transfers(m, all_partitionings(vs)[q]) is Some,
    ensures
        naive_transfers(m, vs) is Some,
        naive_transfers(m, vs)->0.len() + all_partitionings(vs)[q].len() <= vs.len(),
{
    let n = vs.len();
    let ps = all_partitionings(vs);
    let rs = rgs_ext(Seq::<nat>::empty(), n);
    lemma_all_partitionings_blocks(vs);
    let lens = block_counts(ps);
    let order = by_len_desc(lens, n);
    let t = rs[q];
    lemma_blocks_len(vs, t);
    lemma_num_blocks_le(t);
    assert(lens[q] == ps[q].len());
    lemma_by_len_desc_contains(lens, n, q);
    let k = choose|k: int| 0 <= k < order.len() && order[k] == q;
    lemma_first_success_found(m, ps, order, 0, k);
    law_naive_most_blocks(m, vs);
    let qs = choose|qs: int|
        0 <= qs < ps.len() && partition_transfers(m, #[trigger] ps[qs]) == naive_transfers(m, vs) && forall|q2: int|
            0 <= q2 < ps.len() && ps[q2].len() > ps[qs].len() ==> partition_transfers(m, #[trigger] ps[q2]) is None;
    assert(ps[q].len() <= ps[qs].len());
    let ts = rs[qs];
    assert(ps[qs] == blocks_of(vs, ts));
    lemma_partition_transfers_some(m, ps[qs]);
    lemma_rgs_blocks_wf(vs, ts);
    lemma_partition_transfers_len(m, ps[qs]);
    lemma_blocks_size(vs, ts);
}

/// The naive exact solver is exact: it settles every network that some
/// settling settles, with no more transfers than that settling.
pub proof fn law_naive_optimal(m: PartitionSolvingMethod, vs: Seq<NamedNode>, sol: Seq<(Edge, i128)>)
    requires
        ids_distinct(vs),
        vs.len() <= usize::MAX,
        settles(vs, sol),
    ensures
        naive_transfers(m, vs) is Some,
        naive_transfers(m, vs)->0.len() <= sol.len(),
{
    let q = lemma_component_partitioning(m, vs, sol);
    lemma_naive_len(m, vs, q);
}

} // verus!
