//! The exact solver that tries every partitioning of the vertices.
use crate::approximation::{approx_solve, lemma_scheme_settles, scheme_transfers};
use crate::graph::{has_id, ids_distinct, total_weight, Edge, Graph, NamedNode};
use crate::partition::PartitionSolvingMethod;
use crate::probleminstance::{solvable, ProblemInstance};
use crate::solution::{
    balanced, lemma_net_flow_concat, lemma_net_flow_untouched, net_flow, settles, transfers_within,
    untouched, Solution,
};
use vstd::prelude::*;

verus! {

// ------------------------------------------------ restricted growth strings

/// The number of blocks that the labels `r` use: one more than the largest label.
pub open spec fn num_blocks(r: Seq<nat>) -> nat
    decreases r.len(),
{
    if r.len() == 0 {
        0
    } else {
        let b = num_blocks(r.drop_last());
        if r.last() + 1 > b {
            r.last() + 1
        } else {
            b
        }
    }
}

/// `r` labels items by blocks in order of first appearance: every label is at
/// most the number of blocks used before it.
pub open spec fn is_rgs(r: Seq<nat>) -> bool {
    forall|i: int| 0 <= i < r.len() ==> #[trigger] r[i] <= num_blocks(r.take(i))
}

/// The blocks of the partitioning that labels item `i` with block `r[i]`:
/// items keep their order within a block, and blocks are ordered by their
/// first item.
pub open spec fn blocks_of<A>(items: Seq<A>, r: Seq<nat>) -> Seq<Seq<A>>
    decreases r.len(),
{
    if r.len() == 0 || items.len() == 0 {
        Seq::empty()
    } else {
        let b = blocks_of(items.drop_last(), r.drop_last());
        let j = r.last();
        if j < b.len() {
            b.update(j as int, b[j as int].push(items.last()))
        } else {
            b.push(seq![items.last()])
        }
    }
}

/// All restricted growth strings that extend `r` by `m` labels, in
/// lexicographic order.
pub open spec fn rgs_ext(r: Seq<nat>, m: nat) -> Seq<Seq<nat>>
    decreases m, num_blocks(r) + 2,
{
    if m == 0 {
        seq![Seq::empty()]
    } else {
        rgs_ext_from(r, m, 0)
    }
}

/// The extensions of `r` by `m >= 1` labels whose first label is at least `j`.
pub open spec fn rgs_ext_from(r: Seq<nat>, m: nat, j: nat) -> Seq<Seq<nat>>
    decreases m, num_blocks(r) + 1 - j,
{
    if m == 0 || j > num_blocks(r) {
        Seq::empty()
    } else {
        rgs_ext(r.push(j), (m - 1) as nat).map_values(|t: Seq<nat>| seq![j] + t) + rgs_ext_from(
            r,
            m,
            j + 1,
        )
    }
}

/// Every partitioning of `items` into nonempty blocks, each once: the blocks
/// of every restricted growth string of their length, in lexicographic order
/// of the strings.
pub open spec fn all_partitionings<A>(items: Seq<A>) -> Seq<Seq<Seq<A>>> {
    rgs_ext(Seq::empty(), items.len()).map_values(|t: Seq<nat>| blocks_of(items, t))
}

/// A block of references, read as values.
pub open spec fn deref_seq<'a, T>(b: Seq<&'a T>) -> Seq<T> {
    b.map_values(|x: &'a T| *x)
}

/// A partitioning held as blocks of references, read as values.
pub open spec fn blocks_view<'a, T>(p: Seq<Vec<&'a T>>) -> Seq<Seq<T>> {
    p.map_values(|b: Vec<&'a T>| deref_seq(b@))
}

/// A list of partitionings held as blocks of references, read as values.
pub open spec fn partitionings_view<'a, T>(ps: Seq<Vec<Vec<&'a T>>>) -> Seq<Seq<Seq<T>>> {
    ps.map_values(|p: Vec<Vec<&'a T>>| blocks_view(p@))
}

pub proof fn lemma_blocks_len<A>(items: Seq<A>, r: Seq<nat>)
    requires
        items.len() == r.len(),
        is_rgs(r),
    ensures
        blocks_of(items, r).len() == num_blocks(r),
    decreases r.len(),
{
    if r.len() > 0 {
        assert(is_rgs(r.drop_last())) by {
            assert forall|i: int| 0 <= i < r.drop_last().len() implies #[trigger] r.drop_last()[i]
                <= num_blocks(r.drop_last().take(i)) by {
                assert(r.drop_last().take(i) == r.take(i));
                assert(r[i] <= num_blocks(r.take(i)));
            }
        }
        lemma_blocks_len(items.drop_last(), r.drop_last());
        assert(r.take(r.len() - 1) == r.drop_last());
        assert(r[r.len() - 1] <= num_blocks(r.take(r.len() - 1)));
    }
}

/// A copy of the partitioning `head` in which item `x` joins block `i`, or a
/// new block where `i` is the number of blocks.
fn extended<'a, T>(head: &Vec<Vec<&'a T>>, i: usize, x: &'a T) -> (res: Vec<Vec<&'a T>>)
    requires
        i <= head.len(),
    ensures
        blocks_view(res@) == if i < head.len() {
            blocks_view(head@).update(i as int, blocks_view(head@)[i as int].push(*x))
        } else {
            blocks_view(head@).push(seq![*x])
        },
{
    let mut res: Vec<Vec<&'a T>> = Vec::new();
    let mut j: usize = 0;
    while j < head.len()
        invariant
            j <= head.len(),
            i <= head.len(),
            res@.len() == j,
            blocks_view(res@) == (if i < head.len() {
                blocks_view(head@).update(i as int, blocks_view(head@)[i as int].push(*x))
            } else {
                blocks_view(head@)
            }).take(j as int),
        decreases head.len() - j,
    {
        let mut b: Vec<&'a T> = Vec::new();
        let mut k: usize = 0;
        while k < head[j].len()
            invariant
                j < head.len(),
                k <= head[j as int].len(),
                b@.len() == k,
                deref_seq(b@) == deref_seq(head[j as int]@).take(k as int),
            decreases head[j as int].len() - k,
        {
            let ghost old_b = b@;
            let y = head[j][k];
            assert(y == head@[j as int]@[k as int]);
            b.push(y);
            assert(b@ == old_b.push(y));
            k = k + 1;
            assert forall|m: int| 0 <= m < k implies #[trigger] deref_seq(b@)[m] == deref_seq(
                head[j as int]@,
            ).take(k as int)[m] by {
                if m < k - 1 {
                    assert(deref_seq(old_b)[m] == deref_seq(head[j as int]@).take(k - 1)[m]);
                }
            }
            assert(deref_seq(b@) =~= deref_seq(head[j as int]@).take(k as int));
        }
        assert(deref_seq(b@) =~= deref_seq(head[j as int]@));
        let ghost target = if i < head.len() {
            blocks_view(head@).update(i as int, blocks_view(head@)[i as int].push(*x))
        } else {
            blocks_view(head@)
        };
        if j == i {
            b.push(x);
            assert(deref_seq(b@) =~= blocks_view(head@)[i as int].push(*x));
        }
        assert(deref_seq(b@) == target[j as int]);
        let ghost old_res = res@;
        res.push(b);
        j = j + 1;
        assert(res@ == old_res.push(b));
        assert forall|m: int| 0 <= m < j implies #[trigger] blocks_view(res@)[m] == target.take(j as int)[m] by {
            if m < j - 1 {
                assert(blocks_view(old_res)[m] == target.take(j - 1)[m]);
                assert(res@[m] == old_res[m]);
            }
        }
        assert(blocks_view(res@) =~= target.take(j as int));
    }
    if i == head.len() {
        let mut b: Vec<&'a T> = Vec::new();
        b.push(x);
        assert(deref_seq(b@) =~= seq![*x]);
        let ghost old_res = res@;
        res.push(b);
        assert(res@ == old_res.push(b));
        assert forall|m: int| 0 <= m < res@.len() implies #[trigger] blocks_view(res@)[m] == blocks_view(head@).push(seq![*x])[m] by {
            if m < res@.len() - 1 {
                assert(res@[m] == old_res[m]);
                assert(blocks_view(old_res)[m] == blocks_view(head@).take(head.len() as int)[m]);
            }
        }
        assert(blocks_view(res@) =~= blocks_view(head@).push(seq![*x]));
    } else {
        assert(blocks_view(res@) =~= blocks_view(head@).update(i as int, blocks_view(head@)[i as int].push(*x)));
    }
    res
}


/// A restricted growth string uses at most as many blocks as it has labels.
pub proof fn lemma_num_blocks_le(r: Seq<nat>)
    requires
        is_rgs(r),
    ensures
        num_blocks(r) <= r.len(),
    decreases r.len(),
{
    if r.len() > 0 {
        assert(is_rgs(r.drop_last())) by {
            assert forall|i: int| 0 <= i < r.drop_last().len() implies #[trigger] r.drop_last()[i]
                <= num_blocks(r.drop_last().take(i)) by {
                assert(r.drop_last().take(i) == r.take(i));
                assert(r[i] <= num_blocks(r.take(i)));
            }
        }
        lemma_num_blocks_le(r.drop_last());
        assert(r.take(r.len() - 1) == r.drop_last());
        assert(r[r.len() - 1] <= num_blocks(r.take(r.len() - 1)));
    }
}

/// Extending a restricted growth string by a label no larger than its number
/// of blocks gives one again.
proof fn lemma_rgs_push(r: Seq<nat>, j: nat)
    requires
        is_rgs(r),
        j <= num_blocks(r),
    ensures
        is_rgs(r.push(j)),
        num_blocks(r.push(j)) == if j == num_blocks(r) {
            num_blocks(r) + 1
        } else {
            num_blocks(r)
        },
{
    assert(r.push(j).drop_last() == r);
    assert forall|i: int| 0 <= i < r.push(j).len() implies #[trigger] r.push(j)[i] <= num_blocks(
        r.push(j).take(i),
    ) by {
        if i < r.len() {
            assert(r.push(j).take(i) == r.take(i));
            assert(r[i] <= num_blocks(r.take(i)));
        } else {
            assert(r.push(j).take(i) == r);
        }
    }
}

/// The blocks after one more item: the item joins block `j`, or opens it.
proof fn lemma_blocks_push<A>(items: Seq<A>, r: Seq<nat>, k: int, j: nat)
    requires
        0 <= k < items.len(),
        r.len() == k,
    ensures
        blocks_of(items.take(k + 1), r.push(j)) == ({
            let b = blocks_of(items.take(k), r);
            if j < b.len() {
                b.update(j as int, b[j as int].push(items[k]))
            } else {
                b.push(seq![items[k]])
            }
        }),
{
    assert(items.take(k + 1).drop_last() == items.take(k));
    assert(r.push(j).drop_last() == r);
    assert(items.take(k + 1).last() == items[k]);
}

/// Copies a partitioning block by block.
fn copy_blocks<'a, T>(head: &Vec<Vec<&'a T>>) -> (res: Vec<Vec<&'a T>>)
    ensures
        blocks_view(res@) == blocks_view(head@),
{
    let mut res: Vec<Vec<&'a T>> = Vec::new();
    let mut j: usize = 0;
    while j < head.len()
        invariant
            j <= head.len(),
            res@.len() == j,
            blocks_view(res@) == blocks_view(head@).take(j as int),
        decreases head.len() - j,
    {
        let mut b: Vec<&'a T> = Vec::new();
        let mut k: usize = 0;
        while k < head[j].len()
            invariant
                j < head.len(),
                k <= head[j as int].len(),
                b@.len() == k,
                deref_seq(b@) == deref_seq(head[j as int]@).take(k as int),
            decreases head[j as int].len() - k,
        {
            let ghost old_b = b@;
            let y = head[j][k];
            b.push(y);
            k = k + 1;
            assert forall|m: int| 0 <= m < k implies #[trigger] deref_seq(b@)[m] == deref_seq(
                head[j as int]@,
            ).take(k as int)[m] by {
                if m < k - 1 {
                    assert(deref_seq(old_b)[m] == deref_seq(head[j as int]@).take(k - 1)[m]);
                }
            }
            assert(deref_seq(b@) =~= deref_seq(head[j as int]@).take(k as int));
        }
        assert(deref_seq(b@) =~= deref_seq(head[j as int]@));
        let ghost old_res = res@;
        res.push(b);
        j = j + 1;
        assert forall|m: int| 0 <= m < j implies #[trigger] blocks_view(res@)[m] == blocks_view(
            head@,
        ).take(j as int)[m] by {
            if m < j - 1 {
                assert(blocks_view(old_res)[m] == blocks_view(head@).take(j - 1)[m]);
                assert(res@[m] == old_res[m]);
            }
        }
        assert(blocks_view(res@) =~= blocks_view(head@).take(j as int));
    }
    assert(blocks_view(head@).take(j as int) == blocks_view(head@));
    res
}

/// The partitionings of `items` whose first `k` items are placed as the labels
/// `r` place them, in lexicographic order of the labels.
pub open spec fn completions<A>(items: Seq<A>, r: Seq<nat>, ts: Seq<Seq<nat>>) -> Seq<Seq<Seq<A>>> {
    ts.map_values(|t: Seq<nat>| blocks_of(items, r + t))
}

#[verifier::rlimit(100)]
/// Appends to `acc` every partitioning of `items` that places the first `k`
/// items as `head` does, in lexicographic order of their block labels.
fn iterate_all_partitionings<'a, T>(
    head: &Vec<Vec<&'a T>>,
    items: &'a [T],
    k: usize,
    acc: &mut Vec<Vec<Vec<&'a T>>>,
    Ghost(r): Ghost<Seq<nat>>,
)
    requires
        k <= items@.len(),
        r.len() == k,
        is_rgs(r),
        blocks_view(head@) == blocks_of(items@.take(k as int), r),
    ensures
        partitionings_view(final(acc)@) == partitionings_view(old(acc)@) + completions(
            items@,
            r,
            rgs_ext(r, (items@.len() - k) as nat),
        ),
    decreases items@.len() - k,
{
    let ghost m = (items@.len() - k) as nat;
    if k == items.len() {
        let c = copy_blocks(head);
        let ghost old_acc = acc@;
        acc.push(c);
        proof {
            assert(items@.take(k as int) == items@);
            assert(r + Seq::<nat>::empty() == r);
            assert(completions(items@, r, rgs_ext(r, m)) =~= seq![blocks_of(items@, r)]);
            assert(acc@ == old_acc.push(c));
            assert(partitionings_view(acc@) =~= partitionings_view(old_acc) + seq![blocks_of(items@, r)]);
        }
        return;
    }
    let x = &items[k];
    proof {
        lemma_blocks_len(items@.take(k as int), r);
        lemma_num_blocks_le(r);
    }
    let ghost old_acc = acc@;
    let mut i: usize = 0;
    while i <= head.len()
        invariant
            k < items@.len(),
            k < items.len(),
            head@.len() <= k,
            m == items@.len() - k,
            m >= 1,
            r.len() == k,
            is_rgs(r),
            blocks_view(head@) == blocks_of(items@.take(k as int), r),
            head@.len() == num_blocks(r),
            *x == items@[k as int],
            i <= head.len() + 1,
            partitionings_view(acc@) + completions(items@, r, rgs_ext_from(r, m, i as nat))
                == partitionings_view(old_acc) + completions(items@, r, rgs_ext_from(r, m, 0)),
        decreases head.len() + 1 - i,
    {
        let next = extended(head, i, x);
        let ghost rj = r.push(i as nat);
        proof {
            lemma_rgs_push(r, i as nat);
            lemma_blocks_push(items@, r, k as int, i as nat);
        }
        let ghost before = acc@;
        iterate_all_partitionings(&next, items, k + 1, acc, Ghost(rj));
        proof {
            let piece = rgs_ext(rj, (m - 1) as nat).map_values(|t: Seq<nat>| seq![i as nat] + t);
            let rest = rgs_ext_from(r, m, (i + 1) as nat);
            assert(rgs_ext_from(r, m, i as nat) == piece + rest);
            assert(completions(items@, r, piece) =~= completions(items@, rj, rgs_ext(rj, (m - 1) as nat))) by {
                assert forall|q: int| 0 <= q < piece.len() implies r + #[trigger] piece[q] == rj + rgs_ext(rj, (m - 1) as nat)[q] by {
                    assert(r + (seq![i as nat] + rgs_ext(rj, (m - 1) as nat)[q]) =~= rj + rgs_ext(rj, (m - 1) as nat)[q]);
                }
            }
            assert(completions(items@, r, piece + rest) =~= completions(items@, r, piece) + completions(items@, r, rest));
            assert(partitionings_view(acc@) == partitionings_view(before) + completions(items@, rj, rgs_ext(rj, (m - 1) as nat)));
        }
        i = i + 1;
    }
    proof {
        assert(rgs_ext_from(r, m, i as nat) == Seq::<Seq<nat>>::empty());
        assert(completions(items@, r, Seq::<Seq<nat>>::empty()) =~= Seq::<Seq<Seq<T>>>::empty());
        assert(partitionings_view(acc@) + Seq::<Seq<Seq<T>>>::empty() == partitionings_view(acc@));
    }
}

/// Every partitioning of `items` into nonempty blocks, each once, in
/// lexicographic order of the block each item goes to.
pub fn collect_all_partitionigns<'a, T>(items: &'a [T]) -> (res: Vec<Vec<Vec<&'a T>>>)
    ensures
        partitionings_view(res@) == all_partitionings(items@),
{
    let mut acc: Vec<Vec<Vec<&'a T>>> = Vec::new();
    let head: Vec<Vec<&'a T>> = Vec::new();
    proof {
        assert(blocks_view(head@) =~= Seq::<Seq<T>>::empty());
        assert(items@.take(0) =~= Seq::<T>::empty());
        assert(is_rgs(Seq::<nat>::empty()));
    }
    iterate_all_partitionings(&head, items, 0, &mut acc, Ghost(Seq::empty()));
    proof {
        assert(partitionings_view(Seq::<Vec<Vec<&'a T>>>::empty()) =~= Seq::<Seq<Seq<T>>>::empty());
        assert forall|q: int| 0 <= q < rgs_ext(Seq::<nat>::empty(), items@.len()).len() implies Seq::<nat>::empty() + #[trigger] rgs_ext(Seq::<nat>::empty(), items@.len())[q] == rgs_ext(Seq::<nat>::empty(), items@.len())[q] by {
            assert(Seq::<nat>::empty() + rgs_ext(Seq::<nat>::empty(), items@.len())[q] =~= rgs_ext(Seq::<nat>::empty(), items@.len())[q]);
        }
        assert(partitionings_view(acc@) =~= all_partitionings(items@));
    }
    acc
}


// ------------------------------------------------------- solving partitionings

/// The transfers that settle each block of `p` with the scheme `m`, block after
/// block, where every block can be settled.
pub open spec fn partition_transfers(m: PartitionSolvingMethod, p: Seq<Seq<NamedNode>>) -> Option<
    Seq<(Edge, i128)>,
>
    decreases p.len(),
{
    if p.len() == 0 {
        Some(Seq::empty())
    } else {
        match partition_transfers(m, p.drop_last()) {
            Some(a) => if solvable(p.last()) {
                Some(a + scheme_transfers(m, p.last()))
            } else {
                None
            },
            None => None,
        }
    }
}

/// Blocks that share no vertex identifier.
pub open spec fn blocks_disjoint(p: Seq<Seq<NamedNode>>) -> bool {
    forall|j1: int, j2: int, x: int, y: int|
        0 <= j1 < p.len() && 0 <= j2 < p.len() && j1 != j2 && 0 <= x < p[j1].len() && 0 <= y
            < p[j2].len() ==> #[trigger] p[j1][x].id != #[trigger] p[j2][y].id
}

/// Every block has distinct identifiers and fits in memory.
pub open spec fn blocks_wf(p: Seq<Seq<NamedNode>>) -> bool {
    forall|j: int| 0 <= j < p.len() ==> ids_distinct(#[trigger] p[j]) && p[j].len() <= usize::MAX
}

/// `partition_transfers` succeeds exactly when every block is solvable.
pub proof fn lemma_partition_transfers_some(m: PartitionSolvingMethod, p: Seq<Seq<NamedNode>>)
    ensures
        partition_transfers(m, p) is Some <==> forall|j: int| 0 <= j < p.len() ==> solvable(#[trigger] p[j]),
    decreases p.len(),
{
    if p.len() > 0 {
        lemma_partition_transfers_some(m, p.drop_last());
        if partition_transfers(m, p) is Some {
            assert forall|j: int| 0 <= j < p.len() implies solvable(#[trigger] p[j]) by {
                if j < p.len() - 1 {
                    assert(p[j] == p.drop_last()[j]);
                }
            }
        }
        if forall|j: int| 0 <= j < p.len() ==> solvable(#[trigger] p[j]) {
            assert forall|j: int| 0 <= j < p.drop_last().len() implies solvable(#[trigger] p.drop_last()[j]) by {
                assert(p[j] == p.drop_last()[j]);
            }
            assert(solvable(p[p.len() - 1]));
        }
    }
}

/// The transfers of a partitioning into disjoint solvable blocks settle every
/// block and touch no other vertex.
pub proof fn lemma_partition_transfers_settle(m: PartitionSolvingMethod, p: Seq<Seq<NamedNode>>)
    requires
        blocks_wf(p),
        blocks_disjoint(p),
        partition_transfers(m, p) is Some,
    ensures
        ({
            let s = partition_transfers(m, p)->0;
            &&& forall|j: int, x: int|
                0 <= j < p.len() && 0 <= x < p[j].len() ==> net_flow(s, #[trigger] p[j][x].id)
                    == p[j][x].weight
            &&& forall|id: usize|
                (forall|j: int, x: int| 0 <= j < p.len() && 0 <= x < p[j].len() ==> #[trigger] p[j][x].id
                    != id) ==> untouched(s, id)
            &&& forall|k: int|
                0 <= k < s.len() ==> {
                    let t = #[trigger] s[k];
                    &&& t.0.u != t.0.v
                    &&& t.1 >= 0
                    &&& exists|j: int| 0 <= j < p.len() && has_id(p[j], t.0.u) && has_id(p[j], t.0.v)
                }
        }),
    decreases p.len(),
{
    if p.len() > 0 {
        let q = p.drop_last();
        assert(blocks_wf(q)) by {
            assert forall|j: int| 0 <= j < q.len() implies ids_distinct(#[trigger] q[j]) && q[j].len()
                <= usize::MAX by {
                assert(q[j] == p[j]);
            }
        }
        assert(blocks_disjoint(q)) by {
            assert forall|j1: int, j2: int, x: int, y: int|
                0 <= j1 < q.len() && 0 <= j2 < q.len() && j1 != j2 && 0 <= x < q[j1].len() && 0 <= y
                    < q[j2].len() implies #[trigger] q[j1][x].id != #[trigger] q[j2][y].id by {
                assert(q[j1] == p[j1]);
                assert(q[j2] == p[j2]);
                assert(p[j1][x].id != p[j2][y].id);
            }
        }
        lemma_partition_transfers_settle(m, q);
        let a = partition_transfers(m, q)->0;
        let last = p[p.len() - 1];
        assert(last == p.last());
        assert(ids_distinct(last) && last.len() <= usize::MAX);
        lemma_scheme_settles(m, last);
        let t = scheme_transfers(m, last);
        let s = partition_transfers(m, p)->0;
        assert(s == a + t);
        // a foreign identifier is untouched by the last block's transfers
        assert forall|id: usize| (forall|x: int| 0 <= x < last.len() ==> #[trigger] last[x].id != id) implies untouched(
            t,
            id,
        ) by {
            assert forall|k: int| 0 <= k < t.len() implies (#[trigger] t[k]).0.u != id && t[k].0.v != id by {
                assert(transfers_within(last, t));
                let tk = t[k];
                assert(has_id(last, tk.0.u));
                assert(has_id(last, tk.0.v));
            }
        }
        assert forall|j: int, x: int| 0 <= j < p.len() && 0 <= x < p[j].len() implies net_flow(
            s,
            #[trigger] p[j][x].id,
        ) == p[j][x].weight by {
            lemma_net_flow_concat(a, t, p[j][x].id);
            if j < p.len() - 1 {
                assert(p[j] == q[j]);
                assert forall|y: int| 0 <= y < last.len() implies #[trigger] last[y].id != p[j][x].id by {
                    assert(p[p.len() - 1][y].id != p[j][x].id);
                }
                lemma_net_flow_untouched(t, p[j][x].id);
            } else {
                assert forall|j2: int, y: int| 0 <= j2 < q.len() && 0 <= y < q[j2].len() implies #[trigger] q[j2][y].id
                    != p[j][x].id by {
                    assert(q[j2] == p[j2]);
                    assert(p[j2][y].id != p[p.len() - 1][x].id);
                }
                lemma_net_flow_untouched(a, p[j][x].id);
                assert(balanced(last, t));
                assert(net_flow(t, last[x].id) == last[x].weight);
            }
        }
        assert forall|id: usize|
            (forall|j: int, x: int| 0 <= j < p.len() && 0 <= x < p[j].len() ==> #[trigger] p[j][x].id != id) implies untouched(
            s,
            id,
        ) by {
            assert forall|j: int, x: int| 0 <= j < q.len() && 0 <= x < q[j].len() implies #[trigger] q[j][x].id != id by {
                assert(q[j] == p[j]);
                assert(p[j][x].id != id);
            }
            assert forall|x: int| 0 <= x < last.len() implies #[trigger] last[x].id != id by {
                assert(p[p.len() - 1][x].id != id);
            }
            assert forall|k: int| 0 <= k < s.len() implies (#[trigger] s[k]).0.u != id && s[k].0.v != id by {
                if k < a.len() {
                    assert(s[k] == a[k]);
                } else {
                    assert(s[k] == t[k - a.len()]);
                }
            }
        }
        assert forall|k: int| 0 <= k < s.len() implies {
            let tk = #[trigger] s[k];
            &&& tk.0.u != tk.0.v
            &&& tk.1 >= 0
            &&& exists|j: int| 0 <= j < p.len() && has_id(p[j], tk.0.u) && has_id(p[j], tk.0.v)
        } by {
            if k < a.len() {
                assert(s[k] == a[k]);
                let ak = a[k];
                let j = choose|j: int| 0 <= j < q.len() && has_id(q[j], ak.0.u) && has_id(q[j], ak.0.v);
                assert(q[j] == p[j]);
            } else {
                assert(s[k] == t[k - a.len()]);
                assert(transfers_within(last, t));
                let tk = t[k - a.len()];
                assert(has_id(last, tk.0.u));
                assert(has_id(p[p.len() - 1], tk.0.u));
            }
        }
    } else {
        assert(partition_transfers(m, p)->0 == Seq::<(Edge, i128)>::empty());
    }
}


/// The sum over the blocks of their total weight.
pub open spec fn blocks_weight(p: Seq<Seq<NamedNode>>) -> int
    decreases p.len(),
{
    if p.len() == 0 {
        0
    } else {
        blocks_weight(p.drop_last()) + total_weight(p.last())
    }
}

proof fn lemma_blocks_weight_update(p: Seq<Seq<NamedNode>>, j: int, v: Seq<NamedNode>)
    requires
        0 <= j < p.len(),
    ensures
        blocks_weight(p.update(j, v)) == blocks_weight(p) - total_weight(p[j]) + total_weight(v),
    decreases p.len(),
{
    if j < p.len() - 1 {
        assert(p.update(j, v).drop_last() == p.drop_last().update(j, v));
        lemma_blocks_weight_update(p.drop_last(), j, v);
    } else {
        assert(p.update(j, v).drop_last() == p.drop_last());
    }
}

pub proof fn lemma_rgs_drop_last(r: Seq<nat>)
    requires
        is_rgs(r),
        r.len() > 0,
    ensures
        is_rgs(r.drop_last()),
        r.last() <= num_blocks(r.drop_last()),
{
    assert forall|i: int| 0 <= i < r.drop_last().len() implies #[trigger] r.drop_last()[i] <= num_blocks(
        r.drop_last().take(i),
    ) by {
        assert(r.drop_last().take(i) == r.take(i));
        assert(r[i] <= num_blocks(r.take(i)));
    }
    assert(r.take(r.len() - 1) == r.drop_last());
    assert(r[r.len() - 1] <= num_blocks(r.take(r.len() - 1)));
}

/// The blocks of a partitioning are nonempty, hold only items, and hold every item.
pub proof fn lemma_blocks_members<A>(items: Seq<A>, r: Seq<nat>)
    requires
        items.len() == r.len(),
        is_rgs(r),
    ensures
        ({
            let b = blocks_of(items, r);
            &&& forall|j: int| 0 <= j < b.len() ==> (#[trigger] b[j]).len() > 0
            &&& forall|j: int, x: int|
                0 <= j < b.len() && 0 <= x < b[j].len() ==> exists|q: int|
                    0 <= q < items.len() && #[trigger] b[j][x] == items[q]
            &&& forall|q: int|
                0 <= q < items.len() ==> exists|j: int, x: int|
                    0 <= j < b.len() && 0 <= x < b[j].len() && #[trigger] b[j][x] == #[trigger] items[q]
        }),
    decreases r.len(),
{
    if r.len() > 0 {
        let items2 = items.drop_last();
        let r2 = r.drop_last();
        lemma_rgs_drop_last(r);
        lemma_blocks_members(items2, r2);
        lemma_blocks_len(items2, r2);
        let b2 = blocks_of(items2, r2);
        let b = blocks_of(items, r);
        let xn = items.last();
        let n1 = items.len() - 1;
        assert(xn == items[n1]);
        let j0 = r.last();
        assert forall|j: int, x: int| 0 <= j < b.len() && 0 <= x < b[j].len() implies exists|q: int|
            0 <= q < items.len() && #[trigger] b[j][x] == items[q] by {
            if (j0 < b2.len() && j == j0 && x == b2[j].len()) || (j0 >= b2.len() && j == b2.len()) {
                assert(b[j][x] == items[n1]);
            } else {
                assert(b[j][x] == b2[j][x]);
                let q = choose|q: int| 0 <= q < items2.len() && b2[j][x] == items2[q];
                assert(items2[q] == items[q]);
            }
        }
        assert forall|q: int| 0 <= q < items.len() implies exists|j: int, x: int|
            0 <= j < b.len() && 0 <= x < b[j].len() && #[trigger] b[j][x] == #[trigger] items[q] by {
            if q == n1 {
                if j0 < b2.len() {
                    assert(b[j0 as int][b2[j0 as int].len() as int] == items[q]);
                } else {
                    assert(b[b2.len() as int][0] == items[q]);
                }
            } else {
                assert(items2[q] == items[q]);
                let (j, x) = choose|j: int, x: int|
                    0 <= j < b2.len() && 0 <= x < b2[j].len() && b2[j][x] == items2[q];
                assert(b[j][x] == b2[j][x]);
            }
        }
    }
}

/// Where the last item goes: its block, and its place in that block.
pub open spec fn last_slot<A>(items: Seq<A>, r: Seq<nat>) -> (int, int) {
    let b2 = blocks_of(items.drop_last(), r.drop_last());
    if r.last() < b2.len() {
        (r.last() as int, b2[r.last() as int].len() as int)
    } else {
        (b2.len() as int, 0)
    }
}

/// One more item changes the blocks only by placing that item in its slot.
proof fn lemma_blocks_step<A>(items: Seq<A>, r: Seq<nat>)
    requires
        items.len() == r.len(),
        r.len() > 0,
    ensures
        ({
            let b2 = blocks_of(items.drop_last(), r.drop_last());
            let b = blocks_of(items, r);
            let (jn, xn) = last_slot(items, r);
            &&& 0 <= jn < b.len()
            &&& 0 <= xn < b[jn].len()
            &&& b[jn][xn] == items.last()
            &&& b.len() >= b2.len()
            &&& forall|j: int| 0 <= j < b2.len() ==> #[trigger] b[j].len() >= b2[j].len()
            &&& forall|j: int, x: int|
                0 <= j < b.len() && 0 <= x < b[j].len() && !(j == jn && x == xn) ==> 0 <= j < b2.len()
                    && 0 <= x < b2[j].len() && #[trigger] b[j][x] == b2[j][x]
        }),
{
}

/// Within a block, identifiers are distinct.
proof fn lemma_blocks_ids_within(items: Seq<NamedNode>, r: Seq<nat>)
    requires
        items.len() == r.len(),
        is_rgs(r),
        ids_distinct(items),
    ensures
        forall|j: int| 0 <= j < blocks_of(items, r).len() ==> ids_distinct(#[trigger] blocks_of(items, r)[j]),
    decreases r.len(),
{
    if r.len() > 0 {
        let items2 = items.drop_last();
        let r2 = r.drop_last();
        lemma_rgs_drop_last(r);
        assert(ids_distinct(items2));
        lemma_blocks_ids_within(items2, r2);
        lemma_blocks_members(items2, r2);
        lemma_blocks_step(items, r);
        let b2 = blocks_of(items2, r2);
        let b = blocks_of(items, r);
        let (jn, xn) = last_slot(items, r);
        let last = items.last();
        assert(last == items[items.len() - 1]);
        assert forall|j: int| 0 <= j < b.len() implies ids_distinct(#[trigger] b[j]) by {
            assert forall|x: int, y: int| 0 <= x < b[j].len() && 0 <= y < b[j].len() && x != y implies b[j][x].id
                != b[j][y].id by {
                if j == jn && x == xn {
                    assert(b[j][y] == b2[j][y]);
                    let q = choose|q: int| 0 <= q < items2.len() && b2[j][y] == items2[q];
                    assert(items2[q] == items[q]);
                } else if j == jn && y == xn {
                    assert(b[j][x] == b2[j][x]);
                    let q = choose|q: int| 0 <= q < items2.len() && b2[j][x] == items2[q];
                    assert(items2[q] == items[q]);
                } else {
                    assert(b[j][x] == b2[j][x]);
                    assert(b[j][y] == b2[j][y]);
                    assert(ids_distinct(b2[j]));
                }
            }
        }
    }
}

/// Distinct blocks share no identifier.
#[verifier::spinoff_prover]
#[verifier::rlimit(100)]
proof fn lemma_blocks_ids_across(items: Seq<NamedNode>, r: Seq<nat>)
    requires
        items.len() == r.len(),
        is_rgs(r),
        ids_distinct(items),
    ensures
        blocks_disjoint(blocks_of(items, r)),
    decreases r.len(),
{
    if r.len() > 0 {
        let items2 = items.drop_last();
        let r2 = r.drop_last();
        lemma_rgs_drop_last(r);
        assert(ids_distinct(items2));
        lemma_blocks_ids_across(items2, r2);
        lemma_blocks_members(items2, r2);
        lemma_blocks_step(items, r);
        let b2 = blocks_of(items2, r2);
        let b = blocks_of(items, r);
        let (jn, xn) = last_slot(items, r);
        let last = items.last();
        assert(last == items[items.len() - 1]);
        assert forall|j1: int, j2: int, x: int, y: int|
            0 <= j1 < b.len() && 0 <= j2 < b.len() && j1 != j2 && 0 <= x < b[j1].len() && 0 <= y
                < b[j2].len() implies #[trigger] b[j1][x].id != #[trigger] b[j2][y].id by {
            if j1 == jn && x == xn {
                assert(b[j2][y] == b2[j2][y]);
                let q = choose|q: int| 0 <= q < items2.len() && b2[j2][y] == items2[q];
                assert(items2[q] == items[q]);
            } else if j2 == jn && y == xn {
                assert(b[j1][x] == b2[j1][x]);
                let q = choose|q: int| 0 <= q < items2.len() && b2[j1][x] == items2[q];
                assert(items2[q] == items[q]);
            } else {
                assert(b[j1][x] == b2[j1][x]);
                assert(b[j2][y] == b2[j2][y]);
                assert(b2[j1][x].id != b2[j2][y].id);
            }
        }
    }
}

/// The blocks together weigh what the items weigh.
pub proof fn lemma_blocks_weight(items: Seq<NamedNode>, r: Seq<nat>)
    requires
        items.len() == r.len(),
        is_rgs(r),
    ensures
        blocks_weight(blocks_of(items, r)) == total_weight(items),
    decreases r.len(),
{
    if r.len() > 0 {
        let items2 = items.drop_last();
        let r2 = r.drop_last();
        lemma_rgs_drop_last(r);
        lemma_blocks_weight(items2, r2);
        lemma_blocks_len(items2, r2);
        let b2 = blocks_of(items2, r2);
        let b = blocks_of(items, r);
        let xn = items.last();
        let j0 = r.last();
        assert(items.drop_last() == items2);
        assert(total_weight(items) == total_weight(items2) + xn.weight);
        if j0 < b2.len() {
            assert(b == b2.update(j0 as int, b2[j0 as int].push(xn)));
            lemma_blocks_weight_update(b2, j0 as int, b2[j0 as int].push(xn));
            assert(b2[j0 as int].push(xn).drop_last() == b2[j0 as int]);
            assert(total_weight(b2[j0 as int].push(xn)) == total_weight(b2[j0 as int]) + xn.weight);
        } else {
            assert(b == b2.push(seq![xn]));
            assert(seq![xn].drop_last() =~= Seq::<NamedNode>::empty());
            assert(seq![xn].last() == xn);
            assert(total_weight(seq![xn]) == total_weight(Seq::<NamedNode>::empty()) + xn.weight);
            assert(b.drop_last() == b2);
            assert(seq![xn].drop_last() =~= Seq::<NamedNode>::empty());
        }
    } else {
        assert(items =~= Seq::<NamedNode>::empty());
    }
}


/// Settles each block of the partitioning with the scheme `approx_solver` and
/// joins the transfers; `None` as soon as a block cannot be settled. The
/// blocks share no vertex, so no edge carries two transfers.
pub fn partition_solver(partitioning: &Vec<Vec<&NamedNode>>, approx_solver: PartitionSolvingMethod) -> (res:
    Solution)
    requires
        forall|j: int| 0 <= j < partitioning@.len() ==> ids_distinct(#[trigger] blocks_view(partitioning@)[j]),
        blocks_disjoint(blocks_view(partitioning@)),
    ensures
        res matches Some(t) ==> partition_transfers(approx_solver, blocks_view(partitioning@)) == Some(t@),
        res is None ==> partition_transfers(approx_solver, blocks_view(partitioning@)) is None,
        res matches Some(t) ==> crate::solution::edges_distinct(t@),
        res matches Some(t) ==> (approx_solver == PartitionSolvingMethod::GreedySatsifaction ==> 2
            * crate::solution::total_amount(t@) == blocks_abs(blocks_view(partitioning@))),
        res matches Some(t) ==> (approx_solver == PartitionSolvingMethod::StarExpand ==> forall|k: int|
            0 <= k < t@.len() ==> exists|j: int|
                0 <= j < partitioning@.len() && has_id(blocks_view(partitioning@)[j], (#[trigger] t@[k]).0.u) && has_id(
                    blocks_view(partitioning@)[j],
                    t@[k].0.v,
                ) && crate::approximation::touches_heaviest(blocks_view(partitioning@)[j], t@[k])),
{
    let ghost p = blocks_view(partitioning@);
    let mut acc: Vec<(Edge, i128)> = Vec::new();
    let mut i: usize = 0;
    assert(p.take(0) =~= Seq::<Seq<NamedNode>>::empty());
    while i < partitioning.len()
        invariant
            p == blocks_view(partitioning@),
            i <= partitioning.len(),
            forall|j: int| 0 <= j < partitioning@.len() ==> ids_distinct(#[trigger] p[j]),
            partition_transfers(approx_solver, p.take(i as int)) == Some(acc@),
            forall|j: int| 0 <= j < i ==> (#[trigger] p[j]).len() <= usize::MAX,
        decreases partitioning.len() - i,
    {
        let block = &partitioning[i];
        let mut nodes: Vec<NamedNode> = Vec::new();
        let mut k: usize = 0;
        while k < block.len()
            invariant
                k <= block.len(),
                nodes@ == deref_seq(block@).take(k as int),
            decreases block.len() - k,
        {
            nodes.push(block[k].clone());
            k = k + 1;
            assert(nodes@ =~= deref_seq(block@).take(k as int));
        }
        assert(nodes@ =~= deref_seq(block@));
        assert(nodes@ == p[i as int]);
        assert(p[i as int].len() == block.len());
        let instance = ProblemInstance::new(Graph::from_nodes(nodes));
        let result = approx_solve(approx_solver, &instance);
        assert(p.take(i + 1).drop_last() == p.take(i as int));
        assert(p.take(i + 1).last() == p[i as int]);
        match result {
            Some(mut map) => {
                acc.append(&mut map);
            },
            None => {
                proof {
                    lemma_partition_transfers_none_prefix(approx_solver, p, i + 1);
                }
                return None;
            },
        }
        i = i + 1;
    }
    assert(p.take(i as int) == p);
    proof {
        assert(blocks_wf(p));
        lemma_partition_edges(approx_solver, p);
        if approx_solver == PartitionSolvingMethod::GreedySatsifaction {
            law_partition_greedy_amount(p);
        } else {
            law_partition_star_center(p);
        }
    }
    Some(acc)
}

/// A partitioning with an unsolvable prefix has no transfers.
proof fn lemma_partition_transfers_none_prefix(m: PartitionSolvingMethod, p: Seq<Seq<NamedNode>>, k: int)
    requires
        0 <= k <= p.len(),
        partition_transfers(m, p.take(k)) is None,
    ensures
        partition_transfers(m, p) is None,
    decreases p.len() - k,
{
    if k < p.len() {
        assert(p.take(k + 1).drop_last() == p.take(k));
        lemma_partition_transfers_none_prefix(m, p, k + 1);
    } else {
        assert(p.take(k) == p);
    }
}


/// Every extension that `rgs_ext` lists has `m` labels and keeps `r` a
/// restricted growth string.
pub proof fn lemma_rgs_ext_valid(r: Seq<nat>, m: nat)
    requires
        is_rgs(r),
    ensures
        forall|q: int|
            0 <= q < rgs_ext(r, m).len() ==> (#[trigger] rgs_ext(r, m)[q]).len() == m && is_rgs(
                r + rgs_ext(r, m)[q],
            ),
    decreases m, num_blocks(r) + 2,
{
    if m == 0 {
        assert(r + Seq::<nat>::empty() == r);
        assert(rgs_ext(r, m)[0] == Seq::<nat>::empty());
    } else {
        assert(rgs_ext(r, m) == rgs_ext_from(r, m, 0));
        lemma_rgs_ext_from_valid(r, m, 0);
    }
}

proof fn lemma_rgs_ext_from_valid(r: Seq<nat>, m: nat, j: nat)
    requires
        is_rgs(r),
        m >= 1,
    ensures
        forall|q: int|
            0 <= q < rgs_ext_from(r, m, j).len() ==> (#[trigger] rgs_ext_from(r, m, j)[q]).len() == m
                && is_rgs(r + rgs_ext_from(r, m, j)[q]),
    decreases m, num_blocks(r) + 1 - j,
{
    if j <= num_blocks(r) {
        lemma_rgs_push(r, j);
        let rj = r.push(j);
        lemma_rgs_ext_valid(rj, (m - 1) as nat);
        lemma_rgs_ext_from_valid(r, m, j + 1);
        let piece = rgs_ext(rj, (m - 1) as nat).map_values(|t: Seq<nat>| seq![j] + t);
        let rest = rgs_ext_from(r, m, j + 1);
        assert(rgs_ext_from(r, m, j) == piece + rest);
        assert forall|q: int| 0 <= q < (piece + rest).len() implies (#[trigger] (piece + rest)[q]).len() == m
            && is_rgs(r + (piece + rest)[q]) by {
            if q < piece.len() {
                let t = rgs_ext(rj, (m - 1) as nat)[q];
                assert((piece + rest)[q] == seq![j] + t);
                assert(r + (seq![j] + t) =~= rj + t);
            } else {
                assert((piece + rest)[q] == rest[q - piece.len()]);
            }
        }
    }
}

/// `ps[q]` is the partitioning of `items` by the `q`-th restricted growth string.
pub open spec fn listed_by_rgs<A>(items: Seq<A>, ps: Seq<Seq<Seq<A>>>) -> bool {
    &&& ps.len() == rgs_ext(Seq::empty(), items.len()).len()
    &&& forall|q: int|
        0 <= q < ps.len() ==> {
            let t = rgs_ext(Seq::empty(), items.len())[q];
            &&& t.len() == items.len()
            &&& is_rgs(t)
            &&& #[trigger] ps[q] == blocks_of(items, t)
        }
}

/// The partitionings that `collect_all_partitionigns` lists are the blocks of
/// restricted growth strings as long as the items.
pub proof fn lemma_all_partitionings_blocks<A>(items: Seq<A>)
    ensures
        listed_by_rgs(items, all_partitionings(items)),
{
    assert(is_rgs(Seq::<nat>::empty()));
    lemma_rgs_ext_valid(Seq::empty(), items.len());
    assert forall|q: int| 0 <= q < all_partitionings(items).len() implies {
        let t = rgs_ext(Seq::empty(), items.len())[q];
        &&& t.len() == items.len()
        &&& is_rgs(t)
        &&& #[trigger] all_partitionings(items)[q] == blocks_of(items, t)
    } by {
        let t = rgs_ext(Seq::empty(), items.len())[q];
        assert(Seq::<nat>::empty() + t == t);
    }
}

// -------------------------------------------------- the naive exact solver

/// The positions below `k` of the partitionings with `len` blocks, in order.
pub open spec fn with_len(lens: Seq<nat>, len: nat, k: nat) -> Seq<int>
    decreases k,
{
    if k == 0 {
        Seq::empty()
    } else if lens[k - 1] == len {
        with_len(lens, len, (k - 1) as nat).push(k - 1)
    } else {
        with_len(lens, len, (k - 1) as nat)
    }
}

/// The positions of the partitionings by decreasing number of blocks, from
/// `len` down, and by position among equally many blocks (a stable sort).
pub open spec fn by_len_desc(lens: Seq<nat>, len: nat) -> Seq<int>
    decreases len,
{
    if len == 0 {
        with_len(lens, 0, lens.len())
    } else {
        with_len(lens, len, lens.len()) + by_len_desc(lens, (len - 1) as nat)
    }
}

proof fn lemma_with_len_range(lens: Seq<nat>, len: nat, k: nat)
    requires
        k <= lens.len(),
    ensures
        forall|i: int| 0 <= i < with_len(lens, len, k).len() ==> 0 <= #[trigger] with_len(lens, len, k)[i] < k,
    decreases k,
{
    if k > 0 {
        lemma_with_len_range(lens, len, (k - 1) as nat);
        let a = with_len(lens, len, (k - 1) as nat);
        if lens[k - 1] == len {
            assert forall|i: int| 0 <= i < a.push(k - 1).len() implies 0 <= #[trigger] a.push(k - 1)[i] < k by {
                if i < a.len() {
                    assert(a.push(k - 1)[i] == a[i]);
                }
            }
        }
    }
}

/// Every position in the order is a position of a partitioning.
pub proof fn lemma_by_len_desc_range(lens: Seq<nat>, len: nat)
    ensures
        forall|i: int| 0 <= i < by_len_desc(lens, len).len() ==> 0 <= #[trigger] by_len_desc(lens, len)[i] < lens.len(),
    decreases len,
{
    lemma_with_len_range(lens, len, lens.len());
    if len > 0 {
        lemma_by_len_desc_range(lens, (len - 1) as nat);
        let a = with_len(lens, len, lens.len());
        let b = by_len_desc(lens, (len - 1) as nat);
        assert forall|i: int| 0 <= i < (a + b).len() implies 0 <= #[trigger] (a + b)[i] < lens.len() by {
            if i < a.len() {
                assert((a + b)[i] == a[i]);
            } else {
                assert((a + b)[i] == b[i - a.len()]);
            }
        }
    }
}

/// The numbers of blocks of the partitionings.
pub open spec fn block_counts<A>(ps: Seq<Seq<Seq<A>>>) -> Seq<nat> {
    ps.map_values(|p: Seq<Seq<A>>| p.len())
}

/// The transfers of the first partitioning, in `order` from `i` on, whose
/// blocks can all be settled.
pub open spec fn first_success(
    m: PartitionSolvingMethod,
    ps: Seq<Seq<Seq<NamedNode>>>,
    order: Seq<int>,
    i: nat,
) -> Option<Seq<(Edge, i128)>>
    decreases order.len() - i,
{
    if i >= order.len() {
        None
    } else {
        match partition_transfers(m, ps[order[i as int]]) {
            Some(t) => Some(t),
            None => first_success(m, ps, order, i + 1),
        }
    }
}

/// What the naive exact solver returns: partitionings are tried by decreasing
/// number of blocks, and the first whose blocks can all be settled is settled.
pub open spec fn naive_transfers(m: PartitionSolvingMethod, vs: Seq<NamedNode>) -> Option<Seq<(Edge, i128)>> {
    let ps = all_partitionings(vs);
    first_success(m, ps, by_len_desc(block_counts(ps), vs.len()), 0)
}

/// The positions of the partitionings with `len` blocks, in order.
fn positions_with_len<'a, T>(ps: &Vec<Vec<Vec<&'a T>>>, len: usize) -> (res: Vec<usize>)
    ensures
        res@.map_values(|q: usize| q as int) == with_len(block_counts(partitionings_view(ps@)), len as nat, ps@.len()),
{
    let ghost lens = block_counts(partitionings_view(ps@));
    let mut res: Vec<usize> = Vec::new();
    let mut q: usize = 0;
    while q < ps.len()
        invariant
            q <= ps.len(),
            lens == block_counts(partitionings_view(ps@)),
            res@.map_values(|x: usize| x as int) == with_len(lens, len as nat, q as nat),
        decreases ps.len() - q,
    {
        assert(lens[q as int] == ps@[q as int]@.len());
        if ps[q].len() == len {
            res.push(q);
        }
        q = q + 1;
        assert(res@.map_values(|x: usize| x as int) =~= with_len(lens, len as nat, q as nat));
    }
    res
}

/// Tries the partitionings of the vertices by decreasing number of blocks and
/// settles the first whose blocks all have zero weight, each block with
/// `approx_solver`.
pub fn naive_all_partitioning(instance: &ProblemInstance, approx_solver: PartitionSolvingMethod) -> (res: Solution)
    ensures
        res matches Some(t) ==> naive_transfers(approx_solver, instance.vs()) == Some(t@),
        res is None ==> naive_transfers(approx_solver, instance.vs()) is None,
        res matches Some(t) ==> settles(instance.vs(), t@),
        res is Some <==> (instance.vs().len() == 0 || solvable(instance.vs())),
        res matches Some(t) ==> forall|sol: Seq<(Edge, i128)>| #[trigger] settles(instance.vs(), sol) ==> t@.len() <= sol.len(),
        res matches Some(t) ==> crate::solution::edges_distinct(t@),
        res matches Some(t) ==> (approx_solver == PartitionSolvingMethod::GreedySatsifaction ==> 2
            * crate::solution::total_amount(t@) == crate::graph::total_abs_weight(instance.vs())),
        res matches Some(t) ==> (approx_solver == PartitionSolvingMethod::StarExpand ==> star_settling(instance.vs(), t@)),
{
    let vs = instance.graph().vertices();
    let res = naive_all_partitioning_nodes(vs, approx_solver);
    proof {
        assert(vs@.len() == vs.len());
        law_naive_succeeds(approx_solver, instance.vs());
        if res is Some {
            lemma_naive_settles(approx_solver, instance.vs());
        }
        assert forall|sol: Seq<(Edge, i128)>| #[trigger] settles(instance.vs(), sol) implies naive_transfers(
            approx_solver,
            instance.vs(),
        )->0.len() <= sol.len() by {
            crate::optimality::law_naive_optimal(approx_solver, instance.vs(), sol);
        }
    }
    res
}

/// Tries the partitionings of `vs` by decreasing number of blocks and settles
/// the first whose blocks all have zero weight, each block with `approx_solver`.
pub fn naive_all_partitioning_nodes(vs: &Vec<NamedNode>, approx_solver: PartitionSolvingMethod) -> (res: Solution)
    requires
        ids_distinct(vs@),
    ensures
        res matches Some(t) ==> naive_transfers(approx_solver, vs@) == Some(t@),
        res is None ==> naive_transfers(approx_solver, vs@) is None,
        res matches Some(t) ==> settles(vs@, t@),
{
    let partitionings = collect_all_partitionigns(vs.as_slice());
    let ghost ps = all_partitionings(vs@);
    let ghost lens = block_counts(ps);
    let n = vs.len();
    let mut order: Vec<usize> = Vec::new();
    let mut len: usize = n;
    while len > 0
        invariant
            len <= n,
            n == vs@.len(),
            partitionings_view(partitionings@) == ps,
            lens == block_counts(ps),
            order@.map_values(|x: usize| x as int) + by_len_desc(lens, len as nat) == by_len_desc(lens, n as nat),
        decreases len,
    {
        let mut bucket = positions_with_len(&partitionings, len);
        let ghost before = order@;
        let ghost b = bucket@;
        order.append(&mut bucket);
        assert(order@.map_values(|x: usize| x as int) =~= before.map_values(|x: usize| x as int) + b.map_values(|x: usize| x as int));
        len = len - 1;
    }
    let mut bucket = positions_with_len(&partitionings, 0);
    let ghost before = order@;
    let ghost b = bucket@;
    order.append(&mut bucket);
    assert(order@.map_values(|x: usize| x as int) =~= before.map_values(|x: usize| x as int) + b.map_values(|x: usize| x as int));
    let ghost ord = by_len_desc(lens, n as nat);
    assert(order@.map_values(|x: usize| x as int) == ord);
    proof {
        lemma_all_partitionings_blocks(vs@);
        lemma_by_len_desc_range(lens, n as nat);
        assert(listed_by_rgs(vs@, ps));
    }
    let mut k: usize = 0;
    while k < order.len()
        invariant
            k <= order.len(),
            order@.map_values(|x: usize| x as int) == ord,
            partitionings_view(partitionings@) == ps,
            ps == all_partitionings(vs@),
            ids_distinct(vs@),
            listed_by_rgs(vs@, ps),
            ps.len() == partitionings@.len(),
            lens == block_counts(ps),
            ord == by_len_desc(lens, n as nat),
            n == vs@.len(),
            forall|i: int| 0 <= i < ord.len() ==> 0 <= #[trigger] ord[i] < lens.len(),
            first_success(approx_solver, ps, ord, 0) == first_success(approx_solver, ps, ord, k as nat),
        decreases order.len() - k,
    {
        let q = order[k];
        assert(ord[k as int] == q as int);
        proof {
            assert(lens.len() == partitionings@.len());
        }
        proof {
            let t = rgs_ext(Seq::empty(), vs@.len())[q as int];
            lemma_blocks_ids_within(vs@, t);
            assert(blocks_view(partitionings@[q as int]@) == ps[q as int]);
            assert(vs@.len() == vs.len());
            lemma_rgs_blocks_wf(vs@, t);
            assert(ord[k as int] == q as int);
        }
        match partition_solver(&partitionings[q], approx_solver) {
            Some(sol) => {
                assert(first_success(approx_solver, ps, ord, k as nat) == Some(sol@));
                assert(naive_transfers(approx_solver, vs@) == first_success(approx_solver, ps, ord, 0));
                proof {
                    assert(vs@.len() == vs.len());
                    lemma_naive_settles(approx_solver, vs@);
                }
                return Some(sol);
            },
            None => {},
        }
        k = k + 1;
    }
    assert(naive_transfers(approx_solver, vs@) == first_success(approx_solver, ps, ord, 0));
    None
}


/// No block is longer than the items it partitions.
proof fn lemma_blocks_short<A>(items: Seq<A>, r: Seq<nat>)
    requires
        items.len() == r.len(),
    ensures
        forall|j: int| 0 <= j < blocks_of(items, r).len() ==> (#[trigger] blocks_of(items, r)[j]).len() <= r.len(),
    decreases r.len(),
{
    if r.len() > 0 {
        lemma_blocks_short(items.drop_last(), r.drop_last());
        let b2 = blocks_of(items.drop_last(), r.drop_last());
        let b = blocks_of(items, r);
        assert forall|j: int| 0 <= j < b.len() implies (#[trigger] b[j]).len() <= r.len() by {
            if j < b2.len() {
                assert(b2[j].len() <= r.len() - 1);
            }
        }
    }
}

/// The partitioning of `vs` by the labels `t` is disjoint, well formed, and
/// covers `vs`.
pub proof fn lemma_rgs_blocks_wf(vs: Seq<NamedNode>, t: Seq<nat>)
    requires
        vs.len() == t.len(),
        is_rgs(t),
        ids_distinct(vs),
        vs.len() <= usize::MAX,
    ensures
        blocks_wf(blocks_of(vs, t)),
        blocks_disjoint(blocks_of(vs, t)),
{
    lemma_blocks_ids_within(vs, t);
    lemma_blocks_ids_across(vs, t);
    lemma_blocks_short(vs, t);
}

proof fn lemma_covered_balanced(vs: Seq<NamedNode>, p: Seq<Seq<NamedNode>>, s: Seq<(Edge, i128)>)
    requires
        forall|q: int|
            0 <= q < vs.len() ==> exists|j: int, x: int|
                0 <= j < p.len() && 0 <= x < p[j].len() && #[trigger] p[j][x] == #[trigger] vs[q],
        forall|j: int, x: int|
            0 <= j < p.len() && 0 <= x < p[j].len() ==> net_flow(s, #[trigger] p[j][x].id) == p[j][x].weight,
    ensures
        balanced(vs, s),
{
    assert forall|i: int| 0 <= i < vs.len() implies net_flow(s, #[trigger] vs[i].id) == vs[i].weight by {
        let (j, x) = choose|j: int, x: int|
            0 <= j < p.len() && 0 <= x < p[j].len() && #[trigger] p[j][x] == #[trigger] vs[i];
        assert(net_flow(s, p[j][x].id) == p[j][x].weight);
    }
}

pub proof fn lemma_covered_within(vs: Seq<NamedNode>, p: Seq<Seq<NamedNode>>, s: Seq<(Edge, i128)>)
    requires
        forall|j: int, x: int|
            0 <= j < p.len() && 0 <= x < p[j].len() ==> exists|q: int|
                0 <= q < vs.len() && #[trigger] p[j][x] == vs[q],
        forall|k: int|
            0 <= k < s.len() ==> {
                let t = #[trigger] s[k];
                &&& t.0.u != t.0.v
                &&& t.1 >= 0
                &&& exists|j: int| 0 <= j < p.len() && has_id(p[j], t.0.u) && has_id(p[j], t.0.v)
            },
    ensures
        transfers_within(vs, s),
{
    assert forall|k: int| 0 <= k < s.len() implies {
        let x = #[trigger] s[k];
        &&& has_id(vs, x.0.u)
        &&& has_id(vs, x.0.v)
        &&& x.0.u != x.0.v
        &&& x.1 >= 0
    } by {
        let x = s[k];
        let j = choose|j: int| 0 <= j < p.len() && has_id(p[j], x.0.u) && has_id(p[j], x.0.v);
        let a = choose|a: int| 0 <= a < p[j].len() && p[j][a].id == x.0.u;
        let b = choose|b: int| 0 <= b < p[j].len() && p[j][b].id == x.0.v;
        let qa = choose|q: int| 0 <= q < vs.len() && p[j][a] == vs[q];
        let qb = choose|q: int| 0 <= q < vs.len() && p[j][b] == vs[q];
        assert(vs[qa].id == x.0.u);
        assert(vs[qb].id == x.0.v);
    }
}

/// Settling every block of a partitioning of `vs` settles `vs`.
pub proof fn lemma_rgs_partition_settles(m: PartitionSolvingMethod, vs: Seq<NamedNode>, t: Seq<nat>)
    requires
        vs.len() == t.len(),
        is_rgs(t),
        ids_distinct(vs),
        vs.len() <= usize::MAX,
        partition_transfers(m, blocks_of(vs, t)) is Some,
    ensures
        settles(vs, partition_transfers(m, blocks_of(vs, t))->0),
{
    let p = blocks_of(vs, t);
    lemma_rgs_blocks_wf(vs, t);
    lemma_blocks_members(vs, t);
    lemma_partition_transfers_settle(m, p);
    let s = partition_transfers(m, p)->0;
    lemma_covered_balanced(vs, p, s);
    lemma_covered_within(vs, p, s);
}

/// What `first_success` returns is the transfers of some partitioning it tried.
pub proof fn lemma_first_success_some(
    m: PartitionSolvingMethod,
    ps: Seq<Seq<Seq<NamedNode>>>,
    order: Seq<int>,
    i: nat,
)
    requires
        first_success(m, ps, order, i) is Some,
    ensures
        exists|k: int|
            i <= k < order.len() && partition_transfers(m, ps[#[trigger] order[k]]) == first_success(m, ps, order, i),
    decreases order.len() - i,
{
    if partition_transfers(m, ps[order[i as int]]) is None {
        lemma_first_success_some(m, ps, order, i + 1);
        let k = choose|k: int|
            i + 1 <= k < order.len() && partition_transfers(m, ps[#[trigger] order[k]]) == first_success(
                m,
                ps,
                order,
                i + 1,
            );
    } else {
        assert(partition_transfers(m, ps[order[i as int]]) == first_success(m, ps, order, i));
    }
}

/// The naive exact solver's transfers settle the network.
pub proof fn lemma_naive_settles(m: PartitionSolvingMethod, vs: Seq<NamedNode>)
    requires
        ids_distinct(vs),
        vs.len() <= usize::MAX,
        naive_transfers(m, vs) is Some,
    ensures
        settles(vs, naive_transfers(m, vs)->0),
        crate::solution::edges_distinct(naive_transfers(m, vs)->0),
        m == PartitionSolvingMethod::GreedySatsifaction ==> 2 * crate::solution::total_amount(naive_transfers(m, vs)->0)
            == crate::graph::total_abs_weight(vs),
        m == PartitionSolvingMethod::StarExpand ==> star_settling(vs, naive_transfers(m, vs)->0),
{
    let ps = all_partitionings(vs);
    let order = by_len_desc(block_counts(ps), vs.len());
    lemma_first_success_some(m, ps, order, 0);
    let k = choose|k: int| 0 <= k < order.len() && partition_transfers(m, ps[#[trigger] order[k]]) == first_success(m, ps, order, 0);
    lemma_by_len_desc_range(block_counts(ps), vs.len());
    lemma_all_partitionings_blocks(vs);
    let q = order[k];
    let t = rgs_ext(Seq::empty(), vs.len())[q];
    assert(ps[q] == blocks_of(vs, t));
    lemma_rgs_partition_settles(m, vs, t);
    lemma_rgs_blocks_wf(vs, t);
    lemma_partition_edges(m, ps[q]);
    lemma_blocks_members(vs, t);
    if m == PartitionSolvingMethod::GreedySatsifaction {
        law_greedy_blocks_settling_amount(vs, ps[q]);
    } else {
        lemma_star_settling_of(vs, ps[q]);
    }
}


// ------------------------------------------------ when the naive solver succeeds

/// `m` labels, all zero.
pub open spec fn zeros(m: nat) -> Seq<nat> {
    Seq::new(m, |i: int| 0nat)
}

/// The first extension of `r` by `m` labels labels every new item with the first block.
proof fn lemma_rgs_ext_first(r: Seq<nat>, m: nat)
    ensures
        rgs_ext(r, m).len() > 0,
        rgs_ext(r, m)[0] == zeros(m),
    decreases m,
{
    if m == 0 {
        assert(zeros(0) =~= Seq::<nat>::empty());
    } else {
        lemma_rgs_ext_first(r.push(0), (m - 1) as nat);
        let a = rgs_ext(r.push(0), (m - 1) as nat);
        let first = a.map_values(|t: Seq<nat>| seq![0nat] + t);
        let rest = rgs_ext_from(r, m, 1);
        assert(rgs_ext_from(r, m, 0) == first + rest);
        assert((first + rest)[0] == first[0]);
        assert(seq![0nat] + zeros((m - 1) as nat) =~= zeros(m));
    }
}

/// Labelling every item with the first block gives the one block of all items.
proof fn lemma_blocks_of_zeros<A>(items: Seq<A>)
    requires
        items.len() > 0,
    ensures
        blocks_of(items, zeros(items.len())) == seq![items],
    decreases items.len(),
{
    let r = zeros(items.len());
    assert(r.drop_last() =~= zeros((items.len() - 1) as nat));
    if items.len() == 1 {
        assert(items.drop_last() =~= Seq::<A>::empty());
        assert(blocks_of(items.drop_last(), r.drop_last()) == Seq::<Seq<A>>::empty());
        assert(seq![items.last()] =~= items);
    } else {
        lemma_blocks_of_zeros(items.drop_last());
        assert(items.drop_last().push(items.last()) =~= items);
    }
}

proof fn lemma_with_len_contains(lens: Seq<nat>, len: nat, k: nat, q: int)
    requires
        0 <= q < k <= lens.len(),
        lens[q] == len,
    ensures
        with_len(lens, len, k).contains(q),
    decreases k,
{
    let a = with_len(lens, len, (k - 1) as nat);
    if q == k - 1 {
        assert(a.push(k - 1)[a.len() as int] == q);
    } else {
        lemma_with_len_contains(lens, len, (k - 1) as nat, q);
        if lens[k - 1] == len {
            let x = choose|x: int| 0 <= x < a.len() && a[x] == q;
            assert(a.push(k - 1)[x] == q);
        }
    }
}

pub proof fn lemma_by_len_desc_contains(lens: Seq<nat>, len: nat, q: int)
    requires
        0 <= q < lens.len(),
        lens[q] <= len,
    ensures
        by_len_desc(lens, len).contains(q),
    decreases len,
{
    if lens[q] == len {
        lemma_with_len_contains(lens, len, lens.len(), q);
        if len > 0 {
            let a = with_len(lens, len, lens.len());
            let b = by_len_desc(lens, (len - 1) as nat);
            let x = choose|x: int| 0 <= x < a.len() && a[x] == q;
            assert((a + b)[x] == q);
        }
    } else {
        lemma_by_len_desc_contains(lens, (len - 1) as nat, q);
        let a = with_len(lens, len, lens.len());
        let b = by_len_desc(lens, (len - 1) as nat);
        let x = choose|x: int| 0 <= x < b.len() && b[x] == q;
        assert((a + b)[a.len() + x] == q);
    }
}

pub proof fn lemma_first_success_found(
    m: PartitionSolvingMethod,
    ps: Seq<Seq<Seq<NamedNode>>>,
    order: Seq<int>,
    i: nat,
    k: int,
)
    requires
        i <= k < order.len(),
        partition_transfers(m, ps[order[k]]) is Some,
    ensures
        first_success(m, ps, order, i) is Some,
    decreases order.len() - i,
{
    if i < k && partition_transfers(m, ps[order[i as int]]) is None {
        lemma_first_success_found(m, ps, order, i + 1, k);
    }
}

proof fn lemma_first_success_none(m: PartitionSolvingMethod, ps: Seq<Seq<Seq<NamedNode>>>, order: Seq<int>, i: nat)
    requires
        forall|k: int| i <= k < order.len() ==> partition_transfers(m, ps[#[trigger] order[k]]) is None,
    ensures
        first_success(m, ps, order, i) is None,
    decreases order.len() - i,
{
    if i < order.len() {
        lemma_first_success_none(m, ps, order, i + 1);
    }
}

/// Blocks that are all settled add up to zero weight.
proof fn lemma_blocks_weight_zero(p: Seq<Seq<NamedNode>>)
    requires
        forall|j: int| 0 <= j < p.len() ==> solvable(#[trigger] p[j]),
    ensures
        blocks_weight(p) == 0,
    decreases p.len(),
{
    if p.len() > 0 {
        assert forall|j: int| 0 <= j < p.drop_last().len() implies solvable(#[trigger] p.drop_last()[j]) by {
            assert(p.drop_last()[j] == p[j]);
        }
        lemma_blocks_weight_zero(p.drop_last());
        assert(solvable(p[p.len() - 1]));
    }
}

/// The naive exact solver finds a solution exactly when the network is empty
/// or its weights add up to zero.
pub proof fn law_naive_succeeds(m: PartitionSolvingMethod, vs: Seq<NamedNode>)
    ensures
        naive_transfers(m, vs) is Some <==> (vs.len() == 0 || solvable(vs)),
{
    let ps = all_partitionings(vs);
    let lens = block_counts(ps);
    let order = by_len_desc(lens, vs.len());
    lemma_all_partitionings_blocks(vs);
    lemma_rgs_ext_first(Seq::<nat>::empty(), vs.len());
    assert(ps[0] == blocks_of(vs, zeros(vs.len())));
    if vs.len() == 0 {
        assert(blocks_of(vs, zeros(0)) == Seq::<Seq<NamedNode>>::empty());
        assert(lens[0] == 0);
        lemma_by_len_desc_contains(lens, 0, 0);
        let k = choose|k: int| 0 <= k < order.len() && order[k] == 0;
        assert(partition_transfers(m, ps[order[k]]) is Some);
        lemma_first_success_found(m, ps, order, 0, k);
    } else if solvable(vs) {
        lemma_blocks_of_zeros(vs);
        assert(lens[0] == 1);
        lemma_by_len_desc_contains(lens, vs.len(), 0);
        let k = choose|k: int| 0 <= k < order.len() && order[k] == 0;
        lemma_partition_transfers_some(m, seq![vs]);
        assert(seq![vs][0] == vs);
        lemma_first_success_found(m, ps, order, 0, k);
    } else {
        lemma_by_len_desc_range(lens, vs.len());
        assert forall|k: int| 0 <= k < order.len() implies partition_transfers(m, ps[#[trigger] order[k]]) is None by {
            let q = order[k];
            let t = rgs_ext(Seq::empty(), vs.len())[q];
            lemma_partition_transfers_some(m, ps[q]);
            if partition_transfers(m, ps[q]) is Some {
                lemma_blocks_weight_zero(ps[q]);
                lemma_blocks_weight(vs, t);
            }
        }
        lemma_first_success_none(m, ps, order, 0);
    }
}


// ------------------------------------------------ the naive solver's choice

proof fn lemma_with_len_lens(lens: Seq<nat>, len: nat, k: nat)
    requires
        k <= lens.len(),
    ensures
        forall|i: int| 0 <= i < with_len(lens, len, k).len() ==> lens[#[trigger] with_len(lens, len, k)[i]] == len,
    decreases k,
{
    if k > 0 {
        lemma_with_len_lens(lens, len, (k - 1) as nat);
        let a = with_len(lens, len, (k - 1) as nat);
        if lens[k - 1] == len {
            assert forall|i: int| 0 <= i < a.push(k - 1).len() implies lens[#[trigger] a.push(k - 1)[i]] == len by {
                if i < a.len() {
                    assert(a.push(k - 1)[i] == a[i]);
                }
            }
        }
    }
}

/// The order lists positions by decreasing number of blocks, none above `len`.
proof fn lemma_by_len_desc_sorted(lens: Seq<nat>, len: nat)
    ensures
        forall|a: int, b: int|
            0 <= a < b < by_len_desc(lens, len).len() ==> lens[#[trigger] by_len_desc(lens, len)[a]] >= lens[#[trigger] by_len_desc(
                lens,
                len,
            )[b]],
        forall|a: int| 0 <= a < by_len_desc(lens, len).len() ==> lens[#[trigger] by_len_desc(lens, len)[a]] <= len,
    decreases len,
{
    lemma_with_len_lens(lens, len, lens.len());
    if len > 0 {
        lemma_by_len_desc_sorted(lens, (len - 1) as nat);
        let x = with_len(lens, len, lens.len());
        let y = by_len_desc(lens, (len - 1) as nat);
        assert forall|a: int| 0 <= a < (x + y).len() implies lens[#[trigger] (x + y)[a]] <= len by {
            if a < x.len() {
                assert((x + y)[a] == x[a]);
            } else {
                assert((x + y)[a] == y[a - x.len()]);
            }
        }
        assert forall|a: int, b: int| 0 <= a < b < (x + y).len() implies lens[#[trigger] (x + y)[a]] >= lens[#[trigger] (x
            + y)[b]] by {
            if b < x.len() {
                assert((x + y)[a] == x[a] && (x + y)[b] == x[b]);
            } else if a < x.len() {
                assert((x + y)[a] == x[a] && (x + y)[b] == y[b - x.len()]);
            } else {
                assert((x + y)[a] == y[a - x.len()] && (x + y)[b] == y[b - x.len()]);
            }
        }
    }
}

/// The first success is the transfers of the first partitioning tried that
/// succeeds: all tried before it fail.
proof fn lemma_first_success_first(
    m: PartitionSolvingMethod,
    ps: Seq<Seq<Seq<NamedNode>>>,
    order: Seq<int>,
    i: nat,
)
    requires
        first_success(m, ps, order, i) is Some,
    ensures
        exists|k: int|
            i <= k < order.len() && partition_transfers(m, ps[#[trigger] order[k]]) == first_success(m, ps, order, i)
                && forall|k2: int| i <= k2 < k ==> partition_transfers(m, ps[#[trigger] order[k2]]) is None,
    decreases order.len() - i,
{
    if partition_transfers(m, ps[order[i as int]]) is None {
        lemma_first_success_first(m, ps, order, i + 1);
        let k = choose|k: int|
            i + 1 <= k < order.len() && partition_transfers(m, ps[#[trigger] order[k]]) == first_success(m, ps, order, i + 1)
                && forall|k2: int| i + 1 <= k2 < k ==> partition_transfers(m, ps[#[trigger] order[k2]]) is None;
        assert forall|k2: int| i <= k2 < k implies partition_transfers(m, ps[#[trigger] order[k2]]) is None by {
        }
    } else {
        assert(forall|k2: int| i <= k2 < i ==> partition_transfers(m, ps[#[trigger] order[k2]]) is None);
    }
}

/// The naive solver settles a partitioning with the most blocks among those
/// whose blocks can all be settled: every partitioning with more blocks fails.
pub proof fn law_naive_most_blocks(m: PartitionSolvingMethod, vs: Seq<NamedNode>)
    requires
        naive_transfers(m, vs) is Some,
    ensures
        exists|q: int|
            0 <= q < all_partitionings(vs).len() && partition_transfers(m, #[trigger] all_partitionings(vs)[q])
                == naive_transfers(m, vs) && forall|q2: int|
                0 <= q2 < all_partitionings(vs).len() && all_partitionings(vs)[q2].len() > all_partitionings(vs)[q].len()
                    ==> partition_transfers(m, #[trigger] all_partitionings(vs)[q2]) is None,
{
    let ps = all_partitionings(vs);
    let lens = block_counts(ps);
    let order = by_len_desc(lens, vs.len());
    lemma_first_success_first(m, ps, order, 0);
    let k = choose|k: int|
        0 <= k < order.len() && partition_transfers(m, ps[#[trigger] order[k]]) == first_success(m, ps, order, 0)
            && forall|k2: int| 0 <= k2 < k ==> partition_transfers(m, ps[#[trigger] order[k2]]) is None;
    lemma_by_len_desc_range(lens, vs.len());
    lemma_by_len_desc_sorted(lens, vs.len());
    lemma_all_partitionings_blocks(vs);
    let q = order[k];
    assert forall|q2: int| 0 <= q2 < ps.len() && ps[q2].len() > ps[q].len() implies partition_transfers(
        m,
        #[trigger] ps[q2],
    ) is None by {
        let t = rgs_ext(Seq::empty(), vs.len())[q2];
        lemma_blocks_len(vs, t);
        lemma_num_blocks_le(t);
        assert(lens[q2] == ps[q2].len());
        lemma_by_len_desc_contains(lens, vs.len(), q2);
        let k2 = choose|k2: int| 0 <= k2 < order.len() && order[k2] == q2;
        if k2 >= k {
            assert(lens[order[k]] >= lens[order[k2]]);
        }
        assert(partition_transfers(m, ps[order[k2]]) is None);
    }
}

/// The transfers of a partitioning into disjoint blocks of distinct vertices
/// carry no edge twice.
pub proof fn lemma_partition_edges(m: PartitionSolvingMethod, p: Seq<Seq<NamedNode>>)
    requires
        blocks_wf(p),
        blocks_disjoint(p),
        partition_transfers(m, p) is Some,
    ensures
        crate::solution::edges_distinct(partition_transfers(m, p)->0),
    decreases p.len(),
{
    if p.len() > 0 {
        let p2 = p.drop_last();
        let last = p.last();
        assert(last == p[p.len() - 1]);
        assert(blocks_wf(p2)) by {
            assert forall|j: int| 0 <= j < p2.len() implies ids_distinct(#[trigger] p2[j]) && p2[j].len() <= usize::MAX by {
                assert(p2[j] == p[j]);
            }
        }
        assert(blocks_disjoint(p2)) by {
            assert forall|j1: int, j2: int, x: int, y: int|
                0 <= j1 < p2.len() && 0 <= j2 < p2.len() && j1 != j2 && 0 <= x < p2[j1].len() && 0 <= y < p2[j2].len()
                    implies #[trigger] p2[j1][x].id != #[trigger] p2[j2][y].id by {
                assert(p2[j1] == p[j1] && p2[j2] == p[j2]);
            }
        }
        lemma_partition_edges(m, p2);
        lemma_partition_transfers_settle(m, p2);
        let a = partition_transfers(m, p2)->0;
        let b = scheme_transfers(m, last);
        crate::approximation::lemma_scheme_settles(m, last);
        crate::approximation::lemma_scheme_edges(m, last);
        let t = a + b;
        assert(partition_transfers(m, p)->0 == t);
        assert forall|x: int, y: int| 0 <= x < t.len() && 0 <= y < t.len() && x < y implies #[trigger] t[x].0 != #[trigger] t[y].0 by {
            if y < a.len() {
                assert(t[x] == a[x] && t[y] == a[y]);
            } else if x >= a.len() {
                assert(t[x] == b[x - a.len()] && t[y] == b[y - a.len()]);
            } else {
                assert(t[x] == a[x] && t[y] == b[y - a.len()]);
                let e = a[x];
                let j = choose|j: int| 0 <= j < p2.len() && has_id(p2[j], e.0.u) && has_id(p2[j], e.0.v);
                let f = b[y - a.len()];
                assert(has_id(last, f.0.u));
                let q1 = choose|q: int| 0 <= q < p2[j].len() && p2[j][q].id == e.0.u;
                let q2 = choose|q: int| 0 <= q < last.len() && last[q].id == f.0.u;
                assert(p2[j] == p[j]);
                assert(p[j][q1].id != p[p.len() - 1][q2].id);
            }
        }
    }
}

// ------------------------------------------------ each partitioning once

/// No two entries of `s` are equal.
pub open spec fn all_distinct<A>(s: Seq<A>) -> bool {
    forall|a: int, b: int| 0 <= a < b < s.len() ==> s[a] != s[b]
}

/// The extensions that `rgs_ext` lists are pairwise distinct.
proof fn lemma_rgs_ext_distinct(r: Seq<nat>, m: nat)
    ensures
        all_distinct(rgs_ext(r, m)),
    decreases m, num_blocks(r) + 2,
{
    if m > 0 {
        lemma_rgs_ext_from_distinct(r, m, 0);
    }
}

proof fn lemma_rgs_ext_from_distinct(r: Seq<nat>, m: nat, j: nat)
    requires
        m >= 1,
    ensures
        all_distinct(rgs_ext_from(r, m, j)),
        forall|q: int|
            0 <= q < rgs_ext_from(r, m, j).len() ==> (#[trigger] rgs_ext_from(r, m, j)[q]).len() >= 1
                && rgs_ext_from(r, m, j)[q][0] >= j,
    decreases m, num_blocks(r) + 1 - j,
{
    if j <= num_blocks(r) {
        let rj = r.push(j);
        lemma_rgs_ext_distinct(rj, (m - 1) as nat);
        lemma_rgs_ext_from_distinct(r, m, j + 1);
        let inner = rgs_ext(rj, (m - 1) as nat);
        let piece = inner.map_values(|t: Seq<nat>| seq![j] + t);
        let rest = rgs_ext_from(r, m, j + 1);
        let all = piece + rest;
        assert(rgs_ext_from(r, m, j) == all);
        assert forall|q: int| 0 <= q < all.len() implies (#[trigger] all[q]).len() >= 1 && all[q][0] >= j by {
            if q < piece.len() {
                assert(all[q] == seq![j] + inner[q]);
            } else {
                assert(all[q] == rest[q - piece.len()]);
            }
        }
        assert forall|a: int, b: int| 0 <= a < b < all.len() implies all[a] != all[b] by {
            if b < piece.len() {
                assert(all[a] == seq![j] + inner[a]);
                assert(all[b] == seq![j] + inner[b]);
                if all[a] == all[b] {
                    assert(inner[a] =~= all[a].subrange(1, all[a].len() as int));
                    assert(inner[b] =~= all[b].subrange(1, all[b].len() as int));
                }
            } else if a >= piece.len() {
                assert(all[a] == rest[a - piece.len()]);
                assert(all[b] == rest[b - piece.len()]);
            } else {
                assert(all[a] == seq![j] + inner[a]);
                assert(all[a][0] == j);
                assert(all[b] == rest[b - piece.len()]);
                assert(all[b][0] >= j + 1);
            }
        }
    }
}

/// Every label below the number of blocks of a restricted growth string
/// appears in it.
proof fn lemma_rgs_all_labels(t: Seq<nat>)
    requires
        is_rgs(t),
    ensures
        forall|c: nat| c < num_blocks(t) ==> #[trigger] t.contains(c),
    decreases t.len(),
{
    if t.len() > 0 {
        let t2 = t.drop_last();
        assert(is_rgs(t2)) by {
            assert forall|i: int| 0 <= i < t2.len() implies #[trigger] t2[i] <= num_blocks(t2.take(i)) by {
                assert(t2.take(i) == t.take(i));
                assert(t[i] <= num_blocks(t.take(i)));
            }
        }
        lemma_rgs_all_labels(t2);
        assert(t.take(t.len() - 1) == t2);
        assert(t[t.len() - 1] <= num_blocks(t.take(t.len() - 1)));
        assert forall|c: nat| c < num_blocks(t) implies #[trigger] t.contains(c) by {
            if c < num_blocks(t2) {
                assert(t2.contains(c));
                let x = choose|x: int| 0 <= x < t2.len() && t2[x] == c;
                assert(t[x] == c);
            } else {
                assert(t[t.len() - 1] == c);
            }
        }
    }
}

/// Two restricted growth strings that group the positions alike agree on
/// their first `k` labels.
proof fn lemma_rgs_canonical_prefix(t1: Seq<nat>, t2: Seq<nat>, k: int)
    requires
        is_rgs(t1),
        is_rgs(t2),
        t1.len() == t2.len(),
        forall|a: int, b: int| 0 <= a < t1.len() && 0 <= b < t1.len() ==> (t1[a] == t1[b]) == (t2[a] == t2[b]),
        0 <= k <= t1.len(),
    ensures
        t1.take(k) == t2.take(k),
    decreases k,
{
    if k > 0 {
        let k1 = k - 1;
        lemma_rgs_canonical_prefix(t1, t2, k1);
        let p1 = t1.take(k1);
        assert(t1[k1] <= num_blocks(p1));
        assert(t2[k1] <= num_blocks(t2.take(k1)));
        if exists|a: int| 0 <= a < k1 && t1[a] == t1[k1] {
            let a = choose|a: int| 0 <= a < k1 && t1[a] == t1[k1];
            assert(p1[a] == t1[a]);
            assert(t2.take(k1)[a] == t2[a]);
        } else {
            assert forall|a: int| 0 <= a < k1 implies t2[a] != t2[k1] by {
                assert(t1[a] != t1[k1]);
            }
            assert(is_rgs(p1)) by {
                assert forall|i: int| 0 <= i < p1.len() implies #[trigger] p1[i] <= num_blocks(p1.take(i)) by {
                    assert(p1.take(i) == t1.take(i));
                    assert(t1[i] <= num_blocks(t1.take(i)));
                }
            }
            lemma_rgs_all_labels(p1);
            if t1[k1] < num_blocks(p1) {
                assert(p1.contains(t1[k1]));
                let a = choose|a: int| 0 <= a < p1.len() && p1[a] == t1[k1];
                assert(t1[a] == t1[k1]);
            }
            if t2[k1] < num_blocks(p1) {
                assert(p1.contains(t2[k1]));
                let a = choose|a: int| 0 <= a < p1.len() && p1[a] == t2[k1];
                assert(t2.take(k1)[a] == t2[a]);
            }
        }
        assert(t1.take(k) =~= t1.take(k1).push(t1[k1]));
        assert(t2.take(k) =~= t2.take(k1).push(t2[k1]));
    }
}

/// A restricted growth string is fixed by how it groups the positions: two
/// that put the same positions together are equal. So each partitioning of
/// the items has one string, and `all_partitionings` lists it once.
pub proof fn law_rgs_canonical(t1: Seq<nat>, t2: Seq<nat>)
    requires
        is_rgs(t1),
        is_rgs(t2),
        t1.len() == t2.len(),
        forall|a: int, b: int| 0 <= a < t1.len() && 0 <= b < t1.len() ==> (t1[a] == t1[b]) == (t2[a] == t2[b]),
    ensures
        t1 == t2,
{
    lemma_rgs_canonical_prefix(t1, t2, t1.len() as int);
    assert(t1.take(t1.len() as int) == t1);
    assert(t2.take(t2.len() as int) == t2);
}

/// `collect_all_partitionigns` lists every partitioning of the items once:
/// each entry is the blocks of a restricted growth string of their length,
/// every such string is listed, and no string is listed twice.
pub proof fn law_all_partitionings_listed<A>(items: Seq<A>)
    ensures
        listed_by_rgs(items, all_partitionings(items)),
        forall|t: Seq<nat>| is_rgs(t) && t.len() == items.len() ==> #[trigger] rgs_ext(Seq::empty(), items.len()).contains(t),
        all_distinct(rgs_ext(Seq::<nat>::empty(), items.len())),
{
    lemma_all_partitionings_blocks(items);
    lemma_rgs_ext_distinct(Seq::empty(), items.len());
    assert forall|t: Seq<nat>| is_rgs(t) && t.len() == items.len() implies #[trigger] rgs_ext(Seq::empty(), items.len()).contains(t) by {
        assert(Seq::<nat>::empty() + t == t);
        crate::optimality::lemma_rgs_ext_complete(Seq::empty(), t);
    }
}

// ------------------------------------------- the amount greedy blocks move

/// The absolute weights of all the blocks, added up.
pub open spec fn blocks_abs(p: Seq<Seq<NamedNode>>) -> int
    decreases p.len(),
{
    if p.len() == 0 {
        0
    } else {
        blocks_abs(p.drop_last()) + crate::graph::total_abs_weight(p.last())
    }
}

/// Settling blocks with greedy satisfaction moves, in each block, half its
/// absolute weight: together half the absolute weights of the blocks.
pub proof fn law_partition_greedy_amount(p: Seq<Seq<NamedNode>>)
    requires
        blocks_wf(p),
        partition_transfers(PartitionSolvingMethod::GreedySatsifaction, p) is Some,
    ensures
        2 * crate::solution::total_amount(partition_transfers(PartitionSolvingMethod::GreedySatsifaction, p)->0)
            == blocks_abs(p),
    decreases p.len(),
{
    if p.len() > 0 {
        let p2 = p.drop_last();
        let last = p.last();
        assert(last == p[p.len() - 1]);
        assert(blocks_wf(p2)) by {
            assert forall|j: int| 0 <= j < p2.len() implies ids_distinct(#[trigger] p2[j]) && p2[j].len() <= usize::MAX by {
                assert(p2[j] == p[j]);
            }
        }
        law_partition_greedy_amount(p2);
        let a = partition_transfers(PartitionSolvingMethod::GreedySatsifaction, p2)->0;
        let b = crate::approximation::greedy_transfers(last);
        crate::approximation::law_greedy_minimal_amount(last);
        crate::solution::lemma_total_amount_concat(a, b);
    }
}

/// Every transfer that greedy satisfaction makes in the blocks of vertices of
/// `vs` goes from a vertex of negative weight to one of nonnegative weight.
proof fn lemma_partition_one_way(p: Seq<Seq<NamedNode>>, vs: Seq<NamedNode>)
    requires
        blocks_wf(p),
        forall|j: int, x: int|
            0 <= j < p.len() && 0 <= x < p[j].len() ==> exists|q: int| 0 <= q < vs.len() && #[trigger] p[j][x] == vs[q],
        partition_transfers(PartitionSolvingMethod::GreedySatsifaction, p) is Some,
    ensures
        forall|k: int|
            0 <= k < partition_transfers(PartitionSolvingMethod::GreedySatsifaction, p)->0.len() ==> crate::solution::to_creditor(
                vs,
                #[trigger] partition_transfers(PartitionSolvingMethod::GreedySatsifaction, p)->0[k],
            ) && crate::solution::from_debtor(vs, partition_transfers(PartitionSolvingMethod::GreedySatsifaction, p)->0[k]),
    decreases p.len(),
{
    if p.len() > 0 {
        let p2 = p.drop_last();
        let last = p.last();
        assert(last == p[p.len() - 1]);
        assert(blocks_wf(p2)) by {
            assert forall|j: int| 0 <= j < p2.len() implies ids_distinct(#[trigger] p2[j]) && p2[j].len() <= usize::MAX by {
                assert(p2[j] == p[j]);
            }
        }
        assert forall|j: int, x: int| 0 <= j < p2.len() && 0 <= x < p2[j].len() implies exists|q: int|
            0 <= q < vs.len() && #[trigger] p2[j][x] == vs[q] by {
            assert(p2[j] == p[j]);
        }
        lemma_partition_one_way(p2, vs);
        let a = partition_transfers(PartitionSolvingMethod::GreedySatsifaction, p2)->0;
        let b = crate::approximation::greedy_transfers(last);
        crate::approximation::lemma_greedy_one_way(last);
        let t = a + b;
        assert(partition_transfers(PartitionSolvingMethod::GreedySatsifaction, p)->0 == t);
        assert forall|k: int| 0 <= k < t.len() implies crate::solution::to_creditor(vs, #[trigger] t[k])
            && crate::solution::from_debtor(vs, t[k]) by {
            if k < a.len() {
                assert(t[k] == a[k]);
            } else {
                let e = b[k - a.len()];
                assert(t[k] == e);
                assert(crate::solution::to_creditor(last, e));
                assert(crate::solution::from_debtor(last, e));
                let i = choose|i: int| 0 <= i < last.len() && last[i].weight >= 0 && last[i].id == e.0.u;
                let jj = choose|jj: int| 0 <= jj < last.len() && last[jj].weight < 0 && last[jj].id == e.0.v;
                let qi = choose|q: int| 0 <= q < vs.len() && #[trigger] p[p.len() - 1][i] == vs[q];
                let qj = choose|q: int| 0 <= q < vs.len() && #[trigger] p[p.len() - 1][jj] == vs[q];
                assert(vs[qi].weight >= 0 && vs[qi].id == e.0.u);
                assert(vs[qj].weight < 0 && vs[qj].id == e.0.v);
            }
        }
    }
}

/// Settling `vs` by settling blocks of its vertices with greedy satisfaction
/// moves exactly half the absolute weights, the least any settling moves.
pub proof fn law_greedy_blocks_settling_amount(vs: Seq<NamedNode>, p: Seq<Seq<NamedNode>>)
    requires
        ids_distinct(vs),
        blocks_wf(p),
        forall|j: int, x: int|
            0 <= j < p.len() && 0 <= x < p[j].len() ==> exists|q: int| 0 <= q < vs.len() && #[trigger] p[j][x] == vs[q],
        partition_transfers(PartitionSolvingMethod::GreedySatsifaction, p) is Some,
        settles(vs, partition_transfers(PartitionSolvingMethod::GreedySatsifaction, p)->0),
    ensures
        2 * crate::solution::total_amount(partition_transfers(PartitionSolvingMethod::GreedySatsifaction, p)->0)
            == crate::graph::total_abs_weight(vs),
{
    let t = partition_transfers(PartitionSolvingMethod::GreedySatsifaction, p)->0;
    lemma_partition_one_way(p, vs);
    crate::solution::lemma_amount_of_one_way(vs, t);
    crate::solution::lemma_abs_creditor(vs);
    if vs.len() > 0 {
        crate::dynamic_program::lemma_settled_solvable(vs, t);
    }
}

/// Settling blocks with star expand makes stars: every transfer joins two
/// vertices of one block, one of them the last vertex of greatest weight of
/// that block.
pub proof fn law_partition_star_center(p: Seq<Seq<NamedNode>>)
    requires
        blocks_wf(p),
        partition_transfers(PartitionSolvingMethod::StarExpand, p) is Some,
    ensures
        forall|k: int|
            0 <= k < partition_transfers(PartitionSolvingMethod::StarExpand, p)->0.len() ==> exists|j: int|
                0 <= j < p.len() && has_id(p[j], (#[trigger] partition_transfers(PartitionSolvingMethod::StarExpand, p)->0[k]).0.u)
                    && has_id(p[j], partition_transfers(PartitionSolvingMethod::StarExpand, p)->0[k].0.v)
                    && crate::approximation::touches_heaviest(p[j], partition_transfers(PartitionSolvingMethod::StarExpand, p)->0[k]),
    decreases p.len(),
{
    if p.len() > 0 {
        let p2 = p.drop_last();
        let last = p.last();
        assert(last == p[p.len() - 1]);
        assert(blocks_wf(p2)) by {
            assert forall|j: int| 0 <= j < p2.len() implies ids_distinct(#[trigger] p2[j]) && p2[j].len() <= usize::MAX by {
                assert(p2[j] == p[j]);
            }
        }
        law_partition_star_center(p2);
        let a = partition_transfers(PartitionSolvingMethod::StarExpand, p2)->0;
        let b = crate::approximation::star_transfers(last);
        crate::approximation::lemma_star_settles(last);
        crate::approximation::law_star_center(last);
        let t = a + b;
        assert(partition_transfers(PartitionSolvingMethod::StarExpand, p)->0 == t);
        assert forall|k: int| 0 <= k < t.len() implies exists|j: int|
            0 <= j < p.len() && has_id(p[j], (#[trigger] t[k]).0.u) && has_id(p[j], t[k].0.v)
                && crate::approximation::touches_heaviest(p[j], t[k]) by {
            if k < a.len() {
                assert(t[k] == a[k]);
                let j = choose|j: int|
                    0 <= j < p2.len() && has_id(p2[j], a[k].0.u) && has_id(p2[j], a[k].0.v)
                        && crate::approximation::touches_heaviest(p2[j], a[k]);
                assert(p2[j] == p[j]);
            } else {
                assert(t[k] == b[k - a.len()]);
                assert(transfers_within(last, b));
                let x = b[k - a.len()];
                assert(has_id(last, x.0.u) && has_id(last, x.0.v));
                assert(crate::approximation::touches_heaviest(last, x));
            }
        }
    }
}

/// The transfers `t` are stars in disjoint blocks of vertices of `vs`: each
/// joins two vertices of one block, one of them the last vertex of greatest
/// weight of that block.
pub open spec fn star_settling(vs: Seq<NamedNode>, t: Seq<(Edge, i128)>) -> bool {
    exists|p: Seq<Seq<NamedNode>>|
        #![trigger blocks_disjoint(p)]
        blocks_disjoint(p) && (forall|j: int, x: int| 0 <= j < p.len() && 0 <= x < p[j].len() ==> vs.contains(#[trigger] p[j][x]))
            && forall|k: int|
            0 <= k < t.len() ==> exists|j: int|
                0 <= j < p.len() && has_id(p[j], (#[trigger] t[k]).0.u) && has_id(p[j], t[k].0.v)
                    && crate::approximation::touches_heaviest(p[j], t[k])
}

/// Settling disjoint blocks of vertices of `vs` with star expand makes stars.
pub proof fn lemma_star_settling_of(vs: Seq<NamedNode>, p: Seq<Seq<NamedNode>>)
    requires
        blocks_wf(p),
        blocks_disjoint(p),
        forall|j: int, x: int|
            0 <= j < p.len() && 0 <= x < p[j].len() ==> exists|q: int| 0 <= q < vs.len() && #[trigger] p[j][x] == vs[q],
        partition_transfers(PartitionSolvingMethod::StarExpand, p) is Some,
    ensures
        star_settling(vs, partition_transfers(PartitionSolvingMethod::StarExpand, p)->0),
{
    law_partition_star_center(p);
    assert forall|j: int, x: int| 0 <= j < p.len() && 0 <= x < p[j].len() implies vs.contains(#[trigger] p[j][x]) by {
        let q = choose|q: int| 0 <= q < vs.len() && #[trigger] p[j][x] == vs[q];
    }
}

} // verus!
