//! The dynamic program over pairs of vertex sets encoded as bit masks.
use vstd::arithmetic::power2::{lemma2_to64, lemma_pow2_adds, lemma_pow2_pos, lemma_pow2_unfold, lemma_pow2_strictly_increases, pow2};
use crate::approximation::{lemma_side_positions, side_positions};
use crate::enumerate::{combinations_spec, powerset_of, powerset_spec, powerset_upto, subsets_of};
use crate::exact_partitioning::{
    blocks_disjoint, blocks_view, blocks_wf, deref_seq, lemma_covered_within, lemma_partition_transfers_settle,
    lemma_partition_transfers_some, partition_solver, partition_transfers,
};
use crate::graph::{ids_distinct, total_weight, Edge, NamedNode};
use crate::solution::{lemma_net_flow_untouched, net_flow, settles, Solution};
use crate::partition::PartitionSolvingMethod;
use crate::probleminstance::{solvable, ProblemInstance};
use crate::optimality::{blocks_size, class_weight, label_set};
use std::collections::HashMap;
use vstd::prelude::*;

verus! {

// ------------------------------------------------------------- bit masks

/// The positions of the ones of `n`, each offset by `off`, in increasing order.
pub open spec fn bit_positions(n: nat, off: nat) -> Seq<usize>
    decreases n,
{
    if n == 0 {
        Seq::empty()
    } else {
        (if n % 2 == 1 {
            seq![off as usize]
        } else {
            Seq::empty()
        }) + bit_positions(n / 2, off + 1)
    }
}

/// The number whose ones stand at the given positions (counted with repetition).
pub open spec fn pow2_sum(s: Seq<usize>) -> nat
    decreases s.len(),
{
    if s.len() == 0 {
        0
    } else {
        pow2_sum(s.drop_last()) + pow2(s.last() as nat)
    }
}

/// The sum of `w[off + k]` over the positions `k` of the ones of `n`.
pub open spec fn mask_weight(n: nat, w: Seq<i64>, off: nat) -> int
    decreases n,
{
    if n == 0 {
        0
    } else {
        (if n % 2 == 1 {
            w[off as int] as int
        } else {
            0
        }) + mask_weight(n / 2, w, off + 1)
    }
}

/// The number of ones of `n`.
pub open spec fn popcount(n: nat) -> nat
    decreases n,
{
    if n == 0 {
        0
    } else {
        n % 2 + popcount(n / 2)
    }
}

/// The number of ones in the binary representation of `x`.
pub(crate) fn count_ones_u128(x: u128) -> (res: u32)
    ensures
        res == popcount(x as nat),
{
    proof {
        lemma_pow2_128();
        lemma_bits_props(x as nat, 128);
        lemma_increasing_len(bit_positions(x as nat, 0), 128);
    }
    let mut n: u128 = x;
    let mut c: u32 = 0;
    while n > 0
        invariant
            c + popcount(n as nat) == popcount(x as nat),
            popcount(x as nat) <= 128,
        decreases n,
    {
        c = c + (n % 2) as u32;
        n = n / 2;
    }
    c
}

proof fn lemma_one_shl(s: u128)
    requires
        s < 128,
    ensures
        (1u128 << s) as nat == pow2(s as nat),
    decreases s,
{
    if s == 0 {
        assert(1u128 << 0u128 == 1u128) by (bit_vector);
        lemma2_to64();
    } else {
        lemma_one_shl((s - 1) as u128);
        assert((1u128 << s) == 2 * (1u128 << ((s - 1) as u128))) by (bit_vector)
            requires
                0 < s < 128,
        ;
        lemma_pow2_unfold(s as nat);
    }
}

/// `2^128` bounds every `u128`.
pub proof fn lemma_pow2_128()
    ensures
        pow2(128) == 0x1_0000_0000_0000_0000_0000_0000_0000_0000,
{
    lemma2_to64();
    lemma_pow2_adds(64, 64);
    assert(0x1_0000_0000_0000_0000int * 0x1_0000_0000_0000_0000int == 0x1_0000_0000_0000_0000_0000_0000_0000_0000int) by (nonlinear_arith);
}

/// Halving a `u128` is shifting it right by one.
proof fn lemma_shr1(n: u128)
    ensures
        n >> 1u128 == n / 2,
{
    assert(n >> 1u128 == n / 2) by (bit_vector);
}

/// Returns the indices of the ones in the binary representation of `num`.
pub fn one_indices(num: u128) -> (res: Vec<usize>)
    ensures
        res@ == bit_positions(num as nat, 0),
{
    let mut i: usize = 0;
    let mut n: u128 = num;
    let mut indices: Vec<usize> = Vec::new();
    proof {
        lemma_pow2_128();
    }
    while n > 0
        invariant
            i <= 128,
            n < pow2((128 - i) as nat),
            indices@ + bit_positions(n as nat, i as nat) == bit_positions(num as nat, 0),
        decreases n,
    {
        let ghost old_n = n;
        let ghost old_indices = indices@;
        proof {
            if i == 128 {
                lemma2_to64();
            }
            lemma_pow2_unfold((128 - i) as nat);
            lemma_shr1(n);
        }
        if n % 2 == 1 {
            indices.push(i);
        }
        i = i + 1;
        n = n >> 1u128;
        assert(indices@ + bit_positions(n as nat, i as nat) =~= old_indices + bit_positions(old_n as nat, (i - 1) as nat));
    }
    assert(indices@ + bit_positions(n as nat, i as nat) =~= indices@);
    indices
}


/// A strictly increasing list.
pub open spec fn increasing(s: Seq<usize>) -> bool {
    forall|x: int, y: int| 0 <= x < y < s.len() ==> #[trigger] s[x] < #[trigger] s[y]
}

/// Every element of `s` is an element of `b`.
pub open spec fn within(s: Seq<usize>, b: Seq<usize>) -> bool {
    forall|x: int| 0 <= x < s.len() ==> b.contains(#[trigger] s[x])
}

/// The elements of `b` that are not in `s`, in order.
pub open spec fn without(b: Seq<usize>, s: Seq<usize>) -> Seq<usize>
    decreases b.len(),
{
    if b.len() == 0 {
        Seq::empty()
    } else if s.contains(b.last()) {
        without(b.drop_last(), s)
    } else {
        without(b.drop_last(), s).push(b.last())
    }
}

pub open spec fn shift_up(s: Seq<usize>) -> Seq<usize> {
    s.map_values(|k: usize| (k + 1) as usize)
}

proof fn lemma_pow2_sum_concat(a: Seq<usize>, b: Seq<usize>)
    ensures
        pow2_sum(a + b) == pow2_sum(a) + pow2_sum(b),
    decreases b.len(),
{
    if b.len() == 0 {
        assert(a + b == a);
    } else {
        lemma_pow2_sum_concat(a, b.drop_last());
        assert((a + b).drop_last() == a + b.drop_last());
    }
}

proof fn lemma_pow2_sum_shift(s: Seq<usize>)
    requires
        forall|x: int| 0 <= x < s.len() ==> #[trigger] s[x] < usize::MAX,
    ensures
        pow2_sum(shift_up(s)) == 2 * pow2_sum(s),
    decreases s.len(),
{
    if s.len() > 0 {
        lemma_pow2_sum_shift(s.drop_last());
        assert(shift_up(s).drop_last() == shift_up(s.drop_last()));
        lemma_pow2_unfold((s.last() + 1) as nat);
    }
}

/// The positions of the ones of `n`, offset by one more, are those offset by `off` moved up by one.
proof fn lemma_bit_positions_shift(n: nat, off: nat)
    requires
        off <= 256,
        n < pow2((256 - off) as nat),
    ensures
        bit_positions(n, off + 1) == shift_up(bit_positions(n, off)),
    decreases n,
{
    if n > 0 {
        if off == 256 {
            lemma2_to64();
        }
        lemma_pow2_unfold((256 - off) as nat);
        lemma_bit_positions_shift(n / 2, off + 1);
        let h = if n % 2 == 1 {
            seq![off as usize]
        } else {
            Seq::<usize>::empty()
        };
        assert(shift_up(h + bit_positions(n / 2, off + 1)) =~= shift_up(h) + shift_up(bit_positions(n / 2, off + 1)));
    } else {
        assert(shift_up(Seq::<usize>::empty()) =~= Seq::<usize>::empty());
    }
}


pub open spec fn shift_down(s: Seq<usize>) -> Seq<usize> {
    s.map_values(|k: usize| (k - 1) as usize)
}

pub proof fn lemma_pow2_mono(a: nat, b: nat)
    requires
        a <= b,
    ensures
        pow2(a) <= pow2(b),
{
    if a < b {
        lemma_pow2_strictly_increases(a, b);
    }
}

/// The sum over an increasing list stays below twice its largest power.
proof fn lemma_pow2_sum_bound(d: Seq<usize>)
    requires
        increasing(d),
        d.len() > 0,
    ensures
        pow2_sum(d) < pow2((d.last() + 1) as nat),
    decreases d.len(),
{
    let l = d.last() as nat;
    lemma_pow2_unfold(l + 1);
    assert(((l + 1) - 1) as nat == l);
    assert(pow2(l + 1) == 2 * pow2(l));
    lemma_pow2_pos(l);
    assert(pow2_sum(d) == pow2_sum(d.drop_last()) + pow2(l));
    if d.len() > 1 {
        let e = d.drop_last();
        assert(increasing(e));
        lemma_pow2_sum_bound(e);
        assert(e.last() == d[d.len() - 2]);
        assert(d[d.len() - 2] < d[d.len() - 1]);
        lemma_pow2_mono((e.last() + 1) as nat, l);
    } else {
        assert(d.drop_last() =~= Seq::<usize>::empty());
    }
}

proof fn lemma_pow2_sum_single(x: usize)
    ensures
        pow2_sum(seq![x]) == pow2(x as nat),
{
    let s = seq![x];
    assert(s.drop_last() =~= Seq::<usize>::empty());
    assert(s.last() == x);
    assert(pow2_sum(s) == pow2_sum(s.drop_last()) + pow2(s.last() as nat));
}

/// `d` without its first element, moved down by one, where `d` starts at zero.
proof fn lemma_tail_down(d: Seq<usize>)
    requires
        increasing(d),
        d.len() > 0,
        d[0] == 0,
        forall|x: int| 0 <= x < d.len() ==> #[trigger] d[x] < 128,
    ensures
        ({
            let e = shift_down(d.subrange(1, d.len() as int));
            &&& increasing(e)
            &&& forall|x: int| 0 <= x < e.len() ==> #[trigger] e[x] < 128
            &&& pow2_sum(d) == 1 + 2 * pow2_sum(e)
            &&& d == seq![0usize] + shift_up(e)
        }),
{
    let d1 = d.subrange(1, d.len() as int);
    let e = shift_down(d1);
    assert(d == seq![0usize] + d1);
    assert forall|x: int| 0 <= x < d1.len() implies d1[x] >= 1 by {
        assert(d[0] < d[x + 1]);
    }
    assert(shift_up(e) =~= d1);
    assert forall|x: int, y: int| 0 <= x < y < e.len() implies #[trigger] e[x] < #[trigger] e[y] by {
        assert(d[x + 1] < d[y + 1]);
        assert(d[0] < d[x + 1]);
    }
    assert forall|x: int| 0 <= x < e.len() implies #[trigger] e[x] < 128 by {
        assert(d[x + 1] < 128);
    }
    lemma_pow2_sum_concat(seq![0usize], d1);
    lemma_pow2_sum_single(0usize);
    lemma2_to64();
    lemma_pow2_sum_shift(e);
}

/// `d`, which does not start at zero, moved down by one.
proof fn lemma_all_down(d: Seq<usize>)
    requires
        increasing(d),
        d.len() > 0,
        d[0] != 0,
        forall|x: int| 0 <= x < d.len() ==> #[trigger] d[x] < 128,
    ensures
        ({
            let e = shift_down(d);
            &&& increasing(e)
            &&& forall|x: int| 0 <= x < e.len() ==> #[trigger] e[x] < 128
            &&& pow2_sum(d) == 2 * pow2_sum(e)
            &&& d == shift_up(e)
        }),
{
    let e = shift_down(d);
    assert forall|x: int| 0 <= x < d.len() implies d[x] >= 1 by {
        if x > 0 {
            assert(d[0] < d[x]);
        }
    }
    assert(shift_up(e) =~= d);
    assert forall|x: int, y: int| 0 <= x < y < e.len() implies #[trigger] e[x] < #[trigger] e[y] by {
        assert(d[x] < d[y]);
        if x > 0 {
            assert(d[0] < d[x]);
        }
    }
    assert forall|x: int| 0 <= x < e.len() implies #[trigger] e[x] < 128 by {
        assert(d[x] < 128);
    }
    lemma_pow2_sum_shift(e);
}

/// The positions of the ones of a sum of distinct powers of two are its exponents.
pub proof fn lemma_bits_of_pow2_sum(d: Seq<usize>)
    requires
        increasing(d),
        forall|x: int| 0 <= x < d.len() ==> #[trigger] d[x] < 128,
    ensures
        bit_positions(pow2_sum(d), 0) == d,
    decreases pow2_sum(d),
{
    if d.len() > 0 {
        let n = pow2_sum(d);
        lemma_pow2_pos(d.last() as nat);
        assert(n > 0);
        if d[0] == 0 {
            lemma_tail_down(d);
            let e = shift_down(d.subrange(1, d.len() as int));
            let m = pow2_sum(e);
            lemma_bits_of_pow2_sum(e);
            lemma_pow2_sum_bound_128(e);
            lemma_bit_positions_shift(m, 0);
            assert(bit_positions(n, 0) == seq![0usize] + bit_positions(m, 1));
        } else {
            lemma_all_down(d);
            let e = shift_down(d);
            let m = pow2_sum(e);
            lemma_bits_of_pow2_sum(e);
            lemma_pow2_sum_bound_128(e);
            lemma_bit_positions_shift(m, 0);
            assert(bit_positions(n, 0) == Seq::<usize>::empty() + bit_positions(m, 1));
            assert(Seq::<usize>::empty() + bit_positions(m, 1) == bit_positions(m, 1));
        }
    }
}

/// A sum of distinct powers below `2^128` stays below `2^256`.
pub proof fn lemma_pow2_sum_bound_128(d: Seq<usize>)
    requires
        increasing(d),
        forall|x: int| 0 <= x < d.len() ==> #[trigger] d[x] < 128,
    ensures
        pow2_sum(d) < pow2(128),
        pow2_sum(d) < pow2(256),
{
    lemma_pow2_mono(128, 256);
    lemma_pow2_pos(128);
    if d.len() > 0 {
        lemma_pow2_sum_bound(d);
        lemma_pow2_mono((d.last() + 1) as nat, 128);
    }
}


/// The ones of `n < 2^k` stand at increasing positions below `k`, as many as
/// `popcount(n)`, and their powers add up to `n`.
pub proof fn lemma_bits_props(n: nat, k: nat)
    requires
        n < pow2(k),
        k <= 128,
    ensures
        increasing(bit_positions(n, 0)),
        forall|x: int| 0 <= x < bit_positions(n, 0).len() ==> #[trigger] bit_positions(n, 0)[x] < k,
        pow2_sum(bit_positions(n, 0)) == n,
        bit_positions(n, 0).len() == popcount(n),
    decreases n,
{
    if n > 0 {
        if k == 0 {
            lemma2_to64();
        }
        lemma_pow2_unfold(k);
        lemma_bits_props(n / 2, (k - 1) as nat);
        lemma_pow2_mono(k, 256);
        lemma_bit_positions_shift(n / 2, 0);
        let b2 = bit_positions(n / 2, 0);
        let h = if n % 2 == 1 {
            seq![0usize]
        } else {
            Seq::<usize>::empty()
        };
        let b = bit_positions(n, 0);
        assert(b == h + shift_up(b2));
        assert forall|x: int, y: int| 0 <= x < y < b.len() implies #[trigger] b[x] < #[trigger] b[y] by {
            if x >= h.len() {
                assert(b2[x - h.len()] < b2[y - h.len()]);
            }
        }
        assert forall|x: int| 0 <= x < b.len() implies #[trigger] b[x] < k by {
            if x >= h.len() {
                assert(b2[x - h.len()] < k - 1);
            }
        }
        assert forall|x: int| 0 <= x < b2.len() implies #[trigger] b2[x] < usize::MAX by {
        }
        lemma_pow2_sum_shift(b2);
        lemma_pow2_sum_concat(h, shift_up(b2));
        if n % 2 == 1 {
            lemma_pow2_sum_single(0usize);
            lemma2_to64();
        }
    }
}

pub proof fn lemma_without_same(b: Seq<usize>, s: Seq<usize>, t: Seq<usize>)
    requires
        forall|x: int| 0 <= x < b.len() ==> (s.contains(#[trigger] b[x]) <==> t.contains(b[x])),
    ensures
        without(b, s) == without(b, t),
    decreases b.len(),
{
    if b.len() > 0 {
        assert(b.last() == b[b.len() - 1]);
        lemma_without_same(b.drop_last(), s, t);
    }
}

/// Taking the elements of an increasing sublist `t` out of an increasing `b`
/// splits the sum of powers, and leaves an increasing sublist of `b`.
pub proof fn lemma_split_sum(b: Seq<usize>, t: Seq<usize>)
    requires
        increasing(b),
        increasing(t),
        within(t, b),
    ensures
        pow2_sum(b) == pow2_sum(t) + pow2_sum(without(b, t)),
        increasing(without(b, t)),
        within(without(b, t), b),
        without(b, t).len() + t.len() == b.len(),
    decreases b.len(),
{
    if b.len() == 0 {
        if t.len() > 0 {
            assert(b.contains(t[0]));
        }
        assert(t =~= Seq::<usize>::empty());
    } else {
        let e = b.last();
        let b2 = b.drop_last();
        assert forall|x: int| 0 <= x < b2.len() implies #[trigger] b2[x] < e by {
            assert(b[x] < b[b.len() - 1]);
        }
        if t.contains(e) {
            let k = choose|k: int| 0 <= k < t.len() && t[k] == e;
            assert(k == t.len() - 1) by {
                if k < t.len() - 1 {
                    let l = t[t.len() - 1];
                    assert(b.contains(l));
                    let q = choose|q: int| 0 <= q < b.len() && b[q] == l;
                    if q < b.len() - 1 {
                        assert(b2[q] < e);
                    }
                    assert(t[k] < t[t.len() - 1]);
                }
            }
            let t2 = t.drop_last();
            assert(increasing(t2));
            assert(within(t2, b2)) by {
                assert forall|x: int| 0 <= x < t2.len() implies b2.contains(#[trigger] t2[x]) by {
                    assert(b.contains(t[x]));
                    let q = choose|q: int| 0 <= q < b.len() && b[q] == t[x];
                    assert(t[x] < t[t.len() - 1]);
                    assert(q != b.len() - 1);
                    assert(b2[q] == t2[x]);
                }
            }
            lemma_split_sum(b2, t2);
            assert forall|x: int| 0 <= x < b2.len() implies (t.contains(#[trigger] b2[x]) <==> t2.contains(b2[x])) by {
                if t.contains(b2[x]) {
                    let q = choose|q: int| 0 <= q < t.len() && t[q] == b2[x];
                    assert(q != t.len() - 1);
                    assert(t2[q] == t[q]);
                }
                if t2.contains(b2[x]) {
                    let q = choose|q: int| 0 <= q < t2.len() && t2[q] == b2[x];
                    assert(t[q] == t2[q]);
                }
            }
            lemma_without_same(b2, t, t2);
            assert(without(b, t) == without(b2, t));
            assert(t.last() == e);
        } else {
            assert(within(t, b2)) by {
                assert forall|x: int| 0 <= x < t.len() implies b2.contains(#[trigger] t[x]) by {
                    assert(b.contains(t[x]));
                    let q = choose|q: int| 0 <= q < b.len() && b[q] == t[x];
                    assert(q != b.len() - 1);
                    assert(b2[q] == t[x]);
                }
            }
            lemma_split_sum(b2, t);
            let w2 = without(b2, t);
            assert(without(b, t) == w2.push(e));
            assert forall|x: int, y: int| 0 <= x < y < w2.push(e).len() implies #[trigger] w2.push(e)[x] < #[trigger] w2.push(e)[y] by {
                if y == w2.len() {
                    assert(b2.contains(w2[x]));
                }
            }
            assert forall|x: int| 0 <= x < w2.push(e).len() implies b.contains(#[trigger] w2.push(e)[x]) by {
                if x < w2.len() {
                    assert(b2.contains(w2[x]));
                    let q = choose|q: int| 0 <= q < b2.len() && b2[q] == w2[x];
                    assert(b[q] == w2[x]);
                } else {
                    assert(b[b.len() - 1] == e);
                }
            }
            assert(w2.push(e).drop_last() == w2);
        }
    }
}


/// Every `k`-combination lists increasing positions in `start..n`.
pub proof fn lemma_combinations_valid(start: nat, n: nat, k: nat)
    requires
        n <= usize::MAX,
    ensures
        forall|q: int|
            0 <= q < combinations_spec(start, n, k).len() ==> {
                let c = #[trigger] combinations_spec(start, n, k)[q];
                &&& increasing(c)
                &&& c.len() == k
                &&& forall|x: int| 0 <= x < c.len() ==> start <= #[trigger] c[x] < n
            },
    decreases k, n - start,
{
    if k == 0 {
    } else if start >= n {
    } else {
        lemma_combinations_valid(start + 1, n, (k - 1) as nat);
        lemma_combinations_valid(start + 1, n, k);
        let a = combinations_spec(start + 1, n, (k - 1) as nat);
        let first = a.map_values(|c: Seq<usize>| seq![start as usize] + c);
        let rest = combinations_spec(start + 1, n, k);
        assert forall|q: int| 0 <= q < (first + rest).len() implies {
            let c = #[trigger] (first + rest)[q];
            &&& increasing(c)
            &&& c.len() == k
            &&& forall|x: int| 0 <= x < c.len() ==> start <= #[trigger] c[x] < n
        } by {
            if q < first.len() {
                let c0 = a[q];
                let c = seq![start as usize] + c0;
                assert((first + rest)[q] == c);
                assert forall|x: int, y: int| 0 <= x < y < c.len() implies #[trigger] c[x] < #[trigger] c[y] by {
                    if x > 0 {
                        assert(c0[x - 1] < c0[y - 1]);
                    } else {
                        assert(c[y] == c0[y - 1]);
                    }
                }
                assert forall|x: int| 0 <= x < c.len() implies start <= #[trigger] c[x] < n by {
                    if x > 0 {
                        assert(c[x] == c0[x - 1]);
                    }
                }
            } else {
                assert((first + rest)[q] == rest[q - first.len()]);
            }
        }
    }
}

/// Every subset that `powerset_spec` lists is an increasing list of positions below `n`.
pub proof fn lemma_powerset_valid(n: nat, k: nat)
    requires
        n <= usize::MAX,
    ensures
        forall|q: int|
            0 <= q < powerset_upto(n, k).len() ==> {
                let c = #[trigger] powerset_upto(n, k)[q];
                &&& increasing(c)
                &&& forall|x: int| 0 <= x < c.len() ==> #[trigger] c[x] < n
            },
    decreases k,
{
    lemma_combinations_valid(0, n, k);
    if k > 0 {
        lemma_powerset_valid(n, (k - 1) as nat);
        let a = powerset_upto(n, (k - 1) as nat);
        let b = combinations_spec(0, n, k);
        assert forall|q: int| 0 <= q < (a + b).len() implies {
            let c = #[trigger] (a + b)[q];
            &&& increasing(c)
            &&& forall|x: int| 0 <= x < c.len() ==> #[trigger] c[x] < n
        } by {
            if q < a.len() {
                assert((a + b)[q] == a[q]);
            } else {
                assert((a + b)[q] == b[q - a.len()]);
            }
        }
    }
}

/// An increasing list of positions below `k` has at most `k` elements.
pub proof fn lemma_increasing_len(s: Seq<usize>, k: nat)
    requires
        increasing(s),
        forall|x: int| 0 <= x < s.len() ==> #[trigger] s[x] < k,
    ensures
        s.len() <= k,
    decreases s.len(),
{
    if s.len() > 0 {
        let s2 = s.drop_last();
        assert(increasing(s2));
        assert(s.last() == s[s.len() - 1]);
        assert(s[s.len() - 1] < k);
        if s2.len() > 0 {
            assert forall|x: int| 0 <= x < s2.len() implies #[trigger] s2[x] < s.last() by {
                assert(s[x] < s[s.len() - 1]);
            }
            lemma_increasing_len(s2, s.last() as nat);
        }
    }
}

/// The nonzero numbers whose ones stand at the positions of each list of `p`.
pub open spec fn masks_nonzero(p: Seq<Seq<usize>>) -> Seq<u128>
    decreases p.len(),
{
    if p.len() == 0 {
        Seq::empty()
    } else if pow2_sum(p.last()) != 0 {
        masks_nonzero(p.drop_last()).push(pow2_sum(p.last()) as u128)
    } else {
        masks_nonzero(p.drop_last())
    }
}

/// The nonzero numbers whose ones are among those of `num`, in the order in
/// which `number_and_subset` lists them.
pub open spec fn candidates(num: u128) -> Seq<u128> {
    masks_nonzero(subsets_of(bit_positions(num as nat, 0)))
}

/// A subset of the ones of `i` takes a nonzero part of `i` and leaves no more ones.
pub proof fn lemma_candidates(i: u128)
    ensures
        forall|k: int|
            0 <= k < candidates(i).len() ==> {
                let a = #[trigger] candidates(i)[k];
                &&& 0 < a <= i
                &&& popcount((i - a) as nat) + popcount(a as nat) == popcount(i as nat)
                &&& within(bit_positions(a as nat, 0), bit_positions(i as nat, 0))
                &&& bit_positions((i - a) as nat, 0) == without(bit_positions(i as nat, 0), bit_positions(a as nat, 0))
            },
{
    let b = bit_positions(i as nat, 0);
    lemma_pow2_128();
    lemma_bits_props(i as nat, 128);
    lemma_increasing_len(b, 128);
    lemma_powerset_valid(b.len(), b.len());
    let subs = subsets_of(b);
    assert forall|q: int| 0 <= q < subs.len() implies {
        let t = #[trigger] subs[q];
        &&& increasing(t)
        &&& within(t, b)
        &&& pow2_sum(t) <= i
        &&& popcount((i - pow2_sum(t)) as nat) + popcount(pow2_sum(t)) == popcount(i as nat)
        &&& bit_positions(pow2_sum(t), 0) == t
        &&& bit_positions((i - pow2_sum(t)) as nat, 0) == without(b, t)
    } by {
        let sq = powerset_spec(b.len())[q];
        let t = subs[q];
        assert(t == sq.map_values(|k: usize| b[k as int]));
        assert forall|x: int, y: int| 0 <= x < y < t.len() implies #[trigger] t[x] < #[trigger] t[y] by {
            assert(sq[x] < sq[y]);
        }
        assert forall|x: int| 0 <= x < t.len() implies b.contains(#[trigger] t[x]) by {
            assert(b[sq[x] as int] == t[x]);
        }
        lemma_split_sum(b, t);
        let w = without(b, t);
        assert forall|x: int| 0 <= x < w.len() implies #[trigger] w[x] < 128 by {
            assert(b.contains(w[x]));
        }
        lemma_bits_of_pow2_sum(w);
        lemma_pow2_sum_bound_128(w);
        lemma_bits_props(pow2_sum(w), 128);
        assert forall|x: int| 0 <= x < t.len() implies #[trigger] t[x] < 128 by {
            assert(b.contains(t[x]));
        }
        lemma_bits_of_pow2_sum(t);
        lemma_pow2_sum_bound_128(t);
        lemma_bits_props(pow2_sum(t), 128);
    }
    lemma_masks_nonzero(subs, i);
}

proof fn lemma_masks_nonzero(p: Seq<Seq<usize>>, i: u128)
    requires
        forall|q: int|
            0 <= q < p.len() ==> pow2_sum(#[trigger] p[q]) <= i && popcount((i - pow2_sum(p[q])) as nat)
                + popcount(pow2_sum(p[q])) == popcount(i as nat) && within(p[q], bit_positions(i as nat, 0))
                && bit_positions(pow2_sum(p[q]), 0) == p[q] && bit_positions((i - pow2_sum(p[q])) as nat, 0)
                == without(bit_positions(i as nat, 0), p[q]),
    ensures
        forall|k: int|
            0 <= k < masks_nonzero(p).len() ==> {
                let a = #[trigger] masks_nonzero(p)[k];
                &&& 0 < a <= i
                &&& popcount((i - a) as nat) + popcount(a as nat) == popcount(i as nat)
                &&& within(bit_positions(a as nat, 0), bit_positions(i as nat, 0))
                &&& bit_positions((i - a) as nat, 0) == without(bit_positions(i as nat, 0), bit_positions(a as nat, 0))
            },
    decreases p.len(),
{
    if p.len() > 0 {
        let p2 = p.drop_last();
        assert forall|q: int| 0 <= q < p2.len() implies pow2_sum(#[trigger] p2[q]) <= i && popcount(
            (i - pow2_sum(p2[q])) as nat,
        ) + popcount(pow2_sum(p2[q])) == popcount(i as nat) && within(p2[q], bit_positions(i as nat, 0))
            && bit_positions(pow2_sum(p2[q]), 0) == p2[q] && bit_positions((i - pow2_sum(p2[q])) as nat, 0)
            == without(bit_positions(i as nat, 0), p2[q]) by {
            assert(p2[q] == p[q]);
        }
        lemma_masks_nonzero(p2, i);
        assert(p.last() == p[p.len() - 1]);
        let m2 = masks_nonzero(p2);
        if pow2_sum(p.last()) != 0 {
            let v = pow2_sum(p.last()) as u128;
            assert(masks_nonzero(p) == m2.push(v));
            assert forall|k: int| 0 <= k < m2.push(v).len() implies {
                let a = #[trigger] m2.push(v)[k];
                &&& 0 < a <= i
                &&& popcount((i - a) as nat) + popcount(a as nat) == popcount(i as nat)
                &&& within(bit_positions(a as nat, 0), bit_positions(i as nat, 0))
                &&& bit_positions((i - a) as nat, 0) == without(bit_positions(i as nat, 0), bit_positions(a as nat, 0))
            } by {
                if k < m2.len() {
                    assert(m2.push(v)[k] == m2[k]);
                } else {
                    assert(m2.push(v)[k] == v);
                }
            }
        }
    }
}


/// Bit `k` of `n` is one.
pub open spec fn bit_set(n: u128, k: u128) -> bool {
    (n >> k) & 1u128 == 1u128
}

/// Setting bit `idx` sets it and leaves every other bit as it was.
proof fn lemma_or_bit(num: u128, idx: u128, b: u128)
    requires
        idx < 128,
        b < 128,
    ensures
        bit_set(num | (1u128 << idx), b) <==> (bit_set(num, b) || b == idx),
{
    assert(((num | (1u128 << idx)) >> b) & 1u128 == 1u128 <==> (((num >> b) & 1u128 == 1u128) || b == idx))
        by (bit_vector)
        requires
            idx < 128,
            b < 128,
    ;
}

/// Below bit `idx`, setting bit `idx` adds its power of two.
proof fn lemma_or_adds(num: u128, idx: u128)
    requires
        idx < 128,
        num < (1u128 << idx),
    ensures
        num | (1u128 << idx) == num + (1u128 << idx),
{
    assert(num & (1u128 << idx) == 0u128) by (bit_vector)
        requires
            idx < 128,
            num < (1u128 << idx),
    ;
    assert(num | (1u128 << idx) == num + (1u128 << idx)) by (bit_vector)
        requires
            idx < 128,
            num < (1u128 << idx),
            num & (1u128 << idx) == 0u128,
    ;
}

/// Builds the number with a one at each of the given positions and nowhere
/// else; a position given twice is set once. Where the positions increase,
/// that is the sum of their powers of two.
pub fn expand_number(indices: &[usize]) -> (res: u128)
    requires
        indices@.len() <= 128,
        forall|k: int| 0 <= k < indices@.len() ==> #[trigger] indices@[k] < 128,
    ensures
        forall|b: u128| b < 128 ==> (bit_set(res, b) <==> indices@.contains(b as usize)),
        increasing(indices@) ==> res == pow2_sum(indices@),
{
    let mut num: u128 = 0;
    let mut k: usize = 0;
    proof {
        assert forall|b: u128| b < 128 implies !bit_set(0u128, b) by {
            assert((0u128 >> b) & 1u128 == 0u128) by (bit_vector);
        }
        lemma2_to64();
    }
    while k < indices.len()
        invariant
            k <= indices@.len(),
            forall|x: int| 0 <= x < indices@.len() ==> #[trigger] indices@[x] < 128,
            forall|b: u128| b < 128 ==> (bit_set(num, b) <==> indices@.take(k as int).contains(b as usize)),
            increasing(indices@) ==> num == pow2_sum(indices@.take(k as int)),
        decreases indices@.len() - k,
    {
        let index = indices[k];
        let ghost before = num;
        proof {
            assert(indices@.take(k + 1).drop_last() == indices@.take(k as int));
            assert(indices@.take(k + 1).last() == index);
            lemma_one_shl(index as u128);
            if increasing(indices@) {
                let d = indices@.take(k as int);
                if k > 0 {
                    assert(increasing(d));
                    lemma_pow2_sum_bound(d);
                    assert(d.last() < index);
                    lemma_pow2_mono((d.last() + 1) as nat, index as nat);
                } else {
                    lemma_pow2_pos(index as nat);
                }
                lemma_or_adds(num, index as u128);
            }
        }
        num = num | (1u128 << (index as u128));
        proof {
            assert forall|b: u128| b < 128 implies (bit_set(num, b) <==> indices@.take(k + 1).contains(b as usize)) by {
                lemma_or_bit(before, index as u128, b);
                if indices@.take(k + 1).contains(b as usize) {
                    let x = choose|x: int| 0 <= x < k + 1 && #[trigger] indices@.take(k + 1)[x] == b as usize;
                    if x < k {
                        assert(indices@.take(k as int)[x] == b as usize);
                    }
                }
                if indices@.take(k as int).contains(b as usize) {
                    let x = choose|x: int| 0 <= x < k && #[trigger] indices@.take(k as int)[x] == b as usize;
                    assert(indices@.take(k + 1)[x] == b as usize);
                }
                if b == index as u128 {
                    assert(indices@.take(k + 1)[k as int] == b as usize);
                }
            }
        }
        k = k + 1;
    }
    assert(indices@.take(k as int) == indices@);
    num
}

proof fn lemma_mask_weight_bound(n: nat, w: Seq<i64>, off: nat, k: nat)
    requires
        n < pow2(k),
    ensures
        -(k * 0x8000_0000_0000_0000) <= mask_weight(n, w, off) <= k * 0x8000_0000_0000_0000,
    decreases n,
{
    if n > 0 {
        if k == 0 {
            lemma2_to64();
        }
        lemma_pow2_unfold(k);
        lemma_mask_weight_bound(n / 2, w, off + 1, (k - 1) as nat);
    }
}

/// The sum of the weights at the positions of the ones of `num`.
pub fn number_weight(num: u128, weights: &[i64]) -> (res: i128)
    requires
        num < pow2(weights@.len()),
    ensures
        res == mask_weight(num as nat, weights@, 0),
        -(128 * 0x8000_0000_0000_0000) <= res <= 128 * 0x8000_0000_0000_0000,
{
    proof {
        lemma_pow2_128();
        lemma_mask_weight_bound(num as nat, weights@, 0, 128);
    }
    let mut i: usize = 0;
    let mut n: u128 = num;
    let mut sol: i128 = 0;
    proof {
        lemma_pow2_128();
    }
    while n > 0
        invariant
            i <= 128,
            i <= weights@.len(),
            n < pow2((128 - i) as nat),
            n < pow2((weights@.len() - i) as nat),
            -(i * 0x8000_0000_0000_0000) <= sol <= i * 0x8000_0000_0000_0000,
            sol + mask_weight(n as nat, weights@, i as nat) == mask_weight(num as nat, weights@, 0),
        decreases n,
    {
        proof {
            if i == 128 || i == weights@.len() {
                lemma2_to64();
            }
            lemma_pow2_unfold((128 - i) as nat);
            lemma_pow2_unfold((weights@.len() - i) as nat);
            lemma_shr1(n);
        }
        if n % 2 == 1 {
            sol = sol + weights[i] as i128;
        }
        i = i + 1;
        n = n >> 1u128;
    }
    sol
}

/// The nonzero numbers whose ones are among the ones of `num`.
pub fn number_and_subset(num: u128) -> (res: Vec<u128>)
    requires
        popcount(num as nat) < 64,
    ensures
        res@ == candidates(num),
{
    let idx = one_indices(num);
    let ghost b = idx@;
    proof {
        lemma_pow2_128();
        lemma_bits_props(num as nat, 128);
        lemma_increasing_len(b, 128);
        lemma_powerset_valid(b.len(), b.len());
    }
    let subsets = powerset_of(idx);
    let ghost subs = subsets_of(b);
    assert(subsets@.len() == subs.len());
    assert(subs.len() == powerset_spec(b.len()).len());
    let mut res: Vec<u128> = Vec::new();
    let mut q: usize = 0;
    while q < subsets.len()
        invariant
            q <= subsets@.len(),
            subsets@.map_values(|v: Vec<usize>| v@) == subs,
            subs == subsets_of(b),
            subs.len() == subsets@.len(),
            subs.len() == powerset_spec(b.len()).len(),
            b == bit_positions(num as nat, 0),
            increasing(b),
            forall|x: int| 0 <= x < b.len() ==> #[trigger] b[x] < 128,
            pow2_sum(b) == num,
            forall|c: int|
                0 <= c < powerset_spec(b.len()).len() ==> {
                    let p = #[trigger] powerset_spec(b.len())[c];
                    &&& increasing(p)
                    &&& forall|x: int| 0 <= x < p.len() ==> #[trigger] p[x] < b.len()
                },
            res@ == masks_nonzero(subs.take(q as int)),
        decreases subsets@.len() - q,
    {
        let s = &subsets[q];
        let ghost t = subs[q as int];
        assert(s@ == t);
        proof {
            let sq = powerset_spec(b.len())[q as int];
            assert(t == sq.map_values(|k: usize| b[k as int]));
            assert forall|x: int, y: int| 0 <= x < y < t.len() implies #[trigger] t[x] < #[trigger] t[y] by {
                assert(sq[x] < sq[y]);
            }
            assert forall|x: int| 0 <= x < t.len() implies b.contains(#[trigger] t[x]) by {
                assert(b[sq[x] as int] == t[x]);
            }
            lemma_split_sum(b, t);
            assert forall|x: int| 0 <= x < t.len() implies #[trigger] t[x] < 128 by {
                assert(b.contains(t[x]));
            }
            lemma_increasing_len(t, 128);
        }
        let v = expand_number(s.as_slice());
        proof {
            assert(subs.take(q + 1).drop_last() == subs.take(q as int));
            assert(subs.take(q + 1).last() == t);
        }
        if v != 0 {
            res.push(v);
        }
        q = q + 1;
    }
    assert(subs.take(q as int) == subs);
    res
}


// ------------------------------------------------------------------ table

/// A table entry: the least number of transfers for a pair of masks, and the
/// first block `(a, b)` split off to reach it (`None` where the pair is one block).
pub type TableEntry = (usize, Option<(u128, u128)>);

/// The memo table of the dynamic program, keyed by pairs of masks: a map from
/// the first mask to a map from the second mask to the entry.
pub struct Table {
    rows: HashMap<u128, HashMap<u128, TableEntry>>,
}

impl View for Table {
    type V = Map<(u128, u128), TableEntry>;

    closed spec fn view(&self) -> Map<(u128, u128), TableEntry> {
        Map::new(
            |k: (u128, u128)| self.rows@.contains_key(k.0) && self.rows@[k.0]@.contains_key(k.1),
            |k: (u128, u128)| self.rows@[k.0]@[k.1],
        )
    }
}

impl Table {
    /// An empty table.
    pub fn new() -> (res: Table)
        ensures
            res@ == Map::<(u128, u128), TableEntry>::empty(),
    {
        let res = Table { rows: HashMap::new() };
        assert(res@ =~= Map::<(u128, u128), TableEntry>::empty());
        res
    }

    /// The entry stored under `key`.
    pub fn get(&self, key: &(u128, u128)) -> (res: Option<&TableEntry>)
        ensures
            match res {
                Some(v) => self@.contains_key(*key) && *v == self@[*key],
                None => !self@.contains_key(*key),
            },
    {
        broadcast use vstd::std_specs::hash::group_hash_axioms;

        match self.rows.get(&key.0) {
            Some(row) => row.get(&key.1),
            None => None,
        }
    }

    /// Stores `value` under `key`, replacing what was stored there.
    pub fn insert(&mut self, key: (u128, u128), value: TableEntry)
        ensures
            final(self)@ == old(self)@.insert(key, value),
    {
        broadcast use vstd::std_specs::hash::group_hash_axioms;

        let mut row = match self.rows.remove(&key.0) {
            Some(r) => r,
            None => HashMap::new(),
        };
        row.insert(key.1, value);
        self.rows.insert(key.0, row);
        assert(self@ =~= old(self)@.insert(key, value));
    }
}

// --------------------------------------------------------- dynamic program

/// The best value found so far and the block that gave it.
pub type Best = Option<(nat, Option<(u128, u128)>)>;

/// The block recorded for splitting `(a, b)` off `(i, j)`: none where it is all of it.
pub open spec fn block_choice(i: u128, j: u128, a: u128, b: u128) -> Option<(u128, u128)> {
    if i != a && j != b {
        Some((a, b))
    } else {
        None
    }
}

/// `acc`, or the candidate `(v, ch)` where it is strictly better: the first
/// of equally good candidates stays.
pub open spec fn better(acc: Best, v: nat, ch: Option<(u128, u128)>) -> Best {
    match acc {
        None => Some((v, ch)),
        Some(m) => if v < m.0 {
            Some((v, ch))
        } else {
            acc
        },
    }
}

/// The least number of transfers that settle the vertices of the masks `i`
/// (creditors) and `j` (debtors) in blocks that each pair creditors with
/// debtors: none where their weights do not cancel or no split works.
pub open spec fn dp_value(w: Seq<i64>, i: u128, j: u128) -> Option<nat>
    decreases i + j, 3nat, 0int, 0int,
{
    if i == 0 && j == 0 {
        Some(0)
    } else if mask_weight(i as nat, w, 0) != -mask_weight(j as nat, w, 0) {
        None
    } else {
        match dp_best(w, i, j) {
            Some(e) => Some(e.0),
            None => None,
        }
    }
}

/// The best first block of `(i, j)`: over every block `(a, b)` in the order in
/// which the candidates are listed, the rest `(i - a, j - b)` is settled and
/// the block costs one transfer fewer than its vertices.
pub open spec fn dp_best(w: Seq<i64>, i: u128, j: u128) -> Best
    decreases i + j, 2nat, 0int, 0int,
{
    best_a(w, i, j, candidates(i), candidates(j), 0, None)
}

pub open spec fn best_a(
    w: Seq<i64>,
    i: u128,
    j: u128,
    ca: Seq<u128>,
    cb: Seq<u128>,
    ka: nat,
    acc: Best,
) -> Best
    decreases i + j, 1nat, ca.len() - ka, 0int,
{
    if ka >= ca.len() {
        acc
    } else {
        best_a(w, i, j, ca, cb, ka + 1, best_b(w, i, j, ca, cb, ka, 0, acc))
    }
}

pub open spec fn best_b(
    w: Seq<i64>,
    i: u128,
    j: u128,
    ca: Seq<u128>,
    cb: Seq<u128>,
    ka: nat,
    kb: nat,
    acc: Best,
) -> Best
    decreases i + j, 0nat, ca.len() - ka, cb.len() - kb,
{
    if kb >= cb.len() || ka >= ca.len() {
        acc
    } else {
        let a = ca[ka as int];
        let b = cb[kb as int];
        let acc2 = if 0 < a <= i && 0 < b <= j {
            match dp_value(w, (i - a) as u128, (j - b) as u128) {
                Some(x) => better(acc, (x + popcount(a as nat) + popcount(b as nat) - 1) as nat, block_choice(i, j, a, b)),
                None => acc,
            }
        } else {
            acc
        };
        best_b(w, i, j, ca, cb, ka, kb + 1, acc2)
    }
}

/// A table entry, read with a mathematical count.
pub open spec fn entry_nat(e: TableEntry) -> (nat, Option<(u128, u128)>) {
    (e.0 as nat, e.1)
}

/// Every entry of the table holds the best first block of its key.
pub open spec fn table_valid(w: Seq<i64>, t: Map<(u128, u128), TableEntry>) -> bool {
    forall|k: (u128, u128)|
        #[trigger] t.contains_key(k) ==> !(k.0 == 0 && k.1 == 0) && mask_weight(k.0 as nat, w, 0)
            == -mask_weight(k.1 as nat, w, 0) && dp_best(w, k.0, k.1) == Some(entry_nat(t[k]))
}

/// The number of transfers is below the number of vertices.
pub proof fn lemma_dp_bound(w: Seq<i64>, i: u128, j: u128)
    ensures
        dp_value(w, i, j) matches Some(x) ==> x <= popcount(i as nat) + popcount(j as nat),
    decreases i + j, 3nat, 0int, 0int,
{
    if !(i == 0 && j == 0) && mask_weight(i as nat, w, 0) == -mask_weight(j as nat, w, 0) {
        lemma_dp_best_bound(w, i, j);
    }
}

proof fn lemma_dp_best_bound(w: Seq<i64>, i: u128, j: u128)
    ensures
        dp_best(w, i, j) matches Some(e) ==> e.0 <= popcount(i as nat) + popcount(j as nat),
    decreases i + j, 2nat, 0int, 0int,
{
    lemma_best_a_bound(w, i, j, candidates(i), candidates(j), 0, None);
}

proof fn lemma_best_a_bound(w: Seq<i64>, i: u128, j: u128, ca: Seq<u128>, cb: Seq<u128>, ka: nat, acc: Best)
    requires
        ca == candidates(i),
        cb == candidates(j),
        acc matches Some(e) ==> e.0 <= popcount(i as nat) + popcount(j as nat),
    ensures
        best_a(w, i, j, ca, cb, ka, acc) matches Some(e) ==> e.0 <= popcount(i as nat) + popcount(j as nat),
    decreases i + j, 1nat, ca.len() - ka, 0int,
{
    if ka < ca.len() {
        lemma_best_b_bound(w, i, j, ca, cb, ka, 0, acc);
        lemma_best_a_bound(w, i, j, ca, cb, ka + 1, best_b(w, i, j, ca, cb, ka, 0, acc));
    }
}

proof fn lemma_best_b_bound(
    w: Seq<i64>,
    i: u128,
    j: u128,
    ca: Seq<u128>,
    cb: Seq<u128>,
    ka: nat,
    kb: nat,
    acc: Best,
)
    requires
        ca == candidates(i),
        cb == candidates(j),
        acc matches Some(e) ==> e.0 <= popcount(i as nat) + popcount(j as nat),
    ensures
        best_b(w, i, j, ca, cb, ka, kb, acc) matches Some(e) ==> e.0 <= popcount(i as nat) + popcount(j as nat),
    decreases i + j, 0nat, ca.len() - ka, cb.len() - kb,
{
    if kb < cb.len() && ka < ca.len() {
        let a = ca[ka as int];
        let b = cb[kb as int];
        lemma_candidates(i);
        lemma_candidates(j);
        assert(0 < a <= i && popcount((i - a) as nat) + popcount(a as nat) == popcount(i as nat));
        assert(0 < b <= j && popcount((j - b) as nat) + popcount(b as nat) == popcount(j as nat));
        lemma_dp_bound(w, (i - a) as u128, (j - b) as u128);
        let acc2 = match dp_value(w, (i - a) as u128, (j - b) as u128) {
            Some(x) => better(acc, (x + popcount(a as nat) + popcount(b as nat) - 1) as nat, block_choice(i, j, a, b)),
            None => acc,
        };
        lemma_popcount_pos(a as nat);
        lemma_best_b_bound(w, i, j, ca, cb, ka, kb + 1, acc2);
    }
}

proof fn lemma_popcount_pos(n: nat)
    requires
        n > 0,
    ensures
        popcount(n) >= 1,
    decreases n,
{
    if n % 2 == 0 {
        lemma_popcount_pos(n / 2);
    }
}

/// Every recorded block, and the rest it leaves, has an entry of its own.
pub open spec fn table_closed(t: Map<(u128, u128), TableEntry>) -> bool {
    forall|k: (u128, u128)|
        #[trigger] t.contains_key(k) ==> (t[k].1 matches Some(c) ==> t.contains_key(c) && t.contains_key(
            ((k.0 - c.0) as u128, (k.1 - c.1) as u128),
        ))
}

/// Every entry of the table holds the least number of transfers of its key.
pub open spec fn table_values_ok(w: Seq<i64>, t: Map<(u128, u128), TableEntry>) -> bool {
    forall|k: (u128, u128)| #[trigger] t.contains_key(k) ==> dp_value(w, k.0, k.1) == Some(t[k].0 as nat)
}

/// The entry `e` for `k` holds the best first block of `k`.
pub open spec fn entry_canonical(w: Seq<i64>, k: (u128, u128), e: TableEntry) -> bool {
    !(k.0 == 0 && k.1 == 0) && mask_weight(k.0 as nat, w, 0) == -mask_weight(k.1 as nat, w, 0) && dp_best(w, k.0, k.1)
        == Some(entry_nat(e))
}

/// The block recorded for `k`, and the rest it leaves, have entries of their own.
pub open spec fn entry_closed(t: Map<(u128, u128), TableEntry>, k: (u128, u128)) -> bool {
    t[k].1 matches Some(c) ==> t.contains_key(c) && t.contains_key(((k.0 - c.0) as u128, (k.1 - c.1) as u128))
}

/// `t` keeps every entry of `t0` as it was.
pub open spec fn table_grows(t0: Map<(u128, u128), TableEntry>, t: Map<(u128, u128), TableEntry>) -> bool {
    forall|k: (u128, u128)| #[trigger] t0.contains_key(k) ==> t.contains_key(k) && t[k] == t0[k]
}

/// Every entry of `t` that `t0` lacks holds the best first block of its key,
/// whose block and rest have entries of their own.
pub open spec fn new_entries_ok(w: Seq<i64>, t0: Map<(u128, u128), TableEntry>, t: Map<(u128, u128), TableEntry>) -> bool {
    forall|k: (u128, u128)|
        #[trigger] t.contains_key(k) && !t0.contains_key(k) ==> entry_canonical(w, k, t[k]) && entry_closed(t, k)
}

/// A table of best first blocks holds the least numbers of transfers.
pub proof fn lemma_valid_values(w: Seq<i64>, t: Map<(u128, u128), TableEntry>)
    requires
        table_valid(w, t),
    ensures
        table_values_ok(w, t),
{
}

/// Growing a table by one step and then another is growing it.
proof fn lemma_new_entries_trans(
    w: Seq<i64>,
    t0: Map<(u128, u128), TableEntry>,
    t1: Map<(u128, u128), TableEntry>,
    t2: Map<(u128, u128), TableEntry>,
)
    requires
        table_grows(t0, t1),
        new_entries_ok(w, t0, t1),
        table_grows(t1, t2),
        new_entries_ok(w, t1, t2),
    ensures
        table_grows(t0, t2),
        new_entries_ok(w, t0, t2),
{
    assert forall|k: (u128, u128)| #[trigger] t2.contains_key(k) && !t0.contains_key(k) implies entry_canonical(
        w,
        k,
        t2[k],
    ) && entry_closed(t2, k) by {
        if t1.contains_key(k) {
            assert(entry_canonical(w, k, t1[k]) && entry_closed(t1, k));
            if let Some(c) = t1[k].1 {
                assert(t1.contains_key(c));
                assert(t2.contains_key(c));
                assert(t1.contains_key(((k.0 - c.0) as u128, (k.1 - c.1) as u128)));
            }
        }
    }
}

/// A table that grows only by entries of best first blocks, whose blocks and
/// rests have entries, stays a closed table of best first blocks.
pub proof fn lemma_dp_keeps_table(w: Seq<i64>, t0: Map<(u128, u128), TableEntry>, t: Map<(u128, u128), TableEntry>)
    requires
        table_valid(w, t0),
        table_closed(t0),
        table_grows(t0, t),
        new_entries_ok(w, t0, t),
    ensures
        table_valid(w, t),
        table_closed(t),
{
    assert forall|k: (u128, u128)| #[trigger] t.contains_key(k) implies (t[k].1 matches Some(c) ==> t.contains_key(c)
        && t.contains_key(((k.0 - c.0) as u128, (k.1 - c.1) as u128))) by {
        if t0.contains_key(k) {
            if let Some(c) = t[k].1 {
                assert(t0.contains_key(c));
                assert(t0.contains_key(((k.0 - c.0) as u128, (k.1 - c.1) as u128)));
            }
        } else {
            assert(entry_closed(t, k));
        }
    }
    assert forall|k: (u128, u128)| #[trigger] t.contains_key(k) implies !(k.0 == 0 && k.1 == 0) && mask_weight(
        k.0 as nat,
        w,
        0,
    ) == -mask_weight(k.1 as nat, w, 0) && dp_best(w, k.0, k.1) == Some(entry_nat(t[k])) by {
        if !t0.contains_key(k) {
            assert(entry_canonical(w, k, t[k]));
        }
    }
}

/// Where the rest of splitting `(a, b)` off `(i, j)` can be settled and is not
/// empty, the table has an entry for it.
pub open spec fn rest_recorded(
    w: Seq<i64>,
    t: Map<(u128, u128), TableEntry>,
    i: u128,
    j: u128,
    a: u128,
    b: u128,
) -> bool {
    dp_value(w, (i - a) as u128, (j - b) as u128) is Some && !((i - a) as u128 == 0 && (j - b) as u128 == 0)
        ==> t.contains_key(((i - a) as u128, (j - b) as u128))
}

/// The view of an exec best-so-far.
pub open spec fn best_view(b: Option<TableEntry>) -> Best {
    match b {
        Some(e) => Some(entry_nat(e)),
        None => None,
    }
}

/// The least number of transfers that settle the creditors of the mask `i`
/// and the debtors of the mask `j` in blocks, each pairing some creditors with
/// some debtors, where the weights of `i` and `j` cancel. The table holds
/// values already found: an entry is read where there is one, and every pair
/// of masks whose value is found anew goes into the table with its best first
/// block; entries already there stay as they were.
pub fn dp(i: u128, j: u128, weights: &Vec<i64>, table: &mut Table) -> (res: Option<usize>)
    requires
        i < pow2(weights@.len()),
        j < pow2(weights@.len()),
        popcount(i as nat) < 64,
        popcount(j as nat) < 64,
        table_values_ok(weights@, old(table)@),
    ensures
        table_values_ok(weights@, final(table)@),
        table_grows(old(table)@, final(table)@),
        new_entries_ok(weights@, old(table)@, final(table)@),
        forall|k: (u128, u128)|
            #[trigger] final(table)@.contains_key(k) && !old(table)@.contains_key(k) ==> k.0 + k.1 <= i + j,
        res matches Some(x) ==> (!(i == 0 && j == 0) ==> final(table)@.contains_key((i, j)) && final(table)@[(i, j)].0 == x),
        res is None ==> !final(table)@.contains_key((i, j)),
        match res {
            Some(x) => dp_value(weights@, i, j) == Some(x as nat),
            None => dp_value(weights@, i, j) is None,
        },
    decreases i + j,
{
    if i == 0 && j == 0 {
        return Some(0);
    }
    if let Some(entry) = table.get(&(i, j)) {
        assert(table@.contains_key((i, j)));
        return Some(entry.0);
    }
    if number_weight(i, weights.as_slice()) != -number_weight(j, weights.as_slice()) {
        return None;
    }
    let ca = number_and_subset(i);
    let cb = number_and_subset(j);
    proof {
        lemma_candidates(i);
        lemma_candidates(j);
    }
    let ghost w = weights@;
    let ghost t0 = table@;
    let mut best: Option<TableEntry> = None;
    let mut ka: usize = 0;
    while ka < ca.len()
        invariant
            ka <= ca@.len(),
            ca@ == candidates(i),
            cb@ == candidates(j),
            w == weights@,
            !(i == 0 && j == 0),
            mask_weight(i as nat, w, 0) == -mask_weight(j as nat, w, 0),
            i < pow2(w.len()),
            j < pow2(w.len()),
            popcount(i as nat) < 64,
            popcount(j as nat) < 64,
            forall|k: int|
                0 <= k < ca@.len() ==> {
                    let a = #[trigger] ca@[k];
                    &&& 0 < a <= i
                    &&& popcount((i - a) as nat) + popcount(a as nat) == popcount(i as nat)
                },
            forall|k: int|
                0 <= k < cb@.len() ==> {
                    let b = #[trigger] cb@[k];
                    &&& 0 < b <= j
                    &&& popcount((j - b) as nat) + popcount(b as nat) == popcount(j as nat)
                },
            table_values_ok(w, table@),
            t0 == old(table)@,
            table_grows(t0, table@),
            new_entries_ok(w, t0, table@),
            !t0.contains_key((i, j)),
            !table@.contains_key((i, j)),
            forall|k: (u128, u128)| #[trigger] table@.contains_key(k) && !t0.contains_key(k) ==> k.0 + k.1 < i + j,
            forall|p: int, q: int|
                0 <= p < ka && 0 <= q < cb@.len() ==> rest_recorded(w, table@, i, j, #[trigger] ca@[p], #[trigger] cb@[q]),
            best matches Some(e) ==> e.0 <= popcount(i as nat) + popcount(j as nat),
            best_a(w, i, j, ca@, cb@, ka as nat, best_view(best)) == dp_best(w, i, j),
        decreases ca@.len() - ka,
    {
        let mut kb: usize = 0;
        while kb < cb.len()
            invariant
                ka < ca@.len(),
                kb <= cb@.len(),
                ca@ == candidates(i),
                cb@ == candidates(j),
                w == weights@,
                i < pow2(w.len()),
                j < pow2(w.len()),
                popcount(i as nat) < 64,
                popcount(j as nat) < 64,
                forall|k: int|
                    0 <= k < ca@.len() ==> {
                        let a = #[trigger] ca@[k];
                        &&& 0 < a <= i
                        &&& popcount((i - a) as nat) + popcount(a as nat) == popcount(i as nat)
                    },
                forall|k: int|
                    0 <= k < cb@.len() ==> {
                        let b = #[trigger] cb@[k];
                        &&& 0 < b <= j
                        &&& popcount((j - b) as nat) + popcount(b as nat) == popcount(j as nat)
                    },
                table_values_ok(w, table@),
                t0 == old(table)@,
                table_grows(t0, table@),
                new_entries_ok(w, t0, table@),
                !t0.contains_key((i, j)),
                !table@.contains_key((i, j)),
                forall|k: (u128, u128)| #[trigger] table@.contains_key(k) && !t0.contains_key(k) ==> k.0 + k.1 < i + j,
                forall|p: int, q: int|
                    0 <= p < ka && 0 <= q < cb@.len() ==> rest_recorded(w, table@, i, j, #[trigger] ca@[p], #[trigger] cb@[q]),
                forall|q: int| 0 <= q < kb ==> rest_recorded(w, table@, i, j, ca@[ka as int], #[trigger] cb@[q]),
                best matches Some(e) ==> e.0 <= popcount(i as nat) + popcount(j as nat),
                best_a(w, i, j, ca@, cb@, (ka + 1) as nat, best_b(w, i, j, ca@, cb@, ka as nat, kb as nat, best_view(best)))
                    == dp_best(w, i, j),
            decreases cb@.len() - kb,
        {
            let a = ca[ka];
            let b = cb[kb];
            let ghost acc = best_view(best);
            proof {
                assert(0 < a <= i);
                assert(0 < b <= j);
                lemma_dp_bound(w, (i - a) as u128, (j - b) as u128);
                lemma_popcount_pos(a as nat);
                lemma_popcount_pos(b as nat);
                lemma_pow2_128();
            }
            let ghost before = table@;
            let r = dp(i - a, j - b, weights, table);
            proof {
                lemma_new_entries_trans(w, t0, before, table@);
                assert forall|p: int, q: int|
                    0 <= p < ka && 0 <= q < cb@.len() implies rest_recorded(w, table@, i, j, #[trigger] ca@[p], #[trigger] cb@[q]) by {
                    assert(rest_recorded(w, before, i, j, ca@[p], cb@[q]));
                }
                assert forall|q: int| 0 <= q < kb + 1 implies rest_recorded(w, table@, i, j, ca@[ka as int], #[trigger] cb@[q]) by {
                    if q < kb {
                        assert(rest_recorded(w, before, i, j, ca@[ka as int], cb@[q]));
                    }
                }
            }
            match r {
                Some(x) => {
                    let pa = count_ones_u128(a) as usize;
                    let pb = count_ones_u128(b) as usize;
                    let v: usize = x + pa + pb - 1;
                    let ch: Option<(u128, u128)> = if i != a && j != b {
                        Some((a, b))
                    } else {
                        None
                    };
                    match best {
                        None => {
                            best = Some((v, ch));
                        },
                        Some(m) => {
                            if v < m.0 {
                                best = Some((v, ch));
                            }
                        },
                    }
                    assert(best_view(best) == better(acc, (x + popcount(a as nat) + popcount(b as nat) - 1) as nat, block_choice(i, j, a, b)));
                },
                None => {},
            }
            kb = kb + 1;
        }
        ka = ka + 1;
    }
    match best {
        Some(v) => {
            proof {
                assert(best_view(best) == dp_best(w, i, j));
                lemma_best_choice_a(w, i, j, candidates(i), candidates(j), 0, None);
                assert(choice_ok(w, i, j, entry_nat(v)));
                if let Some(c) = v.1 {
                    lemma_choice_halves(w, i, j, entry_nat(v));
                    let p = choose|p: int| 0 <= p < ca@.len() && ca@[p] == c.0;
                    let q = choose|q: int| 0 <= q < cb@.len() && cb@[q] == c.1;
                    assert(rest_recorded(w, table@, i, j, ca@[p], cb@[q]));
                    let p2 = choose|p: int| 0 <= p < ca@.len() && ca@[p] == (i - c.0) as u128;
                    let q2 = choose|q: int| 0 <= q < cb@.len() && cb@[q] == (j - c.1) as u128;
                    assert(rest_recorded(w, table@, i, j, ca@[p2], cb@[q2]));
                    assert(table@.contains_key(c));
                }
            }
            let ghost before = table@;
            table.insert((i, j), v);
            proof {
                assert(entry_canonical(w, (i, j), v));
                assert(entry_closed(table@, (i, j)));
                assert forall|k: (u128, u128)| #[trigger] t0.contains_key(k) implies table@.contains_key(k) && table@[k]
                    == t0[k] by {
                    assert(before.contains_key(k));
                }
                assert forall|k: (u128, u128)| #[trigger] table@.contains_key(k) && !t0.contains_key(k) implies entry_canonical(
                    w,
                    k,
                    table@[k],
                ) && entry_closed(table@, k) by {
                    if k != (i, j) {
                        assert(before.contains_key(k));
                        assert(entry_closed(before, k));
                    }
                }
                assert forall|k: (u128, u128)| #[trigger] table@.contains_key(k) implies dp_value(w, k.0, k.1) == Some(
                    table@[k].0 as nat,
                ) by {
                    if k != (i, j) {
                        assert(before.contains_key(k));
                    }
                }
                assert forall|k: (u128, u128)| #[trigger] table@.contains_key(k) && !t0.contains_key(k) implies k.0 + k.1
                    <= i + j by {
                    if k != (i, j) {
                        assert(before.contains_key(k));
                    }
                }
            }
            Some(v.0)
        },
        None => None,
    }
}


// --------------------------------------------------------------- extraction

/// Every recorded block lies strictly inside its key.
pub open spec fn table_shape_ok(t: Map<(u128, u128), TableEntry>) -> bool {
    forall|k: (u128, u128)|
        #[trigger] t.contains_key(k) ==> (t[k].1 matches Some(c) ==> 0 < c.0 < k.0 && 0 < c.1 < k.1)
}

/// The blocks, each as the union of its masks, that following the recorded
/// first blocks from `(i, j)` yields.
pub open spec fn extract(t: Map<(u128, u128), TableEntry>, i: u128, j: u128) -> Seq<u128>
    decreases i + j,
{
    if i == 0 || j == 0 || !t.contains_key((i, j)) {
        Seq::empty()
    } else {
        match t[(i, j)].1 {
            None => seq![(i + j) as u128],
            Some(c) => if 0 < c.0 < i && 0 < c.1 < j {
                extract(t, c.0, c.1) + extract(t, (i - c.0) as u128, (j - c.1) as u128)
            } else {
                Seq::empty()
            },
        }
    }
}

/// The block recorded in `e` for `(i, j)`, where there is one, is a pair of
/// candidates strictly inside `(i, j)` whose rest can be settled.
pub open spec fn choice_ok(w: Seq<i64>, i: u128, j: u128, e: (nat, Option<(u128, u128)>)) -> bool {
    e.1 matches Some(c) ==> {
        &&& 0 < c.0 < i
        &&& 0 < c.1 < j
        &&& candidates(i).contains(c.0)
        &&& candidates(j).contains(c.1)
        &&& dp_value(w, (i - c.0) as u128, (j - c.1) as u128) is Some
    }
}

/// Each choice that the best-first-block fold records is a `choice_ok` one.
proof fn lemma_best_choice_a(w: Seq<i64>, i: u128, j: u128, ca: Seq<u128>, cb: Seq<u128>, ka: nat, acc: Best)
    requires
        ca == candidates(i),
        cb == candidates(j),
        acc matches Some(e) ==> choice_ok(w, i, j, e),
    ensures
        best_a(w, i, j, ca, cb, ka, acc) matches Some(e) ==> choice_ok(w, i, j, e),
    decreases ca.len() - ka,
{
    if ka < ca.len() {
        lemma_best_choice_b(w, i, j, ca, cb, ka, 0, acc);
        lemma_best_choice_a(w, i, j, ca, cb, ka + 1, best_b(w, i, j, ca, cb, ka, 0, acc));
    }
}

proof fn lemma_best_choice_b(
    w: Seq<i64>,
    i: u128,
    j: u128,
    ca: Seq<u128>,
    cb: Seq<u128>,
    ka: nat,
    kb: nat,
    acc: Best,
)
    requires
        ca == candidates(i),
        cb == candidates(j),
        acc matches Some(e) ==> choice_ok(w, i, j, e),
    ensures
        best_b(w, i, j, ca, cb, ka, kb, acc) matches Some(e) ==> choice_ok(w, i, j, e),
    decreases cb.len() - kb,
{
    if kb < cb.len() && ka < ca.len() {
        let a = ca[ka as int];
        let b = cb[kb as int];
        lemma_candidates(i);
        lemma_candidates(j);
        assert(0 < a <= i && 0 < b <= j);
        assert(ca.contains(a));
        assert(cb.contains(b));
        let acc2 = match dp_value(w, (i - a) as u128, (j - b) as u128) {
            Some(x) => better(acc, (x + popcount(a as nat) + popcount(b as nat) - 1) as nat, block_choice(i, j, a, b)),
            None => acc,
        };
        lemma_best_choice_b(w, i, j, ca, cb, ka, kb + 1, acc2);
    }
}

/// A valid table records only blocks strictly inside their keys.
pub proof fn lemma_valid_shape(w: Seq<i64>, t: Map<(u128, u128), TableEntry>)
    requires
        table_valid(w, t),
    ensures
        table_shape_ok(t),
{
    assert forall|k: (u128, u128)| #[trigger] t.contains_key(k) implies (t[k].1 matches Some(c) ==> 0 < c.0 < k.0
        && 0 < c.1 < k.1) by {
        lemma_best_choice_a(w, k.0, k.1, candidates(k.0), candidates(k.1), 0, None);
    }
}

fn table_extract_rec(i: u128, j: u128, table: &Table, partitions: &mut Vec<u128>)
    requires
        i + j <= u128::MAX,
        table_shape_ok(table@),
    ensures
        final(partitions)@ == old(partitions)@ + extract(table@, i, j),
    decreases i + j,
{
    if i == 0 || j == 0 {
        assert(old(partitions)@ + Seq::<u128>::empty() == old(partitions)@);
        return;
    }
    match table.get(&(i, j)) {
        Some(entry) => {
            match entry.1 {
                None => {
                    partitions.push(i + j);
                },
                Some(c) => {
                    let (a, b) = c;
                    assert(table@.contains_key((i, j)));
                    let ghost mid = partitions@;
                    table_extract_rec(a, b, table, partitions);
                    table_extract_rec(i - a, j - b, table, partitions);
                    assert(old(partitions)@ + extract(table@, i, j) =~= old(partitions)@ + extract(table@, a, b)
                        + extract(table@, (i - a) as u128, (j - b) as u128));
                },
            }
        },
        None => {
            assert(old(partitions)@ + Seq::<u128>::empty() == old(partitions)@);
        },
    }
}

/// Follows the recorded first blocks from `(i, j)` and returns every block
/// reached, as the union of its two masks.
pub fn table_extract_partitioning(i: u128, j: u128, table: &Table) -> (res: Vec<u128>)
    requires
        i + j <= u128::MAX,
        table_shape_ok(table@),
    ensures
        res@ == extract(table@, i, j),
{
    let mut partitions: Vec<u128> = Vec::new();
    table_extract_rec(i, j, table, &mut partitions);
    assert(Seq::<u128>::empty() + extract(table@, i, j) == extract(table@, i, j));
    partitions
}


// ------------------------------------------------------------ completeness

/// Every increasing list of `k` positions in `start..n` is a `k`-combination.
pub proof fn lemma_combinations_complete(start: nat, n: nat, k: nat, c: Seq<usize>)
    requires
        n <= usize::MAX,
        increasing(c),
        c.len() == k,
        forall|x: int| 0 <= x < c.len() ==> start <= #[trigger] c[x] < n,
    ensures
        combinations_spec(start, n, k).contains(c),
    decreases k, n - start,
{
    if k == 0 {
        assert(c =~= Seq::<usize>::empty());
        assert(combinations_spec(start, n, k)[0] == c);
    } else if start >= n {
        assert(start <= c[0] < n);
    } else {
        let a = combinations_spec(start + 1, n, (k - 1) as nat);
        let first = a.map_values(|c: Seq<usize>| seq![start as usize] + c);
        let rest = combinations_spec(start + 1, n, k);
        assert(combinations_spec(start, n, k) == first + rest);
        if c[0] == start {
            let c0 = c.subrange(1, c.len() as int);
            assert forall|x: int, y: int| 0 <= x < y < c0.len() implies #[trigger] c0[x] < #[trigger] c0[y] by {
                assert(c[x + 1] < c[y + 1]);
            }
            assert forall|x: int| 0 <= x < c0.len() implies start + 1 <= #[trigger] c0[x] < n by {
                assert(c[0] < c[x + 1]);
            }
            lemma_combinations_complete(start + 1, n, (k - 1) as nat, c0);
            let q = choose|q: int| 0 <= q < a.len() && a[q] == c0;
            assert(c =~= seq![start as usize] + c0);
            assert((first + rest)[q] == c);
        } else {
            assert forall|x: int| 0 <= x < c.len() implies start + 1 <= #[trigger] c[x] < n by {
                if x > 0 {
                    assert(c[0] < c[x]);
                }
            }
            lemma_combinations_complete(start + 1, n, k, c);
            let q = choose|q: int| 0 <= q < rest.len() && rest[q] == c;
            assert((first + rest)[first.len() + q] == c);
        }
    }
}

/// Every increasing list of at most `k` positions below `n` is listed by `powerset_upto`.
pub proof fn lemma_powerset_complete(n: nat, k: nat, c: Seq<usize>)
    requires
        n <= usize::MAX,
        increasing(c),
        c.len() <= k,
        forall|x: int| 0 <= x < c.len() ==> #[trigger] c[x] < n,
    ensures
        powerset_upto(n, k).contains(c),
    decreases k,
{
    if c.len() == k {
        lemma_combinations_complete(0, n, k, c);
        let b = combinations_spec(0, n, k);
        let q = choose|q: int| 0 <= q < b.len() && b[q] == c;
        if k > 0 {
            let a = powerset_upto(n, (k - 1) as nat);
            assert((a + b)[a.len() + q] == c);
        } else {
            assert(powerset_upto(n, k)[q] == c);
        }
    } else {
        lemma_powerset_complete(n, (k - 1) as nat, c);
        let a = powerset_upto(n, (k - 1) as nat);
        let b = combinations_spec(0, n, k);
        let q = choose|q: int| 0 <= q < a.len() && a[q] == c;
        assert((a + b)[q] == c);
    }
}

/// The position of `v` in `b`.
pub open spec fn index_in(b: Seq<usize>, v: usize) -> int {
    choose|q: int| 0 <= q < b.len() && b[q] == v
}

/// Every increasing sublist of an increasing list is one of its subsets.
pub proof fn lemma_subsets_complete(b: Seq<usize>, t: Seq<usize>)
    requires
        b.len() <= usize::MAX,
        increasing(b),
        increasing(t),
        within(t, b),
    ensures
        subsets_of(b).contains(t),
{
    let sq = Seq::new(t.len(), |x: int| index_in(b, t[x]) as usize);
    assert forall|x: int| 0 <= x < t.len() implies 0 <= index_in(b, t[x]) < b.len() && b[index_in(b, t[x])]
        == t[x] by {
        assert(b.contains(t[x]));
    }
    assert forall|x: int, y: int| 0 <= x < y < sq.len() implies #[trigger] sq[x] < #[trigger] sq[y] by {
        assert(b.contains(t[x]));
        assert(b.contains(t[y]));
        let qx = index_in(b, t[x]);
        let qy = index_in(b, t[y]);
        assert(t[x] < t[y]);
        if qy <= qx {
            if qy < qx {
                assert(b[qy] < b[qx]);
            }
        }
    }
    assert forall|x: int| 0 <= x < sq.len() implies #[trigger] sq[x] < b.len() by {
        assert(b.contains(t[x]));
    }
    lemma_increasing_len(sq, b.len());
    lemma_powerset_complete(b.len(), b.len(), sq);
    let ps = powerset_spec(b.len());
    let q = choose|q: int| 0 <= q < ps.len() && ps[q] == sq;
    assert(sq.map_values(|k: usize| b[k as int]) =~= t) by {
        assert forall|x: int| 0 <= x < t.len() implies sq.map_values(|k: usize| b[k as int])[x] == t[x] by {
            assert(b.contains(t[x]));
        }
    }
    assert(subsets_of(b)[q] == t);
}

/// A listed subset whose number is nonzero gives a listed nonzero mask.
proof fn lemma_masks_nonzero_contains(p: Seq<Seq<usize>>, q: int)
    requires
        0 <= q < p.len(),
        pow2_sum(p[q]) != 0,
    ensures
        masks_nonzero(p).contains(pow2_sum(p[q]) as u128),
    decreases p.len(),
{
    let p2 = p.drop_last();
    if q == p.len() - 1 {
        assert(p.last() == p[q]);
        let m = masks_nonzero(p2).push(pow2_sum(p[q]) as u128);
        assert(m[m.len() - 1] == pow2_sum(p[q]) as u128);
    } else {
        assert(p2[q] == p[q]);
        lemma_masks_nonzero_contains(p2, q);
        let m2 = masks_nonzero(p2);
        let k = choose|k: int| 0 <= k < m2.len() && m2[k] == pow2_sum(p[q]) as u128;
        if pow2_sum(p.last()) != 0 {
            assert(masks_nonzero(p)[k] == m2[k]);
        }
    }
}

/// Every nonzero number whose ones are among those of `i` is a candidate of `i`.
pub proof fn lemma_candidates_complete(i: u128, a: u128)
    requires
        a != 0,
        within(bit_positions(a as nat, 0), bit_positions(i as nat, 0)),
    ensures
        candidates(i).contains(a),
{
    let b = bit_positions(i as nat, 0);
    let t = bit_positions(a as nat, 0);
    lemma_pow2_128();
    lemma_bits_props(i as nat, 128);
    lemma_bits_props(a as nat, 128);
    lemma_increasing_len(b, 128);
    lemma_subsets_complete(b, t);
    let subs = subsets_of(b);
    let q = choose|q: int| 0 <= q < subs.len() && subs[q] == t;
    lemma_masks_nonzero_contains(subs, q);
}


// ------------------------------------------------------------- mask weights

/// The sum of `w[k]` over the positions `k` listed in `s`.
pub open spec fn weight_at(w: Seq<i64>, s: Seq<usize>) -> int
    decreases s.len(),
{
    if s.len() == 0 {
        0
    } else {
        weight_at(w, s.drop_last()) + w[s.last() as int]
    }
}

proof fn lemma_weight_at_concat(w: Seq<i64>, a: Seq<usize>, b: Seq<usize>)
    ensures
        weight_at(w, a + b) == weight_at(w, a) + weight_at(w, b),
    decreases b.len(),
{
    if b.len() == 0 {
        assert(a + b == a);
    } else {
        lemma_weight_at_concat(w, a, b.drop_last());
        assert((a + b).drop_last() == a + b.drop_last());
    }
}

/// The weight of a mask is the weight of the positions of its ones.
pub proof fn lemma_mask_weight_at(n: nat, w: Seq<i64>, off: nat)
    requires
        off <= 256,
        n < pow2((256 - off) as nat),
    ensures
        mask_weight(n, w, off) == weight_at(w, bit_positions(n, off)),
    decreases n,
{
    if n > 0 {
        if off == 256 {
            lemma2_to64();
        }
        lemma_pow2_unfold((256 - off) as nat);
        lemma_mask_weight_at(n / 2, w, off + 1);
        let h = if n % 2 == 1 {
            seq![off as usize]
        } else {
            Seq::<usize>::empty()
        };
        lemma_weight_at_concat(w, h, bit_positions(n / 2, off + 1));
        assert(bit_positions(n, off) == h + bit_positions(n / 2, off + 1));
        if n % 2 == 1 {
            assert(h.drop_last() =~= Seq::<usize>::empty());
            assert(h.last() == off as usize);
            assert((off as usize) as int == off);
            assert(weight_at(w, h.drop_last()) == 0);
            assert(weight_at(w, h) == weight_at(w, h.drop_last()) + w[h.last() as int]);
        } else {
            assert(weight_at(w, h) == 0);
        }
    }
}

/// Taking an increasing sublist `t` out of an increasing `b` splits its weight.
pub proof fn lemma_weight_split(w: Seq<i64>, b: Seq<usize>, t: Seq<usize>)
    requires
        increasing(b),
        increasing(t),
        within(t, b),
    ensures
        weight_at(w, b) == weight_at(w, t) + weight_at(w, without(b, t)),
    decreases b.len(),
{
    if b.len() == 0 {
        if t.len() > 0 {
            assert(b.contains(t[0]));
        }
        assert(t =~= Seq::<usize>::empty());
    } else {
        let e = b.last();
        let b2 = b.drop_last();
        assert forall|x: int| 0 <= x < b2.len() implies #[trigger] b2[x] < e by {
            assert(b[x] < b[b.len() - 1]);
        }
        if t.contains(e) {
            let k = choose|k: int| 0 <= k < t.len() && t[k] == e;
            assert(k == t.len() - 1) by {
                if k < t.len() - 1 {
                    let l = t[t.len() - 1];
                    assert(b.contains(l));
                    let q = choose|q: int| 0 <= q < b.len() && b[q] == l;
                    if q < b.len() - 1 {
                        assert(b2[q] < e);
                    }
                    assert(t[k] < t[t.len() - 1]);
                }
            }
            let t2 = t.drop_last();
            assert(increasing(t2));
            assert(within(t2, b2)) by {
                assert forall|x: int| 0 <= x < t2.len() implies b2.contains(#[trigger] t2[x]) by {
                    assert(b.contains(t[x]));
                    let q = choose|q: int| 0 <= q < b.len() && b[q] == t[x];
                    assert(t[x] < t[t.len() - 1]);
                    assert(q != b.len() - 1);
                    assert(b2[q] == t2[x]);
                }
            }
            lemma_weight_split(w, b2, t2);
            assert forall|x: int| 0 <= x < b2.len() implies (t.contains(#[trigger] b2[x]) <==> t2.contains(b2[x])) by {
                if t.contains(b2[x]) {
                    let q = choose|q: int| 0 <= q < t.len() && t[q] == b2[x];
                    assert(q != t.len() - 1);
                    assert(t2[q] == t[q]);
                }
                if t2.contains(b2[x]) {
                    let q = choose|q: int| 0 <= q < t2.len() && t2[q] == b2[x];
                    assert(t[q] == t2[q]);
                }
            }
            lemma_without_same(b2, t, t2);
            assert(without(b, t) == without(b2, t));
            assert(t.last() == e);
        } else {
            assert(within(t, b2)) by {
                assert forall|x: int| 0 <= x < t.len() implies b2.contains(#[trigger] t[x]) by {
                    assert(b.contains(t[x]));
                    let q = choose|q: int| 0 <= q < b.len() && b[q] == t[x];
                    assert(q != b.len() - 1);
                    assert(b2[q] == t[x]);
                }
            }
            lemma_weight_split(w, b2, t);
            let w2 = without(b2, t);
            assert(without(b, t) == w2.push(e));
            assert(w2.push(e).drop_last() == w2);
        }
    }
}

/// Splitting a candidate `a` off `i` splits the weight of `i`.
pub proof fn lemma_mask_weight_split(w: Seq<i64>, i: u128, a: u128)
    requires
        candidates(i).contains(a),
    ensures
        mask_weight(i as nat, w, 0) == mask_weight(a as nat, w, 0) + mask_weight((i - a) as nat, w, 0),
        0 < a <= i,
{
    lemma_candidates(i);
    let k = choose|k: int| 0 <= k < candidates(i).len() && candidates(i)[k] == a;
    assert(candidates(i)[k] == a);
    let b = bit_positions(i as nat, 0);
    let t = bit_positions(a as nat, 0);
    lemma_pow2_128();
    lemma_bits_props(i as nat, 128);
    lemma_bits_props(a as nat, 128);
    lemma_weight_split(w, b, t);
    lemma_pow2_mono(128, 256);
    lemma_mask_weight_at(i as nat, w, 0);
    lemma_mask_weight_at(a as nat, w, 0);
    lemma_mask_weight_at((i - a) as nat, w, 0);
}


// ---------------------------------------------------- when a pair is settled

proof fn lemma_best_keep_b(w: Seq<i64>, i: u128, j: u128, ca: Seq<u128>, cb: Seq<u128>, ka: nat, kb: nat, acc: Best)
    requires
        acc is Some,
    ensures
        best_b(w, i, j, ca, cb, ka, kb, acc) is Some,
    decreases cb.len() - kb,
{
    if kb < cb.len() && ka < ca.len() {
        let a = ca[ka as int];
        let b = cb[kb as int];
        let acc2 = if 0 < a <= i && 0 < b <= j {
            match dp_value(w, (i - a) as u128, (j - b) as u128) {
                Some(x) => better(acc, (x + popcount(a as nat) + popcount(b as nat) - 1) as nat, block_choice(i, j, a, b)),
                None => acc,
            }
        } else {
            acc
        };
        lemma_best_keep_b(w, i, j, ca, cb, ka, kb + 1, acc2);
    }
}

proof fn lemma_best_keep_a(w: Seq<i64>, i: u128, j: u128, ca: Seq<u128>, cb: Seq<u128>, ka: nat, acc: Best)
    requires
        acc is Some,
    ensures
        best_a(w, i, j, ca, cb, ka, acc) is Some,
    decreases ca.len() - ka,
{
    if ka < ca.len() {
        lemma_best_keep_b(w, i, j, ca, cb, ka, 0, acc);
        lemma_best_keep_a(w, i, j, ca, cb, ka + 1, best_b(w, i, j, ca, cb, ka, 0, acc));
    }
}

proof fn lemma_best_b_some(
    w: Seq<i64>,
    i: u128,
    j: u128,
    ca: Seq<u128>,
    cb: Seq<u128>,
    ka: nat,
    kb: nat,
    acc: Best,
    kb0: nat,
)
    requires
        ka < ca.len(),
        kb <= kb0 < cb.len(),
        0 < ca[ka as int] <= i,
        0 < cb[kb0 as int] <= j,
        dp_value(w, (i - ca[ka as int]) as u128, (j - cb[kb0 as int]) as u128) is Some,
    ensures
        best_b(w, i, j, ca, cb, ka, kb, acc) is Some,
    decreases cb.len() - kb,
{
    let a = ca[ka as int];
    let b = cb[kb as int];
    let acc2 = if 0 < a <= i && 0 < b <= j {
        match dp_value(w, (i - a) as u128, (j - b) as u128) {
            Some(x) => better(acc, (x + popcount(a as nat) + popcount(b as nat) - 1) as nat, block_choice(i, j, a, b)),
            None => acc,
        }
    } else {
        acc
    };
    if kb == kb0 {
        lemma_best_keep_b(w, i, j, ca, cb, ka, kb + 1, acc2);
    } else {
        lemma_best_b_some(w, i, j, ca, cb, ka, kb + 1, acc2, kb0);
    }
}

proof fn lemma_best_a_some(
    w: Seq<i64>,
    i: u128,
    j: u128,
    ca: Seq<u128>,
    cb: Seq<u128>,
    ka: nat,
    acc: Best,
    ka0: nat,
    kb0: nat,
)
    requires
        ka <= ka0 < ca.len(),
        kb0 < cb.len(),
        0 < ca[ka0 as int] <= i,
        0 < cb[kb0 as int] <= j,
        dp_value(w, (i - ca[ka0 as int]) as u128, (j - cb[kb0 as int]) as u128) is Some,
    ensures
        best_a(w, i, j, ca, cb, ka, acc) is Some,
    decreases ca.len() - ka,
{
    if ka == ka0 {
        lemma_best_b_some(w, i, j, ca, cb, ka, 0, acc, kb0);
        lemma_best_keep_a(w, i, j, ca, cb, ka + 1, best_b(w, i, j, ca, cb, ka, 0, acc));
    } else {
        lemma_best_a_some(w, i, j, ca, cb, ka + 1, best_b(w, i, j, ca, cb, ka, 0, acc), ka0, kb0);
    }
}

/// Two nonzero masks whose weights cancel can always be settled, if only as one block.
pub proof fn lemma_dp_value_some(w: Seq<i64>, i: u128, j: u128)
    requires
        i > 0,
        j > 0,
        mask_weight(i as nat, w, 0) == -mask_weight(j as nat, w, 0),
    ensures
        dp_value(w, i, j) is Some,
{
    let bi = bit_positions(i as nat, 0);
    let bj = bit_positions(j as nat, 0);
    assert(within(bi, bi)) by {
        assert forall|x: int| 0 <= x < bi.len() implies bi.contains(#[trigger] bi[x]) by {
        }
    }
    assert(within(bj, bj)) by {
        assert forall|x: int| 0 <= x < bj.len() implies bj.contains(#[trigger] bj[x]) by {
        }
    }
    lemma_candidates_complete(i, i);
    lemma_candidates_complete(j, j);
    let ca = candidates(i);
    let cb = candidates(j);
    let ka0 = choose|k: int| 0 <= k < ca.len() && ca[k] == i;
    let kb0 = choose|k: int| 0 <= k < cb.len() && cb[k] == j;
    assert(dp_value(w, 0u128, 0u128) == Some(0nat));
    assert((i - ca[ka0]) as u128 == 0u128);
    assert((j - cb[kb0]) as u128 == 0u128);
    lemma_best_a_some(w, i, j, ca, cb, 0, None, ka0 as nat, kb0 as nat);
}

/// The block that a valid table records for a key can itself be settled, and
/// its rest too: both halves are nonzero pairs whose weights cancel.
pub proof fn lemma_choice_halves(w: Seq<i64>, i: u128, j: u128, e: (nat, Option<(u128, u128)>))
    requires
        choice_ok(w, i, j, e),
        mask_weight(i as nat, w, 0) == -mask_weight(j as nat, w, 0),
        e.1 is Some,
    ensures
        ({
            let c = e.1->0;
            &&& dp_value(w, c.0, c.1) is Some
            &&& dp_value(w, (i - c.0) as u128, (j - c.1) as u128) is Some
            &&& candidates(i).contains((i - c.0) as u128)
            &&& candidates(j).contains((j - c.1) as u128)
            &&& (i - (i - c.0)) as u128 == c.0
            &&& (j - (j - c.1)) as u128 == c.1
        }),
{
    let c = e.1->0;
    let a = c.0;
    let b = c.1;
    lemma_mask_weight_split(w, i, a);
    lemma_mask_weight_split(w, j, b);
    let ra = (i - a) as u128;
    let rb = (j - b) as u128;
    assert(mask_weight(ra as nat, w, 0) == -mask_weight(rb as nat, w, 0));
    lemma_dp_value_some(w, a, b);
    lemma_candidates(i);
    lemma_candidates(j);
    let ki = choose|k: int| 0 <= k < candidates(i).len() && candidates(i)[k] == a;
    let kj = choose|k: int| 0 <= k < candidates(j).len() && candidates(j)[k] == b;
    assert(candidates(i)[ki] == a);
    assert(candidates(j)[kj] == b);
    lemma_pow2_128();
    lemma_bits_props(i as nat, 128);
    lemma_bits_props(a as nat, 128);
    lemma_split_sum(bit_positions(i as nat, 0), bit_positions(a as nat, 0));
    lemma_candidates_complete(i, ra);
    lemma_bits_props(j as nat, 128);
    lemma_bits_props(b as nat, 128);
    lemma_split_sum(bit_positions(j as nat, 0), bit_positions(b as nat, 0));
    lemma_candidates_complete(j, rb);
}


// ------------------------------------------------------- extraction, in spec

/// The blocks, each as the union of its two masks, reached from `(i, j)` by
/// following the best first blocks of the dynamic program.
pub open spec fn extract_spec(w: Seq<i64>, i: u128, j: u128) -> Seq<u128>
    decreases i + j,
{
    if i == 0 || j == 0 || mask_weight(i as nat, w, 0) != -mask_weight(j as nat, w, 0) {
        Seq::empty()
    } else {
        match dp_best(w, i, j) {
            None => Seq::empty(),
            Some(e) => match e.1 {
                None => seq![(i + j) as u128],
                Some(c) => if 0 < c.0 < i && 0 < c.1 < j {
                    extract_spec(w, c.0, c.1) + extract_spec(w, (i - c.0) as u128, (j - c.1) as u128)
                } else {
                    Seq::empty()
                },
            },
        }
    }
}

/// A valid, closed table gives the blocks of the dynamic program, from a pair
/// that it holds or that cannot be settled.
pub proof fn lemma_extract_spec(w: Seq<i64>, t: Map<(u128, u128), TableEntry>, i: u128, j: u128)
    requires
        table_valid(w, t),
        table_closed(t),
        i == 0 || j == 0 || t.contains_key((i, j)) || dp_value(w, i, j) is None,
    ensures
        extract(t, i, j) == extract_spec(w, i, j),
    decreases i + j,
{
    if i == 0 || j == 0 {
    } else if t.contains_key((i, j)) {
        lemma_valid_shape(w, t);
        let e = t[(i, j)];
        assert(dp_best(w, i, j) == Some(entry_nat(e)));
        match e.1 {
            None => {},
            Some(c) => {
                assert(0 < c.0 < i && 0 < c.1 < j);
                lemma_extract_spec(w, t, c.0, c.1);
                lemma_extract_spec(w, t, (i - c.0) as u128, (j - c.1) as u128);
            },
        }
    } else {
    }
}

/// Every block reached from `(i, j)` is at most `i + j`.
pub proof fn lemma_extract_bound(t: Map<(u128, u128), TableEntry>, i: u128, j: u128)
    ensures
        forall|k: int| 0 <= k < extract(t, i, j).len() ==> #[trigger] extract(t, i, j)[k] <= i + j,
    decreases i + j,
{
    if !(i == 0 || j == 0 || !t.contains_key((i, j))) {
        match t[(i, j)].1 {
            None => {},
            Some(c) => {
                if 0 < c.0 < i && 0 < c.1 < j {
                    lemma_extract_bound(t, c.0, c.1);
                    lemma_extract_bound(t, (i - c.0) as u128, (j - c.1) as u128);
                    let a = extract(t, c.0, c.1);
                    let b = extract(t, (i - c.0) as u128, (j - c.1) as u128);
                    assert forall|k: int| 0 <= k < (a + b).len() implies #[trigger] (a + b)[k] <= i + j by {
                        if k < a.len() {
                            assert((a + b)[k] == a[k]);
                        } else {
                            assert((a + b)[k] == b[k - a.len()]);
                        }
                    }
                }
            },
        }
    }
}


// ------------------------------------------------------------------ the solver

/// The vertices whose weight is not zero, in order.
pub open spec fn nonzero_nodes(vs: Seq<NamedNode>) -> Seq<NamedNode>
    decreases vs.len(),
{
    if vs.len() == 0 {
        Seq::empty()
    } else if vs.last().weight != 0 {
        nonzero_nodes(vs.drop_last()).push(vs.last())
    } else {
        nonzero_nodes(vs.drop_last())
    }
}

/// The weights of the vertices, in order.
pub open spec fn weights_of(vs: Seq<NamedNode>) -> Seq<i64> {
    vs.map_values(|v: NamedNode| v.weight)
}

/// The mask of the creditors among the vertices of nonzero weight.
pub open spec fn creditor_mask(vs: Seq<NamedNode>) -> u128 {
    let nz = nonzero_nodes(vs);
    pow2_sum(side_positions(nz, nz.len(), false)) as u128
}

/// The mask of the debtors among the vertices of nonzero weight.
pub open spec fn debtor_mask(vs: Seq<NamedNode>) -> u128 {
    let nz = nonzero_nodes(vs);
    pow2_sum(side_positions(nz, nz.len(), true)) as u128
}

/// The vertices of `nz` at the positions of the ones of `x`.
pub open spec fn mask_nodes(nz: Seq<NamedNode>, x: u128) -> Seq<NamedNode> {
    bit_positions(x as nat, 0).map_values(|k: usize| nz[k as int])
}

/// The blocks into which the dynamic program splits the vertices of nonzero weight.
pub open spec fn dp_blocks(vs: Seq<NamedNode>) -> Seq<Seq<NamedNode>> {
    let nz = nonzero_nodes(vs);
    extract_spec(weights_of(nz), creditor_mask(vs), debtor_mask(vs)).map_values(|x: u128| mask_nodes(nz, x))
}

/// What the dynamic program returns: where the network can be settled, the
/// transfers that settle each of its blocks with the scheme `m`.
pub open spec fn dp_transfers(m: PartitionSolvingMethod, vs: Seq<NamedNode>) -> Option<Seq<(Edge, i128)>> {
    if solvable(vs) {
        partition_transfers(m, dp_blocks(vs))
    } else {
        None
    }
}

/// The network fits the masks: at most 128 vertices of nonzero weight, and
/// fewer than 64 creditors and fewer than 64 debtors, whose subsets can be listed.
pub open spec fn dp_fits(vs: Seq<NamedNode>) -> bool {
    let nz = nonzero_nodes(vs);
    &&& nz.len() <= 128
    &&& side_positions(nz, nz.len(), false).len() < 64
    &&& side_positions(nz, nz.len(), true).len() < 64
}

proof fn lemma_side_positions_push(s: Seq<NamedNode>, v: NamedNode, k: nat, neg: bool)
    requires
        k <= s.len(),
    ensures
        side_positions(s.push(v), k, neg) == side_positions(s, k, neg),
    decreases k,
{
    if k > 0 {
        assert(s.push(v)[k - 1] == s[k - 1]);
        lemma_side_positions_push(s, v, (k - 1) as nat, neg);
    }
}

proof fn lemma_nonzero_prefix_len(vs: Seq<NamedNode>, k: int)
    requires
        0 <= k <= vs.len(),
    ensures
        nonzero_nodes(vs.take(k)).len() <= nonzero_nodes(vs).len(),
    decreases vs.len(),
{
    if k < vs.len() {
        assert(vs.drop_last().take(k) == vs.take(k));
        lemma_nonzero_prefix_len(vs.drop_last(), k);
    } else {
        assert(vs.take(k) == vs);
    }
}

/// Every vertex of nonzero weight is a vertex.
proof fn lemma_nonzero_members(vs: Seq<NamedNode>)
    ensures
        forall|x: int| 0 <= x < nonzero_nodes(vs).len() ==> vs.contains(#[trigger] nonzero_nodes(vs)[x]),
    decreases vs.len(),
{
    if vs.len() > 0 {
        let v2 = vs.drop_last();
        lemma_nonzero_members(v2);
        let n2 = nonzero_nodes(v2);
        assert forall|x: int| 0 <= x < nonzero_nodes(vs).len() implies vs.contains(#[trigger] nonzero_nodes(vs)[x]) by {
            if x < n2.len() {
                assert(nonzero_nodes(vs)[x] == n2[x]);
                let q = choose|q: int| 0 <= q < v2.len() && v2[q] == n2[x];
                assert(vs[q] == v2[q]);
            } else {
                assert(vs[vs.len() - 1] == vs.last());
            }
        }
    }
}

/// The vertices of nonzero weight keep distinct identifiers.
proof fn lemma_nonzero_ids(vs: Seq<NamedNode>)
    requires
        ids_distinct(vs),
    ensures
        ids_distinct(nonzero_nodes(vs)),
    decreases vs.len(),
{
    if vs.len() > 0 {
        let v2 = vs.drop_last();
        assert(ids_distinct(v2)) by {
            assert forall|a: int, b: int| 0 <= a < v2.len() && 0 <= b < v2.len() && a != b implies v2[a].id
                != v2[b].id by {
                assert(vs[a] == v2[a] && vs[b] == v2[b]);
            }
        }
        lemma_nonzero_ids(v2);
        lemma_nonzero_members(v2);
        let n2 = nonzero_nodes(v2);
        if vs.last().weight != 0 {
            let n = n2.push(vs.last());
            assert forall|a: int, b: int| 0 <= a < n.len() && 0 <= b < n.len() && a != b implies n[a].id
                != n[b].id by {
                if a < n2.len() && b < n2.len() {
                    assert(n[a] == n2[a] && n[b] == n2[b]);
                } else if a < n2.len() {
                    assert(n[a] == n2[a]);
                    assert(v2.contains(n2[a]));
                    let q = choose|q: int| 0 <= q < v2.len() && v2[q] == n2[a];
                    assert(vs[q] == v2[q]);
                    assert(vs[vs.len() - 1] == vs.last());
                } else if b < n2.len() {
                    assert(n[b] == n2[b]);
                    assert(v2.contains(n2[b]));
                    let q = choose|q: int| 0 <= q < v2.len() && v2[q] == n2[b];
                    assert(vs[q] == v2[q]);
                    assert(vs[vs.len() - 1] == vs.last());
                }
            }
        }
    }
}

/// The vertices at the positions of the ones of a mask below `2^n` have
/// distinct identifiers.
proof fn lemma_mask_nodes_ids(nz: Seq<NamedNode>, x: u128)
    requires
        ids_distinct(nz),
        nz.len() <= 128,
        x < pow2(nz.len()),
    ensures
        ids_distinct(mask_nodes(nz, x)),
        mask_nodes(nz, x).len() == bit_positions(x as nat, 0).len(),
        forall|k: int|
            0 <= k < bit_positions(x as nat, 0).len() ==> #[trigger] bit_positions(x as nat, 0)[k] < nz.len(),
{
    lemma_bits_props(x as nat, nz.len());
    let b = bit_positions(x as nat, 0);
    let m = mask_nodes(nz, x);
    assert forall|p: int, q: int| 0 <= p < m.len() && 0 <= q < m.len() && p != q implies m[p].id != m[q].id by {
        if p < q {
            assert(b[p] < b[q]);
        } else {
            assert(b[q] < b[p]);
        }
    }
}

/// Settles the network by the dynamic program over pairs of creditor and
/// debtor masks: the vertices of nonzero weight are split into the blocks that
/// the program finds best, and each block is settled with `approx_solver`.
/// `None` where the network cannot be settled. The transfers are the fewest
/// that settle the network.
pub fn patcas_dp(instance: &ProblemInstance, approx_solver: PartitionSolvingMethod) -> (res: Solution)
    requires
        dp_fits(instance.vs()),
    ensures
        res matches Some(t) ==> dp_transfers(approx_solver, instance.vs()) == Some(t@),
        res is None ==> dp_transfers(approx_solver, instance.vs()) is None,
        res is Some <==> solvable(instance.vs()),
        res matches Some(t) ==> settles(instance.vs(), t@),
        res matches Some(t) ==> forall|sol: Seq<(Edge, i128)>| #[trigger] settles(instance.vs(), sol) ==> t@.len() <= sol.len(),
        res matches Some(t) ==> crate::solution::edges_distinct(t@),
        res matches Some(t) ==> (approx_solver == PartitionSolvingMethod::GreedySatsifaction ==> 2
            * crate::solution::total_amount(t@) == crate::graph::total_abs_weight(instance.vs())),
        res matches Some(t) ==> (approx_solver == PartitionSolvingMethod::StarExpand
            ==> crate::exact_partitioning::star_settling(instance.vs(), t@)),
{
    if !instance.is_solvable() {
        return None;
    }
    let vs = instance.graph().vertices();
    let ghost nzs = nonzero_nodes(vs@);
    let mut nz: Vec<&NamedNode> = Vec::new();
    let mut weights: Vec<i64> = Vec::new();
    let mut left: Vec<usize> = Vec::new();
    let mut right: Vec<usize> = Vec::new();
    let mut k: usize = 0;
    proof {
        lemma2_to64();
        assert(vs@.take(0) =~= Seq::<NamedNode>::empty());
    }
    while k < vs.len()
        invariant
            k <= vs.len(),
            nzs == nonzero_nodes(vs@),
            nzs.len() <= 128,
            deref_seq(nz@) == nonzero_nodes(vs@.take(k as int)),
            weights@ == weights_of(nonzero_nodes(vs@.take(k as int))),
            left@ == side_positions(deref_seq(nz@), nz@.len(), false),
            right@ == side_positions(deref_seq(nz@), nz@.len(), true),
            pow2_sum(left@) + pow2_sum(right@) + 1 == pow2(nz@.len()),
        decreases vs.len() - k,
    {
        proof {
            lemma_nonzero_prefix_len(vs@, k + 1);
            assert(vs@.take(k + 1).drop_last() == vs@.take(k as int));
            assert(vs@.take(k + 1).last() == vs@[k as int]);
        }
        let v = &vs[k];
        if v.weight != 0 {
            let idx = nz.len();
            let ghost old_nz = deref_seq(nz@);
            nz.push(v);
            weights.push(v.weight);
            proof {
                assert(deref_seq(nz@) == old_nz.push(*v));
                lemma_side_positions_push(old_nz, *v, idx as nat, false);
                lemma_side_positions_push(old_nz, *v, idx as nat, true);
                lemma_pow2_unfold(idx as nat + 1);
                assert(weights@ =~= weights_of(nonzero_nodes(vs@.take(k + 1))));
            }
            if v.weight >= 0 {
                left.push(idx);
                proof {
                    lemma_pow2_sum_single(idx);
                    lemma_pow2_sum_concat(side_positions(old_nz, idx as nat, false), seq![idx]);
                    assert(left@ == side_positions(old_nz, idx as nat, false) + seq![idx]);
                }
            } else {
                right.push(idx);
                proof {
                    lemma_pow2_sum_single(idx);
                    lemma_pow2_sum_concat(side_positions(old_nz, idx as nat, true), seq![idx]);
                    assert(right@ == side_positions(old_nz, idx as nat, true) + seq![idx]);
                }
            }
        }
        k = k + 1;
    }
    let n = nz.len();
    proof {
        assert(vs@.take(k as int) == vs@);
        assert(deref_seq(nz@) == nzs);
        lemma_side_positions(nzs, n as nat, false);
        lemma_side_positions(nzs, n as nat, true);
        lemma_pow2_128();
        lemma_pow2_mono(n as nat, 128);
        assert forall|x: int| 0 <= x < left@.len() implies #[trigger] left@[x] < 128 by {
            assert(left@[x] < n);
        }
        assert forall|x: int| 0 <= x < right@.len() implies #[trigger] right@[x] < 128 by {
            assert(right@[x] < n);
        }
        lemma_increasing_len(left@, 128);
        lemma_increasing_len(right@, 128);
    }
    let n_left = expand_number(left.as_slice());
    let n_right = expand_number(right.as_slice());
    let ghost w = weights@;
    proof {
        assert(w == weights_of(nzs));
        lemma_bits_of_pow2_sum(left@);
        lemma_bits_of_pow2_sum(right@);
        lemma_bits_props(n_left as nat, 128);
        lemma_bits_props(n_right as nat, 128);
        assert(n_left == creditor_mask(vs@));
        assert(n_right == debtor_mask(vs@));
    }
    let mut table = Table::new();
    proof {
        assert(table_valid(w, table@));
        assert(table_closed(table@));
    }
    let r = dp(n_left, n_right, &weights, &mut table);
    proof {
        lemma_valid_shape(w, table@);
        lemma_extract_spec(w, table@, n_left, n_right);
        lemma_extract_bound(table@, n_left, n_right);
        lemma_nonzero_ids(vs@);
    }
    let masks = table_extract_partitioning(n_left, n_right, &table);
    let ghost blocks = masks@.map_values(|x: u128| mask_nodes(nzs, x));
    assert(blocks == dp_blocks(vs@));
    let mut partitioning: Vec<Vec<&NamedNode>> = Vec::new();
    let mut q: usize = 0;
    while q < masks.len()
        invariant
            q <= masks@.len(),
            n == nz@.len(),
            n <= 128,
            deref_seq(nz@) == nzs,
            ids_distinct(nzs),
            blocks == masks@.map_values(|x: u128| mask_nodes(nzs, x)),
            forall|y: int| 0 <= y < masks@.len() ==> #[trigger] masks@[y] < pow2(n as nat),
            blocks_view(partitioning@) == blocks.take(q as int),
        decreases masks@.len() - q,
    {
        let x = masks[q];
        proof {
            lemma_mask_nodes_ids(nzs, x);
        }
        let idx = one_indices(x);
        let mut block: Vec<&NamedNode> = Vec::new();
        let mut t: usize = 0;
        while t < idx.len()
            invariant
                t <= idx@.len(),
                idx@ == bit_positions(x as nat, 0),
                n == nz@.len(),
                deref_seq(nz@) == nzs,
                forall|y: int| 0 <= y < idx@.len() ==> #[trigger] idx@[y] < n,
                deref_seq(block@) == idx@.take(t as int).map_values(|k: usize| nzs[k as int]),
            decreases idx@.len() - t,
        {
            let node: &NamedNode = nz[idx[t]];
            let ghost old_block = block@;
            proof {
                assert(deref_seq(nz@)[idx@[t as int] as int] == *node);
            }
            block.push(node);
            proof {
                assert(deref_seq(block@) =~= deref_seq(old_block).push(*node));
                assert(idx@.take(t + 1) =~= idx@.take(t as int).push(idx@[t as int]));
                assert(idx@.take(t + 1).map_values(|k: usize| nzs[k as int]) =~= idx@.take(t as int).map_values(
                    |k: usize| nzs[k as int],
                ).push(nzs[idx@[t as int] as int]));
            }
            t = t + 1;
        }
        assert(idx@.take(t as int) == idx@);
        assert(deref_seq(block@) == mask_nodes(nzs, x));
        let ghost old_part = partitioning@;
        partitioning.push(block);
        proof {
            assert(blocks_view(partitioning@) =~= blocks_view(old_part).push(mask_nodes(nzs, x)));
            assert(blocks[q as int] == mask_nodes(nzs, x));
            assert(blocks.take(q + 1) =~= blocks.take(q as int).push(blocks[q as int]));
        }
        q = q + 1;
    }
    assert(blocks.take(q as int) == blocks);
    proof {
        assert forall|j: int| 0 <= j < partitioning@.len() implies ids_distinct(#[trigger] blocks_view(partitioning@)[j]) by {
            lemma_mask_nodes_ids(nzs, masks@[j]);
        }
        lemma_dp_settles(approx_solver, vs@);
    }
    let res = partition_solver(&partitioning, approx_solver);
    proof {
        assert forall|sol: Seq<(Edge, i128)>| #[trigger] settles(vs@, sol) implies dp_transfers(approx_solver, vs@)->0.len()
            <= sol.len() by {
            law_dp_optimal(approx_solver, vs@, sol);
        }
        if approx_solver == PartitionSolvingMethod::GreedySatsifaction {
            law_dp_greedy_amount(vs@);
        } else {
            law_dp_star(vs@);
        }
    }
    res
}


// ------------------------------------------------------ unions of masks

/// The increasing list of the elements of two increasing lists.
pub open spec fn merge(a: Seq<usize>, b: Seq<usize>) -> Seq<usize>
    decreases a.len() + b.len(),
{
    if a.len() == 0 {
        b
    } else if b.len() == 0 {
        a
    } else if a.last() > b.last() {
        merge(a.drop_last(), b).push(a.last())
    } else {
        merge(a, b.drop_last()).push(b.last())
    }
}

/// No element of `a` is an element of `b`.
pub open spec fn apart(a: Seq<usize>, b: Seq<usize>) -> bool {
    forall|x: int, y: int| 0 <= x < a.len() && 0 <= y < b.len() ==> #[trigger] a[x] != #[trigger] b[y]
}

proof fn lemma_apart_drop(a: Seq<usize>, b: Seq<usize>)
    requires
        apart(a, b),
    ensures
        a.len() > 0 ==> apart(a.drop_last(), b),
        b.len() > 0 ==> apart(a, b.drop_last()),
{
    if a.len() > 0 {
        assert forall|x: int, y: int| 0 <= x < a.drop_last().len() && 0 <= y < b.len() implies #[trigger] a.drop_last()[x]
            != #[trigger] b[y] by {
            assert(a[x] != b[y]);
        }
    }
    if b.len() > 0 {
        assert forall|x: int, y: int| 0 <= x < a.len() && 0 <= y < b.drop_last().len() implies #[trigger] a[x]
            != #[trigger] b.drop_last()[y] by {
            assert(a[x] != b[y]);
        }
    }
}

/// Merging two increasing lists with no common element keeps every element,
/// is increasing, and adds up their powers and their weights.
pub proof fn lemma_merge(a: Seq<usize>, b: Seq<usize>, w: Seq<i64>)
    requires
        increasing(a),
        increasing(b),
        apart(a, b),
    ensures
        increasing(merge(a, b)),
        forall|k: usize| merge(a, b).contains(k) <==> (a.contains(k) || b.contains(k)),
        pow2_sum(merge(a, b)) == pow2_sum(a) + pow2_sum(b),
        weight_at(w, merge(a, b)) == weight_at(w, a) + weight_at(w, b),
        merge(a, b).len() == a.len() + b.len(),
    decreases a.len() + b.len(),
{
    if a.len() == 0 {
        assert(pow2_sum(a) == 0);
        assert(weight_at(w, a) == 0);
    } else if b.len() == 0 {
        assert(pow2_sum(b) == 0);
        assert(weight_at(w, b) == 0);
    } else {
        lemma_apart_drop(a, b);
        if a.last() > b.last() {
            let a2 = a.drop_last();
            assert(increasing(a2));
            lemma_merge(a2, b, w);
            let m = merge(a2, b);
            assert forall|k: usize| m.push(a.last()).contains(k) <==> (a.contains(k) || b.contains(k)) by {
                if a.contains(k) {
                    let x = choose|x: int| 0 <= x < a.len() && a[x] == k;
                    if x < a.len() - 1 {
                        assert(a2[x] == k);
                        assert(a2.contains(k));
                        let y = choose|y: int| 0 <= y < m.len() && m[y] == k;
                        assert(m.push(a.last())[y] == k);
                    } else {
                        assert(m.push(a.last())[m.len() as int] == k);
                    }
                }
                if b.contains(k) {
                    let y = choose|y: int| 0 <= y < m.len() && m[y] == k;
                    assert(m.push(a.last())[y] == k);
                }
                if m.push(a.last()).contains(k) {
                    let y = choose|y: int| 0 <= y < m.push(a.last()).len() && m.push(a.last())[y] == k;
                    if y < m.len() {
                        assert(m.contains(k));
                        if a2.contains(k) {
                            let x = choose|x: int| 0 <= x < a2.len() && a2[x] == k;
                            assert(a[x] == k);
                        }
                    } else {
                        assert(a[a.len() - 1] == k);
                    }
                }
            }
            assert forall|x: int, y: int| 0 <= x < y < m.push(a.last()).len() implies #[trigger] m.push(a.last())[x]
                < #[trigger] m.push(a.last())[y] by {
                if y == m.len() {
                    let v = m[x];
                    assert(m.contains(v));
                    if a2.contains(v) {
                        let q = choose|q: int| 0 <= q < a2.len() && a2[q] == v;
                        assert(a[q] < a[a.len() - 1]);
                    } else {
                        assert(b.contains(v));
                        let q = choose|q: int| 0 <= q < b.len() && b[q] == v;
                        if q < b.len() - 1 {
                            assert(b[q] < b[b.len() - 1]);
                        }
                    }
                } else {
                    assert(m[x] < m[y]);
                }
            }
            assert(m.push(a.last()).drop_last() == m);
            assert(merge(a, b) == m.push(a.last()));
        } else {
            assert(a.last() != b.last()) by {
                assert(a[a.len() - 1] != b[b.len() - 1]);
            }
            let b2 = b.drop_last();
            assert(increasing(b2));
            lemma_merge(a, b2, w);
            let m = merge(a, b2);
            assert forall|k: usize| m.push(b.last()).contains(k) <==> (a.contains(k) || b.contains(k)) by {
                if b.contains(k) {
                    let x = choose|x: int| 0 <= x < b.len() && b[x] == k;
                    if x < b.len() - 1 {
                        assert(b2[x] == k);
                        assert(b2.contains(k));
                        let y = choose|y: int| 0 <= y < m.len() && m[y] == k;
                        assert(m.push(b.last())[y] == k);
                    } else {
                        assert(m.push(b.last())[m.len() as int] == k);
                    }
                }
                if a.contains(k) {
                    let y = choose|y: int| 0 <= y < m.len() && m[y] == k;
                    assert(m.push(b.last())[y] == k);
                }
                if m.push(b.last()).contains(k) {
                    let y = choose|y: int| 0 <= y < m.push(b.last()).len() && m.push(b.last())[y] == k;
                    if y < m.len() {
                        assert(m.contains(k));
                        if b2.contains(k) {
                            let x = choose|x: int| 0 <= x < b2.len() && b2[x] == k;
                            assert(b[x] == k);
                        }
                    } else {
                        assert(b[b.len() - 1] == k);
                    }
                }
            }
            assert forall|x: int, y: int| 0 <= x < y < m.push(b.last()).len() implies #[trigger] m.push(b.last())[x]
                < #[trigger] m.push(b.last())[y] by {
                if y == m.len() {
                    let v = m[x];
                    assert(m.contains(v));
                    if b2.contains(v) {
                        let q = choose|q: int| 0 <= q < b2.len() && b2[q] == v;
                        assert(b[q] < b[b.len() - 1]);
                    } else {
                        assert(a.contains(v));
                        let q = choose|q: int| 0 <= q < a.len() && a[q] == v;
                        if q < a.len() - 1 {
                            assert(a[q] < a[a.len() - 1]);
                        }
                    }
                } else {
                    assert(m[x] < m[y]);
                }
            }
            assert(m.push(b.last()).drop_last() == m);
            assert(merge(a, b) == m.push(b.last()));
        }
    }
}


/// The positions of the ones of `n`.
pub open spec fn ones(n: u128) -> Seq<usize> {
    bit_positions(n as nat, 0)
}

/// `p` is left in `without(b, t)` exactly when it is in `b` and not in `t`.
pub proof fn lemma_without_contains(b: Seq<usize>, t: Seq<usize>, p: usize)
    ensures
        without(b, t).contains(p) <==> (b.contains(p) && !t.contains(p)),
    decreases b.len(),
{
    if b.len() > 0 {
        let b2 = b.drop_last();
        lemma_without_contains(b2, t, p);
        let w2 = without(b2, t);
        if b.contains(p) && !t.contains(p) {
            let q = choose|q: int| 0 <= q < b.len() && b[q] == p;
            if q < b.len() - 1 {
                assert(b2[q] == p);
                if !t.contains(b.last()) {
                    let y = choose|y: int| 0 <= y < w2.len() && w2[y] == p;
                    assert(w2.push(b.last())[y] == p);
                }
            } else {
                if !t.contains(b.last()) {
                    assert(w2.push(b.last())[w2.len() as int] == p);
                }
            }
        }
        if without(b, t).contains(p) {
            if !t.contains(b.last()) {
                let y = choose|y: int| 0 <= y < w2.push(b.last()).len() && w2.push(b.last())[y] == p;
                if y < w2.len() {
                    assert(w2.contains(p));
                    let q = choose|q: int| 0 <= q < b2.len() && b2[q] == p;
                    assert(b[q] == p);
                } else {
                    assert(b[b.len() - 1] == p);
                }
            } else {
                let q = choose|q: int| 0 <= q < b2.len() && b2[q] == p;
                assert(b[q] == p);
            }
        }
    }
}

/// Adding two masks with no common one gives the union of their ones, and
/// adds their weights.
pub proof fn lemma_union_mask(w: Seq<i64>, i: u128, j: u128)
    requires
        apart(ones(i), ones(j)),
    ensures
        i + j <= u128::MAX,
        ones((i + j) as u128) == merge(ones(i), ones(j)),
        forall|k: usize| ones((i + j) as u128).contains(k) <==> (ones(i).contains(k) || ones(j).contains(k)),
        mask_weight((i + j) as nat, w, 0) == mask_weight(i as nat, w, 0) + mask_weight(j as nat, w, 0),
        ones((i + j) as u128).len() == ones(i).len() + ones(j).len(),
{
    lemma_pow2_128();
    lemma_pow2_mono(128, 256);
    lemma_bits_props(i as nat, 128);
    lemma_bits_props(j as nat, 128);
    let m = merge(ones(i), ones(j));
    lemma_merge(ones(i), ones(j), w);
    assert forall|x: int| 0 <= x < m.len() implies #[trigger] m[x] < 128 by {
        assert(m.contains(m[x]));
        if ones(i).contains(m[x]) {
            let q = choose|q: int| 0 <= q < ones(i).len() && ones(i)[q] == m[x];
        } else {
            let q = choose|q: int| 0 <= q < ones(j).len() && ones(j)[q] == m[x];
        }
    }
    lemma_pow2_sum_bound_128(m);
    lemma_bits_of_pow2_sum(m);
    lemma_mask_weight_at(i as nat, w, 0);
    lemma_mask_weight_at(j as nat, w, 0);
    lemma_mask_weight_at((i + j) as nat, w, 0);
}

/// The blocks that the dynamic program extracts from a pair it can settle,
/// whose ones are apart, are nonempty, have zero weight, share no position,
/// and between them hold exactly the ones of the pair.
#[verifier::spinoff_prover]
#[verifier::rlimit(60)]
pub proof fn lemma_extract_blocks(w: Seq<i64>, i: u128, j: u128)
    requires
        i > 0,
        j > 0,
        dp_value(w, i, j) is Some,
        apart(ones(i), ones(j)),
    ensures
        ({
            let p = extract_spec(w, i, j);
            &&& forall|k: int|
                0 <= k < p.len() ==> ones(#[trigger] p[k]).len() > 0 && mask_weight(p[k] as nat, w, 0) == 0
                    && forall|q: usize| #[trigger] ones(p[k]).contains(q) ==> ones(i).contains(q) || ones(j).contains(q)
            &&& forall|k1: int, k2: int, q: usize|
                0 <= k1 < p.len() && 0 <= k2 < p.len() && k1 != k2 && #[trigger] ones(p[k1]).contains(q)
                    ==> !#[trigger] ones(p[k2]).contains(q)
            &&& forall|q: usize|
                (ones(i).contains(q) || ones(j).contains(q)) ==> exists|k: int|
                    0 <= k < p.len() && #[trigger] ones(p[k]).contains(q)
        }),
    decreases i + j,
{
    let p = extract_spec(w, i, j);
    let e = dp_best(w, i, j)->0;
    lemma_best_choice_a(w, i, j, candidates(i), candidates(j), 0, None);
    match e.1 {
        None => {
            lemma_union_mask(w, i, j);
            assert(p == seq![(i + j) as u128]);
            assert forall|q: usize| (ones(i).contains(q) || ones(j).contains(q)) implies exists|k: int|
                0 <= k < p.len() && #[trigger] ones(p[k]).contains(q) by {
                assert(ones(p[0]).contains(q));
            }
            if ones(i).len() > 0 {
            } else {
                lemma_pow2_128();
                lemma_bits_props(i as nat, 128);
            }
        },
        Some(c) => {
            let a = c.0;
            let b = c.1;
            lemma_choice_halves(w, i, j, e);
            lemma_candidates(i);
            lemma_candidates(j);
            let ka = choose|k: int| 0 <= k < candidates(i).len() && candidates(i)[k] == a;
            let kb = choose|k: int| 0 <= k < candidates(j).len() && candidates(j)[k] == b;
            assert(candidates(i)[ka] == a);
            assert(candidates(j)[kb] == b);
            let ra = (i - a) as u128;
            let rb = (j - b) as u128;
            lemma_pow2_128();
            lemma_bits_props(i as nat, 128);
            lemma_bits_props(j as nat, 128);
            lemma_bits_props(a as nat, 128);
            lemma_bits_props(b as nat, 128);
            lemma_split_sum(ones(i), ones(a));
            lemma_split_sum(ones(j), ones(b));
            assert forall|q: usize| ones(ra).contains(q) <==> (ones(i).contains(q) && !ones(a).contains(q)) by {
                lemma_without_contains(ones(i), ones(a), q);
            }
            assert forall|q: usize| ones(rb).contains(q) <==> (ones(j).contains(q) && !ones(b).contains(q)) by {
                lemma_without_contains(ones(j), ones(b), q);
            }
            assert forall|q: usize| ones(a).contains(q) implies ones(i).contains(q) by {
                let x = choose|x: int| 0 <= x < ones(a).len() && ones(a)[x] == q;
            }
            assert forall|q: usize| ones(b).contains(q) implies ones(j).contains(q) by {
                let x = choose|x: int| 0 <= x < ones(b).len() && ones(b)[x] == q;
            }
            assert(apart(ones(a), ones(b))) by {
                assert forall|x: int, y: int| 0 <= x < ones(a).len() && 0 <= y < ones(b).len() implies #[trigger] ones(a)[x]
                    != #[trigger] ones(b)[y] by {
                    assert(ones(a).contains(ones(a)[x]));
                    assert(ones(b).contains(ones(b)[y]));
                    let x2 = choose|x2: int| 0 <= x2 < ones(i).len() && ones(i)[x2] == ones(a)[x];
                    let y2 = choose|y2: int| 0 <= y2 < ones(j).len() && ones(j)[y2] == ones(b)[y];
                    assert(ones(i)[x2] != ones(j)[y2]);
                }
            }
            assert(apart(ones(ra), ones(rb))) by {
                assert forall|x: int, y: int| 0 <= x < ones(ra).len() && 0 <= y < ones(rb).len() implies #[trigger] ones(ra)[x]
                    != #[trigger] ones(rb)[y] by {
                    assert(ones(ra).contains(ones(ra)[x]));
                    assert(ones(rb).contains(ones(rb)[y]));
                    let x2 = choose|x2: int| 0 <= x2 < ones(i).len() && ones(i)[x2] == ones(ra)[x];
                    let y2 = choose|y2: int| 0 <= y2 < ones(j).len() && ones(j)[y2] == ones(rb)[y];
                    assert(ones(i)[x2] != ones(j)[y2]);
                }
            }
            lemma_extract_blocks(w, a, b);
            lemma_extract_blocks(w, ra, rb);
            let pa = extract_spec(w, a, b);
            let pr = extract_spec(w, ra, rb);
            assert(p == pa + pr);
            assert forall|k: int| 0 <= k < p.len() implies ones(#[trigger] p[k]).len() > 0 && mask_weight(p[k] as nat, w, 0)
                == 0 && forall|q: usize| #[trigger] ones(p[k]).contains(q) ==> ones(i).contains(q) || ones(j).contains(q) by {
                if k < pa.len() {
                    assert(p[k] == pa[k]);
                } else {
                    assert(p[k] == pr[k - pa.len()]);
                }
            }
            assert forall|k1: int, k2: int, q: usize|
                0 <= k1 < p.len() && 0 <= k2 < p.len() && k1 != k2 && #[trigger] ones(p[k1]).contains(q) implies !#[trigger] ones(p[k2]).contains(q) by {
                if k1 < pa.len() {
                    assert(p[k1] == pa[k1]);
                } else {
                    assert(p[k1] == pr[k1 - pa.len()]);
                }
                if k2 < pa.len() {
                    assert(p[k2] == pa[k2]);
                } else {
                    assert(p[k2] == pr[k2 - pa.len()]);
                }
                if ones(p[k2]).contains(q) {
                    if k1 < pa.len() && k2 >= pa.len() {
                        assert(ones(a).contains(q) || ones(b).contains(q));
                        assert(ones(ra).contains(q) || ones(rb).contains(q));
                        assert(apart(ones(i), ones(j)));
                        if ones(a).contains(q) && ones(rb).contains(q) {
                            let x = choose|x: int| 0 <= x < ones(i).len() && ones(i)[x] == q;
                            let y = choose|y: int| 0 <= y < ones(j).len() && ones(j)[y] == q;
                        }
                        if ones(b).contains(q) && ones(ra).contains(q) {
                            let x = choose|x: int| 0 <= x < ones(i).len() && ones(i)[x] == q;
                            let y = choose|y: int| 0 <= y < ones(j).len() && ones(j)[y] == q;
                        }
                    } else if k1 >= pa.len() && k2 < pa.len() {
                        assert(ones(a).contains(q) || ones(b).contains(q));
                        assert(ones(ra).contains(q) || ones(rb).contains(q));
                        if ones(a).contains(q) && ones(rb).contains(q) {
                            let x = choose|x: int| 0 <= x < ones(i).len() && ones(i)[x] == q;
                            let y = choose|y: int| 0 <= y < ones(j).len() && ones(j)[y] == q;
                        }
                        if ones(b).contains(q) && ones(ra).contains(q) {
                            let x = choose|x: int| 0 <= x < ones(i).len() && ones(i)[x] == q;
                            let y = choose|y: int| 0 <= y < ones(j).len() && ones(j)[y] == q;
                        }
                    } else if k1 < pa.len() {
                        assert(ones(pa[k1]).contains(q));
                        assert(!ones(pa[k2]).contains(q));
                    } else {
                        assert(ones(pr[k1 - pa.len()]).contains(q));
                        assert(!ones(pr[k2 - pa.len()]).contains(q));
                    }
                }
            }
            assert forall|q: usize| (ones(i).contains(q) || ones(j).contains(q)) implies exists|k: int|
                0 <= k < p.len() && #[trigger] ones(p[k]).contains(q) by {
                if ones(a).contains(q) || ones(b).contains(q) {
                    let k = choose|k: int| 0 <= k < pa.len() && #[trigger] ones(pa[k]).contains(q);
                    assert(p[k] == pa[k]);
                } else {
                    assert(ones(ra).contains(q) || ones(rb).contains(q));
                    let k = choose|k: int| 0 <= k < pr.len() && #[trigger] ones(pr[k]).contains(q);
                    assert(p[pa.len() + k] == pr[k]);
                }
            }
        },
    }
}


// ------------------------------------------------ the dynamic program settles

/// The vertices of nonzero weight have nonzero weight, and every vertex of
/// nonzero weight is one of them.
proof fn lemma_nonzero_exact(vs: Seq<NamedNode>)
    ensures
        forall|k: int| 0 <= k < nonzero_nodes(vs).len() ==> #[trigger] nonzero_nodes(vs)[k].weight != 0,
        forall|i: int| 0 <= i < vs.len() && #[trigger] vs[i].weight != 0 ==> nonzero_nodes(vs).contains(vs[i]),
        total_weight(nonzero_nodes(vs)) == total_weight(vs),
    decreases vs.len(),
{
    if vs.len() > 0 {
        let v2 = vs.drop_last();
        lemma_nonzero_exact(v2);
        let n2 = nonzero_nodes(v2);
        let n = nonzero_nodes(vs);
        if vs.last().weight != 0 {
            assert forall|k: int| 0 <= k < n.len() implies #[trigger] n[k].weight != 0 by {
                if k < n2.len() {
                    assert(n[k] == n2[k]);
                }
            }
            assert(n.drop_last() == n2);
        }
        assert forall|i: int| 0 <= i < vs.len() && #[trigger] vs[i].weight != 0 implies n.contains(vs[i]) by {
            if i < vs.len() - 1 {
                assert(vs[i] == v2[i]);
                assert(n2.contains(v2[i]));
                let k = choose|k: int| 0 <= k < n2.len() && n2[k] == v2[i];
                if vs.last().weight != 0 {
                    assert(n[k] == n2[k]);
                }
            } else {
                assert(vs[i] == vs.last());
                assert(n[n.len() - 1] == vs.last());
            }
        }
    }
}

/// The creditors' and the debtors' weights add up to the total weight.
proof fn lemma_side_split(nz: Seq<NamedNode>, k: nat)
    requires
        k <= nz.len(),
        nz.len() <= usize::MAX,
    ensures
        weight_at(weights_of(nz), side_positions(nz, k, false)) + weight_at(weights_of(nz), side_positions(nz, k, true))
            == total_weight(nz.take(k as int)),
    decreases k,
{
    let w = weights_of(nz);
    if k == 0 {
        assert(nz.take(0) =~= Seq::<NamedNode>::empty());
    } else {
        lemma_side_split(nz, (k - 1) as nat);
        assert(nz.take(k as int).drop_last() == nz.take(k - 1));
        assert(nz.take(k as int).last() == nz[k - 1]);
        let neg = nz[k - 1].weight < 0;
        let s = side_positions(nz, (k - 1) as nat, neg);
        assert(side_positions(nz, k, neg) == s.push((k - 1) as usize));
        assert(s.push((k - 1) as usize).drop_last() == s);
        assert(w[k - 1] == nz[k - 1].weight);
    }
}

/// A list of positions whose weights are all positive (or all negative) has a
/// positive (or negative) weight where it is not empty.
pub proof fn lemma_weight_at_sign(w: Seq<i64>, s: Seq<usize>, positive: bool)
    requires
        forall|x: int| 0 <= x < s.len() ==> (if positive {
            w[#[trigger] s[x] as int] > 0
        } else {
            w[s[x] as int] < 0
        }),
    ensures
        s.len() > 0 ==> (if positive {
            weight_at(w, s) > 0
        } else {
            weight_at(w, s) < 0
        }),
        s.len() == 0 ==> weight_at(w, s) == 0,
    decreases s.len(),
{
    if s.len() > 0 {
        let s2 = s.drop_last();
        assert forall|x: int| 0 <= x < s2.len() implies (if positive {
            w[#[trigger] s2[x] as int] > 0
        } else {
            w[s2[x] as int] < 0
        }) by {
            assert(s2[x] == s[x]);
        }
        lemma_weight_at_sign(w, s2, positive);
        assert(s[s.len() - 1] == s.last());
    }
}

/// The vertices at some positions of `nz` weigh what those positions weigh.
proof fn lemma_mask_nodes_weight(nz: Seq<NamedNode>, s: Seq<usize>)
    requires
        forall|x: int| 0 <= x < s.len() ==> #[trigger] s[x] < nz.len(),
    ensures
        total_weight(s.map_values(|k: usize| nz[k as int])) == weight_at(weights_of(nz), s),
    decreases s.len(),
{
    if s.len() > 0 {
        let s2 = s.drop_last();
        lemma_mask_nodes_weight(nz, s2);
        assert(s.map_values(|k: usize| nz[k as int]).drop_last() == s2.map_values(|k: usize| nz[k as int]));
        assert(s[s.len() - 1] == s.last());
    }
}

/// Every solvable network that fits the masks is settled by the dynamic program.
pub proof fn lemma_dp_settles(m: PartitionSolvingMethod, vs: Seq<NamedNode>)
    requires
        ids_distinct(vs),
        vs.len() <= usize::MAX,
        dp_fits(vs),
        solvable(vs),
    ensures
        dp_transfers(m, vs) is Some,
        settles(vs, dp_transfers(m, vs)->0),
        blocks_wf(dp_blocks(vs)),
        blocks_disjoint(dp_blocks(vs)),
        forall|j: int, x: int|
            0 <= j < dp_blocks(vs).len() && 0 <= x < dp_blocks(vs)[j].len() ==> exists|q: int|
                0 <= q < vs.len() && #[trigger] dp_blocks(vs)[j][x] == vs[q],
        crate::solution::edges_distinct(dp_transfers(m, vs)->0),
        forall|k: int| 0 <= k < dp_blocks(vs).len() ==> solvable(#[trigger] dp_blocks(vs)[k]),
        ones(creditor_mask(vs)) == side_positions(nonzero_nodes(vs), nonzero_nodes(vs).len(), false),
        ones(debtor_mask(vs)) == side_positions(nonzero_nodes(vs), nonzero_nodes(vs).len(), true),
        creditor_mask(vs) > 0 && debtor_mask(vs) > 0 ==> dp_value(weights_of(nonzero_nodes(vs)), creditor_mask(vs), debtor_mask(vs)) is Some
            && apart(ones(creditor_mask(vs)), ones(debtor_mask(vs))),
        !(creditor_mask(vs) > 0 && debtor_mask(vs) > 0) ==> nonzero_nodes(vs).len() == 0,
{
    let nz = nonzero_nodes(vs);
    let n = nz.len();
    let w = weights_of(nz);
    let left = side_positions(nz, n, false);
    let right = side_positions(nz, n, true);
    lemma_nonzero_exact(vs);
    lemma_nonzero_members(vs);
    lemma_nonzero_ids(vs);
    lemma_side_positions(nz, n, false);
    lemma_side_positions(nz, n, true);
    lemma_pow2_128();
    assert forall|x: int| 0 <= x < left.len() implies #[trigger] left[x] < 128 by {
        assert(left[x] < n);
    }
    assert forall|x: int| 0 <= x < right.len() implies #[trigger] right[x] < 128 by {
        assert(right[x] < n);
    }
    lemma_pow2_sum_bound_128(left);
    lemma_pow2_sum_bound_128(right);
    lemma_bits_of_pow2_sum(left);
    lemma_bits_of_pow2_sum(right);
    let lm = creditor_mask(vs);
    let rm = debtor_mask(vs);
    assert(ones(lm) == left);
    assert(ones(rm) == right);
    assert(apart(left, right)) by {
        assert forall|x: int, y: int| 0 <= x < left.len() && 0 <= y < right.len() implies #[trigger] left[x]
            != #[trigger] right[y] by {
            assert((nz[left[x] as int].weight < 0) == false);
            assert((nz[right[y] as int].weight < 0) == true);
        }
    }
    lemma_side_split(nz, n);
    assert(nz.take(n as int) == nz);
    lemma_weight_at_sign(w, left, true);
    lemma_weight_at_sign(w, right, false);
    lemma_pow2_mono(128, 256);
    lemma_mask_weight_at(lm as nat, w, 0);
    lemma_mask_weight_at(rm as nat, w, 0);
    let p = extract_spec(w, lm, rm);
    let blocks = dp_blocks(vs);
    assert(blocks == p.map_values(|x: u128| mask_nodes(nz, x)));
    if lm > 0 && rm > 0 {
        lemma_dp_value_some(w, lm, rm);
        lemma_extract_blocks(w, lm, rm);
    } else {
        // No vertex has a nonzero weight: one side is empty, so both are.
        if lm == 0 {
            assert(left.len() == 0) by {
                if left.len() > 0 {
                    lemma_pow2_sum_bound_128(left);
                    lemma_pow2_pos(left.last() as nat);
                    assert(pow2_sum(left) == pow2_sum(left.drop_last()) + pow2(left.last() as nat));
                }
            }
        } else {
            assert(right.len() == 0) by {
                if right.len() > 0 {
                    lemma_pow2_pos(right.last() as nat);
                    assert(pow2_sum(right) == pow2_sum(right.drop_last()) + pow2(right.last() as nat));
                }
            }
        }
        assert(left.len() == 0 && right.len() == 0);
        assert(n == 0) by {
            if n > 0 {
                if nz[0].weight < 0 {
                    assert(exists|j: int| 0 <= j < right.len() && right[j] == 0);
                } else {
                    assert(exists|j: int| 0 <= j < left.len() && left[j] == 0);
                }
            }
        }
        assert(p =~= Seq::<u128>::empty());
    }
    // Each block is a solvable set of distinct vertices, and blocks share none.
    assert forall|k: int| 0 <= k < p.len() implies forall|y: int|
        0 <= y < ones(#[trigger] p[k]).len() ==> ones(p[k])[y] < n by {
        assert forall|y: int| 0 <= y < ones(p[k]).len() implies ones(p[k])[y] < n by {
            let q = ones(p[k])[y];
            assert(ones(p[k]).contains(q));
            if left.contains(q) {
                let x = choose|x: int| 0 <= x < left.len() && left[x] == q;
            } else {
                let x = choose|x: int| 0 <= x < right.len() && right[x] == q;
            }
        }
    }
    assert forall|k: int| 0 <= k < blocks.len() implies solvable(#[trigger] blocks[k]) by {
        lemma_mask_nodes_weight(nz, ones(p[k]));
        lemma_mask_weight_at(p[k] as nat, w, 0);
    }
    assert(blocks_wf(blocks)) by {
        assert forall|k: int| 0 <= k < blocks.len() implies ids_distinct(#[trigger] blocks[k]) && blocks[k].len()
            <= usize::MAX by {
            lemma_bits_props(p[k] as nat, 128);
            let b = ones(p[k]);
            let mb = blocks[k];
            assert forall|x: int, y: int| 0 <= x < mb.len() && 0 <= y < mb.len() && x != y implies mb[x].id
                != mb[y].id by {
                if x < y {
                    assert(b[x] < b[y]);
                } else {
                    assert(b[y] < b[x]);
                }
            }
            lemma_increasing_len(b, 128);
        }
    }
    assert(blocks_disjoint(blocks)) by {
        assert forall|j1: int, j2: int, x: int, y: int|
            0 <= j1 < blocks.len() && 0 <= j2 < blocks.len() && j1 != j2 && 0 <= x < blocks[j1].len() && 0 <= y
                < blocks[j2].len() implies #[trigger] blocks[j1][x].id != #[trigger] blocks[j2][y].id by {
            let q1 = ones(p[j1])[x];
            let q2 = ones(p[j2])[y];
            assert(ones(p[j1]).contains(q1));
            assert(ones(p[j2]).contains(q2));
            if q1 == q2 {
                assert(!ones(p[j2]).contains(q1));
            }
        }
    }
    lemma_partition_transfers_some(m, blocks);
    lemma_partition_transfers_settle(m, blocks);
    crate::exact_partitioning::lemma_partition_edges(m, blocks);
    let s = partition_transfers(m, blocks)->0;
    assert(dp_transfers(m, vs) == Some(s));
    // Every vertex of a block is a vertex of the network.
    assert forall|j: int, x: int| 0 <= j < blocks.len() && 0 <= x < blocks[j].len() implies exists|q: int|
        0 <= q < vs.len() && #[trigger] blocks[j][x] == vs[q] by {
        let k = ones(p[j])[x];
        assert(blocks[j][x] == nz[k as int]);
        assert(vs.contains(nz[k as int]));
    }
    lemma_covered_within(vs, blocks, s);
    assert forall|i: int| 0 <= i < vs.len() implies net_flow(s, #[trigger] vs[i].id) == vs[i].weight by {
        if vs[i].weight != 0 {
            assert(nz.contains(vs[i]));
            let k = choose|k: int| 0 <= k < nz.len() && nz[k] == vs[i];
            let kk = k as usize;
            if nz[k].weight < 0 {
                let y = choose|y: int| 0 <= y < right.len() && right[y] == k;
                assert(ones(rm).contains(kk));
            } else {
                let y = choose|y: int| 0 <= y < left.len() && left[y] == k;
                assert(ones(lm).contains(kk));
            }
            let j = choose|j: int| 0 <= j < p.len() && #[trigger] ones(p[j]).contains(kk);
            let x = choose|x: int| 0 <= x < ones(p[j]).len() && ones(p[j])[x] == kk;
            assert(blocks[j][x] == nz[k]);
        } else {
            assert forall|j: int, x: int| 0 <= j < blocks.len() && 0 <= x < blocks[j].len() implies #[trigger] blocks[j][x].id
                != vs[i].id by {
                let k = ones(p[j])[x];
                assert(blocks[j][x] == nz[k as int]);
                assert(vs.contains(nz[k as int]));
                let q = choose|q: int| 0 <= q < vs.len() && vs[q] == nz[k as int];
                assert(nz[k as int].weight != 0);
            }
            lemma_net_flow_untouched(s, vs[i].id);
        }
    }
}


/// With greedy satisfaction on its blocks, the dynamic program moves exactly
/// half the absolute weights, the least any settling moves.
pub proof fn law_dp_greedy_amount(vs: Seq<NamedNode>)
    requires
        ids_distinct(vs),
        vs.len() <= usize::MAX,
        dp_fits(vs),
        solvable(vs),
    ensures
        2 * crate::solution::total_amount(dp_transfers(PartitionSolvingMethod::GreedySatsifaction, vs)->0)
            == crate::graph::total_abs_weight(vs),
{
    lemma_dp_settles(PartitionSolvingMethod::GreedySatsifaction, vs);
    crate::exact_partitioning::law_greedy_blocks_settling_amount(vs, dp_blocks(vs));
}

/// With star expand on its blocks, the dynamic program makes stars in
/// disjoint blocks of the vertices.
pub proof fn law_dp_star(vs: Seq<NamedNode>)
    requires
        ids_distinct(vs),
        vs.len() <= usize::MAX,
        dp_fits(vs),
        solvable(vs),
    ensures
        crate::exact_partitioning::star_settling(vs, dp_transfers(PartitionSolvingMethod::StarExpand, vs)->0),
{
    lemma_dp_settles(PartitionSolvingMethod::StarExpand, vs);
    crate::exact_partitioning::lemma_star_settling_of(vs, dp_blocks(vs));
}

/// Whether the network fits the masks of the dynamic program.
pub fn fits_masks(vs: &Vec<NamedNode>) -> (res: bool)
    ensures
        res == dp_fits(vs@),
{
    let mut nz: usize = 0;
    let mut creditors: usize = 0;
    let mut debtors: usize = 0;
    let mut k: usize = 0;
    proof {
        assert(vs@.take(0) =~= Seq::<NamedNode>::empty());
    }
    while k < vs.len()
        invariant
            k <= vs.len(),
            nz == nonzero_nodes(vs@.take(k as int)).len(),
            creditors == side_positions(nonzero_nodes(vs@.take(k as int)), nz as nat, false).len(),
            debtors == side_positions(nonzero_nodes(vs@.take(k as int)), nz as nat, true).len(),
            creditors + debtors == nz,
            nz <= k,
        decreases vs.len() - k,
    {
        proof {
            assert(vs@.take(k + 1).drop_last() == vs@.take(k as int));
            assert(vs@.take(k + 1).last() == vs@[k as int]);
        }
        let ghost old_nz = nonzero_nodes(vs@.take(k as int));
        if vs[k].weight != 0 {
            proof {
                lemma_side_positions_push(old_nz, vs@[k as int], nz as nat, false);
                lemma_side_positions_push(old_nz, vs@[k as int], nz as nat, true);
                assert(old_nz.push(vs@[k as int])[nz as int] == vs@[k as int]);
            }
            if vs[k].weight >= 0 {
                creditors = creditors + 1;
            } else {
                debtors = debtors + 1;
            }
            nz = nz + 1;
        }
        k = k + 1;
    }
    assert(vs@.take(k as int) == vs@);
    nz <= 128 && creditors < 64 && debtors < 64
}


// -------------------------------------------------------------------- laws

/// Expanding the positions of the ones of a number gives the number back:
/// they are fit for `expand_number`, and their powers of two add up to it.
pub proof fn law_expand_inverts_one_indices(num: u128)
    ensures
        bit_positions(num as nat, 0).len() <= 128,
        forall|k: int| 0 <= k < bit_positions(num as nat, 0).len() ==> #[trigger] bit_positions(num as nat, 0)[k] < 128,
        pow2_sum(bit_positions(num as nat, 0)) == num,
{
    lemma_pow2_128();
    lemma_bits_props(num as nat, 128);
    lemma_increasing_len(bit_positions(num as nat, 0), 128);
}

/// `number_and_subset` lists exactly the nonzero numbers whose ones are among
/// the ones of `num`.
pub proof fn law_number_and_subset(num: u128, a: u128)
    ensures
        candidates(num).contains(a) <==> (a != 0 && within(bit_positions(a as nat, 0), bit_positions(num as nat, 0))),
{
    if candidates(num).contains(a) {
        lemma_candidates(num);
        let k = choose|k: int| 0 <= k < candidates(num).len() && candidates(num)[k] == a;
        assert(candidates(num)[k] == a);
    }
    if a != 0 && within(bit_positions(a as nat, 0), bit_positions(num as nat, 0)) {
        lemma_candidates_complete(num, a);
    }
}

/// A pair of masks can be settled exactly when both are empty, or both are
/// not and their weights cancel; then it takes at most as many transfers as
/// it has vertices.
pub proof fn law_dp_value(w: Seq<i64>, i: u128, j: u128)
    ensures
        dp_value(w, i, j) is Some <==> ((i == 0 && j == 0) || (i != 0 && j != 0 && mask_weight(i as nat, w, 0)
            == -mask_weight(j as nat, w, 0))),
        dp_value(w, i, j) matches Some(x) ==> x <= popcount(i as nat) + popcount(j as nat),
{
    lemma_dp_bound(w, i, j);
    if i != 0 && j != 0 && mask_weight(i as nat, w, 0) == -mask_weight(j as nat, w, 0) {
        lemma_dp_value_some(w, i, j);
    }
    if dp_value(w, i, j) is Some && !(i == 0 && j == 0) {
        if i == 0 || j == 0 {
            // One side is empty and the other not: no candidate pair exists.
            lemma_no_candidates_of_zero(w, i, j);
        }
    }
}

/// Where one mask is empty and the other is not, no block can be split off.
proof fn lemma_no_candidates_of_zero(w: Seq<i64>, i: u128, j: u128)
    requires
        i == 0 || j == 0,
        !(i == 0 && j == 0),
    ensures
        dp_value(w, i, j) is None,
{
    if mask_weight(i as nat, w, 0) == -mask_weight(j as nat, w, 0) {
        lemma_candidates(i);
        lemma_candidates(j);
        if i == 0 {
            assert(candidates(i).len() == 0) by {
                if candidates(i).len() > 0 {
                    assert(0 < candidates(i)[0] <= i);
                }
            }
            lemma_best_a_empty(w, i, j, candidates(i), candidates(j), 0);
        } else {
            assert(candidates(j).len() == 0) by {
                if candidates(j).len() > 0 {
                    assert(0 < candidates(j)[0] <= j);
                }
            }
            lemma_best_a_empty_b(w, i, j, candidates(i), candidates(j), 0);
        }
    }
}

proof fn lemma_best_a_empty(w: Seq<i64>, i: u128, j: u128, ca: Seq<u128>, cb: Seq<u128>, ka: nat)
    requires
        ca.len() == 0,
    ensures
        best_a(w, i, j, ca, cb, ka, None) is None,
{
}

proof fn lemma_best_a_empty_b(w: Seq<i64>, i: u128, j: u128, ca: Seq<u128>, cb: Seq<u128>, ka: nat)
    requires
        cb.len() == 0,
    ensures
        best_a(w, i, j, ca, cb, ka, None) is None,
    decreases ca.len() - ka,
{
    if ka < ca.len() {
        assert(best_b(w, i, j, ca, cb, ka, 0, None) is None);
        lemma_best_a_empty_b(w, i, j, ca, cb, ka + 1);
    }
}

// ------------------------------------------------- the least number of transfers

/// The positions of `s` labelled `c`, in order.
pub open spec fn with_label(s: Seq<usize>, t: Seq<nat>, c: nat) -> Seq<usize>
    decreases s.len(),
{
    if s.len() == 0 {
        Seq::empty()
    } else if t[s.last() as int] == c {
        with_label(s.drop_last(), t, c).push(s.last())
    } else {
        with_label(s.drop_last(), t, c)
    }
}

/// The positions of `s` not labelled `c`, in order.
pub open spec fn without_label(s: Seq<usize>, t: Seq<nat>, c: nat) -> Seq<usize>
    decreases s.len(),
{
    if s.len() == 0 {
        Seq::empty()
    } else if t[s.last() as int] == c {
        without_label(s.drop_last(), t, c)
    } else {
        without_label(s.drop_last(), t, c).push(s.last())
    }
}

/// The labels of the positions of `s`, in order.
pub open spec fn labels_at(s: Seq<usize>, t: Seq<nat>) -> Seq<nat> {
    s.map_values(|k: usize| t[k as int])
}

/// `t` splits the ones of `i` and `j` into blocks that each weigh nothing:
/// the weights at the ones of `i` are positive, those at the ones of `j`
/// negative, and for every label the positions of `i` and of `j` with that
/// label weigh nothing together. Each block then meets both masks, and
/// settling it takes one transfer fewer than its vertices.
pub open spec fn balanced_labelling(w: Seq<i64>, t: Seq<nat>, i: u128, j: u128) -> bool {
    &&& forall|x: int|
        0 <= x < bit_positions(i as nat, 0).len() ==> w[#[trigger] bit_positions(i as nat, 0)[x] as int] > 0
    &&& forall|x: int|
        0 <= x < bit_positions(j as nat, 0).len() ==> w[#[trigger] bit_positions(j as nat, 0)[x] as int] < 0
    &&& forall|c: nat|
        #[trigger] weight_at(w, with_label(bit_positions(i as nat, 0), t, c)) + weight_at(
            w,
            with_label(bit_positions(j as nat, 0), t, c),
        ) == 0
}

/// Which positions the two filters keep, and that they keep the order.
proof fn lemma_with_label(s: Seq<usize>, t: Seq<nat>, c: nat)
    requires
        increasing(s),
    ensures
        increasing(with_label(s, t, c)),
        increasing(without_label(s, t, c)),
        forall|p: usize| #[trigger] with_label(s, t, c).contains(p) <==> (s.contains(p) && t[p as int] == c),
        forall|p: usize| #[trigger] without_label(s, t, c).contains(p) <==> (s.contains(p) && t[p as int] != c),
        within(with_label(s, t, c), s),
        within(without_label(s, t, c), s),
        without(s, with_label(s, t, c)) == without_label(s, t, c),
    decreases s.len(),
{
    if s.len() > 0 {
        let s2 = s.drop_last();
        let l = s.last();
        assert(increasing(s2));
        lemma_with_label(s2, t, c);
        let a2 = with_label(s2, t, c);
        let b2 = without_label(s2, t, c);
        assert forall|x: int| 0 <= x < s2.len() implies #[trigger] s2[x] < l by {
            assert(s[x] < s[s.len() - 1]);
        }
        assert forall|p: usize| s.contains(p) <==> (s2.contains(p) || p == l) by {
            if s.contains(p) {
                let x = choose|x: int| 0 <= x < s.len() && s[x] == p;
                if x < s2.len() {
                    assert(s2[x] == p);
                }
            }
            if s2.contains(p) {
                let x = choose|x: int| 0 <= x < s2.len() && s2[x] == p;
                assert(s[x] == p);
            }
            if p == l {
                assert(s[s.len() - 1] == p);
            }
        }
        assert forall|x: int| 0 <= x < a2.len() implies #[trigger] a2[x] < l by {
            assert(s2.contains(a2[x]));
        }
        assert forall|x: int| 0 <= x < b2.len() implies #[trigger] b2[x] < l by {
            assert(s2.contains(b2[x]));
        }
        if t[l as int] == c {
            let a = a2.push(l);
            assert forall|x: int, y: int| 0 <= x < y < a.len() implies #[trigger] a[x] < #[trigger] a[y] by {
                assert(a[x] == a2[x]);
                if y < a2.len() {
                    assert(a[y] == a2[y]);
                }
            }
            assert forall|p: usize| #[trigger] a.contains(p) <==> (a2.contains(p) || p == l) by {
                if a.contains(p) {
                    let x = choose|x: int| 0 <= x < a.len() && a[x] == p;
                    if x < a2.len() {
                        assert(a2[x] == p);
                    }
                }
                if a2.contains(p) {
                    let x = choose|x: int| 0 <= x < a2.len() && a2[x] == p;
                    assert(a[x] == p);
                }
                if p == l {
                    assert(a[a2.len() as int] == p);
                }
            }
            assert(within(a, s)) by {
                assert forall|x: int| 0 <= x < a.len() implies s.contains(#[trigger] a[x]) by {
                    if x < a2.len() {
                        assert(a[x] == a2[x]);
                        assert(s2.contains(a2[x]));
                    }
                }
            }
            assert(within(b2, s)) by {
                assert forall|x: int| 0 <= x < b2.len() implies s.contains(#[trigger] b2[x]) by {
                    assert(s2.contains(b2[x]));
                }
            }
            assert(a.contains(l));
            assert forall|x: int| 0 <= x < s2.len() implies (#[trigger] a.contains(s2[x])) == a2.contains(s2[x]) by {
                assert(s2[x] < l);
            }
            lemma_without_same(s2, a, a2);
        } else {
            let b = b2.push(l);
            assert forall|x: int, y: int| 0 <= x < y < b.len() implies #[trigger] b[x] < #[trigger] b[y] by {
                assert(b[x] == b2[x]);
                if y < b2.len() {
                    assert(b[y] == b2[y]);
                }
            }
            assert forall|p: usize| #[trigger] b.contains(p) <==> (b2.contains(p) || p == l) by {
                if b.contains(p) {
                    let x = choose|x: int| 0 <= x < b.len() && b[x] == p;
                    if x < b2.len() {
                        assert(b2[x] == p);
                    }
                }
                if b2.contains(p) {
                    let x = choose|x: int| 0 <= x < b2.len() && b2[x] == p;
                    assert(b[x] == p);
                }
                if p == l {
                    assert(b[b2.len() as int] == p);
                }
            }
            assert(within(b, s)) by {
                assert forall|x: int| 0 <= x < b.len() implies s.contains(#[trigger] b[x]) by {
                    if x < b2.len() {
                        assert(b[x] == b2[x]);
                        assert(s2.contains(b2[x]));
                    }
                }
            }
            assert(within(a2, s)) by {
                assert forall|x: int| 0 <= x < a2.len() implies s.contains(#[trigger] a2[x]) by {
                    assert(s2.contains(a2[x]));
                }
            }
            assert(!a2.contains(l));
        }
    }
}


/// The value of a best so far; nothing where there is none.
pub open spec fn best_val(b: Best) -> int {
    match b {
        Some(e) => e.0 as int,
        None => 0,
    }
}

/// The value that splitting `(a, b)` off `(i, j)` gives, where the rest can be settled.
pub open spec fn split_value(w: Seq<i64>, i: u128, j: u128, a: u128, b: u128) -> int {
    dp_value(w, (i - a) as u128, (j - b) as u128)->0 + popcount(a as nat) + popcount(b as nat) - 1
}

/// The best so far never gets worse.
proof fn lemma_best_b_le(w: Seq<i64>, i: u128, j: u128, ca: Seq<u128>, cb: Seq<u128>, ka: nat, kb: nat, acc: Best, x: int)
    requires
        acc is Some,
        best_val(acc) <= x,
    ensures
        best_b(w, i, j, ca, cb, ka, kb, acc) is Some,
        best_val(best_b(w, i, j, ca, cb, ka, kb, acc)) <= x,
    decreases cb.len() - kb,
{
    if kb < cb.len() && ka < ca.len() {
        let a = ca[ka as int];
        let b = cb[kb as int];
        let acc2 = if 0 < a <= i && 0 < b <= j {
            match dp_value(w, (i - a) as u128, (j - b) as u128) {
                Some(v) => better(acc, (v + popcount(a as nat) + popcount(b as nat) - 1) as nat, block_choice(i, j, a, b)),
                None => acc,
            }
        } else {
            acc
        };
        lemma_best_b_le(w, i, j, ca, cb, ka, kb + 1, acc2, x);
    }
}

proof fn lemma_best_a_le(w: Seq<i64>, i: u128, j: u128, ca: Seq<u128>, cb: Seq<u128>, ka: nat, acc: Best, x: int)
    requires
        acc is Some,
        best_val(acc) <= x,
    ensures
        best_a(w, i, j, ca, cb, ka, acc) is Some,
        best_val(best_a(w, i, j, ca, cb, ka, acc)) <= x,
    decreases ca.len() - ka,
{
    if ka < ca.len() {
        lemma_best_b_le(w, i, j, ca, cb, ka, 0, acc, x);
        lemma_best_a_le(w, i, j, ca, cb, ka + 1, best_b(w, i, j, ca, cb, ka, 0, acc), x);
    }
}

/// Going past a candidate pair whose rest can be settled leaves a best that is
/// at most what that pair gives.
proof fn lemma_best_b_hit(
    w: Seq<i64>,
    i: u128,
    j: u128,
    ca: Seq<u128>,
    cb: Seq<u128>,
    ka: nat,
    kb: nat,
    acc: Best,
    kb0: nat,
)
    requires
        ka < ca.len(),
        kb <= kb0 < cb.len(),
        0 < ca[ka as int] <= i,
        0 < cb[kb0 as int] <= j,
        dp_value(w, (i - ca[ka as int]) as u128, (j - cb[kb0 as int]) as u128) is Some,
    ensures
        best_b(w, i, j, ca, cb, ka, kb, acc) is Some,
        best_val(best_b(w, i, j, ca, cb, ka, kb, acc)) <= split_value(w, i, j, ca[ka as int], cb[kb0 as int]),
    decreases cb.len() - kb,
{
    let a = ca[ka as int];
    let b = cb[kb as int];
    let acc2 = if 0 < a <= i && 0 < b <= j {
        match dp_value(w, (i - a) as u128, (j - b) as u128) {
            Some(v) => better(acc, (v + popcount(a as nat) + popcount(b as nat) - 1) as nat, block_choice(i, j, a, b)),
            None => acc,
        }
    } else {
        acc
    };
    if kb == kb0 {
        lemma_popcount_pos(a as nat);
        lemma_best_b_le(w, i, j, ca, cb, ka, kb + 1, acc2, split_value(w, i, j, a, b));
    } else {
        lemma_best_b_hit(w, i, j, ca, cb, ka, kb + 1, acc2, kb0);
    }
}

proof fn lemma_best_a_hit(
    w: Seq<i64>,
    i: u128,
    j: u128,
    ca: Seq<u128>,
    cb: Seq<u128>,
    ka: nat,
    acc: Best,
    ka0: nat,
    kb0: nat,
)
    requires
        ka <= ka0 < ca.len(),
        kb0 < cb.len(),
        0 < ca[ka0 as int] <= i,
        0 < cb[kb0 as int] <= j,
        dp_value(w, (i - ca[ka0 as int]) as u128, (j - cb[kb0 as int]) as u128) is Some,
    ensures
        best_a(w, i, j, ca, cb, ka, acc) is Some,
        best_val(best_a(w, i, j, ca, cb, ka, acc)) <= split_value(w, i, j, ca[ka0 as int], cb[kb0 as int]),
    decreases ca.len() - ka,
{
    if ka == ka0 {
        lemma_best_b_hit(w, i, j, ca, cb, ka, 0, acc, kb0);
        lemma_best_a_le(
            w,
            i,
            j,
            ca,
            cb,
            ka + 1,
            best_b(w, i, j, ca, cb, ka, 0, acc),
            split_value(w, i, j, ca[ka0 as int], cb[kb0 as int]),
        );
    } else {
        lemma_best_a_hit(w, i, j, ca, cb, ka + 1, best_b(w, i, j, ca, cb, ka, 0, acc), ka0, kb0);
    }
}

/// Taking out the positions labelled `c` takes every one of them out of each
/// label's positions, and leaves those of every other label.
proof fn lemma_with_label_without(s: Seq<usize>, t: Seq<nat>, c: nat, c2: nat)
    ensures
        with_label(without_label(s, t, c), t, c2) == if c2 == c {
            Seq::<usize>::empty()
        } else {
            with_label(s, t, c2)
        },
    decreases s.len(),
{
    if s.len() > 0 {
        lemma_with_label_without(s.drop_last(), t, c, c2);
        let w2 = without_label(s.drop_last(), t, c);
        if t[s.last() as int] != c {
            assert(w2.push(s.last()).drop_last() == w2);
        }
    }
}

/// The labels at the positions of `s` are those of the positions in `s`.
proof fn lemma_labels_at(s: Seq<usize>, t: Seq<nat>, c: nat)
    ensures
        labels_at(s, t).contains(c) <==> exists|p: usize| #[trigger] s.contains(p) && t[p as int] == c,
{
    if labels_at(s, t).contains(c) {
        let x = choose|x: int| 0 <= x < labels_at(s, t).len() && labels_at(s, t)[x] == c;
        assert(s.contains(s[x]));
    }
    if exists|p: usize| #[trigger] s.contains(p) && t[p as int] == c {
        let p = choose|p: usize| #[trigger] s.contains(p) && t[p as int] == c;
        let x = choose|x: int| 0 <= x < s.len() && s[x] == p;
        assert(labels_at(s, t)[x] == c);
    }
}

/// The dynamic program finds the fewest transfers: for every split of the
/// ones of `i` and `j` into blocks that each weigh nothing (a labelling, with
/// one block per label in use), the program settles the pair, with at most as
/// many transfers as settling each block with one transfer fewer than it has
/// vertices.
pub proof fn law_dp_least(w: Seq<i64>, t: Seq<nat>, i: u128, j: u128)
    requires
        balanced_labelling(w, t, i, j),
    ensures
        dp_value(w, i, j) is Some,
        dp_value(w, i, j)->0 + label_set(labels_at(bit_positions(i as nat, 0) + bit_positions(j as nat, 0), t)).len()
            <= popcount(i as nat) + popcount(j as nat),
    decreases popcount(i as nat) + popcount(j as nat),
{
    broadcast use vstd::set::group_set_axioms;

    lemma_pow2_128();
    lemma_bits_props(i as nat, 128);
    lemma_bits_props(j as nat, 128);
    let bi = bit_positions(i as nat, 0);
    let bj = bit_positions(j as nat, 0);
    let all = bi + bj;
    crate::optimality::lemma_label_set(labels_at(all, t));
    if i == 0 && j == 0 {
        assert(labels_at(all, t) =~= Seq::<nat>::empty());
        assert(label_set(labels_at(all, t)) =~= Set::<nat>::empty());
        return;
    }
    if i != 0 {
        lemma_popcount_pos(i as nat);
    } else {
        lemma_popcount_pos(j as nat);
    }
    let f: usize = if bi.len() > 0 {
        bi[0]
    } else {
        bj[0]
    };
    let c = t[f as int];
    lemma_with_label(bi, t, c);
    lemma_with_label(bj, t, c);
    let ai = with_label(bi, t, c);
    let aj = with_label(bj, t, c);
    if bi.len() > 0 {
        assert(bi.contains(f));
        assert(ai.contains(f));
    } else {
        assert(bj.contains(f));
        assert(aj.contains(f));
    }
    assert forall|x: int| 0 <= x < ai.len() implies #[trigger] ai[x] < 128 && w[ai[x] as int] > 0 by {
        assert(bi.contains(ai[x]));
        let y = choose|y: int| 0 <= y < bi.len() && bi[y] == ai[x];
    }
    assert forall|x: int| 0 <= x < aj.len() implies #[trigger] aj[x] < 128 && w[aj[x] as int] < 0 by {
        assert(bj.contains(aj[x]));
        let y = choose|y: int| 0 <= y < bj.len() && bj[y] == aj[x];
    }
    lemma_weight_at_sign(w, ai, true);
    lemma_weight_at_sign(w, aj, false);
    assert(weight_at(w, ai) + weight_at(w, aj) == 0);
    assert(ai.len() > 0 && aj.len() > 0);
    lemma_bits_of_pow2_sum(ai);
    lemma_pow2_sum_bound_128(ai);
    lemma_bits_of_pow2_sum(aj);
    lemma_pow2_sum_bound_128(aj);
    let a = pow2_sum(ai) as u128;
    let b = pow2_sum(aj) as u128;
    assert(bit_positions(a as nat, 0) == ai);
    assert(bit_positions(b as nat, 0) == aj);
    assert(a != 0);
    assert(b != 0);
    lemma_candidates_complete(i, a);
    lemma_candidates_complete(j, b);
    lemma_candidates(i);
    lemma_candidates(j);
    let ca = candidates(i);
    let cb = candidates(j);
    let ka0 = choose|k: int| 0 <= k < ca.len() && ca[k] == a;
    let kb0 = choose|k: int| 0 <= k < cb.len() && cb[k] == b;
    assert(ca[ka0] == a);
    assert(cb[kb0] == b);
    let i2 = (i - a) as u128;
    let j2 = (j - b) as u128;
    let bi2 = bit_positions(i2 as nat, 0);
    let bj2 = bit_positions(j2 as nat, 0);
    assert(bi2 == without_label(bi, t, c));
    assert(bj2 == without_label(bj, t, c));
    assert forall|x: int| 0 <= x < bi2.len() implies w[#[trigger] bi2[x] as int] > 0 by {
        assert(bi2.contains(bi2[x]));
        let y = choose|y: int| 0 <= y < bi.len() && bi[y] == bi2[x];
    }
    assert forall|x: int| 0 <= x < bj2.len() implies w[#[trigger] bj2[x] as int] < 0 by {
        assert(bj2.contains(bj2[x]));
        let y = choose|y: int| 0 <= y < bj.len() && bj[y] == bj2[x];
    }
    assert forall|c2: nat| #[trigger] weight_at(w, with_label(bi2, t, c2)) + weight_at(w, with_label(bj2, t, c2)) == 0 by {
        lemma_with_label_without(bi, t, c, c2);
        lemma_with_label_without(bj, t, c, c2);
        if c2 != c {
            assert(weight_at(w, with_label(bi, t, c2)) + weight_at(w, with_label(bj, t, c2)) == 0);
        }
    }
    assert(balanced_labelling(w, t, i2, j2));
    lemma_popcount_pos(a as nat);
    lemma_popcount_pos(b as nat);
    law_dp_least(w, t, i2, j2);
    let all2 = bi2 + bj2;
    crate::optimality::lemma_label_set(labels_at(all2, t));
    assert forall|p: usize| #[trigger] all.contains(p) <==> (bi.contains(p) || bj.contains(p)) by {
        if all.contains(p) {
            let x = choose|x: int| 0 <= x < all.len() && all[x] == p;
            if x < bi.len() {
                assert(bi[x] == p);
            } else {
                assert(bj[x - bi.len()] == p);
            }
        }
        if bi.contains(p) {
            let x = choose|x: int| 0 <= x < bi.len() && bi[x] == p;
            assert(all[x] == p);
        }
        if bj.contains(p) {
            let x = choose|x: int| 0 <= x < bj.len() && bj[x] == p;
            assert(all[x + bi.len()] == p);
        }
    }
    assert forall|p: usize| #[trigger] all2.contains(p) <==> (bi2.contains(p) || bj2.contains(p)) by {
        if all2.contains(p) {
            let x = choose|x: int| 0 <= x < all2.len() && all2[x] == p;
            if x < bi2.len() {
                assert(bi2[x] == p);
            } else {
                assert(bj2[x - bi2.len()] == p);
            }
        }
        if bi2.contains(p) {
            let x = choose|x: int| 0 <= x < bi2.len() && bi2[x] == p;
            assert(all2[x] == p);
        }
        if bj2.contains(p) {
            let x = choose|x: int| 0 <= x < bj2.len() && bj2[x] == p;
            assert(all2[x + bi2.len()] == p);
        }
    }
    assert forall|c2: nat| #[trigger] label_set(labels_at(all2, t)).contains(c2) <==> label_set(labels_at(all, t)).remove(
        c,
    ).contains(c2) by {
        lemma_labels_at(all, t, c2);
        lemma_labels_at(all2, t, c2);
        if labels_at(all2, t).contains(c2) {
            let p = choose|p: usize| #[trigger] all2.contains(p) && t[p as int] == c2;
            assert(all.contains(p));
        }
        if labels_at(all, t).contains(c2) && c2 != c {
            let p = choose|p: usize| #[trigger] all.contains(p) && t[p as int] == c2;
            assert(all2.contains(p));
        }
    }
    assert(label_set(labels_at(all2, t)) =~= label_set(labels_at(all, t)).remove(c));
    assert(all.contains(f));
    lemma_labels_at(all, t, c);
    assert(label_set(labels_at(all, t)).contains(c));
    lemma_mask_weight_split(w, i, a);
    lemma_mask_weight_split(w, j, b);
    lemma_mask_weight_at(a as nat, w, 0);
    lemma_mask_weight_at(b as nat, w, 0);
    law_dp_value(w, i2, j2);
    assert(mask_weight(i as nat, w, 0) == -mask_weight(j as nat, w, 0));
    lemma_best_a_hit(w, i, j, ca, cb, 0, None, ka0 as nat, kb0 as nat);
}

/// The value recorded with a choice is what that choice gives: the rest's
/// value and one transfer fewer than the block's vertices, or, where the
/// block is all of `(i, j)`, one transfer fewer than its vertices.
pub open spec fn value_ok(w: Seq<i64>, i: u128, j: u128, e: (nat, Option<(u128, u128)>)) -> bool {
    match e.1 {
        Some(c) => e.0 == split_value(w, i, j, c.0, c.1),
        None => e.0 + 1 == popcount(i as nat) + popcount(j as nat),
    }
}

proof fn lemma_best_value_b(w: Seq<i64>, i: u128, j: u128, ca: Seq<u128>, cb: Seq<u128>, ka: nat, kb: nat, acc: Best)
    requires
        acc matches Some(e) ==> value_ok(w, i, j, e),
    ensures
        best_b(w, i, j, ca, cb, ka, kb, acc) matches Some(e) ==> value_ok(w, i, j, e),
    decreases cb.len() - kb,
{
    if kb < cb.len() && ka < ca.len() {
        let a = ca[ka as int];
        let b = cb[kb as int];
        let acc2 = if 0 < a <= i && 0 < b <= j {
            match dp_value(w, (i - a) as u128, (j - b) as u128) {
                Some(v) => better(acc, (v + popcount(a as nat) + popcount(b as nat) - 1) as nat, block_choice(i, j, a, b)),
                None => acc,
            }
        } else {
            acc
        };
        if 0 < a <= i && 0 < b <= j && dp_value(w, (i - a) as u128, (j - b) as u128) is Some {
            lemma_popcount_pos(a as nat);
            law_dp_value(w, (i - a) as u128, (j - b) as u128);
            if block_choice(i, j, a, b) is None {
                assert(a == i && b == j);
                assert(popcount(0) == 0);
            }
        }
        lemma_best_value_b(w, i, j, ca, cb, ka, kb + 1, acc2);
    }
}

proof fn lemma_best_value_a(w: Seq<i64>, i: u128, j: u128, ca: Seq<u128>, cb: Seq<u128>, ka: nat, acc: Best)
    requires
        acc matches Some(e) ==> value_ok(w, i, j, e),
    ensures
        best_a(w, i, j, ca, cb, ka, acc) matches Some(e) ==> value_ok(w, i, j, e),
    decreases ca.len() - ka,
{
    if ka < ca.len() {
        lemma_best_value_b(w, i, j, ca, cb, ka, 0, acc);
        lemma_best_value_a(w, i, j, ca, cb, ka + 1, best_b(w, i, j, ca, cb, ka, 0, acc));
    }
}

/// The number of ones of all the masks together.
pub open spec fn mask_sizes(p: Seq<u128>) -> int
    decreases p.len(),
{
    if p.len() == 0 {
        0
    } else {
        mask_sizes(p.drop_last()) + popcount(p.last() as nat)
    }
}

proof fn lemma_mask_sizes_concat(a: Seq<u128>, b: Seq<u128>)
    ensures
        mask_sizes(a + b) == mask_sizes(a) + mask_sizes(b),
    decreases b.len(),
{
    if b.len() == 0 {
        assert(a + b == a);
    } else {
        lemma_mask_sizes_concat(a, b.drop_last());
        assert((a + b).drop_last() == a + b.drop_last());
    }
}

/// A pair of masks is settled in one block at most as well as any split.
proof fn lemma_dp_one_block(w: Seq<i64>, a: u128, b: u128)
    requires
        a > 0,
        b > 0,
        dp_value(w, a, b) is Some,
    ensures
        dp_value(w, a, b)->0 + 1 <= popcount(a as nat) + popcount(b as nat),
{
    lemma_pow2_128();
    lemma_bits_props(a as nat, 128);
    lemma_bits_props(b as nat, 128);
    assert(within(bit_positions(a as nat, 0), bit_positions(a as nat, 0)));
    assert(within(bit_positions(b as nat, 0), bit_positions(b as nat, 0)));
    lemma_candidates_complete(a, a);
    lemma_candidates_complete(b, b);
    let ca = candidates(a);
    let cb = candidates(b);
    let ka0 = choose|k: int| 0 <= k < ca.len() && ca[k] == a;
    let kb0 = choose|k: int| 0 <= k < cb.len() && cb[k] == b;
    assert(ca[ka0] == a);
    assert(cb[kb0] == b);
    assert(dp_value(w, 0, 0) == Some(0nat));
    lemma_best_a_hit(w, a, b, ca, cb, 0, None, ka0 as nat, kb0 as nat);
}

/// The block `x` holds a one of `i` and a one of `j`.
pub open spec fn meets_both(x: u128, i: u128, j: u128) -> bool {
    &&& exists|q: usize| ones(x).contains(q) && ones(i).contains(q)
    &&& exists|q: usize| ones(x).contains(q) && ones(j).contains(q)
}

/// The blocks that the program extracts hold the ones of both masks, each
/// meets both masks, and there are as many of them as the ones less the
/// program's value.
pub proof fn lemma_extract_count(w: Seq<i64>, i: u128, j: u128)
    requires
        i > 0,
        j > 0,
        dp_value(w, i, j) is Some,
        apart(ones(i), ones(j)),
    ensures
        extract_spec(w, i, j).len() + dp_value(w, i, j)->0 == popcount(i as nat) + popcount(j as nat),
        mask_sizes(extract_spec(w, i, j)) == popcount(i as nat) + popcount(j as nat),
        forall|k: int|
            0 <= k < extract_spec(w, i, j).len() ==> meets_both(#[trigger] extract_spec(w, i, j)[k], i, j),
    decreases i + j,
{
    let p = extract_spec(w, i, j);
    let e = dp_best(w, i, j)->0;
    lemma_best_choice_a(w, i, j, candidates(i), candidates(j), 0, None);
    lemma_best_value_a(w, i, j, candidates(i), candidates(j), 0, None);
    lemma_pow2_128();
    lemma_bits_props(i as nat, 128);
    lemma_bits_props(j as nat, 128);
    match e.1 {
        None => {
            lemma_union_mask(w, i, j);
            let m = (i + j) as u128;
            assert(p == seq![m]);
            lemma_bits_props(m as nat, 128);
            assert(ones(m).len() == popcount(m as nat));
            assert(p.drop_last() =~= Seq::<u128>::empty());
            assert(p.last() == m);
            assert(mask_sizes(p) == mask_sizes(p.drop_last()) + popcount(m as nat));
            assert(ones(i).contains(ones(i)[0]));
            assert(ones(j).contains(ones(j)[0]));
            assert(ones(m).contains(ones(i)[0]));
            assert(ones(m).contains(ones(j)[0]));
            assert(meets_both(p[0], i, j));
        },
        Some(c) => {
            let a = c.0;
            let b = c.1;
            lemma_choice_halves(w, i, j, e);
            lemma_candidates(i);
            lemma_candidates(j);
            let ka = choose|k: int| 0 <= k < candidates(i).len() && candidates(i)[k] == a;
            let kb = choose|k: int| 0 <= k < candidates(j).len() && candidates(j)[k] == b;
            assert(candidates(i)[ka] == a);
            assert(candidates(j)[kb] == b);
            let ra = (i - a) as u128;
            let rb = (j - b) as u128;
            lemma_bits_props(a as nat, 128);
            lemma_bits_props(b as nat, 128);
            lemma_split_sum(ones(i), ones(a));
            lemma_split_sum(ones(j), ones(b));
            assert forall|q: usize| ones(ra).contains(q) <==> (ones(i).contains(q) && !ones(a).contains(q)) by {
                lemma_without_contains(ones(i), ones(a), q);
            }
            assert forall|q: usize| ones(rb).contains(q) <==> (ones(j).contains(q) && !ones(b).contains(q)) by {
                lemma_without_contains(ones(j), ones(b), q);
            }
            assert forall|q: usize| ones(a).contains(q) implies ones(i).contains(q) by {
                let x = choose|x: int| 0 <= x < ones(a).len() && ones(a)[x] == q;
            }
            assert forall|q: usize| ones(b).contains(q) implies ones(j).contains(q) by {
                let x = choose|x: int| 0 <= x < ones(b).len() && ones(b)[x] == q;
            }
            assert(apart(ones(a), ones(b))) by {
                assert forall|x: int, y: int| 0 <= x < ones(a).len() && 0 <= y < ones(b).len() implies #[trigger] ones(a)[x]
                    != #[trigger] ones(b)[y] by {
                    assert(ones(a).contains(ones(a)[x]));
                    assert(ones(b).contains(ones(b)[y]));
                    let x2 = choose|x2: int| 0 <= x2 < ones(i).len() && ones(i)[x2] == ones(a)[x];
                    let y2 = choose|y2: int| 0 <= y2 < ones(j).len() && ones(j)[y2] == ones(b)[y];
                    assert(ones(i)[x2] != ones(j)[y2]);
                }
            }
            assert(apart(ones(ra), ones(rb))) by {
                assert forall|x: int, y: int| 0 <= x < ones(ra).len() && 0 <= y < ones(rb).len() implies #[trigger] ones(ra)[x]
                    != #[trigger] ones(rb)[y] by {
                    assert(ones(ra).contains(ones(ra)[x]));
                    assert(ones(rb).contains(ones(rb)[y]));
                    let x2 = choose|x2: int| 0 <= x2 < ones(i).len() && ones(i)[x2] == ones(ra)[x];
                    let y2 = choose|y2: int| 0 <= y2 < ones(j).len() && ones(j)[y2] == ones(rb)[y];
                    assert(ones(i)[x2] != ones(j)[y2]);
                }
            }
            lemma_extract_count(w, a, b);
            lemma_extract_count(w, ra, rb);
            lemma_dp_one_block(w, a, b);
            let pa = extract_spec(w, a, b);
            let pr = extract_spec(w, ra, rb);
            assert(p == pa + pr);
            lemma_mask_sizes_concat(pa, pr);
            lemma_apart_contains(ones(a), ones(ra));
            lemma_apart_contains(ones(b), ones(rb));
            lemma_dp_subadd(w, a, b, ra, rb);
            assert((a + ra) as u128 == i);
            assert((b + rb) as u128 == j);
            assert forall|k: int| 0 <= k < p.len() implies meets_both(#[trigger] p[k], i, j) by {
                if k < pa.len() {
                    assert(p[k] == pa[k]);
                    assert(meets_both(pa[k], a, b));
                    let q1 = choose|q: usize| ones(pa[k]).contains(q) && ones(a).contains(q);
                    let q2 = choose|q: usize| ones(pa[k]).contains(q) && ones(b).contains(q);
                    assert(ones(i).contains(q1) && ones(j).contains(q2));
                } else {
                    assert(p[k] == pr[k - pa.len()]);
                    assert(meets_both(pr[k - pa.len()], ra, rb));
                    let q1 = choose|q: usize| ones(pr[k - pa.len()]).contains(q) && ones(ra).contains(q);
                    let q2 = choose|q: usize| ones(pr[k - pa.len()]).contains(q) && ones(rb).contains(q);
                    assert(ones(i).contains(q1) && ones(j).contains(q2));
                }
            }
        },
    }
}

/// The labels of the vertices of nonzero weight, in order.
pub open spec fn nonzero_labels(vs: Seq<NamedNode>, l: Seq<nat>) -> Seq<nat>
    decreases vs.len(),
{
    if vs.len() == 0 || l.len() == 0 {
        Seq::empty()
    } else if vs.last().weight != 0 {
        nonzero_labels(vs.drop_last(), l.drop_last()).push(l.last())
    } else {
        nonzero_labels(vs.drop_last(), l.drop_last())
    }
}

/// Leaving out the vertices of weight zero keeps what each label weighs, and
/// loses at most one label per vertex left out.
proof fn lemma_nonzero_labels(vs: Seq<NamedNode>, l: Seq<nat>)
    requires
        l.len() == vs.len(),
    ensures
        nonzero_labels(vs, l).len() == nonzero_nodes(vs).len(),
        forall|c: nat|
            #[trigger] class_weight(nonzero_nodes(vs), nonzero_labels(vs, l), c, nonzero_nodes(vs).len()) == class_weight(
                vs,
                l,
                c,
                vs.len(),
            ),
        forall|c: nat| #[trigger] nonzero_labels(vs, l).contains(c) ==> l.contains(c),
        label_set(l).len() <= label_set(nonzero_labels(vs, l)).len() + vs.len() - nonzero_nodes(vs).len(),
    decreases vs.len(),
{
    broadcast use vstd::set::group_set_axioms;

    if vs.len() > 0 {
        let v2 = vs.drop_last();
        let l2 = l.drop_last();
        lemma_nonzero_labels(v2, l2);
        let n2 = nonzero_nodes(v2);
        let nl2 = nonzero_labels(v2, l2);
        let v = vs.last();
        let lv = l.last();
        crate::optimality::lemma_label_set(l2);
        crate::optimality::lemma_label_set(nl2);
        crate::optimality::lemma_label_set(l);
        assert forall|c: nat| #[trigger] class_weight(vs, l, c, (vs.len() - 1) as nat) == class_weight(v2, l2, c, v2.len()) by {
            crate::optimality::lemma_class_weight_prefix(vs, l, v2, l2, c, v2.len());
        }
        assert(l2.push(lv) == l);
        assert forall|c: nat| #[trigger] l2.contains(c) implies l.contains(c) by {
            {
                let x = choose|x: int| 0 <= x < l2.len() && l2[x] == c;
                assert(l[x] == c);
            }
        }
        if v.weight != 0 {
            let nz = n2.push(v);
            let nl = nl2.push(lv);
            assert(nonzero_nodes(vs) == nz);
            assert(nonzero_labels(vs, l) == nl);
            assert forall|c: nat| #[trigger] class_weight(nz, nl, c, n2.len()) == class_weight(n2, nl2, c, n2.len()) by {
                crate::optimality::lemma_class_weight_prefix(nz, nl, n2, nl2, c, n2.len());
            }
            assert forall|c: nat| #[trigger] class_weight(nz, nl, c, nz.len()) == class_weight(vs, l, c, vs.len()) by {
                assert(class_weight(nz, nl, c, n2.len()) == class_weight(n2, nl2, c, n2.len()));
                assert(class_weight(vs, l, c, (vs.len() - 1) as nat) == class_weight(v2, l2, c, v2.len()));
            }
            assert forall|c: nat| #[trigger] nl.contains(c) implies l.contains(c) by {
                let x = choose|x: int| 0 <= x < nl.len() && nl[x] == c;
                if x < nl2.len() {
                    assert(nl2[x] == c);
                    assert(nl2.contains(c));
                } else {
                    assert(l[l.len() - 1] == c);
                }
            }
            assert(nl.drop_last() == nl2);
            assert(l.drop_last() == l2);
            crate::optimality::lemma_label_set(nl);
            if label_set(l2).contains(lv) {
                assert(label_set(l) == label_set(l2));
            } else {
                assert(!nl2.contains(lv));
                assert(!label_set(nl2).contains(lv));
            }
        } else {
            assert(nonzero_nodes(vs) == n2);
            assert(nonzero_labels(vs, l) == nl2);
            assert forall|c: nat| #[trigger] class_weight(n2, nl2, c, n2.len()) == class_weight(vs, l, c, vs.len()) by {
                assert(class_weight(vs, l, c, (vs.len() - 1) as nat) == class_weight(v2, l2, c, v2.len()));
            }
            assert(l.drop_last() == l2);
        }
    }
}

/// Each label weighs, over the creditors and the debtors together, what it
/// weighs over all the vertices.
proof fn lemma_side_class(nz: Seq<NamedNode>, t: Seq<nat>, c: nat, k: nat)
    requires
        k <= nz.len(),
        k <= usize::MAX,
        k <= t.len(),
    ensures
        weight_at(weights_of(nz), with_label(side_positions(nz, k, false), t, c)) + weight_at(
            weights_of(nz),
            with_label(side_positions(nz, k, true), t, c),
        ) == class_weight(nz, t, c, k),
    decreases k,
{
    if k > 0 {
        lemma_side_class(nz, t, c, (k - 1) as nat);
        let x = (k - 1) as usize;
        let neg = nz[k - 1].weight < 0;
        let s = side_positions(nz, (k - 1) as nat, neg);
        assert(side_positions(nz, k, neg) == s.push(x));
        assert(side_positions(nz, k, !neg) == side_positions(nz, (k - 1) as nat, !neg));
        assert(s.push(x).drop_last() == s);
        assert(s.push(x).last() == x);
        let wl = with_label(s, t, c);
        assert(wl.push(x).drop_last() == wl);
        assert(wl.push(x).last() == x);
        assert(weights_of(nz)[k - 1] == nz[k - 1].weight);
    }
}

/// Every position of `nz` is a creditor or a debtor, so the labels at the
/// creditors and debtors are all the labels.
proof fn lemma_side_labels(nz: Seq<NamedNode>, t: Seq<nat>)
    requires
        t.len() == nz.len(),
        nz.len() <= usize::MAX,
    ensures
        label_set(
            labels_at(side_positions(nz, nz.len(), false) + side_positions(nz, nz.len(), true), t),
        ) == label_set(t),
{
    let n = nz.len();
    let left = side_positions(nz, n, false);
    let right = side_positions(nz, n, true);
    let all = left + right;
    crate::approximation::lemma_side_positions(nz, n, false);
    crate::approximation::lemma_side_positions(nz, n, true);
    crate::optimality::lemma_label_set(labels_at(all, t));
    crate::optimality::lemma_label_set(t);
    assert forall|p: usize| #[trigger] all.contains(p) <==> (left.contains(p) || right.contains(p)) by {
        if all.contains(p) {
            let x = choose|x: int| 0 <= x < all.len() && all[x] == p;
            if x < left.len() {
                assert(left[x] == p);
            } else {
                assert(right[x - left.len()] == p);
            }
        }
        if left.contains(p) {
            let x = choose|x: int| 0 <= x < left.len() && left[x] == p;
            assert(all[x] == p);
        }
        if right.contains(p) {
            let x = choose|x: int| 0 <= x < right.len() && right[x] == p;
            assert(all[x + left.len()] == p);
        }
    }
    assert forall|c: nat| #[trigger] label_set(labels_at(all, t)).contains(c) <==> label_set(t).contains(c) by {
        lemma_labels_at(all, t, c);
        if labels_at(all, t).contains(c) {
            let p = choose|p: usize| #[trigger] all.contains(p) && t[p as int] == c;
            if left.contains(p) {
                let x = choose|x: int| 0 <= x < left.len() && left[x] == p;
            } else {
                let x = choose|x: int| 0 <= x < right.len() && right[x] == p;
            }
            assert(t[p as int] == c);
            assert(t.contains(c));
        }
        if t.contains(c) {
            let i = choose|i: int| 0 <= i < t.len() && t[i] == c;
            let neg = nz[i].weight < 0;
            let side = side_positions(nz, n, neg);
            let y = choose|y: int| 0 <= y < side.len() && side[y] == i;
            assert(side.contains(i as usize));
            assert(all.contains(i as usize));
        }
    }
    assert(label_set(labels_at(all, t)) =~= label_set(t));
}

/// The vertices of the blocks are the ones of their masks.
proof fn lemma_blocks_mask_sizes(nz: Seq<NamedNode>, p: Seq<u128>)
    ensures
        blocks_size(p.map_values(|x: u128| mask_nodes(nz, x))) == mask_sizes(p),
    decreases p.len(),
{
    if p.len() > 0 {
        lemma_blocks_mask_sizes(nz, p.drop_last());
        let q = p.map_values(|x: u128| mask_nodes(nz, x));
        assert(q.drop_last() == p.drop_last().map_values(|x: u128| mask_nodes(nz, x)));
        lemma_pow2_128();
        lemma_bits_props(p.last() as nat, 128);
        assert(q.last() == mask_nodes(nz, p.last()));
    }
}

/// A settling of a nonempty network shows that its weights add up to zero.
pub proof fn lemma_settled_solvable(vs: Seq<NamedNode>, sol: Seq<(Edge, i128)>)
    requires
        ids_distinct(vs),
        vs.len() > 0,
        settles(vs, sol),
    ensures
        solvable(vs),
{
    let z = crate::tree_bases::one_label(vs.len());
    assert forall|x: int| 0 <= x < sol.len() implies z[crate::optimality::pos_of(vs, #[trigger] sol[x].0.u)] == z[crate::optimality::pos_of(
        vs,
        sol[x].0.v,
    )] by {
        crate::optimality::lemma_ends(vs, sol, x);
    }
    crate::optimality::lemma_class_flow_zero(vs, z, 0, sol);
    crate::optimality::lemma_class_weight_flow(vs, z, 0, sol, vs.len());
    crate::tree_bases::lemma_one_label(vs, vs.len());
    assert(vs.take(vs.len() as int) == vs);
}

/// The dynamic program is exact: on a network that fits its masks it settles
/// every nonempty network that some settling settles, with no more transfers
/// than that settling, whichever scheme settles its blocks.
pub proof fn law_dp_optimal(m: PartitionSolvingMethod, vs: Seq<NamedNode>, sol: Seq<(Edge, i128)>)
    requires
        ids_distinct(vs),
        vs.len() <= usize::MAX,
        vs.len() > 0,
        dp_fits(vs),
        settles(vs, sol),
    ensures
        dp_transfers(m, vs) is Some,
        dp_transfers(m, vs)->0.len() <= sol.len(),
{
    lemma_settled_solvable(vs, sol);
    lemma_dp_settles(m, vs);
    let nz = nonzero_nodes(vs);
    let n = nz.len();
    let w = weights_of(nz);
    let im = creditor_mask(vs);
    let jm = debtor_mask(vs);
    let left = side_positions(nz, n, false);
    let right = side_positions(nz, n, true);
    let p = extract_spec(w, im, jm);
    let blocks = dp_blocks(vs);
    assert(blocks == p.map_values(|x: u128| mask_nodes(nz, x)));
    assert forall|j: int| 0 <= j < blocks.len() implies solvable(#[trigger] blocks[j]) && ids_distinct(blocks[j])
        && blocks[j].len() <= usize::MAX by {
    }
    crate::optimality::lemma_partition_transfers_len(m, blocks);
    lemma_blocks_mask_sizes(nz, p);
    let l = crate::optimality::components(vs, sol, sol.len());
    crate::optimality::lemma_components(vs, sol, sol.len());
    if im > 0 && jm > 0 {
        lemma_extract_count(w, im, jm);
        lemma_pow2_128();
        lemma_bits_props(im as nat, 128);
        lemma_bits_props(jm as nat, 128);
        crate::approximation::lemma_sides_len(nz, n);
        crate::approximation::lemma_side_positions(nz, n, false);
        crate::approximation::lemma_side_positions(nz, n, true);
        lemma_nonzero_exact(vs);
        let t = nonzero_labels(vs, l);
        lemma_nonzero_labels(vs, l);
        assert forall|x: int| 0 <= x < ones(im).len() implies w[#[trigger] ones(im)[x] as int] > 0 by {
            assert(left[x] < n);
            assert(nz[left[x] as int].weight != 0);
        }
        assert forall|x: int| 0 <= x < ones(jm).len() implies w[#[trigger] ones(jm)[x] as int] < 0 by {
            assert(right[x] < n);
        }
        assert forall|c: nat| #[trigger] weight_at(w, with_label(ones(im), t, c)) + weight_at(w, with_label(ones(jm), t, c)) == 0 by {
            lemma_side_class(nz, t, c, n);
            crate::optimality::lemma_components_weigh_nothing(vs, sol, c);
            assert(class_weight(nz, t, c, n) == class_weight(vs, l, c, vs.len()));
        }
        assert(balanced_labelling(w, t, im, jm));
        law_dp_least(w, t, im, jm);
        lemma_side_labels(nz, t);
    } else {
        assert(p =~= Seq::<u128>::empty());
        assert(blocks =~= Seq::<Seq<NamedNode>>::empty());
    }
}

/// Two lists share no element exactly when no element of one is in the other.
proof fn lemma_apart_contains(a: Seq<usize>, b: Seq<usize>)
    ensures
        apart(a, b) <==> forall|q: usize| #[trigger] a.contains(q) ==> !b.contains(q),
{
    if apart(a, b) {
        assert forall|q: usize| #[trigger] a.contains(q) implies !b.contains(q) by {
            let x = choose|x: int| 0 <= x < a.len() && a[x] == q;
            if b.contains(q) {
                let y = choose|y: int| 0 <= y < b.len() && b[y] == q;
                assert(a[x] != b[y]);
            }
        }
    }
    if forall|q: usize| #[trigger] a.contains(q) ==> !b.contains(q) {
        assert forall|x: int, y: int| 0 <= x < a.len() && 0 <= y < b.len() implies #[trigger] a[x] != #[trigger] b[y] by {
            assert(a.contains(a[x]));
            assert(b.contains(b[y]));
        }
    }
}

/// What a listed sub-mask `a` of `i` is: its ones are ones of `i`, and the
/// ones of `i - a` are the other ones of `i`.
proof fn lemma_sub_mask(i: u128, a: u128)
    requires
        candidates(i).contains(a),
    ensures
        0 < a <= i,
        popcount((i - a) as nat) + popcount(a as nat) == popcount(i as nat),
        forall|q: usize| #[trigger] ones(a).contains(q) ==> ones(i).contains(q),
        forall|q: usize| #[trigger] ones((i - a) as u128).contains(q) <==> (ones(i).contains(q) && !ones(a).contains(q)),
{
    lemma_candidates(i);
    let k = choose|k: int| 0 <= k < candidates(i).len() && candidates(i)[k] == a;
    assert(candidates(i)[k] == a);
    assert forall|q: usize| #[trigger] ones(a).contains(q) implies ones(i).contains(q) by {
        let x = choose|x: int| 0 <= x < ones(a).len() && ones(a)[x] == q;
    }
    assert forall|q: usize| #[trigger] ones((i - a) as u128).contains(q) <==> (ones(i).contains(q) && !ones(a).contains(q)) by {
        lemma_without_contains(ones(i), ones(a), q);
    }
}

/// The best first block of a pair that can be settled, and what it gives:
/// the value is that of the rest and one transfer fewer than the block's ones.
proof fn lemma_first_block(w: Seq<i64>, i: u128, j: u128) -> (ab: (u128, u128))
    requires
        !(i == 0 && j == 0),
        dp_value(w, i, j) is Some,
    ensures
        candidates(i).contains(ab.0),
        candidates(j).contains(ab.1),
        dp_value(w, (i - ab.0) as u128, (j - ab.1) as u128) is Some,
        dp_value(w, i, j)->0 == split_value(w, i, j, ab.0, ab.1),
        mask_weight(i as nat, w, 0) == -mask_weight(j as nat, w, 0),
{
    let e = dp_best(w, i, j)->0;
    lemma_best_choice_a(w, i, j, candidates(i), candidates(j), 0, None);
    lemma_best_value_a(w, i, j, candidates(i), candidates(j), 0, None);
    match e.1 {
        Some(c) => c,
        None => {
            lemma_pow2_128();
            lemma_bits_props(i as nat, 128);
            lemma_bits_props(j as nat, 128);
            law_dp_value(w, i, j);
            assert(within(bit_positions(i as nat, 0), bit_positions(i as nat, 0)));
            assert(within(bit_positions(j as nat, 0), bit_positions(j as nat, 0)));
            lemma_candidates_complete(i, i);
            lemma_candidates_complete(j, j);
            assert(dp_value(w, 0, 0) == Some(0nat));
            assert(popcount(0) == 0);
            (i, j)
        },
    }
}

/// Settling two pairs of masks that share no ones together takes at most as
/// many transfers as settling them apart.
pub proof fn lemma_dp_subadd(w: Seq<i64>, i1: u128, j1: u128, i2: u128, j2: u128)
    requires
        apart(ones(i1), ones(i2)),
        apart(ones(j1), ones(j2)),
        dp_value(w, i1, j1) is Some,
        dp_value(w, i2, j2) is Some,
    ensures
        i1 + i2 <= u128::MAX,
        j1 + j2 <= u128::MAX,
        dp_value(w, (i1 + i2) as u128, (j1 + j2) as u128) is Some,
        dp_value(w, (i1 + i2) as u128, (j1 + j2) as u128)->0 <= dp_value(w, i1, j1)->0 + dp_value(w, i2, j2)->0,
    decreases i1 + j1,
{
    lemma_union_mask(w, i1, i2);
    lemma_union_mask(w, j1, j2);
    let ii = (i1 + i2) as u128;
    let jj = (j1 + j2) as u128;
    if i1 == 0 && j1 == 0 {
        assert(ii == i2 && jj == j2);
        return;
    }
    let ab = lemma_first_block(w, i1, j1);
    let a = ab.0;
    let b = ab.1;
    lemma_sub_mask(i1, a);
    lemma_sub_mask(j1, b);
    let r1 = (i1 - a) as u128;
    let s1 = (j1 - b) as u128;
    lemma_apart_contains(ones(i1), ones(i2));
    lemma_apart_contains(ones(j1), ones(j2));
    lemma_apart_contains(ones(r1), ones(i2));
    lemma_apart_contains(ones(s1), ones(j2));
    lemma_popcount_pos(a as nat);
    lemma_dp_subadd(w, r1, s1, i2, j2);
    law_dp_value(w, i2, j2);
    assert(ii - a == r1 + i2);
    assert(jj - b == s1 + j2);
    lemma_pow2_128();
    lemma_bits_props(ii as nat, 128);
    lemma_bits_props(jj as nat, 128);
    lemma_bits_props(a as nat, 128);
    lemma_bits_props(b as nat, 128);
    assert(within(ones(a), ones(ii))) by {
        assert forall|x: int| 0 <= x < ones(a).len() implies ones(ii).contains(#[trigger] ones(a)[x]) by {
            assert(ones(a).contains(ones(a)[x]));
        }
    }
    assert(within(ones(b), ones(jj))) by {
        assert forall|x: int| 0 <= x < ones(b).len() implies ones(jj).contains(#[trigger] ones(b)[x]) by {
            assert(ones(b).contains(ones(b)[x]));
        }
    }
    lemma_candidates_complete(ii, a);
    lemma_candidates_complete(jj, b);
    let ca = candidates(ii);
    let cb = candidates(jj);
    let ka0 = choose|k: int| 0 <= k < ca.len() && ca[k] == a;
    let kb0 = choose|k: int| 0 <= k < cb.len() && cb[k] == b;
    assert(ca[ka0] == a);
    assert(cb[kb0] == b);
    lemma_candidates(ii);
    lemma_candidates(jj);
    assert(0 < a <= ii);
    assert(0 < b <= jj);
    assert(mask_weight(ii as nat, w, 0) == -mask_weight(jj as nat, w, 0));
    lemma_best_a_hit(w, ii, jj, ca, cb, 0, None, ka0 as nat, kb0 as nat);
}

/// What `table_extract_partitioning` reads out of a table that `dp` filled,
/// starting from a pair it settled: nonempty blocks of zero weight, each
/// within the two masks and meeting both, pairwise disjoint, together holding
/// every one of both masks, and as many as the ones less the recorded number
/// of transfers.
pub proof fn law_extract_partitioning(w: Seq<i64>, t: Map<(u128, u128), TableEntry>, i: u128, j: u128)
    requires
        table_valid(w, t),
        table_closed(t),
        t.contains_key((i, j)),
        i > 0,
        j > 0,
        apart(ones(i), ones(j)),
    ensures
        ({
            let p = extract(t, i, j);
            &&& forall|k: int|
                0 <= k < p.len() ==> ones(#[trigger] p[k]).len() > 0 && mask_weight(p[k] as nat, w, 0) == 0 && (forall|
                    q: usize,
                | #[trigger] ones(p[k]).contains(q) ==> ones(i).contains(q) || ones(j).contains(q)) && meets_both(p[k], i, j)
            &&& forall|k1: int, k2: int, q: usize|
                0 <= k1 < p.len() && 0 <= k2 < p.len() && k1 != k2 && #[trigger] ones(p[k1]).contains(q)
                    ==> !#[trigger] ones(p[k2]).contains(q)
            &&& forall|q: usize|
                (ones(i).contains(q) || ones(j).contains(q)) ==> exists|k: int|
                    0 <= k < p.len() && #[trigger] ones(p[k]).contains(q)
            &&& p.len() + t[(i, j)].0 == popcount(i as nat) + popcount(j as nat)
        }),
{
    lemma_valid_values(w, t);
    lemma_extract_spec(w, t, i, j);
    lemma_extract_blocks(w, i, j);
    lemma_extract_count(w, i, j);
}

} // verus!
