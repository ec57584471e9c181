//! Enumerations that the solvers take from `itertools`.
use itertools::Itertools;
use vstd::prelude::*;

verus! {

/// Row `i` of the ordered pairs of `0..n`: `(i, j)` for every `j != i`, by increasing `j`.
pub open spec fn pair_row(n: nat, i: nat) -> Seq<(usize, usize)> {
    Seq::new(n, |j: int| (i as usize, j as usize)).remove(i as int)
}

/// The first `k` rows of the ordered pairs of `0..n`, row after row.
pub open spec fn pair_rows(n: nat, k: nat) -> Seq<(usize, usize)>
    decreases k,
{
    if k == 0 {
        Seq::empty()
    } else {
        pair_rows(n, (k - 1) as nat) + pair_row(n, (k - 1) as nat)
    }
}

/// All ordered pairs `(i, j)` of distinct positions below `n`, in lexicographic order.
pub open spec fn ordered_pairs_spec(n: nat) -> Seq<(usize, usize)> {
    pair_rows(n, n)
}

/// The 2-permutations of the positions `0..n`, as `itertools` yields them.
///
/// Calls `Itertools::permutations(0..n, 2)`. Its documentation and its source
/// (the cycle algorithm of Python's `itertools.permutations`) give the
/// 2-permutations of a sequence of distinct items in lexicographic order of
/// their positions; that is what the contract states.
#[verifier::external_body]
pub(crate) fn ordered_pairs(n: usize) -> (res: Vec<(usize, usize)>)
    ensures
        res@ == ordered_pairs_spec(n as nat),
{
    (0..n).permutations(2).map(|p| (p[0], p[1])).collect()
}


/// The `k`-element subsets of the positions `start..n`, each as an increasing
/// list, in lexicographic order.
pub open spec fn combinations_spec(start: nat, n: nat, k: nat) -> Seq<Seq<usize>>
    decreases k, n - start,
{
    if k == 0 {
        seq![Seq::empty()]
    } else if start >= n {
        Seq::empty()
    } else {
        combinations_spec(start + 1, n, (k - 1) as nat).map_values(
            |c: Seq<usize>| seq![start as usize] + c,
        ) + combinations_spec(start + 1, n, k)
    }
}

/// The subsets of the positions `0..n` with at most `k` elements: by size,
/// and each size in lexicographic order.
pub open spec fn powerset_upto(n: nat, k: nat) -> Seq<Seq<usize>>
    decreases k,
{
    if k == 0 {
        combinations_spec(0, n, 0)
    } else {
        powerset_upto(n, (k - 1) as nat) + combinations_spec(0, n, k)
    }
}

/// All subsets of the positions `0..n`, as `Itertools::powerset` lists them.
pub open spec fn powerset_spec(n: nat) -> Seq<Seq<usize>> {
    powerset_upto(n, n)
}

/// The subsets of `items`, each keeping the order of `items`.
pub open spec fn subsets_of(items: Seq<usize>) -> Seq<Seq<usize>> {
    powerset_spec(items.len()).map_values(
        |s: Seq<usize>| s.map_values(|k: usize| items[k as int]),
    )
}

/// The powerset of `items`, as `itertools` yields it.
///
/// Calls `Itertools::powerset`. Its documentation and source list the
/// subsets by increasing size, and the subsets of each size as
/// `Itertools::combinations` does: in lexicographic order of the positions
/// they take, each subset keeping the order of `items`. The contract states
/// that list. More than 63 items would make a list of `2^64` subsets or more,
/// which cannot be built; `requires` leaves that out.
#[verifier::external_body]
pub(crate) fn powerset_of(items: Vec<usize>) -> (res: Vec<Vec<usize>>)
    requires
        items.len() < 64,
    ensures
        res@.map_values(|v: Vec<usize>| v@) == subsets_of(items@),
{
    items.into_iter().powerset().collect()
}

} // verus!
