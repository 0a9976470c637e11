//! Counting and folding over integer ranges and sequences.
//!
//! The cluster statistics are all stated as counts of grid positions that
//! satisfy a predicate, sums of size sequences, and maxima of size sequences.

use vstd::prelude::*;

verus! {

/// Number of positions `k` with `0 <= k < n` for which `f(k)` holds.
pub open spec fn count_upto(f: spec_fn(int) -> bool, n: int) -> int
    decreases n,
{
    if n <= 0 {
        0
    } else {
        count_upto(f, n - 1) + if f(n - 1) {
            1int
        } else {
            0int
        }
    }
}

pub proof fn lemma_count_bounds(f: spec_fn(int) -> bool, n: int)
    ensures
        0 <= count_upto(f, n),
        n >= 0 ==> count_upto(f, n) <= n,
    decreases n,
{
    if n > 0 {
        lemma_count_bounds(f, n - 1);
    }
}

/// Predicates that agree on `[0, n)` have the same count there.
pub proof fn lemma_count_pointwise_eq(f: spec_fn(int) -> bool, g: spec_fn(int) -> bool, n: int)
    requires
        forall|k: int| 0 <= k < n ==> (#[trigger] f(k) <==> g(k)),
    ensures
        count_upto(f, n) == count_upto(g, n),
    decreases n,
{
    if n > 0 {
        lemma_count_pointwise_eq(f, g, n - 1);
    }
}

/// Turning exactly one position from false to true raises the count by one.
pub proof fn lemma_count_flip_one(f: spec_fn(int) -> bool, g: spec_fn(int) -> bool, n: int, k0: int)
    requires
        0 <= k0 < n,
        !f(k0),
        g(k0),
        forall|k: int| 0 <= k < n && k != k0 ==> (#[trigger] f(k) <==> g(k)),
    ensures
        count_upto(g, n) == count_upto(f, n) + 1,
    decreases n,
{
    if n - 1 > k0 {
        lemma_count_flip_one(f, g, n - 1, k0);
    } else {
        lemma_count_pointwise_eq(f, g, n - 1);
    }
}

/// A predicate that holds everywhere on `[0, n)` counts every position.
pub proof fn lemma_count_all(f: spec_fn(int) -> bool, n: int)
    requires
        n >= 0,
        forall|k: int| 0 <= k < n ==> #[trigger] f(k),
    ensures
        count_upto(f, n) == n,
    decreases n,
{
    if n > 0 {
        lemma_count_all(f, n - 1);
    }
}

/// A predicate that holds nowhere on `[0, n)` counts nothing.
pub proof fn lemma_count_none(f: spec_fn(int) -> bool, n: int)
    requires
        forall|k: int| 0 <= k < n ==> !#[trigger] f(k),
    ensures
        count_upto(f, n) == 0,
    decreases n,
{
    if n > 0 {
        lemma_count_none(f, n - 1);
    }
}

/// A position where the predicate holds witnesses a positive count.
pub proof fn lemma_count_ge_one(f: spec_fn(int) -> bool, n: int, k0: int)
    requires
        0 <= k0 < n,
        f(k0),
    ensures
        count_upto(f, n) >= 1,
    decreases n,
{
    lemma_count_bounds(f, n - 1);
    if k0 < n - 1 {
        lemma_count_ge_one(f, n - 1, k0);
    }
}

/// A predicate extended by a disjoint predicate counts both.
pub proof fn lemma_count_disjoint_or(
    f1: spec_fn(int) -> bool,
    f2: spec_fn(int) -> bool,
    h: spec_fn(int) -> bool,
    n: int,
)
    requires
        forall|k: int| 0 <= k < n ==> (#[trigger] f2(k) <==> (f1(k) || h(k))),
        forall|k: int| 0 <= k < n ==> !(#[trigger] f1(k) && h(k)),
    ensures
        count_upto(f2, n) == count_upto(f1, n) + count_upto(h, n),
    decreases n,
{
    if n > 0 {
        lemma_count_disjoint_or(f1, f2, h, n - 1);
    }
}

/// A sequence of machine sizes read as mathematical integers.
pub open spec fn to_int_seq(s: Seq<usize>) -> Seq<int> {
    s.map_values(|x: usize| x as int)
}

/// Number of occurrences of `v` in the sequence.
pub open spec fn count_eq(s: Seq<int>, v: int) -> int
    decreases s.len(),
{
    if s.len() == 0 {
        0
    } else {
        count_eq(s.drop_last(), v) + if s.last() == v {
            1int
        } else {
            0int
        }
    }
}

pub proof fn lemma_count_eq_bounds(s: Seq<int>, v: int)
    ensures
        0 <= count_eq(s, v) <= s.len(),
    decreases s.len(),
{
    if s.len() > 0 {
        lemma_count_eq_bounds(s.drop_last(), v);
    }
}

pub proof fn lemma_count_eq_push(s: Seq<int>, x: int, v: int)
    ensures
        count_eq(s.push(x), v) == count_eq(s, v) + if x == v {
            1int
        } else {
            0int
        },
{
    assert(s.push(x).drop_last() =~= s);
}

/// A value that occurs nowhere counts zero occurrences.
pub proof fn lemma_count_eq_absent(s: Seq<int>, v: int)
    requires
        forall|i: int| 0 <= i < s.len() ==> #[trigger] s[i] != v,
    ensures
        count_eq(s, v) == 0,
    decreases s.len(),
{
    if s.len() > 0 {
        lemma_count_eq_absent(s.drop_last(), v);
        assert(s[s.len() - 1] != v);
    }
}

/// A positive occurrence count has a witness position.
pub proof fn lemma_count_eq_witness(s: Seq<int>, v: int)
    requires
        count_eq(s, v) > 0,
    ensures
        exists|i: int| 0 <= i < s.len() && #[trigger] s[i] == v,
    decreases s.len(),
{
    if s.len() > 0 {
        if s.last() == v {
            assert(s[s.len() - 1] == v);
        } else {
            lemma_count_eq_witness(s.drop_last(), v);
            let i = choose|i: int| 0 <= i < s.len() - 1 && #[trigger] s.drop_last()[i] == v;
            assert(s[i] == v);
        }
    }
}

/// Sum of a sequence of integers.
pub open spec fn seq_sum(s: Seq<int>) -> int
    decreases s.len(),
{
    if s.len() == 0 {
        0
    } else {
        seq_sum(s.drop_last()) + s.last()
    }
}

/// Maximum of a sequence of integers, `0` for the empty sequence.
pub open spec fn seq_max(s: Seq<int>) -> int
    decreases s.len(),
{
    if s.len() == 0 {
        0
    } else {
        let m = seq_max(s.drop_last());
        if s.last() >= m {
            s.last()
        } else {
            m
        }
    }
}

pub proof fn lemma_seq_sum_push(s: Seq<int>, x: int)
    ensures
        seq_sum(s.push(x)) == seq_sum(s) + x,
{
    assert(s.push(x).drop_last() =~= s);
}

pub proof fn lemma_seq_max_push(s: Seq<int>, x: int)
    ensures
        seq_max(s.push(x)) == if x >= seq_max(s) {
            x
        } else {
            seq_max(s)
        },
{
    assert(s.push(x).drop_last() =~= s);
}

/// The maximum dominates every element of the sequence.
pub proof fn lemma_seq_max_ge(s: Seq<int>, t: int)
    requires
        0 <= t < s.len(),
    ensures
        s[t] <= seq_max(s),
    decreases s.len(),
{
    if t < s.len() - 1 {
        lemma_seq_max_ge(s.drop_last(), t);
    }
}

} // verus!
