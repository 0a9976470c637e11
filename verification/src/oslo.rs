//! The Oslo sandpile model and the bounded sliding window its analysis
//! uses.
//!
//! A pile of `size` sites holds local slopes; driving adds a grain at the
//! first site, and relaxation topples every site whose slope exceeds its
//! (randomly redrawn) threshold until the pile is stable again. The
//! avalanche size is the number of topplings of one relaxation.

use vstd::prelude::*;
use std::collections::VecDeque;
use crate::count::count_eq;
use crate::count::lemma_count_eq_bounds;
use crate::count::lemma_count_eq_push;
use crate::count::lemma_count_eq_witness;
use crate::count::seq_sum;
use crate::rng::random_in;

verus! {

/// A queue that holds at most `max_size` recent values: pushing onto a
/// full window first drops the oldest value.
pub struct FixedSizeDeque<T> {
    deque: VecDeque<T>,
    max_size: usize,
}

impl<T> View for FixedSizeDeque<T> {
    type V = Seq<T>;

    closed spec fn view(&self) -> Seq<T> {
        self.deque@
    }
}

impl<T> FixedSizeDeque<T> {
    /// The bound the window was created with.
    pub closed spec fn capacity(&self) -> int {
        self.max_size as int
    }

    pub fn new(max_size: usize) -> (r: FixedSizeDeque<T>)
        ensures
            r@ == Seq::<T>::empty(),
            r.capacity() == max_size,
    {
        FixedSizeDeque { deque: VecDeque::with_capacity(max_size), max_size }
    }

    /// Appends a value; a full window drops its oldest value first.
    pub fn push(&mut self, value: T)
        ensures
            final(self).capacity() == old(self).capacity(),
            final(self)@ == if old(self)@.len() == old(self).capacity() && old(self)@.len() > 0 {
                old(self)@.subrange(1, old(self)@.len() as int).push(value)
            } else {
                old(self)@.push(value)
            },
    {
        if self.deque.len() == self.max_size {
            let _ = self.deque.pop_front();
        }
        self.deque.push_back(value);
    }

    /// Removes and returns the oldest value, if any.
    pub fn pop_front(&mut self) -> (r: Option<T>)
        ensures
            final(self).capacity() == old(self).capacity(),
            old(self)@.len() > 0 ==> r == Some(old(self)@[0]) && final(self)@ == old(
                self,
            )@.subrange(1, old(self)@.len() as int),
            old(self)@.len() == 0 ==> r is None && final(self)@ == old(self)@,
    {
        self.deque.pop_front()
    }

    /// Number of values currently held.
    pub fn len(&self) -> (n: usize)
        ensures
            n == self@.len(),
    {
        self.deque.len()
    }

    /// The `i`-th oldest value.
    pub fn get(&self, i: usize) -> (r: &T)
        requires
            i < self@.len(),
        ensures
            *r == self@[i as int],
    {
        &self.deque[i]
    }
}


/// The pile: per-site slopes and per-site thresholds (each 1 or 2).
pub struct OsloModel {
    size: u32,
    slopes: Vec<u32>,
    tresholds: Vec<u8>,
}

/// Weight of site `i` in the relaxation potential: concave in `i`,
/// increasing towards the open boundary, positive on the pile. Every
/// toppling strictly decreases the weighted slope sum, which bounds the
/// avalanche size and proves that relaxation ends.
pub open spec fn pot_w(n: int, i: int) -> int {
    2 * n * n - (n - 1 - i) * (n - 1 - i)
}

/// Weighted sum of the first `m` slopes.
pub open spec fn pot_upto(s: Seq<u32>, n: int, m: int) -> int
    decreases m,
{
    if m <= 0 {
        0
    } else {
        pot_upto(s, n, m - 1) + s[m - 1] * pot_w(n, m - 1)
    }
}

/// The relaxation potential of a slope configuration.
pub open spec fn oslo_pot(s: Seq<u32>, n: int) -> int {
    pot_upto(s, n, n)
}

proof fn lemma_pot_w_pos(n: int, i: int)
    requires
        0 <= i < n,
    ensures
        1 <= pot_w(n, i) <= 2 * n * n,
{
    assert(1 <= 2 * n * n - (n - 1 - i) * (n - 1 - i) <= 2 * n * n) by (nonlinear_arith)
        requires
            0 <= i < n,
    ;
}

proof fn lemma_pot_bounds(s: Seq<u32>, n: int, m: int)
    requires
        0 <= m <= n,
        m <= s.len(),
        forall|i: int| 0 <= i < m ==> #[trigger] s[i] <= 4,
    ensures
        0 <= pot_upto(s, n, m) <= 8 * n * n * m,
    decreases m,
{
    if m > 0 {
        lemma_pot_bounds(s, n, m - 1);
        lemma_pot_w_pos(n, m - 1);
        assert(s[m - 1] * pot_w(n, m - 1) >= 0) by (nonlinear_arith)
            requires
                s[m - 1] >= 0 && pot_w(n, m - 1) >= 1,
        ;
        assert(s[m - 1] * pot_w(n, m - 1) <= 8 * n * n) by (nonlinear_arith)
            requires
                0 <= s[m - 1] <= 4 && 1 <= pot_w(n, m - 1) <= 2 * n * n,
        ;
        assert(8 * n * n * (m - 1) + 8 * n * n == 8 * n * n * m) by (nonlinear_arith);
    }
}

/// Changing one slope changes the potential by the weighted difference.
proof fn lemma_pot_update(s: Seq<u32>, n: int, m: int, i0: int, v: u32)
    requires
        0 <= i0 < s.len(),
        m <= s.len(),
    ensures
        pot_upto(s.update(i0, v), n, m) == pot_upto(s, n, m) + if i0 < m {
            (v - s[i0]) * pot_w(n, i0)
        } else {
            0int
        },
    decreases m,
{
    if m > 0 {
        lemma_pot_update(s, n, m - 1, i0, v);
        if i0 == m - 1 {
            assert(v * pot_w(n, i0) - s[i0] * pot_w(n, i0) == (v - s[i0]) * pot_w(n, i0))
                by (nonlinear_arith);
        }
    }
}

impl OsloModel {
    /// The slope at each site.
    pub closed spec fn slopes_view(self) -> Seq<u32> {
        self.slopes@
    }

    /// The threshold at each site.
    pub closed spec fn tresholds_view(self) -> Seq<u8> {
        self.tresholds@
    }

    /// The number of sites.
    pub closed spec fn size_view(self) -> int {
        self.size as int
    }

    /// Well-formed pile: at least two sites (a single-site pile has no
    /// interior to pass grains through), one slope and one threshold per
    /// site, thresholds 1 or 2, and a site bound that keeps the avalanche
    /// counters within `u64`.
    pub open spec fn wf(self) -> bool {
        &&& self.size_view() >= 2
        &&& self.size_view() <= 1000000
        &&& self.slopes_view().len() == self.size_view()
        &&& self.tresholds_view().len() == self.size_view()
        &&& forall|i: int|
            0 <= i < self.size_view() ==> 1 <= #[trigger] self.tresholds_view()[i] <= 2
    }

    /// Stable: no slope exceeds its threshold.
    pub open spec fn stable(self) -> bool {
        forall|i: int|
            0 <= i < self.size_view() ==> #[trigger] self.slopes_view()[i]
                <= self.tresholds_view()[i]
    }

    /// At most one grain above stability anywhere (the state right after
    /// driving a stable pile).
    pub open spec fn relaxable(self) -> bool {
        forall|i: int|
            0 <= i < self.size_view() ==> #[trigger] self.slopes_view()[i]
                <= self.tresholds_view()[i] + 1
    }

    /// A fresh pile in a stable configuration: every slope drawn from
    /// {0, 1}, every threshold from {1, 2}.
    pub fn new(size: u32) -> (r: OsloModel)
        requires
            2 <= size <= 1000000,
        ensures
            r.wf(),
            r.stable(),
            r.size_view() == size,
            forall|i: int| 0 <= i < r.size_view() ==> #[trigger] r.slopes_view()[i] <= 1,
    {
        let mut slopes: Vec<u32> = Vec::new();
        let mut tresholds: Vec<u8> = Vec::new();
        let mut i: u32 = 0;
        while i < size
            invariant
                i <= size,
                slopes@.len() == i,
                tresholds@.len() == i,
                forall|k: int| 0 <= k < i ==> #[trigger] slopes@[k] <= 1,
                forall|k: int| 0 <= k < i ==> 1 <= #[trigger] tresholds@[k] <= 2,
            decreases size - i,
        {
            let z = random_in(0, 1);
            let t = random_in(1, 2);
            slopes.push(z as u32);
            tresholds.push(t as u8);
            i = i + 1;
        }
        OsloModel { size, slopes, tresholds }
    }

    /// Adds a grain at the first site, raising its slope by one.
    pub fn drive(&mut self)
        requires
            old(self).wf(),
            old(self).stable(),
        ensures
            final(self).wf(),
            final(self).relaxable(),
            final(self).size_view() == old(self).size_view(),
            final(self).tresholds_view() == old(self).tresholds_view(),
            final(self).slopes_view() == old(self).slopes_view().update(
                0,
                (old(self).slopes_view()[0] + 1) as u32,
            ),
    {
        let z = self.slopes[0];
        self.slopes.set(0, z + 1);
    }
}


impl OsloModel {
    /// Relaxes the pile: sweeps the sites repeatedly, toppling every site
    /// whose slope exceeds its threshold (grains move towards the open
    /// boundary and leave there), redrawing the toppled site's threshold,
    /// until a full sweep topples nothing. Returns the avalanche size (the
    /// number of topplings) and the efflux (grains that left the pile).
    ///
    /// The avalanche size is zero exactly when the pile was already
    /// stable, and the pile is then unchanged.
    #[verifier::rlimit(100)]
    pub fn relax(&mut self) -> (r: (u64, u64))
        requires
            old(self).wf(),
            old(self).relaxable(),
        ensures
            final(self).wf(),
            final(self).stable(),
            final(self).size_view() == old(self).size_view(),
            (r.0 == 0) <==> old(self).stable(),
            r.0 == 0 ==> final(self).slopes_view() == old(self).slopes_view()
                && final(self).tresholds_view() == old(self).tresholds_view(),
            r.1 <= r.0,
    {
        let n = self.size;
        let ghost nn = n as int;
        let ghost pot0 = oslo_pot(old(self).slopes_view(), nn);
        let mut s: u64 = 0;
        let mut efflux: u64 = 0;
        let mut moved = true;
        proof {
            assert(forall|i: int|
                0 <= i < nn ==> #[trigger] self.slopes_view()[i] <= 3);
            lemma_pot_bounds(self.slopes_view(), nn, nn);
            assert(8 * nn * nn * nn + 1 <= u64::MAX) by (nonlinear_arith)
                requires
                    2 <= nn <= 1000000,
            ;
        }
        while moved
            invariant
                self.wf(),
                nn == self.size_view(),
                nn == old(self).size_view(),
                n as int == nn,
                2 <= nn <= 1000000,
                forall|i: int| 0 <= i < nn ==> #[trigger] self.slopes_view()[i] <= 3,
                oslo_pot(self.slopes_view(), nn) >= 0,
                s + oslo_pot(self.slopes_view(), nn) <= pot0,
                pot0 <= 8 * nn * nn * nn,
                8 * nn * nn * nn + 1 <= u64::MAX,
                efflux <= s,
                s == 0 ==> self.slopes_view() == old(self).slopes_view() && self.tresholds_view()
                    == old(self).tresholds_view(),
                s > 0 ==> !old(self).stable(),
                !moved ==> self.stable(),
            decreases oslo_pot(self.slopes_view(), nn) + if moved {
                1int
            } else {
                0int
            },
        {
            moved = false;
            let ghost s_start = s;
            let ghost pot_start = oslo_pot(self.slopes_view(), nn);
            let mut ii: u32 = 0;
            while ii < n
                invariant
                    self.wf(),
                    nn == self.size_view(),
                    nn == old(self).size_view(),
                    2 <= nn <= 1000000,
                    ii <= n,
                    n as int == nn,
                    forall|i: int| 0 <= i < ii - 1 ==> #[trigger] self.slopes_view()[i] <= 3,
                    ii >= 1 ==> self.slopes_view()[ii - 1] <= (if ii < nn {
                        2int
                    } else {
                        3int
                    }),
                    ii < nn ==> self.slopes_view()[ii as int] <= 4,
                    forall|i: int| ii < i < nn ==> #[trigger] self.slopes_view()[i] <= 3,
                    s >= s_start,
                    moved <==> s > s_start,
                    oslo_pot(self.slopes_view(), nn) >= 0,
                    oslo_pot(self.slopes_view(), nn) <= pot_start - (s - s_start),
                    s + oslo_pot(self.slopes_view(), nn) <= pot0,
                    pot0 <= 8 * nn * nn * nn,
                    8 * nn * nn * nn + 1 <= u64::MAX,
                    efflux <= s,
                    s == 0 ==> self.slopes_view() == old(self).slopes_view()
                        && self.tresholds_view() == old(self).tresholds_view(),
                    s > 0 ==> !old(self).stable(),
                    !moved ==> forall|i: int|
                        0 <= i < ii ==> #[trigger] self.slopes_view()[i]
                            <= self.tresholds_view()[i],
                decreases n - ii,
            {
                let i = ii as usize;
                let zi = self.slopes[i];
                let ti = self.tresholds[i];
                if zi > ti as u32 {
                    proof {
                        if s == 0 {
                            assert(old(self).slopes_view()[ii as int]
                                > old(self).tresholds_view()[ii as int]);
                            assert(!old(self).stable());
                        }
                    }
                    let ghost gs = self.slopes_view();
                    if ii == 0 {
                        self.slopes.set(0, zi - 2);
                        let z1 = self.slopes[1];
                        self.slopes.set(1, z1 + 1);
                        proof {
                            lemma_pot_update(gs, nn, nn, 0, (zi - 2) as u32);
                            lemma_pot_update(gs.update(0, (zi - 2) as u32), nn, nn, 1, (gs[1]
                                + 1) as u32);
                            assert(self.slopes_view() == gs.update(0, (zi - 2) as u32).update(
                                1,
                                (gs[1] + 1) as u32,
                            ));
                            assert((((zi - 2) as u32) - gs[0]) * pot_w(nn, 0) + (((gs[1]
                                + 1) as u32) - gs[1]) * pot_w(nn, 1) <= -1) by (nonlinear_arith)
                                requires
                                    nn >= 2,
                                    gs[0] == zi,
                                    ((zi - 2) as u32) == zi - 2,
                                    ((gs[1] + 1) as u32) == gs[1] + 1,
                                    pot_w(nn, 0) == 2 * nn * nn - (nn - 1) * (nn - 1),
                                    pot_w(nn, 1) == 2 * nn * nn - (nn - 2) * (nn - 2),
                            ;
                        }
                    } else if ii == n - 1 {
                        self.slopes.set(i, zi - 1);
                        let zl = self.slopes[i - 1];
                        self.slopes.set(i - 1, zl + 1);
                        efflux = efflux + 1;
                        proof {
                            lemma_pot_update(gs, nn, nn, nn - 1, (zi - 1) as u32);
                            lemma_pot_update(
                                gs.update(nn - 1, (zi - 1) as u32),
                                nn,
                                nn,
                                nn - 2,
                                (gs[nn - 2] + 1) as u32,
                            );
                            assert(self.slopes_view() == gs.update(nn - 1, (zi - 1) as u32).update(
                                nn - 2,
                                (gs[nn - 2] + 1) as u32,
                            ));
                            assert((nn - 1 - (nn - 2)) * (nn - 1 - (nn - 2)) == 1)
                                by (nonlinear_arith);
                            assert((nn - 1 - (nn - 1)) * (nn - 1 - (nn - 1)) == 0)
                                by (nonlinear_arith);
                            assert((((zi - 1) as u32) - gs[nn - 1]) * pot_w(nn, nn - 1) + (((gs[nn
                                - 2] + 1) as u32) - gs[nn - 2]) * pot_w(nn, nn - 2) <= -1)
                                by (nonlinear_arith)
                                requires
                                    nn >= 2,
                                    gs[nn - 1] == zi,
                                    ((zi - 1) as u32) == zi - 1,
                                    ((gs[nn - 2] + 1) as u32) == gs[nn - 2] + 1,
                                    pot_w(nn, nn - 1) == 2 * nn * nn,
                                    pot_w(nn, nn - 2) == 2 * nn * nn - 1,
                            ;
                        }
                    } else {
                        self.slopes.set(i, zi - 2);
                        let zr = self.slopes[i + 1];
                        self.slopes.set(i + 1, zr + 1);
                        let zl = self.slopes[i - 1];
                        self.slopes.set(i - 1, zl + 1);
                        proof {
                            let c = ii as int;
                            lemma_pot_update(gs, nn, nn, c, (zi - 2) as u32);
                            lemma_pot_update(gs.update(c, (zi - 2) as u32), nn, nn, c + 1, (gs[c
                                + 1] + 1) as u32);
                            lemma_pot_update(
                                gs.update(c, (zi - 2) as u32).update(c + 1, (gs[c + 1] + 1) as u32),
                                nn,
                                nn,
                                c - 1,
                                (gs[c - 1] + 1) as u32,
                            );
                            assert(self.slopes_view() == gs.update(c, (zi - 2) as u32).update(
                                c + 1,
                                (gs[c + 1] + 1) as u32,
                            ).update(c - 1, (gs[c - 1] + 1) as u32));
                            assert((((zi - 2) as u32) - gs[c]) * pot_w(nn, c) + (((gs[c + 1]
                                + 1) as u32) - gs[c + 1]) * pot_w(nn, c + 1) + (((gs[c - 1]
                                + 1) as u32) - gs[c - 1]) * pot_w(nn, c - 1) <= -1)
                                by (nonlinear_arith)
                                requires
                                    nn >= 2,
                                    0 < c < nn - 1,
                                    gs[c] == zi,
                                    ((zi - 2) as u32) == zi - 2,
                                    ((gs[c + 1] + 1) as u32) == gs[c + 1] + 1,
                                    ((gs[c - 1] + 1) as u32) == gs[c - 1] + 1,
                                    pot_w(nn, c) == 2 * nn * nn - (nn - 1 - c) * (nn - 1 - c),
                                    pot_w(nn, c + 1) == 2 * nn * nn - (nn - 2 - c) * (nn - 2 - c),
                                    pot_w(nn, c - 1) == 2 * nn * nn - (nn - c) * (nn - c),
                            ;
                        }
                    }
                    let tnew = random_in(1, 2);
                    self.tresholds.set(i, tnew as u8);
                    s = s + 1;
                    moved = true;
                    proof {
                        lemma_pot_bounds(self.slopes_view(), nn, nn);
                    }
                }
                ii = ii + 1;
            }
            proof {
                lemma_pot_bounds(self.slopes_view(), nn, nn);
            }
        }
        (s, efflux)
    }
}


/// A sequence of avalanche sizes read as mathematical integers.
pub open spec fn u64_int_seq(s: Seq<u64>) -> Seq<int> {
    s.map_values(|x: u64| x as int)
}

/// Some entry of the occurrence list carries the key `v`.
pub open spec fn has_key(r: Seq<(u64, u64)>, v: u64) -> bool {
    exists|t: int| 0 <= t < r.len() && (#[trigger] r[t]).0 == v
}

/// `r` is an occurrence list of `s`: distinct keys, each with its exact
/// positive occurrence count, and a key for every value of `s`.
pub open spec fn occurrence_list_of(r: Seq<(u64, u64)>, s: Seq<u64>) -> bool {
    &&& forall|t1: int, t2: int|
        0 <= t1 < t2 < r.len() ==> (#[trigger] r[t1]).0 != (#[trigger] r[t2]).0
    &&& forall|t: int|
        0 <= t < r.len() ==> (#[trigger] r[t]).1 == count_eq(u64_int_seq(s), r[t].0 as int)
            && r[t].1 > 0
    &&& forall|m: int| 0 <= m < s.len() ==> has_key(r, #[trigger] s[m])
}

/// Counts how often each avalanche size occurred: the tabulation behind
/// the size-probability plot (each count over the total is the empirical
/// probability of that size).
#[verifier::rlimit(60)]
pub fn size_occurrences(sizes: &Vec<u64>) -> (r: Vec<(u64, u64)>)
    ensures
        occurrence_list_of(r@, sizes@),
{
    let full = sizes.len();
    let mut r: Vec<(u64, u64)> = Vec::new();
    let mut m: usize = 0;
    proof {
        assert(u64_int_seq(sizes@).subrange(0, 0) =~= Seq::<int>::empty());
    }
    while m < full
        invariant
            full == sizes@.len(),
            m <= full,
            forall|t1: int, t2: int|
                0 <= t1 < t2 < r@.len() ==> (#[trigger] r@[t1]).0 != (#[trigger] r@[t2]).0,
            forall|t: int|
                0 <= t < r@.len() ==> (#[trigger] r@[t]).1 == count_eq(
                    u64_int_seq(sizes@).subrange(0, m as int),
                    r@[t].0 as int,
                ) && r@[t].1 > 0,
            forall|m2: int| 0 <= m2 < m ==> has_key(r@, #[trigger] sizes@[m2]),
        decreases full - m,
    {
        let v = sizes[m];
        let mut idx: usize = 0;
        while idx < r.len() && r[idx].0 != v
            invariant
                idx <= r@.len(),
                forall|t: int| 0 <= t < idx ==> (#[trigger] r@[t]).0 != v,
            decreases r@.len() - idx,
        {
            idx = idx + 1;
        }
        let ghost rp = r@;
        let ghost pref = u64_int_seq(sizes@).subrange(0, m as int);
        proof {
            lemma_count_eq_bounds(pref, v as int);
        }
        if idx < r.len() {
            let c = r[idx].1;
            r.set(idx, (v, c + 1));
        } else {
            r.push((v, 1));
        }
        m = m + 1;
        proof {
            let prefn = u64_int_seq(sizes@).subrange(0, m as int);
            assert(u64_int_seq(sizes@)[m - 1] == sizes@[m - 1] as int);
            assert(prefn =~= pref.push(v as int));
            if idx == rp.len() {
                // the value is new to the list: it cannot occur in the prefix
                assert(count_eq(pref, v as int) == 0) by {
                    if count_eq(pref, v as int) > 0 {
                        lemma_count_eq_witness(pref, v as int);
                        let w = choose|w: int| 0 <= w < pref.len() && #[trigger] pref[w] == v as int;
                        assert(u64_int_seq(sizes@)[w] == sizes@[w] as int);
                        assert(sizes@[w] == v);
                        assert(has_key(rp, sizes@[w]));
                        let t0 = choose|t0: int|
                            0 <= t0 < rp.len() && (#[trigger] rp[t0]).0 == sizes@[w];
                        assert(false);
                    }
                }
            }
            assert forall|t: int|
                0 <= t < r@.len() implies (#[trigger] r@[t]).1 == count_eq(prefn, r@[t].0 as int)
                && r@[t].1 > 0 by {
                lemma_count_eq_push(pref, v as int, r@[t].0 as int);
                if t < rp.len() {
                    if r@[t].0 == v {
                        // only the matched entry carries this key
                        assert(idx < rp.len());
                        if t != idx {
                            assert(rp[t].0 == v && rp[idx as int].0 == v);
                            assert(false);
                        }
                    }
                } else {
                    assert(r@[t].0 == v && r@[t].1 == 1);
                }
            }
            assert forall|m2: int| 0 <= m2 < m implies has_key(r@, #[trigger] sizes@[m2]) by {
                if m2 == m - 1 {
                    if rp.len() < r@.len() {
                        assert(r@[r@.len() - 1].0 == v);
                    } else {
                        assert(r@[idx as int].0 == v);
                    }
                } else {
                    assert(has_key(rp, sizes@[m2]));
                    let t = choose|t: int| 0 <= t < rp.len() && (#[trigger] rp[t]).0 == sizes@[m2];
                    assert(r@[t].0 == rp[t].0);
                }
            }
        }
    }
    proof {
        assert(u64_int_seq(sizes@).subrange(0, full as int) =~= u64_int_seq(sizes@));
    }
    r
}

/// The convergence test of the threshold-driven runs: whether the outflux
/// to influx ratio over a window exceeds the fraction `t_num / t_den`.
pub fn flux_ratio_exceeds(efflux_sum: u64, influx_sum: u64, t_num: u32, t_den: u32) -> (r: bool)
    requires
        t_den >= 1,
    ensures
        r == (efflux_sum * t_den > t_num * influx_sum),
{
    proof {
        assert(efflux_sum * t_den <= u128::MAX) by (nonlinear_arith)
            requires
                efflux_sum <= u64::MAX && t_den <= u32::MAX,
        ;
        assert(t_num * influx_sum <= u128::MAX) by (nonlinear_arith)
            requires
                influx_sum <= u64::MAX && t_num <= u32::MAX,
        ;
    }
    (efflux_sum as u128) * (t_den as u128) > (t_num as u128) * (influx_sum as u128)
}

/// Sum of the values a sliding window currently holds.
pub fn window_sum(w: &FixedSizeDeque<u64>) -> (r: u128)
    requires
        w@.len() <= u64::MAX,
    ensures
        r == seq_sum(u64_int_seq(w@)),
{
    let n = w.len();
    let mut r: u128 = 0;
    let mut i: usize = 0;
    proof {
        assert(u64_int_seq(w@).subrange(0, 0) =~= Seq::<int>::empty());
    }
    while i < n
        invariant
            n == w@.len(),
            n <= u64::MAX,
            i <= n,
            r == seq_sum(u64_int_seq(w@).subrange(0, i as int)),
            r <= i * (u64::MAX as int),
        decreases n - i,
    {
        let x = *w.get(i);
        proof {
            let pref = u64_int_seq(w@).subrange(0, i as int);
            let prefn = u64_int_seq(w@).subrange(0, i as int + 1);
            assert(prefn =~= pref.push(w@[i as int] as int));
            crate::count::lemma_seq_sum_push(pref, w@[i as int] as int);
            assert(i * (u64::MAX as int) + u64::MAX <= u64::MAX * (u64::MAX as int))
                by (nonlinear_arith)
                requires
                    0 <= i < u64::MAX,
            ;
            assert(u64::MAX * (u64::MAX as int) <= u128::MAX) by (nonlinear_arith);
            assert((i + 1) * (u64::MAX as int) == i * (u64::MAX as int) + u64::MAX)
                by (nonlinear_arith);
        }
        r = r + x as u128;
        i = i + 1;
    }
    proof {
        assert(u64_int_seq(w@).subrange(0, n as int) =~= u64_int_seq(w@));
    }
    r
}

impl OsloModel {
    /// Drives and relaxes the pile `n` times from a stable configuration;
    /// returns the avalanche size of every relaxation, with a leading 0.
    pub fn run(&mut self, n: u32) -> (sizes: Vec<u64>)
        requires
            old(self).wf(),
            old(self).stable(),
        ensures
            final(self).wf(),
            final(self).stable(),
            final(self).size_view() == old(self).size_view(),
            sizes@.len() == n + 1,
            sizes@[0] == 0,
    {
        let mut sizes: Vec<u64> = Vec::new();
        sizes.push(0);
        let mut k: u32 = 0;
        while k < n
            invariant
                self.wf(),
                self.stable(),
                self.size_view() == old(self).size_view(),
                k <= n,
                sizes@.len() == k + 1,
                sizes@[0] == 0,
            decreases n - k,
        {
            self.drive();
            let avalanche = self.relax();
            sizes.push(avalanche.0);
            k = k + 1;
        }
        sizes
    }

    /// One step of the pile's evolution: adds a grain, then relaxes.
    /// Returns the avalanche size and the efflux of the relaxation.
    pub fn drive_and_relax(&mut self) -> (r: (u64, u64))
        requires
            old(self).wf(),
            old(self).stable(),
        ensures
            final(self).wf(),
            final(self).stable(),
            final(self).size_view() == old(self).size_view(),
            r.1 <= r.0,
    {
        self.drive();
        self.relax()
    }

    /// Runs `n` driven relaxations and tabulates the avalanche sizes: the
    /// data behind the size-in-time and size-probability plots.
    pub fn run_and_analyse(&mut self, n: u32) -> (r: (Vec<u64>, Vec<(u64, u64)>))
        requires
            old(self).wf(),
            old(self).stable(),
        ensures
            final(self).wf(),
            final(self).stable(),
            final(self).size_view() == old(self).size_view(),
            r.0@.len() == n + 1,
            r.0@[0] == 0,
            occurrence_list_of(r.1@, r.0@),
    {
        let sizes = self.run(n);
        let occurrences = size_occurrences(&sizes);
        (sizes, occurrences)
    }
}

} // verus!
