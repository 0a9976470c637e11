//! Per-trial results, their aggregation, and the Monte Carlo runner that
//! drives repeated independent trials and parameter sweeps.
//!
//! Trials are merged by a commutative, associative reduction: spanning
//! counts and largest-cluster sums add, and cluster-size histograms add
//! key-wise, so the merge order cannot affect the aggregate.

use vstd::prelude::*;
use crate::conn::lemma_cluster_sizes_bounds;
use crate::conn::lemma_cluster_sizes_len;
use crate::conn::lemma_empty_lattice;
use crate::conn::lemma_full_lattice;
use crate::conn::lemma_max_component_bounds;
use crate::count::count_eq;
use crate::count::to_int_seq;
use crate::count::lemma_count_eq_absent;
use crate::count::lemma_count_eq_bounds;
use crate::count::lemma_count_eq_push;
use crate::count::count_upto;
use crate::count::lemma_count_pointwise_eq;
use crate::count::seq_sum;
use crate::lattice::PercError;
use crate::lattice::PercolationLattice;
use vstd::arithmetic::div_mod::lemma_fundamental_div_mod_converse;

verus! {

/// What one lattice realization yielded.
#[derive(Debug)]
pub struct TrialResult {
    pub spans: bool,
    pub max_cluster_size: usize,
    pub cluster_sizes: Vec<usize>,
}

/// Integer accumulators over a set of trials. The derived quantities are
/// ratios of these: the percolation probability is
/// `spanning_trials / trials` and the mean largest cluster size is
/// `max_size_sum / trials`.
#[derive(Debug)]
pub struct AggregateStatistics {
    /// Number of trials recorded.
    pub trials: u64,
    /// Number of trials whose lattice spanned.
    pub spanning_trials: u64,
    /// Sum of the largest cluster size over the trials.
    pub max_size_sum: u64,
    /// `histogram[s]` counts the clusters of size `s` over all trials.
    pub histogram: Vec<u64>,
}

/// Histogram lookup that reads absent entries as zero.
pub open spec fn hist_at(h: Seq<u64>, v: int) -> int {
    if 0 <= v < h.len() {
        h[v] as int
    } else {
        0
    }
}

/// `m` holds the key-wise sums of `a` and `b`: the commutative,
/// associative reduction by which trial sets merge.
pub open spec fn is_merge_of(
    m: AggregateStatistics,
    a: AggregateStatistics,
    b: AggregateStatistics,
) -> bool {
    &&& m.trials == a.trials + b.trials
    &&& m.spanning_trials == a.spanning_trials + b.spanning_trials
    &&& m.max_size_sum == a.max_size_sum + b.max_size_sum
    &&& m.histogram@.len() == if a.histogram@.len() >= b.histogram@.len() {
        a.histogram@.len()
    } else {
        b.histogram@.len()
    }
    &&& forall|v: int|
        0 <= v < m.histogram@.len() ==> #[trigger] m.histogram@[v] == hist_at(a.histogram@, v)
            + hist_at(b.histogram@, v)
}

/// Aggregation order-independence: two merges of the same trial sets, in
/// either order, are identical statistics.
pub proof fn lemma_merge_commutative(
    a: AggregateStatistics,
    b: AggregateStatistics,
    m1: AggregateStatistics,
    m2: AggregateStatistics,
)
    requires
        is_merge_of(m1, a, b),
        is_merge_of(m2, b, a),
    ensures
        m1.trials == m2.trials,
        m1.spanning_trials == m2.spanning_trials,
        m1.max_size_sum == m2.max_size_sum,
        m1.histogram@ == m2.histogram@,
{
    assert(m1.histogram@ =~= m2.histogram@);
}

/// Aggregation is also associative: merging three trial sets brackets
/// either way into identical statistics.
pub proof fn lemma_merge_associative(
    a: AggregateStatistics,
    b: AggregateStatistics,
    c: AggregateStatistics,
    ab: AggregateStatistics,
    ab_c: AggregateStatistics,
    bc: AggregateStatistics,
    a_bc: AggregateStatistics,
)
    requires
        is_merge_of(ab, a, b),
        is_merge_of(ab_c, ab, c),
        is_merge_of(bc, b, c),
        is_merge_of(a_bc, a, bc),
    ensures
        ab_c.trials == a_bc.trials,
        ab_c.spanning_trials == a_bc.spanning_trials,
        ab_c.max_size_sum == a_bc.max_size_sum,
        ab_c.histogram@ == a_bc.histogram@,
{
    assert(ab_c.histogram@ =~= a_bc.histogram@);
}

impl AggregateStatistics {
    /// The empty aggregate.
    pub fn new() -> (r: AggregateStatistics)
        ensures
            r.trials == 0,
            r.spanning_trials == 0,
            r.max_size_sum == 0,
            r.histogram@.len() == 0,
    {
        AggregateStatistics { trials: 0, spanning_trials: 0, max_size_sum: 0, histogram: Vec::new() }
    }

    /// Folds one trial into the aggregate: counts the trial, counts its
    /// spanning verdict, adds its largest cluster size, and counts each of
    /// its cluster sizes into the histogram.
    pub fn record(&mut self, t: &TrialResult)
        requires
            old(self).trials < u64::MAX,
            old(self).spanning_trials < u64::MAX,
            old(self).max_size_sum + t.max_cluster_size <= u64::MAX,
            forall|v: int|
                0 <= v < old(self).histogram@.len() ==> #[trigger] old(self).histogram@[v]
                    + t.cluster_sizes@.len() <= u64::MAX,
        ensures
            final(self).trials == old(self).trials + 1,
            final(self).spanning_trials == old(self).spanning_trials + if t.spans {
                1int
            } else {
                0int
            },
            final(self).max_size_sum == old(self).max_size_sum + t.max_cluster_size,
            final(self).histogram@.len() >= old(self).histogram@.len(),
            forall|v: int|
                #![trigger hist_at(final(self).histogram@, v)]
                hist_at(final(self).histogram@, v) == hist_at(old(self).histogram@, v) + count_eq(
                    to_int_seq(t.cluster_sizes@),
                    v,
                ),
    {
        self.trials = self.trials + 1;
        if t.spans {
            self.spanning_trials = self.spanning_trials + 1;
        }
        self.max_size_sum = self.max_size_sum + t.max_cluster_size as u64;
        let m = t.cluster_sizes.len();
        let mut i: usize = 0;
        proof {
            assert(to_int_seq(t.cluster_sizes@).subrange(0, 0) =~= Seq::<int>::empty());
        }
        while i < m
            invariant
                m == t.cluster_sizes@.len(),
                i <= m,
                self.trials == old(self).trials + 1,
                self.spanning_trials == old(self).spanning_trials + if t.spans {
                    1int
                } else {
                    0int
                },
                self.max_size_sum == old(self).max_size_sum + t.max_cluster_size,
                self.histogram@.len() >= old(self).histogram@.len(),
                forall|v: int|
                    #![trigger hist_at(self.histogram@, v)]
                    hist_at(self.histogram@, v) == hist_at(old(self).histogram@, v) + count_eq(
                        to_int_seq(t.cluster_sizes@).subrange(0, i as int),
                        v,
                    ),
                forall|v: int|
                    0 <= v < old(self).histogram@.len() ==> #[trigger] old(self).histogram@[v]
                        + t.cluster_sizes@.len() <= u64::MAX,
            decreases m - i,
        {
            let ghost hp = self.histogram@;
            let s = t.cluster_sizes[i];
            while self.histogram.len() <= s
                invariant
                    self.trials == old(self).trials + 1,
                    self.spanning_trials == old(self).spanning_trials + if t.spans {
                        1int
                    } else {
                        0int
                    },
                    self.max_size_sum == old(self).max_size_sum + t.max_cluster_size,
                    self.histogram@.len() >= hp.len(),
                    hp.len() >= old(self).histogram@.len(),
                    forall|v: int|
                        #![trigger hist_at(self.histogram@, v)]
                        hist_at(self.histogram@, v) == hist_at(hp, v),
                decreases s + 1 - self.histogram@.len(),
            {
                let ghost hq = self.histogram@;
                self.histogram.push(0);
                proof {
                    assert forall|v: int|
                        #![trigger hist_at(self.histogram@, v)]
                        hist_at(self.histogram@, v) == hist_at(hp, v) by {
                        if 0 <= v < hq.len() {
                            assert(hist_at(hq, v) == hist_at(hp, v));
                            assert(self.histogram@[v] == hq[v]);
                        } else if v == hq.len() {
                            assert(self.histogram@[v] == 0);
                            assert(hist_at(hp, v) == 0);
                        }
                    }
                }
            }
            proof {
                lemma_count_eq_bounds(to_int_seq(t.cluster_sizes@).subrange(0, i as int), s as int);
                assert(count_eq(to_int_seq(t.cluster_sizes@).subrange(0, i as int), s as int)
                    <= i);
                assert(hist_at(self.histogram@, s as int) == hist_at(old(self).histogram@, s as int)
                    + count_eq(to_int_seq(t.cluster_sizes@).subrange(0, i as int), s as int));
                if old(self).histogram@.len() > s {
                    assert(old(self).histogram@[s as int] + t.cluster_sizes@.len() <= u64::MAX);
                }
            }
            let ghost hg = self.histogram@;
            let c = self.histogram[s];
            self.histogram.set(s, c + 1);
            i = i + 1;
            proof {
                let full = to_int_seq(t.cluster_sizes@);
                assert(full.len() == m);
                assert(full[i as int - 1] == t.cluster_sizes@[i as int - 1] as int);
                assert(full.subrange(0, i as int) =~= full.subrange(0, i as int - 1).push(
                    full[i as int - 1],
                ));
                assert(full[i as int - 1] == s as int);
                assert(self.histogram@ == hg.update(s as int, (c + 1) as u64));
                assert forall|v: int|
                    #![trigger hist_at(self.histogram@, v)]
                    hist_at(self.histogram@, v) == hist_at(old(self).histogram@, v) + count_eq(
                        full.subrange(0, i as int),
                        v,
                    ) by {
                    assert(hist_at(hg, v) == hist_at(hp, v));
                    assert(hist_at(hp, v) == hist_at(old(self).histogram@, v) + count_eq(
                        full.subrange(0, i as int - 1),
                        v,
                    ));
                    lemma_count_eq_push(full.subrange(0, i as int - 1), s as int, v);
                    if v == s as int {
                        assert(hist_at(self.histogram@, v) == c + 1);
                        assert(hist_at(hg, v) == c);
                    } else {
                        assert(hist_at(self.histogram@, v) == hist_at(hg, v));
                    }
                }
            }
        }
        proof {
            assert(to_int_seq(t.cluster_sizes@).subrange(0, m as int) =~= to_int_seq(
                t.cluster_sizes@,
            ));
        }
    }

    /// Merges two aggregates by key-wise addition.
    pub fn merge(a: &AggregateStatistics, b: &AggregateStatistics) -> (r: AggregateStatistics)
        requires
            a.trials + b.trials <= u64::MAX,
            a.spanning_trials + b.spanning_trials <= u64::MAX,
            a.max_size_sum + b.max_size_sum <= u64::MAX,
            forall|v: int|
                0 <= v < a.histogram@.len() ==> #[trigger] a.histogram@[v] + hist_at(b.histogram@, v)
                    <= u64::MAX,
            forall|v: int|
                0 <= v < b.histogram@.len() ==> hist_at(a.histogram@, v) + #[trigger] b.histogram@[v]
                    <= u64::MAX,
        ensures
            is_merge_of(r, *a, *b),
    {
        let hlen = if a.histogram.len() >= b.histogram.len() {
            a.histogram.len()
        } else {
            b.histogram.len()
        };
        let mut histogram: Vec<u64> = Vec::new();
        let mut v: usize = 0;
        while v < hlen
            invariant
                hlen == if a.histogram@.len() >= b.histogram@.len() {
                    a.histogram@.len()
                } else {
                    b.histogram@.len()
                },
                v <= hlen,
                histogram@.len() == v,
                forall|w: int|
                    0 <= w < v ==> #[trigger] histogram@[w] == hist_at(a.histogram@, w) + hist_at(
                        b.histogram@,
                        w,
                    ),
                forall|w: int|
                    0 <= w < a.histogram@.len() ==> #[trigger] a.histogram@[w] + hist_at(
                        b.histogram@,
                        w,
                    ) <= u64::MAX,
                forall|w: int|
                    0 <= w < b.histogram@.len() ==> hist_at(a.histogram@, w) + #[trigger] b.histogram@[w]
                        <= u64::MAX,
            decreases hlen - v,
        {
            let av = if v < a.histogram.len() {
                a.histogram[v]
            } else {
                0
            };
            let bv = if v < b.histogram.len() {
                b.histogram[v]
            } else {
                0
            };
            histogram.push(av + bv);
            v = v + 1;
        }
        AggregateStatistics {
            trials: a.trials + b.trials,
            spanning_trials: a.spanning_trials + b.spanning_trials,
            max_size_sum: a.max_size_sum + b.max_size_sum,
            histogram,
        }
    }
}


/// Runs `t` independent trials at edge length `l` and occupation
/// probability `p_num / p_den`: each trial draws a fresh lattice, runs the
/// burning method, the component sizer and the cluster labeler, and folds
/// the result into the aggregate. Fails exactly when the lattice
/// parameters are invalid; the degenerate probabilities are pinned.
#[verifier::rlimit(60)]
pub fn monte_carlo(t: u32, l: usize, p_num: u64, p_den: u64) -> (r: Result<
    AggregateStatistics,
    PercError,
>)
    requires
        l * l + 2 <= usize::MAX,
        t * (l * l) <= u64::MAX,
    ensures
        r is Ok <==> (l >= 1 && p_den >= 1 && p_num <= p_den),
        r is Err ==> r == Result::<AggregateStatistics, PercError>::Err(
            PercError::InvalidParameter,
        ),
        r is Ok ==> {
            let s = r->Ok_0;
            &&& s.trials == t
            &&& s.spanning_trials <= t
            &&& s.max_size_sum <= t * (l * l)
            &&& (p_num == 0 ==> s.spanning_trials == 0 && s.max_size_sum == 0 && (forall|v: int|
                hist_at(s.histogram@, v) == 0))
            &&& (p_num == p_den ==> s.spanning_trials == t && s.max_size_sum == t * (l * l) && (
            forall|v: int|
                hist_at(s.histogram@, v) == if v == l * l {
                    t as int
                } else {
                    0int
                }))
            &&& (forall|v: int|
                #![trigger hist_at(s.histogram@, v)]
                v <= 0 || v > l * l ==> hist_at(s.histogram@, v) == 0)
        },
{
    if l == 0 || p_den == 0 || p_num > p_den {
        return Err(PercError::InvalidParameter);
    }
    let ghost area = l as int * l as int;
    let mut stats = AggregateStatistics::new();
    let mut done: u32 = 0;
    while done < t
        invariant
            l >= 1,
            p_den >= 1,
            p_num <= p_den,
            area == l * l,
            l * l + 2 <= usize::MAX,
            t * area <= u64::MAX,
            done <= t,
            stats.trials == done,
            stats.spanning_trials <= done,
            stats.max_size_sum <= done * area,
            forall|v: int| #![trigger hist_at(stats.histogram@, v)] hist_at(stats.histogram@, v)
                <= done * area,
            forall|v: int|
                #![trigger hist_at(stats.histogram@, v)]
                v <= 0 || v > area ==> hist_at(stats.histogram@, v) == 0,
            p_num == 0 ==> stats.spanning_trials == 0 && stats.max_size_sum == 0 && (forall|v: int|
                hist_at(stats.histogram@, v) == 0),
            p_num == p_den ==> stats.spanning_trials == done && stats.max_size_sum == done * area
                && (forall|v: int|
                hist_at(stats.histogram@, v) == if v == area {
                    done as int
                } else {
                    0int
                }),
        decreases t - done,
    {
        let lat = match PercolationLattice::new(l, p_num, p_den) {
            Ok(lat) => lat,
            Err(e) => {
                return Err(e);
            },
        };
        let (spans, _burn) = lat.burning_method();
        let smax = lat.max_cluster_size();
        let hk = lat.hoshen_kopelman();
        let sizes = hk.0;
        proof {
            lat.lemma_wf_facts();
            lemma_max_component_bounds(lat);
            lemma_cluster_sizes_len(lat, area);
            assert(smax <= area);
            assert(sizes@.len() <= area);
            assert(done * area + area <= t * area) by (nonlinear_arith)
                requires
                    done < t,
                    area >= 0,
            ;
        }
        let trial = TrialResult { spans, max_cluster_size: smax, cluster_sizes: sizes };
        proof {
            assert forall|v: int|
                0 <= v < stats.histogram@.len() implies #[trigger] stats.histogram@[v]
                + trial.cluster_sizes@.len() <= u64::MAX by {
                assert(hist_at(stats.histogram@, v) <= done * area);
            }
        }
        stats.record(&trial);
        done = done + 1;
        proof {
            assert((done - 1) * area + area == done * area) by (nonlinear_arith);
            assert forall|v: int| #![trigger hist_at(stats.histogram@, v)] hist_at(
                stats.histogram@,
                v,
            ) <= done * area by {
                lemma_count_eq_bounds(to_int_seq(trial.cluster_sizes@), v);
                assert(count_eq(to_int_seq(trial.cluster_sizes@), v) <= area);
                assert((done - 1) * area + area == done * area) by (nonlinear_arith);
            }
            // cluster sizes lie in [1, area], so the histogram support does
            assert forall|v: int|
                #![trigger hist_at(stats.histogram@, v)]
                v <= 0 || v > area implies hist_at(stats.histogram@, v) == 0 by {
                lemma_cluster_sizes_bounds(lat, area);
                let sizes_int = to_int_seq(trial.cluster_sizes@);
                assert forall|idx: int| 0 <= idx < sizes_int.len() implies #[trigger] sizes_int[idx]
                    != v by {
                    assert(1 <= crate::conn::cluster_sizes_upto(lat, area)[idx] <= area);
                    assert(sizes_int[idx] == crate::conn::cluster_sizes_upto(lat, area)[idx]);
                }
                lemma_count_eq_absent(sizes_int, v);
            }
            if p_num == 0 {
                lemma_empty_lattice(lat);
                assert(!trial.spans);
                assert(trial.max_cluster_size == 0);
                assert(to_int_seq(trial.cluster_sizes@) =~= Seq::<int>::empty());
                assert forall|v: int| hist_at(stats.histogram@, v) == 0 by {
                    assert(count_eq(Seq::<int>::empty(), v) == 0);
                }
            }
            if p_num == p_den {
                lemma_full_lattice(lat);
                assert(trial.spans);
                assert(trial.max_cluster_size == area);
                assert(to_int_seq(trial.cluster_sizes@) =~= seq![area]);
                assert forall|v: int|
                    hist_at(stats.histogram@, v) == if v == area {
                        done as int
                    } else {
                        0int
                    } by {
                    let one = seq![area];
                    assert(one.len() == 1 && one.last() == area);
                    assert(one.drop_last() =~= Seq::<int>::empty());
                    assert(count_eq(one.drop_last(), v) == 0);
                    assert(count_eq(one, v) == count_eq(one.drop_last(), v) + if one.last() == v {
                        1int
                    } else {
                        0int
                    });
                }
            }
        }
    }
    Ok(stats)
}


/// One point of a parameter sweep.
#[derive(Debug)]
pub struct SweepPoint {
    pub l: usize,
    pub p_num: u64,
    pub p_den: u64,
    pub stats: AggregateStatistics,
}

/// Sweep mode: runs `monte_carlo` with `t` trials for every pair of an
/// edge length and an occupation probability numerator, row-major (all
/// probabilities of the first edge length first). Fails exactly when some
/// pair is an invalid configuration, and then runs nothing.
#[verifier::rlimit(60)]
pub fn percolation_sweep(l_values: &Vec<usize>, p_nums: &Vec<u64>, p_den: u64, t: u32) -> (r:
    Result<Vec<SweepPoint>, PercError>)
    requires
        forall|a: int|
            0 <= a < l_values@.len() ==> (#[trigger] l_values@[a]) * l_values@[a] + 2 <= usize::MAX
                && t * (l_values@[a] * l_values@[a]) <= u64::MAX,
    ensures
        r is Ok <==> (p_den >= 1 && (forall|a: int|
            0 <= a < l_values@.len() ==> #[trigger] l_values@[a] >= 1) && (forall|b: int|
            0 <= b < p_nums@.len() ==> #[trigger] p_nums@[b] <= p_den)),
        r is Err ==> r == Result::<Vec<SweepPoint>, PercError>::Err(PercError::InvalidParameter),
        r is Ok ==> {
            let v = r->Ok_0;
            &&& v@.len() == l_values@.len() * p_nums@.len()
            &&& forall|idx: int|
                0 <= idx < v@.len() ==> {
                    let e = #[trigger] v@[idx];
                    &&& e.l == l_values@[idx / (p_nums@.len() as int)]
                    &&& e.p_num == p_nums@[idx % (p_nums@.len() as int)]
                    &&& e.p_den == p_den
                    &&& e.stats.trials == t
                    &&& e.stats.spanning_trials <= t
                }
        },
{
    if p_den == 0 {
        return Err(PercError::InvalidParameter);
    }
    let rows = l_values.len();
    let cols = p_nums.len();
    let mut a: usize = 0;
    while a < rows
        invariant
            rows == l_values@.len(),
            a <= rows,
            forall|a2: int| 0 <= a2 < a ==> #[trigger] l_values@[a2] >= 1,
        decreases rows - a,
    {
        if l_values[a] == 0 {
            return Err(PercError::InvalidParameter);
        }
        a = a + 1;
    }
    let mut b: usize = 0;
    while b < cols
        invariant
            cols == p_nums@.len(),
            b <= cols,
            forall|b2: int| 0 <= b2 < b ==> #[trigger] p_nums@[b2] <= p_den,
        decreases cols - b,
    {
        if p_nums[b] > p_den {
            return Err(PercError::InvalidParameter);
        }
        b = b + 1;
    }
    let mut out: Vec<SweepPoint> = Vec::new();
    let mut a: usize = 0;
    while a < rows
        invariant
            rows == l_values@.len(),
            cols == p_nums@.len(),
            p_den >= 1,
            a <= rows,
            forall|a2: int| 0 <= a2 < rows ==> #[trigger] l_values@[a2] >= 1,
            forall|b2: int| 0 <= b2 < cols ==> #[trigger] p_nums@[b2] <= p_den,
            forall|a2: int|
                0 <= a2 < rows ==> (#[trigger] l_values@[a2]) * l_values@[a2] + 2 <= usize::MAX
                    && t * (l_values@[a2] * l_values@[a2]) <= u64::MAX,
            out@.len() == a * cols,
            forall|idx: int|
                0 <= idx < out@.len() ==> {
                    let e = #[trigger] out@[idx];
                    &&& e.l == l_values@[idx / (cols as int)]
                    &&& e.p_num == p_nums@[idx % (cols as int)]
                    &&& e.p_den == p_den
                    &&& e.stats.trials == t
                    &&& e.stats.spanning_trials <= t
                },
        decreases rows - a,
    {
        let l = l_values[a];
        let mut b: usize = 0;
        while b < cols
            invariant
                rows == l_values@.len(),
                cols == p_nums@.len(),
                p_den >= 1,
                a < rows,
                b <= cols,
                l == l_values@[a as int],
                forall|a2: int| 0 <= a2 < rows ==> #[trigger] l_values@[a2] >= 1,
                forall|b2: int| 0 <= b2 < cols ==> #[trigger] p_nums@[b2] <= p_den,
                forall|a2: int|
                    0 <= a2 < rows ==> (#[trigger] l_values@[a2]) * l_values@[a2] + 2 <= usize::MAX
                        && t * (l_values@[a2] * l_values@[a2]) <= u64::MAX,
                out@.len() == a * cols + b,
                forall|idx: int|
                    0 <= idx < out@.len() ==> {
                        let e = #[trigger] out@[idx];
                        &&& e.l == l_values@[idx / (cols as int)]
                        &&& e.p_num == p_nums@[idx % (cols as int)]
                        &&& e.p_den == p_den
                        &&& e.stats.trials == t
                        &&& e.stats.spanning_trials <= t
                    },
            decreases cols - b,
        {
            let p_num = p_nums[b];
            let stats = match monte_carlo(t, l, p_num, p_den) {
                Ok(st) => st,
                Err(e) => {
                    return Err(e);
                },
            };
            let ghost idx0 = out@.len() as int;
            out.push(SweepPoint { l, p_num, p_den, stats });
            b = b + 1;
            proof {
                lemma_fundamental_div_mod_converse(idx0, cols as int, a as int, b as int - 1);
            }
        }
        a = a + 1;
        proof {
            assert((a - 1) * cols + cols == a * cols) by (nonlinear_arith);
        }
    }
    Ok(out)
}

/// The nonzero cells of an analysis grid: its occupied sites.
pub open spec fn occupied_cells(g: Seq<usize>) -> int {
    count_upto(|k: int| 0 <= k < g.len() && g[k] != 0, g.len() as int)
}

/// One rendered example configuration: what a heatmap consumer draws.
#[derive(Debug)]
pub struct LatticeExample {
    pub p_num: u64,
    pub p_den: u64,
    pub spans: bool,
    pub max_cluster_size: usize,
    pub cluster_sizes: Vec<usize>,
    pub burn_grid: Vec<usize>,
    pub label_grid: Vec<usize>,
}

/// Draws one random 10 x 10 lattice at probability `p_num / p_den` and
/// runs all three analyses on it.
fn one_example(p_num: u64, p_den: u64) -> (e: LatticeExample)
    requires
        p_den >= 1,
        p_num <= p_den,
    ensures
        e.p_num == p_num,
        e.p_den == p_den,
        e.burn_grid@.len() == 100,
        e.label_grid@.len() == 100,
        forall|k: int|
            0 <= k < 100 ==> ((#[trigger] e.burn_grid@[k] == 0) <==> e.label_grid@[k] == 0),
        seq_sum(to_int_seq(e.cluster_sizes@)) == occupied_cells(e.label_grid@),
{
    let lat = match PercolationLattice::new(10, p_num, p_den) {
        Ok(lat) => lat,
        Err(_) => {
            return LatticeExample {
                p_num,
                p_den,
                spans: false,
                max_cluster_size: 0,
                cluster_sizes: Vec::new(),
                burn_grid: Vec::new(),
                label_grid: Vec::new(),
            };
        },
    };
    let (spans, burn_grid) = lat.burning_method();
    let smax = lat.max_cluster_size();
    let (cluster_sizes, label_grid) = lat.hoshen_kopelman();
    proof {
        lemma_count_pointwise_eq(
            lat.occ_pred(),
            |k: int| 0 <= k < label_grid@.len() && label_grid@[k] != 0,
            100,
        );
    }
    LatticeExample { p_num, p_den, spans, max_cluster_size: smax, cluster_sizes, burn_grid, label_grid }
}

/// The example runs: one random 10 x 10 lattice analysed at each of the
/// occupation probabilities 0.40, 0.60 and 0.80, ready for rendering.
pub fn percolation_examples() -> (r: Vec<LatticeExample>)
    ensures
        r@.len() == 3,
        r@[0].p_num == 40 && r@[1].p_num == 60 && r@[2].p_num == 80,
        forall|e: int|
            0 <= e < r@.len() ==> {
                let x = #[trigger] r@[e];
                &&& x.p_den == 100
                &&& x.burn_grid@.len() == 100
                &&& x.label_grid@.len() == 100
                &&& seq_sum(to_int_seq(x.cluster_sizes@)) == occupied_cells(x.label_grid@)
            },
{
    let mut r: Vec<LatticeExample> = Vec::new();
    r.push(one_example(40, 100));
    r.push(one_example(60, 100));
    r.push(one_example(80, 100));
    r
}

} // verus!
