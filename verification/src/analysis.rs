//! The analysis passes over a lattice: flood fill, cluster labeling,
//! largest-component sizing, and spanning detection.
//!
//! Every pass works on a private copy of the occupancy (an "analysis
//! grid"): empty sites hold 0, occupied sites hold 1 until the pass marks
//! them with a value of at least 2 (a cluster label or a burn round).

use vstd::prelude::*;
use crate::conn::adj;
use crate::conn::site_of;
use crate::conn::connected;
use crate::conn::closed_under_adj;
use crate::conn::comp_pred;
use crate::conn::comp_size;
use crate::conn::reach0;
use crate::conn::lat_spans;
use crate::conn::lemma_connected_endpoints;
use crate::conn::lemma_connected_refl;
use crate::conn::lemma_connected_step;
use crate::conn::lemma_connected_sym;
use crate::conn::lemma_connected_trans;
use crate::conn::lemma_closed_reaches;
use crate::conn::lemma_comp_size_bounds;
use crate::conn::lemma_comp_size_eq;
use crate::conn::max_comp_upto;
use crate::conn::max_component_size;
use crate::conn::cluster_sizes;
use crate::conn::cluster_sizes_upto;
use crate::conn::is_scan_rep;
use crate::count::count_upto;
use crate::count::seq_sum;
use crate::count::to_int_seq;
use crate::count::lemma_count_bounds;
use crate::count::lemma_count_disjoint_or;
use crate::count::lemma_count_flip_one;
use crate::count::lemma_count_pointwise_eq;
use crate::count::lemma_seq_sum_push;
use crate::lattice::PercolationLattice;
use crate::lattice::lemma_flat_index;
use crate::lattice::lemma_unflat_index;

verus! {

broadcast use crate::lattice::PercolationLattice::lemma_occ_bounds;

/// An analysis grid derived from the lattice: value 0 exactly on the empty
/// sites; occupied sites hold at least 1.
pub open spec fn grid_matches(lat: PercolationLattice, g: Seq<usize>) -> bool {
    &&& g.len() == lat.size() * lat.size()
    &&& forall|k: int| 0 <= k < g.len() ==> ((#[trigger] g[k] == 0) <==> !lat.occ_at(k))
}

/// The marked sites of an analysis grid (value at least 2), as a site
/// predicate.
pub open spec fn marked(l: int, g: Seq<usize>) -> spec_fn((int, int)) -> bool {
    |a: (int, int)| 0 <= a.0 < l && 0 <= a.1 < l && g[a.0 * l + a.1] >= 2
}

/// Positions whose value differs between two grids.
pub open spec fn changed_pred(base: Seq<usize>, g: Seq<usize>) -> spec_fn(int) -> bool {
    |k: int| 0 <= k < g.len() && g[k] != base[k]
}

/// The site `a` occurs in the worklist.
pub open spec fn in_stack(s: Seq<(usize, usize)>, a: (int, int)) -> bool {
    exists|t: int| 0 <= t < s.len() && (#[trigger] s[t]).0 == a.0 && s[t].1 == a.1
}

/// Flat position `t` is joined to some occupied site at a flat position
/// below `n` (the part of the lattice a row-major scan has covered).
pub open spec fn scanned_reach(lat: PercolationLattice, n: int, t: int) -> bool {
    exists|k2: int|
        0 <= k2 < n && #[trigger] lat.occ_at(k2) && connected(
            lat,
            site_of(lat.size(), k2),
            site_of(lat.size(), t),
        )
}

/// A marked flat position decodes to a marked site and back.
proof fn lemma_marked_at(l: int, g: Seq<usize>, k: int)
    requires
        l >= 1,
        g.len() == l * l,
        0 <= k < l * l,
    ensures
        marked(l, g)(site_of(l, k)) <==> g[k] >= 2,
{
    lemma_unflat_index(l, k);
}

/// A neighbour list read as a sequence of site coordinates.
pub open spec fn sites_view(s: Seq<(usize, usize)>) -> Seq<(int, int)> {
    s.map_values(|a: (usize, usize)| (a.0 as int, a.1 as int))
}

/// The 4-neighbours of `(i, j)` on an `l x l` grid, in the order up, left,
/// down, right, each kept exactly when in bounds.
pub open spec fn neighbour_list(i: int, j: int, l: int) -> Seq<(int, int)> {
    (if i > 0 {
        seq![(i - 1, j)]
    } else {
        Seq::<(int, int)>::empty()
    }) + (if j > 0 {
        seq![(i, j - 1)]
    } else {
        Seq::<(int, int)>::empty()
    }) + (if i + 1 < l {
        seq![(i + 1, j)]
    } else {
        Seq::<(int, int)>::empty()
    }) + (if j + 1 < l {
        seq![(i, j + 1)]
    } else {
        Seq::<(int, int)>::empty()
    })
}

/// The in-bounds 4-neighbours of `(i, j)` on an `l x l` grid: exactly the
/// list `(i-1,j), (i,j-1), (i+1,j), (i,j+1)` filtered to bounds, in that
/// order; boundary sites simply have fewer.
pub fn neighbours(i: usize, j: usize, l: usize) -> (r: Vec<(usize, usize)>)
    requires
        i < l,
        j < l,
    ensures
        sites_view(r@) == neighbour_list(i as int, j as int, l as int),
        forall|t: int|
            0 <= t < r@.len() ==> {
                let s = #[trigger] r@[t];
                s.0 < l && s.1 < l && adj((i as int, j as int), (s.0 as int, s.1 as int))
            },
        forall|a: int, b: int|
            0 <= a < l && 0 <= b < l && adj((i as int, j as int), (a, b)) ==> r@.contains(
                (a as usize, b as usize),
            ),
{
    let ghost ii = i as int;
    let ghost jj = j as int;
    let ghost ln = l as int;
    let ghost p1 = if ii > 0 {
        seq![(ii - 1, jj)]
    } else {
        Seq::<(int, int)>::empty()
    };
    let ghost p2 = if jj > 0 {
        seq![(ii, jj - 1)]
    } else {
        Seq::<(int, int)>::empty()
    };
    let ghost p3 = if ii + 1 < ln {
        seq![(ii + 1, jj)]
    } else {
        Seq::<(int, int)>::empty()
    };
    let ghost p4 = if jj + 1 < ln {
        seq![(ii, jj + 1)]
    } else {
        Seq::<(int, int)>::empty()
    };
    let mut r: Vec<(usize, usize)> = Vec::new();
    if i > 0 {
        r.push((i - 1, j));
    }
    proof {
        assert(sites_view(r@) =~= p1);
    }
    if j > 0 {
        r.push((i, j - 1));
    }
    proof {
        assert(sites_view(r@) =~= p1 + p2);
    }
    if i + 1 < l {
        r.push((i + 1, j));
    }
    proof {
        assert(sites_view(r@) =~= p1 + p2 + p3);
    }
    if j + 1 < l {
        r.push((i, j + 1));
    }
    proof {
        assert(sites_view(r@) =~= p1 + p2 + p3 + p4);
        assert(neighbour_list(ii, jj, ln) == p1 + p2 + p3 + p4);
    }
    proof {
        assert forall|a: int, b: int|
            0 <= a < l && 0 <= b < l && adj((i as int, j as int), (a, b)) implies r@.contains(
            (a as usize, b as usize),
        ) by {
            let s = (a as usize, b as usize);
            if a == i - 1 && b == j {
                assert(r@[0] == s);
            } else if a == i && b == j - 1 {
                assert(r@[if i > 0 { 1int } else { 0int }] == s);
            } else if a == i + 1 && b == j {
                let t = if i > 0 { 1int } else { 0int } + if j > 0 { 1int } else { 0int };
                assert(r@[t] == s);
            } else {
                assert(a == i && b == j + 1);
                let t = if i > 0 { 1int } else { 0int } + if j > 0 { 1int } else { 0int } + if i + 1
                    < l {
                    1int
                } else {
                    0int
                };
                assert(r@[t] == s);
            }
        }
    }
    r
}

/// Membership in the worklist survives a push.
proof fn lemma_in_stack_push(s: Seq<(usize, usize)>, a: (int, int), x: (usize, usize))
    requires
        in_stack(s, a),
    ensures
        in_stack(s.push(x), a),
{
    let t = choose|t: int| 0 <= t < s.len() && (#[trigger] s[t]).0 == a.0 && s[t].1 == a.1;
    assert(s.push(x)[t] == s[t]);
}

/// Re-establishes the pending-neighbour invariant after one worklist round:
/// the popped site `cur` has no unmarked occupied neighbours left, every
/// other previously marked site kept its worklist entry, and every site
/// marked during the round was pushed.
proof fn lemma_restore_pending(
    lat: PercolationLattice,
    g0: Seq<usize>,
    g: Seq<usize>,
    st0: Seq<(usize, usize)>,
    st: Seq<(usize, usize)>,
    cur: (int, int),
)
    requires
        lat.wf(),
        g0.len() == lat.size() * lat.size(),
        g.len() == g0.len(),
        st0.len() >= 1,
        st0.last().0 == cur.0 && st0.last().1 == cur.1,
        forall|t: int| 0 <= t < st0.len() - 1 ==> #[trigger] st[t] == st0[t],
        st.len() >= st0.len() - 1,
        forall|a: (int, int), b: (int, int)|
            #![trigger marked(lat.size(), g0)(a), adj(a, b)]
            marked(lat.size(), g0)(a) && adj(a, b) && lat.occ(b.0, b.1) && !marked(
                lat.size(),
                g0,
            )(b) ==> in_stack(st0, a),
        forall|k: int| 0 <= k < g.len() && #[trigger] g0[k] >= 2 ==> g[k] == g0[k],
        forall|b: (int, int)|
            #![trigger adj(cur, b)]
            adj(cur, b) && lat.occ(b.0, b.1) ==> marked(lat.size(), g)(b),
        forall|a: (int, int)|
            #![trigger marked(lat.size(), g)(a)]
            marked(lat.size(), g)(a) && !marked(lat.size(), g0)(a) ==> in_stack(st, a),
    ensures
        forall|a: (int, int), b: (int, int)|
            #![trigger marked(lat.size(), g)(a), adj(a, b)]
            marked(lat.size(), g)(a) && adj(a, b) && lat.occ(b.0, b.1) && !marked(lat.size(), g)(b)
                ==> in_stack(st, a),
{
    let ll = lat.size();
    assert forall|a: (int, int), b: (int, int)|
        marked(ll, g)(a) && adj(a, b) && lat.occ(b.0, b.1) && !marked(ll, g)(b) implies in_stack(
        st,
        a,
    ) by {
        if a == cur {
            assert(marked(ll, g)(b));
            assert(false);
        } else if marked(ll, g0)(a) {
            lemma_flat_index(ll, b.0, b.1);
            assert(!marked(ll, g0)(b));
            assert(in_stack(st0, a));
            let t = choose|t: int|
                0 <= t < st0.len() && (#[trigger] st0[t]).0 == a.0 && st0[t].1 == a.1;
            assert(t != st0.len() - 1);
            assert(st[t] == st0[t]);
            assert(in_stack(st, a));
        } else {
            assert(in_stack(st, a));
        }
    }
}

/// The site `a` occurs in the worklist at or after position `head`.
pub open spec fn in_queue(q: Seq<(usize, usize)>, head: int, a: (int, int)) -> bool {
    exists|t: int| head <= t < q.len() && (#[trigger] q[t]).0 == a.0 && q[t].1 == a.1
}

/// The site at flat position `k` caught fire from a neighbour: some
/// in-bounds neighbour holds exactly the previous burn round.
pub open spec fn has_burn_parent(lat: PercolationLattice, g: Seq<usize>, k: int) -> bool {
    exists|b: (int, int)|
        0 <= b.0 < lat.size() && 0 <= b.1 < lat.size() && adj(site_of(lat.size(), k), b)
            && #[trigger] g[b.0 * lat.size() + b.1] + 1 == g[k]
}

/// The burning pass's state: a well-formed analysis copy whose marks are
/// burn rounds on sites reached from the top row, every occupied top-row
/// site already alight, worklist entries burning, and every burning site
/// with an unburnt occupied neighbour still pending at or after `head`.
pub open spec fn burn_state_ok(
    lat: PercolationLattice,
    base: Seq<usize>,
    g: Seq<usize>,
    q: Seq<(usize, usize)>,
    head: int,
) -> bool {
    &&& base.len() == lat.size() * lat.size()
    &&& g.len() == base.len()
    &&& grid_matches(lat, base)
    &&& grid_matches(lat, g)
    &&& (forall|k: int| 0 <= k < base.len() ==> #[trigger] base[k] <= 1)
    &&& 0 <= head <= q.len()
    &&& (forall|k: int|
        0 <= k < g.len() && #[trigger] g[k] != base[k] ==> base[k] == 1 && g[k] >= 2 && reach0(
            lat,
            site_of(lat.size(), k),
        ))
    &&& (forall|k: int|
        0 <= k < g.len() && #[trigger] g[k] >= 2 ==> g[k] <= 1 + count_upto(
            changed_pred(base, g),
            g.len() as int,
        ))
    &&& (forall|j2: int| 0 <= j2 < lat.size() && lat.occ(0, j2) ==> g[j2] == 2)
    &&& (forall|k: int| 0 <= k < g.len() && #[trigger] g[k] > 2 ==> has_burn_parent(lat, g, k))
    &&& (forall|t: int|
        0 <= t < q.len() ==> {
            let s = #[trigger] q[t];
            &&& s.0 < lat.size()
            &&& s.1 < lat.size()
            &&& g[s.0 * lat.size() + s.1] >= 2
        })
    &&& (forall|a: (int, int), b: (int, int)|
        #![trigger marked(lat.size(), g)(a), adj(a, b)]
        marked(lat.size(), g)(a) && adj(a, b) && lat.occ(b.0, b.1) && !marked(lat.size(), g)(b)
            ==> in_queue(q, head, a))
}

/// Pending membership survives lowering the head bound.
proof fn lemma_in_queue_widen(q: Seq<(usize, usize)>, h1: int, h2: int, a: (int, int))
    requires
        in_queue(q, h1, a),
        h2 <= h1,
    ensures
        in_queue(q, h2, a),
{
    let t = choose|t: int| h1 <= t < q.len() && (#[trigger] q[t]).0 == a.0 && q[t].1 == a.1;
    assert(h2 <= t < q.len() && q[t].0 == a.0 && q[t].1 == a.1);
}

/// Pending membership survives appending to the worklist.
proof fn lemma_in_queue_extend(q: Seq<(usize, usize)>, q2: Seq<(usize, usize)>, h: int, a: (
    int,
    int,
))
    requires
        0 <= h,
        in_queue(q, h, a),
        q2.len() >= q.len(),
        forall|t: int| 0 <= t < q.len() ==> #[trigger] q2[t] == q[t],
    ensures
        in_queue(q2, h, a),
{
    let t = choose|t: int| h <= t < q.len() && (#[trigger] q[t]).0 == a.0 && q[t].1 == a.1;
    assert(q2[t] == q[t]);
}

/// Re-establishes the pending-neighbour invariant after one burning round:
/// the site `cur` at the worklist head has no unmarked occupied neighbours
/// left, entries behind the head keep their positions, and every site
/// marked during the round was appended.
proof fn lemma_restore_pending_queue(
    lat: PercolationLattice,
    g0: Seq<usize>,
    g: Seq<usize>,
    q0: Seq<(usize, usize)>,
    q: Seq<(usize, usize)>,
    head0: int,
    cur: (int, int),
)
    requires
        lat.wf(),
        g0.len() == lat.size() * lat.size(),
        g.len() == g0.len(),
        0 <= head0 < q0.len(),
        q0[head0].0 == cur.0 && q0[head0].1 == cur.1,
        q.len() >= q0.len(),
        forall|t: int| 0 <= t < q0.len() ==> #[trigger] q[t] == q0[t],
        forall|a: (int, int), b: (int, int)|
            #![trigger marked(lat.size(), g0)(a), adj(a, b)]
            marked(lat.size(), g0)(a) && adj(a, b) && lat.occ(b.0, b.1) && !marked(
                lat.size(),
                g0,
            )(b) ==> in_queue(q0, head0, a),
        forall|k: int| 0 <= k < g.len() && #[trigger] g0[k] >= 2 ==> g[k] == g0[k],
        forall|b: (int, int)|
            #![trigger adj(cur, b)]
            adj(cur, b) && lat.occ(b.0, b.1) ==> marked(lat.size(), g)(b),
        forall|a: (int, int)|
            #![trigger marked(lat.size(), g)(a)]
            marked(lat.size(), g)(a) && !marked(lat.size(), g0)(a) ==> in_queue(q, head0 + 1, a),
    ensures
        forall|a: (int, int), b: (int, int)|
            #![trigger marked(lat.size(), g)(a), adj(a, b)]
            marked(lat.size(), g)(a) && adj(a, b) && lat.occ(b.0, b.1) && !marked(lat.size(), g)(b)
                ==> in_queue(q, head0 + 1, a),
{
    let ll = lat.size();
    assert forall|a: (int, int), b: (int, int)|
        marked(ll, g)(a) && adj(a, b) && lat.occ(b.0, b.1) && !marked(ll, g)(b) implies in_queue(
        q,
        head0 + 1,
        a,
    ) by {
        if a == cur {
            assert(marked(ll, g)(b));
            assert(false);
        } else if marked(ll, g0)(a) {
            lemma_flat_index(ll, b.0, b.1);
            assert(!marked(ll, g0)(b));
            assert(in_queue(q0, head0, a));
            let t = choose|t: int|
                head0 <= t < q0.len() && (#[trigger] q0[t]).0 == a.0 && q0[t].1 == a.1;
            assert(t != head0);
            assert(q[t] == q0[t]);
            assert(in_queue(q, head0 + 1, a));
        } else {
            assert(in_queue(q, head0 + 1, a));
        }
    }
}

/// Chains one burning round's four neighbour steps: marks only grow, every
/// occupied neighbour of the processed site burns, every site newly burnt
/// in the round is pending, and so the pending-neighbour invariant holds
/// again with the head advanced past the processed site.
#[verifier::rlimit(100)]
proof fn lemma_burn_round(
    lat: PercolationLattice,
    g0: Seq<usize>,
    g1: Seq<usize>,
    g2: Seq<usize>,
    g3: Seq<usize>,
    g4: Seq<usize>,
    q0: Seq<(usize, usize)>,
    q1: Seq<(usize, usize)>,
    q2: Seq<(usize, usize)>,
    q3: Seq<(usize, usize)>,
    q4: Seq<(usize, usize)>,
    head0: int,
    ca: usize,
    cb: usize,
)
    requires
        lat.wf(),
        ca < lat.size(),
        cb < lat.size(),
        g0.len() == lat.size() * lat.size(),
        g1.len() == g0.len(),
        g2.len() == g0.len(),
        g3.len() == g0.len(),
        g4.len() == g0.len(),
        0 <= head0 < q0.len(),
        q0[head0].0 == ca && q0[head0].1 == cb,
        q1.len() >= q0.len(),
        q2.len() >= q1.len(),
        q3.len() >= q2.len(),
        q4.len() >= q3.len(),
        forall|t: int| 0 <= t < q0.len() ==> #[trigger] q1[t] == q0[t],
        forall|t: int| 0 <= t < q1.len() ==> #[trigger] q2[t] == q1[t],
        forall|t: int| 0 <= t < q2.len() ==> #[trigger] q3[t] == q2[t],
        forall|t: int| 0 <= t < q3.len() ==> #[trigger] q4[t] == q3[t],
        forall|k: int| 0 <= k < g0.len() && #[trigger] g0[k] >= 2 ==> g1[k] == g0[k],
        forall|k: int| 0 <= k < g0.len() && #[trigger] g1[k] >= 2 ==> g2[k] == g1[k],
        forall|k: int| 0 <= k < g0.len() && #[trigger] g2[k] >= 2 ==> g3[k] == g2[k],
        forall|k: int| 0 <= k < g0.len() && #[trigger] g3[k] >= 2 ==> g4[k] == g3[k],
        ca > 0 ==> (lat.occ(ca - 1, cb as int) ==> g1[(ca - 1) * lat.size() + cb] >= 2),
        cb > 0 ==> (lat.occ(ca as int, cb - 1) ==> g2[ca * lat.size() + (cb - 1)] >= 2),
        ca + 1 < lat.size() ==> (lat.occ(ca + 1, cb as int) ==> g3[(ca + 1) * lat.size() + cb]
            >= 2),
        cb + 1 < lat.size() ==> (lat.occ(ca as int, cb + 1) ==> g4[ca * lat.size() + (cb + 1)]
            >= 2),
        forall|a: (int, int)|
            #![trigger marked(lat.size(), g1)(a)]
            marked(lat.size(), g1)(a) && !marked(lat.size(), g0)(a) ==> in_queue(
                q1,
                q0.len() as int,
                a,
            ),
        forall|a: (int, int)|
            #![trigger marked(lat.size(), g2)(a)]
            marked(lat.size(), g2)(a) && !marked(lat.size(), g1)(a) ==> in_queue(
                q2,
                q1.len() as int,
                a,
            ),
        forall|a: (int, int)|
            #![trigger marked(lat.size(), g3)(a)]
            marked(lat.size(), g3)(a) && !marked(lat.size(), g2)(a) ==> in_queue(
                q3,
                q2.len() as int,
                a,
            ),
        forall|a: (int, int)|
            #![trigger marked(lat.size(), g4)(a)]
            marked(lat.size(), g4)(a) && !marked(lat.size(), g3)(a) ==> in_queue(
                q4,
                q3.len() as int,
                a,
            ),
        forall|a: (int, int), b: (int, int)|
            #![trigger marked(lat.size(), g0)(a), adj(a, b)]
            marked(lat.size(), g0)(a) && adj(a, b) && lat.occ(b.0, b.1) && !marked(
                lat.size(),
                g0,
            )(b) ==> in_queue(q0, head0, a),
    ensures
        forall|k: int| 0 <= k < g0.len() && #[trigger] g0[k] >= 2 ==> g4[k] == g0[k],
        forall|a: (int, int), b: (int, int)|
            #![trigger marked(lat.size(), g4)(a), adj(a, b)]
            marked(lat.size(), g4)(a) && adj(a, b) && lat.occ(b.0, b.1) && !marked(
                lat.size(),
                g4,
            )(b) ==> in_queue(q4, head0 + 1, a),
{
    let ll = lat.size();
    let cur = (ca as int, cb as int);
    assert forall|k: int| 0 <= k < g0.len() && #[trigger] g0[k] >= 2 implies g4[k] == g0[k] by {
        assert(g1[k] == g0[k]);
        assert(g2[k] == g1[k]);
        assert(g3[k] == g2[k]);
    }
    assert forall|b: (int, int)|
        #![trigger adj(cur, b)]
        adj(cur, b) && lat.occ(b.0, b.1) implies marked(ll, g4)(b) by {
        lemma_flat_index(ll, b.0, b.1);
        let kb = b.0 * ll + b.1;
        if b == (cur.0 - 1, cur.1) {
            assert(g1[kb] >= 2);
            assert(g4[kb] >= 2);
        } else if b == (cur.0, cur.1 - 1) {
            assert(g2[kb] >= 2);
            assert(g4[kb] >= 2);
        } else if b == (cur.0 + 1, cur.1) {
            assert(g3[kb] >= 2);
            assert(g4[kb] >= 2);
        } else {
            assert(b == (cur.0, cur.1 + 1));
            assert(g4[kb] >= 2);
        }
    }
    assert forall|a: (int, int)|
        #![trigger marked(ll, g4)(a)]
        marked(ll, g4)(a) && !marked(ll, g0)(a) implies in_queue(q4, head0 + 1, a) by {
        assert(q0.len() >= head0 + 1);
        if marked(ll, g1)(a) && !marked(ll, g0)(a) {
            assert(in_queue(q1, q0.len() as int, a));
            lemma_in_queue_widen(q1, q0.len() as int, head0 + 1, a);
            lemma_in_queue_extend(q1, q2, head0 + 1, a);
            lemma_in_queue_extend(q2, q3, head0 + 1, a);
            lemma_in_queue_extend(q3, q4, head0 + 1, a);
        } else if marked(ll, g2)(a) && !marked(ll, g1)(a) {
            assert(in_queue(q2, q1.len() as int, a));
            lemma_in_queue_widen(q2, q1.len() as int, head0 + 1, a);
            lemma_in_queue_extend(q2, q3, head0 + 1, a);
            lemma_in_queue_extend(q3, q4, head0 + 1, a);
        } else if marked(ll, g3)(a) && !marked(ll, g2)(a) {
            assert(in_queue(q3, q2.len() as int, a));
            lemma_in_queue_widen(q3, q2.len() as int, head0 + 1, a);
            lemma_in_queue_extend(q3, q4, head0 + 1, a);
        } else {
            assert(marked(ll, g4)(a) && !marked(ll, g3)(a));
            assert(in_queue(q4, q3.len() as int, a));
            lemma_in_queue_widen(q4, q3.len() as int, head0 + 1, a);
        }
    }
    lemma_restore_pending_queue(lat, g0, g4, q0, q4, head0, cur);
}

impl PercolationLattice {
    /// One flood-fill step: if the neighbour `(ni, nj)` of the popped
    /// cluster member `cur` is occupied and unvisited, write `label` on it,
    /// push it, and count it.
    fn mark_neighbour(
        &self,
        g: &mut Vec<usize>,
        stack: &mut Vec<(usize, usize)>,
        size: usize,
        ni: usize,
        nj: usize,
        label: usize,
        Ghost(base): Ghost<Seq<usize>>,
        Ghost(start_s): Ghost<(int, int)>,
        Ghost(cur): Ghost<(int, int)>,
    ) -> (new_size: usize)
        requires
            self.wf(),
            label >= 2,
            base.len() == self.size() * self.size(),
            old(g)@.len() == base.len(),
            grid_matches(*self, base),
            grid_matches(*self, old(g)@),
            ni < self.size(),
            nj < self.size(),
            adj(cur, (ni as int, nj as int)),
            connected(*self, start_s, cur),
            forall|k: int|
                0 <= k < base.len() && #[trigger] old(g)@[k] != base[k] ==> base[k] == 1
                    && old(g)@[k] == label && connected(*self, start_s, site_of(self.size(), k)),
            forall|t: int|
                0 <= t < old(stack)@.len() ==> {
                    let s = #[trigger] old(stack)@[t];
                    &&& s.0 < self.size()
                    &&& s.1 < self.size()
                    &&& old(g)@[s.0 * self.size() + s.1] == label
                    &&& base[s.0 * self.size() + s.1] == 1
                },
            size == count_upto(changed_pred(base, old(g)@), base.len() as int),
        ensures
            final(g)@.len() == old(g)@.len(),
            grid_matches(*self, final(g)@),
            ({
                let k2 = ni as int * self.size() + nj as int;
                if old(g)@[k2] == 1 {
                    &&& final(g)@ == old(g)@.update(k2, label)
                    &&& final(stack)@ == old(stack)@.push((ni, nj))
                    &&& new_size == size + 1
                } else {
                    &&& final(g)@ == old(g)@
                    &&& final(stack)@ == old(stack)@
                    &&& new_size == size
                }
            }),
            self.occ(ni as int, nj as int) ==> final(g)@[ni as int * self.size() + nj as int] >= 2,
            forall|k: int|
                0 <= k < base.len() && #[trigger] old(g)@[k] >= 2 ==> final(g)@[k] == old(g)@[k],
            forall|k: int|
                0 <= k < base.len() && #[trigger] final(g)@[k] != base[k] ==> base[k] == 1
                    && final(g)@[k] == label && connected(*self, start_s, site_of(self.size(), k)),
            forall|t: int|
                0 <= t < final(stack)@.len() ==> {
                    let s = #[trigger] final(stack)@[t];
                    &&& s.0 < self.size()
                    &&& s.1 < self.size()
                    &&& final(g)@[s.0 * self.size() + s.1] == label
                    &&& base[s.0 * self.size() + s.1] == 1
                },
            new_size == count_upto(changed_pred(base, final(g)@), base.len() as int),
    {
        let ghost ll = self.size();
        let ghost area = ll * ll;
        proof {
            self.lemma_wf_facts();
            lemma_flat_index(ll, ni as int, nj as int);
            lemma_count_bounds(changed_pred(base, g@), area);
        }
        let l = self.edge_len();
        let k2 = ni * l + nj;
        if g[k2] == 1 {
            proof {
                assert(self.occ(ni as int, nj as int)) by {
                    assert(g@[k2 as int] != 0);
                    lemma_unflat_index(ll, k2 as int);
                }
                lemma_connected_step(*self, start_s, cur, (ni as int, nj as int));
                lemma_count_flip_one(
                    changed_pred(base, g@),
                    changed_pred(base, g@.update(k2 as int, label)),
                    area,
                    k2 as int,
                );
                assert(site_of(ll, k2 as int) == (ni as int, nj as int)) by {
                    lemma_flat_index(ll, ni as int, nj as int);
                }
            }
            g[k2] = label;
            stack.push((ni, nj));
            proof {
                assert forall|k: int|
                    0 <= k < base.len() && #[trigger] g@[k] != base[k] implies base[k] == 1
                        && g@[k] == label && connected(*self, start_s, site_of(ll, k)) by {
                    if k != k2 as int {
                        assert(g@[k] == old(g)@[k]);
                    } else {
                        assert(g@[k] == label);
                        assert(connected(*self, start_s, (ni as int, nj as int)));
                        assert(site_of(ll, k) == (ni as int, nj as int));
                    }
                }
                assert forall|t: int| 0 <= t < stack@.len() implies {
                    let s2 = #[trigger] stack@[t];
                    &&& s2.0 < ll
                    &&& s2.1 < ll
                    &&& g@[s2.0 * ll + s2.1] == label
                    &&& base[s2.0 * ll + s2.1] == 1
                } by {
                    let s2 = stack@[t];
                    if t < stack@.len() - 1 {
                        assert(s2 == old(stack)@[t]);
                        lemma_flat_index(ll, s2.0 as int, s2.1 as int);
                        if s2.0 * ll + s2.1 == k2 as int {
                            assert(old(g)@[k2 as int] == label);
                            assert(false);
                        }
                    } else {
                        assert(s2 == (ni, nj));
                    }
                }
            }
            size + 1
        } else {
            proof {
                if self.occ(ni as int, nj as int) {
                    assert(g@[k2 as int] != 0);
                }
            }
            size
        }
    }

    /// Iterative depth-first flood fill from occupied site `(i, j)` over an
    /// analysis grid: writes `label` on every site of the cluster of
    /// `(i, j)`, touches nothing else, and returns the cluster's size.
    ///
    /// The grid's marked set must be adjacency-closed on entry (it is a
    /// union of complete clusters); it is again on return.
    #[verifier::rlimit(100)]
    pub fn dfs(&self, g: &mut Vec<usize>, i: usize, j: usize, label: usize) -> (size: usize)
        requires
            self.wf(),
            grid_matches(*self, old(g)@),
            closed_under_adj(*self, marked(self.size(), old(g)@)),
            label >= 2,
            i < self.size(),
            j < self.size(),
            old(g)@[i as int * self.size() + j as int] == 1,
        ensures
            grid_matches(*self, final(g)@),
            closed_under_adj(*self, marked(self.size(), final(g)@)),
            forall|k: int|
                0 <= k < old(g)@.len() ==> final(g)@[k] == if connected(
                    *self,
                    (i as int, j as int),
                    site_of(self.size(), k),
                ) {
                    label
                } else {
                    old(g)@[k]
                },
            forall|k: int|
                0 <= k < old(g)@.len() && connected(
                    *self,
                    (i as int, j as int),
                    site_of(self.size(), k),
                ) ==> old(g)@[k] == 1,
            size == comp_size(*self, (i as int, j as int)),
    {
        let ghost ll = self.size();
        let ghost area = ll * ll;
        let ghost base = old(g)@;
        let ghost start_s = (i as int, j as int);
        proof {
            self.lemma_wf_facts();
            lemma_flat_index(ll, i as int, j as int);
            lemma_connected_refl(*self, start_s);
            assert(self.occ(i as int, j as int)) by {
                assert(base[i as int * ll + j as int] != 0);
                lemma_unflat_index(ll, i as int * ll + j as int);
            }
        }
        let l = self.edge_len();
        let start_k = i * l + j;
        let mut size: usize = 1;
        let mut stack: Vec<(usize, usize)> = Vec::new();
        g[start_k] = label;
        stack.push((i, j));
        proof {
            lemma_count_flip_one(
                changed_pred(base, base),
                changed_pred(base, g@),
                area,
                start_k as int,
            );
            crate::count::lemma_count_none(changed_pred(base, base), area);
            assert(site_of(ll, start_k as int) == start_s);
            assert forall|a: (int, int), b: (int, int)|
                marked(ll, g@)(a) && adj(a, b) && self.occ(b.0, b.1) && !marked(ll, g@)(b)
                    implies in_stack(stack@, a) by {
                lemma_flat_index(ll, a.0, a.1);
                lemma_flat_index(ll, b.0, b.1);
                if a.0 == i as int && a.1 == j as int {
                    assert(stack@[0] == (i, j));
                } else {
                    assert(marked(ll, base)(a));
                    assert(marked(ll, base)(b));
                    assert(false);
                }
            }
        }
        while stack.len() > 0
            invariant
                self.wf(),
                label >= 2,
                ll == self.size(),
                ll >= 1,
                area == ll * ll,
                area + 2 <= usize::MAX,
                l == ll,
                base.len() == area,
                g@.len() == area,
                grid_matches(*self, base),
                grid_matches(*self, g@),
                closed_under_adj(*self, marked(ll, base)),
                self.occ(start_s.0, start_s.1),
                start_s == (i as int, j as int),
                base[start_s.0 * ll + start_s.1] == 1,
                g@[start_s.0 * ll + start_s.1] == label,
                forall|k: int|
                    0 <= k < area && #[trigger] g@[k] != base[k] ==> base[k] == 1 && g@[k] == label
                        && connected(*self, start_s, site_of(ll, k)),
                forall|t: int|
                    0 <= t < stack@.len() ==> {
                        let s = #[trigger] stack@[t];
                        &&& s.0 < ll
                        &&& s.1 < ll
                        &&& g@[s.0 * ll + s.1] == label
                        &&& base[s.0 * ll + s.1] == 1
                    },
                forall|a: (int, int), b: (int, int)|
                    #![trigger marked(ll, g@)(a), adj(a, b)]
                    marked(ll, g@)(a) && adj(a, b) && self.occ(b.0, b.1) && !marked(ll, g@)(b)
                        ==> in_stack(stack@, a),
                size == count_upto(changed_pred(base, g@), area),
            decreases area - count_upto(changed_pred(base, g@), area), stack@.len(),
        {
            let ghost g0 = g@;
            let ghost stp = stack@;
            proof {
                lemma_count_bounds(changed_pred(base, g@), area);
                lemma_flat_index(ll, start_s.0, start_s.1);
            }
            let top = stack.pop().unwrap();
            let ca = top.0;
            let cb = top.1;
            let ghost cur = (ca as int, cb as int);
            let ghost st0 = stack@;
            proof {
                lemma_flat_index(ll, cur.0, cur.1);
                assert(g0[cur.0 * ll + cur.1] != base[cur.0 * ll + cur.1]);
                assert(site_of(ll, cur.0 * ll + cur.1) == cur);
                assert(connected(*self, start_s, cur));
            }
            if ca > 0 {
                size = self.mark_neighbour(
                    g,
                    &mut stack,
                    size,
                    ca - 1,
                    cb,
                    label,
                    Ghost(base),
                    Ghost(start_s),
                    Ghost(cur),
                );
            }
            let ghost g1 = g@;
            let ghost st1 = stack@;
            if cb > 0 {
                size = self.mark_neighbour(
                    g,
                    &mut stack,
                    size,
                    ca,
                    cb - 1,
                    label,
                    Ghost(base),
                    Ghost(start_s),
                    Ghost(cur),
                );
            }
            let ghost g2 = g@;
            let ghost st2 = stack@;
            if ca + 1 < l {
                size = self.mark_neighbour(
                    g,
                    &mut stack,
                    size,
                    ca + 1,
                    cb,
                    label,
                    Ghost(base),
                    Ghost(start_s),
                    Ghost(cur),
                );
            }
            let ghost g3 = g@;
            let ghost st3 = stack@;
            if cb + 1 < l {
                size = self.mark_neighbour(
                    g,
                    &mut stack,
                    size,
                    ca,
                    cb + 1,
                    label,
                    Ghost(base),
                    Ghost(start_s),
                    Ghost(cur),
                );
            }
            proof {
                assert(g1 == g0 || (ca > 0 && g1 == g0.update((cur.0 - 1) * ll + cur.1, label)));
                assert(st1 == st0 || (ca > 0 && st1 == st0.push(((ca - 1) as usize, cb))));
                assert(g2 == g1 || (cb > 0 && g2 == g1.update(cur.0 * ll + (cur.1 - 1), label)));
                assert(st2 == st1 || (cb > 0 && st2 == st1.push((ca, (cb - 1) as usize))));
                assert(g3 == g2 || (ca + 1 < l && g3 == g2.update((cur.0 + 1) * ll + cur.1, label)));
                assert(st3 == st2 || (ca + 1 < l && st3 == st2.push(((ca + 1) as usize, cb))));
                assert(g@ == g3 || (cb + 1 < l && g@ == g3.update(cur.0 * ll + (cur.1 + 1), label)));
                assert(stack@ == st3 || (cb + 1 < l && stack@ == st3.push((ca, (cb + 1) as usize))));
                // marks only grow across the four steps
                assert forall|k: int| 0 <= k < area && #[trigger] g0[k] >= 2 implies g@[k] == g0[k] by {
                    assert(g1[k] == g0[k]);
                    assert(g2[k] == g1[k]);
                    assert(g3[k] == g2[k]);
                }
                // every occupied neighbour of the popped site is marked now
                assert forall|b: (int, int)|
                    #![trigger adj(cur, b)]
                    adj(cur, b) && self.occ(b.0, b.1) implies marked(ll, g@)(b) by {
                    lemma_flat_index(ll, b.0, b.1);
                    let kb = b.0 * ll + b.1;
                    if b == (cur.0 - 1, cur.1) {
                        assert(g1[kb] >= 2);
                        assert(g@[kb] >= 2);
                    } else if b == (cur.0, cur.1 - 1) {
                        assert(g2[kb] >= 2);
                        assert(g@[kb] >= 2);
                    } else if b == (cur.0 + 1, cur.1) {
                        assert(g3[kb] >= 2);
                        assert(g@[kb] >= 2);
                    } else {
                        assert(b == (cur.0, cur.1 + 1));
                        assert(g@[kb] >= 2);
                    }
                }
                // every site marked in this round was pushed
                assert forall|a: (int, int)|
                    #![trigger marked(ll, g@)(a)]
                    marked(ll, g@)(a) && !marked(ll, g0)(a) implies in_stack(stack@, a) by {
                    lemma_flat_index(ll, a.0, a.1);
                    let ka = a.0 * ll + a.1;
                    assert(g@[ka] != g0[ka]);
                    if g1[ka] != g0[ka] {
                        lemma_flat_index(ll, cur.0 - 1, cur.1);
                        assert(a == (cur.0 - 1, cur.1));
                        assert(st1[st1.len() - 1] == ((ca - 1) as usize, cb));
                        assert(in_stack(st1, a));
                        if st2 != st1 {
                            lemma_in_stack_push(st1, a, (ca, (cb - 1) as usize));
                        }
                        assert(in_stack(st2, a));
                        if st3 != st2 {
                            lemma_in_stack_push(st2, a, ((ca + 1) as usize, cb));
                        }
                        assert(in_stack(st3, a));
                        if stack@ != st3 {
                            lemma_in_stack_push(st3, a, (ca, (cb + 1) as usize));
                        }
                        assert(in_stack(stack@, a));
                    } else if g2[ka] != g1[ka] {
                        lemma_flat_index(ll, cur.0, cur.1 - 1);
                        assert(a == (cur.0, cur.1 - 1));
                        assert(st2[st2.len() - 1] == (ca, (cb - 1) as usize));
                        assert(in_stack(st2, a));
                        if st3 != st2 {
                            lemma_in_stack_push(st2, a, ((ca + 1) as usize, cb));
                        }
                        assert(in_stack(st3, a));
                        if stack@ != st3 {
                            lemma_in_stack_push(st3, a, (ca, (cb + 1) as usize));
                        }
                        assert(in_stack(stack@, a));
                    } else if g3[ka] != g2[ka] {
                        lemma_flat_index(ll, cur.0 + 1, cur.1);
                        assert(a == (cur.0 + 1, cur.1));
                        assert(st3[st3.len() - 1] == ((ca + 1) as usize, cb));
                        assert(in_stack(st3, a));
                        if stack@ != st3 {
                            lemma_in_stack_push(st3, a, (ca, (cb + 1) as usize));
                        }
                        assert(in_stack(stack@, a));
                    } else {
                        assert(g@[ka] != g3[ka]);
                        lemma_flat_index(ll, cur.0, cur.1 + 1);
                        assert(a == (cur.0, cur.1 + 1));
                        assert(stack@[stack@.len() - 1] == (ca, (cb + 1) as usize));
                        assert(in_stack(stack@, a));
                    }
                }
                lemma_restore_pending(*self, g0, g@, stp, stack@, cur);
                // termination: a mark shrinks the unmarked count, a bare pop
                // shrinks the worklist
                let c0 = count_upto(changed_pred(base, g0), area);
                let c1 = count_upto(changed_pred(base, g1), area);
                let c2 = count_upto(changed_pred(base, g2), area);
                let c3 = count_upto(changed_pred(base, g3), area);
                let c4 = count_upto(changed_pred(base, g@), area);
                lemma_count_bounds(changed_pred(base, g@), area);
                if c4 == c0 {
                    assert(c1 == c0 || c1 == c0 + 1);
                    assert(c2 == c1 || c2 == c1 + 1);
                    assert(c3 == c2 || c3 == c2 + 1);
                    assert(c4 == c3 || c4 == c3 + 1);
                    assert(st1 == st0 && st2 == st1 && st3 == st2 && stack@ == st3);
                    assert(stack@.len() < stp.len());
                }
            }
        }
        proof {
            let m = marked(ll, g@);
            let mb = marked(ll, base);
            assert forall|a: (int, int), b: (int, int)|
                #![trigger m(a), adj(a, b)]
                m(a) && adj(a, b) && self.occ(b.0, b.1) implies m(b) by {
                if !m(b) {
                    assert(in_stack(stack@, a));
                    assert(false);
                }
            }
            assert(m(start_s));
            // a position changed exactly when it lies in the start's cluster
            assert forall|k: int| 0 <= k < area implies #[trigger] g@[k] == if connected(
                *self,
                start_s,
                site_of(ll, k),
            ) {
                label
            } else {
                base[k]
            } by {
                lemma_unflat_index(ll, k);
                if connected(*self, start_s, site_of(ll, k)) {
                    lemma_closed_reaches(*self, m, start_s, site_of(ll, k));
                    assert(g@[k] >= 2);
                    if g@[k] == base[k] {
                        // an already-marked site cannot lie in this cluster
                        lemma_connected_sym(*self, start_s, site_of(ll, k));
                        lemma_closed_reaches(*self, mb, site_of(ll, k), start_s);
                        assert(false);
                    }
                }
            }
            assert forall|k: int| 0 <= k < area implies (#[trigger] changed_pred(base, g@)(k)
                <==> comp_pred(*self, start_s)(k)) by {
                lemma_unflat_index(ll, k);
                assert(g@[k] == if connected(*self, start_s, site_of(ll, k)) {
                    label
                } else {
                    base[k]
                });
                if changed_pred(base, g@)(k) && !comp_pred(*self, start_s)(k) {
                    assert(false);
                }
                if comp_pred(*self, start_s)(k) && !changed_pred(base, g@)(k) {
                    assert(g@[k] == label && g@[k] == base[k]);
                    assert(base[k] == 1) by {
                        assert(!(g@[k] == 0));
                        if base[k] >= 2 {
                            lemma_connected_sym(*self, start_s, site_of(ll, k));
                            lemma_closed_reaches(*self, mb, site_of(ll, k), start_s);
                            assert(false);
                        }
                    }
                    assert(false);
                }
            }
            lemma_count_pointwise_eq(changed_pred(base, g@), comp_pred(*self, start_s), area);
            assert forall|k: int|
                0 <= k < area && connected(*self, start_s, site_of(ll, k)) implies base[k]
                == 1 by {
                assert(comp_pred(*self, start_s)(k));
                assert(changed_pred(base, g@)(k));
            }
        }
        size
    }

    /// The size of the largest connected cluster, found by flooding each
    /// unvisited occupied site in a row-major scan over a private copy of
    /// the occupancy (the cross-check companion of the cluster labeling).
    #[verifier::rlimit(100)]
    pub fn max_cluster_size(&self) -> (r: usize)
        requires
            self.wf(),
        ensures
            r == max_component_size(*self),
    {
        let ghost ll = self.size();
        let ghost area = ll * ll;
        proof {
            self.lemma_wf_facts();
        }
        let l = self.edge_len();
        let n = l * l;
        let mut g = self.occupancy_grid();
        let mut r: usize = 0;
        let mut k: usize = 0;
        proof {
            assert forall|a: (int, int), b: (int, int)|
                #![trigger marked(ll, g@)(a), adj(a, b)]
                marked(ll, g@)(a) && adj(a, b) && self.occ(b.0, b.1) implies marked(ll, g@)(b) by {
                lemma_flat_index(ll, a.0, a.1);
                assert(g@[a.0 * ll + a.1] <= 1);
                assert(false);
            }
            assert forall|a: (int, int)| #![trigger marked(ll, g@)(a)] marked(ll, g@)(a)
                implies comp_size(*self, a) <= 0 by {
                lemma_flat_index(ll, a.0, a.1);
                assert(g@[a.0 * ll + a.1] <= 1);
                assert(false);
            }
        }
        while k < n
            invariant
                self.wf(),
                ll == self.size(),
                ll >= 1,
                area == ll * ll,
                area + 2 <= usize::MAX,
                l == ll,
                n == area,
                k <= n,
                g@.len() == area,
                grid_matches(*self, g@),
                closed_under_adj(*self, marked(ll, g@)),
                // visited sites are exactly those joined to a scanned occupied site
                forall|t: int|
                    0 <= t < area ==> ((#[trigger] g@[t] >= 2) <==> scanned_reach(
                        *self,
                        k as int,
                        t,
                    )),
                r == max_comp_upto(*self, k as int),
                forall|a: (int, int)|
                    #![trigger marked(ll, g@)(a)]
                    marked(ll, g@)(a) ==> comp_size(*self, a) <= r,
            decreases n - k,
        {
            let ghost gp = g@;
            proof {
                lemma_unflat_index(ll, k as int);
            }
            if g[k] == 1 {
                let ki = k / l;
                let kj = k % l;
                let ghost ks = site_of(ll, k as int);
                proof {
                    assert(self.occ_at(k as int)) by {
                        assert(g@[k as int] != 0);
                    }
                    assert(ks == (ki as int, kj as int));
                }
                let sz = self.dfs(&mut g, ki, kj, 2);
                if sz > r {
                    r = sz;
                }
                proof {
                    lemma_comp_size_bounds(*self, ks);
                    // the new visited set is the old one plus this cluster
                    assert forall|t: int| 0 <= t < area implies ((#[trigger] g@[t] >= 2)
                        <==> scanned_reach(*self, k as int + 1, t)) by {
                        lemma_unflat_index(ll, t);
                        if g@[t] >= 2 {
                            if connected(*self, ks, site_of(ll, t)) {
                                assert(self.occ_at(k as int) && connected(
                                    *self,
                                    site_of(ll, k as int),
                                    site_of(ll, t),
                                ));
                                assert(scanned_reach(*self, k as int + 1, t));
                            } else {
                                assert(g@[t] == gp[t]);
                                assert(scanned_reach(*self, k as int, t));
                                let k2 = choose|k2: int|
                                    0 <= k2 < k && #[trigger] self.occ_at(k2) && connected(
                                        *self,
                                        site_of(ll, k2),
                                        site_of(ll, t),
                                    );
                                assert(0 <= k2 < k + 1 && self.occ_at(k2) && connected(
                                    *self,
                                    site_of(ll, k2),
                                    site_of(ll, t),
                                ));
                                assert(scanned_reach(*self, k as int + 1, t));
                            }
                        } else {
                            assert(gp[t] < 2);
                            if scanned_reach(*self, k as int + 1, t) {
                                let k2 = choose|k2: int|
                                    0 <= k2 < k + 1 && #[trigger] self.occ_at(k2) && connected(
                                        *self,
                                        site_of(ll, k2),
                                        site_of(ll, t),
                                    );
                                if k2 < k {
                                    assert(scanned_reach(*self, k as int, t));
                                    assert(gp[t] >= 2);
                                } else {
                                    assert(site_of(ll, k2) == ks);
                                    assert(g@[t] == 2);
                                }
                                assert(false);
                            }
                        }
                    }
                    // every visited site's cluster is no larger than the maximum
                    assert forall|a: (int, int)| marked(ll, g@)(a) implies comp_size(*self, a)
                        <= r by {
                        lemma_flat_index(ll, a.0, a.1);
                        let ka = a.0 * ll + a.1;
                        if g@[ka] != gp[ka] {
                            assert(connected(*self, ks, site_of(ll, ka)));
                            assert(site_of(ll, ka) == a);
                            lemma_comp_size_eq(*self, ks, a);
                        } else {
                            assert(marked(ll, gp)(a));
                        }
                    }
                    assert(r == max_comp_upto(*self, k as int + 1));
                }
            } else {
                proof {
                    if g@[k as int] == 0 {
                        assert(!self.occ_at(k as int));
                    } else {
                        assert(g@[k as int] >= 2);
                        lemma_marked_at(ll, g@, k as int);
                        assert(marked(ll, g@)(site_of(ll, k as int)));
                        assert(comp_size(*self, site_of(ll, k as int)) <= r);
                    }
                    assert(r == max_comp_upto(*self, k as int + 1));
                    // the visited set is unchanged; only the scan bound widens
                    assert forall|t: int| 0 <= t < area implies ((#[trigger] g@[t] >= 2)
                        <==> scanned_reach(*self, k as int + 1, t)) by {
                        lemma_unflat_index(ll, t);
                        if g@[t] >= 2 {
                            assert(scanned_reach(*self, k as int, t));
                            let k2 = choose|k2: int|
                                0 <= k2 < k && #[trigger] self.occ_at(k2) && connected(
                                    *self,
                                    site_of(ll, k2),
                                    site_of(ll, t),
                                );
                            assert(0 <= k2 < k + 1 && self.occ_at(k2) && connected(
                                *self,
                                site_of(ll, k2),
                                site_of(ll, t),
                            ));
                            assert(scanned_reach(*self, k as int + 1, t));
                        } else {
                            if scanned_reach(*self, k as int + 1, t) {
                                let k2 = choose|k2: int|
                                    0 <= k2 < k + 1 && #[trigger] self.occ_at(k2) && connected(
                                        *self,
                                        site_of(ll, k2),
                                        site_of(ll, t),
                                    );
                                if k2 < k {
                                    assert(scanned_reach(*self, k as int, t));
                                } else {
                                    assert(self.occ_at(k as int));
                                    assert(g@[k as int] >= 2);
                                    lemma_marked_at(ll, g@, k as int);
                                    lemma_closed_reaches(
                                        *self,
                                        marked(ll, g@),
                                        site_of(ll, k as int),
                                        site_of(ll, t),
                                    );
                                    lemma_marked_at(ll, g@, t);
                                }
                                assert(false);
                            }
                        }
                    }
                }
            }
            k = k + 1;
        }
        r
    }

    /// One burning step: if the neighbour `(ni, nj)` of the burning site
    /// `cur` is occupied and unburnt, it catches fire in round `round` and
    /// joins the worklist.
    fn burn_neighbour(
        &self,
        g: &mut Vec<usize>,
        queue: &mut Vec<(usize, usize)>,
        ni: usize,
        nj: usize,
        round: usize,
        Ghost(base): Ghost<Seq<usize>>,
        Ghost(cur): Ghost<(int, int)>,
    )
        requires
            self.wf(),
            base.len() == self.size() * self.size(),
            old(g)@.len() == base.len(),
            grid_matches(*self, base),
            grid_matches(*self, old(g)@),
            ni < self.size(),
            nj < self.size(),
            adj(cur, (ni as int, nj as int)),
            reach0(*self, cur),
            forall|k: int| 0 <= k < base.len() ==> #[trigger] base[k] <= 1,
            round <= 2 + count_upto(changed_pred(base, old(g)@), base.len() as int),
            round >= 2,
            0 <= cur.0 < self.size(),
            0 <= cur.1 < self.size(),
            old(g)@[cur.0 * self.size() + cur.1] >= 2,
            round == old(g)@[cur.0 * self.size() + cur.1] + 1,
            forall|k: int|
                0 <= k < base.len() && #[trigger] old(g)@[k] > 2 ==> has_burn_parent(
                    *self,
                    old(g)@,
                    k,
                ),
            forall|k: int|
                0 <= k < base.len() && #[trigger] old(g)@[k] != base[k] ==> base[k] == 1
                    && old(g)@[k] >= 2 && reach0(*self, site_of(self.size(), k)),
            forall|k: int|
                0 <= k < base.len() && #[trigger] old(g)@[k] >= 2 ==> old(g)@[k] <= 1 + count_upto(
                    changed_pred(base, old(g)@),
                    base.len() as int,
                ),
            forall|t: int|
                0 <= t < old(queue)@.len() ==> {
                    let s = #[trigger] old(queue)@[t];
                    &&& s.0 < self.size()
                    &&& s.1 < self.size()
                    &&& old(g)@[s.0 * self.size() + s.1] >= 2
                },
        ensures
            final(g)@.len() == old(g)@.len(),
            grid_matches(*self, final(g)@),
            ({
                let k2 = ni as int * self.size() + nj as int;
                if old(g)@[k2] == 1 {
                    &&& final(g)@ == old(g)@.update(k2, round)
                    &&& final(queue)@ == old(queue)@.push((ni, nj))
                } else {
                    &&& final(g)@ == old(g)@
                    &&& final(queue)@ == old(queue)@
                }
            }),
            self.occ(ni as int, nj as int) ==> final(g)@[ni as int * self.size() + nj as int] >= 2,
            forall|k: int|
                0 <= k < base.len() && #[trigger] old(g)@[k] >= 2 ==> final(g)@[k] == old(g)@[k],
            forall|k: int|
                0 <= k < base.len() && #[trigger] final(g)@[k] != base[k] ==> base[k] == 1
                    && final(g)@[k] >= 2 && reach0(*self, site_of(self.size(), k)),
            forall|k: int|
                0 <= k < base.len() && #[trigger] final(g)@[k] >= 2 ==> final(g)@[k] <= 1
                    + count_upto(changed_pred(base, final(g)@), base.len() as int),
            forall|t: int|
                0 <= t < final(queue)@.len() ==> {
                    let s = #[trigger] final(queue)@[t];
                    &&& s.0 < self.size()
                    &&& s.1 < self.size()
                    &&& final(g)@[s.0 * self.size() + s.1] >= 2
                },
            forall|k: int|
                0 <= k < base.len() && #[trigger] final(g)@[k] > 2 ==> has_burn_parent(
                    *self,
                    final(g)@,
                    k,
                ),
            count_upto(changed_pred(base, final(g)@), base.len() as int) >= count_upto(
                changed_pred(base, old(g)@),
                base.len() as int,
            ),
            (final(g)@ == old(g)@ && final(queue)@ == old(queue)@) || count_upto(
                changed_pred(base, final(g)@),
                base.len() as int,
            ) == count_upto(changed_pred(base, old(g)@), base.len() as int) + 1,
            final(queue)@.len() >= old(queue)@.len(),
            forall|t: int| 0 <= t < old(queue)@.len() ==> #[trigger] final(queue)@[t] == old(
                queue,
            )@[t],
            forall|a: (int, int)|
                #![trigger marked(self.size(), final(g)@)(a)]
                marked(self.size(), final(g)@)(a) && !marked(self.size(), old(g)@)(a) ==> in_queue(
                    final(queue)@,
                    old(queue)@.len() as int,
                    a,
                ),
    {
        let ghost ll = self.size();
        let ghost area = ll * ll;
        proof {
            self.lemma_wf_facts();
            lemma_flat_index(ll, ni as int, nj as int);
            lemma_count_bounds(changed_pred(base, g@), area);
        }
        let l = self.edge_len();
        let k2 = ni * l + nj;
        if g[k2] == 1 {
            proof {
                assert(self.occ(ni as int, nj as int)) by {
                    assert(g@[k2 as int] != 0);
                    lemma_unflat_index(ll, k2 as int);
                }
                let j0 = choose|j0: int| #[trigger] connected(*self, (0int, j0), cur);
                lemma_connected_step(*self, (0int, j0), cur, (ni as int, nj as int));
                assert(reach0(*self, (ni as int, nj as int)));
                lemma_count_flip_one(
                    changed_pred(base, g@),
                    changed_pred(base, g@.update(k2 as int, round)),
                    area,
                    k2 as int,
                );
                assert(site_of(ll, k2 as int) == (ni as int, nj as int)) by {
                    lemma_flat_index(ll, ni as int, nj as int);
                }
            }
            g[k2] = round;
            queue.push((ni, nj));
            proof {
                assert forall|k: int|
                    0 <= k < base.len() && #[trigger] g@[k] != base[k] implies base[k] == 1
                        && g@[k] >= 2 && reach0(*self, site_of(ll, k)) by {
                    if k != k2 as int {
                        assert(g@[k] == old(g)@[k]);
                    }
                }
                assert forall|k: int|
                    0 <= k < base.len() && #[trigger] g@[k] >= 2 implies g@[k] <= 1 + count_upto(
                    changed_pred(base, g@),
                    area,
                ) by {
                    if k != k2 as int {
                        assert(g@[k] == old(g)@[k]);
                    }
                }
                assert forall|t: int| 0 <= t < queue@.len() implies {
                    let s2 = #[trigger] queue@[t];
                    &&& s2.0 < ll
                    &&& s2.1 < ll
                    &&& g@[s2.0 * ll + s2.1] >= 2
                } by {
                    let s2 = queue@[t];
                    if t < queue@.len() - 1 {
                        assert(s2 == old(queue)@[t]);
                        lemma_flat_index(ll, s2.0 as int, s2.1 as int);
                        if s2.0 * ll + s2.1 == k2 as int {
                            assert(old(g)@[k2 as int] >= 2);
                            assert(false);
                        }
                    } else {
                        assert(s2 == (ni, nj));
                    }
                }
                assert forall|a: (int, int)|
                    #![trigger marked(ll, g@)(a)]
                    marked(ll, g@)(a) && !marked(ll, old(g)@)(a) implies in_queue(
                    queue@,
                    old(queue)@.len() as int,
                    a,
                ) by {
                    lemma_flat_index(ll, a.0, a.1);
                    assert(g@[a.0 * ll + a.1] != old(g)@[a.0 * ll + a.1]);
                    assert(a.0 * ll + a.1 == k2 as int);
                    assert(a == (ni as int, nj as int));
                    assert(queue@[queue@.len() - 1] == (ni, nj));
                }
                let kc = cur.0 * ll + cur.1;
                lemma_flat_index(ll, cur.0, cur.1);
                assert forall|k: int| 0 <= k < base.len() && #[trigger] g@[k] > 2
                    implies has_burn_parent(*self, g@, k) by {
                    if k == k2 as int {
                        // the newly burnt site caught fire from `cur`
                        assert(kc != k2 as int);
                        assert(g@[kc] + 1 == g@[k]);
                        assert(adj(site_of(ll, k2 as int), cur));
                        assert(has_burn_parent(*self, g@, k));
                    } else {
                        assert(g@[k] == old(g)@[k]);
                        assert(has_burn_parent(*self, old(g)@, k));
                        let b = choose|b: (int, int)|
                            0 <= b.0 < ll && 0 <= b.1 < ll && adj(site_of(ll, k), b)
                                && #[trigger] old(g)@[b.0 * ll + b.1] + 1 == old(g)@[k];
                        // the parent already burnt, so its round is unchanged
                        assert(old(g)@[b.0 * ll + b.1] >= 2);
                        lemma_flat_index(ll, b.0, b.1);
                        assert(b.0 * ll + b.1 != k2 as int);
                        assert(g@[b.0 * ll + b.1] + 1 == g@[k]);
                        assert(has_burn_parent(*self, g@, k));
                    }
                }
            }
        } else {
            proof {
                if self.occ(ni as int, nj as int) {
                    assert(g@[k2 as int] != 0);
                }
            }
        }
    }

    /// One round of the burning pass: lets the pending site at the
    /// worklist head spread fire to its occupied unburnt neighbours.
    #[verifier::rlimit(100)]
    fn burn_site(
        &self,
        g: &mut Vec<usize>,
        queue: &mut Vec<(usize, usize)>,
        head: usize,
        Ghost(base): Ghost<Seq<usize>>,
    )
        requires
            self.wf(),
            burn_state_ok(*self, base, old(g)@, old(queue)@, head as int),
            head < old(queue)@.len(),
        ensures
            final(g)@.len() == old(g)@.len(),
            final(queue)@.len() >= old(queue)@.len(),
            burn_state_ok(*self, base, final(g)@, final(queue)@, head as int + 1),
            count_upto(changed_pred(base, final(g)@), base.len() as int) >= count_upto(
                changed_pred(base, old(g)@),
                base.len() as int,
            ),
            count_upto(changed_pred(base, final(g)@), base.len() as int) == count_upto(
                changed_pred(base, old(g)@),
                base.len() as int,
            ) ==> final(queue)@ == old(queue)@ && final(g)@ == old(g)@,
    {
        let ghost ll = self.size();
        let ghost area = ll * ll;
        let ghost g0 = old(g)@;
        let ghost q0 = old(queue)@;
        let ghost head0 = head as int;
        proof {
            self.lemma_wf_facts();
            lemma_count_bounds(changed_pred(base, g@), area);
        }
        let l = self.edge_len();
        let top = queue[head];
        let ca = top.0;
        let cb = top.1;
        let ghost cur = (ca as int, cb as int);
        proof {
            lemma_flat_index(ll, cur.0, cur.1);
            assert(g@[cur.0 * ll + cur.1] >= 2);
            assert(g@[cur.0 * ll + cur.1] != base[cur.0 * ll + cur.1]);
            assert(site_of(ll, cur.0 * ll + cur.1) == cur);
            assert(reach0(*self, cur));
        }
        proof {
            assert(g@[cur.0 * ll + cur.1] <= 1 + count_upto(changed_pred(base, g@), area));
        }
        let round = g[ca * l + cb] + 1;
        if ca > 0 {
            self.burn_neighbour(&mut *g, &mut *queue, ca - 1, cb, round, Ghost(base), Ghost(cur));
        }
        let ghost g1 = g@;
        let ghost q1 = queue@;
        proof {
            assert(g@[cur.0 * ll + cur.1] == g0[cur.0 * ll + cur.1]);
        }
        if cb > 0 {
            self.burn_neighbour(&mut *g, &mut *queue, ca, cb - 1, round, Ghost(base), Ghost(cur));
        }
        let ghost g2 = g@;
        let ghost q2 = queue@;
        proof {
            assert(g@[cur.0 * ll + cur.1] == g0[cur.0 * ll + cur.1]);
        }
        if ca + 1 < l {
            self.burn_neighbour(&mut *g, &mut *queue, ca + 1, cb, round, Ghost(base), Ghost(cur));
        }
        let ghost g3 = g@;
        let ghost q3 = queue@;
        proof {
            assert(g@[cur.0 * ll + cur.1] == g0[cur.0 * ll + cur.1]);
        }
        if cb + 1 < l {
            self.burn_neighbour(&mut *g, &mut *queue, ca, cb + 1, round, Ghost(base), Ghost(cur));
        }
        proof {
            lemma_burn_round(
                *self,
                g0,
                g1,
                g2,
                g3,
                g@,
                q0,
                q1,
                q2,
                q3,
                queue@,
                head0,
                ca,
                cb,
            );
            assert forall|j2: int| 0 <= j2 < ll && self.occ(0, j2) implies g@[j2] == 2 by {
                lemma_flat_index(ll, 0, j2);
                assert(g0[j2] == 2);
            }
            lemma_count_bounds(changed_pred(base, g@), area);
            let c0 = count_upto(changed_pred(base, g0), area);
            let c1 = count_upto(changed_pred(base, g1), area);
            let c2 = count_upto(changed_pred(base, g2), area);
            let c3 = count_upto(changed_pred(base, g3), area);
            let c4 = count_upto(changed_pred(base, g@), area);
            if c4 == c0 {
                assert(c1 == c0 || c1 == c0 + 1);
                assert(c2 == c1 || c2 == c1 + 1);
                assert(c3 == c2 || c3 == c2 + 1);
                assert(c4 == c3 || c4 == c3 + 1);
                assert(q1 == q0 && q2 == q1 && q3 == q2 && queue@ == q3);
                assert(g1 == g0 && g2 == g1 && g3 == g2 && g@ == g3);
            }
        }
    }

    /// Spanning detection by the burning method: every occupied top-row
    /// site is set alight in round 2, and a worklist spreads the fire
    /// round by round to the occupied neighbours of burning sites; the
    /// lattice spans exactly when the fire reaches the bottom row.
    /// Returns the verdict together with the burnt analysis grid: 0 on
    /// empty sites, 1 on occupied sites the fire never reached, and the
    /// burn round (2 or more) on burnt sites.
    #[verifier::rlimit(100)]
    pub fn burning_method(&self) -> (r: (bool, Vec<usize>))
        requires
            self.wf(),
        ensures
            r.1@.len() == self.size() * self.size(),
            forall|k: int| 0 <= k < r.1@.len() ==> ((#[trigger] r.1@[k] == 0) <==> !self.occ_at(k)),
            forall|k: int|
                0 <= k < r.1@.len() ==> ((#[trigger] r.1@[k] >= 2) <==> reach0(
                    *self,
                    site_of(self.size(), k),
                )),
            forall|j: int| 0 <= j < self.size() && self.occ(0, j) ==> #[trigger] r.1@[j] == 2,
            forall|k: int|
                0 <= k < r.1@.len() && #[trigger] r.1@[k] > 2 ==> has_burn_parent(*self, r.1@, k),
            r.0 == lat_spans(*self),
    {
        let ghost ll = self.size();
        let ghost area = ll * ll;
        proof {
            self.lemma_wf_facts();
        }
        let l = self.edge_len();
        let mut g = self.occupancy_grid();
        let ghost base = g@;
        let mut queue: Vec<(usize, usize)> = Vec::new();
        let mut j: usize = 0;
        proof {
            crate::count::lemma_count_none(changed_pred(base, g@), area);
            assert forall|a: (int, int)| #![trigger marked(ll, g@)(a)] marked(ll, g@)(a)
                implies in_queue(queue@, 0, a) by {
                lemma_flat_index(ll, a.0, a.1);
                assert(g@[a.0 * ll + a.1] <= 1);
                assert(false);
            }
        }
        while j < l
            invariant
                self.wf(),
                ll == self.size(),
                ll >= 1,
                area == ll * ll,
                area + 2 <= usize::MAX,
                l == ll,
                j <= l,
                g@.len() == area,
                base.len() == area,
                grid_matches(*self, base),
                grid_matches(*self, g@),
                forall|k: int| 0 <= k < area ==> #[trigger] base[k] <= 1,
                forall|k: int|
                    0 <= k < area && #[trigger] g@[k] != base[k] ==> base[k] == 1 && g@[k] == 2
                        && reach0(*self, site_of(ll, k)),
                forall|k: int| 0 <= k < j ==> ((#[trigger] g@[k] >= 2) <==> self.occ_at(k)),
                forall|k: int| j <= k < area ==> #[trigger] g@[k] == base[k],
                forall|t: int|
                    0 <= t < queue@.len() ==> {
                        let s = #[trigger] queue@[t];
                        &&& s.0 < ll
                        &&& s.1 < ll
                        &&& g@[s.0 * ll + s.1] >= 2
                    },
                forall|a: (int, int)|
                    #![trigger marked(ll, g@)(a)]
                    marked(ll, g@)(a) ==> in_queue(queue@, 0, a),
            decreases l - j,
        {
            proof {
                lemma_flat_index(ll, 0, j as int);
                assert(site_of(ll, j as int) == (0int, j as int));
            }
            let ghost gp = g@;
            let ghost qp = queue@;
            if g[j] == 1 {
                proof {
                    assert(self.occ(0, j as int)) by {
                        assert(g@[j as int] != 0);
                        assert(self.occ_at(j as int));
                    }
                    lemma_connected_refl(*self, (0int, j as int));
                    assert(reach0(*self, (0int, j as int)));
                }
                g[j] = 2;
                queue.push((0, j));
            }
            j = j + 1;
            proof {
                assert forall|t: int| 0 <= t < queue@.len() implies {
                    let s2 = #[trigger] queue@[t];
                    &&& s2.0 < ll
                    &&& s2.1 < ll
                    &&& g@[s2.0 * ll + s2.1] >= 2
                } by {
                    let s2 = queue@[t];
                    if t < qp.len() {
                        assert(s2 == qp[t]);
                        lemma_flat_index(ll, s2.0 as int, s2.1 as int);
                        if s2.0 * ll + s2.1 == j as int - 1 {
                            assert(gp[j as int - 1] >= 2);
                        }
                    } else {
                        assert(s2 == (0usize, (j - 1) as usize));
                        lemma_flat_index(ll, 0, j as int - 1);
                    }
                }
                assert forall|a: (int, int)| #![trigger marked(ll, g@)(a)] marked(ll, g@)(a)
                    implies in_queue(queue@, 0, a) by {
                    lemma_flat_index(ll, a.0, a.1);
                    if marked(ll, gp)(a) {
                        assert(in_queue(qp, 0, a));
                        let t = choose|t: int|
                            0 <= t < qp.len() && (#[trigger] qp[t]).0 == a.0 && qp[t].1 == a.1;
                        assert(queue@[t] == qp[t]);
                    } else {
                        assert(a == (0int, j as int - 1));
                        assert(queue@[queue@.len() - 1] == (0usize, (j - 1) as usize));
                    }
                }
            }
        }
        proof {
            lemma_count_bounds(changed_pred(base, g@), area);
            assert forall|k: int|
                0 <= k < area && #[trigger] g@[k] >= 2 implies g@[k] <= 1 + count_upto(
                changed_pred(base, g@),
                area,
            ) by {
                assert(g@[k] != base[k]);
                crate::count::lemma_count_ge_one(changed_pred(base, g@), area, k);
            }
            assert forall|j2: int| 0 <= j2 < ll && self.occ(0, j2) implies g@[j2] == 2 by {
                lemma_flat_index(ll, 0, j2);
                assert(self.occ_at(j2));
                assert(g@[j2] >= 2);
                assert(g@[j2] != base[j2]);
            }
            // no site has burnt past the seeding round yet
            assert forall|k: int| 0 <= k < area && #[trigger] g@[k] > 2 implies has_burn_parent(
                *self,
                g@,
                k,
            ) by {
                assert(g@[k] != base[k]);
                assert(g@[k] == 2);
            }
        }
        let mut head: usize = 0;
        proof {
            assert(burn_state_ok(*self, base, g@, queue@, 0));
        }
        while head < queue.len()
            invariant
                self.wf(),
                ll == self.size(),
                ll >= 1,
                area == ll * ll,
                area + 2 <= usize::MAX,
                l == ll,
                g@.len() == area,
                base.len() == area,
                head <= queue@.len(),
                burn_state_ok(*self, base, g@, queue@, head as int),
            decreases area - count_upto(changed_pred(base, g@), area), queue@.len() - head,
        {
            proof {
                lemma_count_bounds(changed_pred(base, g@), area);
            }
            self.burn_site(&mut g, &mut queue, head, Ghost(base));
            head = head + 1;
            proof {
                lemma_count_bounds(changed_pred(base, g@), area);
            }
        }
        proof {
            let m = marked(ll, g@);
            assert forall|a: (int, int), b: (int, int)|
                #![trigger m(a), adj(a, b)]
                m(a) && adj(a, b) && self.occ(b.0, b.1) implies m(b) by {
                if !m(b) {
                    assert(in_queue(queue@, head as int, a));
                    assert(false);
                }
            }
            // the burnt sites are exactly those reached from the top row
            assert forall|k: int| 0 <= k < area implies ((#[trigger] g@[k] >= 2) <==> reach0(
                *self,
                site_of(ll, k),
            )) by {
                lemma_unflat_index(ll, k);
                if g@[k] >= 2 {
                    assert(g@[k] != base[k]);
                }
                if reach0(*self, site_of(ll, k)) && g@[k] < 2 {
                    let j2 = choose|j2: int| #[trigger] connected(*self, (0int, j2), site_of(ll, k));
                    lemma_connected_endpoints(*self, (0int, j2), site_of(ll, k));
                    assert(self.occ(0, j2));
                    assert(g@[j2] >= 2);
                    assert(marked(ll, g@)((0int, j2))) by {
                        lemma_flat_index(ll, 0, j2);
                    }
                    lemma_closed_reaches(*self, m, (0int, j2), site_of(ll, k));
                    lemma_marked_at(ll, g@, k);
                    assert(false);
                }
            }
        }
        let mut spans = false;
        let mut jb: usize = 0;
        while jb < l
            invariant
                self.wf(),
                ll == self.size(),
                ll >= 1,
                area == ll * ll,
                area + 2 <= usize::MAX,
                l == ll,
                jb <= l,
                g@.len() == area,
                grid_matches(*self, g@),
                forall|k: int|
                    0 <= k < area ==> ((#[trigger] g@[k] >= 2) <==> reach0(
                        *self,
                        site_of(ll, k),
                    )),
                spans == exists|jj: int| 0 <= jj < jb && #[trigger] reach0(*self, (ll - 1, jj)),
            decreases l - jb,
        {
            proof {
                lemma_flat_index(ll, ll - 1, jb as int);
                assert(site_of(ll, (ll - 1) * ll + jb) == (ll - 1, jb as int));
            }
            if g[(l - 1) * l + jb] >= 2 {
                spans = true;
                proof {
                    assert(reach0(*self, (ll - 1, jb as int)));
                }
            } else {
                proof {
                    assert(!reach0(*self, (ll - 1, jb as int)));
                    if exists|jj: int| 0 <= jj < jb + 1 && #[trigger] reach0(*self, (ll - 1, jj)) {
                        let jj = choose|jj: int|
                            0 <= jj < jb + 1 && #[trigger] reach0(*self, (ll - 1, jj));
                        assert(jj < jb || jj == jb);
                    }
                }
            }
            jb = jb + 1;
        }
        proof {
            if spans {
                assert(lat_spans(*self));
            } else {
                if lat_spans(*self) {
                    let jj = choose|jj: int| #[trigger] reach0(*self, (ll - 1, jj));
                    let j0 = choose|j0: int| #[trigger] connected(*self, (0int, j0), (ll - 1, jj));
                    lemma_connected_endpoints(*self, (0int, j0), (ll - 1, jj));
                    assert(0 <= jj < ll);
                    assert(false);
                }
            }
        }
        (spans, g)
    }

    /// Cluster labeling by flood fill in row-major scan order: every
    /// occupied site receives a cluster label (2 upward; a fresh label per
    /// first-encountered cluster), and the per-label running size counts
    /// come back as the sequence of cluster sizes in scan order.
    ///
    /// Two occupied sites carry the same label exactly when they are
    /// joined, and the sizes sum to the number of occupied sites: the
    /// clusters partition the occupied sites.
    #[verifier::rlimit(100)]
    pub fn hoshen_kopelman(&self) -> (r: (Vec<usize>, Vec<usize>))
        requires
            self.wf(),
        ensures
            to_int_seq(r.0@) == cluster_sizes(*self),
            seq_sum(cluster_sizes(*self)) == self.occupied_count_spec(),
            r.1@.len() == self.size() * self.size(),
            forall|k: int| 0 <= k < r.1@.len() ==> ((#[trigger] r.1@[k] == 0) <==> !self.occ_at(k)),
            forall|k: int| 0 <= k < r.1@.len() ==> (self.occ_at(k) ==> #[trigger] r.1@[k] >= 2),
            forall|k1: int, k2: int|
                0 <= k1 < r.1@.len() && 0 <= k2 < r.1@.len() && self.occ_at(k1) && self.occ_at(k2)
                    ==> ((#[trigger] r.1@[k1] == #[trigger] r.1@[k2]) <==> connected(
                    *self,
                    site_of(self.size(), k1),
                    site_of(self.size(), k2),
                )),
    {
        let ghost ll = self.size();
        let ghost area = ll * ll;
        proof {
            self.lemma_wf_facts();
        }
        let l = self.edge_len();
        let n = l * l;
        let mut g = self.occupancy_grid();
        let ghost base0 = g@;
        let mut sizes: Vec<usize> = Vec::new();
        let mut next: usize = 2;
        let mut k: usize = 0;
        proof {
            assert forall|a: (int, int), b: (int, int)|
                #![trigger marked(ll, g@)(a), adj(a, b)]
                marked(ll, g@)(a) && adj(a, b) && self.occ(b.0, b.1) implies marked(ll, g@)(b) by {
                lemma_flat_index(ll, a.0, a.1);
                assert(g@[a.0 * ll + a.1] <= 1);
                assert(false);
            }
            crate::count::lemma_count_none(changed_pred(base0, g@), area);
        }
        while k < n
            invariant
                self.wf(),
                ll == self.size(),
                ll >= 1,
                area == ll * ll,
                area + 2 <= usize::MAX,
                l == ll,
                n == area,
                k <= n,
                g@.len() == area,
                base0.len() == area,
                grid_matches(*self, g@),
                closed_under_adj(*self, marked(ll, g@)),
                forall|t: int|
                    0 <= t < area ==> ((#[trigger] g@[t] >= 2) <==> scanned_reach(
                        *self,
                        k as int,
                        t,
                    )),
                forall|t: int|
                    0 <= t < area && #[trigger] g@[t] != base0[t] ==> base0[t] == 1 && g@[t] >= 2,
                forall|t: int| 0 <= t < area ==> (#[trigger] base0[t] == 1 <==> self.occ_at(t)),
                next >= 2,
                next <= 2 + count_upto(changed_pred(base0, g@), area),
                forall|t: int| 0 <= t < area && #[trigger] g@[t] >= 2 ==> g@[t] < next,
                forall|t1: int, t2: int|
                    0 <= t1 < area && 0 <= t2 < area && #[trigger] g@[t1] >= 2 && #[trigger] g@[t2]
                        >= 2 ==> ((g@[t1] == g@[t2]) <==> connected(
                        *self,
                        site_of(ll, t1),
                        site_of(ll, t2),
                    )),
                to_int_seq(sizes@) == cluster_sizes_upto(*self, k as int),
                seq_sum(to_int_seq(sizes@)) == count_upto(changed_pred(base0, g@), area),
            decreases n - k,
        {
            let ghost gp = g@;
            proof {
                lemma_unflat_index(ll, k as int);
                lemma_count_bounds(changed_pred(base0, g@), area);
            }
            if g[k] == 1 {
                let ki = k / l;
                let kj = k % l;
                let ghost ks = site_of(ll, k as int);
                proof {
                    assert(self.occ_at(k as int)) by {
                        assert(g@[k as int] != 0);
                    }
                    assert(ks == (ki as int, kj as int));
                    // this site opens a new cluster in scan order
                    assert forall|k2: int| 0 <= k2 < k implies !connected(
                        *self,
                        site_of(ll, k2),
                        #[trigger] site_of(ll, k as int),
                    ) by {
                        if connected(*self, site_of(ll, k2), site_of(ll, k as int)) {
                            lemma_connected_endpoints(*self, site_of(ll, k2), site_of(ll, k as int));
                            lemma_unflat_index(ll, k2);
                            assert(self.occ_at(k2));
                            assert(scanned_reach(*self, k as int, k as int));
                            assert(g@[k as int] >= 2);
                            assert(false);
                        }
                    }
                    assert(is_scan_rep(*self, k as int));
                }
                let label = next;
                let sz = self.dfs(&mut g, ki, kj, label);
                let ghost sizes_p = sizes@;
                sizes.push(sz);
                proof {
                    lemma_comp_size_bounds(*self, ks);
                    // count of changed positions grows by the cluster size
                    assert forall|t: int| 0 <= t < area implies ((#[trigger] changed_pred(
                        base0,
                        g@,
                    )(t) <==> (changed_pred(base0, gp)(t) || comp_pred(*self, ks)(t))) && !(
                    changed_pred(base0, gp)(t) && comp_pred(*self, ks)(t))) by {
                        lemma_unflat_index(ll, t);
                        if comp_pred(*self, ks)(t) {
                            assert(gp[t] == 1);
                            assert(g@[t] == label);
                        } else {
                            assert(g@[t] == gp[t]);
                        }
                    }
                    lemma_count_disjoint_or(
                        changed_pred(base0, gp),
                        changed_pred(base0, g@),
                        comp_pred(*self, ks),
                        area,
                    );
                    assert(to_int_seq(sizes@) =~= to_int_seq(sizes_p).push(sz as int));
                    lemma_seq_sum_push(to_int_seq(sizes_p), sz as int);
                    // the new visited set is the old one plus this cluster
                    assert forall|t: int| 0 <= t < area implies ((#[trigger] g@[t] >= 2)
                        <==> scanned_reach(*self, k as int + 1, t)) by {
                        lemma_unflat_index(ll, t);
                        if g@[t] >= 2 {
                            if connected(*self, ks, site_of(ll, t)) {
                                assert(self.occ_at(k as int) && connected(
                                    *self,
                                    site_of(ll, k as int),
                                    site_of(ll, t),
                                ));
                                assert(scanned_reach(*self, k as int + 1, t));
                            } else {
                                assert(g@[t] == gp[t]);
                                assert(scanned_reach(*self, k as int, t));
                                let k2 = choose|k2: int|
                                    0 <= k2 < k && #[trigger] self.occ_at(k2) && connected(
                                        *self,
                                        site_of(ll, k2),
                                        site_of(ll, t),
                                    );
                                assert(0 <= k2 < k + 1 && self.occ_at(k2) && connected(
                                    *self,
                                    site_of(ll, k2),
                                    site_of(ll, t),
                                ));
                                assert(scanned_reach(*self, k as int + 1, t));
                            }
                        } else {
                            assert(gp[t] < 2);
                            if scanned_reach(*self, k as int + 1, t) {
                                let k2 = choose|k2: int|
                                    0 <= k2 < k + 1 && #[trigger] self.occ_at(k2) && connected(
                                        *self,
                                        site_of(ll, k2),
                                        site_of(ll, t),
                                    );
                                if k2 < k {
                                    assert(scanned_reach(*self, k as int, t));
                                    assert(gp[t] >= 2);
                                } else {
                                    assert(site_of(ll, k2) == ks);
                                    assert(g@[t] == label);
                                }
                                assert(false);
                            }
                        }
                    }
                    // labels agree exactly on joined sites
                    assert forall|t1: int, t2: int|
                        0 <= t1 < area && 0 <= t2 < area && #[trigger] g@[t1] >= 2
                            && #[trigger] g@[t2] >= 2 implies ((g@[t1] == g@[t2]) <==> connected(
                        *self,
                        site_of(ll, t1),
                        site_of(ll, t2),
                    )) by {
                        lemma_unflat_index(ll, t1);
                        lemma_unflat_index(ll, t2);
                        let c1 = connected(*self, ks, site_of(ll, t1));
                        let c2 = connected(*self, ks, site_of(ll, t2));
                        if c1 && c2 {
                            assert(g@[t1] == label && g@[t2] == label);
                            lemma_connected_sym(*self, ks, site_of(ll, t1));
                            lemma_connected_trans(*self, site_of(ll, t1), ks, site_of(ll, t2));
                        } else if c1 && !c2 {
                            assert(g@[t1] == label);
                            assert(g@[t2] == gp[t2] && gp[t2] >= 2);
                            assert(gp[t2] < next);
                            if connected(*self, site_of(ll, t1), site_of(ll, t2)) {
                                lemma_connected_trans(
                                    *self,
                                    ks,
                                    site_of(ll, t1),
                                    site_of(ll, t2),
                                );
                                assert(false);
                            }
                        } else if !c1 && c2 {
                            assert(g@[t2] == label);
                            assert(g@[t1] == gp[t1] && gp[t1] >= 2);
                            assert(gp[t1] < next);
                            if connected(*self, site_of(ll, t1), site_of(ll, t2)) {
                                lemma_connected_sym(*self, site_of(ll, t1), site_of(ll, t2));
                                lemma_connected_trans(
                                    *self,
                                    ks,
                                    site_of(ll, t2),
                                    site_of(ll, t1),
                                );
                                assert(false);
                            }
                        } else {
                            assert(g@[t1] == gp[t1] && g@[t2] == gp[t2]);
                            assert(gp[t1] >= 2 && gp[t2] >= 2);
                        }
                    }
                    // the scan sequence gains exactly this cluster's size
                    assert(cluster_sizes_upto(*self, k as int + 1) =~= cluster_sizes_upto(
                        *self,
                        k as int,
                    ).push(comp_size(*self, ks)));
                    assert(to_int_seq(sizes@) =~= cluster_sizes_upto(*self, k as int).push(
                        sz as int,
                    ));
                    lemma_count_bounds(changed_pred(base0, g@), area);
                }
                next = next + 1;
            } else {
                proof {
                    if g@[k as int] == 0 {
                        assert(!self.occ_at(k as int));
                        assert(!is_scan_rep(*self, k as int));
                    } else {
                        assert(g@[k as int] >= 2);
                        assert(scanned_reach(*self, k as int, k as int));
                        let k2 = choose|k2: int|
                            0 <= k2 < k && #[trigger] self.occ_at(k2) && connected(
                                *self,
                                site_of(ll, k2),
                                site_of(ll, k as int),
                            );
                        assert(!is_scan_rep(*self, k as int));
                    }
                    assert(cluster_sizes_upto(*self, k as int + 1) == cluster_sizes_upto(
                        *self,
                        k as int,
                    ));
                    // the visited set is unchanged; only the scan bound widens
                    assert forall|t: int| 0 <= t < area implies ((#[trigger] g@[t] >= 2)
                        <==> scanned_reach(*self, k as int + 1, t)) by {
                        lemma_unflat_index(ll, t);
                        if g@[t] >= 2 {
                            assert(scanned_reach(*self, k as int, t));
                            let k2 = choose|k2: int|
                                0 <= k2 < k && #[trigger] self.occ_at(k2) && connected(
                                    *self,
                                    site_of(ll, k2),
                                    site_of(ll, t),
                                );
                            assert(0 <= k2 < k + 1 && self.occ_at(k2) && connected(
                                *self,
                                site_of(ll, k2),
                                site_of(ll, t),
                            ));
                            assert(scanned_reach(*self, k as int + 1, t));
                        } else {
                            if scanned_reach(*self, k as int + 1, t) {
                                let k2 = choose|k2: int|
                                    0 <= k2 < k + 1 && #[trigger] self.occ_at(k2) && connected(
                                        *self,
                                        site_of(ll, k2),
                                        site_of(ll, t),
                                    );
                                if k2 < k {
                                    assert(scanned_reach(*self, k as int, t));
                                } else {
                                    assert(self.occ_at(k as int));
                                    assert(g@[k as int] >= 2);
                                    lemma_marked_at(ll, g@, k as int);
                                    lemma_closed_reaches(
                                        *self,
                                        marked(ll, g@),
                                        site_of(ll, k as int),
                                        site_of(ll, t),
                                    );
                                    lemma_marked_at(ll, g@, t);
                                }
                                assert(false);
                            }
                        }
                    }
                }
            }
            k = k + 1;
        }
        proof {
            // at the end of the scan, the visited sites are the occupied ones
            assert forall|t: int| 0 <= t < area implies (#[trigger] changed_pred(base0, g@)(t)
                <==> self.occ_pred()(t)) by {
                lemma_unflat_index(ll, t);
                if self.occ_at(t) {
                    lemma_connected_refl(*self, site_of(ll, t));
                    assert(scanned_reach(*self, area, t));
                    assert(g@[t] >= 2);
                }
                if changed_pred(base0, g@)(t) {
                    assert(base0[t] == 1);
                }
            }
            lemma_count_pointwise_eq(changed_pred(base0, g@), self.occ_pred(), area);
            assert forall|t: int| 0 <= t < area && self.occ_at(t) implies #[trigger] g@[t]
                >= 2 by {
                lemma_unflat_index(ll, t);
                lemma_connected_refl(*self, site_of(ll, t));
                assert(scanned_reach(*self, area, t));
            }
            assert forall|k1: int, k2: int|
                0 <= k1 < area && 0 <= k2 < area && self.occ_at(k1) && self.occ_at(k2) implies ((
            #[trigger] g@[k1] == #[trigger] g@[k2]) <==> connected(
                *self,
                site_of(ll, k1),
                site_of(ll, k2),
            )) by {
                assert(g@[k1] >= 2 && g@[k2] >= 2);
            }
        }
        (sizes, g)
    }
}

} // verus!
