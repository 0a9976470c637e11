//! Connectivity of occupied sites under 4-adjacency.
//!
//! A cluster is a maximal set of occupied sites joined by paths of occupied
//! sites; the analyses' contracts are all stated over the predicates here:
//! paths, connectedness, component sizes, spanning, and the scan-order
//! sequence of cluster sizes.

use vstd::prelude::*;
use crate::count::count_upto;
use crate::count::seq_max;
use crate::count::lemma_count_pointwise_eq;
use crate::count::lemma_count_bounds;
use crate::count::lemma_count_ge_one;
use crate::lattice::PercolationLattice;
use crate::lattice::row_of;
use crate::lattice::col_of;
use crate::lattice::lemma_unflat_index;

verus! {

broadcast use crate::lattice::PercolationLattice::lemma_occ_bounds;

/// Two sites share a grid edge (von Neumann neighbours).
pub open spec fn adj(a: (int, int), b: (int, int)) -> bool {
    ||| (a.0 == b.0 && (a.1 == b.1 + 1 || a.1 + 1 == b.1))
    ||| (a.1 == b.1 && (a.0 == b.0 + 1 || a.0 + 1 == b.0))
}

/// The site at flat position `k` of an `l x l` grid.
pub open spec fn site_of(l: int, k: int) -> (int, int) {
    (row_of(k, l), col_of(k, l))
}

/// A walk over occupied sites: nonempty, every element occupied (hence in
/// bounds), consecutive elements adjacent.
pub open spec fn is_path(lat: PercolationLattice, p: Seq<(int, int)>) -> bool {
    &&& p.len() >= 1
    &&& forall|t: int| 0 <= t < p.len() ==> lat.occ((#[trigger] p[t]).0, p[t].1)
    &&& forall|t: int| 0 <= t < p.len() - 1 ==> adj(#[trigger] p[t], p[t + 1])
}

/// Occupied sites `a` and `b` are joined by a path of occupied sites.
pub open spec fn connected(lat: PercolationLattice, a: (int, int), b: (int, int)) -> bool {
    exists|p: Seq<(int, int)>| is_path(lat, p) && p.first() == a && p.last() == b
}

pub proof fn lemma_connected_endpoints(lat: PercolationLattice, a: (int, int), b: (int, int))
    requires
        connected(lat, a, b),
    ensures
        lat.occ(a.0, a.1),
        lat.occ(b.0, b.1),
{
    let p = choose|p: Seq<(int, int)>| is_path(lat, p) && p.first() == a && p.last() == b;
    assert(lat.occ(p[0].0, p[0].1));
    assert(lat.occ(p[p.len() - 1].0, p[p.len() - 1].1));
}

/// Connectedness is reflexive on occupied sites.
pub proof fn lemma_connected_refl(lat: PercolationLattice, a: (int, int))
    requires
        lat.occ(a.0, a.1),
    ensures
        connected(lat, a, a),
{
    let p = seq![a];
    assert(is_path(lat, p));
    assert(p.first() == a && p.last() == a);
}

/// A path may be extended across one more edge to an occupied neighbour.
pub proof fn lemma_connected_step(lat: PercolationLattice, a: (int, int), b: (int, int), c: (
    int,
    int,
))
    requires
        connected(lat, a, b),
        adj(b, c),
        lat.occ(c.0, c.1),
    ensures
        connected(lat, a, c),
{
    let p = choose|p: Seq<(int, int)>| is_path(lat, p) && p.first() == a && p.last() == b;
    let q = p.push(c);
    assert forall|t: int| 0 <= t < q.len() - 1 implies adj(#[trigger] q[t], q[t + 1]) by {
        if t < p.len() - 1 {
            assert(adj(p[t], p[t + 1]));
        } else {
            assert(q[t] == b && q[t + 1] == c);
        }
    }
    assert(is_path(lat, q));
    assert(q.first() == a && q.last() == c);
}

/// Connectedness is symmetric: reverse the path.
pub proof fn lemma_connected_sym(lat: PercolationLattice, a: (int, int), b: (int, int))
    requires
        connected(lat, a, b),
    ensures
        connected(lat, b, a),
{
    let p = choose|p: Seq<(int, int)>| is_path(lat, p) && p.first() == a && p.last() == b;
    let n = p.len() as int;
    let q = Seq::new(p.len(), |t: int| p[n - 1 - t]);
    assert forall|t: int| 0 <= t < q.len() - 1 implies adj(#[trigger] q[t], q[t + 1]) by {
        assert(adj(p[n - 2 - t], p[n - 1 - t]));
    }
    assert(is_path(lat, q));
    assert(q.first() == b && q.last() == a);
}

/// Connectedness is transitive: concatenate the paths.
pub proof fn lemma_connected_trans(lat: PercolationLattice, a: (int, int), b: (int, int), c: (
    int,
    int,
))
    requires
        connected(lat, a, b),
        connected(lat, b, c),
    ensures
        connected(lat, a, c),
{
    let p1 = choose|p: Seq<(int, int)>| is_path(lat, p) && p.first() == a && p.last() == b;
    let p2 = choose|p: Seq<(int, int)>| is_path(lat, p) && p.first() == b && p.last() == c;
    let q = p1 + p2.subrange(1, p2.len() as int);
    assert forall|t: int| 0 <= t < q.len() implies lat.occ((#[trigger] q[t]).0, q[t].1) by {
        if t < p1.len() {
            assert(lat.occ(p1[t].0, p1[t].1));
        } else {
            assert(q[t] == p2[t - p1.len() + 1]);
            assert(lat.occ(p2[t - p1.len() + 1].0, p2[t - p1.len() + 1].1));
        }
    }
    assert forall|t: int| 0 <= t < q.len() - 1 implies adj(#[trigger] q[t], q[t + 1]) by {
        if t < p1.len() - 1 {
            assert(adj(p1[t], p1[t + 1]));
        } else if t == p1.len() - 1 {
            assert(q[t] == b);
            if p2.len() == 1 {
            } else {
                assert(q[t + 1] == p2[1]);
                assert(adj(p2[0], p2[1]));
            }
        } else {
            assert(q[t] == p2[t - p1.len() + 1]);
            assert(q[t + 1] == p2[t - p1.len() + 2]);
            assert(adj(p2[t - p1.len() + 1], p2[t - p1.len() + 2]));
        }
    }
    if p2.len() == 1 {
        assert(q =~= p1);
        assert(q.last() == c);
    } else {
        assert(q.last() == p2.last());
    }
    assert(is_path(lat, q));
    assert(q.first() == a && q.last() == c);
}

/// A site set (as a predicate) is adjacency-closed when it contains every
/// occupied neighbour of each of its members.
pub open spec fn closed_under_adj(lat: PercolationLattice, m: spec_fn((int, int)) -> bool) -> bool {
    forall|a: (int, int), b: (int, int)|
        #![trigger m(a), adj(a, b)]
        m(a) && adj(a, b) && lat.occ(b.0, b.1) ==> m(b)
}

/// Membership in an adjacency-closed set propagates along a path.
pub proof fn lemma_closed_path(
    lat: PercolationLattice,
    m: spec_fn((int, int)) -> bool,
    p: Seq<(int, int)>,
)
    requires
        closed_under_adj(lat, m),
        is_path(lat, p),
        m(p.first()),
    ensures
        m(p.last()),
    decreases p.len(),
{
    if p.len() > 1 {
        assert(adj(p[0], p[1]));
        assert(lat.occ(p[1].0, p[1].1));
        assert(m(p[1]));
        let q = p.subrange(1, p.len() as int);
        assert forall|t: int| 0 <= t < q.len() - 1 implies adj(#[trigger] q[t], q[t + 1]) by {
            assert(adj(p[t + 1], p[t + 2]));
        }
        assert(is_path(lat, q));
        lemma_closed_path(lat, m, q);
        assert(q.last() == p.last());
    }
}

/// An adjacency-closed set containing `a` contains everything joined to `a`.
pub proof fn lemma_closed_reaches(
    lat: PercolationLattice,
    m: spec_fn((int, int)) -> bool,
    a: (int, int),
    b: (int, int),
)
    requires
        closed_under_adj(lat, m),
        m(a),
        connected(lat, a, b),
    ensures
        m(b),
{
    let p = choose|p: Seq<(int, int)>| is_path(lat, p) && p.first() == a && p.last() == b;
    lemma_closed_path(lat, m, p);
}

/// The component of `a`, over flat positions.
pub open spec fn comp_pred(lat: PercolationLattice, a: (int, int)) -> spec_fn(int) -> bool {
    |k: int| connected(lat, a, site_of(lat.size(), k))
}

/// Number of sites in the connected cluster of `a`.
pub open spec fn comp_size(lat: PercolationLattice, a: (int, int)) -> int {
    count_upto(comp_pred(lat, a), lat.size() * lat.size())
}

/// Sites of one cluster have one cluster size.
pub proof fn lemma_comp_size_eq(lat: PercolationLattice, a: (int, int), b: (int, int))
    requires
        connected(lat, a, b),
    ensures
        comp_size(lat, a) == comp_size(lat, b),
{
    assert forall|k: int| 0 <= k < lat.size() * lat.size() implies (#[trigger] comp_pred(lat, a)(k)
        <==> comp_pred(lat, b)(k)) by {
        if comp_pred(lat, a)(k) {
            lemma_connected_sym(lat, a, b);
            lemma_connected_trans(lat, b, a, site_of(lat.size(), k));
        }
        if comp_pred(lat, b)(k) {
            lemma_connected_trans(lat, a, b, site_of(lat.size(), k));
        }
    }
    lemma_count_pointwise_eq(comp_pred(lat, a), comp_pred(lat, b), lat.size() * lat.size());
}

/// An occupied site's cluster holds between 1 and `L * L` sites.
pub proof fn lemma_comp_size_bounds(lat: PercolationLattice, a: (int, int))
    requires
        lat.wf(),
        lat.occ(a.0, a.1),
    ensures
        1 <= comp_size(lat, a) <= lat.size() * lat.size(),
{
    lat.lemma_wf_facts();
    let l = lat.size();
    let k0 = a.0 * l + a.1;
    crate::lattice::lemma_flat_index(l, a.0, a.1);
    lemma_connected_refl(lat, a);
    assert(site_of(l, k0) == a);
    assert(comp_pred(lat, a)(k0));
    lemma_count_ge_one(comp_pred(lat, a), l * l, k0);
    lemma_count_bounds(comp_pred(lat, a), l * l);
}

/// Reached from the top row: joined to some occupied site of row 0.
pub open spec fn reach0(lat: PercolationLattice, b: (int, int)) -> bool {
    exists|j: int| connected(lat, (0int, j), b)
}

/// A spanning configuration: an occupied path joins row 0 to row `L - 1`.
pub open spec fn lat_spans(lat: PercolationLattice) -> bool {
    exists|j: int| #[trigger] reach0(lat, (lat.size() - 1, j))
}

/// Flat position `k` opens a new cluster in the row-major scan: it is
/// occupied and joined to no occupied site at an earlier position.
pub open spec fn is_scan_rep(lat: PercolationLattice, k: int) -> bool {
    &&& lat.occ_at(k)
    &&& forall|k2: int|
        0 <= k2 < k ==> !connected(lat, site_of(lat.size(), k2), #[trigger] site_of(lat.size(), k))
}

/// Cluster sizes discovered by the row-major scan up to flat position `n`.
pub open spec fn cluster_sizes_upto(lat: PercolationLattice, n: int) -> Seq<int>
    decreases n,
{
    if n <= 0 {
        Seq::empty()
    } else if is_scan_rep(lat, n - 1) {
        cluster_sizes_upto(lat, n - 1).push(comp_size(lat, site_of(lat.size(), n - 1)))
    } else {
        cluster_sizes_upto(lat, n - 1)
    }
}

/// The sequence of cluster sizes, one per cluster, in first-encountered
/// scan order.
pub open spec fn cluster_sizes(lat: PercolationLattice) -> Seq<int> {
    cluster_sizes_upto(lat, lat.size() * lat.size())
}

/// Largest cluster size among sites at flat positions below `n`.
pub open spec fn max_comp_upto(lat: PercolationLattice, n: int) -> int
    decreases n,
{
    if n <= 0 {
        0
    } else {
        let prev = max_comp_upto(lat, n - 1);
        if lat.occ_at(n - 1) && comp_size(lat, site_of(lat.size(), n - 1)) > prev {
            comp_size(lat, site_of(lat.size(), n - 1))
        } else {
            prev
        }
    }
}

/// The size of the largest connected cluster; 0 when nothing is occupied.
pub open spec fn max_component_size(lat: PercolationLattice) -> int {
    max_comp_upto(lat, lat.size() * lat.size())
}


/// Every occupied flat position is joined to a scan representative at or
/// before it: walk back along earlier connected sites.
proof fn lemma_rep_exists(lat: PercolationLattice, k: int)
    requires
        lat.wf(),
        0 <= k < lat.size() * lat.size(),
        lat.occ_at(k),
    ensures
        exists|r: int|
            0 <= r <= k && #[trigger] is_scan_rep(lat, r) && connected(
                lat,
                site_of(lat.size(), r),
                site_of(lat.size(), k),
            ),
    decreases k,
{
    let ll = lat.size();
    if is_scan_rep(lat, k) {
        lemma_connected_refl(lat, site_of(ll, k));
        assert(0 <= k <= k && is_scan_rep(lat, k) && connected(
            lat,
            site_of(ll, k),
            site_of(ll, k),
        ));
    } else {
        let k2 = choose|k2: int|
            0 <= k2 < k && #[trigger] connected(lat, site_of(ll, k2), site_of(ll, k));
        lemma_connected_endpoints(lat, site_of(ll, k2), site_of(ll, k));
        assert(lat.occ_at(k2));
        lemma_rep_exists(lat, k2);
        let r = choose|r: int|
            0 <= r <= k2 && #[trigger] is_scan_rep(lat, r) && connected(
                lat,
                site_of(ll, r),
                site_of(ll, k2),
            );
        lemma_connected_trans(lat, site_of(ll, r), site_of(ll, k2), site_of(ll, k));
        assert(0 <= r <= k && is_scan_rep(lat, r) && connected(
            lat,
            site_of(ll, r),
            site_of(ll, k),
        ));
    }
}

/// A representative's cluster size occurs in every long enough prefix of
/// the scan's size sequence.
proof fn lemma_sizes_upto_contains(lat: PercolationLattice, r: int, n: int)
    requires
        is_scan_rep(lat, r),
        0 <= r < n,
    ensures
        cluster_sizes_upto(lat, n).contains(comp_size(lat, site_of(lat.size(), r))),
    decreases n,
{
    let x = comp_size(lat, site_of(lat.size(), r));
    if r == n - 1 {
        let s = cluster_sizes_upto(lat, n);
        assert(s[s.len() - 1] == x);
    } else {
        lemma_sizes_upto_contains(lat, r, n - 1);
        let s = cluster_sizes_upto(lat, n - 1);
        let i = choose|i: int| 0 <= i < s.len() && s[i] == x;
        assert(cluster_sizes_upto(lat, n)[i] == x);
    }
}

proof fn lemma_cross_check_upto(lat: PercolationLattice, n: int)
    requires
        lat.wf(),
        0 <= n <= lat.size() * lat.size(),
    ensures
        seq_max(cluster_sizes_upto(lat, n)) == max_comp_upto(lat, n),
    decreases n,
{
    let ll = lat.size();
    if n > 0 {
        lemma_cross_check_upto(lat, n - 1);
        let k = n - 1;
        if !lat.occ_at(k) {
            assert(!is_scan_rep(lat, k));
        } else if is_scan_rep(lat, k) {
            crate::count::lemma_seq_max_push(
                cluster_sizes_upto(lat, k),
                comp_size(lat, site_of(ll, k)),
            );
        } else {
            lemma_rep_exists(lat, k);
            let r = choose|r: int|
                0 <= r <= k && #[trigger] is_scan_rep(lat, r) && connected(
                    lat,
                    site_of(ll, r),
                    site_of(ll, k),
                );
            assert(r < k);
            lemma_comp_size_eq(lat, site_of(ll, r), site_of(ll, k));
            lemma_sizes_upto_contains(lat, r, k);
            let s = cluster_sizes_upto(lat, k);
            let i = choose|i: int| 0 <= i < s.len() && s[i] == comp_size(lat, site_of(ll, r));
            crate::count::lemma_seq_max_ge(s, i);
        }
    }
}

/// Cross-check law: the largest cluster size equals the maximum of the
/// scan's cluster-size sequence, for every lattice (both are 0 when
/// nothing is occupied).
pub proof fn lemma_cross_check(lat: PercolationLattice)
    requires
        lat.wf(),
    ensures
        seq_max(cluster_sizes(lat)) == max_component_size(lat),
{
    lat.lemma_wf_facts();
    assert(lat.size() * lat.size() >= 0) by (nonlinear_arith)
        requires
            lat.size() >= 1,
    ;
    lemma_cross_check_upto(lat, lat.size() * lat.size());
}

proof fn lemma_empty_upto(lat: PercolationLattice, n: int)
    requires
        forall|i: int, j: int| !lat.occ(i, j),
    ensures
        max_comp_upto(lat, n) == 0,
        cluster_sizes_upto(lat, n) =~= Seq::<int>::empty(),
    decreases n,
{
    if n > 0 {
        lemma_empty_upto(lat, n - 1);
        assert(!lat.occ_at(n - 1));
        assert(!is_scan_rep(lat, n - 1));
    }
}

/// Degenerate law, empty side: with no occupied site there is no spanning
/// path, no cluster, and the largest cluster size is 0.
pub proof fn lemma_empty_lattice(lat: PercolationLattice)
    requires
        lat.wf(),
        forall|i: int, j: int| !lat.occ(i, j),
    ensures
        !lat_spans(lat),
        max_component_size(lat) == 0,
        cluster_sizes(lat) =~= Seq::<int>::empty(),
        lat.occupied_count_spec() == 0,
{
    let ll = lat.size();
    lemma_empty_upto(lat, ll * ll);
    if lat_spans(lat) {
        let jj = choose|jj: int| #[trigger] reach0(lat, (ll - 1, jj));
        let j0 = choose|j0: int| #[trigger] connected(lat, (0int, j0), (ll - 1, jj));
        lemma_connected_endpoints(lat, (0int, j0), (ll - 1, jj));
        assert(false);
    }
    crate::count::lemma_count_none(lat.occ_pred(), ll * ll);
}

/// On a fully occupied lattice every site is joined to the origin.
proof fn lemma_full_connected_origin(lat: PercolationLattice, i: int, j: int)
    requires
        lat.wf(),
        forall|i2: int, j2: int|
            0 <= i2 < lat.size() && 0 <= j2 < lat.size() ==> lat.occ(i2, j2),
        0 <= i < lat.size(),
        0 <= j < lat.size(),
    ensures
        connected(lat, (0int, 0int), (i, j)),
    decreases i + j,
{
    if i == 0 && j == 0 {
        lemma_connected_refl(lat, (0int, 0int));
    } else if i > 0 {
        lemma_full_connected_origin(lat, i - 1, j);
        lemma_connected_step(lat, (0int, 0int), (i - 1, j), (i, j));
    } else {
        lemma_full_connected_origin(lat, 0, j - 1);
        lemma_connected_step(lat, (0int, 0int), (0int, j - 1), (0int, j));
    }
}

proof fn lemma_full_upto(lat: PercolationLattice, n: int)
    requires
        lat.wf(),
        forall|i2: int, j2: int|
            0 <= i2 < lat.size() && 0 <= j2 < lat.size() ==> lat.occ(i2, j2),
        0 <= n <= lat.size() * lat.size(),
    ensures
        max_comp_upto(lat, n) == if n == 0 {
            0int
        } else {
            lat.size() * lat.size()
        },
        cluster_sizes_upto(lat, n) =~= if n == 0 {
            Seq::<int>::empty()
        } else {
            seq![lat.size() * lat.size()]
        },
    decreases n,
{
    let ll = lat.size();
    lat.lemma_wf_facts();
    if n > 0 {
        lemma_full_upto(lat, n - 1);
        let k = n - 1;
        lemma_unflat_index(ll, k);
        assert(lat.occ_at(k));
        lemma_full_connected_origin(lat, row_of(k, ll), col_of(k, ll));
        lemma_comp_size_eq(lat, (0int, 0int), site_of(ll, k));
        assert(comp_size(lat, (0int, 0int)) == ll * ll) by {
            assert forall|t: int| 0 <= t < ll * ll implies #[trigger] comp_pred(
                lat,
                (0int, 0int),
            )(t) by {
                lemma_unflat_index(ll, t);
                lemma_full_connected_origin(lat, row_of(t, ll), col_of(t, ll));
            }
            crate::count::lemma_count_all(comp_pred(lat, (0int, 0int)), ll * ll);
        }
        if k == 0 {
            assert(site_of(ll, 0) == (0int, 0int)) by {
                lemma_unflat_index(ll, 0);
            }
            assert(is_scan_rep(lat, 0));
        } else {
            assert(!is_scan_rep(lat, k)) by {
                lemma_unflat_index(ll, 0);
                assert(site_of(ll, 0) == (0int, 0int));
                assert(connected(lat, site_of(ll, 0), site_of(ll, k)));
            }
        }
    }
}

/// Degenerate law, full side: with every site occupied the lattice spans,
/// there is exactly one cluster, and it holds all `L * L` sites.
pub proof fn lemma_full_lattice(lat: PercolationLattice)
    requires
        lat.wf(),
        forall|i2: int, j2: int|
            0 <= i2 < lat.size() && 0 <= j2 < lat.size() ==> lat.occ(i2, j2),
    ensures
        lat_spans(lat),
        max_component_size(lat) == lat.size() * lat.size(),
        cluster_sizes(lat) =~= seq![lat.size() * lat.size()],
        lat.occupied_count_spec() == lat.size() * lat.size(),
{
    let ll = lat.size();
    lat.lemma_wf_facts();
    assert(ll * ll >= 1) by (nonlinear_arith)
        requires
            ll >= 1,
    ;
    lemma_full_upto(lat, ll * ll);
    lemma_full_connected_origin(lat, ll - 1, 0);
    assert(reach0(lat, (ll - 1, 0int))) by {
        assert(connected(lat, (0int, 0int), (ll - 1, 0int)));
    }
    assert(lat_spans(lat));
    assert forall|t: int| 0 <= t < ll * ll implies #[trigger] lat.occ_pred()(t) by {
        lemma_unflat_index(ll, t);
    }
    crate::count::lemma_count_all(lat.occ_pred(), ll * ll);
}

/// Monotonicity law: spanning survives adding occupied sites. If every
/// occupied site of `a` is occupied in `b` (same edge length), a spanning
/// path of `a` is one of `b`.
pub proof fn lemma_spans_monotone(a: PercolationLattice, b: PercolationLattice)
    requires
        a.wf(),
        b.wf(),
        a.size() == b.size(),
        forall|i: int, j: int| #[trigger] a.occ(i, j) ==> b.occ(i, j),
    ensures
        lat_spans(a) ==> lat_spans(b),
{
    let ll = a.size();
    if lat_spans(a) {
        let jj = choose|jj: int| #[trigger] reach0(a, (ll - 1, jj));
        let j0 = choose|j0: int| #[trigger] connected(a, (0int, j0), (ll - 1, jj));
        let p = choose|p: Seq<(int, int)>|
            is_path(a, p) && p.first() == (0int, j0) && p.last() == (ll - 1, jj);
        assert(is_path(b, p)) by {
            assert(forall|t: int| 0 <= t < p.len() ==> a.occ((#[trigger] p[t]).0, p[t].1));
        }
        assert(connected(b, (0int, j0), (ll - 1, jj)));
        assert(reach0(b, (ll - 1, jj)));
        assert(lat_spans(b));
    }
}


/// Every scanned cluster size lies between 1 and the lattice area.
pub proof fn lemma_cluster_sizes_bounds(lat: PercolationLattice, n: int)
    requires
        lat.wf(),
        0 <= n <= lat.size() * lat.size(),
    ensures
        forall|t: int|
            0 <= t < cluster_sizes_upto(lat, n).len() ==> 1 <= #[trigger] cluster_sizes_upto(
                lat,
                n,
            )[t] <= lat.size() * lat.size(),
    decreases n,
{
    if n > 0 {
        lemma_cluster_sizes_bounds(lat, n - 1);
        if is_scan_rep(lat, n - 1) {
            lat.lemma_wf_facts();
            lemma_unflat_index(lat.size(), n - 1);
            lemma_comp_size_bounds(lat, site_of(lat.size(), n - 1));
            let s = cluster_sizes_upto(lat, n);
            assert forall|t: int| 0 <= t < s.len() implies 1 <= #[trigger] s[t] <= lat.size()
                * lat.size() by {
                if t < s.len() - 1 {
                    assert(s[t] == cluster_sizes_upto(lat, n - 1)[t]);
                }
            }
        }
    }
}

/// The scan finds at most one cluster per position.
pub proof fn lemma_cluster_sizes_len(lat: PercolationLattice, n: int)
    ensures
        cluster_sizes_upto(lat, n).len() <= if n >= 0 {
            n
        } else {
            0int
        },
    decreases n,
{
    if n > 0 {
        lemma_cluster_sizes_len(lat, n - 1);
    }
}

proof fn lemma_max_comp_upto_bounds(lat: PercolationLattice, n: int)
    requires
        lat.wf(),
        n <= lat.size() * lat.size(),
    ensures
        0 <= max_comp_upto(lat, n) <= lat.size() * lat.size(),
    decreases n,
{
    lat.lemma_wf_facts();
    assert(lat.size() * lat.size() >= 0) by (nonlinear_arith)
        requires
            lat.size() >= 1,
    ;
    if n > 0 {
        lemma_max_comp_upto_bounds(lat, n - 1);
        if lat.occ_at(n - 1) {
            lemma_count_bounds(comp_pred(lat, site_of(lat.size(), n - 1)), lat.size() * lat.size());
        }
    }
}

/// The largest cluster never exceeds the lattice.
pub proof fn lemma_max_component_bounds(lat: PercolationLattice)
    requires
        lat.wf(),
    ensures
        0 <= max_component_size(lat) <= lat.size() * lat.size(),
{
    lemma_max_comp_upto_bounds(lat, lat.size() * lat.size());
}

} // verus!
