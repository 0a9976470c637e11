//! The square lattice of sites and its construction.
//!
//! A lattice is an `L x L` grid of sites, each empty or occupied. The
//! occupancy is fixed at construction and read-only afterwards; every
//! analysis pass works on its own copy of the occupancy. Sites are stored
//! row-major: site `(i, j)` sits at flat position `i * L + j`.

use vstd::prelude::*;
use vstd::arithmetic::div_mod::lemma_fundamental_div_mod;
use vstd::arithmetic::div_mod::lemma_fundamental_div_mod_converse;
use crate::count::count_upto;
use crate::rng::random_in;

verus! {

/// Rejected configuration: a zero lattice edge, or an occupation
/// probability outside `[0, 1]`.
#[derive(Clone, Copy, Debug, PartialEq, Eq, Structural)]
pub enum PercError {
    InvalidParameter,
}

/// Row of the flat position `k` on an `L x L` grid.
pub open spec fn row_of(k: int, l: int) -> int {
    k / l
}

/// Column of the flat position `k` on an `L x L` grid.
pub open spec fn col_of(k: int, l: int) -> int {
    k % l
}

/// Row-major flattening: `(i, j)` with `0 <= i, j < l` sits at `i * l + j`,
/// within `[0, l * l)`, and the row and column are recovered by division.
pub proof fn lemma_flat_index(l: int, i: int, j: int)
    requires
        l >= 1,
        0 <= i < l,
        0 <= j < l,
    ensures
        0 <= i * l + j < l * l,
        row_of(i * l + j, l) == i,
        col_of(i * l + j, l) == j,
{
    assert(0 <= i * l + j < l * l) by (nonlinear_arith)
        requires
            l >= 1 && 0 <= i < l && 0 <= j < l,
    ;
    lemma_fundamental_div_mod_converse(i * l + j, l, i, j);
}

/// Every flat position `k` in `[0, l * l)` decodes to an in-bounds site.
pub proof fn lemma_unflat_index(l: int, k: int)
    requires
        l >= 1,
        0 <= k < l * l,
    ensures
        0 <= row_of(k, l) < l,
        0 <= col_of(k, l) < l,
        row_of(k, l) * l + col_of(k, l) == k,
{
    lemma_fundamental_div_mod(k, l);
    assert(0 <= k / l < l && 0 <= k % l < l) by (nonlinear_arith)
        requires
            l >= 1 && 0 <= k < l * l && k == (k / l) * l + (k % l) && 0 <= k % l < l,
    ;
}

/// An `L x L` grid of sites with fixed occupancy.
#[derive(Debug)]
pub struct PercolationLattice {
    l: usize,
    cells: Vec<bool>,
}

impl PercolationLattice {
    /// The edge length `L`.
    pub closed spec fn size(self) -> int {
        self.l as int
    }

    /// Well-formed: a positive edge, one cell per site, and enough headroom
    /// in `usize` for the analysis passes' running labels and burn rounds.
    pub closed spec fn wf(self) -> bool {
        &&& self.l >= 1
        &&& self.cells@.len() == self.size() * self.size()
        &&& self.size() * self.size() + 2 <= usize::MAX
    }

    /// Site `(i, j)` is in bounds and occupied.
    pub closed spec fn occ(self, i: int, j: int) -> bool {
        &&& 0 <= i < self.size()
        &&& 0 <= j < self.size()
        &&& self.cells@[i * self.size() + j]
    }

    /// Occupancy of the flat position `k`.
    pub open spec fn occ_at(self, k: int) -> bool {
        self.occ(row_of(k, self.size()), col_of(k, self.size()))
    }

    /// The predicate counted by [`Self::occupied_count_spec`].
    pub open spec fn occ_pred(self) -> spec_fn(int) -> bool {
        |k: int| self.occ_at(k)
    }

    /// Number of occupied sites.
    pub open spec fn occupied_count_spec(self) -> int {
        count_upto(self.occ_pred(), self.size() * self.size())
    }

    /// An occupied site is in bounds.
    pub broadcast proof fn lemma_occ_bounds(lat: PercolationLattice, i: int, j: int)
        ensures
            #[trigger] lat.occ(i, j) ==> 0 <= i < lat.size() && 0 <= j < lat.size(),
    {
    }

    /// What well-formedness guarantees about the edge length.
    pub proof fn lemma_wf_facts(self)
        requires
            self.wf(),
        ensures
            self.size() >= 1,
            self.size() * self.size() + 2 <= usize::MAX,
    {
    }

    /// The edge length `L`.
    pub fn edge_len(&self) -> (l: usize)
        requires
            self.wf(),
        ensures
            l == self.size(),
    {
        self.l
    }

    /// A fresh analysis copy of the occupancy: `0` on empty sites, `1` on
    /// occupied ones. Every analysis pass mutates such a copy, never the
    /// lattice itself.
    pub fn occupancy_grid(&self) -> (g: Vec<usize>)
        requires
            self.wf(),
        ensures
            g@.len() == self.size() * self.size(),
            forall|k: int|
                0 <= k < g@.len() ==> g@[k] == if self.occ_at(k) {
                    1int
                } else {
                    0int
                },
    {
        let area = self.l * self.l;
        let mut g: Vec<usize> = Vec::new();
        let mut k: usize = 0;
        while k < area
            invariant
                self.wf(),
                area == self.size() * self.size(),
                k <= area,
                g@.len() == k,
                forall|m: int|
                    0 <= m < k ==> g@[m] == if self.occ_at(m) {
                        1int
                    } else {
                        0int
                    },
            decreases area - k,
        {
            proof {
                lemma_unflat_index(self.size(), k as int);
            }
            if self.cells[k] {
                g.push(1);
            } else {
                g.push(0);
            }
            k = k + 1;
        }
        g
    }

    /// Builds a lattice from a given row-major occupancy, for analyses of a
    /// fixed configuration. Succeeds exactly when the edge is positive and
    /// the occupancy holds one cell per site.
    pub fn from_cells(l: usize, cells: Vec<bool>) -> (r: Result<PercolationLattice, PercError>)
        requires
            l * l + 2 <= usize::MAX,
        ensures
            r is Ok <==> (l >= 1 && cells@.len() == l * l),
            r is Err ==> r == Result::<PercolationLattice, PercError>::Err(
                PercError::InvalidParameter,
            ),
            r is Ok ==> {
                let lat = r->Ok_0;
                &&& lat.wf()
                &&& lat.size() == l
                &&& forall|i: int, j: int|
                    lat.occ(i, j) <==> (0 <= i < l && 0 <= j < l && cells@[i * l + j])
            },
    {
        if l == 0 {
            return Err(PercError::InvalidParameter);
        }
        let area = match l.checked_mul(l) {
            Some(a) => a,
            None => {
                return Err(PercError::InvalidParameter);
            },
        };
        if cells.len() != area {
            return Err(PercError::InvalidParameter);
        }
        let lat = PercolationLattice { l, cells };
        proof {
            assert(forall|i: int, j: int|
                lat.occ(i, j) <==> (0 <= i < l && 0 <= j < l && lat.cells@[i * l + j]));
        }
        Ok(lat)
    }

    /// Draws an independent Bernoulli occupancy for each of the `L x L`
    /// sites: a site is occupied when a uniform draw from `[0, p_den)` falls
    /// below `p_num`, so with probability `p_num / p_den`. Fails exactly
    /// when the edge is zero or the probability is no proper fraction.
    /// The degenerate probabilities are pinned: at zero nothing is occupied,
    /// at one everything is.
    pub fn new(l: usize, p_num: u64, p_den: u64) -> (r: Result<PercolationLattice, PercError>)
        requires
            l * l + 2 <= usize::MAX,
        ensures
            r is Ok <==> (l >= 1 && p_den >= 1 && p_num <= p_den),
            r is Err ==> r == Result::<PercolationLattice, PercError>::Err(
                PercError::InvalidParameter,
            ),
            r is Ok ==> {
                let lat = r->Ok_0;
                &&& lat.wf()
                &&& lat.size() == l
                &&& (p_num == 0 ==> forall|i: int, j: int| !lat.occ(i, j))
                &&& (p_num == p_den ==> forall|i: int, j: int|
                    0 <= i < l && 0 <= j < l ==> lat.occ(i, j))
            },
    {
        if l == 0 || p_den == 0 || p_num > p_den {
            return Err(PercError::InvalidParameter);
        }
        let area = l * l;
        let mut cells: Vec<bool> = Vec::new();
        let mut k: usize = 0;
        while k < area
            invariant
                area == l * l,
                k <= area,
                p_den >= 1,
                cells@.len() == k,
                p_num == 0 ==> forall|m: int| 0 <= m < k ==> !cells@[m],
                p_num == p_den ==> forall|m: int| 0 <= m < k ==> cells@[m],
            decreases area - k,
        {
            let draw = random_in(0, p_den - 1);
            cells.push(draw < p_num);
            k = k + 1;
        }
        let lat = PercolationLattice { l, cells };
        proof {
            if p_num == 0 {
                assert forall|i: int, j: int| !#[trigger] lat.occ(i, j) by {
                    if 0 <= i < l && 0 <= j < l {
                        lemma_flat_index(l as int, i, j);
                    }
                }
            }
            if p_num == p_den {
                assert forall|i: int, j: int|
                    0 <= i < l && 0 <= j < l implies #[trigger] lat.occ(i, j) by {
                    lemma_flat_index(l as int, i, j);
                }
            }
        }
        Ok(lat)
    }

    /// Read-only occupancy lookup.
    pub fn occupied_at(&self, i: usize, j: usize) -> (r: bool)
        requires
            self.wf(),
            i < self.size(),
            j < self.size(),
        ensures
            r == self.occ(i as int, j as int),
    {
        proof {
            lemma_flat_index(self.size(), i as int, j as int);
        }
        self.cells[i * self.l + j]
    }

    /// Number of occupied sites, by a row-major scan.
    pub fn occupied_count(&self) -> (r: usize)
        requires
            self.wf(),
        ensures
            r == self.occupied_count_spec(),
    {
        let area = self.l * self.l;
        let mut r: usize = 0;
        let mut k: usize = 0;
        while k < area
            invariant
                self.wf(),
                area == self.size() * self.size(),
                k <= area,
                r == count_upto(self.occ_pred(), k as int),
                r <= k,
            decreases area - k,
        {
            proof {
                lemma_unflat_index(self.size(), k as int);
            }
            if self.cells[k] {
                r = r + 1;
            }
            k = k + 1;
        }
        r
    }
}

} // verus!
