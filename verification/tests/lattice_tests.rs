use percolation::lattice::PercError;
use percolation::lattice::PercolationLattice;

fn grid(l: usize, rows: &[&[u8]]) -> PercolationLattice {
    let mut cells = Vec::new();
    for row in rows {
        for &c in *row {
            cells.push(c != 0);
        }
    }
    PercolationLattice::from_cells(l, cells).unwrap()
}

#[test]
fn from_cells_rejects_zero_edge() {
    assert_eq!(
        PercolationLattice::from_cells(0, Vec::new()).unwrap_err(),
        PercError::InvalidParameter
    );
}

#[test]
fn from_cells_rejects_wrong_length() {
    assert_eq!(
        PercolationLattice::from_cells(2, vec![true, false, true]).unwrap_err(),
        PercError::InvalidParameter
    );
}

#[test]
fn new_rejects_bad_probability() {
    assert_eq!(
        PercolationLattice::new(4, 3, 2).unwrap_err(),
        PercError::InvalidParameter
    );
    assert_eq!(
        PercolationLattice::new(4, 1, 0).unwrap_err(),
        PercError::InvalidParameter
    );
    assert_eq!(
        PercolationLattice::new(0, 1, 2).unwrap_err(),
        PercError::InvalidParameter
    );
}

#[test]
fn occupancy_lookup_matches_cells() {
    let lat = grid(3, &[&[1, 0, 0], &[1, 1, 0], &[0, 1, 1]]);
    assert_eq!(lat.edge_len(), 3);
    assert!(lat.occupied_at(0, 0));
    assert!(!lat.occupied_at(0, 1));
    assert!(lat.occupied_at(2, 2));
    assert_eq!(lat.occupied_count(), 5);
}

#[test]
fn occupancy_grid_is_zero_one_copy() {
    let lat = grid(2, &[&[1, 0], &[0, 1]]);
    assert_eq!(lat.occupancy_grid(), vec![1, 0, 0, 1]);
}

#[test]
fn probability_zero_gives_empty_lattice() {
    let lat = PercolationLattice::new(8, 0, 100).unwrap();
    assert_eq!(lat.occupied_count(), 0);
    let (spans, _) = lat.burning_method();
    assert!(!spans);
    assert_eq!(lat.max_cluster_size(), 0);
    let (sizes, _) = lat.hoshen_kopelman();
    assert!(sizes.is_empty());
}

#[test]
fn probability_one_gives_full_lattice() {
    let lat = PercolationLattice::new(8, 100, 100).unwrap();
    assert_eq!(lat.occupied_count(), 64);
    let (spans, _) = lat.burning_method();
    assert!(spans);
    assert_eq!(lat.max_cluster_size(), 64);
    let (sizes, _) = lat.hoshen_kopelman();
    assert_eq!(sizes, vec![64]);
}

// The random source must actually vary its draws: if every uniform draw
// came back equal, a half-filled lattice would be all empty or all full.
#[test]
fn random_occupancy_is_neither_empty_nor_full() {
    let lat = PercolationLattice::new(20, 1, 2).unwrap();
    let n = lat.occupied_count();
    assert!(n > 0);
    assert!(n < 400);
}

#[test]
fn neighbours_interior_and_boundary() {
    let mid = percolation::analysis::neighbours(1, 1, 3);
    assert_eq!(mid, vec![(0, 1), (1, 0), (2, 1), (1, 2)]);
    let corner = percolation::analysis::neighbours(0, 0, 3);
    assert_eq!(corner, vec![(1, 0), (0, 1)]);
    let single = percolation::analysis::neighbours(0, 0, 1);
    assert!(single.is_empty());
}
