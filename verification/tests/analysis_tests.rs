use percolation::lattice::PercolationLattice;

fn grid(l: usize, rows: &[&[u8]]) -> PercolationLattice {
    let mut cells = Vec::new();
    for row in rows {
        for &c in *row {
            cells.push(c != 0);
        }
    }
    PercolationLattice::from_cells(l, cells).unwrap()
}

// Degenerate scenario: a single occupied site spans its own row trivially.
#[test]
fn single_site_lattice() {
    let lat = grid(1, &[&[1]]);
    let (spans, burn) = lat.burning_method();
    assert!(spans);
    assert_eq!(burn, vec![2]);
    assert_eq!(lat.max_cluster_size(), 1);
    let (sizes, labels) = lat.hoshen_kopelman();
    assert_eq!(sizes, vec![1]);
    assert_eq!(labels, vec![2]);
}

// Degenerate scenario: the full 2 x 2 lattice is one cluster of four.
#[test]
fn full_two_by_two() {
    let lat = grid(2, &[&[1, 1], &[1, 1]]);
    let (spans, _) = lat.burning_method();
    assert!(spans);
    assert_eq!(lat.max_cluster_size(), 4);
    let (sizes, labels) = lat.hoshen_kopelman();
    assert_eq!(sizes, vec![4]);
    assert_eq!(labels, vec![2, 2, 2, 2]);
}

#[test]
fn burning_marks_exactly_the_reachable_sites() {
    // column 0 burns from the top; the isolated pair at the right does not
    let lat = grid(3, &[&[1, 0, 0], &[1, 0, 1], &[1, 0, 1]]);
    let (spans, burn) = lat.burning_method();
    assert!(spans);
    assert!(burn[0] >= 2 && burn[3] >= 2 && burn[6] >= 2);
    assert_eq!(burn[1], 0);
    assert_eq!(burn[5], 1);
    assert_eq!(burn[8], 1);
}

#[test]
fn burning_detects_no_span_across_a_gap() {
    let lat = grid(3, &[&[1, 1, 1], &[0, 0, 0], &[1, 1, 1]]);
    let (spans, burn) = lat.burning_method();
    assert!(!spans);
    // the whole top row burns, the bottom row stays occupied-unburned
    assert!(burn[0] >= 2 && burn[1] >= 2 && burn[2] >= 2);
    assert_eq!(&burn[6..9], &[1, 1, 1]);
}

#[test]
fn spanning_path_may_wind() {
    let lat = grid(3, &[&[1, 1, 0], &[0, 1, 0], &[0, 1, 1]]);
    let (spans, _) = lat.burning_method();
    assert!(spans);
    assert_eq!(lat.max_cluster_size(), 5);
}

// Partition: the cluster sizes sum to the occupied-site count.
#[test]
fn cluster_sizes_partition_occupied_sites() {
    let lat = grid(4, &[&[1, 1, 0, 1], &[0, 1, 0, 1], &[1, 0, 0, 0], &[1, 1, 0, 1]]);
    let (sizes, _) = lat.hoshen_kopelman();
    let total: usize = sizes.iter().sum();
    assert_eq!(total, lat.occupied_count());
    assert_eq!(total, 9);
    // scan order: the {(0,0),(0,1),(1,1)} cluster, then the right column
    // pair, then the lower-left triple, then the lone corner
    assert_eq!(sizes, vec![3, 2, 3, 1]);
}

// Cross-check: the component sizer agrees with the labeler's largest size.
#[test]
fn max_cluster_size_matches_labeling() {
    let configs: Vec<(usize, Vec<Vec<u8>>)> = vec![
        (1, vec![vec![0]]),
        (2, vec![vec![1, 0], vec![0, 1]]),
        (3, vec![vec![1, 1, 0], vec![0, 1, 0], vec![1, 1, 1]]),
        (4, vec![vec![1, 0, 1, 1], vec![1, 0, 0, 1], vec![1, 1, 0, 0], vec![0, 1, 1, 1]]),
    ];
    for (l, rows) in configs {
        let borrowed: Vec<&[u8]> = rows.iter().map(|r| r.as_slice()).collect();
        let lat = grid(l, &borrowed);
        let (sizes, _) = lat.hoshen_kopelman();
        let max_of_sizes = sizes.iter().copied().max().unwrap_or(0);
        assert_eq!(lat.max_cluster_size(), max_of_sizes);
    }
}

#[test]
fn labels_agree_exactly_on_connected_sites() {
    let lat = grid(3, &[&[1, 0, 1], &[1, 0, 1], &[1, 1, 1]]);
    let (sizes, labels) = lat.hoshen_kopelman();
    // everything occupied is one cluster here
    assert_eq!(sizes, vec![7]);
    let occupied_labels: Vec<usize> =
        labels.iter().copied().filter(|&v| v != 0).collect();
    assert!(occupied_labels.iter().all(|&v| v == occupied_labels[0]));
    let lat2 = grid(3, &[&[1, 0, 1], &[1, 0, 1], &[1, 0, 1]]);
    let (sizes2, labels2) = lat2.hoshen_kopelman();
    assert_eq!(sizes2, vec![3, 3]);
    assert_ne!(labels2[0], labels2[2]);
    assert_eq!(labels2[0], labels2[3]);
}

// Monotonicity scenario: adding occupied sites cannot destroy spanning.
#[test]
fn spanning_survives_added_sites() {
    let sparse = grid(3, &[&[0, 1, 0], &[0, 1, 0], &[0, 1, 0]]);
    let dense = grid(3, &[&[0, 1, 1], &[1, 1, 0], &[0, 1, 1]]);
    let (spans_sparse, _) = sparse.burning_method();
    let (spans_dense, _) = dense.burning_method();
    assert!(spans_sparse);
    assert!(spans_dense);
}

#[test]
fn diagonal_sites_are_not_connected() {
    let lat = grid(2, &[&[1, 0], &[0, 1]]);
    let (spans, _) = lat.burning_method();
    assert!(!spans);
    assert_eq!(lat.max_cluster_size(), 1);
    let (sizes, _) = lat.hoshen_kopelman();
    assert_eq!(sizes, vec![1, 1]);
}

// Burn rounds grow along the fire front: a single column burns top to
// bottom in rounds 2, 3, 4.
#[test]
fn burn_rounds_follow_the_front() {
    let lat = grid(3, &[&[1, 0, 0], &[1, 0, 0], &[1, 0, 0]]);
    let (spans, burn) = lat.burning_method();
    assert!(spans);
    assert_eq!(burn[0], 2);
    assert_eq!(burn[3], 3);
    assert_eq!(burn[6], 4);
}

// Propagation: every site burnt after the seeding round caught fire from
// a neighbour burnt exactly one round earlier.
#[test]
fn burnt_sites_have_a_parent_round() {
    let l = 3usize;
    let lat = grid(l, &[&[1, 1, 0], &[0, 1, 0], &[0, 1, 1]]);
    let (spans, burn) = lat.burning_method();
    assert!(spans);
    for i in 0..l {
        for j in 0..l {
            let v = burn[i * l + j];
            if v > 2 {
                let parents = percolation::analysis::neighbours(i, j, l)
                    .into_iter()
                    .filter(|&(a, b)| burn[a * l + b] + 1 == v)
                    .count();
                assert!(parents > 0);
            }
        }
    }
}
