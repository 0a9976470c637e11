use percolation::oslo::flux_ratio_exceeds;
use percolation::oslo::size_occurrences;
use percolation::oslo::window_sum;
use percolation::oslo::FixedSizeDeque;
use percolation::oslo::OsloModel;

#[test]
fn fixed_size_deque_drops_oldest_when_full() {
    let mut w: FixedSizeDeque<u32> = FixedSizeDeque::new(3);
    w.push(1);
    w.push(2);
    w.push(3);
    assert_eq!(w.len(), 3);
    w.push(4);
    assert_eq!(w.len(), 3);
    assert_eq!(*w.get(0), 2);
    assert_eq!(*w.get(1), 3);
    assert_eq!(*w.get(2), 4);
    assert_eq!(w.pop_front(), Some(2));
    assert_eq!(w.len(), 2);
}

#[test]
fn fixed_size_deque_empty_pop() {
    let mut w: FixedSizeDeque<u8> = FixedSizeDeque::new(2);
    assert_eq!(w.pop_front(), None);
    assert_eq!(w.len(), 0);
}

// A zero-capacity window still admits values: pushing onto it first pops
// nothing (it is empty), then appends.
#[test]
fn fixed_size_deque_zero_capacity_still_grows() {
    let mut w: FixedSizeDeque<u8> = FixedSizeDeque::new(0);
    w.push(7);
    assert_eq!(w.len(), 1);
    w.push(8);
    assert_eq!(w.len(), 2);
}

#[test]
fn window_sum_adds_all_values() {
    let mut w: FixedSizeDeque<u64> = FixedSizeDeque::new(4);
    assert_eq!(window_sum(&w), 0);
    w.push(5);
    w.push(7);
    w.push(1);
    assert_eq!(window_sum(&w), 13);
}

#[test]
fn flux_ratio_comparison_is_exact() {
    // 9 / 10 > 8 / 10, and 9 / 10 is not > 9 / 10
    assert!(flux_ratio_exceeds(9, 10, 8, 10));
    assert!(!flux_ratio_exceeds(9, 10, 9, 10));
    assert!(!flux_ratio_exceeds(0, 10, 0, 10));
    assert!(flux_ratio_exceeds(11, 10, 10, 10));
}

#[test]
fn size_occurrences_counts_each_value() {
    let sizes = vec![0u64, 3, 3, 1, 3, 0];
    let occ = size_occurrences(&sizes);
    let mut found = std::collections::BTreeMap::new();
    for (v, c) in occ {
        assert!(found.insert(v, c).is_none(), "duplicate key");
    }
    assert_eq!(found.get(&0), Some(&2));
    assert_eq!(found.get(&1), Some(&1));
    assert_eq!(found.get(&3), Some(&3));
    assert_eq!(found.len(), 3);
}

#[test]
fn size_occurrences_of_empty_is_empty() {
    let occ = size_occurrences(&Vec::new());
    assert!(occ.is_empty());
}

#[test]
fn run_returns_one_size_per_drive() {
    let mut model = OsloModel::new(16);
    let sizes = model.run(50);
    assert_eq!(sizes.len(), 51);
    assert_eq!(sizes[0], 0);
}

#[test]
fn relax_on_stable_pile_does_nothing() {
    let mut model = OsloModel::new(8);
    // a fresh pile is stable, so the first relaxation has no avalanche
    let (s, efflux) = model.relax();
    assert_eq!(s, 0);
    assert_eq!(efflux, 0);
}

#[test]
fn drive_then_relax_keeps_the_pile_running() {
    let mut model = OsloModel::new(4);
    let mut total: u64 = 0;
    for _ in 0..200 {
        model.drive();
        let (s, e) = model.relax();
        assert!(e <= s);
        total += s;
    }
    // 200 grains into a 4-site pile must topple something
    assert!(total > 0);
}

#[test]
fn run_and_analyse_tabulates_its_own_sizes() {
    let mut model = OsloModel::new(8);
    let (sizes, occ) = model.run_and_analyse(100);
    assert_eq!(sizes.len(), 101);
    let mut counted: u64 = 0;
    for (v, c) in &occ {
        assert!(*c > 0);
        assert_eq!(*c as usize, sizes.iter().filter(|&&x| x == *v).count());
        counted += c;
    }
    assert_eq!(counted as usize, sizes.len());
}
