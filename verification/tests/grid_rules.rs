use settlement_sim::grid::{integer_root, Cell, Index};

#[test]
fn surroundings_keep_their_order() {
    assert_eq!(
        Index(1, 1).surroundings(3),
        vec![Index(1, 2), Index(2, 1), Index(1, 0), Index(0, 1)]
    );
}

#[test]
fn surroundings_stay_on_the_grid() {
    assert_eq!(Index(0, 0).surroundings(3), vec![Index(0, 1), Index(1, 0)]);
    assert_eq!(Index(2, 2).surroundings(3), vec![Index(2, 1), Index(1, 2)]);
    assert_eq!(Index(0, 2).surroundings(3), vec![Index(1, 2), Index(0, 1)]);
    assert_eq!(Index(2, 0).surroundings(3), vec![Index(2, 1), Index(1, 0)]);
    assert_eq!(Index(0, 0).surroundings(1), vec![]);
    assert_eq!(Index(0, 0).surroundings(0), vec![]);
    assert_eq!(Index(0, 0).surroundings(-4), vec![]);
}

#[test]
fn surroundings_of_a_cell_off_the_grid() {
    assert_eq!(Index(0, 3).surroundings(3), vec![Index(0, 2)]);
    assert_eq!(Index(3, 1).surroundings(3), vec![Index(2, 1)]);
    assert_eq!(Index(5, 5).surroundings(3), vec![]);
    assert_eq!(Index(usize::MAX, 0).surroundings(3), vec![]);
}

#[test]
fn coordinates_as_signed_numbers() {
    assert_eq!(Index(3, 9).as_isize(), (3, 9));
    assert_eq!(Index(0, isize::MAX as usize).as_isize(), (0, isize::MAX));
}

#[test]
fn distance_is_euclidean() {
    assert_eq!(Index(0, 0).dist_squared(Index(3, 4)), 25);
    assert_eq!(Index(3, 4).dist_squared(Index(0, 0)), 25);
    assert_eq!(Index(0, 0).dist(Index(3, 4)), 5_000_000);
    assert_eq!(Index(7, 7).dist(Index(7, 7)), 0);
    assert_eq!(Index(0, 0).dist(Index(1, 1)), 1_414_213);
    assert_eq!(Index(2, 0).dist(Index(0, 0)), 2_000_000);
}

#[test]
fn integer_root_rounds_down() {
    assert_eq!(integer_root(0), 0);
    assert_eq!(integer_root(1), 1);
    assert_eq!(integer_root(3), 1);
    assert_eq!(integer_root(4), 2);
    assert_eq!(integer_root(99), 9);
    assert_eq!(integer_root(100), 10);
    assert_eq!(integer_root((1u128 << 126) - 1), (1u64 << 63) - 1);
}

#[test]
fn cells_compare_by_state_and_id() {
    assert_eq!(Cell::Claimed(3), Cell::Claimed(3));
    assert_ne!(Cell::Claimed(3), Cell::Settled(3));
    assert_ne!(Cell::Claimed(3), Cell::Claimed(4));
    assert_ne!(Cell::Unclaimed, Cell::Claimed(0));
}
