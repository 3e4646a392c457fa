use algorithms::percolation::{convert_2d_to_index, Percolation};
use algorithms::uf::UF;

#[test]
fn small() {
    let mut perc = Percolation::new(3);
    perc.open(0, 1);
    perc.open(1, 1);
    assert_eq!(perc.percolates(), false);
}

#[test]
fn percolate() {
    let mut perc = Percolation::new(2);
    assert_eq!(perc.percolates(), false);
    perc.open(0, 0);
    assert_eq!(perc.percolates(), false);
    perc.open(1, 0);
    assert_eq!(perc.percolates(), true);
}

#[test]
fn is_full() {
    let mut perc = Percolation::new(2);
    assert_eq!(perc.is_full(1, 0), false);

    perc.grid[1] = true;
    perc.grid[3] = true;
    // 1, 0 CENTER site
    perc.uf.union(perc.virtual_top, 3);
    // 0, 0 UP
    perc.uf.union(perc.virtual_top, 1);

    assert_eq!(perc.is_full(1, 0), true);

    perc.grid[3] = false;
    assert_eq!(perc.is_full(1, 0), false);
}

#[test]
fn is_open() {
    let mut uf = Percolation::new(2);
    uf.grid[1] = false;
    assert_eq!(uf.is_open(0, 0), false);

    uf.grid[1] = true;
    assert_eq!(uf.is_open(0, 0), true);
}

#[test]
fn test_convert_2d_to_index() {
    assert_eq!(convert_2d_to_index(2, 1, 1), 4);
}

#[test]
fn open() {
    let mut uf = Percolation::new(2);
    assert_eq!(uf.grid[1], false);
    uf.open(0, 0);
    assert_eq!(uf.grid[1], true);
}

#[test]
fn index_mapping_is_injective_and_avoids_virtual_sites() {
    let n: u32 = 3;
    let mut seen: Vec<u32> = Vec::new();
    for i in 0..n {
        for j in 0..n {
            let idx = convert_2d_to_index(n, i, j);
            assert_ne!(idx, 0); // virtual top
            assert_ne!(idx, n * n + 1); // virtual bottom
            assert!(!seen.contains(&idx));
            seen.push(idx);
        }
    }
}

#[test]
fn open_is_idempotent() {
    let mut perc = Percolation::new(2);
    perc.open(0, 0);
    assert_eq!(perc.is_open(0, 0), true);
    perc.open(0, 0);
    assert_eq!(perc.is_open(0, 0), true);
    assert_eq!(perc.percolates(), false);
}

#[test]
fn open_disconnected_cell_is_not_full() {
    let mut perc = Percolation::new(3);
    perc.open(0, 0);
    perc.open(2, 2);
    // (2, 2) is open but no chain of open cells reaches row 0
    assert_eq!(perc.is_open(2, 2), true);
    assert_eq!(perc.is_full(2, 2), false);
    assert_eq!(perc.is_full(0, 0), true);
}

#[test]
fn top_row_cells_fill_as_soon_as_opened() {
    let mut perc = Percolation::new(3);
    assert_eq!(perc.is_full(0, 2), false); // closed, despite the wiring
    perc.open(0, 2);
    assert_eq!(perc.is_full(0, 2), true);
}

#[test]
fn one_by_one_grid_percolates_after_single_open() {
    let mut perc = Percolation::new(1);
    perc.open(0, 0);
    assert_eq!(perc.percolates(), true);
    assert_eq!(perc.is_full(0, 0), true);
}
