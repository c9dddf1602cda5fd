use particle_engine::grid::Grid;
use particle_engine::pool::Pool;

/// Entries are intervals on a line that is cut into cells of width ten.
fn overlaps(span: &(i32, i32), cell: usize) -> bool {
    let lo = cell as i32 * 10;
    span.0 < lo + 10 && span.1 > lo
}

fn line(spans: &[(i32, i32)]) -> Pool<(i32, i32)> {
    let mut pool = Pool::new(spans.len());
    for s in spans {
        pool.spawn(*s);
    }
    pool
}

fn all_pairs(grid: &Grid) -> Vec<(usize, usize)> {
    let mut out = Vec::new();
    for cell in 0..grid.cell_count() {
        out.extend(grid.pairs_in(cell));
    }
    out
}

#[test]
fn new_grid_has_empty_cells() {
    let grid = Grid::new(8, 16);
    assert_eq!(grid.cols(), 8);
    assert_eq!(grid.rows(), 16);
    assert_eq!(grid.cell_count(), 128);
    assert_eq!(grid.population(), 0);
    for cell in 0..128 {
        assert!(grid.members(cell).unwrap().is_empty());
        assert!(grid.pairs_in(cell).is_empty());
    }
    assert!(grid.members(128).is_none());
}

#[test]
fn cells_are_numbered_along_the_rows() {
    let grid = Grid::new(8, 16);
    assert_eq!(grid.position(0), Some((0, 0)));
    assert_eq!(grid.position(7), Some((7, 0)));
    assert_eq!(grid.position(8), Some((0, 1)));
    assert_eq!(grid.position(127), Some((7, 15)));
    assert_eq!(grid.position(128), None);
    for cell in 0..128 {
        let (col, row) = grid.position(cell).unwrap();
        assert_eq!(row * 8 + col, cell);
    }
}

#[test]
fn a_grid_without_cells_holds_nothing() {
    let mut grid = Grid::new(0, 5);
    assert_eq!(grid.cell_count(), 0);
    assert_eq!(grid.position(0), None);
    let pool = line(&[(0, 5)]);
    grid.rebuild(&pool, overlaps);
    assert_eq!(grid.population(), 1);
    assert_eq!(grid.cells_of(0).unwrap(), &Vec::<usize>::new());
    assert!(all_pairs(&grid).is_empty());
}

#[test]
fn rebuild_enters_each_slot_into_every_cell_it_overlaps() {
    let mut grid = Grid::new(4, 1);
    let pool = line(&[(1, 4), (8, 12), (12, 31), (35, 39), (50, 60)]);
    grid.rebuild(&pool, overlaps);
    assert_eq!(grid.population(), 5);
    assert_eq!(grid.members(0).unwrap(), &vec![0, 1]);
    assert_eq!(grid.members(1).unwrap(), &vec![1, 2]);
    assert_eq!(grid.members(2).unwrap(), &vec![2]);
    assert_eq!(grid.members(3).unwrap(), &vec![2, 3]);
    assert_eq!(grid.cells_of(0).unwrap(), &vec![0]);
    assert_eq!(grid.cells_of(1).unwrap(), &vec![0, 1]);
    assert_eq!(grid.cells_of(2).unwrap(), &vec![1, 2, 3]);
    assert_eq!(grid.cells_of(4).unwrap(), &Vec::<usize>::new());
    assert!(grid.cells_of(5).is_none());
}

#[test]
fn rebuild_forgets_the_previous_tick() {
    let mut grid = Grid::new(4, 1);
    grid.rebuild(&line(&[(1, 4), (2, 3), (25, 26)]), overlaps);
    assert_eq!(grid.members(0).unwrap(), &vec![0, 1]);
    grid.rebuild(&line(&[(31, 32)]), overlaps);
    assert_eq!(grid.population(), 1);
    assert!(grid.members(0).unwrap().is_empty());
    assert!(grid.members(2).unwrap().is_empty());
    assert_eq!(grid.members(3).unwrap(), &vec![0]);
    assert_eq!(grid.cols(), 4);
    assert_eq!(grid.rows(), 1);
}

#[test]
fn pairs_of_a_cell_come_in_dictionary_order() {
    let mut grid = Grid::new(1, 1);
    grid.rebuild(&line(&[(0, 1), (1, 2), (2, 3), (3, 4)]), overlaps);
    assert_eq!(grid.pairs_in(0), vec![(0, 1), (0, 2), (0, 3), (1, 2), (1, 3), (2, 3)]);
    assert!(grid.pairs_in(1).is_empty());
}

#[test]
fn a_single_cell_pairs_every_two_slots() {
    let mut grid = Grid::new(1, 1);
    let spans: Vec<(i32, i32)> = (0..7).map(|i| (i, i + 1)).collect();
    grid.rebuild(&line(&spans), |_, _| true);
    assert_eq!(grid.pairs_in(0).len(), 21);
}

#[test]
fn a_straddling_pair_is_listed_once() {
    let mut grid = Grid::new(3, 1);
    // both spans cover cells 0, 1 and 2
    grid.rebuild(&line(&[(5, 25), (8, 22)]), overlaps);
    assert_eq!(grid.members(0).unwrap(), &vec![0, 1]);
    assert_eq!(grid.members(1).unwrap(), &vec![0, 1]);
    assert_eq!(grid.members(2).unwrap(), &vec![0, 1]);
    assert_eq!(grid.pairs_in(0), vec![(0, 1)]);
    assert!(grid.pairs_in(1).is_empty());
    assert!(grid.pairs_in(2).is_empty());
}

#[test]
fn a_pair_is_listed_in_the_first_cell_it_shares() {
    let mut grid = Grid::new(4, 1);
    // slot 0 covers cells 0..=2, slot 1 covers cells 1..=3, slot 2 covers cell 2
    grid.rebuild(&line(&[(5, 25), (15, 35), (21, 22)]), overlaps);
    assert!(grid.pairs_in(0).is_empty());
    assert_eq!(grid.pairs_in(1), vec![(0, 1)]);
    assert_eq!(grid.pairs_in(2), vec![(0, 2), (1, 2)]);
    assert!(grid.pairs_in(3).is_empty());
}

#[test]
fn every_sharing_pair_is_listed_exactly_once_over_all_cells() {
    let mut grid = Grid::new(6, 1);
    let spans = [(0, 15), (5, 8), (12, 33), (14, 18), (29, 41), (38, 60), (59, 61), (100, 101)];
    grid.rebuild(&line(&spans), overlaps);
    let listed = all_pairs(&grid);
    for a in 0..spans.len() {
        for b in (a + 1)..spans.len() {
            let share = (0..6).any(|c| overlaps(&spans[a], c) && overlaps(&spans[b], c));
            let times = listed.iter().filter(|p| **p == (a, b)).count();
            assert_eq!(times, if share { 1 } else { 0 });
        }
    }
    assert!(listed.iter().all(|p| p.0 < p.1));
}

#[test]
fn slots_that_overlap_no_cell_are_in_no_pair() {
    let mut grid = Grid::new(2, 1);
    grid.rebuild(&line(&[(-30, -20), (-25, -21), (3, 4)]), overlaps);
    assert_eq!(grid.members(0).unwrap(), &vec![2]);
    assert!(all_pairs(&grid).is_empty());
}

#[test]
fn all_pairs_lists_the_cells_in_order() {
    let mut grid = Grid::new(4, 1);
    grid.rebuild(&line(&[(5, 25), (15, 35), (21, 22), (1, 2)]), overlaps);
    // cell 0 holds {0, 3}; cell 1 holds {0, 1}; cell 2 holds {0, 1, 2}
    assert_eq!(grid.all_pairs(), vec![(0, 3), (0, 1), (0, 2), (1, 2)]);
    assert_eq!(grid.all_pairs(), all_pairs(&grid));
}

#[test]
fn all_pairs_names_no_pair_twice() {
    let mut grid = Grid::new(5, 1);
    grid.rebuild(&line(&[(0, 50), (0, 50), (0, 50), (45, 46)]), |_, _| true);
    let pairs = grid.all_pairs();
    assert_eq!(pairs, vec![(0, 1), (0, 2), (0, 3), (1, 2), (1, 3), (2, 3)]);
}

#[test]
fn pairs_drive_one_encounter_each() {
    let mut grid = Grid::new(3, 1);
    let mut pool = line(&[(5, 25), (8, 22), (100, 101)]);
    grid.rebuild(&pool, overlaps);
    let pairs = grid.all_pairs();
    assert_eq!(pairs, vec![(0, 1)]);
    // an encounter swaps the two spans
    let resolved = pool.resolve_all(&pairs, |a, b| (*b, *a));
    assert_eq!(resolved, 1);
    assert_eq!(pool.map_active(|s| *s), vec![(8, 22), (5, 25), (100, 101)]);
}
