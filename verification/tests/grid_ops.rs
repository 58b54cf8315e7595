use lenia::grid::{blank_grid, blank_row, copy_grid};
use lenia::{Lenia, Mode, ResourceExhausted, DEFAULT_KERNEL_RADIUS, FULL};

fn cleared(width: usize, height: usize, mode: Mode) -> Lenia {
    let mut engine = Lenia::new((width, height), ((0, 0), (0, 0)), Some(mode), None);
    engine.clear();
    engine
}

fn numbered(width: usize, height: usize) -> Lenia {
    let mut engine = cleared(width, height, Mode::Lenia);
    for row in 0..height {
        for col in 0..width {
            engine.set_cell(row, col, (row * width + col + 1) as u32);
        }
    }
    engine
}

#[test]
fn full_is_two_to_the_twenty_fourth() {
    assert_eq!(FULL, 16_777_216);
    assert_eq!(DEFAULT_KERNEL_RADIUS, 13);
}

#[test]
fn blank_rows_and_grids_hold_zeros() {
    assert_eq!(blank_row(0), Vec::<u32>::new());
    assert_eq!(blank_row(3), vec![0, 0, 0]);
    assert_eq!(blank_grid(2, 3), vec![vec![0, 0], vec![0, 0], vec![0, 0]]);
    assert_eq!(blank_grid(4, 0), Vec::<Vec<u32>>::new());
    assert_eq!(blank_grid(0, 2), vec![Vec::<u32>::new(), Vec::<u32>::new()]);
}

#[test]
fn copy_grid_copies_every_row() {
    let cells = vec![vec![1, 2, 3], vec![4, 5, 6]];
    let copy = copy_grid(&cells);
    assert_eq!(copy, cells);
}

#[test]
fn new_takes_defaults() {
    let engine = Lenia::new((4, 3), ((0, 1), (0, 1)), None, None);
    assert_eq!(engine.mode(), Mode::Lenia);
    assert_eq!(engine.kernel_radius(), 13);
    assert_eq!(engine.width(), 4);
    assert_eq!(engine.height(), 3);
    assert!(engine.active_cells().is_empty());
}

#[test]
fn new_takes_what_is_given() {
    let engine = Lenia::new((5, 7), ((0, 1), (0, 1)), Some(Mode::GameOfLife), Some(4));
    assert_eq!(engine.mode(), Mode::GameOfLife);
    assert_eq!(engine.kernel_radius(), 4);
    assert_eq!(engine.width(), 5);
    assert_eq!(engine.height(), 7);
    assert_eq!(engine.cells().len(), 7);
    for row in engine.cells() {
        assert_eq!(row.len(), 5);
    }
}

#[test]
fn new_with_no_cells() {
    let engine = Lenia::new((0, 0), ((0, 0), (0, 0)), Some(Mode::GameOfLife), None);
    assert_eq!(engine.width(), 0);
    assert_eq!(engine.height(), 0);
    let engine = Lenia::new((3, 0), ((0, 5), (0, 5)), None, None);
    assert_eq!(engine.width(), 3);
    assert_eq!(engine.height(), 0);
    let engine = Lenia::new((0, 3), ((0, 5), (0, 5)), None, None);
    assert_eq!(engine.width(), 0);
    assert_eq!(engine.height(), 3);
    assert_eq!(engine.cells(), &vec![Vec::<u32>::new(); 3]);
}

#[test]
fn resize_reports_the_new_dimensions() {
    let sizes = [(1, 1), (3, 9), (9, 3), (16, 16), (0, 4), (4, 0), (0, 0), (7, 2)];
    let mut engine = numbered(5, 4);
    for (width, height) in sizes {
        assert_eq!(engine.resize(width, height), Ok(()));
        assert_eq!(engine.width(), width);
        assert_eq!(engine.height(), height);
        assert_eq!(engine.cells().len(), height);
        for row in engine.cells() {
            assert_eq!(row.len(), width);
        }
    }
}

#[test]
fn resize_keeps_the_cells_that_stay() {
    for (width, height) in [(3, 2), (5, 9), (9, 2), (2, 9), (5, 4), (8, 8)] {
        let mut engine = numbered(5, 4);
        assert_eq!(engine.resize(width, height), Ok(()));
        for row in 0..height {
            for col in 0..width {
                let expected = if row < 4 && col < 5 { (row * 5 + col + 1) as u32 } else { 0 };
                assert_eq!(engine.cell(row, col), expected);
            }
        }
    }
}

#[test]
fn resize_shrink_then_grow_fills_with_zeros() {
    let mut engine = numbered(3, 3);
    assert_eq!(engine.resize(2, 2), Ok(()));
    assert_eq!(engine.cells(), &vec![vec![1, 2], vec![4, 5]]);
    assert_eq!(engine.resize(3, 3), Ok(()));
    assert_eq!(engine.cells(), &vec![vec![1, 2, 0], vec![4, 5, 0], vec![0, 0, 0]]);
}

#[test]
fn resize_on_one_axis_only() {
    let mut engine = numbered(3, 2);
    assert_eq!(engine.resize(4, 2), Ok(()));
    assert_eq!(engine.cells(), &vec![vec![1, 2, 3, 0], vec![4, 5, 6, 0]]);
    assert_eq!(engine.resize(4, 3), Ok(()));
    assert_eq!(engine.cells(), &vec![vec![1, 2, 3, 0], vec![4, 5, 6, 0], vec![0, 0, 0, 0]]);
    assert_eq!(engine.resize(4, 1), Ok(()));
    assert_eq!(engine.cells(), &vec![vec![1, 2, 3, 0]]);
}

#[test]
fn resize_to_the_same_size_changes_nothing() {
    let mut engine = cleared(6, 6, Mode::GameOfLife);
    engine.set_cell(2, 1, FULL);
    engine.set_cell(2, 2, FULL);
    engine.set_cell(2, 3, FULL);
    engine.compute_next_gol_frame();
    let cells = engine.cells().clone();
    let mut active = engine.active_cells();
    active.sort();
    assert!(!active.is_empty());
    for _ in 0..3 {
        assert_eq!(engine.resize(6, 6), Ok(()));
        assert_eq!(engine.cells(), &cells);
        let mut now = engine.active_cells();
        now.sort();
        assert_eq!(now, active);
    }
}

#[test]
fn resize_to_another_size_leaves_no_cell_active() {
    let mut engine = cleared(6, 6, Mode::GameOfLife);
    engine.set_cell(2, 1, FULL);
    engine.set_cell(2, 2, FULL);
    engine.set_cell(2, 3, FULL);
    engine.compute_next_gol_frame();
    assert!(!engine.active_cells().is_empty());
    assert_eq!(engine.resize(3, 3), Ok(()));
    assert!(engine.active_cells().is_empty());
    engine.compute_next_gol_frame();
    assert_eq!(engine.width(), 3);
    assert_eq!(engine.height(), 3);
}

#[test]
fn resize_keeps_mode_and_radius() {
    let mut engine = Lenia::new((4, 4), ((0, 1), (0, 1)), Some(Mode::GameOfLife), Some(5));
    assert_eq!(engine.resize(9, 2), Ok(()));
    assert_eq!(engine.mode(), Mode::GameOfLife);
    assert_eq!(engine.kernel_radius(), 5);
}

#[test]
fn resize_beyond_memory_is_refused_and_harmless() {
    let mut engine = numbered(3, 2);
    let before = engine.cells().clone();
    assert_eq!(engine.resize(usize::MAX, usize::MAX), Err(ResourceExhausted));
    assert_eq!(engine.cells(), &before);
    assert_eq!(engine.width(), 3);
    assert_eq!(engine.height(), 2);
    assert_eq!(engine.resize(usize::MAX, 2), Err(ResourceExhausted));
    assert_eq!(engine.cells(), &before);
    assert_eq!(engine.resize(3, usize::MAX), Err(ResourceExhausted));
    assert_eq!(engine.cells(), &before);
    assert_eq!(engine.width(), 3);
    assert_eq!(engine.height(), 2);
}

#[test]
fn clear_sets_every_cell_to_zero() {
    let mut engine = numbered(4, 3);
    engine.clear();
    assert_eq!(engine.cells(), &vec![vec![0u32; 4]; 3]);
    assert_eq!(engine.width(), 4);
    assert_eq!(engine.height(), 3);
}

#[test]
fn clear_keeps_the_active_cells() {
    let mut engine = cleared(6, 6, Mode::GameOfLife);
    engine.set_cell(2, 2, FULL);
    engine.compute_next_gol_frame();
    let mut active = engine.active_cells();
    active.sort();
    assert_eq!(active.len(), 9);
    engine.clear();
    let mut now = engine.active_cells();
    now.sort();
    assert_eq!(now, active);
}

#[test]
fn set_cell_writes_one_cell() {
    let mut engine = cleared(4, 3, Mode::Lenia);
    engine.set_cell(1, 2, 77);
    for row in 0..3 {
        for col in 0..4 {
            let expected = if (row, col) == (1, 2) { 77 } else { 0 };
            assert_eq!(engine.cell(row, col), expected);
        }
    }
    engine.set_cell(1, 2, FULL);
    assert_eq!(engine.cell(1, 2), FULL);
    engine.set_cell(2, 3, 1);
    assert_eq!(engine.cells(), &vec![vec![0, 0, 0, 0], vec![0, 0, FULL, 0], vec![0, 0, 0, 1]]);
}

#[test]
fn set_cell_leaves_the_active_cells_alone() {
    let mut engine = cleared(5, 5, Mode::GameOfLife);
    engine.set_cell(1, 1, FULL);
    assert!(engine.active_cells().is_empty());
    engine.compute_next_gol_frame();
    let mut active = engine.active_cells();
    active.sort();
    engine.set_cell(4, 4, FULL);
    let mut now = engine.active_cells();
    now.sort();
    assert_eq!(now, active);
}
