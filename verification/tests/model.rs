//! The engine's unit tests: construction, setup, and the two transitions.

use rand::rngs::StdRng;
use rand::SeedableRng;
use rustsweeper::model::{Cell, CellState, Field};

#[test]
fn new() {
    let field = Field::new(3, 5);
    assert_eq!(field.width, 3);
    assert_eq!(field.height, 5);
    assert_eq!(field.cells.len(), 3 * 5);
}

#[test]
fn index() {
    let field = Field::new(3, 5);
    let cell = field.cell((0, 1));
    assert!(!cell.mine);
    assert_eq!(cell.state, CellState::Unmarked);
    assert_eq!(cell.neighbors, 0);
}

#[test]
fn reset() {
    let mut field = Field::new(3, 5);
    field.set_cell(
        (1, 1),
        Cell {
            mine: true,
            neighbors: 4,
            state: CellState::Revealed,
        },
    );
    field.reset();
    let cell = field.cell((1, 1));
    assert!(!cell.mine);
    assert_eq!(cell.state, CellState::Unmarked);
    assert_eq!(cell.neighbors, 0)
}

#[test]
fn place_mine() {
    let mut rng = StdRng::seed_from_u64(23);
    let mut field = Field::new(3, 5);
    field.place_mine(&mut rng);
    assert!(field.cell((0, 4)).mine);
}

#[test]
fn place_mines() {
    let mut rng = StdRng::seed_from_u64(23);
    let mut field = Field::new(3, 5);
    field.place_mines(4, &mut rng);
    let mines = field.cells.iter().filter(|cell| cell.mine).count();
    assert_eq!(mines, 4)
}

fn mine_at(field: &mut Field, x: u8, y: u8) {
    field.set_cell(
        (x, y),
        Cell {
            mine: true,
            neighbors: 0,
            state: CellState::Unmarked,
        },
    );
}

#[test]
fn calc_neighbors() {
    // 2 2 1
    // X X 2
    // 3 X 2
    // 1 1 1
    // 0 0 0
    let mut field = Field::new(3, 5);
    mine_at(&mut field, 0, 1);
    mine_at(&mut field, 1, 1);
    mine_at(&mut field, 1, 2);
    field.calc_neighbors();
    let expected: [[u8; 3]; 5] = [[2, 2, 1], [2, 2, 2], [3, 2, 2], [1, 1, 1], [0, 0, 0]];
    for y in 0..5u8 {
        for x in 0..3u8 {
            assert_eq!(field.cell((x, y)).neighbors, expected[y as usize][x as usize]);
        }
    }
}

#[test]
fn reveal_cell() {
    let mut field = Field::new(3, 5);
    mine_at(&mut field, 0, 0);
    field.set_cell(
        (1, 0),
        Cell {
            mine: false,
            neighbors: 1,
            state: CellState::Unmarked,
        },
    );
    field.reveal_cell((1, 0));
    assert_eq!(field.cell((1, 0)).state, CellState::Revealed);
    assert_eq!(field.cell((2, 0)).state, CellState::Unmarked);
    field.reveal_cell((2, 0));
    assert_eq!(field.cell((2, 0)).state, CellState::Revealed);
    assert_eq!(field.cell((2, 1)).state, CellState::Revealed);
}

#[test]
fn toggle_marked() {
    let mut field = Field::new(3, 5);
    mine_at(&mut field, 0, 0);
    field.toggle_marked((1, 0));
    assert_eq!(field.cell((1, 0)).state, CellState::Marked);
    assert_eq!(field.cell((2, 0)).state, CellState::Unmarked);
    field.toggle_marked((2, 0));
    assert_eq!(field.cell((2, 0)).state, CellState::Marked);
    assert_eq!(field.cell((2, 1)).state, CellState::Unmarked);
}

#[test]
fn to_field() {
    let field = Field::new(3, 5);
    let vec = field.to_field();
    assert_eq!(vec.len(), 5);
    let first_row = vec.first();
    assert!(first_row.is_some());
    assert_eq!(first_row.unwrap().len(), 3);
}
