//! Game-level scenarios: flood fill extent, marking rules, win and loss
//! detection, status messages, reset, and the action dispatcher.

use rand::rngs::StdRng;
use rand::SeedableRng;
use rustsweeper::model::{Cell, CellState, Field};
use rustsweeper::{Action, NUMBER_OF_MINES};

fn mine_into(field: &mut Field, x: u8, y: u8) {
    field.set_cell(
        (x, y),
        Cell {
            mine: true,
            neighbors: 0,
            state: CellState::Unmarked,
        },
    );
}

/// A 3x5 board with mines at (0,1), (1,1) and (1,2), counts computed.
fn standard_board() -> Field {
    let mut field = Field::new(3, 5);
    mine_into(&mut field, 0, 1);
    mine_into(&mut field, 1, 1);
    mine_into(&mut field, 1, 2);
    field.calc_neighbors();
    field
}

#[test]
fn flood_reveals_region_and_border_only() {
    let mut field = standard_board();
    field.reveal_cell((0, 4));
    // The zero-neighbor region is the whole bottom row, its border the row
    // above it; nothing else changes.
    for x in 0..3u8 {
        assert_eq!(field.cell((x, 4)).state, CellState::Revealed);
        assert_eq!(field.cell((x, 3)).state, CellState::Revealed);
        assert_eq!(field.cell((x, 0)).state, CellState::Unmarked);
        assert_eq!(field.cell((x, 1)).state, CellState::Unmarked);
        assert_eq!(field.cell((x, 2)).state, CellState::Unmarked);
    }
}

#[test]
fn reveal_twice_changes_nothing() {
    let mut field = standard_board();
    field.reveal_cell((0, 4));
    let once = field.to_field();
    field.reveal_cell((0, 4));
    assert_eq!(field.to_field(), once);
}

#[test]
fn marked_cell_blocks_reveal_and_flood() {
    let mut field = standard_board();
    field.toggle_marked((1, 4));
    field.reveal_cell((1, 4));
    assert_eq!(field.cell((1, 4)).state, CellState::Marked);
    // The mark also fences the flood off from the far corner.
    field.reveal_cell((0, 4));
    assert_eq!(field.cell((0, 4)).state, CellState::Revealed);
    assert_eq!(field.cell((1, 4)).state, CellState::Marked);
    assert_eq!(field.cell((2, 4)).state, CellState::Unmarked);
    // Unmarking frees the cell for revealing again.
    field.toggle_marked((1, 4));
    field.reveal_cell((1, 4));
    assert_eq!(field.cell((1, 4)).state, CellState::Revealed);
}

#[test]
fn revealed_cell_cannot_be_marked() {
    let mut field = standard_board();
    field.reveal_cell((2, 0));
    assert_eq!(field.cell((2, 0)).state, CellState::Revealed);
    field.toggle_marked((2, 0));
    assert_eq!(field.cell((2, 0)).state, CellState::Revealed);
}

#[test]
fn win_detection() {
    let mut field = Field::new(2, 1);
    mine_into(&mut field, 0, 0);
    field.calc_neighbors();
    field.reveal_cell((1, 0));
    assert!(field.won());
    assert!(!field.lost());
    assert!(field.game_over());
    assert_eq!(field.message(), "Game won!");
}

#[test]
fn loss_detection() {
    let mut field = standard_board();
    field.reveal_cell((1, 1));
    assert!(field.lost());
    assert!(field.game_over());
    assert_eq!(field.message(), "Game lost!");
}

#[test]
fn progress_message_counts_marks_and_mines() {
    let mut field = standard_board();
    assert_eq!(field.message(), "Found 0 of 3 mines.");
    field.toggle_marked((0, 1));
    field.toggle_marked((2, 2));
    assert_eq!(field.message(), "Found 2 of 3 mines.");
    assert!(!field.game_over());
}

#[test]
fn message_on_fresh_board() {
    let field = Field::new(3, 5);
    assert_eq!(field.message(), "Found 0 of 0 mines.");
}

#[test]
fn reset_equals_fresh_grid() {
    let mut field = standard_board();
    field.reveal_cell((0, 4));
    field.toggle_marked((0, 1));
    field.reset();
    let fresh = Field::new(3, 5);
    assert_eq!(field.to_field(), fresh.to_field());
    assert_eq!(field.width, fresh.width);
    assert_eq!(field.height, fresh.height);
}

#[test]
fn mine_count_after_seeded_placement() {
    let mut rng = StdRng::seed_from_u64(7);
    let mut field = Field::new(9, 9);
    field.place_mines(10, &mut rng);
    let mines = field.cells.iter().filter(|cell| cell.mine).count();
    assert_eq!(mines, 10);
    // States and neighbor counts are untouched by placement.
    assert!(field
        .cells
        .iter()
        .all(|cell| cell.state == CellState::Unmarked && cell.neighbors == 0));
}

#[test]
fn prepare_mines_places_and_counts() {
    let mut field = Field::new(9, 9);
    field.prepare_mines(NUMBER_OF_MINES);
    let mines = field.cells.iter().filter(|cell| cell.mine).count();
    assert_eq!(mines, 10);
    // Every stored count matches a hand count of the adjacent mines.
    for y in 0..9i32 {
        for x in 0..9i32 {
            let mut count = 0;
            for dy in -1..=1i32 {
                for dx in -1..=1i32 {
                    if (dx, dy) == (0, 0) {
                        continue;
                    }
                    let (nx, ny) = (x + dx, y + dy);
                    if (0..9).contains(&nx)
                        && (0..9).contains(&ny)
                        && field.cell((nx as u8, ny as u8)).mine
                    {
                        count += 1;
                    }
                }
            }
            assert_eq!(field.cell((x as u8, y as u8)).neighbors, count);
        }
    }
}

#[test]
fn place_mines_can_fill_the_grid() {
    let mut rng = StdRng::seed_from_u64(1);
    let mut field = Field::new(3, 5);
    field.place_mines(15, &mut rng);
    assert!(field.cells.iter().all(|cell| cell.mine));
}

#[test]
fn corner_and_edge_neighbor_counts() {
    // A mine in the corner: only its three in-bounds neighbors count it.
    let mut field = Field::new(3, 3);
    mine_into(&mut field, 0, 0);
    field.calc_neighbors();
    assert_eq!(field.cell((1, 0)).neighbors, 1);
    assert_eq!(field.cell((0, 1)).neighbors, 1);
    assert_eq!(field.cell((1, 1)).neighbors, 1);
    assert_eq!(field.cell((2, 0)).neighbors, 0);
    assert_eq!(field.cell((2, 2)).neighbors, 0);
}

#[test]
fn update_dispatches_actions() {
    let mut field = standard_board();
    assert!(field.update(Action::ToggleMark((0, 0))));
    assert_eq!(field.cell((0, 0)).state, CellState::Marked);
    assert!(field.update(Action::ToggleMark((0, 0))));
    assert_eq!(field.cell((0, 0)).state, CellState::Unmarked);
    assert!(field.update(Action::Reveal((0, 4))));
    assert_eq!(field.cell((0, 4)).state, CellState::Revealed);
    assert!(field.update(Action::Restart));
    let mines = field.cells.iter().filter(|cell| cell.mine).count();
    assert_eq!(mines, NUMBER_OF_MINES as usize);
    assert!(field
        .cells
        .iter()
        .all(|cell| cell.state == CellState::Unmarked));
    assert!(!field.lost());
}

#[test]
fn default_cell_state_is_unmarked() {
    assert_eq!(CellState::default(), CellState::Unmarked);
    assert_eq!(Field::new(4, 4).cell_count(), 16);
}
