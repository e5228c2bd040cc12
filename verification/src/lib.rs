//! Rustsweeper: a verified Minesweeper grid engine.
//!
//! The engine owns a rectangular grid of cells, places mines, computes
//! per-cell mine-adjacency counts, and offers reveal and mark transitions
//! together with win/loss queries. A presentation layer drives it through
//! [`Action`] values and reads it back through `Field::to_field` and
//! `Field::message`.

use vstd::prelude::*;

pub mod flood;
pub mod laws;
pub mod model;
pub mod random;

use crate::model::{count_mines, ipos, lemma_count_mines_zero, toggled, CellState, Field, Pos};

verus! {

/// Number of mines a standard game is set up with.
pub const NUMBER_OF_MINES: u8 = 10;

/// A command that a player (through some front end) can send to the engine.
pub enum Action {
    /// Reveal the cell at the given position.
    Reveal(Pos),
    /// Toggle the mark on the cell at the given position.
    ToggleMark(Pos),
    /// Start a fresh game on the same grid.
    Restart,
}

impl Field {
    /// Drive the engine with one player action. The result tells a front end
    /// whether to re-render, which is always.
    pub fn update(&mut self, msg: Action) -> (render: bool)
        requires
            old(self).wf(),
            match msg {
                Action::Reveal(p) => old(self).in_bounds(ipos(p)),
                Action::ToggleMark(p) => old(self).in_bounds(ipos(p)),
                Action::Restart => NUMBER_OF_MINES as int <= old(self).area(),
            },
        ensures
            final(self).wf(),
            final(self).width == old(self).width,
            final(self).height == old(self).height,
            render,
            match msg {
                Action::Reveal(p) => forall|q: (int, int)|
                    old(self).in_bounds(q) ==> {
                        &&& (#[trigger] final(self).cell_at(q)).mine == old(self).cell_at(q).mine
                        &&& final(self).cell_at(q).neighbors == old(self).cell_at(q).neighbors
                        &&& final(self).state_at(q) == (if old(self).revealed_by(ipos(p), q) {
                            CellState::Revealed
                        } else {
                            old(self).state_at(q)
                        })
                    },
                Action::ToggleMark(p) => {
                    &&& final(self).state_at(ipos(p)) == toggled(old(self).state_at(ipos(p)))
                    &&& final(self).cell_at(ipos(p)).mine == old(self).cell_at(ipos(p)).mine
                    &&& final(self).cell_at(ipos(p)).neighbors == old(self).cell_at(
                        ipos(p),
                    ).neighbors
                    &&& forall|q: (int, int)|
                        old(self).in_bounds(q) && q != ipos(p) ==> final(self).cell_at(q) == old(
                            self,
                        ).cell_at(q)
                },
                Action::Restart => {
                    &&& count_mines(final(self)@) == NUMBER_OF_MINES as int
                    &&& forall|q: (int, int)|
                        old(self).in_bounds(q) ==> ((#[trigger] final(self).cell_at(q)).state
                            == CellState::Unmarked && final(self).nbrs_at(q) == final(
                        self).mine_nbrs(q))
                },
            },
    {
        match msg {
            Action::Reveal(pos) => {
                self.reveal_cell(pos);
            },
            Action::ToggleMark(pos) => {
                self.toggle_marked(pos);
            },
            Action::Restart => {
                self.reset();
                proof {
                    lemma_count_mines_zero(self@);
                }
                self.prepare_mines(NUMBER_OF_MINES);
            },
        }
        true
    }
}

} // verus!
