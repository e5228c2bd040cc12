//! Game laws: properties of the engine proved once and for all, stated over
//! the same spec functions that the operations' contracts use. A pair
//! `(g, h)` related by the pointwise clauses below is exactly a grid before
//! and after one `reveal_cell` call, as that function's contract states.

use vstd::prelude::*;

use crate::flood::adjacent;
use crate::model::{count_mines, lemma_count_mines_zero, lemma_sidx_in_range, Cell, CellState,
    Field};

verus! {

/// The pointwise relation `reveal_cell` establishes between the grid it was
/// called on and the grid it leaves behind.
pub open spec fn reveal_post(g: Field, h: Field, pos: (int, int)) -> bool {
    &&& h.width == g.width
    &&& h.height == g.height
    &&& h@.len() == g@.len()
    &&& forall|q: (int, int)|
        g.in_bounds(q) ==> {
            &&& (#[trigger] h.cell_at(q)).mine == g.cell_at(q).mine
            &&& h.cell_at(q).neighbors == g.cell_at(q).neighbors
            &&& h.state_at(q) == (if g.revealed_by(pos, q) {
                CellState::Revealed
            } else {
                g.state_at(q)
            })
        }
}

/// A chain of unmarked zero cells in the revealed grid was already such a
/// chain before the reveal: revealing only removes cells from the unmarked
/// state, and it changes no neighbor count.
proof fn lemma_chain_back(g: Field, h: Field, pos: (int, int), s: Seq<(int, int)>)
    requires
        g.wf(),
        g.in_bounds(pos),
        reveal_post(g, h, pos),
        h.zero_chain(pos, s),
    ensures
        g.zero_chain(pos, s),
{
    assert forall|i: int| 0 <= i < s.len() implies g.zero_cell(#[trigger] s[i]) by {
        assert(h.zero_cell(s[i]));
        assert(h.cell_at(s[i]).neighbors == g.cell_at(s[i]).neighbors);
    }
    assert forall|i: int| 1 <= i < s.len() implies adjacent(s[i - 1], #[trigger] s[i])
        && g.state_at(s[i]) == CellState::Unmarked by {
        assert(h.state_at(s[i]) == CellState::Unmarked);
        assert(g.in_bounds(s[i]));
        if g.revealed_by(pos, s[i]) {
            assert(h.state_at(s[i]) == CellState::Revealed);
        }
    }
}

/// Revealing a cell twice is the same as revealing it once: after one
/// `reveal_cell` at `pos`, everything a second call at `pos` would reveal is
/// already revealed, so the second call leaves the grid as it found it.
pub proof fn lemma_reveal_idempotent(g: Field, h: Field, pos: (int, int))
    requires
        g.wf(),
        g.in_bounds(pos),
        reveal_post(g, h, pos),
    ensures
        forall|q: (int, int)|
            g.in_bounds(q) ==> ((if h.revealed_by(pos, q) {
                CellState::Revealed
            } else {
                h.state_at(q)
            }) == #[trigger] h.state_at(q)),
{
    assert forall|q: (int, int)|
        g.in_bounds(q) && #[trigger] h.revealed_by(pos, q) implies h.state_at(q)
        == CellState::Revealed by {
        assert(h.state_at(pos) != CellState::Marked);
        if g.state_at(pos) == CellState::Marked {
            assert(h.state_at(pos) == g.state_at(pos));
        } else {
            assert(g.revealed_by(pos, pos));
            assert(h.state_at(pos) == CellState::Revealed);
            if q != pos {
                // Only the flood branch can hold another cell, and it asks
                // that `q` is still unmarked next to a reached zero cell.
                assert(h.nbrs_at(pos) == 0 && !h.cell_at(pos).mine);
                assert(h.state_at(q) == CellState::Unmarked);
                let p = choose|p: (int, int)|
                    #[trigger] h.zero_reach(pos, p) && adjacent(p, q);
                let s = choose|s: Seq<(int, int)>| h.zero_chain(pos, s) && s.last() == p;
                lemma_chain_back(g, h, pos, s);
                assert(g.zero_reach(pos, p));
                assert(g.state_at(q) == CellState::Unmarked);
                assert(g.revealed_by(pos, q));
                assert(h.state_at(q) == CellState::Revealed);
            }
        }
    }
}

/// A marked cell cannot be revealed: `reveal_cell` on it changes nothing.
pub proof fn lemma_marked_blocks_reveal(g: Field, h: Field, pos: (int, int))
    requires
        g.wf(),
        g.in_bounds(pos),
        g.state_at(pos) == CellState::Marked,
        reveal_post(g, h, pos),
    ensures
        forall|q: (int, int)| g.in_bounds(q) ==> #[trigger] h.cell_at(q) == g.cell_at(q),
{
    assert forall|q: (int, int)| g.in_bounds(q) implies #[trigger] h.cell_at(q) == g.cell_at(q) by {
        assert(!g.revealed_by(pos, q));
        assert(h.state_at(q) == g.state_at(q));
    }
}

/// A grid whose every non-mine cell is revealed, with the mines themselves
/// left unmarked, is won and not lost.
pub proof fn lemma_win_detection(g: Field)
    requires
        forall|i: int|
            0 <= i < g@.len() ==> (!(#[trigger] g@[i]).mine ==> g@[i].state == CellState::Revealed),
        forall|i: int|
            0 <= i < g@.len() ==> ((#[trigger] g@[i]).mine ==> g@[i].state == CellState::Unmarked),
    ensures
        g.spec_won(),
        !g.spec_lost(),
{
}

/// Revealing a single mine cell loses the game, whatever the other cells hold.
pub proof fn lemma_loss_detection(g: Field, h: Field, pos: (int, int))
    requires
        g.wf(),
        g.in_bounds(pos),
        g.cell_at(pos).mine,
        g.state_at(pos) != CellState::Marked,
        reveal_post(g, h, pos),
    ensures
        h.spec_lost(),
{
    assert(g.revealed_by(pos, pos));
    assert(h.state_at(pos) == CellState::Revealed);
    assert(h.cell_at(pos).mine);
    lemma_sidx_in_range(g, pos);
    assert(h@[g.sidx(pos)].state == CellState::Revealed && h@[g.sidx(pos)].mine);
}

/// A reset grid holds exactly the cells of a freshly built grid of the same
/// dimensions: all unmarked, mine-free, with zero neighbor counts.
pub proof fn lemma_reset_matches_new(g: Field, f: Field)
    requires
        g.width == f.width,
        g.height == f.height,
        g@.len() == g.area(),
        f@.len() == f.area(),
        forall|j: int| 0 <= j < g@.len() ==> #[trigger] g@[j] == Cell::zeroed(),
        forall|j: int| 0 <= j < f@.len() ==> #[trigger] f@[j] == Cell::zeroed(),
    ensures
        g@ == f@,
{
    assert(g@ =~= f@);
}

/// On a grid that starts without mines, placing `n` mines leaves exactly `n`
/// cells holding one.
pub proof fn lemma_mine_count_after_placement(g: Field, h: Field, n: u8)
    requires
        forall|j: int| 0 <= j < g@.len() ==> !(#[trigger] g@[j]).mine,
        count_mines(h@) == count_mines(g@) + n as int,
    ensures
        count_mines(h@) == n as int,
{
    lemma_count_mines_zero(g@);
}

} // verus!
