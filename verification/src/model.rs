//! The grid model: cells, the playing field, and its basic operations.

use vstd::prelude::*;
use vstd::string::StringExecFns;

use crate::random::{fresh_rng, gen_below};

verus! {

/// A position on the field: `(x, y)` with `0 <= x < width` and `0 <= y < height`.
pub type Pos = (u8, u8);

/// A position widened to mathematical integers, for use in specifications.
pub open spec fn ipos(p: Pos) -> (int, int) {
    (p.0 as int, p.1 as int)
}

/// The player-visible state of one cell.
#[derive(Clone, Copy, Debug, PartialEq, Eq, Structural)]
pub enum CellState {
    Marked,
    Unmarked,
    Revealed,
}

impl Default for CellState {
    fn default() -> (r: Self)
        ensures
            r == CellState::Unmarked,
    {
        CellState::Unmarked
    }
}

/// One grid square.
#[derive(Clone, Copy, Debug, PartialEq, Eq, Structural)]
pub struct Cell {
    pub mine: bool,
    pub neighbors: u8,
    pub state: CellState,
}

impl Cell {
    /// The value every cell has right after construction or a reset.
    pub open spec fn zeroed() -> Cell {
        Cell { mine: false, neighbors: 0u8, state: CellState::Unmarked }
    }
}

/// The current game state of Rustsweeper: a dense row-major grid of cells.
pub struct Field {
    pub width: u8,
    pub height: u8,
    pub cells: Vec<Cell>,
}

impl View for Field {
    type V = Seq<Cell>;

    /// A field is viewed as its row-major cell sequence.
    open spec fn view(&self) -> Seq<Cell> {
        self.cells@
    }
}

impl Field {
    /// Total number of cells the dimensions call for.
    pub open spec fn area(self) -> int {
        self.width as int * self.height as int
    }

    /// Well-formed: positive dimensions and a dense row-major cell array.
    pub open spec fn wf(self) -> bool {
        &&& self.width > 0
        &&& self.height > 0
        &&& self@.len() == self.area()
    }

    /// The row-major index of position `p`.
    pub open spec fn sidx(self, p: (int, int)) -> int {
        p.0 + p.1 * self.width as int
    }

    /// Whether `p` lies on the field.
    pub open spec fn in_bounds(self, p: (int, int)) -> bool {
        0 <= p.0 < self.width as int && 0 <= p.1 < self.height as int
    }

    /// The cell at position `p` (meaningful only when `p` is in bounds).
    pub open spec fn cell_at(self, p: (int, int)) -> Cell {
        self@[self.sidx(p)]
    }

    /// The state of the cell at `p`.
    pub open spec fn state_at(self, p: (int, int)) -> CellState {
        self.cell_at(p).state
    }

    /// Whether an in-bounds mine sits at `p`; out-of-bounds positions count as mine-free.
    pub open spec fn mine_at(self, p: (int, int)) -> bool {
        self.in_bounds(p) && self.cell_at(p).mine
    }

    /// The stored neighbor count of the cell at `p`.
    pub open spec fn nbrs_at(self, p: (int, int)) -> int {
        self.cell_at(p).neighbors as int
    }
}

/// A row-major index of an in-bounds position lies inside a well-formed field's cell array.
pub proof fn lemma_sidx_in_range(g: Field, p: (int, int))
    requires
        g.wf(),
        g.in_bounds(p),
    ensures
        0 <= g.sidx(p) < g@.len(),
{
    assert(0 <= p.0 + p.1 * (g.width as int) && p.0 + p.1 * (g.width as int) < (g.width as int)
        * (g.height as int)) by (nonlinear_arith)
        requires
            0 <= p.0 < g.width as int,
            0 <= p.1 < g.height as int,
    ;
}

/// Row-major indexing is injective on in-bounds positions.
pub proof fn lemma_sidx_injective(g: Field, p: (int, int), q: (int, int))
    requires
        g.in_bounds(p),
        g.in_bounds(q),
    ensures
        g.sidx(p) == g.sidx(q) ==> p == q,
{
    assert((p.0 + p.1 * g.width as int == q.0 + q.1 * g.width as int) ==> (p.0 == q.0
        && p.1 == q.1)) by (nonlinear_arith)
        requires
            0 <= p.0 < g.width as int,
            0 <= q.0 < g.width as int,
            0 <= p.1,
            0 <= q.1,
    ;
}

impl Field {
    /// Creates a new instance of the Rustsweeper game with a given width and height.
    pub fn new(width: u8, height: u8) -> (f: Field)
        requires
            width > 0,
            height > 0,
        ensures
            f.wf(),
            f.width == width,
            f.height == height,
            forall|j: int| 0 <= j < f@.len() ==> #[trigger] f@[j] == Cell::zeroed(),
            forall|q: (int, int)| f.in_bounds(q) ==> f.cell_at(q) == Cell::zeroed(),
    {
        proof {
            assert((width as int) * (height as int) <= 255 * 255) by (nonlinear_arith)
                requires
                    width as int <= 255,
                    height as int <= 255,
            ;
        }
        let n: usize = width as usize * height as usize;
        let mut cells: Vec<Cell> = Vec::new();
        let mut i: usize = 0;
        while i < n
            invariant
                i <= n,
                cells@.len() == i as int,
                forall|j: int| 0 <= j < i as int ==> cells@[j] == Cell::zeroed(),
            decreases n - i,
        {
            cells.push(Cell { mine: false, neighbors: 0, state: CellState::Unmarked });
            i = i + 1;
        }
        let f = Field { width, height, cells };
        proof {
            assert forall|q: (int, int)| f.in_bounds(q) implies f.cell_at(q) == Cell::zeroed() by {
                lemma_sidx_in_range(f, q);
            }
        }
        f
    }

    /// The number of cells in the field's array.
    pub fn cell_count(&self) -> (n: usize)
        ensures
            n == self@.len(),
    {
        self.cells.len()
    }

    /// The row-major array index of `pos`.
    fn index_of(&self, pos: Pos) -> (i: usize)
        requires
            self.wf(),
            self.in_bounds(ipos(pos)),
        ensures
            i as int == self.sidx(ipos(pos)),
            i < self@.len(),
    {
        proof {
            lemma_sidx_in_range(*self, ipos(pos));
            assert((pos.1 as int) * (self.width as int) <= 255 * 255) by (nonlinear_arith)
                requires
                    pos.1 as int <= 255,
                    self.width as int <= 255,
            ;
        }
        pos.0 as usize + pos.1 as usize * self.width as usize
    }

    /// Read the cell at `pos`.
    pub fn cell(&self, pos: Pos) -> (c: Cell)
        requires
            self.wf(),
            self.in_bounds(ipos(pos)),
        ensures
            c == self.cell_at(ipos(pos)),
    {
        let i = self.index_of(pos);
        self.cells[i]
    }

    /// Overwrite the cell at `pos`, leaving every other cell unchanged.
    pub fn set_cell(&mut self, pos: Pos, c: Cell)
        requires
            old(self).wf(),
            old(self).in_bounds(ipos(pos)),
        ensures
            final(self).wf(),
            final(self).width == old(self).width,
            final(self).height == old(self).height,
            final(self)@ == old(self)@.update(old(self).sidx(ipos(pos)), c),
            final(self).cell_at(ipos(pos)) == c,
            forall|q: (int, int)|
                old(self).in_bounds(q) && q != ipos(pos) ==> final(self).cell_at(q) == old(
                    self,
                ).cell_at(q),
    {
        let i = self.index_of(pos);
        self.cells[i] = c;
        proof {
            assert forall|q: (int, int)|
                old(self).in_bounds(q) && q != ipos(pos) implies self.cell_at(q) == old(
                self,
            ).cell_at(q) by {
                lemma_sidx_injective(*old(self), q, ipos(pos));
                lemma_sidx_in_range(*old(self), q);
            }
        }
    }
}

/// 1 if `b` holds, else 0.
pub open spec fn b2i(b: bool) -> int {
    if b {
        1
    } else {
        0
    }
}

/// Number of mines in a cell sequence.
pub open spec fn count_mines(s: Seq<Cell>) -> int
    decreases s.len(),
{
    if s.len() == 0 {
        0
    } else {
        count_mines(s.drop_last()) + b2i(s.last().mine)
    }
}

/// Number of cells with state `st` in a cell sequence.
pub open spec fn count_state(s: Seq<Cell>, st: CellState) -> int
    decreases s.len(),
{
    if s.len() == 0 {
        0
    } else {
        count_state(s.drop_last(), st) + b2i(s.last().state == st)
    }
}

/// Mine and state counts lie between 0 and the sequence length.
pub proof fn lemma_counts_bounded(s: Seq<Cell>, st: CellState)
    ensures
        0 <= count_mines(s) <= s.len(),
        0 <= count_state(s, st) <= s.len(),
    decreases s.len(),
{
    if s.len() > 0 {
        lemma_counts_bounded(s.drop_last(), st);
    }
}

/// How overwriting one cell changes the counts.
pub proof fn lemma_counts_update(s: Seq<Cell>, i: int, c: Cell, st: CellState)
    requires
        0 <= i < s.len(),
    ensures
        count_mines(s.update(i, c)) == count_mines(s) - b2i(s[i].mine) + b2i(c.mine),
        count_state(s.update(i, c), st) == count_state(s, st) - b2i(s[i].state == st) + b2i(
            c.state == st,
        ),
    decreases s.len(),
{
    let t = s.update(i, c);
    if i == s.len() - 1 {
        assert(t.drop_last() =~= s.drop_last());
    } else {
        lemma_counts_update(s.drop_last(), i, c, st);
        assert(t.drop_last() =~= s.drop_last().update(i, c));
        assert(t.last() == s.last());
    }
}

impl Field {
    /// The number of mines among the up-to-8 cells adjacent to `p`;
    /// positions off the edge contribute nothing.
    pub open spec fn mine_nbrs(self, p: (int, int)) -> int {
        b2i(self.mine_at((p.0 - 1, p.1 - 1))) + b2i(self.mine_at((p.0, p.1 - 1))) + b2i(
            self.mine_at((p.0 + 1, p.1 - 1)),
        ) + b2i(self.mine_at((p.0 - 1, p.1))) + b2i(self.mine_at((p.0 + 1, p.1))) + b2i(
            self.mine_at((p.0 - 1, p.1 + 1)),
        ) + b2i(self.mine_at((p.0, p.1 + 1))) + b2i(self.mine_at((p.0 + 1, p.1 + 1)))
    }

    /// Whether a mine has been revealed.
    pub open spec fn spec_lost(self) -> bool {
        exists|i: int|
            0 <= i < self@.len() && (#[trigger] self@[i]).state == CellState::Revealed
                && self@[i].mine
    }

    /// Whether every non-mine cell has been revealed.
    pub open spec fn spec_won(self) -> bool {
        forall|i: int|
            0 <= i < self@.len() ==> (#[trigger] self@[i]).state == CellState::Revealed
                || self@[i].mine
    }
}

/// The mine-adjacency counts of `b` agree with those of `a` whenever both
/// fields have the same dimensions and the same mines.
pub proof fn lemma_mine_nbrs_stable(a: Field, b: Field, q: (int, int))
    requires
        a.width == b.width,
        a.height == b.height,
        forall|p: (int, int)|
            a.in_bounds(p) ==> (#[trigger] b.cell_at(p)).mine == a.cell_at(p).mine,
    ensures
        b.mine_nbrs(q) == a.mine_nbrs(q),
{
    assert(b.mine_at((q.0 - 1, q.1 - 1)) == a.mine_at((q.0 - 1, q.1 - 1)));
    assert(b.mine_at((q.0, q.1 - 1)) == a.mine_at((q.0, q.1 - 1)));
    assert(b.mine_at((q.0 + 1, q.1 - 1)) == a.mine_at((q.0 + 1, q.1 - 1)));
    assert(b.mine_at((q.0 - 1, q.1)) == a.mine_at((q.0 - 1, q.1)));
    assert(b.mine_at((q.0 + 1, q.1)) == a.mine_at((q.0 + 1, q.1)));
    assert(b.mine_at((q.0 - 1, q.1 + 1)) == a.mine_at((q.0 - 1, q.1 + 1)));
    assert(b.mine_at((q.0, q.1 + 1)) == a.mine_at((q.0, q.1 + 1)));
    assert(b.mine_at((q.0 + 1, q.1 + 1)) == a.mine_at((q.0 + 1, q.1 + 1)));
}

impl Field {
    /// Resets the game state while preserving the dimensions.
    pub fn reset(&mut self)
        requires
            old(self).wf(),
        ensures
            final(self).wf(),
            final(self).width == old(self).width,
            final(self).height == old(self).height,
            forall|j: int| 0 <= j < final(self)@.len() ==> final(self)@[j] == Cell::zeroed(),
            forall|q: (int, int)|
                final(self).in_bounds(q) ==> final(self).cell_at(q) == Cell::zeroed(),
    {
        let len = self.cells.len();
        let mut i: usize = 0;
        while i < len
            invariant
                i <= len,
                self.wf(),
                len == self@.len(),
                self.width == old(self).width,
                self.height == old(self).height,
                forall|j: int| 0 <= j < i as int ==> self@[j] == Cell::zeroed(),
            decreases len - i,
        {
            self.cells[i] = Cell { mine: false, neighbors: 0, state: CellState::Unmarked };
            i = i + 1;
        }
        proof {
            assert forall|q: (int, int)| self.in_bounds(q) implies self.cell_at(q)
                == Cell::zeroed() by {
                lemma_sidx_in_range(*self, q);
            }
        }
    }

    /// Whether `(x, y)`, given as wide integers, is an in-bounds mine.
    fn mine_probe(&self, x: i32, y: i32) -> (b: bool)
        requires
            self.wf(),
        ensures
            b == self.mine_at((x as int, y as int)),
    {
        if x >= 0 && y >= 0 && x < self.width as i32 && y < self.height as i32 {
            let c = self.cell((x as u8, y as u8));
            c.mine
        } else {
            false
        }
    }

    /// Count the mines adjacent to `pos`.
    fn adjacent_mines(&self, pos: Pos) -> (n: u8)
        requires
            self.wf(),
            self.in_bounds(ipos(pos)),
        ensures
            n as int == self.mine_nbrs(ipos(pos)),
    {
        let x = pos.0 as i32;
        let y = pos.1 as i32;
        let mut n: u8 = 0;
        if self.mine_probe(x - 1, y - 1) {
            n = n + 1;
        }
        if self.mine_probe(x, y - 1) {
            n = n + 1;
        }
        if self.mine_probe(x + 1, y - 1) {
            n = n + 1;
        }
        if self.mine_probe(x - 1, y) {
            n = n + 1;
        }
        if self.mine_probe(x + 1, y) {
            n = n + 1;
        }
        if self.mine_probe(x - 1, y + 1) {
            n = n + 1;
        }
        if self.mine_probe(x, y + 1) {
            n = n + 1;
        }
        if self.mine_probe(x + 1, y + 1) {
            n = n + 1;
        }
        n
    }

    /// Calculates the number of neighboring mines of all cells.
    pub fn calc_neighbors(&mut self)
        requires
            old(self).wf(),
        ensures
            final(self).wf(),
            final(self).width == old(self).width,
            final(self).height == old(self).height,
            forall|j: int|
                0 <= j < final(self)@.len() ==> ((#[trigger] final(self)@[j]).mine == old(
                    self)@[j].mine && final(self)@[j].state == old(self)@[j].state),
            forall|q: (int, int)|
                old(self).in_bounds(q) ==> {
                    &&& (#[trigger] final(self).cell_at(q)).mine == old(self).cell_at(q).mine
                    &&& final(self).cell_at(q).state == old(self).cell_at(q).state
                    &&& final(self).nbrs_at(q) == old(self).mine_nbrs(q)
                },
    {
        let mut x: u8 = 0;
        while x < self.width
            invariant
                self.wf(),
                old(self).wf(),
                self.width == old(self).width,
                self.height == old(self).height,
                x <= self.width,
                forall|j: int|
                    0 <= j < self@.len() ==> ((#[trigger] self@[j]).mine == old(self)@[j].mine
                        && self@[j].state == old(self)@[j].state),
                forall|q: (int, int)|
                    old(self).in_bounds(q) ==> {
                        &&& (#[trigger] self.cell_at(q)).mine == old(self).cell_at(q).mine
                        &&& self.cell_at(q).state == old(self).cell_at(q).state
                    },
                forall|q: (int, int)|
                    old(self).in_bounds(q) && q.0 < x as int ==> #[trigger] self.nbrs_at(q) == old(
                        self,
                    ).mine_nbrs(q),
            decreases self.width - x,
        {
            let mut y: u8 = 0;
            while y < self.height
                invariant
                    self.wf(),
                    old(self).wf(),
                    self.width == old(self).width,
                    self.height == old(self).height,
                    x < self.width,
                    y <= self.height,
                    forall|j: int|
                        0 <= j < self@.len() ==> ((#[trigger] self@[j]).mine == old(self)@[j].mine
                            && self@[j].state == old(self)@[j].state),
                    forall|q: (int, int)|
                        old(self).in_bounds(q) ==> {
                            &&& (#[trigger] self.cell_at(q)).mine == old(self).cell_at(q).mine
                            &&& self.cell_at(q).state == old(self).cell_at(q).state
                        },
                    forall|q: (int, int)|
                        old(self).in_bounds(q) && (q.0 < x as int || (q.0 == x as int && q.1
                            < y as int)) ==> #[trigger] self.nbrs_at(q) == old(self).mine_nbrs(q),
                decreases self.height - y,
            {
                let n = self.adjacent_mines((x, y));
                let ghost mid = *self;
                proof {
                    lemma_mine_nbrs_stable(*old(self), mid, (x as int, y as int));
                }
                let mut c = self.cell((x, y));
                c.neighbors = n;
                self.set_cell((x, y), c);
                proof {
                    lemma_sidx_in_range(mid, (x as int, y as int));
                    assert forall|j: int|
                        0 <= j < self@.len() implies ((#[trigger] self@[j]).mine == old(
                        self)@[j].mine && self@[j].state == old(self)@[j].state) by {
                        if j != mid.sidx((x as int, y as int)) {
                            assert(self@[j] == mid@[j]);
                        } else {
                            assert(self@[j] == c);
                        }
                    }
                    assert forall|q: (int, int)|
                        old(self).in_bounds(q) && (q.0 < x as int || (q.0 == x as int && q.1 < y
                            as int + 1)) implies #[trigger] self.nbrs_at(q) == old(
                        self,
                    ).mine_nbrs(q) by {
                        if q != (x as int, y as int) {
                            assert(self.cell_at(q) == mid.cell_at(q));
                            assert(mid.nbrs_at(q) == old(self).mine_nbrs(q));
                        }
                    }
                }
                y = y + 1;
            }
            x = x + 1;
        }
    }

    /// Whether the game has been lost: some revealed cell is a mine.
    pub fn lost(&self) -> (r: bool)
        ensures
            r == self.spec_lost(),
    {
        let len = self.cells.len();
        let mut i: usize = 0;
        while i < len
            invariant
                i <= len,
                len == self@.len(),
                forall|j: int|
                    0 <= j < i as int ==> !((#[trigger] self@[j]).state == CellState::Revealed
                        && self@[j].mine),
            decreases len - i,
        {
            let c = self.cells[i];
            if c.mine && c.state == CellState::Revealed {
                return true;
            }
            i = i + 1;
        }
        false
    }

    /// Whether the game has been won: every cell is revealed or a mine.
    pub fn won(&self) -> (r: bool)
        ensures
            r == self.spec_won(),
    {
        let len = self.cells.len();
        let mut i: usize = 0;
        while i < len
            invariant
                i <= len,
                len == self@.len(),
                forall|j: int|
                    0 <= j < i as int ==> (#[trigger] self@[j]).state == CellState::Revealed
                        || self@[j].mine,
            decreases len - i,
        {
            let c = self.cells[i];
            if !(c.state == CellState::Revealed || c.mine) {
                return false;
            }
            i = i + 1;
        }
        true
    }

    /// Whether the game is won or lost.
    pub fn game_over(&self) -> (r: bool)
        ensures
            r == (self.spec_lost() || self.spec_won()),
    {
        self.lost() || self.won()
    }

    /// If the cell at `pos` is revealed this is a no-op; otherwise it flips
    /// the cell between `Unmarked` and `Marked`.
    pub fn toggle_marked(&mut self, pos: Pos)
        requires
            old(self).wf(),
            old(self).in_bounds(ipos(pos)),
        ensures
            final(self).wf(),
            final(self).width == old(self).width,
            final(self).height == old(self).height,
            final(self).cell_at(ipos(pos)).mine == old(self).cell_at(ipos(pos)).mine,
            final(self).cell_at(ipos(pos)).neighbors == old(self).cell_at(ipos(pos)).neighbors,
            final(self).state_at(ipos(pos)) == toggled(old(self).state_at(ipos(pos))),
            forall|q: (int, int)|
                old(self).in_bounds(q) && q != ipos(pos) ==> final(self).cell_at(q) == old(
                    self,
                ).cell_at(q),
    {
        let mut c = self.cell(pos);
        c.state = match c.state {
            CellState::Marked => CellState::Unmarked,
            CellState::Unmarked => CellState::Marked,
            CellState::Revealed => CellState::Revealed,
        };
        self.set_cell(pos, c);
    }

    /// The per-cell snapshot of the whole grid, as rows in reading order.
    pub fn to_field(&self) -> (rows: Vec<Vec<Cell>>)
        requires
            self.wf(),
        ensures
            rows@.len() == self.height as int,
            forall|y: int|
                0 <= y < self.height as int ==> (#[trigger] rows@[y])@.len() == self.width as int,
            forall|x: int, y: int|
                self.in_bounds((x, y)) ==> #[trigger] rows@[y]@[x] == self.cell_at((x, y)),
    {
        let mut rows: Vec<Vec<Cell>> = Vec::new();
        let mut y: u8 = 0;
        while y < self.height
            invariant
                self.wf(),
                y <= self.height,
                rows@.len() == y as int,
                forall|v: int|
                    0 <= v < y as int ==> (#[trigger] rows@[v])@.len() == self.width as int,
                forall|x: int, v: int|
                    self.in_bounds((x, v)) && v < y as int ==> #[trigger] rows@[v]@[x]
                        == self.cell_at((x, v)),
            decreases self.height - y,
        {
            let mut row: Vec<Cell> = Vec::new();
            let mut x: u8 = 0;
            while x < self.width
                invariant
                    self.wf(),
                    x <= self.width,
                    y < self.height,
                    row@.len() == x as int,
                    forall|u: int|
                        0 <= u < x as int ==> #[trigger] row@[u] == self.cell_at((u, y as int)),
                decreases self.width - x,
            {
                row.push(self.cell((x, y)));
                x = x + 1;
            }
            rows.push(row);
            y = y + 1;
        }
        rows
    }
}

/// Sequences with the same mines in the same places have the same mine count.
pub proof fn lemma_count_mines_pointwise(a: Seq<Cell>, b: Seq<Cell>)
    requires
        a.len() == b.len(),
        forall|j: int| 0 <= j < a.len() ==> (#[trigger] b[j]).mine == a[j].mine,
    ensures
        count_mines(b) == count_mines(a),
    decreases a.len(),
{
    if a.len() > 0 {
        lemma_count_mines_pointwise(a.drop_last(), b.drop_last());
    }
}

/// A sequence without mines has a mine count of zero.
pub proof fn lemma_count_mines_zero(s: Seq<Cell>)
    requires
        forall|j: int| 0 <= j < s.len() ==> !(#[trigger] s[j]).mine,
    ensures
        count_mines(s) == 0,
    decreases s.len(),
{
    if s.len() > 0 {
        lemma_count_mines_zero(s.drop_last());
    }
}

impl Field {
    /// Place one mine on a uniformly sampled cell, retrying while the sampled
    /// cell already holds one. The field must have room for one more mine.
    pub fn place_mine<R: rand::Rng>(&mut self, rng: &mut R)
        requires
            old(self).wf(),
            count_mines(old(self)@) < old(self).area(),
        ensures
            final(self).wf(),
            final(self).width == old(self).width,
            final(self).height == old(self).height,
            count_mines(final(self)@) == count_mines(old(self)@) + 1,
            forall|q: (int, int)|
                old(self).in_bounds(q) ==> {
                    &&& (#[trigger] final(self).cell_at(q)).state == old(self).cell_at(q).state
                    &&& final(self).cell_at(q).neighbors == old(self).cell_at(q).neighbors
                    &&& (old(self).cell_at(q).mine ==> final(self).cell_at(q).mine)
                },
    {
        // Termination of every loop is checked, so the sampling loop carries
        // an attempt bound that no run comes near; a deterministic scan backs
        // it up, keeping the promise that a mine is always placed.
        let mut attempts: u64 = 0;
        let mut placed: bool = false;
        while !placed && attempts < u64::MAX
            invariant
                self.wf(),
                self.width == old(self).width,
                self.height == old(self).height,
                !placed ==> *self == *old(self),
                placed ==> {
                    &&& count_mines(self@) == count_mines(old(self)@) + 1
                    &&& forall|q: (int, int)|
                        old(self).in_bounds(q) ==> {
                            &&& (#[trigger] self.cell_at(q)).state == old(self).cell_at(q).state
                            &&& self.cell_at(q).neighbors == old(self).cell_at(q).neighbors
                            &&& (old(self).cell_at(q).mine ==> self.cell_at(q).mine)
                        }
                },
            decreases u64::MAX - attempts,
        {
            let x = gen_below(rng, self.width);
            let y = gen_below(rng, self.height);
            let c = self.cell((x, y));
            if !c.mine {
                let mined = Cell { mine: true, neighbors: c.neighbors, state: c.state };
                self.set_cell((x, y), mined);
                proof {
                    lemma_sidx_in_range(*old(self), ipos((x, y)));
                    lemma_counts_update(
                        old(self)@,
                        old(self).sidx(ipos((x, y))),
                        mined,
                        CellState::Marked,
                    );
                }
                placed = true;
            }
            attempts = attempts + 1;
        }
        if !placed {
            self.place_first_free();
        }
    }

    /// Turn the first mine-free cell in row-major order into a mine.
    fn place_first_free(&mut self)
        requires
            old(self).wf(),
            count_mines(old(self)@) < old(self).area(),
        ensures
            final(self).wf(),
            final(self).width == old(self).width,
            final(self).height == old(self).height,
            count_mines(final(self)@) == count_mines(old(self)@) + 1,
            forall|q: (int, int)|
                old(self).in_bounds(q) ==> {
                    &&& (#[trigger] final(self).cell_at(q)).state == old(self).cell_at(q).state
                    &&& final(self).cell_at(q).neighbors == old(self).cell_at(q).neighbors
                    &&& (old(self).cell_at(q).mine ==> final(self).cell_at(q).mine)
                },
    {
        let len = self.cells.len();
        let mut i: usize = 0;
        while i < len
            invariant
                i <= len,
                len == self@.len(),
                *self == *old(self),
                old(self).wf(),
                count_mines(old(self)@) < old(self).area(),
                count_mines(self@.subrange(0, i as int)) == i as int,
            decreases len - i,
        {
            proof {
                assert(self@.subrange(0, i as int + 1).drop_last() =~= self@.subrange(0, i as int));
                assert(self@.subrange(0, i as int + 1).last() == self@[i as int]);
            }
            let c = self.cells[i];
            if !c.mine {
                let mined = Cell { mine: true, neighbors: c.neighbors, state: c.state };
                self.cells[i] = mined;
                proof {
                    lemma_counts_update(old(self)@, i as int, mined, CellState::Marked);
                    assert forall|q: (int, int)| old(self).in_bounds(q) implies {
                        &&& (#[trigger] self.cell_at(q)).state == old(self).cell_at(q).state
                        &&& self.cell_at(q).neighbors == old(self).cell_at(q).neighbors
                        &&& (old(self).cell_at(q).mine ==> self.cell_at(q).mine)
                    } by {
                        lemma_sidx_in_range(*old(self), q);
                    }
                }
                return ;
            }
            i = i + 1;
        }
        proof {
            // Every cell scanned was a mine, so the count fills the whole
            // area, against the precondition: this point is unreachable.
            assert(self@.subrange(0, len as int) =~= self@);
            assert(false);
        }
    }

    /// Places the given number of mines randomly on the field.
    pub fn place_mines<R: rand::Rng>(&mut self, number: u8, rng: &mut R)
        requires
            old(self).wf(),
            count_mines(old(self)@) + number as int <= old(self).area(),
        ensures
            final(self).wf(),
            final(self).width == old(self).width,
            final(self).height == old(self).height,
            count_mines(final(self)@) == count_mines(old(self)@) + number as int,
            forall|q: (int, int)|
                old(self).in_bounds(q) ==> {
                    &&& (#[trigger] final(self).cell_at(q)).state == old(self).cell_at(q).state
                    &&& final(self).cell_at(q).neighbors == old(self).cell_at(q).neighbors
                    &&& (old(self).cell_at(q).mine ==> final(self).cell_at(q).mine)
                },
    {
        let mut k: u8 = 0;
        while k < number
            invariant
                k <= number,
                self.wf(),
                self.width == old(self).width,
                self.height == old(self).height,
                count_mines(self@) == count_mines(old(self)@) + k as int,
                count_mines(old(self)@) + number as int <= self.area(),
                forall|q: (int, int)|
                    old(self).in_bounds(q) ==> {
                        &&& (#[trigger] self.cell_at(q)).state == old(self).cell_at(q).state
                        &&& self.cell_at(q).neighbors == old(self).cell_at(q).neighbors
                        &&& (old(self).cell_at(q).mine ==> self.cell_at(q).mine)
                    },
            decreases number - k,
        {
            self.place_mine(rng);
            k = k + 1;
        }
    }

    /// Place the given number of mines using the thread-local generator and
    /// compute every cell's neighbor count, readying the field for play.
    pub fn prepare_mines(&mut self, number_of_mines: u8)
        requires
            old(self).wf(),
            count_mines(old(self)@) + number_of_mines as int <= old(self).area(),
        ensures
            final(self).wf(),
            final(self).width == old(self).width,
            final(self).height == old(self).height,
            count_mines(final(self)@) == count_mines(old(self)@) + number_of_mines as int,
            forall|q: (int, int)|
                old(self).in_bounds(q) ==> {
                    &&& (#[trigger] final(self).cell_at(q)).state == old(self).cell_at(q).state
                    &&& (old(self).cell_at(q).mine ==> final(self).cell_at(q).mine)
                },
            forall|q: (int, int)|
                old(self).in_bounds(q) ==> #[trigger] final(self).nbrs_at(q) == final(
                    self).mine_nbrs(q),
    {
        let mut rng = fresh_rng();
        self.place_mines(number_of_mines, &mut rng);
        let ghost mid = *self;
        self.calc_neighbors();
        proof {
            lemma_count_mines_pointwise(mid@, self@);
            assert forall|q: (int, int)| old(self).in_bounds(q) implies #[trigger] self.nbrs_at(q)
                == self.mine_nbrs(q) by {
                lemma_mine_nbrs_stable(mid, *self, q);
            }
        }
    }
}

/// The character for a single decimal digit.
pub open spec fn digit_char(d: nat) -> char {
    if d == 0 {
        '0'
    } else if d == 1 {
        '1'
    } else if d == 2 {
        '2'
    } else if d == 3 {
        '3'
    } else if d == 4 {
        '4'
    } else if d == 5 {
        '5'
    } else if d == 6 {
        '6'
    } else if d == 7 {
        '7'
    } else if d == 8 {
        '8'
    } else {
        '9'
    }
}

/// The decimal representation of `n`, most significant digit first.
pub open spec fn dec_rep(n: nat) -> Seq<char>
    decreases n,
{
    if n < 10 {
        seq![digit_char(n)]
    } else {
        dec_rep(n / 10).push(digit_char(n % 10))
    }
}

/// The one-character string for the decimal digit `d`.
fn digit_str(d: usize) -> (s: &'static str)
    requires
        d < 10,
    ensures
        s@ == seq![digit_char(d as nat)],
{
    let s: &'static str = if d == 0 {
        "0"
    } else if d == 1 {
        "1"
    } else if d == 2 {
        "2"
    } else if d == 3 {
        "3"
    } else if d == 4 {
        "4"
    } else if d == 5 {
        "5"
    } else if d == 6 {
        "6"
    } else if d == 7 {
        "7"
    } else if d == 8 {
        "8"
    } else {
        "9"
    };
    proof {
        reveal_strlit("0");
        reveal_strlit("1");
        reveal_strlit("2");
        reveal_strlit("3");
        reveal_strlit("4");
        reveal_strlit("5");
        reveal_strlit("6");
        reveal_strlit("7");
        reveal_strlit("8");
        reveal_strlit("9");
        assert(s@ =~= seq![digit_char(d as nat)]);
    }
    s
}

/// Render `n` in decimal.
fn dec_string(n: usize) -> (s: String)
    ensures
        s@ == dec_rep(n as nat),
    decreases n,
{
    let d = n % 10;
    if n < 10 {
        String::from_str(digit_str(d))
    } else {
        let mut s = dec_string(n / 10);
        s.append(digit_str(d));
        proof {
            assert(s@ =~= dec_rep(n as nat));
        }
        s
    }
}

impl Field {
    /// The status line the engine reports for this game state.
    pub open spec fn spec_message(self) -> Seq<char> {
        if self.spec_lost() {
            "Game lost!"@
        } else if self.spec_won() {
            "Game won!"@
        } else {
            "Found "@ + dec_rep(count_state(self@, CellState::Marked) as nat) + " of "@ + dec_rep(
                count_mines(self@) as nat,
            ) + " mines."@
        }
    }

    /// Number of mines on the whole field.
    fn mines_total(&self) -> (n: usize)
        ensures
            n as int == count_mines(self@),
    {
        let len = self.cells.len();
        let mut n: usize = 0;
        let mut i: usize = 0;
        while i < len
            invariant
                i <= len,
                len == self@.len(),
                n <= i,
                n as int == count_mines(self@.subrange(0, i as int)),
            decreases len - i,
        {
            proof {
                assert(self@.subrange(0, i as int + 1).drop_last() =~= self@.subrange(0, i as int));
                assert(self@.subrange(0, i as int + 1).last() == self@[i as int]);
            }
            if self.cells[i].mine {
                n = n + 1;
            }
            i = i + 1;
        }
        proof {
            assert(self@.subrange(0, len as int) =~= self@);
        }
        n
    }

    /// Number of marked cells on the whole field.
    fn marked_total(&self) -> (n: usize)
        ensures
            n as int == count_state(self@, CellState::Marked),
    {
        let len = self.cells.len();
        let mut n: usize = 0;
        let mut i: usize = 0;
        while i < len
            invariant
                i <= len,
                len == self@.len(),
                n <= i,
                n as int == count_state(self@.subrange(0, i as int), CellState::Marked),
            decreases len - i,
        {
            proof {
                assert(self@.subrange(0, i as int + 1).drop_last() =~= self@.subrange(0, i as int));
                assert(self@.subrange(0, i as int + 1).last() == self@[i as int]);
            }
            if self.cells[i].state == CellState::Marked {
                n = n + 1;
            }
            i = i + 1;
        }
        proof {
            assert(self@.subrange(0, len as int) =~= self@);
        }
        n
    }

    /// Returns a message that summarizes the game state.
    pub fn message(&self) -> (r: String)
        ensures
            r@ == self.spec_message(),
    {
        if self.lost() {
            String::from_str("Game lost!")
        } else if self.won() {
            String::from_str("Game won!")
        } else {
            let marked = self.marked_total();
            let mines = self.mines_total();
            let mut s = String::from_str("Found ");
            let ms = dec_string(marked);
            s.append(ms.as_str());
            s.append(" of ");
            let ns = dec_string(mines);
            s.append(ns.as_str());
            s.append(" mines.");
            s
        }
    }
}

/// What one mark toggle does to a cell state.
pub open spec fn toggled(st: CellState) -> CellState {
    match st {
        CellState::Marked => CellState::Unmarked,
        CellState::Unmarked => CellState::Marked,
        CellState::Revealed => CellState::Revealed,
    }
}

} // verus!
