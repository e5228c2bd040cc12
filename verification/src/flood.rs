//! Revealing cells: the flood-fill transition and its specification.

use vstd::prelude::*;

use crate::model::{count_state, ipos, lemma_counts_bounded, lemma_counts_update,
    lemma_sidx_in_range, CellState, Field, Pos};

verus! {

/// Whether `q` is one of the up-to-8 cells around `p`.
pub open spec fn adjacent(p: (int, int), q: (int, int)) -> bool {
    &&& p != q
    &&& -1 <= q.0 - p.0 <= 1
    &&& -1 <= q.1 - p.1 <= 1
}

/// Whether some entry of `todo` denotes the position `p`.
pub open spec fn todo_has(todo: Seq<Pos>, p: (int, int)) -> bool {
    exists|k: int| 0 <= k < todo.len() && ipos(#[trigger] todo[k]) == p
}

impl Field {
    /// An in-bounds cell whose stored neighbor count is zero.
    pub open spec fn zero_cell(self, p: (int, int)) -> bool {
        self.in_bounds(p) && self.nbrs_at(p) == 0
    }

    /// `s` is a chain of zero-neighbor cells starting at `start`: consecutive
    /// entries are adjacent, and every entry after the first is unmarked.
    pub open spec fn zero_chain(self, start: (int, int), s: Seq<(int, int)>) -> bool {
        &&& s.len() >= 1
        &&& s[0] == start
        &&& forall|i: int| 0 <= i < s.len() ==> self.zero_cell(#[trigger] s[i])
        &&& forall|i: int|
            1 <= i < s.len() ==> adjacent(s[i - 1], #[trigger] s[i]) && self.state_at(s[i])
                == CellState::Unmarked
    }

    /// `p` can be reached from `start` along unmarked zero-neighbor cells.
    pub open spec fn zero_reach(self, start: (int, int), p: (int, int)) -> bool {
        exists|s: Seq<(int, int)>| self.zero_chain(start, s) && s.last() == p
    }

    /// The cells that one `reveal` at `start` turns to `Revealed`: none for a
    /// marked target; the target alone when it is a mine or has neighboring
    /// mines; otherwise the connected region of unmarked zero-neighbor cells
    /// around `start` together with its unmarked border.
    pub open spec fn revealed_by(self, start: (int, int), q: (int, int)) -> bool {
        if self.state_at(start) == CellState::Marked {
            false
        } else if !(self.nbrs_at(start) == 0 && !self.cell_at(start).mine) {
            q == start
        } else {
            q == start || (self.in_bounds(q) && self.state_at(q) == CellState::Unmarked
                && exists|p: (int, int)| #[trigger] self.zero_reach(start, p) && adjacent(p, q))
        }
    }

    /// Every in-bounds cell around `p` has been taken out of the unmarked state.
    pub open spec fn expanded(self, p: (int, int)) -> bool {
        forall|q: (int, int)|
            #[trigger] adjacent(p, q) && self.in_bounds(q) ==> self.state_at(q)
                != CellState::Unmarked
    }
}

/// A reachable cell other than the start itself is unmarked.
pub proof fn lemma_reach_unmarked(g: Field, start: (int, int), p: (int, int))
    requires
        g.zero_reach(start, p),
        p != start,
    ensures
        g.state_at(p) == CellState::Unmarked,
        g.zero_cell(p),
{
    let s = choose|s: Seq<(int, int)>| g.zero_chain(start, s) && s.last() == p;
    assert(s.len() >= 2) by {
        if s.len() == 1 {
            assert(s.last() == s[0]);
        }
    }
    assert(g.state_at(s[s.len() - 1]) == CellState::Unmarked);
}

/// The start of a flood is reachable from itself.
pub proof fn lemma_reach_start(g: Field, start: (int, int))
    requires
        g.zero_cell(start),
    ensures
        g.zero_reach(start, start),
{
    let s = seq![start];
    assert(g.zero_chain(start, s));
    assert(s.last() == start);
}

/// Reachability extends across one adjacency step onto an unmarked zero cell.
pub proof fn lemma_zero_reach_step(g: Field, start: (int, int), p: (int, int), q: (int, int))
    requires
        g.zero_reach(start, p),
        adjacent(p, q),
        g.zero_cell(q),
        g.state_at(q) == CellState::Unmarked,
    ensures
        g.zero_reach(start, q),
{
    let s = choose|s: Seq<(int, int)>| g.zero_chain(start, s) && s.last() == p;
    let t = s.push(q);
    assert forall|i: int| 0 <= i < t.len() implies g.zero_cell(#[trigger] t[i]) by {
        if i < s.len() {
            assert(t[i] == s[i]);
        }
    }
    assert forall|i: int| 1 <= i < t.len() implies adjacent(t[i - 1], #[trigger] t[i]) && g.state_at(
        t[i],
    ) == CellState::Unmarked by {
        if i < s.len() {
            assert(t[i] == s[i]);
            assert(t[i - 1] == s[i - 1]);
        } else {
            assert(t[i] == q);
            assert(t[i - 1] == s[s.len() - 1]);
        }
    }
    assert(g.zero_chain(start, t));
    assert(t.last() == q);
}

/// Once the worklist is empty, every cell reachable from the start has been
/// revealed: the argument walks down the chain that witnesses reachability.
proof fn lemma_region_revealed(pre: Field, cur: Field, start: (int, int), s: Seq<(int, int)>)
    requires
        pre.wf(),
        cur.width == pre.width,
        cur.height == pre.height,
        cur@.len() == pre@.len(),
        cur.state_at(start) == CellState::Revealed,
        forall|q: (int, int)|
            pre.in_bounds(q) ==> (#[trigger] cur.state_at(q)) == pre.state_at(q) || (cur.state_at(q)
                == CellState::Revealed && pre.state_at(q) == CellState::Unmarked),
        forall|p: (int, int)|
            #[trigger] pre.zero_reach(start, p) && cur.state_at(p) == CellState::Revealed
                ==> cur.expanded(p),
        pre.zero_chain(start, s),
    ensures
        cur.state_at(s.last()) == CellState::Revealed,
    decreases s.len(),
{
    if s.len() == 1 {
        assert(s.last() == start);
    } else {
        let s0 = s.drop_last();
        assert(pre.zero_chain(start, s0));
        lemma_region_revealed(pre, cur, start, s0);
        let p = s0.last();
        let q = s.last();
        assert(p == s[s.len() - 2]);
        assert(adjacent(p, q) && pre.state_at(q) == CellState::Unmarked);
        assert(pre.zero_reach(start, p)) by {
            assert(pre.zero_chain(start, s0) && s0.last() == p);
        }
        assert(cur.expanded(p));
        assert(pre.in_bounds(q));
        assert(cur.state_at(q) != CellState::Unmarked);
    }
}

impl Field {
    /// Push `(nx, ny)` onto the candidate stack when it lies on the field.
    fn push_if_in_bounds(&self, nx: i32, ny: i32, todo: &mut Vec<Pos>)
        requires
            self.wf(),
        ensures
            !self.in_bounds((nx as int, ny as int)) ==> final(todo)@ == old(todo)@,
            self.in_bounds((nx as int, ny as int)) ==> {
                &&& final(todo)@.len() == old(todo)@.len() + 1
                &&& final(todo)@.subrange(0, old(todo)@.len() as int) == old(todo)@
                &&& ipos(final(todo)@[old(todo)@.len() as int]) == (nx as int, ny as int)
            },
    {
        if nx >= 0 && ny >= 0 && nx < self.width as i32 && ny < self.height as i32 {
            todo.push((nx as u8, ny as u8));
            proof {
                assert(todo@.subrange(0, old(todo)@.len() as int) =~= old(todo)@);
            }
        }
    }

    /// Push every in-bounds neighbor of `pos` onto the candidate stack.
    fn push_candidates(&self, pos: Pos, todo: &mut Vec<Pos>)
        requires
            self.wf(),
            self.in_bounds(ipos(pos)),
        ensures
            final(todo)@.len() >= old(todo)@.len(),
            final(todo)@.subrange(0, old(todo)@.len() as int) == old(todo)@,
            forall|k: int|
                old(todo)@.len() <= k < final(todo)@.len() ==> self.in_bounds(
                    ipos(#[trigger] final(todo)@[k]),
                ) && adjacent(ipos(pos), ipos(final(todo)@[k])),
            forall|q: (int, int)|
                self.in_bounds(q) && adjacent(ipos(pos), q) ==> #[trigger] todo_has(
                    final(todo)@, q),
    {
        let x = pos.0 as i32;
        let y = pos.1 as i32;
        let ghost t0 = todo@;
        self.push_if_in_bounds(x - 1, y - 1, todo);
        let ghost t1 = todo@;
        self.push_if_in_bounds(x, y - 1, todo);
        let ghost t2 = todo@;
        self.push_if_in_bounds(x + 1, y - 1, todo);
        let ghost t3 = todo@;
        self.push_if_in_bounds(x - 1, y, todo);
        let ghost t4 = todo@;
        self.push_if_in_bounds(x + 1, y, todo);
        let ghost t5 = todo@;
        self.push_if_in_bounds(x - 1, y + 1, todo);
        let ghost t6 = todo@;
        self.push_if_in_bounds(x, y + 1, todo);
        let ghost t7 = todo@;
        self.push_if_in_bounds(x + 1, y + 1, todo);
        proof {
            assert(t1.subrange(0, t0.len() as int) =~= t0);
            assert(t2.subrange(0, t1.len() as int) =~= t1);
            assert(t3.subrange(0, t2.len() as int) =~= t2);
            assert(t4.subrange(0, t3.len() as int) =~= t3);
            assert(t5.subrange(0, t4.len() as int) =~= t4);
            assert(t6.subrange(0, t5.len() as int) =~= t5);
            assert(t7.subrange(0, t6.len() as int) =~= t6);
            assert(todo@.subrange(0, t7.len() as int) =~= t7);
            lemma_prefix_trans(t6, t7, todo@);
            lemma_prefix_trans(t5, t6, todo@);
            lemma_prefix_trans(t4, t5, todo@);
            lemma_prefix_trans(t3, t4, todo@);
            lemma_prefix_trans(t2, t3, todo@);
            lemma_prefix_trans(t1, t2, todo@);
            lemma_prefix_trans(t0, t1, todo@);
            assert forall|q: (int, int)|
                self.in_bounds(q) && adjacent(ipos(pos), q) implies todo_has(todo@, q) by {
                let xi = pos.0 as int;
                let yi = pos.1 as int;
                if q == (xi - 1, yi - 1) {
                    assert(todo@.subrange(0, t1.len() as int) == t1);
                    assert(ipos(todo@[t0.len() as int]) == q);
                } else if q == (xi, yi - 1) {
                    assert(todo@.subrange(0, t2.len() as int) == t2);
                    assert(ipos(todo@[t1.len() as int]) == q);
                } else if q == (xi + 1, yi - 1) {
                    assert(todo@.subrange(0, t3.len() as int) == t3);
                    assert(ipos(todo@[t2.len() as int]) == q);
                } else if q == (xi - 1, yi) {
                    assert(todo@.subrange(0, t4.len() as int) == t4);
                    assert(ipos(todo@[t3.len() as int]) == q);
                } else if q == (xi + 1, yi) {
                    assert(todo@.subrange(0, t5.len() as int) == t5);
                    assert(ipos(todo@[t4.len() as int]) == q);
                } else if q == (xi - 1, yi + 1) {
                    assert(todo@.subrange(0, t6.len() as int) == t6);
                    assert(ipos(todo@[t5.len() as int]) == q);
                } else if q == (xi, yi + 1) {
                    assert(todo@.subrange(0, t7.len() as int) == t7);
                    assert(ipos(todo@[t6.len() as int]) == q);
                } else {
                    assert(q == (xi + 1, yi + 1));
                    assert(ipos(todo@[t7.len() as int]) == q);
                }
            }
        }
    }
}

impl Field {
    /// Reveals the cell at the given position and transitively reveals all
    /// other connected cells with 0 neighboring mines. A marked cell is left
    /// alone: revealing it takes unmarking it first.
    #[verifier::rlimit(50)]
    pub fn reveal_cell(&mut self, pos: Pos)
        requires
            old(self).wf(),
            old(self).in_bounds(ipos(pos)),
        ensures
            final(self).wf(),
            final(self).width == old(self).width,
            final(self).height == old(self).height,
            forall|q: (int, int)|
                old(self).in_bounds(q) ==> {
                    &&& (#[trigger] final(self).cell_at(q)).mine == old(self).cell_at(q).mine
                    &&& final(self).cell_at(q).neighbors == old(self).cell_at(q).neighbors
                    &&& final(self).state_at(q) == (if old(self).revealed_by(ipos(pos), q) {
                        CellState::Revealed
                    } else {
                        old(self).state_at(q)
                    })
                },
    {
        let ghost pre = *old(self);
        let ghost start = ipos(pos);
        let c = self.cell(pos);
        if c.state == CellState::Marked {
            return ;
        }
        let mut c2 = c;
        c2.state = CellState::Revealed;
        self.set_cell(pos, c2);
        if c.neighbors == 0 && !c.mine {
            proof {
                lemma_reach_start(pre, start);
            }
            let mut todo: Vec<Pos> = Vec::new();
            self.push_candidates(pos, &mut todo);
            proof {
                assert forall|p: (int, int), q: (int, int)|
                    #![trigger pre.zero_reach(start, p), adjacent(p, q)]
                    pre.zero_reach(start, p) && self.state_at(p) == CellState::Revealed && adjacent(
                        p,
                        q,
                    ) && pre.in_bounds(q) && self.state_at(q)
                        == CellState::Unmarked implies todo_has(todo@, q) by {
                    if p == start {
                        assert(adjacent(ipos(pos), q));
                        assert(self.in_bounds(q));
                        assert(todo_has(todo@, q));
                    } else {
                        lemma_reach_unmarked(pre, start, p);
                        assert(self.state_at(p) == pre.state_at(p));
                    }
                }
            }
            while todo.len() > 0
                invariant
                    pre.wf(),
                    pre.in_bounds(start),
                    pre.state_at(start) != CellState::Marked,
                    pre.nbrs_at(start) == 0,
                    !pre.cell_at(start).mine,
                    self.wf(),
                    self.width == pre.width,
                    self.height == pre.height,
                    forall|q: (int, int)|
                        pre.in_bounds(q) ==> ((#[trigger] self.cell_at(q)).mine == pre.cell_at(
                            q,
                        ).mine && self.cell_at(q).neighbors == pre.cell_at(q).neighbors),
                    forall|q: (int, int)|
                        pre.in_bounds(q) ==> ((#[trigger] self.state_at(q)) == pre.state_at(q) || (
                        self.state_at(q) == CellState::Revealed && pre.revealed_by(start, q))),
                    self.state_at(start) == CellState::Revealed,
                    forall|k: int|
                        0 <= k < todo@.len() ==> (pre.in_bounds(ipos(#[trigger] todo@[k]))
                            && exists|p: (int, int)|
                            #[trigger] pre.zero_reach(start, p) && adjacent(p, ipos(todo@[k]))),
                    forall|p: (int, int), q: (int, int)|
                        #![trigger pre.zero_reach(start, p), adjacent(p, q)]
                        pre.zero_reach(start, p) && self.state_at(p) == CellState::Revealed
                            && adjacent(p, q) && pre.in_bounds(q) && self.state_at(q)
                            == CellState::Unmarked ==> todo_has(todo@, q),
                decreases count_state(self@, CellState::Unmarked), todo@.len(),
            {
                let ghost tfull = todo@;
                let t = todo.pop().unwrap();
                let ghost tpop = todo@;
                proof {
                    assert(pre.in_bounds(ipos(tfull[tfull.len() - 1])));
                    assert(t == tfull[tfull.len() - 1]);
                }
                let ct = self.cell(t);
                let ghost gmid = *self;
                if ct.state == CellState::Unmarked {
                    let mut ct2 = ct;
                    ct2.state = CellState::Revealed;
                    self.set_cell(t, ct2);
                    proof {
                        lemma_sidx_in_range(gmid, ipos(t));
                        lemma_counts_update(gmid@, gmid.sidx(ipos(t)), ct2, CellState::Unmarked);
                        lemma_counts_bounded(self@, CellState::Unmarked);
                        assert(pre.state_at(ipos(t)) == CellState::Unmarked);
                        assert(pre.revealed_by(start, ipos(t)));
                        assert forall|q: (int, int)|
                            pre.in_bounds(q) implies ((#[trigger] self.cell_at(q)).mine
                            == pre.cell_at(q).mine && self.cell_at(q).neighbors == pre.cell_at(
                            q).neighbors) by {
                            if q != ipos(t) {
                                assert(self.cell_at(q) == gmid.cell_at(q));
                            }
                        }
                        assert forall|q: (int, int)|
                            pre.in_bounds(q) implies ((#[trigger] self.state_at(q)) == pre.state_at(
                            q) || (self.state_at(q) == CellState::Revealed && pre.revealed_by(
                            start, q))) by {
                            if q != ipos(t) {
                                assert(self.cell_at(q) == gmid.cell_at(q));
                                assert(gmid.state_at(q) == pre.state_at(q) || (gmid.state_at(q)
                                    == CellState::Revealed && pre.revealed_by(start, q)));
                            }
                        }
                    }
                    if ct.neighbors == 0 {
                        proof {
                            let p0 = choose|p: (int, int)|
                                #[trigger] pre.zero_reach(start, p) && adjacent(p, ipos(t));
                            lemma_zero_reach_step(pre, start, p0, ipos(t));
                        }
                        self.push_candidates(t, &mut todo);
                    }
                    proof {
                        assert(todo@.subrange(0, tpop.len() as int) =~= tpop);
                        assert forall|k: int|
                            0 <= k < todo@.len() implies (pre.in_bounds(
                            ipos(#[trigger] todo@[k])) && exists|p: (int, int)|
                            #[trigger] pre.zero_reach(start, p) && adjacent(
                            p, ipos(todo@[k]))) by {
                            if k < tpop.len() {
                                assert(todo@[k] == tpop[k] && tpop[k] == tfull[k]);
                                let p0 = choose|p: (int, int)|
                                    #[trigger] pre.zero_reach(start, p) && adjacent(
                                    p, ipos(tfull[k]));
                                assert(pre.zero_reach(start, p0) && adjacent(p0, ipos(todo@[k])));
                            } else {
                                assert(pre.zero_reach(start, ipos(t)) && adjacent(
                                    ipos(t), ipos(todo@[k])));
                            }
                        }
                        assert forall|p: (int, int), q: (int, int)|
                            #![trigger pre.zero_reach(start, p), adjacent(p, q)]
                            pre.zero_reach(start, p) && self.state_at(p) == CellState::Revealed
                                && adjacent(p, q) && pre.in_bounds(q) && self.state_at(q)
                                == CellState::Unmarked implies todo_has(todo@, q) by {
                            if p == ipos(t) {
                                lemma_reach_unmarked(pre, start, p);
                            } else {
                                assert(gmid.state_at(p) == CellState::Revealed);
                                assert(gmid.state_at(q) == CellState::Unmarked);
                                assert(todo_has(tfull, q));
                                let k = choose|k: int|
                                    0 <= k < tfull.len() && ipos(#[trigger] tfull[k]) == q;
                                assert(k < tfull.len() - 1);
                                assert(todo@[k] == tpop[k] && tpop[k] == tfull[k]);
                                assert(todo_has(todo@, q));
                            }
                        }
                    }
                } else {
                    proof {
                        lemma_counts_bounded(self@, CellState::Unmarked);
                        assert forall|k: int|
                            0 <= k < todo@.len() implies (pre.in_bounds(
                            ipos(#[trigger] todo@[k])) && exists|p: (int, int)|
                            #[trigger] pre.zero_reach(start, p) && adjacent(
                            p, ipos(todo@[k]))) by {
                            assert(todo@[k] == tfull[k]);
                            let p0 = choose|p: (int, int)|
                                #[trigger] pre.zero_reach(start, p) && adjacent(p, ipos(tfull[k]));
                            assert(pre.zero_reach(start, p0) && adjacent(p0, ipos(todo@[k])));
                        }
                        assert forall|p: (int, int), q: (int, int)|
                            #![trigger pre.zero_reach(start, p), adjacent(p, q)]
                            pre.zero_reach(start, p) && self.state_at(p) == CellState::Revealed
                                && adjacent(p, q) && pre.in_bounds(q) && self.state_at(q)
                                == CellState::Unmarked implies todo_has(todo@, q) by {
                            assert(todo_has(tfull, q));
                            let k = choose|k: int|
                                0 <= k < tfull.len() && ipos(#[trigger] tfull[k]) == q;
                            assert(k < tfull.len() - 1);
                            assert(tpop[k] == tfull[k]);
                            assert(todo_has(todo@, q));
                        }
                    }
                }
            }
            proof {
                assert forall|r: (int, int)|
                    #[trigger] pre.zero_reach(start, r) && self.state_at(r)
                        == CellState::Revealed implies self.expanded(r) by {
                    assert forall|u: (int, int)|
                        #[trigger] adjacent(r, u) && self.in_bounds(u) implies self.state_at(u)
                        != CellState::Unmarked by {
                        if self.state_at(u) == CellState::Unmarked {
                            assert(pre.in_bounds(u));
                            assert(todo_has(todo@, u));
                            assert(false);
                        }
                    }
                }
                assert forall|q: (int, int)|
                    pre.in_bounds(q) && pre.revealed_by(start, q) implies self.state_at(q)
                    == CellState::Revealed by {
                    if q != start {
                        let p = choose|p: (int, int)|
                            #[trigger] pre.zero_reach(start, p) && adjacent(p, q);
                        let s = choose|s: Seq<(int, int)>|
                            pre.zero_chain(start, s) && s.last() == p;
                        assert forall|u: (int, int)|
                            pre.in_bounds(u) implies (#[trigger] self.state_at(u)) == pre.state_at(
                            u,
                        ) || (self.state_at(u) == CellState::Revealed && pre.state_at(u)
                            == CellState::Unmarked) by {
                            if self.state_at(u) != pre.state_at(u) && u == start {
                                assert(pre.state_at(start) != CellState::Marked);
                            }
                        }
                        lemma_region_revealed(pre, *self, start, s);
                        assert(self.state_at(p) == CellState::Revealed);
                        assert(self.expanded(p));
                        assert(self.state_at(q) != CellState::Unmarked);
                    }
                }
            }
        } else {
            proof {
                assert forall|q: (int, int)|
                    pre.in_bounds(q) implies #[trigger] pre.revealed_by(start, q) == (q
                    == start) by {}
            }
        }
    }
}

/// Prefix preservation composes across successive stack extensions.
proof fn lemma_prefix_trans(a: Seq<Pos>, b: Seq<Pos>, c: Seq<Pos>)
    requires
        b.len() >= a.len(),
        c.len() >= b.len(),
        b.subrange(0, a.len() as int) == a,
        c.subrange(0, b.len() as int) == b,
    ensures
        c.subrange(0, a.len() as int) == a,
{
    assert forall|k: int| 0 <= k < a.len() implies c.subrange(0, a.len() as int)[k] == a[k] by {
        assert(b.subrange(0, a.len() as int)[k] == a[k]);
        assert(c.subrange(0, b.len() as int)[k] == b[k]);
    }
    assert(c.subrange(0, a.len() as int) =~= a);
}

} // verus!
