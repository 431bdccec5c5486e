//! Taking the groups without liberties off the board.

use crate::board::{Goban, Position};
use crate::color::{Color, Coord, Stone};
use crate::liberty::covered;
use crate::tally::{count_true, lemma_count_bound, lemma_count_none, lemma_mark_all, mark_all};
use vstd::prelude::*;

verus! {

impl Position {
    /// For each cell, in the order of `cells`: whether it belongs to a group of `color`
    /// that has no liberty.
    pub open spec fn captured_flags(self, color: Color) -> Seq<bool> {
        Seq::new(self.cells.len(), |i: int| self.is_captured(color, self.coord(i)))
    }

    /// How many cells belong to groups of `color` without liberties.
    pub open spec fn captured_count(self, color: Color) -> nat {
        count_true(self.captured_flags(color))
    }

    /// The board after every group of `color` without liberties has been taken off.
    pub open spec fn without_dead(self, color: Color) -> Position {
        Position {
            size: self.size,
            cells: Seq::new(
                self.cells.len(),
                |i: int|
                    if self.is_captured(color, self.coord(i)) {
                        Color::Empty
                    } else {
                        self.cells[i]
                    },
            ),
        }
    }

    /// What `without_dead` does, cell by cell.
    pub proof fn lemma_without_dead(self, color: Color)
        requires
            self.wf(),
        ensures
            self.without_dead(color).wf(),
            self.without_dead(color).size == self.size,
            forall|c: Coord|
                self.valid(c) ==> #[trigger] self.without_dead(color).at(c) == if self.is_captured(
                    color,
                    c,
                ) {
                    Color::Empty
                } else {
                    self.at(c)
                },
    {
        assert forall|c: Coord| self.valid(c) implies #[trigger] self.without_dead(color).at(c)
            == if self.is_captured(color, c) {
            Color::Empty
        } else {
            self.at(c)
        } by {
            self.lemma_index_in_range(c);
            self.lemma_coord_of_index(c);
        }
    }

    /// The stones of a dead group all stand on the board, in cells that count as captured.
    pub proof fn lemma_dead_group_members(self, color: Color, g: Seq<Stone>, t: int)
        requires
            self.wf(),
            self.is_dead_group(color, g),
            0 <= t < g.len(),
        ensures
            g[t].color == color,
            self.holds(g[t]),
            self.is_captured(color, g[t].coord),
            g[t] == (Stone { coord: g[t].coord, color }),
    {
        assert(g.to_set().contains(g[t]));
        self.lemma_group_holds(g[0], g[t]);
        self.lemma_group_same(g[0], g[t]);
    }
}

/// The coordinates of the listed stones, in order.
pub fn coords_of(stones: &Vec<Stone>) -> (r: Vec<Coord>)
    ensures
        r@.len() == stones@.len(),
        forall|j: int| 0 <= j < r@.len() ==> #[trigger] r@[j] == stones@[j].coord,
{
    let mut out: Vec<Coord> = Vec::with_capacity(stones.len());
    let mut j: usize = 0;
    while j < stones.len()
        invariant
            j <= stones.len(),
            out@.len() == j,
            forall|t: int| 0 <= t < j ==> #[trigger] out@[t] == stones@[t].coord,
        decreases stones.len() - j,
    {
        out.push(stones[j].coord);
        j += 1;
    }
    out
}

impl Goban {
    /// Takes every group of `color` without liberties off the board and returns how
    /// many stones that were.
    pub fn remove_dead(&mut self, color: Color) -> (count: usize)
        requires
            old(self)@.wf(),
        ensures
            final(self)@ == old(self)@.without_dead(color),
            final(self)@.wf(),
            count == old(self)@.captured_count(color),
    {
        let ghost pos0 = self@;
        let ghost n = self.tab@.len();
        let groups = self.get_groups_of_stones_color_without_liberties(color);
        let mut count: usize = 0;
        let ghost mut marks: Seq<bool> = Seq::new(n, |i: int| false);
        let mut k: usize = 0;
        proof {
            lemma_count_none(marks);
            pos0.lemma_indices();
            assert(groups@.take(0).len() == 0);
        }
        while k < groups.len()
            invariant
                k <= groups.len(),
                pos0.wf(),
                self@.wf(),
                self@.size == pos0.size,
                n == pos0.cells.len(),
                marks.len() == n,
                count == count_true(marks),
                forall|a: int|
                    0 <= a < groups@.len() ==> pos0.is_dead_group(color, (#[trigger] groups@[a])@),
                forall|a: int, b: int, s: Stone|
                    0 <= a < b < groups@.len() && #[trigger] groups@[a]@.contains(s)
                        ==> !#[trigger] groups@[b]@.contains(s),
                forall|c: Coord|
                    pos0.valid(c) ==> marks[#[trigger] pos0.index(c)] == covered(
                        groups@.take(k as int),
                        Stone { coord: c, color },
                    ),
                forall|c: Coord|
                    pos0.valid(c) ==> #[trigger] self@.at(c) == if marks[pos0.index(c)] {
                        Color::Empty
                    } else {
                        pos0.at(c)
                    },
            decreases groups.len() - k,
        {
            let g = &groups[k];
            let coords = coords_of(g);
            let ghost prev = self@;
            let ghost marks0 = marks;
            let ghost idxs = Seq::new(g@.len(), |t: int| pos0.index(g@[t].coord));
            let ghost done = groups@.take(k as int);
            let ghost done1 = groups@.take(k + 1);
            proof {
                pos0.lemma_indices();
                assert forall|t: int| 0 <= t < idxs.len() implies 0 <= #[trigger] idxs[t]
                    < marks0.len() && !marks0[idxs[t]] by {
                    pos0.lemma_dead_group_members(color, g@, t);
                    if marks0[idxs[t]] {
                        assert(marks0[pos0.index(g@[t].coord)]);
                        assert(covered(done, g@[t]));
                        let a = choose|a: int|
                            0 <= a < done.len() && (#[trigger] done[a])@.contains(g@[t]);
                        assert(groups@[a]@.contains(g@[t]));
                        assert(groups@[k as int]@.contains(g@[t]));
                    }
                }
                assert forall|t: int, u: int| 0 <= t < u < idxs.len() implies idxs[t]
                    != idxs[u] by {
                    pos0.lemma_dead_group_members(color, g@, t);
                    pos0.lemma_dead_group_members(color, g@, u);
                    if idxs[t] == idxs[u] {
                        pos0.lemma_index_injective(g@[t].coord, g@[u].coord);
                    }
                }
                lemma_mark_all(marks0, idxs);
                marks = mark_all(marks0, idxs);
                lemma_count_bound(marks);
            }
            count += g.len();
            self.push_many(&coords, Color::Empty);
            proof {
                prev.lemma_put_all(coords@, Color::Empty);
                // a cell is among the marked positions exactly when the group holds it
                assert forall|c: Coord| pos0.valid(c) implies (idxs.contains(
                    #[trigger] pos0.index(c),
                ) <==> g@.contains(Stone { coord: c, color })) && (coords@.contains(c)
                    <==> g@.contains(Stone { coord: c, color })) by {
                    let sc = Stone { coord: c, color };
                    if idxs.contains(pos0.index(c)) {
                        let t = choose|t: int| 0 <= t < idxs.len() && idxs[t] == pos0.index(c);
                        pos0.lemma_dead_group_members(color, g@, t);
                        pos0.lemma_index_injective(g@[t].coord, c);
                        assert(g@[t] == sc);
                    }
                    if coords@.contains(c) {
                        let t = choose|t: int| 0 <= t < coords@.len() && coords@[t] == c;
                        pos0.lemma_dead_group_members(color, g@, t);
                        assert(g@[t] == sc);
                    }
                    if g@.contains(sc) {
                        let t = choose|t: int| 0 <= t < g@.len() && g@[t] == sc;
                        assert(idxs[t] == pos0.index(c));
                        assert(coords@[t] == c);
                    }
                }
                assert forall|s: Stone| covered(done1, s) <==> (covered(done, s) || g@.contains(
                    s,
                )) by {
                    if covered(done1, s) {
                        let a = choose|a: int|
                            0 <= a < done1.len() && (#[trigger] done1[a])@.contains(s);
                        if a < k {
                            assert(done[a]@.contains(s));
                        }
                    }
                    if covered(done, s) {
                        let a = choose|a: int|
                            0 <= a < done.len() && (#[trigger] done[a])@.contains(s);
                        assert(done1[a]@.contains(s));
                    }
                    if g@.contains(s) {
                        assert(done1[k as int]@.contains(s));
                    }
                }
                assert forall|c: Coord| pos0.valid(c) implies marks[#[trigger] pos0.index(c)]
                    == covered(done1, Stone { coord: c, color }) by {
                    assert(marks0[pos0.index(c)] == covered(done, Stone { coord: c, color }));
                }
                assert forall|c: Coord| pos0.valid(c) implies #[trigger] self@.at(c)
                    == if marks[pos0.index(c)] {
                    Color::Empty
                } else {
                    pos0.at(c)
                } by {
                    assert(prev.valid(c));
                    assert(self@.at(c) == prev.put_all(coords@, Color::Empty).at(c));
                    assert(idxs.contains(pos0.index(c)) <==> g@.contains(
                        Stone { coord: c, color },
                    ));
                }
            }
            k += 1;
        }
        proof {
            assert(groups@.take(k as int) =~= groups@);
            let target = pos0.without_dead(color);
            let flags = pos0.captured_flags(color);
            assert forall|i: int| 0 <= i < n implies marks[i] == #[trigger] flags[i] by {
                pos0.lemma_index_of_coord(i);
                let c = pos0.coord(i);
                let sc = Stone { coord: c, color };
                assert(marks[pos0.index(c)] == covered(groups@, sc));
                if covered(groups@, sc) {
                    let a = choose|a: int|
                        0 <= a < groups@.len() && (#[trigger] groups@[a])@.contains(sc);
                    let t = choose|t: int| 0 <= t < groups@[a]@.len() && groups@[a]@[t] == sc;
                    pos0.lemma_dead_group_members(color, groups@[a]@, t);
                }
            }
            assert(marks =~= flags);
            assert forall|i: int| 0 <= i < n implies self@.cells[i] == #[trigger] target.cells[i] by {
                pos0.lemma_index_of_coord(i);
                let c = pos0.coord(i);
                assert(self@.at(c) == if marks[pos0.index(c)] {
                    Color::Empty
                } else {
                    pos0.at(c)
                });
            }
            assert(self@.cells =~= target.cells);
        }
        count
    }
}

} // verus!
