//! Area scoring: stones on the board plus the empty regions that touch one colour only.

use crate::board::{adjacent, Goban, Position};
use crate::color::{Color, Coord, Player, Stone};
use crate::group::seen;
use crate::liberty::covered;
use crate::tally::{
    count_true, lemma_count_bound, lemma_count_mark, lemma_count_none, lemma_mark_all, mark_all,
};
use vstd::prelude::*;

verus! {

/// Some stone of `g` stands next to a cell of the board that holds `color`.
pub open spec fn touches(pos: Position, g: Seq<Stone>, color: Color) -> bool {
    exists|t: int, s: Coord|
        0 <= t < g.len() && #[trigger] adjacent(g[t].coord, s) && pos.valid(s) && pos.at(s)
            == color
}

impl Position {
    /// The region of empty cells around `c` touches a cell that holds `color`.
    pub open spec fn region_borders(self, c: Coord, color: Color) -> bool {
        exists|e: Coord, s: Coord|
            self.connected(Stone { coord: c, color: Color::Empty }, e) && #[trigger] adjacent(e, s)
                && self.valid(s) && self.at(s) == color
    }

    /// The cell at `c` counts for `who`: it holds a stone of `who`, or it is empty and
    /// its region touches stones of `who` and none of the other side.
    pub open spec fn scores_for(self, who: Player, c: Coord) -> bool {
        &&& self.valid(c)
        &&& (self.at(c) == who.color() || (self.at(c) == Color::Empty && self.region_borders(
            c,
            who.color(),
        ) && !self.region_borders(c, who.other().color())))
    }

    /// For each cell, in the order of `cells`: whether it counts for `who`.
    pub open spec fn score_flags(self, who: Player) -> Seq<bool> {
        Seq::new(self.cells.len(), |i: int| self.scores_for(who, self.coord(i)))
    }

    /// The area score of `who`.
    pub open spec fn score(self, who: Player) -> nat {
        count_true(self.score_flags(who))
    }

    /// `g` lists, each once, the stones of the whole group of its first stone, which
    /// stands on the board.
    pub open spec fn is_group(self, g: Seq<Stone>) -> bool {
        &&& g.len() > 0
        &&& self.holds(g[0])
        &&& g.no_duplicates()
        &&& g.to_set() == self.group(g[0])
    }

    /// The members of a listed group stand on the board and have the group as theirs.
    pub proof fn lemma_group_members(self, g: Seq<Stone>, t: int)
        requires
            self.wf(),
            self.is_group(g),
            0 <= t < g.len(),
        ensures
            g[t].color == g[0].color,
            self.holds(g[t]),
            self.group(g[t]) == self.group(g[0]),
            g[t].coord.0 < usize::MAX,
            g[t].coord.1 < usize::MAX,
    {
        assert(g.to_set().contains(g[t]));
        self.lemma_group_holds(g[0], g[t]);
        self.lemma_group_same(g[0], g[t]);
        self.lemma_size_fits();
    }

    /// For a listed region of empty cells, touching a colour is the same as the region
    /// of any of its cells bordering that colour.
    pub proof fn lemma_touches_region(self, g: Seq<Stone>, c: Coord, color: Color)
        requires
            self.wf(),
            self.is_group(g),
            g[0].color == Color::Empty,
            g.contains(Stone { coord: c, color: Color::Empty }),
        ensures
            touches(self, g, color) == self.region_borders(c, color),
    {
        let sc = Stone { coord: c, color: Color::Empty };
        let t0 = choose|t: int| 0 <= t < g.len() && g[t] == sc;
        self.lemma_group_members(g, t0);
        if touches(self, g, color) {
            let (t, s) = choose|t: int, s: Coord|
                0 <= t < g.len() && #[trigger] adjacent(g[t].coord, s) && self.valid(s) && self.at(
                    s,
                ) == color;
            self.lemma_group_members(g, t);
            assert(g.to_set().contains(g[t]));
            assert(self.group(sc).contains(g[t]));
            assert(self.connected(sc, g[t].coord) && adjacent(g[t].coord, s));
        }
        if self.region_borders(c, color) {
            let (e, s) = choose|e: Coord, s: Coord|
                self.connected(sc, e) && #[trigger] adjacent(e, s) && self.valid(s) && self.at(s)
                    == color;
            let se = Stone { coord: e, color: Color::Empty };
            assert(self.group(sc).contains(se));
            assert(g.to_set().contains(se));
            let t = choose|t: int| 0 <= t < g.len() && g[t] == se;
            assert(adjacent(g[t].coord, s));
        }
    }
}

/// The first stone of the group at `k` is the first of `stones` that no earlier group
/// holds.
pub open spec fn seeded_in_turn(stones: Seq<Stone>, groups: Seq<Vec<Stone>>, k: int) -> bool {
    exists|j: int|
        0 <= j < stones.len() && #[trigger] stones[j] == groups[k]@[0] && !covered(
            groups.take(k),
            stones[j],
        ) && forall|i: int| 0 <= i < j ==> covered(groups.take(k), #[trigger] stones[i])
}

impl Goban {
    /// Splits the listed stones, which stand on the board, into their groups: the group
    /// of the first stone, then the group of the first stone that is in no group yet,
    /// and so on.
    pub fn get_strings_from_stones(&self, stones: &Vec<Stone>) -> (r: Vec<Vec<Stone>>)
        requires
            self@.wf(),
            forall|j: int| 0 <= j < stones@.len() ==> self@.holds(#[trigger] stones@[j]),
        ensures
            forall|k: int|
                0 <= k < r@.len() ==> self@.is_group((#[trigger] r@[k])@) && stones@.contains(
                    r@[k]@[0],
                ),
            forall|a: int, b: int, s: Stone|
                0 <= a < b < r@.len() && #[trigger] r@[a]@.contains(s) ==> !#[trigger] r@[b]@.contains(
                    s,
                ),
            forall|j: int| 0 <= j < stones@.len() ==> covered(r@, #[trigger] stones@[j]),
            forall|k: int| 0 <= k < r@.len() ==> #[trigger] seeded_in_turn(stones@, r@, k),
    {
        let n = self.tab.len();
        let mut visited: Vec<bool> = vec![false; n];
        let mut out: Vec<Vec<Stone>> = Vec::new();
        let mut i: usize = 0;
        proof {
            self@.lemma_indices();
            assert forall|c: Coord, d: Coord|
                #[trigger] self@.connected(Stone { coord: c, color: self@.at(c) }, d)
                    && self@.valid(c) && visited@[self@.index(c)] implies self@.valid(d)
                && visited@[self@.index(d)] by {
                assert(!visited@[self@.index(c)]);
            }
        }
        while i < stones.len()
            invariant
                i <= stones.len(),
                n == self.tab@.len(),
                self@.wf(),
                visited@.len() == n,
                forall|j: int| 0 <= j < stones@.len() ==> self@.holds(#[trigger] stones@[j]),
                forall|c: Coord, d: Coord|
                    #[trigger] self@.connected(Stone { coord: c, color: self@.at(c) }, d)
                        && self@.valid(c) && visited@[self@.index(c)] ==> self@.valid(d)
                        && visited@[self@.index(d)],
                forall|c: Coord|
                    self@.valid(c) && visited@[#[trigger] self@.index(c)] ==> covered(
                        out@,
                        Stone { coord: c, color: self@.at(c) },
                    ),
                forall|j: int|
                    0 <= j < i ==> visited@[self@.index((#[trigger] stones@[j]).coord)],
                forall|k: int|
                    0 <= k < out@.len() ==> self@.is_group((#[trigger] out@[k])@)
                        && stones@.contains(out@[k]@[0]),
                forall|k: int, s: Stone|
                    0 <= k < out@.len() && #[trigger] out@[k]@.contains(s) ==> self@.valid(
                        s.coord,
                    ) && visited@[self@.index(s.coord)],
                forall|a: int, b: int, s: Stone|
                    0 <= a < b < out@.len() && #[trigger] out@[a]@.contains(s)
                        ==> !#[trigger] out@[b]@.contains(s),
                forall|k: int| 0 <= k < out@.len() ==> #[trigger] seeded_in_turn(stones@, out@, k),
            decreases stones.len() - i,
        {
            let stone = stones[i];
            proof {
                self@.lemma_size_fits();
                self@.lemma_index_in_range(stone.coord);
            }
            let at = self.idx(stone.coord);
            if !visited[at] {
                let group = self.dfs(&stone);
                let ghost visited0 = visited@;
                let ghost out0 = out@;
                proof {
                    assert forall|t: int| 0 <= t < group@.len() implies self@.valid(
                        (#[trigger] group@[t]).coord,
                    ) && !visited0[self@.index(group@[t].coord)] by {
                        self@.lemma_group_members(group@, t);
                        assert(group@.to_set().contains(group@[t]));
                        self@.lemma_connected_sym(stone, group@[t].coord);
                        assert(group@[t] == Stone {
                            coord: group@[t].coord,
                            color: self@.at(group@[t].coord),
                        });
                        if visited0[self@.index(group@[t].coord)] {
                            assert(visited0[self@.index(stone.coord)]);
                        }
                    }
                }
                self.mark_group(&group, &mut visited);
                out.push(group);
                proof {
                    let g = group@;
                    self@.lemma_indices();
                    assert forall|s: Stone| covered(out0, s) implies covered(out@, s) by {
                        let k = choose|k: int|
                            0 <= k < out0.len() && (#[trigger] out0[k])@.contains(s);
                        assert(out@[k] == out0[k]);
                    }
                    assert forall|c: Coord, d: Coord|
                        #[trigger] self@.connected(Stone { coord: c, color: self@.at(c) }, d)
                            && self@.valid(c) && visited@[self@.index(c)] implies self@.valid(d)
                        && visited@[self@.index(d)] by {
                        if visited0[self@.index(c)] {
                            assert(self@.valid(d) && visited0[self@.index(d)]);
                        } else {
                            let t = choose|t: int|
                                0 <= t < g.len() && (#[trigger] g[t]).coord == c;
                            self@.lemma_group_members(g, t);
                            let sd = Stone { coord: d, color: g[t].color };
                            assert(self@.group(g[t]).contains(sd));
                            assert(g.to_set().contains(sd));
                            let u = choose|u: int| 0 <= u < g.len() && g[u] == sd;
                            self@.lemma_group_members(g, u);
                            assert(g[u].coord == d);
                            assert(seen(g, d));
                        }
                    }
                    assert forall|c: Coord|
                        self@.valid(c) && visited@[#[trigger] self@.index(c)] implies covered(
                        out@,
                        Stone { coord: c, color: self@.at(c) },
                    ) by {
                        let sc = Stone { coord: c, color: self@.at(c) };
                        if visited0[self@.index(c)] {
                            assert(covered(out0, sc));
                        } else {
                            let t = choose|t: int|
                                0 <= t < g.len() && (#[trigger] g[t]).coord == c;
                            self@.lemma_group_members(g, t);
                            assert(g[t] == sc);
                            assert(out@[out@.len() - 1]@.contains(sc));
                        }
                    }
                    assert forall|j: int| 0 <= j < i + 1 implies visited@[self@.index(
                        (#[trigger] stones@[j]).coord,
                    )] by {
                        if j == i {
                            assert(g[0].coord == stone.coord);
                            assert(seen(g, stone.coord));
                        } else {
                            assert(visited0[self@.index(stones@[j].coord)]);
                        }
                    }
                    assert forall|k: int| 0 <= k < out@.len() implies self@.is_group(
                        (#[trigger] out@[k])@,
                    ) && stones@.contains(out@[k]@[0]) by {
                        if k < out0.len() {
                            assert(out@[k] == out0[k]);
                        } else {
                            assert(stones@[i as int] == g[0]);
                        }
                    }
                    assert forall|k: int, s: Stone|
                        0 <= k < out@.len() && #[trigger] out@[k]@.contains(
                            s,
                        ) implies self@.valid(s.coord) && visited@[self@.index(s.coord)] by {
                        if k < out0.len() {
                            assert(out@[k] == out0[k]);
                            assert(visited0[self@.index(s.coord)]);
                        } else {
                            let t = choose|t: int| 0 <= t < g.len() && g[t] == s;
                            assert(g[t].coord == s.coord);
                            assert(seen(g, s.coord));
                        }
                    }
                    assert forall|a: int, b: int, s: Stone|
                        0 <= a < b < out@.len() && #[trigger] out@[a]@.contains(
                            s,
                        ) implies !#[trigger] out@[b]@.contains(s) by {
                        assert(out@[a] == out0[a]);
                        if b < out0.len() {
                            assert(out@[b] == out0[b]);
                        } else if g.contains(s) {
                            assert(visited0[self@.index(s.coord)]);
                            let t = choose|t: int| 0 <= t < g.len() && g[t] == s;
                            assert(!visited0[self@.index(g[t].coord)]);
                        }
                    }
                    assert forall|k: int| 0 <= k < out@.len() implies #[trigger] seeded_in_turn(
                        stones@,
                        out@,
                        k,
                    ) by {
                        if k < out0.len() {
                            assert(seeded_in_turn(stones@, out0, k));
                            assert(out@.take(k) =~= out0.take(k));
                            assert(out@[k] == out0[k]);
                        } else {
                            assert(out@.take(k) =~= out0);
                            assert(stones@[i as int] == out@[k]@[0]);
                            if covered(out0, stone) {
                                let a = choose|a: int|
                                    0 <= a < out0.len() && (#[trigger] out0[a])@.contains(stone);
                                assert(visited0[self@.index(stone.coord)]);
                            }
                            assert forall|j: int| 0 <= j < i implies covered(
                                out0,
                                #[trigger] stones@[j],
                            ) by {
                                let sj = stones@[j];
                                assert(visited0[self@.index(sj.coord)]);
                                assert(sj == Stone { coord: sj.coord, color: self@.at(sj.coord) });
                            }
                        }
                    }
                }
            }
            i += 1;
        }
        proof {
            assert forall|j: int| 0 <= j < stones@.len() implies covered(
                out@,
                #[trigger] stones@[j],
            ) by {
                let s = stones@[j];
                assert(visited@[self@.index(s.coord)]);
                assert(s == Stone { coord: s.coord, color: self@.at(s.coord) });
            }
        }
        out
    }

    /// Whether the listed stones have a neighbour that holds Black, and one that holds
    /// White.
    pub fn reaches(&self, group: &Vec<Stone>) -> (r: (bool, bool))
        requires
            self@.wf(),
            forall|t: int|
                0 <= t < group@.len() ==> (#[trigger] group@[t]).coord.0 < usize::MAX
                    && group@[t].coord.1 < usize::MAX,
        ensures
            r.0 == touches(self@, group@, Color::Black),
            r.1 == touches(self@, group@, Color::White),
    {
        let mut reaches_black = false;
        let mut reaches_white = false;
        let mut t: usize = 0;
        while t < group.len()
            invariant
                t <= group.len(),
                self@.wf(),
                forall|u: int|
                    0 <= u < group@.len() ==> (#[trigger] group@[u]).coord.0 < usize::MAX
                        && group@[u].coord.1 < usize::MAX,
                reaches_black == touches(self@, group@.take(t as int), Color::Black),
                reaches_white == touches(self@, group@.take(t as int), Color::White),
            decreases group.len() - t,
        {
            let point = group[t];
            let around = self.get_neighbors(&point.coord);
            let mut m: usize = 0;
            let mut near_black = false;
            let mut near_white = false;
            while m < around.len()
                invariant
                    m <= around.len(),
                    near_black == exists|j: int|
                        0 <= j < m && (#[trigger] around@[j]).color == Color::Black,
                    near_white == exists|j: int|
                        0 <= j < m && (#[trigger] around@[j]).color == Color::White,
                decreases around.len() - m,
            {
                let neighbor = around[m];
                if neighbor.color == Color::Black {
                    near_black = true;
                } else if neighbor.color == Color::White {
                    near_white = true;
                }
                m += 1;
            }
            proof {
                let before = group@.take(t as int);
                let after = group@.take(t + 1);
                self@.lemma_neighbors(point.coord);
                assert(after[t as int] == point);
                assert forall|color: Color|
                    color != Color::Empty implies (touches(self@, after, color) <==> touches(
                    self@,
                    before,
                    color,
                ) || exists|j: int|
                    0 <= j < around@.len() && (#[trigger] around@[j]).color == color) by {
                    if touches(self@, before, color) {
                        let (u, s) = choose|u: int, s: Coord|
                            0 <= u < before.len() && #[trigger] adjacent(before[u].coord, s)
                                && self@.valid(s) && self@.at(s) == color;
                        assert(adjacent(after[u].coord, s));
                    }
                    if exists|j: int|
                        0 <= j < around@.len() && (#[trigger] around@[j]).color == color {
                        let j = choose|j: int|
                            0 <= j < around@.len() && (#[trigger] around@[j]).color == color;
                        let s = self@.neighbors(point.coord)[j];
                        assert(adjacent(after[t as int].coord, s.coord));
                    }
                    if touches(self@, after, color) {
                        let (u, s) = choose|u: int, s: Coord|
                            0 <= u < after.len() && #[trigger] adjacent(after[u].coord, s)
                                && self@.valid(s) && self@.at(s) == color;
                        if u < t {
                            assert(adjacent(before[u].coord, s));
                        } else {
                            let st = Stone { coord: s, color: self@.at(s) };
                            assert(around@.contains(st));
                            let j = choose|j: int| 0 <= j < around@.len() && around@[j] == st;
                            assert(around@[j].color == color);
                        }
                    }
                }
            }
            reaches_black = reaches_black || near_black;
            reaches_white = reaches_white || near_white;
            t += 1;
        }
        assert(group@.take(t as int) =~= group@);
        (reaches_black, reaches_white)
    }

    /// Every empty point of the board, row by row.
    pub fn empty_points(&self) -> (r: Vec<Stone>)
        requires
            self@.wf(),
        ensures
            forall|j: int|
                0 <= j < r@.len() ==> self@.holds(#[trigger] r@[j]) && r@[j].color
                    == Color::Empty,
            forall|c: Coord|
                self@.valid(c) && self@.at(c) == Color::Empty ==> r@.contains(
                    Stone { coord: c, color: Color::Empty },
                ),
    {
        let size = self.size;
        let mut out: Vec<Stone> = Vec::new();
        let mut r: usize = 0;
        while r < size
            invariant
                r <= size,
                size == self.size,
                self@.wf(),
                forall|j: int|
                    0 <= j < out@.len() ==> self@.holds(#[trigger] out@[j]) && out@[j].color
                        == Color::Empty,
                forall|c: Coord|
                    c.0 < r && self@.valid(c) && self@.at(c) == Color::Empty ==> out@.contains(
                        Stone { coord: c, color: Color::Empty },
                    ),
            decreases size - r,
        {
            let mut c: usize = 0;
            while c < size
                invariant
                    r < size,
                    c <= size,
                    size == self.size,
                    self@.wf(),
                    forall|j: int|
                        0 <= j < out@.len() ==> self@.holds(#[trigger] out@[j]) && out@[j].color
                            == Color::Empty,
                    forall|d: Coord|
                        (d.0 < r || (d.0 == r && d.1 < c)) && self@.valid(d) && self@.at(d)
                            == Color::Empty ==> out@.contains(
                            Stone { coord: d, color: Color::Empty },
                        ),
                decreases size - c,
            {
                if *self.index((r, c)) == Color::Empty {
                    let ghost prev = out@;
                    out.push(Stone { coord: (r, c), color: Color::Empty });
                    proof {
                        assert forall|d: Coord|
                            (d.0 < r || (d.0 == r && d.1 < c + 1)) && self@.valid(d) && self@.at(d)
                                == Color::Empty implies out@.contains(
                            Stone { coord: d, color: Color::Empty },
                        ) by {
                            let sd = Stone { coord: d, color: Color::Empty };
                            if d.0 == r && d.1 == c {
                                assert(out@[out@.len() - 1] == sd);
                            } else {
                                let j = choose|j: int| 0 <= j < prev.len() && prev[j] == sd;
                                assert(out@[j] == sd);
                            }
                        }
                    }
                }
                c += 1;
            }
            r += 1;
        }
        out
    }

    /// The area scores of Black and White.
    pub fn count_points(&self) -> (r: (usize, usize))
        requires
            self@.wf(),
        ensures
            r.0 == self@.score(Player::Black),
            r.1 == self@.score(Player::White),
    {
        let n = self.tab.len();
        let empty_points = self.empty_points();
        let empty_groups = self.get_strings_from_stones(&empty_points);
        let mut black_score: usize = 0;
        let mut white_score: usize = 0;
        let ghost mut black: Seq<bool> = Seq::new(n as nat, |i: int| false);
        let ghost mut white: Seq<bool> = Seq::new(n as nat, |i: int| false);
        let mut k: usize = 0;
        proof {
            lemma_count_none(black);
            lemma_count_none(white);
            self@.lemma_indices();
            assert(empty_groups@.take(0).len() == 0);
            assert forall|a: int| 0 <= a < empty_groups@.len() implies (
            #[trigger] empty_groups@[a])@[0].color == Color::Empty by {
                let s = empty_groups@[a]@[0];
                let j = choose|j: int| 0 <= j < empty_points@.len() && empty_points@[j] == s;
                assert(empty_points@[j].color == Color::Empty);
            }
        }
        while k < empty_groups.len()
            invariant
                k <= empty_groups.len(),
                n == self.tab@.len(),
                self@.wf(),
                black.len() == n,
                white.len() == n,
                black_score == count_true(black),
                white_score == count_true(white),
                forall|a: int|
                    0 <= a < empty_groups@.len() ==> self@.is_group((#[trigger] empty_groups@[a])@)
                        && empty_groups@[a]@[0].color == Color::Empty,
                forall|a: int, b: int, s: Stone|
                    0 <= a < b < empty_groups@.len() && #[trigger] empty_groups@[a]@.contains(s)
                        ==> !#[trigger] empty_groups@[b]@.contains(s),
                forall|c: Coord|
                    self@.valid(c) ==> black[#[trigger] self@.index(c)] == (covered(
                        empty_groups@.take(k as int),
                        Stone { coord: c, color: Color::Empty },
                    ) && self@.scores_for(Player::Black, c)),
                forall|c: Coord|
                    self@.valid(c) ==> white[#[trigger] self@.index(c)] == (covered(
                        empty_groups@.take(k as int),
                        Stone { coord: c, color: Color::Empty },
                    ) && self@.scores_for(Player::White, c)),
            decreases empty_groups.len() - k,
        {
            let group = &empty_groups[k];
            let ghost g = group@;
            let ghost done = empty_groups@.take(k as int);
            let ghost done1 = empty_groups@.take(k + 1);
            let ghost idxs = Seq::new(g.len(), |t: int| self@.index(g[t].coord));
            let ghost black0 = black;
            let ghost white0 = white;
            proof {
                self@.lemma_indices();
                assert forall|t: int| 0 <= t < g.len() implies (#[trigger] g[t]).coord.0
                    < usize::MAX && g[t].coord.1 < usize::MAX by {
                    self@.lemma_group_members(g, t);
                }
            }
            let (reaches_black, reaches_white) = self.reaches(group);
            proof {
                assert forall|s: Stone| covered(done1, s) <==> (covered(done, s) || g.contains(
                    s,
                )) by {
                    if covered(done1, s) {
                        let a = choose|a: int|
                            0 <= a < done1.len() && (#[trigger] done1[a])@.contains(s);
                        if a < k {
                            assert(done[a]@.contains(s));
                        }
                    }
                    if covered(done, s) {
                        let a = choose|a: int|
                            0 <= a < done.len() && (#[trigger] done[a])@.contains(s);
                        assert(done1[a]@.contains(s));
                    }
                    if g.contains(s) {
                        assert(done1[k as int]@.contains(s));
                    }
                }
                assert forall|t: int| 0 <= t < idxs.len() implies 0 <= #[trigger] idxs[t] < n
                    && !black0[idxs[t]] && !white0[idxs[t]] by {
                    self@.lemma_group_members(g, t);
                    assert(g[t] == Stone { coord: g[t].coord, color: Color::Empty });
                    if covered(done, g[t]) {
                        let a = choose|a: int|
                            0 <= a < done.len() && (#[trigger] done[a])@.contains(g[t]);
                        assert(empty_groups@[a]@.contains(g[t]));
                        assert(empty_groups@[k as int]@.contains(g[t]));
                    }
                    assert(black0[self@.index(g[t].coord)] == (covered(done, g[t])
                        && self@.scores_for(Player::Black, g[t].coord)));
                    assert(white0[self@.index(g[t].coord)] == (covered(done, g[t])
                        && self@.scores_for(Player::White, g[t].coord)));
                }
                assert forall|t: int, u: int| 0 <= t < u < idxs.len() implies idxs[t]
                    != idxs[u] by {
                    self@.lemma_group_members(g, t);
                    self@.lemma_group_members(g, u);
                    if idxs[t] == idxs[u] {
                        self@.lemma_index_injective(g[t].coord, g[u].coord);
                    }
                }
                // a cell is among the listed positions exactly when the region holds it
                assert forall|c: Coord| self@.valid(c) implies (idxs.contains(
                    #[trigger] self@.index(c),
                ) <==> g.contains(Stone { coord: c, color: Color::Empty })) by {
                    let sc = Stone { coord: c, color: Color::Empty };
                    if idxs.contains(self@.index(c)) {
                        let t = choose|t: int| 0 <= t < idxs.len() && idxs[t] == self@.index(c);
                        self@.lemma_group_members(g, t);
                        self@.lemma_index_injective(g[t].coord, c);
                        assert(g[t] == sc);
                    }
                    if g.contains(sc) {
                        let t = choose|t: int| 0 <= t < g.len() && g[t] == sc;
                        assert(idxs[t] == self@.index(c));
                    }
                }
                // the cells of this region count for a side exactly as the flags say
                assert forall|c: Coord|
                    self@.valid(c) && g.contains(
                        Stone { coord: c, color: Color::Empty },
                    ) implies (self@.scores_for(Player::Black, c) == (reaches_black
                    && !reaches_white)) && (self@.scores_for(Player::White, c) == (reaches_white
                    && !reaches_black)) by {
                    let sc = Stone { coord: c, color: Color::Empty };
                    let t = choose|t: int| 0 <= t < g.len() && g[t] == sc;
                    self@.lemma_group_members(g, t);
                    self@.lemma_touches_region(g, c, Color::Black);
                    self@.lemma_touches_region(g, c, Color::White);
                }
            }
            if reaches_black && !reaches_white {
                proof {
                    lemma_mark_all(black0, idxs);
                    black = mark_all(black0, idxs);
                    lemma_count_bound(black);
                }
                black_score += group.len();
            } else if !reaches_black && reaches_white {
                proof {
                    lemma_mark_all(white0, idxs);
                    white = mark_all(white0, idxs);
                    lemma_count_bound(white);
                }
                white_score += group.len();
            }
            proof {
                assert forall|c: Coord| self@.valid(c) implies black[#[trigger] self@.index(c)] == (
                covered(done1, Stone { coord: c, color: Color::Empty }) && self@.scores_for(
                    Player::Black,
                    c,
                )) by {
                    assert(black0[self@.index(c)] == (covered(
                        done,
                        Stone { coord: c, color: Color::Empty },
                    ) && self@.scores_for(Player::Black, c)));
                    assert(idxs.contains(self@.index(c)) <==> g.contains(
                        Stone { coord: c, color: Color::Empty },
                    ));
                }
                assert forall|c: Coord| self@.valid(c) implies white[#[trigger] self@.index(c)] == (
                covered(done1, Stone { coord: c, color: Color::Empty }) && self@.scores_for(
                    Player::White,
                    c,
                )) by {
                    assert(white0[self@.index(c)] == (covered(
                        done,
                        Stone { coord: c, color: Color::Empty },
                    ) && self@.scores_for(Player::White, c)));
                    assert(idxs.contains(self@.index(c)) <==> g.contains(
                        Stone { coord: c, color: Color::Empty },
                    ));
                }
            }
            k += 1;
        }
        proof {
            assert(empty_groups@.take(k as int) =~= empty_groups@);
            assert forall|j: int| 0 <= j < n && (black[j] || white[j]) implies #[trigger] self.tab@[j]
                == Color::Empty by {
                self@.lemma_index_of_coord(j);
                let c = self@.coord(j);
                let sc = Stone { coord: c, color: Color::Empty };
                assert(black[self@.index(c)] ==> covered(empty_groups@, sc));
                assert(white[self@.index(c)] ==> covered(empty_groups@, sc));
                let a = choose|a: int|
                    0 <= a < empty_groups@.len() && (#[trigger] empty_groups@[a])@.contains(sc);
                let t = choose|t: int|
                    0 <= t < empty_groups@[a]@.len() && empty_groups@[a]@[t] == sc;
                self@.lemma_group_members(empty_groups@[a]@, t);
            }
        }
        let ghost territory_black = black;
        let ghost territory_white = white;
        let mut i: usize = 0;
        while i < n
            invariant
                i <= n,
                n == self.tab@.len(),
                self@.wf(),
                black.len() == n,
                white.len() == n,
                territory_black.len() == n,
                territory_white.len() == n,
                black_score == count_true(black),
                white_score == count_true(white),
                forall|j: int|
                    0 <= j < n && (territory_black[j] || territory_white[j])
                        ==> #[trigger] self.tab@[j] == Color::Empty,
                forall|j: int|
                    0 <= j < n ==> #[trigger] black[j] == (territory_black[j] || (j < i
                        && self.tab@[j] == Color::Black)),
                forall|j: int|
                    0 <= j < n ==> #[trigger] white[j] == (territory_white[j] || (j < i
                        && self.tab@[j] == Color::White)),
            decreases n - i,
        {
            let color = self.tab[i];
            match color {
                Color::Black => {
                    proof {
                        lemma_count_mark(black, i as int);
                        black = black.update(i as int, true);
                        lemma_count_bound(black);
                    }
                    black_score += 1;
                },
                Color::White => {
                    proof {
                        lemma_count_mark(white, i as int);
                        white = white.update(i as int, true);
                        lemma_count_bound(white);
                    }
                    white_score += 1;
                },
                _ => {},
            }
            i += 1;
        }
        proof {
            let fb = self@.score_flags(Player::Black);
            let fw = self@.score_flags(Player::White);
            assert forall|j: int| 0 <= j < n implies black[j] == #[trigger] fb[j] by {
                self@.lemma_index_of_coord(j);
                let c = self@.coord(j);
                let sc = Stone { coord: c, color: Color::Empty };
                assert(territory_black[self@.index(c)] == (covered(empty_groups@, sc)
                    && self@.scores_for(Player::Black, c)));
                if self@.at(c) == Color::Empty {
                    assert(empty_points@.contains(sc));
                    let m = choose|m: int| 0 <= m < empty_points@.len() && empty_points@[m] == sc;
                    assert(covered(empty_groups@, empty_points@[m]));
                }
            }
            assert forall|j: int| 0 <= j < n implies white[j] == #[trigger] fw[j] by {
                self@.lemma_index_of_coord(j);
                let c = self@.coord(j);
                let sc = Stone { coord: c, color: Color::Empty };
                assert(territory_white[self@.index(c)] == (covered(empty_groups@, sc)
                    && self@.scores_for(Player::White, c)));
                if self@.at(c) == Color::Empty {
                    assert(empty_points@.contains(sc));
                    let m = choose|m: int| 0 <= m < empty_points@.len() && empty_points@[m] == sc;
                    assert(covered(empty_groups@, empty_points@[m]));
                }
            }
            assert(black =~= fb);
            assert(white =~= fw);
        }
        (black_score, white_score)
    }
}

} // verus!
