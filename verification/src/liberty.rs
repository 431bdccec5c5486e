//! Liberties of groups, and the groups that have none.

use crate::board::{adjacent, Goban, Position};
use crate::color::{Color, Coord, Stone};
use crate::group::seen;
use vstd::prelude::*;

verus! {

/// One of the first `k` entries of `stones` stands next to `c`.
pub open spec fn near(stones: Seq<Stone>, k: int, c: Coord) -> bool {
    exists|t: int| 0 <= t < k && adjacent((#[trigger] stones[t]).coord, c)
}

/// Some group of `groups` holds `s`.
pub open spec fn covered(groups: Seq<Vec<Stone>>, s: Stone) -> bool {
    exists|k: int| 0 <= k < groups.len() && (#[trigger] groups[k])@.contains(s)
}

impl Position {
    /// `g` lists, each stone once, a whole group of `color` that stands on the board and
    /// has no liberty; its first stone is the one that comes first in the board's rows.
    pub open spec fn is_dead_group(self, color: Color, g: Seq<Stone>) -> bool {
        &&& g.len() > 0
        &&& g[0].color == color
        &&& self.holds(g[0])
        &&& g.no_duplicates()
        &&& g.to_set() == self.group(g[0])
        &&& self.dead(g.to_set())
        &&& forall|j: int|
            0 <= j < g.len() ==> self.index(g[0].coord) <= self.index((#[trigger] g[j]).coord)
    }
}

impl Goban {
    /// Appends to `libs` the empty neighbours of `from` that `marked` does not hold yet,
    /// and marks them.
    fn add_liberties(&self, from: Coord, marked: &mut Vec<bool>, libs: &mut Vec<Coord>)
        requires
            self@.wf(),
            old(marked)@.len() == self.tab@.len(),
            from.0 < usize::MAX,
            from.1 < usize::MAX,
            old(libs)@.no_duplicates(),
            forall|j: int|
                0 <= j < old(libs)@.len() ==> self@.valid(#[trigger] old(libs)@[j]) && old(marked)@[self@.index(old(libs)@[j])],
            forall|c: Coord|
                self@.valid(c) && old(marked)@[#[trigger] self@.index(c)] ==> old(libs)@.contains(c),
        ensures
            final(marked)@.len() == old(marked)@.len(),
            final(libs)@.no_duplicates(),
            forall|j: int|
                0 <= j < final(libs)@.len() ==> self@.valid(#[trigger] final(libs)@[j]) && final(marked)@[self@.index(final(libs)@[j])],
            forall|c: Coord|
                self@.valid(c) && final(marked)@[#[trigger] self@.index(c)] ==> final(libs)@.contains(c),
            final(libs)@.len() >= old(libs)@.len(),
            final(libs)@.take(old(libs)@.len() as int) == old(libs)@,
            forall|j: int|
                old(libs)@.len() <= j < final(libs)@.len() ==> {
                    let c = #[trigger] final(libs)@[j];
                    self@.at(c) == Color::Empty && adjacent(from, c)
                },
            forall|c: Coord|
                #[trigger] adjacent(from, c) && self@.valid(c) && self@.at(c) == Color::Empty
                    ==> final(marked)@[self@.index(c)],
            forall|i: int|
                0 <= i < old(marked)@.len() && old(marked)@[i] ==> #[trigger] final(marked)@[i],
    {
        let around = self.get_neighbors(&from);
        let ghost libs0 = libs@;
        let ghost marked0 = marked@;
        let mut m: usize = 0;
        while m < around.len()
            invariant
                m <= around.len(),
                self@.wf(),
                from.0 < usize::MAX,
                from.1 < usize::MAX,
                around@ == self@.neighbors(from),
                marked@.len() == self.tab@.len(),
                marked0.len() == marked@.len(),
                libs@.no_duplicates(),
                forall|j: int|
                    0 <= j < libs@.len() ==> self@.valid(#[trigger] libs@[j]) && marked@[self@.index(
                        libs@[j],
                    )],
                forall|c: Coord|
                    self@.valid(c) && marked@[#[trigger] self@.index(c)] ==> libs@.contains(c),
                libs@.len() >= libs0.len(),
                libs@.take(libs0.len() as int) == libs0,
                forall|j: int|
                    libs0.len() <= j < libs@.len() ==> {
                        let c = #[trigger] libs@[j];
                        self@.at(c) == Color::Empty && adjacent(from, c)
                    },
                forall|j: int|
                    0 <= j < m && (#[trigger] around@[j]).color == Color::Empty
                        ==> marked@[self@.index(around@[j].coord)],
                forall|i: int| 0 <= i < marked0.len() && marked0[i] ==> #[trigger] marked@[i],
            decreases around.len() - m,
        {
            let n = around[m];
            proof {
                self@.lemma_neighbors(from);
                let s = self@.neighbors(from)[m as int];
                assert(adjacent(from, s.coord) && self@.valid(s.coord) && s.color == self@.at(
                    s.coord,
                ));
            }
            if n.color == Color::Empty {
                let i = self.idx(n.coord);
                if !marked[i] {
                    let ghost libs1 = libs@;
                    let ghost marked1 = marked@;
                    marked.set(i, true);
                    libs.push(n.coord);
                    proof {
                        assert(libs@.take(libs0.len() as int) =~= libs1.take(libs0.len() as int));
                        assert(!libs1.contains(n.coord));
                        assert forall|j: int| 0 <= j < libs@.len() implies self@.valid(
                            #[trigger] libs@[j],
                        ) && marked@[self@.index(libs@[j])] by {
                            if j < libs1.len() {
                                assert(libs@[j] == libs1[j]);
                                self@.lemma_index_in_range(libs1[j]);
                            }
                        }
                        assert forall|c: Coord|
                            self@.valid(c) && marked@[#[trigger] self@.index(
                                c,
                            )] implies libs@.contains(c) by {
                            self@.lemma_index_in_range(c);
                            if self@.index(c) == i {
                                self@.lemma_index_injective(c, n.coord);
                                assert(libs@[libs@.len() - 1] == c);
                            } else {
                                assert(libs1.contains(c));
                                let j = choose|j: int| 0 <= j < libs1.len() && libs1[j] == c;
                                assert(libs@[j] == c);
                            }
                        }
                        assert forall|j: int|
                            0 <= j < m && (#[trigger] around@[j]).color
                                == Color::Empty implies marked@[self@.index(around@[j].coord)] by {
                            let sj = self@.neighbors(from)[j];
                            self@.lemma_index_in_range(sj.coord);
                            assert(marked1[self@.index(around@[j].coord)]);
                        }
                    }
                }
            }
            m += 1;
        }
        proof {
            self@.lemma_neighbors(from);
            assert forall|c: Coord|
                #[trigger] adjacent(from, c) && self@.valid(c) && self@.at(c)
                    == Color::Empty implies marked@[self@.index(c)] by {
                let s = Stone { coord: c, color: self@.at(c) };
                assert(around@.contains(s));
                let j = choose|j: int| 0 <= j < around@.len() && around@[j] == s;
                assert(around@[j].color == Color::Empty);
            }
        }
    }

    /// The liberties of the listed stones: every empty cell of the board next to one of
    /// them, each once.
    pub fn group_liberties(&self, stones: &Vec<Stone>) -> (r: Vec<Coord>)
        requires
            self@.wf(),
            forall|k: int|
                0 <= k < stones@.len() ==> (#[trigger] stones@[k]).coord.0 < usize::MAX
                    && stones@[k].coord.1 < usize::MAX,
        ensures
            r@.no_duplicates(),
            r@.to_set() == self@.liberties(stones@.to_set()),
    {
        let mut libs: Vec<Coord> = Vec::new();
        let mut marked: Vec<bool> = vec![false; self.tab.len()];
        let mut k: usize = 0;
        proof {
            self@.lemma_indices();
        }
        while k < stones.len()
            invariant
                k <= stones.len(),
                self@.wf(),
                forall|t: int|
                    0 <= t < stones@.len() ==> (#[trigger] stones@[t]).coord.0 < usize::MAX
                        && stones@[t].coord.1 < usize::MAX,
                marked@.len() == self.tab@.len(),
                libs@.no_duplicates(),
                forall|j: int|
                    0 <= j < libs@.len() ==> self@.valid(#[trigger] libs@[j]) && marked@[self@.index(
                        libs@[j],
                    )],
                forall|c: Coord|
                    self@.valid(c) && marked@[#[trigger] self@.index(c)] ==> libs@.contains(c),
                forall|j: int|
                    0 <= j < libs@.len() ==> self@.at(#[trigger] libs@[j]) == Color::Empty && near(
                        stones@,
                        k as int,
                        libs@[j],
                    ),
                forall|c: Coord|
                    #[trigger] near(stones@, k as int, c) && self@.valid(c) && self@.at(c)
                        == Color::Empty ==> marked@[self@.index(c)],
            decreases stones.len() - k,
        {
            let ghost libs0 = libs@;
            let ghost marked0 = marked@;
            let from = stones[k].coord;
            self.add_liberties(from, &mut marked, &mut libs);
            proof {
                assert forall|j: int| 0 <= j < libs@.len() implies self@.at(#[trigger] libs@[j])
                    == Color::Empty && near(stones@, k + 1, libs@[j]) by {
                    if j < libs0.len() {
                        assert(libs@.take(libs0.len() as int)[j] == libs0[j]);
                        let t = choose|t: int|
                            0 <= t < k && adjacent((#[trigger] stones@[t]).coord, libs0[j]);
                        assert(adjacent(stones@[t].coord, libs@[j]));
                    } else {
                        assert(adjacent(stones@[k as int].coord, libs@[j]));
                    }
                }
                assert forall|c: Coord|
                    #[trigger] near(stones@, k + 1, c) && self@.valid(c) && self@.at(c)
                        == Color::Empty implies marked@[self@.index(c)] by {
                    let t = choose|t: int|
                        0 <= t < k + 1 && adjacent((#[trigger] stones@[t]).coord, c);
                    self@.lemma_index_in_range(c);
                    if t < k {
                        assert(near(stones@, k as int, c));
                        assert(marked0[self@.index(c)]);
                    } else {
                        assert(adjacent(from, c));
                    }
                }
            }
            k += 1;
        }
        proof {
            let all = stones@.to_set();
            assert forall|c: Coord| libs@.to_set().contains(c) <==> self@.liberties(all).contains(
                c,
            ) by {
                if libs@.to_set().contains(c) {
                    let j = choose|j: int| 0 <= j < libs@.len() && libs@[j] == c;
                    assert(self@.at(libs@[j]) == Color::Empty && near(stones@, k as int, libs@[j]));
                    let t = choose|t: int|
                        0 <= t < k && adjacent((#[trigger] stones@[t]).coord, c);
                    assert(all.contains(stones@[t]));
                }
                if self@.is_liberty(all, c) {
                    let s = choose|s: Stone| #[trigger] all.contains(s) && adjacent(s.coord, c);
                    let t = choose|t: int| 0 <= t < stones@.len() && stones@[t] == s;
                    assert(adjacent(stones@[t].coord, c));
                    assert(near(stones@, k as int, c));
                }
            }
            assert(libs@.to_set() =~= self@.liberties(all));
        }
        libs
    }

    /// Whether the listed stones have no liberty at all.
    pub fn is_string_dead(&self, stones: &Vec<Stone>) -> (r: bool)
        requires
            self@.wf(),
            forall|k: int|
                0 <= k < stones@.len() ==> (#[trigger] stones@[k]).coord.0 < usize::MAX
                    && stones@[k].coord.1 < usize::MAX,
        ensures
            r == self@.dead(stones@.to_set()),
    {
        let libs = self.group_liberties(stones);
        proof {
            let all = stones@.to_set();
            if libs@.len() == 0 {
                assert forall|c: Coord| !self@.is_liberty(all, c) by {
                    if self@.is_liberty(all, c) {
                        assert(self@.liberties(all).contains(c));
                        assert(libs@.to_set().contains(c));
                    }
                }
            } else {
                assert(libs@.to_set().contains(libs@[0]));
                assert(self@.liberties(all).contains(libs@[0]));
                assert(self@.is_liberty(all, libs@[0]));
            }
        }
        libs.is_empty()
    }

    /// Marks in `visited` the cell of every stone of `group`.
    pub(crate) fn mark_group(&self, group: &Vec<Stone>, visited: &mut Vec<bool>)
        requires
            self@.wf(),
            old(visited)@.len() == self.tab@.len(),
            forall|t: int| 0 <= t < group@.len() ==> self@.valid((#[trigger] group@[t]).coord),
        ensures
            final(visited)@.len() == old(visited)@.len(),
            forall|c: Coord|
                self@.valid(c) ==> final(visited)@[#[trigger] self@.index(c)] == (old(visited)@[self@.index(c)] || seen(group@, c)),
    {
        let ghost visited0 = visited@;
        let mut t: usize = 0;
        while t < group.len()
            invariant
                t <= group.len(),
                self@.wf(),
                visited@.len() == self.tab@.len(),
                visited0.len() == visited@.len(),
                forall|j: int| 0 <= j < group@.len() ==> self@.valid((#[trigger] group@[j]).coord),
                forall|c: Coord|
                    self@.valid(c) ==> visited@[#[trigger] self@.index(c)] == (visited0[self@.index(
                        c,
                    )] || seen(group@.take(t as int), c)),
            decreases group.len() - t,
        {
            let ghost visited1 = visited@;
            let s = group[t];
            let i = self.idx(s.coord);
            visited.set(i, true);
            proof {
                let before = group@.take(t as int);
                let after = group@.take(t + 1);
                assert(after[t as int].coord == s.coord);
                assert forall|c: Coord| self@.valid(c) implies visited@[#[trigger] self@.index(c)]
                    == (visited0[self@.index(c)] || seen(after, c)) by {
                    self@.lemma_index_in_range(c);
                    if seen(before, c) {
                        let j = choose|j: int|
                            0 <= j < before.len() && (#[trigger] before[j]).coord == c;
                        assert(after[j].coord == c);
                    }
                    if self@.index(c) == i {
                        self@.lemma_index_injective(c, s.coord);
                    } else if seen(after, c) {
                        let j = choose|j: int|
                            0 <= j < after.len() && (#[trigger] after[j]).coord == c;
                        assert(before[j].coord == c);
                    }
                }
            }
            t += 1;
        }
        assert(group@.take(t as int) =~= group@);
    }

    /// Every group of `color` that has no liberty, each once, in the order in which
    /// their first stones stand in the board's rows.
    pub fn get_groups_of_stones_color_without_liberties(&self, color: Color) -> (r: Vec<
        Vec<Stone>,
    >)
        requires
            self@.wf(),
        ensures
            forall|k: int| 0 <= k < r@.len() ==> self@.is_dead_group(color, (#[trigger] r@[k])@),
            forall|a: int, b: int|
                0 <= a < b < r@.len() ==> self@.index((#[trigger] r@[a])@[0].coord) < self@.index(
                    (#[trigger] r@[b])@[0].coord,
                ),
            forall|a: int, b: int, s: Stone|
                0 <= a < b < r@.len() && #[trigger] r@[a]@.contains(s) ==> !#[trigger] r@[b]@.contains(s),
            forall|c: Coord|
                #[trigger] self@.is_captured(color, c) ==> covered(
                    r@,
                    Stone { coord: c, color },
                ),
    {
        let n = self.tab.len();
        let mut visited: Vec<bool> = vec![false; n];
        let mut out: Vec<Vec<Stone>> = Vec::new();
        let mut i: usize = 0;
        proof {
            self@.lemma_indices();
            assert forall|c: Coord, d: Coord|
                #[trigger] self@.connected(Stone { coord: c, color }, d) && self@.valid(c)
                    && visited@[self@.index(c)] implies self@.valid(d) && visited@[self@.index(
                d,
            )] by {
                assert(!visited@[self@.index(c)]);
            }
        }
        while i < n
            invariant
                i <= n,
                n == self.tab@.len(),
                self@.wf(),
                visited@.len() == n,
                forall|j: int| 0 <= j < i && self.tab@[j] == color ==> #[trigger] visited@[j],
                forall|c: Coord|
                    self@.valid(c) && visited@[#[trigger] self@.index(c)] ==> self@.at(c) == color,
                forall|c: Coord, d: Coord|
                    #[trigger] self@.connected(Stone { coord: c, color }, d) && self@.valid(c)
                        && visited@[self@.index(c)] ==> self@.valid(d) && visited@[self@.index(d)],
                forall|c: Coord|
                    #[trigger] self@.is_captured(color, c) && visited@[self@.index(c)] ==> covered(
                        out@,
                        Stone { coord: c, color },
                    ),
                forall|k: int|
                    0 <= k < out@.len() ==> self@.is_dead_group(color, (#[trigger] out@[k])@)
                        && self@.index(out@[k]@[0].coord) < i,
                forall|k: int, s: Stone|
                    0 <= k < out@.len() && #[trigger] out@[k]@.contains(s) ==> self@.valid(
                        s.coord,
                    ) && visited@[self@.index(s.coord)],
                forall|a: int, b: int|
                    0 <= a < b < out@.len() ==> self@.index((#[trigger] out@[a])@[0].coord)
                        < self@.index((#[trigger] out@[b])@[0].coord),
                forall|a: int, b: int, s: Stone|
                    0 <= a < b < out@.len() && #[trigger] out@[a]@.contains(s) ==> !#[trigger] out@[b]@.contains(s),
            decreases n - i,
        {
            if self.tab[i] == color && !visited[i] {
                proof {
                    self@.lemma_index_of_coord(i as int);
                    self@.lemma_size_fits();
                }
                let coord = (i / self.size, i % self.size);
                let stone = Stone { coord, color };
                let group = self.dfs(&stone);
                let ghost visited0 = visited@;
                let ghost out0 = out@;
                proof {
                    self.lemma_fresh_group(color, stone, group@, visited0, i as int);
                }
                self.mark_group(&group, &mut visited);
                let dead = self.is_string_dead(&group);
                if dead {
                    out.push(group);
                }
                proof {
                    let g = group@;
                    // what was covered stays covered
                    assert forall|s: Stone| covered(out0, s) implies covered(out@, s) by {
                        let k = choose|k: int|
                            0 <= k < out0.len() && (#[trigger] out0[k])@.contains(s);
                        assert(out@[k] == out0[k]);
                    }
                    assert forall|j: int| 0 <= j < i + 1 && self.tab@[j] == color implies #[trigger] visited@[j] by {
                        self@.lemma_index_of_coord(j);
                        let c = self@.coord(j);
                        if j == i {
                            assert(g[0].coord == c);
                            assert(seen(g, c));
                        }
                        assert(visited@[self@.index(c)]);
                    }
                    assert forall|c: Coord|
                        self@.valid(c) && visited@[#[trigger] self@.index(c)] implies self@.at(c)
                        == color by {
                        if !visited0[self@.index(c)] {
                            let t = choose|t: int|
                                0 <= t < g.len() && (#[trigger] g[t]).coord == c;
                            assert(g.to_set().contains(g[t]));
                        }
                    }
                    assert forall|c: Coord, d: Coord|
                        #[trigger] self@.connected(Stone { coord: c, color }, d) && self@.valid(c)
                            && visited@[self@.index(c)] implies self@.valid(d)
                        && visited@[self@.index(d)] by {
                        if visited0[self@.index(c)] {
                            assert(self@.valid(d) && visited0[self@.index(d)]);
                        } else {
                            let t = choose|t: int|
                                0 <= t < g.len() && (#[trigger] g[t]).coord == c;
                            assert(g.to_set().contains(g[t]));
                            assert(g[t] == Stone { coord: c, color });
                            self@.lemma_group_same(stone, g[t]);
                            let sd = Stone { coord: d, color };
                            assert(self@.group(g[t]).contains(sd));
                            assert(g.to_set().contains(sd));
                            let u = choose|u: int| 0 <= u < g.len() && g[u] == sd;
                            assert(g[u].coord == d);
                            assert(seen(g, d));
                        }
                    }
                    assert forall|c: Coord|
                        #[trigger] self@.is_captured(color, c) && visited@[self@.index(
                            c,
                        )] implies covered(out@, Stone { coord: c, color }) by {
                        let sc = Stone { coord: c, color };
                        if visited0[self@.index(c)] {
                            assert(covered(out0, sc));
                        } else {
                            let t = choose|t: int|
                                0 <= t < g.len() && (#[trigger] g[t]).coord == c;
                            assert(g.to_set().contains(g[t]));
                            assert(g[t] == sc);
                            self@.lemma_group_same(stone, sc);
                            assert(dead);
                            assert(out@[out@.len() - 1]@.contains(sc));
                        }
                    }
                    assert forall|k: int| 0 <= k < out@.len() implies self@.is_dead_group(
                        color,
                        (#[trigger] out@[k])@,
                    ) && self@.index(out@[k]@[0].coord) < i + 1 by {
                        if k < out0.len() {
                            assert(out@[k] == out0[k]);
                        }
                    }
                    assert forall|k: int, s: Stone|
                        0 <= k < out@.len() && #[trigger] out@[k]@.contains(
                            s,
                        ) implies self@.valid(s.coord) && visited@[self@.index(s.coord)] by {
                        if k < out0.len() {
                            assert(out@[k] == out0[k]);
                            assert(visited0[self@.index(s.coord)]);
                        } else {
                            let t = choose|t: int| 0 <= t < g.len() && g[t] == s;
                            assert(g[t].coord == s.coord);
                            assert(seen(g, s.coord));
                        }
                    }
                    assert forall|a: int, b: int| 0 <= a < b < out@.len() implies self@.index(
                        (#[trigger] out@[a])@[0].coord,
                    ) < self@.index((#[trigger] out@[b])@[0].coord) by {
                        assert(out@[a] == out0[a]);
                        if b < out0.len() {
                            assert(out@[b] == out0[b]);
                        }
                    }
                    assert forall|a: int, b: int, s: Stone|
                        0 <= a < b < out@.len() && #[trigger] out@[a]@.contains(
                            s,
                        ) implies !#[trigger] out@[b]@.contains(s) by {
                        assert(out@[a] == out0[a]);
                        if b < out0.len() {
                            assert(out@[b] == out0[b]);
                        } else if out0[a]@.contains(s) && g.contains(s) {
                            assert(visited0[self@.index(s.coord)]);
                            let t = choose|t: int| 0 <= t < g.len() && g[t] == s;
                            assert(!visited0[self@.index(g[t].coord)]);
                        }
                    }
                }
            }
            i += 1;
        }
        proof {
            assert forall|c: Coord| #[trigger] self@.is_captured(color, c) implies covered(
                out@,
                Stone { coord: c, color },
            ) by {
                self@.lemma_index_in_range(c);
                assert(visited@[self@.index(c)]);
            }
        }
        out
    }

    /// A group grown from a cell that was not visited, on a board where the visited
    /// cells are whole groups and every cell of the colour before `i` is visited, holds
    /// no visited cell and no cell before `i`.
    proof fn lemma_fresh_group(
        &self,
        color: Color,
        stone: Stone,
        g: Seq<Stone>,
        visited: Seq<bool>,
        i: int,
    )
        requires
            self@.wf(),
            visited.len() == self.tab@.len(),
            stone.color == color,
            self@.holds(stone),
            self@.index(stone.coord) == i,
            !visited[i],
            g.len() > 0,
            g[0] == stone,
            g.to_set() == self@.group(stone),
            forall|j: int| 0 <= j < i && self.tab@[j] == color ==> #[trigger] visited[j],
            forall|c: Coord, d: Coord|
                #[trigger] self@.connected(Stone { coord: c, color }, d) && self@.valid(c)
                    && visited[self@.index(c)] ==> self@.valid(d) && visited[self@.index(d)],
        ensures
            forall|t: int|
                0 <= t < g.len() ==> {
                    let s = #[trigger] g[t];
                    &&& self@.holds(s)
                    &&& s.color == color
                    &&& s.coord.0 < usize::MAX
                    &&& s.coord.1 < usize::MAX
                    &&& !visited[self@.index(s.coord)]
                    &&& i <= self@.index(s.coord)
                },
    {
        assert forall|t: int| 0 <= t < g.len() implies {
            let s = #[trigger] g[t];
            &&& self@.holds(s)
            &&& s.color == color
            &&& s.coord.0 < usize::MAX
            &&& s.coord.1 < usize::MAX
            &&& !visited[self@.index(s.coord)]
            &&& i <= self@.index(s.coord)
        } by {
            let s = g[t];
            assert(g.to_set().contains(s));
            self@.lemma_group_holds(stone, s);
            self@.lemma_size_fits();
            self@.lemma_index_in_range(s.coord);
            self@.lemma_connected_sym(stone, s.coord);
            assert(s == Stone { coord: s.coord, color });
            if visited[self@.index(s.coord)] {
                assert(visited[self@.index(stone.coord)]);
            }
            if self@.index(s.coord) < i {
                assert(self.tab@[self@.index(s.coord)] == color);
            }
        }
    }
}

} // verus!
