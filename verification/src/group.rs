//! Groups of connected cells and their liberties.

use crate::board::{adjacent, Goban, Position};
use crate::color::{Color, Coord, Stone};
use crate::tally::{count_true, lemma_count_bound, lemma_count_mark};
use vstd::prelude::*;

verus! {

/// Some entry of `stones` stands at `c`.
pub open spec fn seen(stones: Seq<Stone>, c: Coord) -> bool {
    exists|k: int| 0 <= k < stones.len() && (#[trigger] stones[k]).coord == c
}

impl Position {
    /// The stone is on the board: its coordinate is valid and holds its colour.
    pub open spec fn holds(self, s: Stone) -> bool {
        self.valid(s.coord) && self.at(s.coord) == s.color
    }

    /// `p` is a walk through `color`: it starts anywhere, and every further step goes to
    /// an adjacent cell of the board that holds `color`.
    pub open spec fn is_path(self, color: Color, p: Seq<Coord>) -> bool {
        &&& p.len() > 0
        &&& forall|i: int|
            0 < i < p.len() ==> adjacent(p[i - 1], #[trigger] p[i]) && self.valid(p[i]) && self.at(
                p[i],
            ) == color
    }

    /// Some walk through `start.color` leads from `start.coord` to `c`.
    pub open spec fn connected(self, start: Stone, c: Coord) -> bool {
        exists|p: Seq<Coord>|
            #[trigger] self.is_path(start.color, p) && p[0] == start.coord && p.last() == c
    }

    /// The group of `start`: `start` itself and every cell of its colour that a walk
    /// through that colour reaches from it.
    pub open spec fn group(self, start: Stone) -> Set<Stone> {
        Set::new(|s: Stone| s.color == start.color && self.connected(start, s.coord))
    }

    /// `c` is an empty cell of the board next to one of `stones`.
    pub open spec fn is_liberty(self, stones: Set<Stone>, c: Coord) -> bool {
        &&& self.valid(c)
        &&& self.at(c) == Color::Empty
        &&& exists|s: Stone| #[trigger] stones.contains(s) && adjacent(s.coord, c)
    }

    /// The liberties of a set of stones.
    pub open spec fn liberties(self, stones: Set<Stone>) -> Set<Coord> {
        Set::new(|c: Coord| self.is_liberty(stones, c))
    }

    /// The stones have no liberty.
    pub open spec fn dead(self, stones: Set<Stone>) -> bool {
        forall|c: Coord| !self.is_liberty(stones, c)
    }

    /// The cell at `c` holds `color` and its group has no liberty.
    pub open spec fn is_captured(self, color: Color, c: Coord) -> bool {
        &&& self.valid(c)
        &&& self.at(c) == color
        &&& self.dead(self.group(Stone { coord: c, color }))
    }

    pub proof fn lemma_connected_self(self, start: Stone)
        ensures
            self.connected(start, start.coord),
            self.group(start).contains(start),
    {
        let p = seq![start.coord];
        assert(self.is_path(start.color, p));
        assert(p[0] == start.coord && p.last() == start.coord);
    }

    /// A walk goes on by one adjacent cell of its colour.
    pub proof fn lemma_connected_step(self, start: Stone, a: Coord, c: Coord)
        requires
            self.connected(start, a),
            adjacent(a, c),
            self.valid(c),
            self.at(c) == start.color,
        ensures
            self.connected(start, c),
    {
        let p = choose|p: Seq<Coord>|
            #[trigger] self.is_path(start.color, p) && p[0] == start.coord && p.last() == a;
        let q = p.push(c);
        assert forall|i: int| 0 < i < q.len() implies adjacent(q[i - 1], #[trigger] q[i])
            && self.valid(q[i]) && self.at(q[i]) == start.color by {
            if i < p.len() {
                assert(q[i] == p[i]);
                assert(q[i - 1] == p[i - 1]);
            }
        }
        assert(self.is_path(start.color, q));
        assert(q[0] == start.coord && q.last() == c);
    }

    /// Every cell that a walk reaches, other than its start, is on the board and holds
    /// the colour.
    pub proof fn lemma_connected_holds(self, start: Stone, c: Coord)
        requires
            self.connected(start, c),
        ensures
            c == start.coord || (self.valid(c) && self.at(c) == start.color),
    {
        let p = choose|p: Seq<Coord>|
            #[trigger] self.is_path(start.color, p) && p[0] == start.coord && p.last() == c;
        if p.len() > 1 {
            assert(self.valid(p[p.len() - 1]));
        }
    }

    /// A set of coordinates that holds the start of a walk, and with each member its
    /// adjacent cells of the colour, holds the walk's end.
    pub proof fn lemma_closed_set(self, start: Stone, inside: Set<Coord>, p: Seq<Coord>)
        requires
            inside.contains(start.coord),
            forall|a: Coord, c: Coord|
                #[trigger] adjacent(a, c) && inside.contains(a) && self.valid(c) && self.at(c)
                    == start.color ==> inside.contains(c),
            self.is_path(start.color, p),
            p[0] == start.coord,
        ensures
            inside.contains(p.last()),
        decreases p.len(),
    {
        if p.len() > 1 {
            let q = p.drop_last();
            assert forall|i: int| 0 < i < q.len() implies adjacent(q[i - 1], #[trigger] q[i])
                && self.valid(q[i]) && self.at(q[i]) == start.color by {
                assert(q[i] == p[i]);
                assert(q[i - 1] == p[i - 1]);
            }
            self.lemma_closed_set(start, inside, q);
            let last = p.len() - 1;
            assert(adjacent(p[last - 1], p[last]));
            assert(q.last() == p[last - 1]);
        }
    }

    /// Walks compose.
    pub proof fn lemma_connected_trans(self, s: Stone, a: Coord, c: Coord)
        requires
            self.connected(s, a),
            self.connected(Stone { coord: a, color: s.color }, c),
        ensures
            self.connected(s, c),
    {
        let inside = Set::new(|x: Coord| self.connected(s, x));
        let p = choose|p: Seq<Coord>|
            #[trigger] self.is_path(s.color, p) && p[0] == a && p.last() == c;
        assert forall|x: Coord, y: Coord|
            #[trigger] adjacent(x, y) && inside.contains(x) && self.valid(y) && self.at(y)
                == s.color implies inside.contains(y) by {
            self.lemma_connected_step(s, x, y);
        }
        self.lemma_closed_set(Stone { coord: a, color: s.color }, inside, p);
    }

    /// From a stone on the board, walks can be walked back.
    pub proof fn lemma_connected_sym(self, s: Stone, c: Coord)
        requires
            self.holds(s),
            self.connected(s, c),
        ensures
            self.connected(Stone { coord: c, color: s.color }, s.coord),
    {
        let back = Set::new(
            |x: Coord|
                self.valid(x) && self.at(x) == s.color && self.connected(
                    Stone { coord: x, color: s.color },
                    s.coord,
                ),
        );
        let p = choose|p: Seq<Coord>|
            #[trigger] self.is_path(s.color, p) && p[0] == s.coord && p.last() == c;
        self.lemma_connected_self(s);
        assert forall|x: Coord, y: Coord|
            #[trigger] adjacent(x, y) && back.contains(x) && self.valid(y) && self.at(y)
                == s.color implies back.contains(y) by {
            // a walk from y: one step to x, then on to s
            let sy = Stone { coord: y, color: s.color };
            self.lemma_connected_self(sy);
            self.lemma_connected_step(sy, y, x);
            self.lemma_connected_trans(sy, x, s.coord);
        }
        self.lemma_closed_set(s, back, p);
    }

    /// The group of a stone on the board consists of stones on the board.
    pub proof fn lemma_group_holds(self, s: Stone, t: Stone)
        requires
            self.holds(s),
            self.group(s).contains(t),
        ensures
            self.holds(t),
    {
        self.lemma_connected_holds(s, t.coord);
    }

    /// A stone on the board has the same group as every member of its group.
    pub proof fn lemma_group_same(self, s: Stone, t: Stone)
        requires
            self.holds(s),
            self.group(s).contains(t),
        ensures
            self.group(t) == self.group(s),
    {
        self.lemma_connected_sym(s, t.coord);
        assert forall|x: Stone| self.group(t).contains(x) <==> self.group(s).contains(x) by {
            if self.group(t).contains(x) {
                self.lemma_connected_trans(s, t.coord, x.coord);
            }
            if self.group(s).contains(x) {
                self.lemma_connected_trans(t, s.coord, x.coord);
            }
        }
        assert(self.group(t) =~= self.group(s));
    }
}

/// Some entry of `stack` stands at `c`.
pub open spec fn pending(stack: Seq<Stone>, c: Coord) -> bool {
    exists|j: int| 0 <= j < stack.len() && (#[trigger] stack[j]).coord == c
}

impl Goban {
    /// Pushes on `stack` every neighbour of `from` that holds `color` and is not yet
    /// marked in `visited`.
    fn expand(&self, from: Coord, color: Color, visited: &Vec<bool>, stack: &mut Vec<Stone>)
        requires
            self@.wf(),
            visited@.len() == self.tab@.len(),
            from.0 < usize::MAX,
            from.1 < usize::MAX,
        ensures
            final(stack)@.len() >= old(stack)@.len(),
            final(stack)@.take(old(stack)@.len() as int) == old(stack)@,
            forall|j: int|
                old(stack)@.len() <= j < final(stack)@.len() ==> {
                    let s = #[trigger] final(stack)@[j];
                    self@.holds(s) && s.color == color && adjacent(from, s.coord)
                },
            forall|c: Coord|
                #[trigger] adjacent(from, c) && self@.valid(c) && self@.at(c) == color
                    ==> visited@[self@.index(c)] || pending(final(stack)@, c),
    {
        let around = self.get_neighbors(&from);
        let ghost before = stack@;
        let mut k: usize = 0;
        while k < around.len()
            invariant
                k <= around.len(),
                self@.wf(),
                visited@.len() == self.tab@.len(),
                from.0 < usize::MAX,
                from.1 < usize::MAX,
                around@ == self@.neighbors(from),
                stack@.len() >= before.len(),
                stack@.take(before.len() as int) == before,
                forall|j: int|
                    before.len() <= j < stack@.len() ==> {
                        let s = #[trigger] stack@[j];
                        self@.holds(s) && s.color == color && adjacent(from, s.coord)
                    },
                forall|m: int|
                    0 <= m < k && (#[trigger] around@[m]).color == color ==> visited@[self@.index(
                        around@[m].coord,
                    )] || pending(stack@, around@[m].coord),
            decreases around.len() - k,
        {
            let n = around[k];
            proof {
                self@.lemma_neighbors(from);
                let s = self@.neighbors(from)[k as int];
                assert(adjacent(from, s.coord) && self@.valid(s.coord) && s.color == self@.at(
                    s.coord,
                ));
            }
            if n.color == color {
                let i = self.idx(n.coord);
                if !visited[i] {
                    let ghost prev = stack@;
                    stack.push(n);
                    proof {
                        assert(stack@.take(before.len() as int) =~= prev.take(before.len() as int));
                        assert(stack@[stack@.len() - 1].coord == n.coord);
                        assert forall|m: int|
                            0 <= m < k && (#[trigger] around@[m]).color == color && pending(
                                prev,
                                around@[m].coord,
                            ) implies pending(stack@, around@[m].coord) by {
                            let j = choose|j: int|
                                0 <= j < prev.len() && (#[trigger] prev[j]).coord
                                    == around@[m].coord;
                            assert(stack@[j].coord == around@[m].coord);
                        }
                    }
                }
            }
            k += 1;
        }
        proof {
            self@.lemma_neighbors(from);
            assert forall|c: Coord|
                #[trigger] adjacent(from, c) && self@.valid(c) && self@.at(c)
                    == color implies visited@[self@.index(c)] || pending(stack@, c) by {
                let s = Stone { coord: c, color: self@.at(c) };
                assert(around@.contains(s));
                let m = choose|m: int| 0 <= m < around@.len() && around@[m] == s;
                assert(around@[m].color == color);
            }
        }
    }

    /// The group of `start`: `start` first, then every stone of its colour that is
    /// connected to it, each once.
    pub fn dfs(&self, start: &Stone) -> (r: Vec<Stone>)
        requires
            self@.wf(),
            start.coord.0 < usize::MAX,
            start.coord.1 < usize::MAX,
        ensures
            r@.len() > 0,
            r@[0] == *start,
            r@.no_duplicates(),
            r@.to_set() == self@.group(*start),
    {
        let n = self.tab.len();
        let mut visited: Vec<bool> = vec![false; n];
        let mut explored: Vec<Stone> = Vec::new();
        explored.push(*start);
        if self.coord_valid(&start.coord) {
            let i = self.idx(start.coord);
            visited.set(i, true);
            proof {
                assert forall|c: Coord|
                    self@.valid(c) && visited@[self@.index(c)] implies c == start.coord by {
                    self@.lemma_index_in_range(c);
                    self@.lemma_index_injective(c, start.coord);
                }
            }
        } else {
            proof {
                assert forall|c: Coord| self@.valid(c) implies !visited@[self@.index(c)] by {
                    self@.lemma_index_in_range(c);
                }
            }
        }
        let mut stack: Vec<Stone> = Vec::new();
        self.expand(start.coord, start.color, &visited, &mut stack);
        proof {
            self@.lemma_connected_self(*start);
            assert(explored@[0].coord == start.coord);
            assert forall|j: int| 0 <= j < stack@.len() implies {
                let s = #[trigger] stack@[j];
                self@.holds(s) && s.color == start.color && self@.connected(*start, s.coord)
            } by {
                let s = stack@[j];
                self@.lemma_connected_step(*start, start.coord, s.coord);
            }
            assert forall|a: Coord, c: Coord|
                #[trigger] adjacent(a, c) && seen(explored@, a) && self@.valid(c) && self@.at(c)
                    == start.color implies visited@[self@.index(c)] || pending(stack@, c) by {
                let k = choose|k: int| 0 <= k < explored@.len() && explored@[k].coord == a;
                assert(a == start.coord);
            }
        }
        while stack.len() > 0
            invariant
                self@.wf(),
                start.coord.0 < usize::MAX,
                start.coord.1 < usize::MAX,
                visited@.len() == self.tab@.len(),
                explored@.len() > 0,
                explored@[0] == *start,
                forall|k: int|
                    0 <= k < explored@.len() ==> {
                        let s = #[trigger] explored@[k];
                        &&& s.color == start.color
                        &&& s.coord.0 < usize::MAX
                        &&& s.coord.1 < usize::MAX
                        &&& self@.connected(*start, s.coord)
                        &&& self@.valid(s.coord) ==> visited@[self@.index(s.coord)]
                    },
                forall|c: Coord|
                    self@.valid(c) && visited@[#[trigger] self@.index(c)] ==> seen(explored@, c),
                forall|i: int, j: int|
                    0 <= i < j < explored@.len() ==> (#[trigger] explored@[i]).coord != (
                    #[trigger] explored@[j]).coord,
                forall|j: int|
                    0 <= j < stack@.len() ==> {
                        let s = #[trigger] stack@[j];
                        self@.holds(s) && s.color == start.color && self@.connected(
                            *start,
                            s.coord,
                        )
                    },
                forall|a: Coord, c: Coord|
                    #[trigger] adjacent(a, c) && seen(explored@, a) && self@.valid(c) && self@.at(c)
                        == start.color ==> visited@[self@.index(c)] || pending(stack@, c),
            decreases visited@.len() - count_true(visited@), stack@.len(),
        {
            let ghost stack0 = stack@;
            let ghost visited0 = visited@;
            let ghost explored0 = explored@;
            let stone = stack.pop().unwrap();
            assert(stone == stack0[stack0.len() - 1]);
            let i = self.idx(stone.coord);
            proof {
                lemma_count_bound(visited0);
                self@.lemma_size_fits();
                // whatever was pending is still pending, or is the stone just taken
                assert forall|c: Coord| pending(stack0, c) implies pending(stack@, c) || c
                    == stone.coord by {
                    let j = choose|j: int|
                        0 <= j < stack0.len() && (#[trigger] stack0[j]).coord == c;
                    if j < stack0.len() - 1 {
                        assert(stack@[j].coord == c);
                    }
                }
            }
            if !visited[i] {
                visited.set(i, true);
                explored.push(stone);
                let ghost stack1 = stack@;
                self.expand(stone.coord, start.color, &visited, &mut stack);
                proof {
                    lemma_count_mark(visited0, i as int);
                    lemma_count_bound(visited@);
                    assert forall|c: Coord| pending(stack1, c) implies pending(stack@, c) by {
                        let j = choose|j: int|
                            0 <= j < stack1.len() && (#[trigger] stack1[j]).coord == c;
                        assert(stack@.take(stack1.len() as int)[j] == stack1[j]);
                        assert(stack@[j].coord == c);
                    }
                    assert forall|c: Coord| seen(explored0, c) implies seen(explored@, c) by {
                        let k = choose|k: int|
                            0 <= k < explored0.len() && (#[trigger] explored0[k]).coord == c;
                        assert(explored@[k].coord == c);
                    }
                    assert(explored@[explored@.len() - 1].coord == stone.coord);
                    assert(seen(explored@, stone.coord));
                    assert forall|c: Coord|
                        self@.valid(c) && visited@[#[trigger] self@.index(c)] implies seen(
                        explored@,
                        c,
                    ) by {
                        self@.lemma_index_in_range(c);
                        if self@.index(c) == i {
                            self@.lemma_index_injective(c, stone.coord);
                        } else {
                            assert(visited0[self@.index(c)]);
                        }
                    }
                    assert forall|k: int| 0 <= k < explored@.len() implies {
                        let s = #[trigger] explored@[k];
                        &&& s.color == start.color
                        &&& s.coord.0 < usize::MAX
                        &&& s.coord.1 < usize::MAX
                        &&& self@.connected(*start, s.coord)
                        &&& self@.valid(s.coord) ==> visited@[self@.index(s.coord)]
                    } by {
                        if k < explored0.len() {
                            assert(explored@[k] == explored0[k]);
                            if self@.valid(explored0[k].coord) {
                                self@.lemma_index_in_range(explored0[k].coord);
                            }
                        }
                    }
                    assert forall|a: int, b: int| 0 <= a < b < explored@.len() implies (
                    #[trigger] explored@[a]).coord != (#[trigger] explored@[b]).coord by {
                        if b == explored0.len() {
                            assert(explored@[a] == explored0[a]);
                            if explored0[a].coord == stone.coord {
                                assert(visited0[self@.index(explored0[a].coord)]);
                            }
                        } else {
                            assert(explored@[a] == explored0[a]);
                            assert(explored@[b] == explored0[b]);
                        }
                    }
                    assert forall|j: int| 0 <= j < stack@.len() implies {
                        let s = #[trigger] stack@[j];
                        self@.holds(s) && s.color == start.color && self@.connected(
                            *start,
                            s.coord,
                        )
                    } by {
                        if j < stack1.len() {
                            assert(stack@.take(stack1.len() as int)[j] == stack1[j]);
                            assert(stack@[j] == stack0[j]);
                        } else {
                            let s = stack@[j];
                            self@.lemma_connected_step(*start, stone.coord, s.coord);
                        }
                    }
                    assert forall|a: Coord, c: Coord|
                        #[trigger] adjacent(a, c) && seen(explored@, a) && self@.valid(c)
                            && self@.at(c) == start.color implies visited@[self@.index(c)]
                        || pending(stack@, c) by {
                        self@.lemma_index_in_range(c);
                        if a == stone.coord {
                        } else {
                            let k = choose|k: int|
                                0 <= k < explored@.len() && (#[trigger] explored@[k]).coord == a;
                            assert(explored0[k].coord == a);
                            assert(seen(explored0, a));
                            assert(visited0[self@.index(c)] || pending(stack0, c));
                            if visited0[self@.index(c)] {
                            } else if c == stone.coord {
                            } else {
                                assert(pending(stack1, c));
                            }
                        }
                    }
                }
            } else {
                proof {
                    assert forall|a: Coord, c: Coord|
                        #[trigger] adjacent(a, c) && seen(explored@, a) && self@.valid(c)
                            && self@.at(c) == start.color implies visited@[self@.index(c)]
                        || pending(stack@, c) by {
                        assert(visited0[self@.index(c)] || pending(stack0, c));
                    }
                    assert forall|j: int| 0 <= j < stack@.len() implies {
                        let s = #[trigger] stack@[j];
                        self@.holds(s) && s.color == start.color && self@.connected(
                            *start,
                            s.coord,
                        )
                    } by {
                        assert(stack@[j] == stack0[j]);
                    }
                }
            }
        }
        proof {
            let inside = Set::new(|c: Coord| seen(explored@, c));
            assert(explored@[0].coord == start.coord);
            assert(inside.contains(start.coord));
            assert forall|a: Coord, c: Coord|
                #[trigger] adjacent(a, c) && inside.contains(a) && self@.valid(c) && self@.at(c)
                    == start.color implies inside.contains(c) by {
                assert(visited@[self@.index(c)] || pending(stack@, c));
            }
            assert forall|s: Stone| explored@.to_set().contains(s) <==> self@.group(
                *start,
            ).contains(s) by {
                if explored@.to_set().contains(s) {
                    let k = choose|k: int| 0 <= k < explored@.len() && explored@[k] == s;
                    assert(explored@[k].color == start.color);
                }
                if self@.group(*start).contains(s) {
                    let p = choose|p: Seq<Coord>|
                        #[trigger] self@.is_path(start.color, p) && p[0] == start.coord && p.last()
                            == s.coord;
                    self@.lemma_closed_set(*start, inside, p);
                    let k = choose|k: int|
                        0 <= k < explored@.len() && (#[trigger] explored@[k]).coord == s.coord;
                    assert(explored@[k] == s);
                }
            }
            assert(explored@.to_set() =~= self@.group(*start));
        }
        explored
    }
}

} // verus!
