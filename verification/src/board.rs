//! The board: a square grid of cells, stored row by row.

use crate::color::{Color, Coord, Stone};
use vstd::prelude::*;

verus! {

/// The mathematical content of a board: its side length and its cells, row by row.
pub struct Position {
    pub size: nat,
    pub cells: Seq<Color>,
}

/// Two coordinates are adjacent when they differ by one step along one axis.
pub open spec fn adjacent(a: Coord, b: Coord) -> bool {
    ||| (a.0 == b.0 && (a.1 + 1 == b.1 || b.1 + 1 == a.1))
    ||| (a.1 == b.1 && (a.0 + 1 == b.0 || b.0 + 1 == a.0))
}

/// The up to four coordinates next to `c`, before any bounds check:
/// above (if any), below, left (if any), right.
pub open spec fn raw_neighbors(c: Coord) -> Seq<Coord> {
    let up: Seq<Coord> = if c.0 > 0 {
        seq![((c.0 - 1) as usize, c.1)]
    } else {
        Seq::empty()
    };
    let down = up.push(((c.0 + 1) as usize, c.1));
    let left = if c.1 > 0 {
        down.push((c.0, (c.1 - 1) as usize))
    } else {
        down
    };
    left.push((c.0, (c.1 + 1) as usize))
}

/// A coordinate occurs among the raw neighbours of `c` exactly when it is adjacent to `c`.
pub proof fn lemma_raw_neighbors(c: Coord)
    requires
        c.0 < usize::MAX,
        c.1 < usize::MAX,
    ensures
        raw_neighbors(c).len() <= 4,
        forall|k: int|
            0 <= k < raw_neighbors(c).len() ==> adjacent(c, #[trigger] raw_neighbors(c)[k]),
        forall|d: Coord| #[trigger] adjacent(c, d) ==> raw_neighbors(c).contains(d),
{
    let r = raw_neighbors(c);
    assert forall|d: Coord| #[trigger] adjacent(c, d) implies r.contains(d) by {
        if d.1 == c.1 && d.0 + 1 == c.0 {
            assert(r[0] == d);
        } else if d.1 == c.1 && c.0 + 1 == d.0 {
            if c.0 > 0 {
                assert(r[1] == d);
            } else {
                assert(r[0] == d);
            }
        } else if d.0 == c.0 && d.1 + 1 == c.1 {
            if c.0 > 0 {
                assert(r[2] == d);
            } else {
                assert(r[1] == d);
            }
        } else {
            assert(r[r.len() - 1] == d);
        }
    }
}

impl Position {
    /// The cell count matches the side length, and fits the machine.
    pub open spec fn wf(self) -> bool {
        &&& self.cells.len() == self.size * self.size
        &&& self.size * self.size <= usize::MAX
    }

    /// The board of side `size` with every cell empty.
    pub open spec fn empty(size: nat) -> Position {
        Position { size, cells: Seq::new(size * size, |i: int| Color::Empty) }
    }

    pub open spec fn valid(self, c: Coord) -> bool {
        c.0 < self.size && c.1 < self.size
    }

    /// Where the cell at `c` stands in `cells`.
    pub open spec fn index(self, c: Coord) -> int {
        c.0 * self.size + c.1
    }

    /// The coordinate of the cell that stands at `i` in `cells`.
    pub open spec fn coord(self, i: int) -> Coord {
        ((i / (self.size as int)) as usize, (i % (self.size as int)) as usize)
    }

    pub open spec fn at(self, c: Coord) -> Color {
        self.cells[self.index(c)]
    }

    /// The board with the cell at `c` replaced.
    pub open spec fn put(self, c: Coord, color: Color) -> Position {
        Position { size: self.size, cells: self.cells.update(self.index(c), color) }
    }

    /// The board with every valid coordinate of `cs` set to `color`.
    pub open spec fn put_all(self, cs: Seq<Coord>, color: Color) -> Position
        decreases cs.len(),
    {
        if cs.len() == 0 {
            self
        } else {
            let p = self.put_all(cs.drop_last(), color);
            if self.valid(cs.last()) {
                p.put(cs.last(), color)
            } else {
                p
            }
        }
    }

    /// `acc`, followed by the stone at `c` if `c` is on the board.
    pub open spec fn keep(self, acc: Seq<Stone>, c: Coord) -> Seq<Stone> {
        if self.valid(c) {
            acc.push(Stone { coord: c, color: self.at(c) })
        } else {
            acc
        }
    }

    /// The stones (or empty points) at those coordinates of `cs` that are on the board,
    /// in the order of `cs`.
    pub open spec fn stones_at(self, cs: Seq<Coord>) -> Seq<Stone>
        decreases cs.len(),
    {
        if cs.len() == 0 {
            Seq::empty()
        } else {
            self.keep(self.stones_at(cs.drop_last()), cs.last())
        }
    }

    /// The cells next to `c` that are on the board, each with what it holds: the one
    /// above, the one below, the one to the left, the one to the right.
    pub open spec fn neighbors(self, c: Coord) -> Seq<Stone> {
        let up = if c.0 > 0 {
            self.keep(Seq::empty(), ((c.0 - 1) as usize, c.1))
        } else {
            Seq::empty()
        };
        let down = self.keep(up, ((c.0 + 1) as usize, c.1));
        let left = if c.1 > 0 {
            self.keep(down, (c.0, (c.1 - 1) as usize))
        } else {
            down
        };
        self.keep(left, (c.0, (c.1 + 1) as usize))
    }

    pub proof fn lemma_stones_at_push(self, cs: Seq<Coord>, c: Coord)
        ensures
            self.stones_at(cs.push(c)) == self.keep(self.stones_at(cs), c),
    {
        assert(cs.push(c).drop_last() =~= cs);
    }

    /// The neighbours are the stones at the raw neighbour coordinates.
    pub proof fn lemma_neighbors_of_raw(self, c: Coord)
        ensures
            self.neighbors(c) == self.stones_at(raw_neighbors(c)),
    {
        let none = Seq::<Coord>::empty();
        let above = ((c.0 - 1) as usize, c.1);
        let up: Seq<Coord> = if c.0 > 0 {
            seq![above]
        } else {
            none
        };
        if c.0 > 0 {
            assert(up =~= none.push(above));
            self.lemma_stones_at_push(none, above);
        }
        let below = ((c.0 + 1) as usize, c.1);
        let down = up.push(below);
        self.lemma_stones_at_push(up, below);
        let before = (c.0, (c.1 - 1) as usize);
        let left = if c.1 > 0 {
            down.push(before)
        } else {
            down
        };
        if c.1 > 0 {
            self.lemma_stones_at_push(down, before);
        }
        self.lemma_stones_at_push(left, (c.0, (c.1 + 1) as usize));
    }

    pub proof fn lemma_size_fits(self)
        requires
            self.wf(),
        ensures
            self.size <= usize::MAX,
    {
        let n = self.size as int;
        assert(n <= n * n) by (nonlinear_arith)
            requires
                n >= 0,
        ;
    }

    pub proof fn lemma_index_in_range(self, c: Coord)
        requires
            self.valid(c),
        ensures
            0 <= self.index(c) < self.size * self.size,
            c.0 * self.size <= self.index(c),
    {
        let n = self.size as int;
        let r = c.0 as int;
        let k = c.1 as int;
        assert(0 <= r * n && r * n + k < n * n) by (nonlinear_arith)
            requires
                0 <= r < n,
                0 <= k < n,
        ;
    }

    pub proof fn lemma_indices(self)
        ensures
            forall|c: Coord| self.valid(c) ==> 0 <= #[trigger] self.index(c) < self.size * self.size,
    {
        assert forall|c: Coord| self.valid(c) implies 0 <= #[trigger] self.index(c) < self.size
            * self.size by {
            self.lemma_index_in_range(c);
        }
    }

    pub proof fn lemma_coord_of_index(self, c: Coord)
        requires
            self.valid(c),
        ensures
            self.coord(self.index(c)) == c,
    {
        vstd::arithmetic::div_mod::lemma_fundamental_div_mod_converse(
            self.index(c),
            self.size as int,
            c.0 as int,
            c.1 as int,
        );
    }

    pub proof fn lemma_index_injective(self, a: Coord, b: Coord)
        requires
            self.valid(a),
            self.valid(b),
            self.index(a) == self.index(b),
        ensures
            a == b,
    {
        self.lemma_coord_of_index(a);
        self.lemma_coord_of_index(b);
    }

    pub proof fn lemma_index_of_coord(self, i: int)
        requires
            self.wf(),
            0 <= i < self.size * self.size,
        ensures
            self.valid(self.coord(i)),
            self.index(self.coord(i)) == i,
    {
        let n = self.size as int;
        self.lemma_size_fits();
        assert(n > 0) by (nonlinear_arith)
            requires
                0 <= i < n * n,
                n >= 0,
        ;
        vstd::arithmetic::div_mod::lemma_fundamental_div_mod(i, n);
        vstd::arithmetic::div_mod::lemma_mod_bound(i, n);
        let q = i / n;
        let r = i % n;
        assert(0 <= q < n) by (nonlinear_arith)
            requires
                i == n * q + r,
                0 <= r < n,
                0 <= i < n * n,
        ;
        assert(q * n + r == i) by (nonlinear_arith)
            requires
                i == n * q + r,
        ;
    }

    /// What `put` does, cell by cell.
    pub proof fn lemma_put(self, c: Coord, color: Color)
        requires
            self.wf(),
            self.valid(c),
        ensures
            self.put(c, color).wf(),
            self.put(c, color).size == self.size,
            self.put(c, color).at(c) == color,
            forall|d: Coord|
                self.valid(d) && d != c ==> #[trigger] self.put(c, color).at(d) == self.at(d),
    {
        self.lemma_index_in_range(c);
        assert forall|d: Coord| self.valid(d) && d != c implies #[trigger] self.put(c, color).at(d)
            == self.at(d) by {
            self.lemma_index_in_range(d);
            if self.index(d) == self.index(c) {
                self.lemma_index_injective(d, c);
            }
        }
    }

    /// What `put_all` does, cell by cell.
    pub proof fn lemma_put_all(self, cs: Seq<Coord>, color: Color)
        requires
            self.wf(),
        ensures
            self.put_all(cs, color).wf(),
            self.put_all(cs, color).size == self.size,
            forall|d: Coord|
                self.valid(d) ==> #[trigger] self.put_all(cs, color).at(d) == if cs.contains(d) {
                    color
                } else {
                    self.at(d)
                },
        decreases cs.len(),
    {
        if cs.len() > 0 {
            let front = cs.drop_last();
            let p = self.put_all(front, color);
            self.lemma_put_all(front, color);
            if self.valid(cs.last()) {
                p.lemma_put(cs.last(), color);
            }
            assert forall|d: Coord| self.valid(d) implies #[trigger] self.put_all(cs, color).at(d)
                == if cs.contains(d) {
                color
            } else {
                self.at(d)
            } by {
                if cs.contains(d) {
                    let k = choose|k: int| 0 <= k < cs.len() && cs[k] == d;
                    if k < cs.len() - 1 {
                        assert(front[k] == d);
                    }
                } else {
                    if front.contains(d) {
                        let k = choose|k: int| 0 <= k < front.len() && front[k] == d;
                        assert(cs[k] == d);
                    }
                }
            }
        }
    }

    /// A stone occurs in `stones_at(cs)` exactly when its coordinate occurs in `cs`, is on
    /// the board, and its colour is what the board holds there.
    pub proof fn lemma_stones_at(self, cs: Seq<Coord>)
        ensures
            self.stones_at(cs).len() <= cs.len(),
            forall|k: int|
                0 <= k < self.stones_at(cs).len() ==> {
                    let s = #[trigger] self.stones_at(cs)[k];
                    cs.contains(s.coord) && self.valid(s.coord) && s.color == self.at(s.coord)
                },
            forall|k: int|
                0 <= k < cs.len() && self.valid(#[trigger] cs[k]) ==> self.stones_at(cs).contains(
                    Stone { coord: cs[k], color: self.at(cs[k]) },
                ),
        decreases cs.len(),
    {
        if cs.len() > 0 {
            let front = cs.drop_last();
            let prev = self.stones_at(front);
            let out = self.stones_at(cs);
            self.lemma_stones_at(front);
            assert forall|k: int| 0 <= k < out.len() implies {
                let s = #[trigger] out[k];
                cs.contains(s.coord) && self.valid(s.coord) && s.color == self.at(s.coord)
            } by {
                if k < prev.len() {
                    let s = prev[k];
                    let j = choose|j: int| 0 <= j < front.len() && front[j] == s.coord;
                    assert(cs[j] == s.coord);
                } else {
                    assert(cs[cs.len() - 1] == out[k].coord);
                }
            }
            assert forall|k: int| 0 <= k < cs.len() && self.valid(#[trigger] cs[k]) implies out.contains(
                Stone { coord: cs[k], color: self.at(cs[k]) },
            ) by {
                let s = Stone { coord: cs[k], color: self.at(cs[k]) };
                if k < cs.len() - 1 {
                    assert(front[k] == cs[k]);
                    let j = choose|j: int| 0 <= j < prev.len() && prev[j] == s;
                    assert(out[j] == s);
                } else {
                    assert(out[out.len() - 1] == s);
                }
            }
        }
    }

    /// The neighbours of `c` are exactly the adjacent cells on the board, each with its colour.
    pub proof fn lemma_neighbors(self, c: Coord)
        requires
            c.0 < usize::MAX,
            c.1 < usize::MAX,
        ensures
            self.neighbors(c).len() <= 4,
            forall|k: int|
                0 <= k < self.neighbors(c).len() ==> {
                    let s = #[trigger] self.neighbors(c)[k];
                    adjacent(c, s.coord) && self.valid(s.coord) && s.color == self.at(s.coord)
                },
            forall|d: Coord|
                #[trigger] adjacent(c, d) && self.valid(d) ==> self.neighbors(c).contains(
                    Stone { coord: d, color: self.at(d) },
                ),
    {
        let raw = raw_neighbors(c);
        lemma_raw_neighbors(c);
        self.lemma_stones_at(raw);
        self.lemma_neighbors_of_raw(c);
        assert forall|k: int| 0 <= k < self.neighbors(c).len() implies {
            let s = #[trigger] self.neighbors(c)[k];
            adjacent(c, s.coord) && self.valid(s.coord) && s.color == self.at(s.coord)
        } by {
            let s = self.neighbors(c)[k];
            let j = choose|j: int| 0 <= j < raw.len() && raw[j] == s.coord;
            assert(adjacent(c, raw[j]));
        }
        assert forall|d: Coord| #[trigger] adjacent(c, d) && self.valid(d) implies self.neighbors(
            c,
        ).contains(Stone { coord: d, color: self.at(d) }) by {
            let j = choose|j: int| 0 <= j < raw.len() && raw[j] == d;
            assert(self.valid(raw[j]));
        }
    }
}

/// A square board of `size` rows and columns; `tab` holds the cells row by row.
#[derive(Debug)]
pub struct Goban {
    pub size: usize,
    pub tab: Vec<Color>,
}

impl View for Goban {
    type V = Position;

    open spec fn view(&self) -> Position {
        Position { size: self.size as nat, cells: self.tab@ }
    }
}

impl Clone for Goban {
    fn clone(&self) -> (r: Goban)
        ensures
            r@ == self@,
    {
        Goban { size: self.size, tab: copy_cells(&self.tab) }
    }
}

/// A fresh vector with the same cells.
pub fn copy_cells(cells: &Vec<Color>) -> (r: Vec<Color>)
    ensures
        r@ == cells@,
{
    let mut out: Vec<Color> = Vec::with_capacity(cells.len());
    let mut i: usize = 0;
    while i < cells.len()
        invariant
            i <= cells.len(),
            out@ == cells@.take(i as int),
        decreases cells.len() - i,
    {
        out.push(cells[i]);
        i += 1;
        assert(out@ =~= cells@.take(i as int));
    }
    assert(cells@.take(i as int) =~= cells@);
    out
}

/// The raw neighbour coordinates of `coord`: above, below, left, right, without those
/// whose row or column would be negative. Callers filter with `coord_valid`.
pub fn neighbors_coords(coord: &Coord) -> (r: Vec<Coord>)
    requires
        coord.0 < usize::MAX,
        coord.1 < usize::MAX,
    ensures
        r@ == raw_neighbors(*coord),
{
    let mut n: Vec<Coord> = Vec::with_capacity(4);
    if coord.0 > 0 {
        n.push((coord.0 - 1, coord.1));
    }
    n.push((coord.0 + 1, coord.1));
    if coord.1 > 0 {
        n.push((coord.0, coord.1 - 1));
    }
    n.push((coord.0, coord.1 + 1));
    assert(n@ =~= raw_neighbors(*coord));
    n
}

impl Goban {
    /// An empty board of the given side.
    pub fn new(size: usize) -> (r: Goban)
        requires
            size * size <= usize::MAX,
        ensures
            r@ == Position::empty(size as nat),
            r@.wf(),
    {
        let tab = vec![Color::Empty; size * size];
        assert(tab@ =~= Position::empty(size as nat).cells);
        Goban { size, tab }
    }

    pub(crate) fn idx(&self, coord: Coord) -> (i: usize)
        requires
            self@.wf(),
            self@.valid(coord),
        ensures
            i == self@.index(coord),
            i < self.tab@.len(),
    {
        proof {
            self@.lemma_index_in_range(coord);
        }
        coord.0 * self.size + coord.1
    }

    pub fn coord_valid(&self, coord: &Coord) -> (r: bool)
        ensures
            r == self@.valid(*coord),
    {
        coord.0 < self.size && coord.1 < self.size
    }

    /// The colour at a coordinate of the board.
    pub fn index(&self, i: Coord) -> (r: &Color)
        requires
            self@.wf(),
            self@.valid(i),
        ensures
            *r == self@.at(i),
    {
        &self.tab[self.idx(i)]
    }

    /// Places a stone on an empty cell of the board; refuses a coordinate off the board
    /// or a cell that is taken, and then leaves the board as it was.
    pub fn push(&mut self, coord: Coord, color: Color) -> (r: Result<(), &'static str>)
        requires
            old(self)@.wf(),
        ensures
            !old(self)@.valid(coord) ==> (r matches Err(e) && e@ == "Out of bounds"@) && final(self)@ == old(self)@,
            old(self)@.valid(coord) && old(self)@.at(coord) != Color::Empty ==> (r matches Err(e)
                && e@ == "Occupied"@) && final(self)@ == old(self)@,
            old(self)@.valid(coord) && old(self)@.at(coord) == Color::Empty ==> r is Ok && final(self)@ == old(self)@.put(coord, color),
    {
        if !self.coord_valid(&coord) {
            return Err("Out of bounds");
        }
        let pos = self.idx(coord);
        if self.tab[pos] != Color::Empty {
            return Err("Occupied");
        }
        self.tab.set(pos, color);
        Ok(())
    }

    /// Overwrites the cell at `coord`; a coordinate off the board is ignored.
    pub fn set(&mut self, coord: Coord, color: Color)
        requires
            old(self)@.wf(),
        ensures
            final(self)@ == if old(self)@.valid(coord) {
                old(self)@.put(coord, color)
            } else {
                old(self)@
            },
            final(self)@.wf(),
    {
        if self.coord_valid(&coord) {
            let idx = self.idx(coord);
            self.tab.set(idx, color);
        }
    }

    /// Overwrites every listed cell; coordinates off the board are ignored.
    pub fn push_many(&mut self, coords: &Vec<Coord>, color: Color)
        requires
            old(self)@.wf(),
        ensures
            final(self)@ == old(self)@.put_all(coords@, color),
            final(self)@.wf(),
    {
        let mut k: usize = 0;
        while k < coords.len()
            invariant
                k <= coords.len(),
                self@.wf(),
                self@.size == old(self)@.size,
                self@ == old(self)@.put_all(coords@.take(k as int), color),
            decreases coords.len() - k,
        {
            assert(coords@.take(k + 1).drop_last() =~= coords@.take(k as int));
            self.set(coords[k], color);
            k += 1;
        }
        assert(coords@.take(k as int) =~= coords@);
    }

    /// The cells next to `coord` that lie on the board, each with the colour it holds,
    /// in the order above, below, left, right.
    pub fn get_neighbors(&self, coord: &Coord) -> (r: Vec<Stone>)
        requires
            self@.wf(),
            coord.0 < usize::MAX,
            coord.1 < usize::MAX,
        ensures
            r@ == self@.neighbors(*coord),
    {
        let raw = neighbors_coords(coord);
        let mut out: Vec<Stone> = Vec::with_capacity(4);
        let mut k: usize = 0;
        while k < raw.len()
            invariant
                k <= raw.len(),
                self@.wf(),
                out@ == self@.stones_at(raw@.take(k as int)),
            decreases raw.len() - k,
        {
            assert(raw@.take(k + 1).drop_last() =~= raw@.take(k as int));
            let c = raw[k];
            if self.coord_valid(&c) {
                out.push(Stone { coord: c, color: *self.index(c) });
            }
            k += 1;
        }
        proof {
            assert(raw@.take(k as int) =~= raw@);
            self@.lemma_neighbors_of_raw(*coord);
        }
        out
    }

    /// Whether some cell next to the stone is empty.
    pub fn has_liberty(&self, stone: &Stone) -> (r: bool)
        requires
            self@.wf(),
            stone.coord.0 < usize::MAX,
            stone.coord.1 < usize::MAX,
        ensures
            r == exists|c: Coord|
                #[trigger] adjacent(stone.coord, c) && self@.valid(c) && self@.at(c)
                    == Color::Empty,
    {
        let around = self.get_neighbors(&stone.coord);
        proof {
            self@.lemma_neighbors(stone.coord);
        }
        let mut k: usize = 0;
        while k < around.len()
            invariant
                k <= around.len(),
                stone.coord.0 < usize::MAX,
                stone.coord.1 < usize::MAX,
                around@ == self@.neighbors(stone.coord),
                forall|j: int| 0 <= j < k ==> (#[trigger] around@[j]).color != Color::Empty,
            decreases around.len() - k,
        {
            if around[k].color == Color::Empty {
                proof {
                    self@.lemma_neighbors(stone.coord);
                    let s = self@.neighbors(stone.coord)[k as int];
                    assert(adjacent(stone.coord, s.coord) && self@.valid(s.coord) && self@.at(
                        s.coord,
                    ) == Color::Empty);
                }
                return true;
            }
            k += 1;
        }
        proof {
            assert forall|c: Coord|
                !(#[trigger] adjacent(stone.coord, c) && self@.valid(c) && self@.at(c)
                    == Color::Empty) by {
                if adjacent(stone.coord, c) && self@.valid(c) {
                    let s = Stone { coord: c, color: self@.at(c) };
                    assert(around@.contains(s));
                    let j = choose|j: int| 0 <= j < around@.len() && around@[j] == s;
                    assert(around@[j].color != Color::Empty);
                }
            }
        }
        false
    }
}

} // verus!
