//! The rules of play as mathematics: what a move does to a game, stated over the
//! game's content alone.

use crate::board::Position;
use crate::color::{Color, Coord, Player, Stone};
use crate::zobrist::{fingerprint, table_of};
use vstd::prelude::*;

verus! {

/// How a finished game ended.
#[derive(Debug, PartialEq, Eq, Clone, Copy, Structural)]
pub enum EndGame {
    /// The winner and the margin in points.
    WinnerByPoints(Player, usize),
    /// The winner, after the other side resigned.
    WinnerByResign(Player),
    Draw,
}

/// What the rules say of an attempt to place a stone.
pub enum Verdict {
    OutOfBounds,
    Occupied,
    Suicide,
    Ko,
    Legal,
}

impl Verdict {
    /// The reason reported with a refused move.
    pub open spec fn text(self) -> Option<Seq<char>> {
        match self {
            Verdict::OutOfBounds => Some("Out of bounds"@),
            Verdict::Occupied => Some("Occupied"@),
            Verdict::Suicide => Some("Suicide move"@),
            Verdict::Ko => Some("Ko: repeated position"@),
            Verdict::Legal => None,
        }
    }
}

/// The board after a stone of `color` is set at `c` and the opponent's groups without
/// liberties are taken off.
pub open spec fn placed(pos: Position, c: Coord, color: Color) -> Position {
    pos.put(c, color).without_dead(color.opponent())
}

/// The verdict on `who` playing at `c`: the coordinate must be on the board and empty;
/// after the opponent's captures the group of the new stone must have a liberty; and
/// the fingerprint of the resulting board must not occur in `plays`.
pub open spec fn verdict(
    pos: Position,
    plays: Seq<u64>,
    table: Seq<u64>,
    c: Coord,
    who: Player,
) -> Verdict {
    if !pos.valid(c) {
        Verdict::OutOfBounds
    } else if pos.at(c) != Color::Empty {
        Verdict::Occupied
    } else {
        let after = placed(pos, c, who.color());
        if after.dead(after.group(Stone { coord: c, color: who.color() })) {
            Verdict::Suicide
        } else if plays.contains(fingerprint(after.cells, table)) {
            Verdict::Ko
        } else {
            Verdict::Legal
        }
    }
}

/// `who` has a legal move somewhere on the board.
pub open spec fn has_legal_play(pos: Position, plays: Seq<u64>, table: Seq<u64>, who: Player) -> bool {
    exists|c: Coord| #[trigger] verdict(pos, plays, table, c, who) == Verdict::Legal
}

/// Neither side has a legal move.
pub open spec fn no_legal_plays(pos: Position, plays: Seq<u64>, table: Seq<u64>) -> bool {
    !has_legal_play(pos, plays, table, Player::Black) && !has_legal_play(
        pos,
        plays,
        table,
        Player::White,
    )
}

/// The result by area: the side with more points wins by the difference.
pub open spec fn points_outcome(pos: Position) -> EndGame {
    let b = pos.score(Player::Black);
    let w = pos.score(Player::White);
    if b > w {
        EndGame::WinnerByPoints(Player::Black, (b - w) as usize)
    } else if w > b {
        EndGame::WinnerByPoints(Player::White, (w - b) as usize)
    } else {
        EndGame::Draw
    }
}

/// Everything of a game that a move can change and an undo brings back.
pub struct State {
    pub cells: Seq<Color>,
    pub turn: Player,
    pub passes: u8,
    /// The fingerprints of the boards that committed moves left, oldest first.
    pub plays: Seq<u64>,
    pub black_captures: u32,
    pub white_captures: u32,
    pub resigned: Option<Player>,
    pub outcome: Option<EndGame>,
}

/// The content of a game: the board's side, its fingerprint table, the present state,
/// and the states to go back and forward to.
pub struct GameView {
    pub size: usize,
    pub table: Seq<u64>,
    pub now: State,
    pub history: Seq<State>,
    pub future: Seq<State>,
}

impl GameView {
    pub open spec fn board(self) -> Position {
        Position { size: self.size as nat, cells: self.now.cells }
    }

    pub open spec fn wf(self) -> bool {
        &&& self.board().wf()
        &&& self.size * self.size * 3 <= usize::MAX
        &&& self.table == table_of(self.size)
        &&& forall|i: int|
            0 <= i < self.history.len() ==> (#[trigger] self.history[i]).cells.len() == self.size
                * self.size
        &&& forall|i: int|
            0 <= i < self.future.len() ==> (#[trigger] self.future[i]).cells.len() == self.size
                * self.size
    }

    /// A new game: an empty board, Black to move, nothing played.
    pub open spec fn initial(size: usize) -> GameView {
        GameView {
            size,
            table: table_of(size),
            now: State {
                cells: Position::empty(size as nat).cells,
                turn: Player::Black,
                passes: 0,
                plays: Seq::empty(),
                black_captures: 0,
                white_captures: 0,
                resigned: None,
                outcome: None,
            },
            history: Seq::empty(),
            future: Seq::empty(),
        }
    }

    /// The verdict on the side to move playing at `c`.
    pub open spec fn verdict(self, c: Coord) -> Verdict {
        verdict(self.board(), self.now.plays, self.table, c, self.now.turn)
    }

    /// The game is over: two passes in a row, a resignation, or no legal move for
    /// either side.
    pub open spec fn is_over(self) -> bool {
        self.now.passes >= 2 || self.now.resigned is Some || no_legal_plays(
            self.board(),
            self.now.plays,
            self.table,
        )
    }

    /// How many stones the side to move takes by playing at `c`.
    pub open spec fn capture_gain(self, c: Coord) -> nat {
        self.board().put(c, self.now.turn.color()).captured_count(
            self.now.turn.color().opponent(),
        )
    }

    /// The capture totals can take what a legal move at `c` adds.
    pub open spec fn captures_fit(self, c: Coord) -> bool {
        self.verdict(c) == Verdict::Legal ==> (match self.now.turn {
            Player::Black => self.now.black_captures,
            Player::White => self.now.white_captures,
        }) + self.capture_gain(c) <= u32::MAX
    }

    /// The state that a legal move at `c` leaves, before the game's end is looked for.
    pub open spec fn committed(self, c: Coord) -> State {
        let after = placed(self.board(), c, self.now.turn.color());
        let gain = self.capture_gain(c);
        State {
            cells: after.cells,
            turn: self.now.turn.other(),
            passes: 0,
            plays: self.now.plays.push(fingerprint(after.cells, self.table)),
            black_captures: if self.now.turn == Player::Black {
                (self.now.black_captures + gain) as u32
            } else {
                self.now.black_captures
            },
            white_captures: if self.now.turn == Player::White {
                (self.now.white_captures + gain) as u32
            } else {
                self.now.white_captures
            },
            resigned: self.now.resigned,
            outcome: self.now.outcome,
        }
    }

    /// `st` with the result by area recorded.
    pub open spec fn scored(self, st: State) -> State {
        State {
            outcome: Some(points_outcome(Position { size: self.size as nat, cells: st.cells })),
            ..st
        }
    }

    /// `st`, with the result by area recorded if neither side has a legal move left.
    pub open spec fn settled(self, st: State) -> State {
        if no_legal_plays(Position { size: self.size as nat, cells: st.cells }, st.plays, self.table) {
            self.scored(st)
        } else {
            st
        }
    }

    /// The game with `st` as its present state, the old one put on the undo stack and
    /// the redo stack cleared.
    pub open spec fn advance(self, st: State) -> GameView {
        GameView { now: st, history: self.history.push(self.now), future: Seq::empty(), ..self }
    }

    /// The game after the side to move plays at `c`: unchanged unless the move is legal.
    pub open spec fn after_play(self, c: Coord) -> GameView {
        if self.verdict(c) == Verdict::Legal {
            self.advance(self.settled(self.committed(c)))
        } else {
            self
        }
    }

    /// The state after the side to move passes.
    pub open spec fn passed(self) -> State {
        let st = State {
            passes: (self.now.passes + 1) as u8,
            turn: self.now.turn.other(),
            ..self.now
        };
        if st.passes >= 2 {
            self.scored(st)
        } else {
            st
        }
    }

    pub open spec fn after_pass(self) -> GameView {
        self.advance(self.passed())
    }

    /// The state after the side to move resigns.
    pub open spec fn resigned(self) -> State {
        State {
            resigned: Some(self.now.turn),
            outcome: Some(EndGame::WinnerByResign(self.now.turn.other())),
            ..self.now
        }
    }

    pub open spec fn after_resign(self) -> GameView {
        self.advance(self.resigned())
    }

    /// One step back, if there is one: the present state goes on the redo stack.
    pub open spec fn after_undo(self) -> GameView {
        if self.history.len() > 0 {
            GameView {
                now: self.history.last(),
                history: self.history.drop_last(),
                future: self.future.push(self.now),
                ..self
            }
        } else {
            self
        }
    }

    /// One step forward again, if there is one: the present state goes on the undo stack.
    pub open spec fn after_redo(self) -> GameView {
        if self.future.len() > 0 {
            GameView {
                now: self.future.last(),
                history: self.history.push(self.now),
                future: self.future.drop_last(),
                ..self
            }
        } else {
            self
        }
    }
}

} // verus!
