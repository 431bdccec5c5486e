//! A game of Go: the board, whose turn it is, what was captured, the positions that
//! have occurred, and the stacks for undo and redo.

use crate::board::{copy_cells, Goban};
use crate::capture::coords_of;
use crate::color::{Color, Coord, Player, Stone};
use crate::rules::{
    has_legal_play, no_legal_plays, placed, verdict, EndGame, GameView, State, Verdict,
};
use crate::zobrist::{fingerprint, generate_zobrist_table, zobrist_hash_state};
use std::ops::Not;
use vstd::prelude::*;

verus! {

/// A move that a player can make.
#[derive(Debug, Clone, Copy)]
pub enum Move {
    Play(usize, usize),
    Pass,
    Resign,
}

/// What every move reports back.
#[derive(Debug)]
pub struct MoveResult {
    /// Whether the move was accepted.
    pub ok: bool,
    /// Why it was refused, if it was.
    pub reason: Option<String>,
    /// The cells row by row: 0 for Black, 1 for White, 2 for Empty.
    pub board: Vec<u8>,
    /// The side to move next.
    pub turn: Player,
    /// The stones captured so far by Black and by White.
    pub captures: (u32, u32),
    pub ko: Option<(usize, usize)>,
    pub is_over: bool,
}

/// A copy of everything that an undo has to bring back.
#[derive(Debug, Clone)]
pub struct Snapshot {
    goban_tab: Vec<Color>,
    turn: Player,
    passes: u8,
    plays: Vec<u64>,
    black_captures: u32,
    white_captures: u32,
    resigned: Option<Player>,
    outcome: Option<EndGame>,
}

impl View for Snapshot {
    type V = State;

    closed spec fn view(&self) -> State {
        State {
            cells: self.goban_tab@,
            turn: self.turn,
            passes: self.passes,
            plays: self.plays@,
            black_captures: self.black_captures,
            white_captures: self.white_captures,
            resigned: self.resigned,
            outcome: self.outcome,
        }
    }
}

/// A game in progress or finished.
#[derive(Debug, Clone)]
pub struct Game {
    goban: Goban,
    turn: Player,
    passes: u8,
    plays: Vec<u64>,
    resigned: Option<Player>,
    outcome: Option<EndGame>,
    zobrist_table: Vec<u64>,
    black_captures: u32,
    white_captures: u32,
    history: Vec<Snapshot>,
    future: Vec<Snapshot>,
}

impl View for Game {
    type V = GameView;

    closed spec fn view(&self) -> GameView {
        GameView {
            size: self.goban.size,
            table: self.zobrist_table@,
            now: State {
                cells: self.goban.tab@,
                turn: self.turn,
                passes: self.passes,
                plays: self.plays@,
                black_captures: self.black_captures,
                white_captures: self.white_captures,
                resigned: self.resigned,
                outcome: self.outcome,
            },
            history: self.history@.map_values(|s: Snapshot| s@),
            future: self.future@.map_values(|s: Snapshot| s@),
        }
    }
}

/// The cells as numbers: 0 for Black, 1 for White, 2 for Empty.
pub open spec fn cell_bytes(cells: Seq<Color>) -> Seq<u8> {
    Seq::new(cells.len(), |i: int| cells[i].slot() as u8)
}

/// The reported reason is the expected text, or both are absent.
pub open spec fn reason_is(reason: Option<String>, text: Option<Seq<char>>) -> bool {
    match (reason, text) {
        (Some(s), Some(t)) => s@ == t,
        (None, None) => true,
        _ => false,
    }
}

impl MoveResult {
    /// The result reports the game as it stands, with the given reason for a refusal
    /// (none for an accepted move).
    pub open spec fn reports(&self, game: GameView, text: Option<Seq<char>>) -> bool {
        &&& self.ok == (text is None)
        &&& reason_is(self.reason, text)
        &&& self.board@ == cell_bytes(game.now.cells)
        &&& self.turn == game.now.turn
        &&& self.captures == (game.now.black_captures, game.now.white_captures)
        &&& self.ko is None
        &&& self.is_over == game.is_over()
    }
}

/// A fresh vector with the same words.
pub fn copy_words(words: &Vec<u64>) -> (r: Vec<u64>)
    ensures
        r@ == words@,
{
    let mut out: Vec<u64> = Vec::with_capacity(words.len());
    let mut i: usize = 0;
    while i < words.len()
        invariant
            i <= words.len(),
            out@ == words@.take(i as int),
        decreases words.len() - i,
    {
        out.push(words[i]);
        i += 1;
        assert(out@ =~= words@.take(i as int));
    }
    assert(words@.take(i as int) =~= words@);
    out
}

/// Whether `word` occurs in `words`.
pub fn contains_word(words: &Vec<u64>, word: u64) -> (r: bool)
    ensures
        r == words@.contains(word),
{
    let mut i: usize = 0;
    while i < words.len()
        invariant
            i <= words.len(),
            forall|j: int| 0 <= j < i ==> words@[j] != word,
        decreases words.len() - i,
    {
        if words[i] == word {
            return true;
        }
        i += 1;
    }
    false
}

impl Game {
    /// The board, the table and the saved states fit together.
    pub open spec fn wf(&self) -> bool {
        self@.wf()
    }

    /// A new game on an empty board of the given side, Black to move.
    pub fn new(size: usize) -> (r: Game)
        requires
            size * size * 3 <= usize::MAX,
        ensures
            r@ == GameView::initial(size),
            r.wf(),
    {
        assert(size * size <= size * size * 3) by (nonlinear_arith);
        let zobrist_table = generate_zobrist_table(size);
        let game = Game {
            goban: Goban::new(size),
            turn: Player::Black,
            passes: 0,
            plays: Vec::new(),
            resigned: None,
            outcome: None,
            zobrist_table,
            black_captures: 0,
            white_captures: 0,
            history: Vec::new(),
            future: Vec::new(),
        };
        proof {
            assert(game@.history =~= Seq::empty());
            assert(game@.future =~= Seq::empty());
            assert(game@.now.plays =~= Seq::empty());
        }
        game
    }

    pub fn size(&self) -> (r: usize)
        ensures
            r == self@.size,
    {
        self.goban.size
    }

    /// The cells row by row: 0 for Black, 1 for White, 2 for Empty.
    pub fn get_board(&self) -> (r: Vec<u8>)
        ensures
            r@ == cell_bytes(self@.now.cells),
    {
        let mut out: Vec<u8> = Vec::with_capacity(self.goban.tab.len());
        let mut i: usize = 0;
        while i < self.goban.tab.len()
            invariant
                i <= self.goban.tab@.len(),
                out@.len() == i,
                forall|j: int| 0 <= j < i ==> #[trigger] out@[j] == self.goban.tab@[j].slot() as u8,
            decreases self.goban.tab@.len() - i,
        {
            out.push(self.goban.tab[i].to_u8());
            i += 1;
        }
        assert(out@ =~= cell_bytes(self@.now.cells));
        out
    }

    /// The side to move.
    pub fn get_turn(&self) -> (r: Player)
        ensures
            r == self@.now.turn,
    {
        self.turn
    }

    /// The side to move as a number: 0 for Black, 1 for White.
    pub fn turn_num(&self) -> (r: u8)
        ensures
            r == match self@.now.turn {
                Player::Black => 0u8,
                Player::White => 1u8,
            },
    {
        match self.turn {
            Player::Black => 0,
            Player::White => 1,
        }
    }

    /// The stones captured so far by Black and by White.
    pub fn get_capture_counts(&self) -> (r: (u32, u32))
        ensures
            r == (self@.now.black_captures, self@.now.white_captures),
    {
        (self.black_captures, self.white_captures)
    }

    /// The recorded result, if the game has one.
    pub fn get_outcome(&self) -> (r: Option<EndGame>)
        ensures
            r == self@.now.outcome,
    {
        self.outcome
    }

    /// The area scores of Black and White on the present board.
    pub fn get_scores(&self) -> (r: (usize, usize))
        requires
            self.wf(),
        ensures
            r.0 == self@.board().score(Player::Black),
            r.1 == self@.board().score(Player::White),
    {
        self.goban.count_points()
    }

    /// The fingerprint of the present board.
    pub fn goban_hash(&self) -> (r: u64)
        requires
            self.wf(),
        ensures
            r == fingerprint(self@.now.cells, self@.table),
    {
        assert(self.goban.size * self.goban.size * 3 == 3 * (self.goban.size * self.goban.size))
            by (nonlinear_arith);
        zobrist_hash_state(&self.goban, self.zobrist_table.as_slice())
    }

    /// Whether `who` may play at (`row`, `col`): tried on a copy of the board, which is
    /// then thrown away.
    pub fn is_legal_move_at(&self, row: usize, col: usize, who: Player) -> (legal: bool)
        requires
            self.wf(),
        ensures
            legal == (verdict(self@.board(), self@.now.plays, self@.table, (row, col), who)
                == Verdict::Legal),
    {
        let coord = (row, col);
        let color = who.color();
        let ghost pos = self@.board();
        let mut scratch = self.goban.clone();
        match scratch.push(coord, color) {
            Err(_) => false,
            Ok(_) => {
                let ghost set = scratch@;
                proof {
                    pos.lemma_put(coord, color);
                }
                let _ = scratch.remove_dead(who.not().color());
                let stone = Stone { coord, color };
                proof {
                    pos.lemma_put(coord, color);
                    set.lemma_without_dead(color.opponent());
                    pos.lemma_size_fits();
                    assert(scratch@ == placed(pos, coord, color));
                    assert(scratch@.holds(stone));
                }
                let group = scratch.dfs(&stone);
                proof {
                    assert forall|t: int| 0 <= t < group@.len() implies (#[trigger] group@[t]).coord.0
                        < usize::MAX && group@[t].coord.1 < usize::MAX by {
                        scratch@.lemma_group_members(group@, t);
                    }
                }
                if scratch.is_string_dead(&group) {
                    false
                } else {
                    assert(self.goban.size * self.goban.size * 3 == 3 * (self.goban.size
                        * self.goban.size)) by (nonlinear_arith);
                    let hash = zobrist_hash_state(&scratch, self.zobrist_table.as_slice());
                    !contains_word(&self.plays, hash)
                }
            },
        }
    }

    /// Whether `who` has a legal move anywhere on the board.
    pub fn has_any_legal_play_for(&self, who: Player) -> (r: bool)
        requires
            self.wf(),
        ensures
            r == has_legal_play(self@.board(), self@.now.plays, self@.table, who),
    {
        let size = self.goban.size;
        let ghost pos = self@.board();
        let ghost plays = self@.now.plays;
        let ghost table = self@.table;
        let mut r: usize = 0;
        while r < size
            invariant
                r <= size,
                size == self.goban.size,
                self.wf(),
                pos == self@.board(),
                plays == self@.now.plays,
                table == self@.table,
                forall|d: Coord|
                    d.0 < r ==> #[trigger] verdict(pos, plays, table, d, who) != Verdict::Legal,
            decreases size - r,
        {
            let mut c: usize = 0;
            while c < size
                invariant
                    r < size,
                    c <= size,
                    size == self.goban.size,
                    self.wf(),
                    pos == self@.board(),
                    plays == self@.now.plays,
                    table == self@.table,
                    forall|d: Coord|
                        (d.0 < r || (d.0 == r && d.1 < c)) ==> #[trigger] verdict(
                            pos,
                            plays,
                            table,
                            d,
                            who,
                        ) != Verdict::Legal,
                decreases size - c,
            {
                if *self.goban.index((r, c)) == Color::Empty {
                    if self.is_legal_move_at(r, c, who) {
                        assert(verdict(pos, plays, table, (r, c), who) == Verdict::Legal);
                        return true;
                    }
                }
                c += 1;
            }
            r += 1;
        }
        proof {
            assert forall|d: Coord| #[trigger]
                verdict(pos, plays, table, d, who) != Verdict::Legal by {
                if d.0 < size {
                } else {
                    assert(!pos.valid(d));
                }
            }
        }
        false
    }

    /// Whether neither side has a legal move left.
    pub fn no_more_legal_plays(&self) -> (r: bool)
        requires
            self.wf(),
        ensures
            r == no_legal_plays(self@.board(), self@.now.plays, self@.table),
    {
        !self.has_any_legal_play_for(Player::Black) && !self.has_any_legal_play_for(Player::White)
    }

    /// Whether the game is over: two passes in a row, a resignation, or no legal move
    /// left for either side.
    pub fn is_over(&self) -> (r: bool)
        requires
            self.wf(),
        ensures
            r == self@.is_over(),
    {
        self.passes >= 2 || self.resigned.is_some() || self.no_more_legal_plays()
    }

    /// Records the result by area of the present board.
    pub fn compute_points_outcome(&mut self)
        requires
            old(self).wf(),
        ensures
            final(self)@ == (GameView { now: old(self)@.scored(old(self)@.now), ..old(self)@ }),
            final(self).wf(),
    {
        let (b, w) = self.goban.count_points();
        if b > w {
            self.outcome = Some(EndGame::WinnerByPoints(Player::Black, b - w));
        } else if w > b {
            self.outcome = Some(EndGame::WinnerByPoints(Player::White, w - b));
        } else {
            self.outcome = Some(EndGame::Draw);
        }
    }

    /// A copy of the present state.
    pub fn snapshot(&self) -> (r: Snapshot)
        ensures
            r@ == self@.now,
    {
        Snapshot {
            goban_tab: copy_cells(&self.goban.tab),
            turn: self.turn,
            passes: self.passes,
            plays: copy_words(&self.plays),
            black_captures: self.black_captures,
            white_captures: self.white_captures,
            resigned: self.resigned,
            outcome: self.outcome,
        }
    }

    /// Makes a saved state the present one.
    pub fn restore(&mut self, snap: Snapshot)
        requires
            old(self).wf(),
            snap@.cells.len() == old(self)@.size * old(self)@.size,
        ensures
            final(self)@ == (GameView { now: snap@, ..old(self)@ }),
            final(self).wf(),
    {
        self.goban.tab = snap.goban_tab;
        self.turn = snap.turn;
        self.passes = snap.passes;
        self.plays = snap.plays;
        self.black_captures = snap.black_captures;
        self.white_captures = snap.white_captures;
        self.resigned = snap.resigned;
        self.outcome = snap.outcome;
    }
}

/// The content of a game as it is handed out and taken in again.
#[derive(Debug, Clone)]
pub struct GameState {
    pub size: usize,
    pub board: Vec<Color>,
    pub turn: Player,
    pub passes: u8,
    pub plays: Vec<u64>,
    pub black_captures: u32,
    pub white_captures: u32,
    pub resigned: Option<Player>,
    pub outcome: Option<EndGame>,
}

impl GameState {
    /// The state that the record describes.
    pub open spec fn state(&self) -> State {
        State {
            cells: self.board@,
            turn: self.turn,
            passes: self.passes,
            plays: self.plays@,
            black_captures: self.black_captures,
            white_captures: self.white_captures,
            resigned: self.resigned,
            outcome: self.outcome,
        }
    }
}

/// Why a handed-in state was refused.
#[derive(Debug, PartialEq, Eq, Clone, Copy, Structural)]
pub enum ImportError {
    /// The state is for a board of another side length.
    SizeMismatch,
    /// The number of cells is not the square of the side length.
    MalformedBoard,
}

impl ImportError {
    /// The error in words.
    pub fn message(&self) -> (r: String)
        ensures
            r@ == match self {
                ImportError::SizeMismatch => "Size mismatch"@,
                ImportError::MalformedBoard => "Malformed board"@,
            },
    {
        match self {
            ImportError::SizeMismatch => "Size mismatch".to_owned(),
            ImportError::MalformedBoard => "Malformed board".to_owned(),
        }
    }
}

/// The stones of one colour at the listed coordinates.
pub open spec fn stones_of(coords: Seq<Coord>, color: Color) -> Seq<Stone> {
    coords.map_values(|c: Coord| Stone { coord: c, color })
}

impl Game {
    /// Takes the groups of `who` that have no liberty off the board and returns how
    /// many stones that were.
    pub fn remove_captured_stones_for(&mut self, who: Player) -> (count: usize)
        requires
            old(self).wf(),
        ensures
            final(self)@ == (GameView {
                now: State {
                    cells: old(self)@.board().without_dead(who.color()).cells,
                    ..old(self)@.now
                },
                ..old(self)@
            }),
            final(self).wf(),
            count == old(self)@.board().captured_count(who.color()),
    {
        self.goban.remove_dead(who.color())
    }

    /// The report on the game as it stands.
    fn report(&self, reason: Option<String>, is_over: bool) -> (res: MoveResult)
        ensures
            res.ok == (reason is None),
            res.reason == reason,
            res.board@ == cell_bytes(self@.now.cells),
            res.turn == self@.now.turn,
            res.captures == (self@.now.black_captures, self@.now.white_captures),
            res.ko is None,
            res.is_over == is_over,
    {
        MoveResult {
            ok: reason.is_none(),
            reason,
            board: self.get_board(),
            turn: self.turn,
            captures: (self.black_captures, self.white_captures),
            ko: None,
            is_over,
        }
    }

    /// The side to move plays at (`row`, `col`).
    ///
    /// The move is refused, and the game left as it was, if the coordinate is off the
    /// board or taken, if the new stone's group has no liberty once the opponent's
    /// captured stones are off, or if the resulting board has occurred before. An
    /// accepted move can be undone; it ends the game, by area, if it leaves neither side
    /// a legal move. A game that is over still takes moves.
    pub fn play_move(&mut self, row: usize, col: usize) -> (res: MoveResult)
        requires
            old(self).wf(),
            old(self)@.captures_fit((row, col)),
        ensures
            final(self)@ == old(self)@.after_play((row, col)),
            final(self).wf(),
            res.reports(final(self)@, old(self)@.verdict((row, col)).text()),
    {
        let color = self.turn.color();
        let coord = (row, col);
        let ghost g0 = self@;
        let ghost pos = g0.board();
        let before = self.snapshot();
        let mut reason: Option<String> = None;
        match self.goban.push(coord, color) {
            Err(e) => {
                reason = Some(e.to_owned());
                assert(self@ == g0);
            },
            Ok(_) => {
                let ghost set = self.goban@;
                proof {
                    pos.lemma_put(coord, color);
                }
                let captured_opp = self.remove_captured_stones_for(self.turn.not());
                let stone = Stone { coord, color };
                proof {
                    set.lemma_without_dead(color.opponent());
                    pos.lemma_size_fits();
                    assert(self.goban@ == placed(pos, coord, color));
                    assert(self.goban@.holds(stone));
                }
                let group = self.goban.dfs(&stone);
                proof {
                    assert forall|t: int| 0 <= t < group@.len() implies (#[trigger] group@[t]).coord.0
                        < usize::MAX && group@[t].coord.1 < usize::MAX by {
                        self.goban@.lemma_group_members(group@, t);
                    }
                }
                if self.goban.is_string_dead(&group) {
                    reason = Some("Suicide move".to_owned());
                    self.restore(before);
                    assert(self@ == g0);
                } else {
                    let hash = self.goban_hash();
                    if contains_word(&self.plays, hash) {
                        reason = Some("Ko: repeated position".to_owned());
                        self.restore(before);
                        assert(self@ == g0);
                    } else {
                        assert(g0.verdict(coord) == Verdict::Legal);
                        let ghost old_history = self.history@;
                        self.history.push(before);
                        self.future.clear();
                        self.plays.push(hash);
                        if self.turn == Player::Black {
                            self.black_captures += captured_opp as u32;
                        } else {
                            self.white_captures += captured_opp as u32;
                        }
                        self.turn = self.turn.not();
                        self.passes = 0;
                        proof {
                            assert(self.history@.map_values(|s: Snapshot| s@) =~= old_history.map_values(
                                |s: Snapshot| s@,
                            ).push(g0.now));
                            assert(self.future@.map_values(|s: Snapshot| s@) =~= Seq::<State>::empty());
                            assert(self@.now == g0.committed(coord));
                            assert(self@ == g0.advance(g0.committed(coord)));
                        }
                        if self.no_more_legal_plays() {
                            self.compute_points_outcome();
                        }
                        assert(self@ == g0.after_play(coord));
                    }
                }
            },
        }
        let over = self.is_over();
        self.report(reason, over)
    }

    /// The side to move passes. After two passes in a row the game is over and is
    /// scored by area.
    pub fn pass(&mut self) -> (res: MoveResult)
        requires
            old(self).wf(),
            old(self)@.now.passes < u8::MAX,
        ensures
            final(self)@ == old(self)@.after_pass(),
            final(self).wf(),
            res.reports(final(self)@, None),
    {
        let ghost g0 = self@;
        let ghost old_history = self.history@;
        let snap = self.snapshot();
        self.history.push(snap);
        self.future.clear();
        self.passes += 1;
        self.turn = self.turn.not();
        proof {
            assert(self.history@.map_values(|s: Snapshot| s@) =~= old_history.map_values(
                |s: Snapshot| s@,
            ).push(g0.now));
            assert(self.future@.map_values(|s: Snapshot| s@) =~= Seq::<State>::empty());
        }
        if self.passes >= 2 {
            self.compute_points_outcome();
        }
        assert(self@ == g0.after_pass());
        let over = self.is_over();
        self.report(None, over)
    }

    /// The side to move resigns: the other side wins and the game is over.
    pub fn resign(&mut self) -> (res: MoveResult)
        requires
            old(self).wf(),
        ensures
            final(self)@ == old(self)@.after_resign(),
            final(self).wf(),
            res.reports(final(self)@, None),
    {
        let ghost g0 = self@;
        let ghost old_history = self.history@;
        let snap = self.snapshot();
        self.history.push(snap);
        self.future.clear();
        self.resigned = Some(self.turn);
        self.outcome = Some(EndGame::WinnerByResign(self.turn.not()));
        proof {
            assert(self.history@.map_values(|s: Snapshot| s@) =~= old_history.map_values(
                |s: Snapshot| s@,
            ).push(g0.now));
            assert(self.future@.map_values(|s: Snapshot| s@) =~= Seq::<State>::empty());
            assert(self@ == g0.after_resign());
        }
        self.report(None, true)
    }

    /// Takes back the last move, pass or resignation, if there is one.
    pub fn undo(&mut self) -> (res: MoveResult)
        requires
            old(self).wf(),
        ensures
            final(self)@ == old(self)@.after_undo(),
            final(self).wf(),
            res.reports(final(self)@, None),
    {
        let ghost g0 = self@;
        let ghost old_history = self.history@;
        match self.history.pop() {
            Some(prev) => {
                let cur = self.snapshot();
                self.future.push(cur);
                proof {
                    let last = old_history.len() - 1;
                    assert(g0.history[last] == prev@);
                    assert(self.history@.map_values(|s: Snapshot| s@) =~= g0.history.drop_last());
                    assert(self.future@.map_values(|s: Snapshot| s@) =~= g0.future.push(g0.now));
                }
                self.restore(prev);
                assert(self@ == g0.after_undo());
            },
            None => {},
        }
        let over = self.is_over();
        self.report(None, over)
    }

    /// Plays again what the last undo took back, if nothing was played since.
    pub fn redo(&mut self) -> (res: MoveResult)
        requires
            old(self).wf(),
        ensures
            final(self)@ == old(self)@.after_redo(),
            final(self).wf(),
            res.reports(final(self)@, None),
    {
        let ghost g0 = self@;
        let ghost old_future = self.future@;
        match self.future.pop() {
            Some(next) => {
                let cur = self.snapshot();
                self.history.push(cur);
                proof {
                    let last = old_future.len() - 1;
                    assert(g0.future[last] == next@);
                    assert(self.future@.map_values(|s: Snapshot| s@) =~= g0.future.drop_last());
                    assert(self.history@.map_values(|s: Snapshot| s@) =~= g0.history.push(g0.now));
                }
                self.restore(next);
                assert(self@ == g0.after_redo());
            },
            None => {},
        }
        let over = self.is_over();
        self.report(None, over)
    }

    /// The stone at (`row`, `col`) with its group and the group's liberties, or nothing
    /// if the cell is empty. The group starts with the coordinate asked for.
    pub fn get_group_and_liberties(&self, row: usize, col: usize) -> (r: Option<
        (Color, Vec<Coord>, Vec<Coord>),
    >)
        requires
            self.wf(),
            self@.board().valid((row, col)),
        ensures
            self@.board().at((row, col)) == Color::Empty ==> r is None,
            self@.board().at((row, col)) != Color::Empty ==> (r matches Some((color, group, libs))
                && {
                let stone = Stone { coord: (row, col), color };
                &&& color == self@.board().at((row, col))
                &&& group@.len() > 0
                &&& group@[0] == (row, col)
                &&& group@.no_duplicates()
                &&& stones_of(group@, color).to_set() == self@.board().group(stone)
                &&& libs@.no_duplicates()
                &&& libs@.to_set() == self@.board().liberties(self@.board().group(stone))
            }),
    {
        let color = *self.goban.index((row, col));
        if color == Color::Empty {
            return None;
        }
        let stone = Stone { coord: (row, col), color };
        proof {
            self.goban@.lemma_size_fits();
        }
        let group = self.goban.dfs(&stone);
        proof {
            assert forall|t: int| 0 <= t < group@.len() implies (#[trigger] group@[t]).coord.0
                < usize::MAX && group@[t].coord.1 < usize::MAX && group@[t].color == color by {
                self.goban@.lemma_group_members(group@, t);
            }
        }
        let libs = self.goban.group_liberties(&group);
        let group_vec = coords_of(&group);
        proof {
            assert(stones_of(group_vec@, color) =~= group@);
            assert forall|i: int, j: int| 0 <= i < j < group_vec@.len() implies group_vec@[i]
                != group_vec@[j] by {
                assert(group@[i] != group@[j]);
            }
        }
        Some((color, group_vec, libs))
    }

    /// The game's present state, as a record of its own.
    pub fn export_state(&self) -> (st: GameState)
        ensures
            st.size == self@.size,
            st.state() == self@.now,
    {
        GameState {
            size: self.goban.size,
            board: copy_cells(&self.goban.tab),
            turn: self.turn,
            passes: self.passes,
            plays: copy_words(&self.plays),
            black_captures: self.black_captures,
            white_captures: self.white_captures,
            resigned: self.resigned,
            outcome: self.outcome,
        }
    }

    /// Puts a handed-in state in the place of the present one. A state for another
    /// side length, or with a wrong number of cells, is refused and the game left as
    /// it was. The stacks for undo and redo stay.
    pub fn import_state(&mut self, st: GameState) -> (r: Result<(), ImportError>)
        requires
            old(self).wf(),
        ensures
            st.size != old(self)@.size ==> r == Err::<(), ImportError>(ImportError::SizeMismatch)
                && final(self)@ == old(self)@,
            st.size == old(self)@.size && st.board@.len() != st.size * st.size ==> r == Err::<
                (),
                ImportError,
            >(ImportError::MalformedBoard) && final(self)@ == old(self)@,
            st.size == old(self)@.size && st.board@.len() == st.size * st.size ==> r is Ok
                && final(self)@ == (GameView { now: st.state(), ..old(self)@ }),
            final(self).wf(),
    {
        if st.size != self.goban.size {
            return Err(ImportError::SizeMismatch);
        }
        if st.board.len() != self.goban.size * self.goban.size {
            return Err(ImportError::MalformedBoard);
        }
        self.goban.tab = st.board;
        self.turn = st.turn;
        self.passes = st.passes;
        self.plays = st.plays;
        self.black_captures = st.black_captures;
        self.white_captures = st.white_captures;
        self.resigned = st.resigned;
        self.outcome = st.outcome;
        Ok(())
    }
}

} // verus!
