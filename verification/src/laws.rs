//! Laws of the game, proved from the definitions of the rules.

use crate::board::{adjacent, Position};
use crate::color::{Color, Coord, Stone};
use crate::rules::{placed, GameView, Verdict};
use crate::tally::lemma_count_bound;
use crate::zobrist::fingerprint;
use vstd::prelude::*;

verus! {

/// The groups partition the cells: every cell of the board lies in its own group; a
/// group holds only cells of the board of its colour; it cannot be extended by an
/// adjacent cell of its colour; and two groups that share a cell are one group.
pub proof fn law_groups_partition(pos: Position, s: Stone, t: Stone)
    requires
        pos.wf(),
        pos.holds(s),
        pos.holds(t),
    ensures
        pos.group(s).contains(s),
        forall|x: Stone| #[trigger] pos.group(s).contains(x) ==> pos.holds(x) && x.color == s.color,
        forall|x: Stone, c: Coord|
            pos.group(s).contains(x) && #[trigger] adjacent(x.coord, c) && pos.valid(c) && pos.at(c)
                == s.color ==> pos.group(s).contains(Stone { coord: c, color: s.color }),
        (exists|x: Stone| pos.group(s).contains(x) && pos.group(t).contains(x)) ==> pos.group(s)
            == pos.group(t),
{
    pos.lemma_connected_self(s);
    assert forall|x: Stone| #[trigger] pos.group(s).contains(x) implies pos.holds(x) && x.color
        == s.color by {
        pos.lemma_group_holds(s, x);
    }
    assert forall|x: Stone, c: Coord|
        pos.group(s).contains(x) && #[trigger] adjacent(x.coord, c) && pos.valid(c) && pos.at(c)
            == s.color implies pos.group(s).contains(Stone { coord: c, color: s.color }) by {
        pos.lemma_connected_step(s, x.coord, c);
    }
    if exists|x: Stone| pos.group(s).contains(x) && pos.group(t).contains(x) {
        let x = choose|x: Stone| pos.group(s).contains(x) && pos.group(t).contains(x);
        pos.lemma_group_same(s, x);
        pos.lemma_group_same(t, x);
    }
}

/// A move is suicide exactly when, on the board from which the opponent's captured
/// stones have already been taken, the group of the new stone has no liberty. Such a
/// move leaves the game as it was, however many stones it would have captured.
pub proof fn law_suicide_after_captures(g: GameView, c: Coord)
    requires
        g.board().valid(c),
        g.board().at(c) == Color::Empty,
    ensures
        ({
            let color = g.now.turn.color();
            let after = placed(g.board(), c, color);
            after.dead(after.group(Stone { coord: c, color }))
        }) <==> g.verdict(c) == Verdict::Suicide,
        g.verdict(c) == Verdict::Suicide ==> g.after_play(c) == g,
{
}

/// A move whose resulting board has a fingerprint that the history already holds,
/// however long ago it was recorded, is refused and leaves the game as it was.
pub proof fn law_repeated_position_refused(g: GameView, c: Coord, i: int)
    requires
        g.board().valid(c),
        g.board().at(c) == Color::Empty,
        0 <= i < g.now.plays.len(),
        g.now.plays[i] == fingerprint(placed(g.board(), c, g.now.turn.color()).cells, g.table),
    ensures
        g.verdict(c) == Verdict::Ko || g.verdict(c) == Verdict::Suicide,
        g.after_play(c) == g,
{
    let h = fingerprint(placed(g.board(), c, g.now.turn.color()).cells, g.table);
    assert(g.now.plays.contains(h));
}

/// Moves, passes and resignations only add to the history of fingerprints: what it
/// holds, it keeps.
pub proof fn law_history_grows(g: GameView, c: Coord, i: int)
    requires
        0 <= i < g.now.plays.len(),
    ensures
        g.after_play(c).now.plays.len() >= g.now.plays.len(),
        g.after_play(c).now.plays[i] == g.now.plays[i],
        g.after_pass().now.plays == g.now.plays,
        g.after_resign().now.plays == g.now.plays,
{
}

/// An undo that takes something back, followed at once by a redo, gives back the
/// game as it was: board, turn, captures, history and both stacks. (An undo with
/// nothing to take back changes nothing, and the redo after it is then a redo of
/// its own; that case is left out unless there is nothing to redo either.)
pub proof fn law_undo_redo(g: GameView)
    requires
        g.history.len() > 0 || g.future.len() == 0,
    ensures
        g.after_undo().after_redo() == g,
{
    if g.history.len() > 0 {
        let u = g.after_undo();
        assert(u.future.last() == g.now);
        assert(u.future.drop_last() =~= g.future);
        assert(u.history.push(u.now) =~= g.history);
    }
}

/// A redo that plays something again, followed at once by an undo, gives back the
/// game as it was.
pub proof fn law_redo_undo(g: GameView)
    requires
        g.future.len() > 0 || g.history.len() == 0,
    ensures
        g.after_redo().after_undo() == g,
{
    if g.future.len() > 0 {
        let r = g.after_redo();
        assert(r.history.last() == g.now);
        assert(r.history.drop_last() =~= g.history);
        assert(r.future.push(r.now) =~= g.future);
    }
}

/// A move takes no more stones than the board has cells; so where both capture totals
/// have room for that many, every move can be played.
pub proof fn law_captures_have_room(g: GameView, c: Coord)
    requires
        g.wf(),
    ensures
        g.board().valid(c) ==> g.capture_gain(c) <= g.size * g.size,
        g.now.black_captures + g.size * g.size <= u32::MAX && g.now.white_captures + g.size
            * g.size <= u32::MAX ==> g.captures_fit(c),
{
    if g.board().valid(c) {
        let color = g.now.turn.color();
        g.board().lemma_put(c, color);
        lemma_count_bound(g.board().put(c, color).captured_flags(color.opponent()));
    }
}

/// A refused move changes nothing: not the board, the turn, the captures, the
/// history, nor the stacks for undo and redo.
pub proof fn law_refused_move_changes_nothing(g: GameView, c: Coord)
    requires
        g.verdict(c) != Verdict::Legal,
    ensures
        g.after_play(c) == g,
{
}

/// An accepted move, a pass and a resignation each put the state before them on the
/// undo stack, clear the redo stack, and can be taken back by one undo.
pub proof fn law_commit_can_be_undone(g: GameView, c: Coord)
    ensures
        g.verdict(c) == Verdict::Legal ==> g.after_play(c).future.len() == 0 && g.after_play(
            c,
        ).after_undo().now == g.now && g.after_play(c).after_undo().history == g.history,
        g.after_pass().future.len() == 0 && g.after_pass().after_undo().now == g.now
            && g.after_pass().after_undo().history == g.history,
        g.after_resign().future.len() == 0 && g.after_resign().after_undo().now == g.now
            && g.after_resign().after_undo().history == g.history,
        g.after_resign().is_over(),
{
    assert(g.history.push(g.now).drop_last() =~= g.history);
}

} // verus!
