use go_engine::{
    generate_zobrist_table, splitmix64, zobrist_hash_state, Color, EndGame, Game, GameState, Goban,
    ImportError, Move, Player,
};

fn cell(board: &Vec<u8>, size: usize, r: usize, c: usize) -> u8 {
    board[r * size + c]
}

fn play_all(game: &mut Game, moves: &[(usize, usize)]) {
    for (r, c) in moves {
        let res = game.play_move(*r, *c);
        assert!(res.ok, "move ({}, {}) was refused: {:?}", r, c, res.reason);
    }
}

#[test]
fn new_game_is_empty_with_black_to_move() {
    let game = Game::new(5);
    assert_eq!(game.size(), 5);
    assert_eq!(game.get_board(), vec![2u8; 25]);
    assert_eq!(game.get_turn(), Player::Black);
    assert_eq!(game.turn_num(), 0);
    assert_eq!(game.get_capture_counts(), (0, 0));
    assert_eq!(game.get_outcome(), None);
    assert!(!game.is_over());
}

#[test]
fn empty_nine_by_nine_scores_nothing_and_is_a_draw() {
    let mut game = Game::new(9);
    assert_eq!(game.get_scores(), (0, 0));
    game.compute_points_outcome();
    assert_eq!(game.get_outcome(), Some(EndGame::Draw));
    let mut passed = Game::new(9);
    let first = passed.pass();
    assert!(first.ok);
    assert!(!first.is_over);
    assert_eq!(passed.get_outcome(), None);
    let second = passed.pass();
    assert!(second.is_over);
    assert_eq!(passed.get_scores(), (0, 0));
    assert_eq!(passed.get_outcome(), Some(EndGame::Draw));
}

#[test]
fn capture_on_five_by_five() {
    let mut game = Game::new(5);
    play_all(&mut game, &[(0, 1), (1, 1), (1, 0), (4, 4), (1, 2), (4, 3)]);
    assert_eq!(cell(&game.get_board(), 5, 1, 1), 1);
    let res = game.play_move(2, 1);
    assert!(res.ok);
    assert_eq!(res.reason, None);
    assert_eq!(cell(&res.board, 5, 1, 1), 2);
    assert_eq!(cell(&res.board, 5, 2, 1), 0);
    assert_eq!(res.captures, (1, 0));
    assert_eq!(res.turn, Player::White);
    assert_eq!(res.ko, None);
    assert!(!res.is_over);
    assert_eq!(game.get_capture_counts(), (1, 0));
    assert_eq!(game.get_board(), res.board);
    assert_eq!(game.get_scores(), (6, 2));
}

#[test]
fn resignation_ends_the_game_for_the_other_side() {
    let mut game = Game::new(9);
    let res = game.resign();
    assert!(res.ok);
    assert!(res.is_over);
    assert_eq!(res.turn, Player::Black);
    assert_eq!(game.get_outcome(), Some(EndGame::WinnerByResign(Player::White)));
    assert!(game.is_over());
}

#[test]
fn white_resigning_lets_black_win() {
    let mut game = Game::new(5);
    play_all(&mut game, &[(2, 2)]);
    let res = game.resign();
    assert!(res.is_over);
    assert_eq!(game.get_outcome(), Some(EndGame::WinnerByResign(Player::Black)));
}

#[test]
fn out_of_bounds_move_is_refused() {
    let mut game = Game::new(5);
    let res = game.play_move(5, 0);
    assert!(!res.ok);
    assert_eq!(res.reason, Some("Out of bounds".to_string()));
    assert_eq!(res.turn, Player::Black);
    assert_eq!(res.board, vec![2u8; 25]);
    let again = game.play_move(0, 9);
    assert_eq!(again.reason, Some("Out of bounds".to_string()));
}

#[test]
fn occupied_cell_is_refused() {
    let mut game = Game::new(5);
    play_all(&mut game, &[(2, 2)]);
    let before = game.get_board();
    let res = game.play_move(2, 2);
    assert!(!res.ok);
    assert_eq!(res.reason, Some("Occupied".to_string()));
    assert_eq!(res.turn, Player::White);
    assert_eq!(game.get_board(), before);
}

#[test]
fn suicide_is_refused_and_nothing_changes() {
    let mut game = Game::new(5);
    play_all(&mut game, &[(4, 4), (0, 1), (4, 3), (1, 0)]);
    let before = game.export_state();
    let res = game.play_move(0, 0);
    assert!(!res.ok);
    assert_eq!(res.reason, Some("Suicide move".to_string()));
    assert_eq!(res.turn, Player::Black);
    assert_eq!(cell(&res.board, 5, 0, 0), 2);
    let after = game.export_state();
    assert_eq!(after.board, before.board);
    assert_eq!(after.plays, before.plays);
    assert_eq!(after.turn, before.turn);
    assert_eq!(after.passes, before.passes);
}

#[test]
fn capturing_move_without_other_liberty_is_no_suicide() {
    let mut game = Game::new(5);
    play_all(&mut game, &[(0, 1), (0, 2), (1, 0), (1, 3), (2, 1), (2, 2), (1, 2)]);
    let res = game.play_move(1, 1);
    assert!(res.ok);
    assert_eq!(cell(&res.board, 5, 1, 1), 1);
    assert_eq!(cell(&res.board, 5, 1, 2), 2);
    assert_eq!(res.captures, (0, 1));
}

#[test]
fn retaking_a_ko_at_once_is_refused() {
    let mut game = Game::new(5);
    play_all(&mut game, &[(0, 1), (0, 2), (1, 0), (1, 3), (2, 1), (2, 2), (1, 2), (1, 1)]);
    let before = game.export_state();
    let res = game.play_move(1, 2);
    assert!(!res.ok);
    assert_eq!(res.reason, Some("Ko: repeated position".to_string()));
    assert_eq!(res.turn, Player::Black);
    assert_eq!(res.captures, (0, 1));
    let after = game.export_state();
    assert_eq!(after.board, before.board);
    assert_eq!(after.plays, before.plays);
}

#[test]
fn repeated_position_is_refused_after_moves_elsewhere() {
    let mut game = Game::new(5);
    play_all(&mut game, &[(0, 1), (0, 2), (1, 0), (1, 3), (2, 1), (2, 2), (1, 2), (1, 1)]);
    // two moves elsewhere: the retake then gives a board that is new, and is accepted
    play_all(&mut game, &[(4, 0), (4, 4)]);
    let retake = game.play_move(1, 2);
    assert!(retake.ok);
    assert_eq!(retake.captures, (1, 1));
    // white taking back would give the board that stood before the retake
    let before = game.export_state();
    let back = game.play_move(1, 1);
    assert!(!back.ok);
    assert_eq!(back.reason, Some("Ko: repeated position".to_string()));
    assert_eq!(back.turn, Player::White);
    assert_eq!(game.export_state().board, before.board);
    assert_eq!(game.export_state().plays, before.plays);
}

#[test]
fn a_fingerprint_from_long_ago_still_forbids_the_move() {
    let mut game = Game::new(5);
    play_all(&mut game, &[(0, 0), (4, 4), (0, 2), (4, 2)]);
    let mut probe = game.clone();
    play_all(&mut probe, &[(2, 2)]);
    let target = probe.goban_hash();
    let mut st = game.export_state();
    assert!(!st.plays.contains(&target));
    st.plays.insert(0, target);
    assert_eq!(game.import_state(st), Ok(()));
    let res = game.play_move(2, 2);
    assert!(!res.ok);
    assert_eq!(res.reason, Some("Ko: repeated position".to_string()));
    assert_eq!(cell(&res.board, 5, 2, 2), 2);
    assert_eq!(res.turn, Player::Black);
    let other = game.play_move(2, 3);
    assert!(other.ok);
}

#[test]
fn pass_flips_the_turn_and_counts() {
    let mut game = Game::new(5);
    let res = game.pass();
    assert!(res.ok);
    assert_eq!(res.turn, Player::White);
    assert_eq!(game.turn_num(), 1);
    assert_eq!(game.export_state().passes, 1);
    play_all(&mut game, &[(2, 2)]);
    assert_eq!(game.export_state().passes, 0);
}

#[test]
fn two_passes_score_the_board() {
    let mut game = Game::new(5);
    play_all(&mut game, &[(0, 1), (1, 1), (1, 0), (4, 4), (1, 2), (4, 3), (2, 1)]);
    game.pass();
    let res = game.pass();
    assert!(res.is_over);
    assert_eq!(game.get_outcome(), Some(EndGame::WinnerByPoints(Player::Black, 4)));
}

#[test]
fn white_wins_by_points() {
    let mut game = Game::new(3);
    play_all(&mut game, &[(0, 0), (0, 1)]);
    game.pass();
    play_all(&mut game, &[(1, 0)]);
    assert_eq!(cell(&game.get_board(), 3, 0, 0), 2);
    assert_eq!(game.get_capture_counts(), (0, 1));
    game.pass();
    game.pass();
    assert_eq!(game.get_scores(), (0, 9));
    assert_eq!(game.get_outcome(), Some(EndGame::WinnerByPoints(Player::White, 9)));
}

#[test]
fn undo_then_redo_restores_everything() {
    let mut game = Game::new(5);
    play_all(&mut game, &[(0, 1), (1, 1), (1, 0), (4, 4), (1, 2), (4, 3), (2, 1)]);
    let before = game.export_state();
    let undone = game.undo();
    assert!(undone.ok);
    assert_eq!(cell(&undone.board, 5, 1, 1), 1);
    assert_eq!(cell(&undone.board, 5, 2, 1), 2);
    assert_eq!(undone.turn, Player::Black);
    assert_eq!(undone.captures, (0, 0));
    let redone = game.redo();
    let after = game.export_state();
    assert_eq!(after.board, before.board);
    assert_eq!(after.turn, before.turn);
    assert_eq!(after.passes, before.passes);
    assert_eq!(after.plays, before.plays);
    assert_eq!(after.black_captures, before.black_captures);
    assert_eq!(after.white_captures, before.white_captures);
    assert_eq!(after.resigned, before.resigned);
    assert_eq!(after.outcome, before.outcome);
    assert_eq!(redone.captures, (1, 0));
}

#[test]
fn undo_without_history_changes_nothing() {
    let mut game = Game::new(5);
    let res = game.undo();
    assert!(res.ok);
    assert_eq!(res.board, vec![2u8; 25]);
    assert_eq!(res.turn, Player::Black);
    let redo = game.redo();
    assert_eq!(redo.board, vec![2u8; 25]);
}

#[test]
fn a_new_move_clears_the_redo_stack() {
    let mut game = Game::new(5);
    play_all(&mut game, &[(0, 0), (1, 1)]);
    game.undo();
    play_all(&mut game, &[(2, 2)]);
    let before = game.get_board();
    let res = game.redo();
    assert_eq!(res.board, before);
    assert_eq!(cell(&res.board, 5, 1, 1), 2);
    assert_eq!(cell(&res.board, 5, 2, 2), 1);
}

#[test]
fn undo_takes_back_a_resignation() {
    let mut game = Game::new(5);
    game.resign();
    assert!(game.is_over());
    let res = game.undo();
    assert!(!res.is_over);
    assert_eq!(game.get_outcome(), None);
}

#[test]
fn group_and_liberties_of_a_stone() {
    let mut game = Game::new(5);
    play_all(&mut game, &[(1, 1), (0, 1), (1, 2)]);
    assert_eq!(game.get_group_and_liberties(3, 3), None);
    let (color, mut group, mut libs) = game.get_group_and_liberties(1, 2).unwrap();
    assert_eq!(color, Color::Black);
    group.sort();
    libs.sort();
    assert_eq!(group, vec![(1, 1), (1, 2)]);
    assert_eq!(libs, vec![(0, 2), (1, 0), (1, 3), (2, 1), (2, 2)]);
    let (wcolor, wgroup, mut wlibs) = game.get_group_and_liberties(0, 1).unwrap();
    assert_eq!(wcolor, Color::White);
    assert_eq!(wgroup, vec![(0, 1)]);
    wlibs.sort();
    assert_eq!(wlibs, vec![(0, 0), (0, 2)]);
}

#[test]
fn legality_probe_leaves_the_game_alone() {
    let mut game = Game::new(5);
    play_all(&mut game, &[(4, 4), (0, 1), (4, 3), (1, 0)]);
    let before = game.get_board();
    assert!(!game.is_legal_move_at(0, 0, Player::Black));
    assert!(game.is_legal_move_at(0, 0, Player::White));
    assert!(!game.is_legal_move_at(0, 1, Player::Black));
    assert!(!game.is_legal_move_at(7, 7, Player::Black));
    assert!(game.has_any_legal_play_for(Player::Black));
    assert!(!game.no_more_legal_plays());
    assert_eq!(game.get_board(), before);
}

#[test]
fn export_gives_the_whole_state() {
    let mut game = Game::new(3);
    play_all(&mut game, &[(1, 1)]);
    let st = game.export_state();
    assert_eq!(st.size, 3);
    assert_eq!(st.board.len(), 9);
    assert_eq!(st.board[4], Color::Black);
    assert_eq!(st.turn, Player::White);
    assert_eq!(st.passes, 0);
    assert_eq!(st.plays.len(), 1);
    assert_eq!(st.plays[0], game.goban_hash());
    assert_eq!((st.black_captures, st.white_captures), (0, 0));
    assert_eq!(st.resigned, None);
    assert_eq!(st.outcome, None);
}

#[test]
fn import_replaces_the_state() {
    let mut source = Game::new(3);
    play_all(&mut source, &[(1, 1), (0, 0)]);
    let st = source.export_state();
    let mut target = Game::new(3);
    assert_eq!(target.import_state(st.clone()), Ok(()));
    let got = target.export_state();
    assert_eq!(got.board, st.board);
    assert_eq!(got.turn, st.turn);
    assert_eq!(got.plays, st.plays);
    assert_eq!(target.get_board(), source.get_board());
}

#[test]
fn import_of_another_size_is_refused() {
    let mut source = Game::new(3);
    play_all(&mut source, &[(1, 1)]);
    let mut target = Game::new(5);
    play_all(&mut target, &[(2, 2)]);
    let before = target.export_state();
    let r = target.import_state(source.export_state());
    assert_eq!(r, Err(ImportError::SizeMismatch));
    assert_eq!(ImportError::SizeMismatch.message(), "Size mismatch");
    let after = target.export_state();
    assert_eq!(after.board, before.board);
    assert_eq!(after.turn, before.turn);
    assert_eq!(after.plays, before.plays);
}

#[test]
fn import_with_wrong_cell_count_is_refused() {
    let mut target = Game::new(3);
    let st = GameState {
        size: 3,
        board: vec![Color::Empty; 8],
        turn: Player::White,
        passes: 1,
        plays: vec![7],
        black_captures: 2,
        white_captures: 3,
        resigned: None,
        outcome: None,
    };
    assert_eq!(target.import_state(st), Err(ImportError::MalformedBoard));
    assert_eq!(ImportError::MalformedBoard.message(), "Malformed board");
    assert_eq!(target.get_turn(), Player::Black);
    assert_eq!(target.get_board(), vec![2u8; 9]);
}

#[test]
fn snapshot_and_restore_round_trip() {
    let mut game = Game::new(3);
    play_all(&mut game, &[(1, 1)]);
    let snap = game.snapshot();
    play_all(&mut game, &[(0, 0)]);
    game.restore(snap);
    assert_eq!(game.get_turn(), Player::White);
    assert_eq!(cell(&game.get_board(), 3, 0, 0), 2);
    assert_eq!(cell(&game.get_board(), 3, 1, 1), 0);
}

#[test]
fn game_ends_when_no_legal_move_is_left() {
    // on a board of one cell the only move is suicide for both sides
    let game = Game::new(1);
    assert!(game.no_more_legal_plays());
    assert!(game.is_over());
    let mut g = Game::new(1);
    let res = g.play_move(0, 0);
    assert!(!res.ok);
    assert_eq!(res.reason, Some("Suicide move".to_string()));
    assert!(res.is_over);
}

#[test]
fn remove_captured_stones_for_a_player() {
    let mut game = Game::new(3);
    let st = GameState {
        size: 3,
        board: vec![
            Color::Black,
            Color::White,
            Color::Empty,
            Color::White,
            Color::Empty,
            Color::Empty,
            Color::Empty,
            Color::Empty,
            Color::Empty,
        ],
        turn: Player::Black,
        passes: 0,
        plays: vec![],
        black_captures: 0,
        white_captures: 0,
        resigned: None,
        outcome: None,
    };
    assert_eq!(game.import_state(st), Ok(()));
    assert_eq!(game.remove_captured_stones_for(Player::White), 0);
    assert_eq!(game.remove_captured_stones_for(Player::Black), 1);
    assert_eq!(cell(&game.get_board(), 3, 0, 0), 2);
}

#[test]
fn splitmix64_known_values() {
    assert_eq!(splitmix64(0), 16294208416658607535);
    assert_eq!(splitmix64(1), 10451216379200822465);
}

#[test]
fn zobrist_table_known_values() {
    assert_eq!(
        generate_zobrist_table(1),
        vec![16156681998299943627, 1954396565772227491, 5709497711961719264]
    );
    let t2 = generate_zobrist_table(2);
    assert_eq!(t2.len(), 12);
    assert_eq!(t2[0], 7887200814110710296);
    assert_eq!(t2[11], 9886994464257960339);
    let t9 = generate_zobrist_table(9);
    assert_eq!(t9.len(), 243);
    assert_eq!(t9[0], 9771176106271644620);
    assert_eq!(t9[242], 15230554407684769213);
    assert_eq!(generate_zobrist_table(9), t9);
}

#[test]
fn zobrist_hash_of_small_boards() {
    let table = generate_zobrist_table(2);
    let mut board = Goban::new(2);
    assert_eq!(zobrist_hash_state(&board, &table), 11289246475475289031);
    board.set((0, 0), Color::Black);
    assert_eq!(zobrist_hash_state(&board, &table), 9793104084943754296);
    board.set((0, 0), Color::Empty);
    assert_eq!(zobrist_hash_state(&board, &table), 11289246475475289031);
}

#[test]
fn game_hash_matches_the_table_of_its_size() {
    let mut game = Game::new(2);
    assert_eq!(game.goban_hash(), 11289246475475289031);
    play_all(&mut game, &[(0, 0)]);
    assert_eq!(game.goban_hash(), 9793104084943754296);
}

#[test]
fn move_values_can_be_told_apart() {
    let moves = [Move::Play(1, 2), Move::Pass, Move::Resign];
    assert!(matches!(moves[0], Move::Play(1, 2)));
    assert!(matches!(moves[1], Move::Pass));
    assert!(matches!(moves[2], Move::Resign));
}
