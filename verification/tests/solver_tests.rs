use connect_four_solver::connect_four::state::State;
use connect_four_solver::connect_four::state_array::StateArray;
use connect_four_solver::connect_four::state_bitboard::StateBitboard;
use connect_four_solver::connect_four::naive;
use connect_four_solver::connect_four::cache_strategy;
use connect_four_solver::connect_four::cache_strategy::optimal_next_state;
use connect_four_solver::connect_four::threads;
use connect_four_solver::connect_four::threads::{SharedStateCache, ThreadContext};
use std::sync::Arc;
use std::sync::atomic::AtomicBool;

fn rows(strs: &[&str]) -> Vec<String> {
    strs.iter().map(|s| s.to_string()).collect()
}

// A dense board with no four in a row anywhere: columns alternate between
// the stacks XXOOX and OOXXO read bottom-up, which caps every run at three.
fn dense_board() -> Vec<String> {
    rows(&[
        "       ",
        "XOXOXOX",
        "OXOXOXO",
        "OXOXOXO",
        "XOXOXOX",
        "XOXOXOX",
    ])
}

fn dense_board_34() -> Vec<String> {
    rows(&[
        "       ",
        "XOXOXO ",
        "OXOXOXO",
        "OXOXOXO",
        "XOXOXOX",
        "XOXOXOX",
    ])
}

fn dense_board_33() -> Vec<String> {
    rows(&[
        "       ",
        "XOXOX  ",
        "OXOXOXO",
        "OXOXOXO",
        "XOXOXOX",
        "XOXOXOX",
    ])
}

#[test]
fn empty_board_has_seven_children() {
    let s = StateArray::start_state();
    let children = s.next_states();
    assert_eq!(children.len(), 7);
    for child in &children {
        assert_eq!(child.moves_made(), 1);
        assert!(!child.is_win());
    }
    let b = StateBitboard::start_state();
    let children = b.next_states();
    assert_eq!(children.len(), 7);
    for child in &children {
        assert_eq!(child.moves_made(), 1);
        assert!(!child.is_win());
    }
}

#[test]
fn play_move_refuses_full_columns() {
    let mut s = StateArray::start_state();
    for i in 0..6 {
        let next = s.play_move(3);
        assert!(next.is_some());
        s = next.unwrap();
        assert_eq!(s.moves_made(), i + 1);
    }
    assert!(s.play_move(3).is_none());
    assert!(s.play_move(2).is_some());

    let mut b = StateBitboard::start_state();
    for _ in 0..6 {
        b = b.play_move(3).unwrap();
    }
    assert!(b.play_move(3).is_none());
    assert!(b.play_move(2).is_some());
}

#[test]
fn vertical_win_detected() {
    // three X in column 0 with scattered O; X to move completes the column
    let board = rows(&["       ", "       ", "       ", "X  O   ", "X  O   ", "X  O   "]);
    let s = StateArray::encode(&board);
    let won = s.play_move(0).unwrap();
    assert!(won.is_win());
    let not_won = s.play_move(5).unwrap();
    assert!(!not_won.is_win());

    let b = StateBitboard::encode(&board);
    assert!(b.play_move(0).unwrap().is_win());
    assert!(!b.play_move(5).unwrap().is_win());
}

#[test]
fn horizontal_win_detected() {
    let board = rows(&["       ", "       ", "       ", "       ", "OOO    ", "XXX    "]);
    let s = StateArray::encode(&board);
    assert!(s.play_move(3).unwrap().is_win());
    assert!(!s.play_move(6).unwrap().is_win());

    let b = StateBitboard::encode(&board);
    assert!(b.play_move(3).unwrap().is_win());
    assert!(!b.play_move(6).unwrap().is_win());
}

#[test]
fn rising_diagonal_win_detected() {
    let board = rows(&[
        "       ",
        "       ",
        "       ",
        "  XX   ",
        " XOO   ",
        "XOOX  O",
    ]);
    // X sits on the rising diagonal at (0,0), (1,1), (2,2); dropping into
    // column 3 lands on three pieces and completes it
    let s = StateArray::encode(&board);
    assert!(s.play_move(3).unwrap().is_win());
    assert!(!s.play_move(6).unwrap().is_win());

    let b = StateBitboard::encode(&board);
    assert!(b.play_move(3).unwrap().is_win());
    assert!(!b.play_move(6).unwrap().is_win());
}

#[test]
fn falling_diagonal_win_detected() {
    let board = rows(&[
        "       ",
        "       ",
        "O      ",
        "XO     ",
        "XXO    ",
        "XOX XO ",
    ]);
    // O sits on the falling diagonal at (0,3), (1,2), (2,1); dropping into
    // column 3 lands on one piece and completes it
    let s = StateArray::encode(&board);
    assert!(s.play_move(3).unwrap().is_win());
    assert!(!s.play_move(5).unwrap().is_win());

    let b = StateBitboard::encode(&board);
    assert!(b.play_move(3).unwrap().is_win());
    assert!(!b.play_move(5).unwrap().is_win());
}

#[test]
fn decode_encode_round_trip() {
    // walk a scripted game and check the textual form reproduces each state
    let script = [3usize, 3, 2, 4, 1, 5, 0, 6, 2, 2];
    let mut s = StateArray::start_state();
    let mut b = StateBitboard::start_state();
    for &col in &script {
        s = s.play_move(col).unwrap();
        b = b.play_move(col).unwrap();
        let text = s.decode();
        assert_eq!(text, b.decode());
        let lines: Vec<String> = text.lines().map(|l| l.to_string()).collect();
        assert_eq!(lines.len(), 6);
        let s2 = StateArray::encode(&lines);
        let b2 = StateBitboard::encode(&lines);
        assert_eq!(s2.decode(), text);
        assert_eq!(b2.decode(), text);
        assert_eq!(s2.moves_made(), s.moves_made());
        assert_eq!(b2.moves_made(), b.moves_made());
    }
}

#[test]
fn encode_counts_pieces_and_derives_player() {
    let board = dense_board();
    let s = StateArray::encode(&board);
    assert_eq!(s.moves_made(), 35);
    let b = StateBitboard::encode(&board);
    assert_eq!(b.moves_made(), 35);
    // 35 pieces played means the second player is to move; a move must land
    // in the only open row
    let s2 = s.play_move(0).unwrap();
    assert_eq!(s2.moves_made(), 36);
}

#[test]
fn encode_tolerates_short_and_strange_rows() {
    // short rows stop a column early, and the array encoding reads past a
    // stray character while the bitboard encoding closes the column
    let board = rows(&["", "   ", "       ", "  X    ", "  ?    ", "XOX"]);
    let s = StateArray::encode(&board);
    assert_eq!(s.moves_made(), 4);
    let b = StateBitboard::encode(&board);
    assert_eq!(b.moves_made(), 3);
}

#[test]
fn engines_agree_on_dense_boards() {
    for board in [dense_board(), dense_board_34(), dense_board_33()] {
        let s = StateArray::encode(&board);
        let b = StateBitboard::encode(&board);
        let naive_eval = naive::evaluate_position(s).eval;
        let cached_eval = cache_strategy::evaluate_position(s).eval;
        let naive_bb = naive::evaluate_position(b).eval;
        let cached_bb = cache_strategy::evaluate_position(b).eval;
        assert_eq!(naive_eval, cached_eval);
        assert_eq!(naive_eval, naive_bb);
        assert_eq!(naive_eval, cached_bb);
    }
}

#[test]
fn engines_agree_along_a_game() {
    let script = [3usize, 3, 2, 4, 1, 5, 0];
    let mut s = StateArray::encode(&dense_board_33());
    for &col in &script {
        match s.play_move(col) {
            None => break,
            Some(next) => {
                s = next;
                let n = naive::evaluate_position(s);
                let c = cache_strategy::evaluate_position(s);
                assert_eq!(n.eval, c.eval);
                assert!(n.states_evaluated >= 1);
            },
        }
    }
}

#[test]
fn evaluation_is_deterministic() {
    let s = StateArray::encode(&dense_board_34());
    let first = cache_strategy::evaluate_position(s).eval;
    for _ in 0..10 {
        assert_eq!(cache_strategy::evaluate_position(s).eval, first);
        assert_eq!(naive::evaluate_position(s).eval, first);
    }
}

#[test]
fn immediate_win_scores_max_eval() {
    // X completes a column of three with 6 pieces on the board: the win
    // comes on move 7, worth (43 - 6) >> 1 = 18
    let board = rows(&["       ", "       ", "       ", "X  O   ", "X  O   ", "X  O   "]);
    let s = StateArray::encode(&board);
    assert_eq!(s.moves_made(), 6);
    assert_eq!(s.max_eval(), 18);
    let r = naive::evaluate_position(s);
    assert_eq!(r.eval, 18);
    assert_eq!(cache_strategy::evaluate_position(s).eval, 18);
}

#[test]
fn max_eval_never_increases_during_play() {
    let script = [3usize, 2, 3, 2, 4, 1, 5];
    let mut s = StateArray::start_state();
    let mut prev = s.max_eval();
    for &col in &script {
        s = s.play_move(col).unwrap();
        let m = s.max_eval();
        assert!(m <= prev);
        prev = m;
    }
}

#[test]
fn optimal_next_state_is_a_successor() {
    let s = StateArray::encode(&dense_board_33());
    let succ = optimal_next_state(s);
    let texts: Vec<String> = s.next_states().iter().map(|c| c.decode()).collect();
    assert!(texts.contains(&succ.decode()));
}

#[test]
fn concurrent_core_matches_naive() {
    for board in [dense_board(), dense_board_34(), dense_board_33()] {
        let s = StateArray::encode(&board);
        let cache = Arc::new(SharedStateCache::new());
        let flag = Arc::new(AtomicBool::new(false));
        let mut ctx = ThreadContext::new(flag, cache);
        let got = threads::master_position(s, &mut ctx).unwrap();
        let want = naive::evaluate_position(s);
        assert_eq!(got.eval, want.eval);
        assert!(got.states_evaluated >= 1);
    }
}

#[test]
fn concurrent_probe_seeds_cache_without_changing_result() {
    let board = dense_board_33();
    let s = StateArray::encode(&board);
    let cache = Arc::new(SharedStateCache::new());
    let flag = Arc::new(AtomicBool::new(false));
    // probe every root child first, sharing one cache, as the workers do
    for child in s.next_states() {
        let mut ctx = ThreadContext::new(Arc::new(AtomicBool::new(false)), cache.clone());
        let visited = threads::probe_position(child, &mut ctx);
        assert_eq!(visited, ctx.states_evaluated);
    }
    let mut master = ThreadContext::new(flag, cache);
    let got = threads::master_position(s, &mut master).unwrap();
    assert_eq!(got.eval, naive::evaluate_position(s).eval);
}

#[test]
fn cancelled_search_returns_nothing() {
    let s = StateArray::start_state();
    let cache = Arc::new(SharedStateCache::new());
    let flag = Arc::new(AtomicBool::new(true));
    let mut ctx = ThreadContext::new(flag, cache);
    assert!(threads::master_position(s, &mut ctx).is_none());
}

#[test]
fn midgame_snapshot_is_accepted() {
    // a midgame position: both encodings read it identically, and the move
    // count is the number of markers
    let board = rows(&[
        "   O   ",
        "   X   ",
        "   O X ",
        "   X O ",
        "  XO O ",
        "XXOXOX ",
    ]);
    let s = StateArray::encode(&board);
    let b = StateBitboard::encode(&board);
    assert_eq!(s.moves_made(), 15);
    assert_eq!(b.moves_made(), 15);
    assert_eq!(s.decode(), b.decode());
    assert_eq!(s.state_key(), b.state_key());
    assert_eq!(s.max_eval(), (43 - 15) >> 1);
    // searching this position to the end is far too slow for a unit test;
    // the engines' agreement is exercised on the dense boards above
}

#[test]
fn state_keys_identify_boards() {
    let s = StateArray::start_state();
    let a = s.play_move(0).unwrap();
    let b = s.play_move(1).unwrap();
    assert_ne!(a.state_key(), b.state_key());
    assert_eq!(s.state_key(), StateBitboard::start_state().state_key());
    // the two encodings assign the same key to the same position
    let bb = StateBitboard::start_state().play_move(0).unwrap();
    assert_eq!(a.state_key(), bb.state_key());
}
