use neatfour::game::Game;

#[test]
fn new_game_starts_with_first_player() {
    let g = Game::new();
    assert_eq!(g.get_turn(), 1);
    assert!(!g.check_for_win());
    assert!(!g.check_for_tie());
}

#[test]
fn copy_is_equal() {
    let mut g = Game::new();
    g.play_piece(3);
    let c = g.copy();
    assert!(c == g);
}

#[test]
fn play_piece_fills_bottom_cell_and_flips_turn() {
    let mut g = Game::new();
    let won = g.play_piece(3);
    assert!(!won);
    assert_eq!(g.get_turn(), 2);
    let board = g.get_board();
    assert_eq!(board[3][0], 1);
    assert_eq!(board[3][1], 0);
    assert_eq!(board[0][0], 0);
}

#[test]
fn vertical_win_detected() {
    let mut g = Game::new();
    // first player stacks column 0, second player column 1
    assert!(!g.play_piece(0));
    assert!(!g.play_piece(1));
    assert!(!g.play_piece(0));
    assert!(!g.play_piece(1));
    assert!(!g.play_piece(0));
    assert!(!g.play_piece(1));
    let won = g.play_piece(0);
    assert!(won);
    assert!(g.check_for_win());
}

#[test]
fn full_column_rejects_play() {
    let mut g = Game::new();
    for _ in 0..6 {
        g.play_piece(0);
    }
    let before = g.get_board();
    let turn_before = g.get_turn();
    let won = g.play_piece(0);
    assert!(!won);
    assert_eq!(g.get_board(), before);
    assert_eq!(g.get_turn(), turn_before);
}

#[test]
fn filling_the_board_gives_a_tie() {
    let mut g = Game::new();
    for col in 0..7 {
        for _ in 0..6 {
            g.play_piece(col);
        }
    }
    assert!(g.check_for_tie());
}

#[test]
fn initial_moves_are_all_seven_columns() {
    let g = Game::new();
    let moves = g.get_moves();
    assert_eq!(moves.len(), 7);
    for (i, m) in moves.iter().enumerate() {
        assert_eq!(m.0, i);
        assert_eq!(m.1.get_turn(), 2);
    }
    let nodes = g.get_nodes();
    assert_eq!(nodes.len(), 7);
}

#[test]
fn heuristic_of_empty_board_is_zero() {
    let g = Game::new();
    assert_eq!(g.get_heuristic(), 0);
}
