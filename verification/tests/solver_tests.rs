use neatfour::game::Game;
use neatfour::solver::Solver;
use rand::SeedableRng;

#[test]
fn solver_new_stores_depth() {
    let s = Solver::new(5);
    assert_eq!(s.search_depth, 5);
}

#[test]
fn negamax_takes_the_winning_column() {
    let mut g = Game::new();
    // first player builds three in column 2, second player scatters
    g.play_piece(2);
    g.play_piece(0);
    g.play_piece(2);
    g.play_piece(0);
    g.play_piece(2);
    g.play_piece(1);
    // first player to move: column 2 wins at once
    let solver = Solver::new(3);
    let mut rng = rand::rngs::StdRng::seed_from_u64(1);
    let col = solver.negamax(&g, &mut rng);
    assert_eq!(col, 2);
    assert!(g.play_piece(col));
}

#[test]
fn negamax_blocks_or_plays_legally() {
    let g = Game::new();
    let solver = Solver::new(2);
    let mut rng = rand::rngs::StdRng::seed_from_u64(7);
    let col = solver.negamax(&g, &mut rng);
    assert!(col < 7);
}
