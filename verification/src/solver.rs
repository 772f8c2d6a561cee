//! Depth-bounded negamax with alpha-beta pruning over the bitboard game.
//!
//! The search itself is deterministic and pinned by [`negamax_rec_spec`]; only
//! the final tie-break among equally good moves draws from the random source.

use vstd::prelude::*;

use crate::game::{heuristic_spec, moves_spec, board_ok, Game, FULL_MASK};
use crate::rng::rng_below;

verus! {

/// Score of a position already lost for the player to move.
pub const LOSS: i64 = -1000000000;

/// Upper bound on every search score.
pub const WIN: i64 = 1000000000;

pub struct Solver {
    pub search_depth: u32,
}

/// The value of the position `g` for the player to move, searched to `depth`
/// plies with the alpha-beta window `(alpha, beta)`. Mirrors the executable
/// search exactly.
pub open spec fn negamax_rec_spec(g: Game, alpha: int, beta: int, depth: nat) -> int
    decreases depth, 0int, 0int,
{
    if crate::game::win_spec(g.board ^ g.mask) {
        LOSS as int
    } else if g.mask == FULL_MASK {
        0
    } else if depth == 0 {
        heuristic_spec(g)
    } else if alpha >= beta {
        beta
    } else {
        negamax_children_spec(
            moves_spec(g, 0).map_values(|m: (usize, Game)| m.1),
            0,
            alpha,
            beta,
            (depth - 1) as nat,
        )
    }
}

/// Folds the children `nodes[i..]` through the alpha-beta loop.
pub open spec fn negamax_children_spec(
    nodes: Seq<Game>,
    i: int,
    alpha: int,
    beta: int,
    depth: nat,
) -> int
    decreases depth, 1int, nodes.len() - i,
{
    if i < 0 || i >= nodes.len() {
        alpha
    } else {
        let value = -negamax_rec_spec(nodes[i], -beta, -alpha, depth);
        if value >= beta {
            value
        } else if value > alpha {
            negamax_children_spec(nodes, i + 1, value, beta, depth)
        } else {
            negamax_children_spec(nodes, i + 1, alpha, beta, depth)
        }
    }
}

/// The search value stays within `[LOSS, WIN]` whenever the window does.
pub proof fn lemma_negamax_range(g: Game, alpha: int, beta: int, depth: nat)
    requires
        LOSS as int <= alpha <= WIN as int,
        LOSS as int <= beta <= WIN as int,
    ensures
        LOSS as int <= negamax_rec_spec(g, alpha, beta, depth) <= WIN as int,
    decreases depth, 0int, 0int,
{
    crate::game::lemma_heuristic_range(g);
    if !crate::game::win_spec(g.board ^ g.mask) && g.mask != FULL_MASK && depth > 0 && alpha
        < beta {
        lemma_negamax_children_range(
            moves_spec(g, 0).map_values(|m: (usize, Game)| m.1),
            0,
            alpha,
            beta,
            (depth - 1) as nat,
        );
    }
}

/// Range bound for the child fold.
pub proof fn lemma_negamax_children_range(
    nodes: Seq<Game>,
    i: int,
    alpha: int,
    beta: int,
    depth: nat,
)
    requires
        LOSS as int <= alpha <= WIN as int,
        LOSS as int <= beta <= WIN as int,
    ensures
        LOSS as int <= negamax_children_spec(nodes, i, alpha, beta, depth) <= WIN as int,
    decreases depth, 1int, nodes.len() - i,
{
    if 0 <= i < nodes.len() {
        lemma_negamax_range(nodes[i], -beta, -alpha, depth);
        let value = -negamax_rec_spec(nodes[i], -beta, -alpha, depth);
        if value < beta {
            if value > alpha {
                lemma_negamax_children_range(nodes, i + 1, value, beta, depth);
            } else {
                lemma_negamax_children_range(nodes, i + 1, alpha, beta, depth);
            }
        }
    }
}

/// The score the top-level search assigns to the `k`-th legal move of `g`.
pub open spec fn move_score_spec(g: Game, k: int, search_depth: u32) -> int {
    -negamax_rec_spec(
        moves_spec(g, 0)[k].1,
        LOSS as int,
        WIN as int,
        (search_depth - 1) as nat,
    )
}

impl Solver {
    pub fn new(depth: u32) -> (s: Solver)
        ensures
            s.search_depth == depth,
    {
        Solver { search_depth: depth }
    }

    /// Search every legal move to the configured depth and return one of the
    /// best-scoring columns (ties broken by the random source).
    #[verifier::loop_isolation(false)]
    pub fn negamax(&self, game: &Game, rng: &mut rand::rngs::StdRng) -> (column: usize)
        requires
            self.search_depth >= 1,
            board_ok(*game),
            moves_spec(*game, 0).len() > 0,
        ensures
            exists|k: int|
                {
                    &&& 0 <= k < moves_spec(*game, 0).len()
                    &&& column == moves_spec(*game, 0)[k].0
                    &&& forall|j: int|
                        0 <= j < moves_spec(*game, 0).len() ==> move_score_spec(
                            *game,
                            j,
                            self.search_depth,
                        ) <= move_score_spec(*game, k, self.search_depth)
                },
    {
        let moves = game.get_moves();
        let ghost ms = moves_spec(*game, 0);

        let mut scores: Vec<(usize, i64)> = Vec::new();
        let mut i: usize = 0;
        while i < moves.len()
            invariant
                i <= moves@.len(),
                moves@ == ms,
                self.search_depth >= 1,
                scores@.len() == i,
                forall|j: int|
                    0 <= j < i ==> {
                        &&& (#[trigger] scores@[j]).0 == ms[j].0
                        &&& scores@[j].1 == move_score_spec(*game, j, self.search_depth)
                    },
            decreases moves@.len() - i,
        {
            proof {
                lemma_negamax_range(
                    moves@[i as int].1,
                    LOSS as int,
                    WIN as int,
                    (self.search_depth - 1) as nat,
                );
            }
            let s: i64 = self.negamax_rec(&moves[i].1, LOSS, WIN, self.search_depth - 1);
            scores.push((moves[i].0, -s));
            i = i + 1;
        }

        let mut best_moves: Vec<(usize, i64)> = Vec::new();
        best_moves.push(scores[0]);
        let mut i: usize = 1;
        while i < scores.len()
            invariant
                1 <= i <= scores@.len(),
                best_moves@.len() >= 1,
                forall|b: int|
                    0 <= b < best_moves@.len() ==> exists|k: int|
                        0 <= k < i && #[trigger] best_moves@[b] == scores@[k] && scores@[k].1
                            == best_moves@[0].1,
                forall|j: int| 0 <= j < i ==> (#[trigger] scores@[j]).1 <= best_moves@[0].1,
            decreases scores@.len() - i,
        {
            if scores[i].1 > best_moves[0].1 {
                best_moves = Vec::new();
                best_moves.push(scores[i]);
            } else if scores[i].1 == best_moves[0].1 {
                best_moves.push(scores[i]);
            }
            i = i + 1;
        }

        let pick: usize = rng_below(rng, best_moves.len());
        let column: usize = best_moves[pick].0;
        proof {
            assert(exists|k: int|
                0 <= k < ms.len() && #[trigger] best_moves@[pick as int] == scores@[k]
                    && scores@[k].1 == best_moves@[0].1);
            let bk: int = choose|k: int|
                0 <= k < ms.len() && best_moves@[pick as int] == scores@[k] && scores@[k].1
                    == best_moves@[0].1;
            assert(column == ms[bk].0);
            assert forall|j: int|
                0 <= j < ms.len() implies move_score_spec(*game, j, self.search_depth)
                <= move_score_spec(*game, bk, self.search_depth) by {
                assert(scores@[j].1 <= best_moves@[0].1);
                assert(scores@[bk].1 == best_moves@[0].1);
            }
            assert(0 <= bk < moves_spec(*game, 0).len() && column == moves_spec(*game, 0)[bk].0);
        }
        column
    }

    /// Negamax with alpha-beta pruning; returns exactly
    /// [`negamax_rec_spec`]`(game, alpha, beta, depth)`.
    #[verifier::loop_isolation(false)]
    fn negamax_rec(&self, game: &Game, alpha: i64, beta: i64, depth: u32) -> (score: i64)
        requires
            board_ok(*game),
            LOSS as int <= alpha <= WIN as int,
            LOSS as int <= beta <= WIN as int,
        ensures
            score == negamax_rec_spec(*game, alpha as int, beta as int, depth as nat),
            LOSS as int <= score <= WIN as int,
        decreases depth,
    {
        proof {
            lemma_negamax_range(*game, alpha as int, beta as int, depth as nat);
        }
        if game.check_for_win() {
            return LOSS;
        }
        if game.check_for_tie() {
            return 0;
        }
        if depth == 0 {
            return game.get_heuristic();
        }
        if alpha >= beta {
            return beta;
        }
        let d: u32 = depth - 1;

        let nodes = game.get_nodes();
        let ghost nv = moves_spec(*game, 0).map_values(|m: (usize, Game)| m.1);

        let mut a: i64 = alpha;
        let mut i: usize = 0;
        while i < nodes.len()
            invariant
                i <= nodes@.len(),
                nodes@ == nv,
                board_ok(*game),
                forall|j: int| 0 <= j < nv.len() ==> board_ok(#[trigger] nv[j]),
                LOSS as int <= a <= WIN as int,
                LOSS as int <= beta <= WIN as int,
                negamax_children_spec(nv, 0, alpha as int, beta as int, d as nat)
                    == negamax_children_spec(nv, i as int, a as int, beta as int, d as nat),
            decreases nodes@.len() - i,
        {
            proof {
                lemma_negamax_range(nv[i as int], -(beta as int), -(a as int), d as nat);
            }
            let value: i64 = -self.negamax_rec(&nodes[i], -beta, -a, d);
            if value >= beta {
                return value;
            }
            if value > a {
                a = value;
            }
            i = i + 1;
        }

        a
    }
}

} // verus!
