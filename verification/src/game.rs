//! Connect-four style board on a 49-bit bitboard (7 columns of 6 rows plus a
//! guard bit per column).
//!
//! `board` holds the stones of the player whose turn it is; `mask` holds all
//! stones. Every operation is specified exactly as a transformer of these two
//! words, so the whole game is deterministic and pinned by the contracts.

use vstd::prelude::*;

verus! {

/// All 42 playable cells: bits `c*7 + j` for `c < 7`, `j < 6`.
pub const FULL_MASK: u64 = 0b0111111011111101111110111111011111101111110111111;

#[derive(Clone, Copy, PartialEq, Eq, Structural)]
pub struct Game {
    pub board: u64,
    pub mask: u64,
    pub first_player: bool,
}

/// Bit `i` of `x` is set.
pub open spec fn get_bit(x: u64, i: u64) -> bool {
    x & (1u64 << i) != 0
}

/// Only playable cells are occupied, and the mover's stones lie within the
/// occupied cells.
pub open spec fn board_ok(g: Game) -> bool {
    &&& g.mask & !FULL_MASK == 0
    &&& g.board & !g.mask == 0
}

/// Column `c` still has room.
pub open spec fn playable_spec(g: Game, c: usize) -> bool {
    !get_bit(g.mask, (c * 7 + 5) as u64)
}

/// The state after dropping a piece in column `c` (identity if the column is
/// full): the mover's stones flip to the opponent's view and the lowest free
/// bit of the column joins the mask.
pub open spec fn play_spec(g: Game, c: usize) -> Game {
    if playable_spec(g, c) {
        Game {
            board: g.board ^ g.mask,
            mask: g.mask | (g.mask + (1u64 << ((c * 7) as u64))) as u64,
            first_player: !g.first_player,
        }
    } else {
        g
    }
}

/// The four-in-a-row test on one player's stones: a hit in any of the four
/// directions (vertical, the two diagonals, horizontal), each checked by
/// pairing stones at one stride and then pairs at twice the stride.
pub open spec fn win_spec(stones: u64) -> bool {
    ||| (stones & (stones >> 7)) & ((stones & (stones >> 7)) >> 14) != 0
    ||| (stones & (stones >> 6)) & ((stones & (stones >> 6)) >> 12) != 0
    ||| (stones & (stones >> 8)) & ((stones & (stones >> 8)) >> 16) != 0
    ||| (stones & (stones >> 1)) & ((stones & (stones >> 1)) >> 2) != 0
}

/// Number of set bits among the low `k` bits of `x`.
pub open spec fn pc_rec(x: u64, k: nat) -> int
    decreases k,
{
    if k == 0 {
        0
    } else {
        (x & 1) + pc_rec(x >> 1, (k - 1) as nat)
    }
}

/// Number of set bits of `x`.
pub open spec fn pc_spec(x: u64) -> int {
    pc_rec(x, 64)
}

/// The heuristic score of one player: for each direction, the number of
/// three-in-a-row groups of `board` that an empty cell extends on either end.
pub open spec fn one_score_spec(board: u64, mask0: u64) -> int {
    let mask = !mask0 & FULL_MASK;
    let n7 = board & (board >> 7) & (board >> 14);
    let n6 = board & (board >> 6) & (board >> 12);
    let n8 = board & (board >> 8) & (board >> 16);
    let n1 = board & (board >> 1) & (board >> 2);
    pc_rec(n7 & (mask >> 21), 64) + pc_rec(n7 & (mask << 7) as u64, 64) + pc_rec(
        n6 & (mask >> 18),
        64,
    ) + pc_rec(n6 & (mask << 6) as u64, 64) + pc_rec(n8 & (mask >> 24), 64) + pc_rec(
        n8 & (mask << 8) as u64,
        64,
    ) + pc_rec(n1 & (mask >> 3), 64) + pc_rec(n1 & (mask << 1) as u64, 64)
}

/// Heuristic value of a position for the player who moved last, minus the
/// same measure for the player to move.
pub open spec fn heuristic_spec(g: Game) -> int {
    one_score_spec(g.board, g.mask) - one_score_spec(g.board ^ g.mask, g.mask)
}

/// The legal moves from `g`, scanning columns `c..7` in order: the column
/// index paired with the successor state.
pub open spec fn moves_spec(g: Game, c: int) -> Seq<(usize, Game)>
    decreases 7 - c,
{
    if c < 0 || c >= 7 {
        Seq::empty()
    } else {
        let rest = moves_spec(g, c + 1);
        if playable_spec(g, c as usize) {
            seq![(c as usize, play_spec(g, c as usize))] + rest
        } else {
            rest
        }
    }
}

/// At most `k` of the low `k` bits are set.
pub proof fn lemma_pc_rec_bound(x: u64, k: nat)
    ensures
        0 <= pc_rec(x, k) <= k,
    decreases k,
{
    if k > 0 {
        assert(x & 1 <= 1) by (bit_vector);
        lemma_pc_rec_bound(x >> 1, (k - 1) as nat);
    }
}

/// One player's score is at most 512 (eight popcounts of at most 64).
pub proof fn lemma_one_score_range(board: u64, mask0: u64)
    ensures
        0 <= one_score_spec(board, mask0) <= 512,
{
    let mask = !mask0 & FULL_MASK;
    let n7 = board & (board >> 7) & (board >> 14);
    let n6 = board & (board >> 6) & (board >> 12);
    let n8 = board & (board >> 8) & (board >> 16);
    let n1 = board & (board >> 1) & (board >> 2);
    lemma_pc_rec_bound(n7 & (mask >> 21), 64);
    lemma_pc_rec_bound(n7 & (mask << 7) as u64, 64);
    lemma_pc_rec_bound(n6 & (mask >> 18), 64);
    lemma_pc_rec_bound(n6 & (mask << 6) as u64, 64);
    lemma_pc_rec_bound(n8 & (mask >> 24), 64);
    lemma_pc_rec_bound(n8 & (mask << 8) as u64, 64);
    lemma_pc_rec_bound(n1 & (mask >> 3), 64);
    lemma_pc_rec_bound(n1 & (mask << 1) as u64, 64);
}

/// The heuristic is bounded by the two players' score bounds.
pub proof fn lemma_heuristic_range(g: Game)
    ensures
        -512 <= heuristic_spec(g) <= 512,
{
    lemma_one_score_range(g.board, g.mask);
    lemma_one_score_range(g.board ^ g.mask, g.mask);
}

/// Any four stones in a row is caught by the win formula: if four bits of
/// `stones` lie at stride `d` apart (`d` is 7 for vertical, 6 and 8 for the
/// diagonals, 1 for horizontal in this column-major layout), the formula
/// reports a win.
pub proof fn lemma_win_detects_line(stones: u64, i: u64, d: u64)
    requires
        d == 7 || d == 6 || d == 8 || d == 1,
        i + 3 * d < 64,
        get_bit(stones, i),
        get_bit(stones, (i + d) as u64),
        get_bit(stones, (i + 2 * d) as u64),
        get_bit(stones, (i + 3 * d) as u64),
    ensures
        win_spec(stones),
{
    assert((d == 7 || d == 6 || d == 8 || d == 1) && i + 3 * d < 64 && stones & (1u64 << i) != 0
        && stones & (1u64 << (i + d) as u64) != 0 && stones & (1u64 << (i + 2 * d) as u64) != 0
        && stones & (1u64 << (i + 3 * d) as u64) != 0 ==> {
        ||| (stones & (stones >> 7)) & ((stones & (stones >> 7)) >> 14) != 0
        ||| (stones & (stones >> 6)) & ((stones & (stones >> 6)) >> 12) != 0
        ||| (stones & (stones >> 8)) & ((stones & (stones >> 8)) >> 16) != 0
        ||| (stones & (stones >> 1)) & ((stones & (stones >> 1)) >> 2) != 0
    }) by (bit_vector);
}

/// The lowest empty row of column `c`, scanning up from row `j` (6 when the
/// column is full from `j` on).
pub open spec fn lowest_empty_from(mask: u64, c: usize, j: int) -> int
    decreases 6 - j,
{
    if j < 0 || j >= 6 {
        6
    } else if !get_bit(mask, (c * 7 + j) as u64) {
        j
    } else {
        lowest_empty_from(mask, c, j + 1)
    }
}

/// The lowest empty row of column `c`.
pub open spec fn lowest_empty(g: Game, c: usize) -> int {
    lowest_empty_from(g.mask, c, 0)
}

/// In a playable column the lowest empty row exists, everything below it is
/// occupied, and it is itself empty.
proof fn lemma_lowest_empty_char(mask: u64, c: usize, j: int)
    requires
        c < 7,
        0 <= j <= 5,
        !get_bit(mask, (c * 7 + 5) as u64),
        forall|t: int| 0 <= t < j ==> get_bit(mask, #[trigger] ((c * 7 + t) as u64)),
    ensures
        ({
            let jj = lowest_empty_from(mask, c, j);
            &&& j <= jj <= 5
            &&& !get_bit(mask, (c * 7 + jj) as u64)
            &&& forall|t: int| 0 <= t < jj ==> get_bit(mask, #[trigger] ((c * 7 + t) as u64))
        }),
    decreases 6 - j,
{
    if !get_bit(mask, (c * 7 + j) as u64) {
    } else {
        lemma_lowest_empty_char(mask, c, j + 1);
    }
}

/// Dropping a piece changes exactly one cell: the lowest empty cell of the
/// played column becomes the mover's colour, and every other cell keeps its
/// owner (the flips of `board` and of `first_player` cancel out).
#[verifier::rlimit(60)]
pub proof fn lemma_play_updates_one_cell(g: Game, c: usize)
    requires
        board_ok(g),
        c < 7,
        playable_spec(g, c),
    ensures
        ({
            let jj = lowest_empty(g, c);
            let g2 = play_spec(g, c);
            &&& 0 <= jj <= 5
            &&& cell_spec(g, c as int, jj) == 0
            &&& cell_spec(g2, c as int, jj) == (if g.first_player {
                1u8
            } else {
                2u8
            })
            &&& forall|ci: int, rj: int|
                0 <= ci < 7 && 0 <= rj < 6 && !(ci == c && rj == jj) ==> cell_spec(g2, ci, rj)
                    == cell_spec(g, ci, rj)
        }),
{
    lemma_lowest_empty_char(g.mask, c, 0);
    let jj = lowest_empty(g, c);
    let g2 = play_spec(g, c);
    let m = g.mask;
    let b = g.board;
    let cc = c as u64;
    let jv = jj as u64;

    // the mask gains exactly the bit of the lowest empty cell: the carry of
    // the addition stops at the first clear bit of the column
    assert(g2.mask == m | (1u64 << ((cc * 7 + jv) as u64))) by {
        if jj == 0 {
            assert(m & (1u64 << ((cc * 7) as u64)) == 0 ==> (m | (m + (1u64 << ((cc * 7) as u64)))
                as u64) == (m | (1u64 << ((cc * 7 + 0) as u64)))) by (bit_vector);
        } else if jj == 1 {
            assert(m & (1u64 << ((cc * 7) as u64)) != 0 && m & (1u64 << ((cc * 7 + 1) as u64)) == 0
                ==> (m | (m + (1u64 << ((cc * 7) as u64))) as u64) == (m | (1u64 << ((cc * 7
                + 1) as u64)))) by (bit_vector);
        } else if jj == 2 {
            assert(m & (1u64 << ((cc * 7) as u64)) != 0 && m & (1u64 << ((cc * 7 + 1) as u64)) != 0
                && m & (1u64 << ((cc * 7 + 2) as u64)) == 0 ==> (m | (m + (1u64 << ((cc
                * 7) as u64))) as u64) == (m | (1u64 << ((cc * 7 + 2) as u64)))) by (bit_vector);
        } else if jj == 3 {
            assert(m & (1u64 << ((cc * 7) as u64)) != 0 && m & (1u64 << ((cc * 7 + 1) as u64)) != 0
                && m & (1u64 << ((cc * 7 + 2) as u64)) != 0 && m & (1u64 << ((cc * 7
                + 3) as u64)) == 0 ==> (m | (m + (1u64 << ((cc * 7) as u64))) as u64) == (m | (1u64
                << ((cc * 7 + 3) as u64)))) by (bit_vector);
        } else if jj == 4 {
            assert(m & (1u64 << ((cc * 7) as u64)) != 0 && m & (1u64 << ((cc * 7 + 1) as u64)) != 0
                && m & (1u64 << ((cc * 7 + 2) as u64)) != 0 && m & (1u64 << ((cc * 7
                + 3) as u64)) != 0 && m & (1u64 << ((cc * 7 + 4) as u64)) == 0 ==> (m | (m + (1u64
                << ((cc * 7) as u64))) as u64) == (m | (1u64 << ((cc * 7 + 4) as u64))))
                by (bit_vector);
        } else {
            assert(m & (1u64 << ((cc * 7) as u64)) != 0 && m & (1u64 << ((cc * 7 + 1) as u64)) != 0
                && m & (1u64 << ((cc * 7 + 2) as u64)) != 0 && m & (1u64 << ((cc * 7
                + 3) as u64)) != 0 && m & (1u64 << ((cc * 7 + 4) as u64)) != 0 && m & (1u64 << ((cc
                * 7 + 5) as u64)) == 0 ==> (m | (m + (1u64 << ((cc * 7) as u64))) as u64) == (m | (
            1u64 << ((cc * 7 + 5) as u64)))) by (bit_vector);
        }
    }

    // the played cell was empty and now belongs to the mover
    assert(b & (1u64 << ((cc * 7 + jv) as u64)) == 0) by {
        assert(b & !m == 0 && m & (1u64 << ((cc * 7 + jv) as u64)) == 0 ==> b & (1u64 << ((cc * 7
            + jv) as u64)) == 0) by (bit_vector);
    }
    assert(get_bit(g2.mask, (c * 7 + jj) as u64)) by {
        assert(cc < 7 && jv <= 5 ==> (m | (1u64 << ((cc * 7 + jv) as u64))) & (1u64 << ((cc * 7
            + jv) as u64)) != 0) by (bit_vector);
    }
    assert(!get_bit(g2.board, (c * 7 + jj) as u64)) by {
        assert(b & (1u64 << ((cc * 7 + jv) as u64)) == 0 && m & (1u64 << ((cc * 7 + jv) as u64))
            == 0 ==> (b ^ m) & (1u64 << ((cc * 7 + jv) as u64)) == 0) by (bit_vector);
    }

    // every other cell keeps its bits in the mask, and flips its board bit
    // exactly when it is occupied
    assert forall|ci: int, rj: int|
        0 <= ci < 7 && 0 <= rj < 6 && !(ci == c && rj == jj) implies cell_spec(g2, ci, rj)
        == cell_spec(g, ci, rj) by {
        let pos = (ci * 7 + rj) as u64;
        assert(ci * 7 + rj != c * 7 + jj);
        let cu = ci as u64;
        let ru = rj as u64;
        assert(g2.mask & (1u64 << pos) == m & (1u64 << pos)) by {
            assert(cu * 7 + ru < 49 && cc * 7 + jv < 49 && cu * 7 + ru != cc * 7 + jv ==> (m | (
            1u64 << ((cc * 7 + jv) as u64))) & (1u64 << ((cu * 7 + ru) as u64)) == m & (1u64 << ((
            cu * 7 + ru) as u64))) by (bit_vector);
        }
        if get_bit(m, pos) {
            assert((b ^ m) & (1u64 << pos) != 0 <==> b & (1u64 << pos) == 0) by {
                assert(m & (1u64 << ((cu * 7 + ru) as u64)) != 0 ==> ((b ^ m) & (1u64 << ((cu * 7
                    + ru) as u64)) != 0 <==> b & (1u64 << ((cu * 7 + ru) as u64)) == 0))
                    by (bit_vector);
            }
        }
    }
}

/// Owner of cell `(c, j)`: 0 empty, 1 first player, 2 second player.
pub open spec fn cell_spec(g: Game, c: int, j: int) -> u8 {
    if !get_bit(g.mask, (c * 7 + j) as u64) {
        0
    } else {
        let mover: u8 = if get_bit(g.board, (c * 7 + j) as u64) {
            1
        } else {
            2
        };
        if g.first_player {
            mover
        } else {
            (3 - mover) as u8
        }
    }
}

impl Game {
    /// Empty board, first player to move.
    pub fn new() -> (g: Game)
        ensures
            g.board == 0u64,
            g.mask == 0u64,
            g.first_player == true,
            board_ok(g),
    {
        proof {
            assert(0u64 & !FULL_MASK == 0 && 0u64 & !0u64 == 0) by (bit_vector);
        }
        Game { board: 0, mask: 0, first_player: true }
    }

    /// Field-for-field copy.
    pub fn copy(&self) -> (g: Game)
        ensures
            g == *self,
    {
        Game { board: self.board, mask: self.mask, first_player: self.first_player }
    }

    /// 1 while the first player is to move, 2 otherwise.
    pub fn get_turn(&self) -> (t: i32)
        ensures
            t == if self.first_player { 1int } else { 2 },
    {
        if self.first_player {
            1
        } else {
            2
        }
    }

    /// Per-column, bottom-up view of the grid; entry `[c][j]` is the owner of
    /// the cell in column `c`, row `j`.
    pub fn get_board(&self) -> (r: Vec<Vec<u8>>)
        ensures
            r@.len() == 7,
            forall|c: int| 0 <= c < 7 ==> #[trigger] r@[c]@.len() == 6,
            forall|c: int, j: int|
                0 <= c < 7 && 0 <= j < 6 ==> #[trigger] r@[c]@[j] == cell_spec(*self, c, j),
    {
        let mut out: Vec<Vec<u8>> = Vec::new();
        let mut c: usize = 0;
        while c < 7
            invariant
                c <= 7,
                out@.len() == c,
                forall|ci: int| 0 <= ci < c ==> #[trigger] out@[ci]@.len() == 6,
                forall|ci: int, j: int|
                    0 <= ci < c && 0 <= j < 6 ==> #[trigger] out@[ci]@[j] == cell_spec(
                        *self,
                        ci,
                        j,
                    ),
            decreases 7 - c,
        {
            let mut col: Vec<u8> = Vec::new();
            let mut j: usize = 0;
            while j < 6
                invariant
                    j <= 6,
                    c < 7,
                    col@.len() == j,
                    forall|ji: int|
                        0 <= ji < j ==> #[trigger] col@[ji] == cell_spec(*self, c as int, ji),
                decreases 6 - j,
            {
                let shift: u64 = (c * 7 + j) as u64;
                let position: u64 = 1u64 << shift;
                let v: u8 = if self.mask & position != 0 {
                    let bit: u8 = if self.board & position != 0 {
                        1
                    } else {
                        2
                    };
                    if self.first_player {
                        bit
                    } else {
                        3 - bit
                    }
                } else {
                    0
                };
                col.push(v);
                j = j + 1;
            }
            out.push(col);
            c = c + 1;
        }
        out
    }

    /// Drop a piece in `column` if it has room, handing the turn over;
    /// reports whether the move just made wins the game. A full column
    /// leaves the state unchanged and reports `false`.
    pub fn play_piece(&mut self, column: usize) -> (won: bool)
        requires
            column < 7,
            board_ok(*old(self)),
        ensures
            *final(self) == play_spec(*old(self), column),
            board_ok(*final(self)),
            won == (playable_spec(*old(self), column) && win_spec(
                final(self).board ^ final(self).mask,
            )),
    {
        let shift_top: u64 = (column * 7 + 5) as u64;
        let top_mask: u64 = 1u64 << shift_top;
        if self.mask & top_mask == 0 {
            let shift_bot: u64 = (column * 7) as u64;
            proof {
                let m = self.mask;
                let c = column as u64;
                assert(m & !FULL_MASK == 0 && (m >> ((c * 7 + 5) as u64)) & 1 == (
                if m & (1u64 << ((c * 7 + 5) as u64)) != 0 {
                    1u64
                } else {
                    0u64
                }) ==> m + (1u64 << ((c * 7) as u64)) <= 0xffff_ffff_ffff_ffffu64) by (bit_vector);
                assert((m >> ((c * 7 + 5) as u64)) & 1 == (
                if m & (1u64 << ((c * 7 + 5) as u64)) != 0 {
                    1u64
                } else {
                    0u64
                })) by (bit_vector);
            }
            self.board = self.board ^ self.mask;
            self.mask = self.mask | (self.mask + (1u64 << shift_bot));
            self.first_player = !self.first_player;
            proof {
                let g0 = *old(self);
                let m = g0.mask;
                let b = g0.board;
                let c = column as u64;
                assert(m & !FULL_MASK == 0 && b & !m == 0 && m & (1u64 << ((c * 7 + 5) as u64))
                    == 0 && c < 7 ==> {
                    &&& (m | (m + (1u64 << ((c * 7) as u64))) as u64) & !FULL_MASK == 0
                    &&& (b ^ m) & !(m | (m + (1u64 << ((c * 7) as u64))) as u64) == 0
                }) by (bit_vector);
            }
            return self.check_for_win();
        }
        false
    }

    /// The bitboard four-in-a-row formula, applied to the stones of the
    /// player who moved last.
    pub fn check_for_win(&self) -> (won: bool)
        ensures
            won == win_spec(self.board ^ self.mask),
    {
        let board: u64 = self.board ^ self.mask;

        let mut n: u64 = board & (board >> 7);
        if n & (n >> 14) != 0 {
            return true;
        }
        n = board & (board >> 6);
        if n & (n >> 12) != 0 {
            return true;
        }
        n = board & (board >> 8);
        if n & (n >> 16) != 0 {
            return true;
        }
        n = board & (board >> 1);
        if n & (n >> 2) != 0 {
            return true;
        }
        false
    }

    /// The board is completely full.
    pub fn check_for_tie(&self) -> (tie: bool)
        ensures
            tie == (self.mask == FULL_MASK),
    {
        self.mask == FULL_MASK
    }

    /// Like [`Game::play_piece`], but reports whether the move was made
    /// instead of testing for a win.
    fn play_piece_no_check(&mut self, column: usize) -> (played: bool)
        requires
            column < 7,
            board_ok(*old(self)),
        ensures
            *final(self) == play_spec(*old(self), column),
            board_ok(*final(self)),
            played == playable_spec(*old(self), column),
    {
        let shift_top: u64 = (column * 7 + 5) as u64;
        let top_mask: u64 = 1u64 << shift_top;
        if self.mask & top_mask == 0 {
            let shift_bot: u64 = (column * 7) as u64;
            proof {
                let m = self.mask;
                let c = column as u64;
                assert(m & !FULL_MASK == 0 ==> m + (1u64 << ((c * 7) as u64))
                    <= 0xffff_ffff_ffff_ffffu64) by (bit_vector);
            }
            self.board = self.board ^ self.mask;
            self.mask = self.mask | (self.mask + (1u64 << shift_bot));
            self.first_player = !self.first_player;
            proof {
                let g0 = *old(self);
                let m = g0.mask;
                let b = g0.board;
                let c = column as u64;
                assert(m & !FULL_MASK == 0 && b & !m == 0 && m & (1u64 << ((c * 7 + 5) as u64))
                    == 0 && c < 7 ==> {
                    &&& (m | (m + (1u64 << ((c * 7) as u64))) as u64) & !FULL_MASK == 0
                    &&& (b ^ m) & !(m | (m + (1u64 << ((c * 7) as u64))) as u64) == 0
                }) by (bit_vector);
            }
            return true;
        }
        false
    }

    /// The successor states of all legal moves, in column order.
    pub fn get_nodes(&self) -> (nodes: Vec<Game>)
        requires
            board_ok(*self),
        ensures
            nodes@ == moves_spec(*self, 0).map_values(|m: (usize, Game)| m.1),
            forall|k: int| 0 <= k < nodes@.len() ==> board_ok(#[trigger] nodes@[k]),
    {
        let moves = self.get_moves();
        let mut nodes: Vec<Game> = Vec::new();
        let mut i: usize = 0;
        while i < moves.len()
            invariant
                i <= moves@.len(),
                nodes@ == moves@.take(i as int).map_values(|m: (usize, Game)| m.1),
                forall|k: int|
                    0 <= k < moves@.len() ==> board_ok((#[trigger] moves@[k]).1) && moves@[k].0
                        < 7,
            decreases moves@.len() - i,
        {
            nodes.push(moves[i].1);
            proof {
                assert(moves@.take(i + 1) =~= moves@.take(i as int).push(moves@[i as int]));
                assert(moves@.take(i + 1).map_values(|m: (usize, Game)| m.1) =~= moves@.take(
                    i as int,
                ).map_values(|m: (usize, Game)| m.1).push(moves@[i as int].1));
            }
            i = i + 1;
        }
        proof {
            assert(moves@.take(moves@.len() as int) =~= moves@);
        }
        nodes
    }

    /// The legal moves: column index paired with the successor state, in
    /// column order.
    pub fn get_moves(&self) -> (moves: Vec<(usize, Game)>)
        requires
            board_ok(*self),
        ensures
            moves@ == moves_spec(*self, 0),
            forall|k: int|
                0 <= k < moves@.len() ==> board_ok((#[trigger] moves@[k]).1) && moves@[k].0 < 7,
    {
        let mut moves: Vec<(usize, Game)> = Vec::new();
        let mut i: usize = 0;
        while i < 7
            invariant
                i <= 7,
                board_ok(*self),
                moves_spec(*self, 0) == moves@ + moves_spec(*self, i as int),
                forall|k: int|
                    0 <= k < moves@.len() ==> board_ok((#[trigger] moves@[k]).1) && moves@[k].0
                        < 7,
            decreases 7 - i,
        {
            let mut game = self.copy();
            let played = game.play_piece_no_check(i);
            if played {
                let ghost pre = moves@;
                moves.push((i, game));
                proof {
                    assert(moves@ =~= pre + seq![(i as usize, game)]);
                    assert(pre + moves_spec(*self, i as int) =~= moves@ + moves_spec(
                        *self,
                        i + 1,
                    ));
                }
            } else {
                proof {
                    assert(moves_spec(*self, i as int) == moves_spec(*self, i + 1));
                }
            }
            i = i + 1;
        }
        moves
    }

    /// Heuristic value for the player who moved last (positive is better).
    pub fn get_heuristic(&self) -> (score: i64)
        ensures
            score == heuristic_spec(*self),
            -512 <= score <= 512,
    {
        let a: u64 = Game::get_one_score(self.board, self.mask);
        let b: u64 = Game::get_one_score(self.board ^ self.mask, self.mask);
        (a as i64) - (b as i64)
    }

    /// Heuristic score of one player's stones: open three-in-a-row groups in
    /// each of the four directions.
    fn get_one_score(board: u64, mask0: u64) -> (score: u64)
        ensures
            score == one_score_spec(board, mask0),
            score <= 512,
    {
        let mask: u64 = !mask0 & FULL_MASK;

        let mut n: u64 = board & (board >> 7) & (board >> 14);
        let mut score: u64 = Game::pop_count(n & (mask >> 21)) + Game::pop_count(n & (mask << 7));

        n = board & (board >> 6) & (board >> 12);
        score = score + Game::pop_count(n & (mask >> 18)) + Game::pop_count(n & (mask << 6));

        n = board & (board >> 8) & (board >> 16);
        score = score + Game::pop_count(n & (mask >> 24)) + Game::pop_count(n & (mask << 8));

        n = board & (board >> 1) & (board >> 2);
        score = score + Game::pop_count(n & (mask >> 3)) + Game::pop_count(n & (mask << 1));

        score
    }

    /// Number of set bits of `x`.
    fn pop_count(x: u64) -> (count: u64)
        ensures
            count == pc_spec(x),
            count <= 64,
    {
        let mut cur: u64 = x;
        let mut acc: u64 = 0;
        let mut i: usize = 0;
        while i < 64
            invariant
                i <= 64,
                acc <= i,
                acc + pc_rec(cur, (64 - i) as nat) == pc_rec(x, 64),
            decreases 64 - i,
        {
            proof {
                assert(cur & 1u64 <= 1) by (bit_vector);
            }
            acc = acc + (cur & 1);
            cur = cur >> 1;
            i = i + 1;
        }
        acc
    }
}

} // verus!
