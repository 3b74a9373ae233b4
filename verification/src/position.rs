//! The plain values of a game that the search reads: moves, results and
//! positions. The rules of the game are not part of this library; whoever
//! applies them hands these values in.
use vstd::prelude::*;

verus! {

/// A move from one square to another. A square is `9 * rank + file`, with rank
/// and file counted from 0; the null move goes from square 0 to square 0.
#[derive(Clone, Copy, Debug, PartialEq, Eq, Structural)]
pub struct Move {
    pub from: u8,
    pub to: u8,
}

/// A square seen from the other side of the board: the rank is mirrored and the
/// file kept. Numbers that are no square stay as they are.
pub open spec fn flipped_square(square: u8) -> u8 {
    if square < 90 {
        ((9 - square as int / 9) * 9 + square as int % 9) as u8
    } else {
        square
    }
}

fn flip_square(square: u8) -> (r: u8)
    ensures
        r == flipped_square(square),
{
    if square < 90 {
        (9 - square / 9) * 9 + square % 9
    } else {
        square
    }
}

impl Move {
    /// The move between two squares.
    pub fn new(from: u8, to: u8) -> (r: Self)
        ensures
            r == (Move { from, to }),
    {
        Move { from, to }
    }

    /// The null move.
    pub fn null() -> (r: Self)
        ensures
            r == (Move { from: 0, to: 0 }),
    {
        Move { from: 0, to: 0 }
    }

    pub open spec fn spec_is_null(self) -> bool {
        self.from == 0 && self.to == 0
    }

    /// Whether this is the null move.
    pub fn is_null(self) -> (r: bool)
        ensures
            r == self.spec_is_null(),
    {
        self.from == 0 && self.to == 0
    }

    pub open spec fn spec_flip(self) -> Move {
        Move { from: flipped_square(self.from), to: flipped_square(self.to) }
    }

    /// The move seen from the other side of the board.
    pub fn flip(self) -> (r: Self)
        ensures
            r == self.spec_flip(),
    {
        Move { from: flip_square(self.from), to: flip_square(self.to) }
    }
}

/// A move in the coordinates of the side whose turn it is: mirrored for that
/// side where `flip` is set. The null move is never mirrored.
pub open spec fn oriented(mv: Move, flip: bool) -> Move {
    if flip && !mv.spec_is_null() {
        mv.spec_flip()
    } else {
        mv
    }
}

/// Mirrors a move for output where `flip` is set; the null move stays null.
pub fn orient_move(mv: Move, flip: bool) -> (r: Move)
    ensures
        r == oriented(mv, flip),
{
    if flip && !mv.is_null() {
        mv.flip()
    } else {
        mv
    }
}

/// Mirroring a move twice gives it back.
pub proof fn law_flip_is_an_involution(mv: Move)
    ensures
        mv.spec_flip().spec_flip() == mv,
{
    lemma_square_flips_back(mv.from);
    lemma_square_flips_back(mv.to);
}

proof fn lemma_square_flips_back(square: u8)
    ensures
        flipped_square(flipped_square(square)) == square,
{
    if square < 90 {
        let rank = square as int / 9;
        let file = square as int % 9;
        let mirrored = (9 - rank) * 9 + file;
        assert(square == rank * 9 + file && 0 <= file < 9 && 0 <= rank <= 9);
        assert(mirrored / 9 == 9 - rank && mirrored % 9 == file) by (nonlinear_arith)
            requires
                mirrored == (9 - rank) * 9 + file,
                0 <= file < 9,
                0 <= rank <= 9,
        ;
    }
}

/// How a game ended, seen from a fixed side.
#[derive(Clone, Copy, Debug, PartialEq, Eq, Structural)]
pub enum GameResult {
    Undecided,
    BlackWon,
    Draw,
    WhiteWon,
}

impl GameResult {
    /// The place of a result in the order from a loss to a win.
    pub open spec fn spec_rank(self) -> int {
        match self {
            GameResult::Undecided => 0,
            GameResult::BlackWon => 1,
            GameResult::Draw => 2,
            GameResult::WhiteWon => 3,
        }
    }

    /// The same result seen from the other side.
    pub open spec fn spec_negate(self) -> GameResult {
        match self {
            GameResult::BlackWon => GameResult::WhiteWon,
            GameResult::WhiteWon => GameResult::BlackWon,
            other => other,
        }
    }

    /// The better of two results.
    pub open spec fn spec_better(self, other: GameResult) -> GameResult {
        if self.spec_rank() > other.spec_rank() {
            self
        } else {
            other
        }
    }

    fn rank(self) -> (r: u8)
        ensures
            r == self.spec_rank(),
    {
        match self {
            GameResult::Undecided => 0,
            GameResult::BlackWon => 1,
            GameResult::Draw => 2,
            GameResult::WhiteWon => 3,
        }
    }

    /// The same result seen from the other side.
    pub fn negate(self) -> (r: GameResult)
        ensures
            r == self.spec_negate(),
    {
        match self {
            GameResult::BlackWon => GameResult::WhiteWon,
            GameResult::WhiteWon => GameResult::BlackWon,
            other => other,
        }
    }

    /// The better of two results.
    pub fn better(self, other: GameResult) -> (r: GameResult)
        ensures
            r == self.spec_better(other),
    {
        if self.rank() > other.rank() {
            self
        } else {
            other
        }
    }
}

/// What the search reads of one position of a game.
#[derive(Clone, Copy, Debug, PartialEq, Eq, Structural)]
pub struct Position {
    /// Identifies the placement of the pieces: equal exactly for equal boards.
    pub board: u64,
    /// The hash of the board, side to move included.
    pub board_hash: u64,
    pub black_to_move: bool,
    /// How often this position occurred before in the game.
    pub repetitions: u32,
    /// Plies since the position occurred last.
    pub cycle_length: u32,
    /// Plies since the last capture.
    pub rule60_ply: u32,
    /// Plies since the game began.
    pub game_ply: u32,
}

/// Clones a list of moves.
pub fn copy_moves(moves: &Vec<Move>) -> (r: Vec<Move>)
    ensures
        r@ == moves@,
{
    let mut out: Vec<Move> = Vec::new();
    let mut i: usize = 0;
    while i < moves.len()
        invariant
            i <= moves.len(),
            out@ == moves@.take(i as int),
        decreases moves.len() - i,
    {
        out.push(moves[i]);
        i += 1;
        assert(moves@.take(i as int) =~= moves@.take(i - 1).push(moves@[i - 1]));
    }
    assert(moves@.take(i as int) =~= moves@);
    out
}

/// Clones a list of positions.
pub fn copy_positions(positions: &Vec<Position>) -> (r: Vec<Position>)
    ensures
        r@ == positions@,
{
    let mut out: Vec<Position> = Vec::new();
    let mut i: usize = 0;
    while i < positions.len()
        invariant
            i <= positions.len(),
            out@ == positions@.take(i as int),
        decreases positions.len() - i,
    {
        out.push(positions[i]);
        i += 1;
        assert(positions@.take(i as int) =~= positions@.take(i - 1).push(positions@[i - 1]));
    }
    assert(positions@.take(i as int) =~= positions@);
    out
}

/// Whether a move stands in a list.
pub fn contains_move(moves: &Vec<Move>, mv: Move) -> (r: bool)
    ensures
        r == moves@.contains(mv),
{
    let mut i: usize = 0;
    while i < moves.len()
        invariant
            i <= moves.len(),
            forall|j: int| 0 <= j < i ==> moves@[j] != mv,
        decreases moves.len() - i,
    {
        if moves[i] == mv {
            assert(moves@[i as int] == mv);
            return true;
        }
        i += 1;
    }
    false
}

} // verus!
