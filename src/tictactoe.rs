//! Noughts and crosses on a three-by-three board.
use vstd::prelude::*;
use crate::game::Game;
use crate::grid::{
    Position, StateVector, encodes, vectorise_cells, copy_cells, last_side, side_after, empties_below, find_run, has_run, lemma_empties_below, lemma_empties_fill, lemma_empties_len,
    stones_ok,
};
use crate::mcts::MCTSExt;
use crate::rollout::RolloutPolicy;

verus! {

/// A square of the board, numbered `0` to `8` row by row; `9` is no square.
#[derive(Debug, Clone, Copy, PartialEq, Eq, PartialOrd, Ord, Hash, Structural)]
pub struct TicTacToeMove(pub usize);

impl TicTacToeMove {
    pub fn new(idx: usize) -> (r: Self)
        ensures
            r.0 == idx,
    {
        TicTacToeMove(idx)
    }

    /// The square.
    pub fn index(&self) -> (r: usize)
        ensures
            r == self.0,
    {
        self.0
    }
}

/// A list of moves with room for a full board.
#[derive(Debug, Clone)]
pub struct TTTMoveBuf {
    data: Vec<TicTacToeMove>,
}

impl TTTMoveBuf {
    pub closed spec fn moves(&self) -> Seq<TicTacToeMove> {
        self.data@
    }

    pub fn new() -> (r: Self)
        ensures
            r.moves().len() == 0,
    {
        TTTMoveBuf { data: Vec::new() }
    }

    pub fn push(&mut self, m: TicTacToeMove)
        ensures
            final(self).moves() == old(self).moves().push(m),
    {
        self.data.push(m);
    }

    pub fn len(&self) -> (r: usize)
        ensures
            r == self.moves().len(),
    {
        self.data.len()
    }

    pub fn is_empty(&self) -> (r: bool)
        ensures
            r == (self.moves().len() == 0),
    {
        self.data.len() == 0
    }

    /// The number of moves a buffer is meant for.
    pub fn capacity(&self) -> (r: usize)
        ensures
            r == 9,
    {
        9
    }

    pub fn get(&self, i: usize) -> (r: TicTacToeMove)
        requires
            i < self.moves().len(),
        ensures
            r == self.moves()[i as int],
    {
        self.data[i]
    }

    /// The moves, in order.
    pub fn into_vec(self) -> (r: Vec<TicTacToeMove>)
        ensures
            r@ == self.moves(),
    {
        self.data
    }
}

/// A position of noughts and crosses; crosses (`1`) move first.
#[derive(Debug, Clone, PartialEq, Eq)]
pub struct TicTacToe {
    cells: Vec<i8>,
    moves: usize,
}

/// The moves to the empty squares of the first `n` cells.
pub open spec fn ttt_moves(cells: Seq<i8>) -> Seq<TicTacToeMove> {
    empties_below(cells, 9).map_values(|i: usize| TicTacToeMove(i))
}

impl TicTacToe {
    /// The empty board.
    pub fn new() -> (r: Self)
        ensures
            <TicTacToe as Game>::valid(r.model()),
            r.model().moves == 0,
            r.model().cells == Seq::new(9, |i: int| 0i8),
    {
        let mut cells: Vec<i8> = Vec::new();
        let mut i: usize = 0;
        while i < 9
            invariant
                i <= 9,
                cells@ == Seq::new(i as nat, |j: int| 0i8),
            decreases 9 - i,
        {
            cells.push(0);
            i = i + 1;
            assert(cells@ =~= Seq::new(i as nat, |j: int| 0i8));
        }
        let r = TicTacToe { cells, moves: 0 };
        proof {
            lemma_all_empty(r.cells@, 9);
        }
        r
    }

    /// Whether square `spot` holds a stone of the side that moved last.
    pub fn probe_spot(&self, spot: usize) -> (r: bool)
        requires
            <TicTacToe as Game>::valid(self.model()),
            spot < 9,
        ensures
            r == (self.model().cells[spot as int] == last_side(self.model().moves)),
    {
        let last = if self.moves % 2 == 0 { -1i8 } else { 1i8 };
        self.cells[spot] == last
    }

    /// The position as bits, two per cell: a nought, then a cross (for connect
    /// four: a stone of the second player, then one of the first).
    pub fn vectorise_state(&self) -> (r: StateVector)
        requires
            <TicTacToe as Game>::valid(self.model()),
        ensures
            encodes(r.data@, self.model().cells),
    {
        vectorise_cells(&self.cells)
    }

    /// Whether square `i` holds a stone.
    pub fn pos_filled(&self, i: usize) -> (r: bool)
        requires
            <TicTacToe as Game>::valid(self.model()),
            i < 9,
        ensures
            r == (self.model().cells[i as int] != 0),
    {
        self.cells[i] != 0
    }

    /// Whether the stone on square `i` is a cross.
    pub fn player_at(&self, i: usize) -> (r: bool)
        requires
            <TicTacToe as Game>::valid(self.model()),
            i < 9,
            self.model().cells[i as int] != 0,
        ensures
            r == (self.model().cells[i as int] == 1),
    {
        self.cells[i] == 1
    }

    /// `X`, `O` or `.` for the square in column `x`, row `y`.
    pub fn char_at(&self, x: usize, y: usize) -> (r: char)
        requires
            <TicTacToe as Game>::valid(self.model()),
            x < 3,
            y < 3,
        ensures
            r == (if self.model().cells[y * 3 + x] == 1 {
                'X'
            } else if self.model().cells[y * 3 + x] == -1 {
                'O'
            } else {
                '.'
            }),
    {
        let i = y * 3 + x;
        if self.pos_filled(i) {
            if self.player_at(i) {
                'X'
            } else {
                'O'
            }
        } else {
            '.'
        }
    }
}

proof fn lemma_all_empty(cells: Seq<i8>, n: int)
    requires
        0 <= n <= cells.len(),
        forall|i: int| 0 <= i < cells.len() ==> cells[i] == 0,
    ensures
        empties_below(cells, n).len() == n,
    decreases n,
{
    if n > 0 {
        lemma_all_empty(cells, n - 1);
    }
}

proof fn lemma_has_empty(cells: Seq<i8>, k: int, n: int)
    requires
        0 <= k < n <= cells.len(),
        cells[k] == 0,
    ensures
        empties_below(cells, n).len() >= 1,
{
    lemma_empties_fill(cells, k, 1, n);
}

impl Game for TicTacToe {
    type Move = TicTacToeMove;

    type Model = Position;

    closed spec fn model(&self) -> Position {
        Position { size: 3, cells: self.cells@, moves: self.moves as int, last: 0 }
    }

    open spec fn valid(s: Position) -> bool {
        &&& s.size == 3
        &&& s.cells.len() == 9
        &&& stones_ok(s.cells)
        &&& 0 <= s.moves
        &&& s.moves + empties_below(s.cells, 9).len() == 9
    }

    open spec fn side(s: Position) -> i8 {
        side_after(s.moves)
    }

    open spec fn result(s: Position) -> i8 {
        if has_run(s.cells, 3, 3, 3, last_side(s.moves)) {
            last_side(s.moves)
        } else {
            0
        }
    }

    open spec fn over(s: Position) -> bool {
        empties_below(s.cells, 9).len() == 0 || has_run(s.cells, 3, 3, 3, last_side(s.moves))
    }

    open spec fn legal_moves(s: Position) -> Seq<TicTacToeMove> {
        ttt_moves(s.cells)
    }

    open spec fn after(s: Position, m: TicTacToeMove) -> Position {
        if m.0 < 9 && s.cells[m.0 as int] == 0 {
            Position { size: s.size, cells: s.cells.update(m.0 as int, side_after(s.moves)), moves: s.moves + 1, last: 0 }
        } else {
            s
        }
    }

    open spec fn prior(s: Position, m: TicTacToeMove) -> u32 {
        1
    }

    open spec fn moves_left(s: Position) -> nat {
        empties_below(s.cells, 9).len()
    }

    proof fn lemma_legal_move(s: Position, m: TicTacToeMove) {
        lemma_empties_below(s.cells, 9);
        let j = choose|j: int| 0 <= j < ttt_moves(s.cells).len() && ttt_moves(s.cells)[j] == m;
        assert(empties_below(s.cells, 9)[j] == m.0);
        lemma_empties_fill(s.cells, m.0 as int, side_after(s.moves), 9);
        let t = <TicTacToe as Game>::after(s, m);
        assert(stones_ok(t.cells));
    }

    open spec fn max_branching() -> nat {
        9
    }

    proof fn lemma_branching(s: Position) {
        lemma_empties_len(s.cells, 9);
    }

    proof fn lemma_moves_left_bound(s: Position) {
        lemma_empties_len(s.cells, 9);
    }

    fn turn(&self) -> (r: i8) {
        if self.moves % 2 == 0 {
            1
        } else {
            -1
        }
    }

    fn is_terminal(&self) -> (r: bool) {
        self.moves == 9 || self.evaluate() != 0
    }

    fn evaluate(&self) -> (r: i8) {
        let last = -self.turn();
        if find_run(&self.cells, 3, 3, 3, last) {
            last
        } else {
            0
        }
    }

    fn generate_moves(&self) -> (r: Vec<TicTacToeMove>) {
        let mut buf = TTTMoveBuf::new();
        let mut i: usize = 0;
        while i < 9
            invariant
                i <= 9,
                self.cells@.len() == 9,
                buf.moves() == empties_below(self.cells@, i as int).map_values(|j: usize| TicTacToeMove(j)),
            decreases 9 - i,
        {
            if self.cells[i] == 0 {
                buf.push(TicTacToeMove(i));
            }
            i = i + 1;
            assert(buf.moves() =~= empties_below(self.cells@, i as int).map_values(|j: usize| TicTacToeMove(j)));
        }
        proof {
            if !<TicTacToe as Game>::over(self.model()) {
                assert(empties_below(self.cells@, 9).len() > 0);
            }
        }
        buf.into_vec()
    }

    fn push(&mut self, m: TicTacToeMove) {
        let ghost before = self.cells@;
        if m.0 < 9 && self.cells[m.0] == 0 {
            proof {
                lemma_has_empty(before, m.0 as int, 9);
            }
            let side = self.turn();
            self.cells.set(m.0, side);
            self.moves = self.moves + 1;
            proof {
                lemma_empties_fill(before, m.0 as int, side, 9);
                assert(self.cells@ == before.update(m.0 as int, side));
                assert(stones_ok(self.cells@));
            }
        }
        proof {
            if ttt_moves(before).contains(m) {
                lemma_empties_below(before, 9);
                let j = choose|j: int| 0 <= j < ttt_moves(before).len() && ttt_moves(before)[j] == m;
                assert(empties_below(before, 9)[j] == m.0);
            }
        }
    }

    fn null_move() -> TicTacToeMove {
        TicTacToeMove(9)
    }

    fn snapshot(&self) -> (r: Self) {
        TicTacToe { cells: copy_cells(&self.cells), moves: self.moves }
    }

    fn policy(&self, m: TicTacToeMove) -> (r: u32) {
        1
    }
}

impl MCTSExt for TicTacToe {
    fn rollout_cutoff_length() -> usize {
        100_000
    }

    fn rollout_policy() -> RolloutPolicy {
        RolloutPolicy::Random
    }
}

} // verus!
