//! Gomoku: five in a row on a square board.
use vstd::prelude::*;
use crate::game::Game;
use crate::grid::{
    Position, copy_cells, empties_below, find_run_through, has_run_through, last_side,
    lemma_empties_below, lemma_empties_fill, lemma_empties_len, side_after, stones_ok,
};
use crate::mcts::MCTSExt;
use crate::rollout::RolloutPolicy;

verus! {

/// The number of stones in a winning line.
pub const WIN_LINE_LENGTH: usize = 5;

/// The largest board side.
pub const MAX_SIDE: usize = 26;

/// A move: the square `loc`, numbered row by row.
#[derive(Debug, Clone, Copy, PartialEq, Eq, PartialOrd, Ord, Hash, Structural)]
pub struct Move {
    pub loc: u16,
}

impl Move {
    pub fn new(loc: u16) -> (r: Self)
        ensures
            r.loc == loc,
    {
        Move { loc }
    }

    /// The row of the square on a board of side `n`.
    pub fn row(self, n: usize) -> (r: usize)
        requires
            n >= 1,
        ensures
            r == self.loc as int / (n as int),
    {
        self.loc as usize / n
    }

    /// The column of the square on a board of side `n`.
    pub fn col(self, n: usize) -> (r: usize)
        requires
            n >= 1,
        ensures
            r == self.loc as int % (n as int),
    {
        self.loc as usize % n
    }
}

/// A list of moves with room for the whole board.
#[derive(Debug, Clone)]
pub struct Buffer {
    moves: Vec<Move>,
}

impl Buffer {
    pub closed spec fn view_moves(&self) -> Seq<Move> {
        self.moves@
    }

    pub fn new() -> (r: Self)
        ensures
            r.view_moves().len() == 0,
    {
        Buffer { moves: Vec::new() }
    }

    pub fn push(&mut self, m: Move)
        ensures
            final(self).view_moves() == old(self).view_moves().push(m),
    {
        self.moves.push(m);
    }

    pub fn len(&self) -> (r: usize)
        ensures
            r == self.view_moves().len(),
    {
        self.moves.len()
    }

    pub fn is_empty(&self) -> (r: bool)
        ensures
            r == (self.view_moves().len() == 0),
    {
        self.moves.len() == 0
    }

    pub fn get(&self, i: usize) -> (r: Move)
        requires
            i < self.view_moves().len(),
        ensures
            r == self.view_moves()[i as int],
    {
        self.moves[i]
    }

    /// The moves, in order.
    pub fn into_vec(self) -> (r: Vec<Move>)
        ensures
            r@ == self.view_moves(),
    {
        self.moves
    }
}

/// A position of gomoku on a square board.
#[derive(Debug, Clone, PartialEq, Eq)]
pub struct Gomoku {
    size: usize,
    cells: Vec<i8>,
    moves: usize,
    last_move: usize,
}

/// The moves to the empty squares.
pub open spec fn gomoku_moves(cells: Seq<i8>) -> Seq<Move> {
    empties_below(cells, cells.len() as int).map_values(|i: usize| Move { loc: i as u16 })
}

proof fn lemma_all_empty(cells: Seq<i8>, n: int)
    requires
        0 <= n <= cells.len(),
        forall|i: int| 0 <= i < cells.len() ==> cells[i] == 0,
    ensures
        empties_below(cells, n).len() == n,
    decreases n,
{
    if n > 0 {
        lemma_all_empty(cells, n - 1);
    }
}

impl Gomoku {
    /// The empty board of side `size`.
    pub fn new(size: usize) -> (r: Self)
        requires
            1 <= size <= MAX_SIDE,
        ensures
            <Gomoku as Game>::valid(r.model()),
            r.model().moves == 0,
            r.model().size == size,
    {
        assert(1 <= size * size <= MAX_SIDE * MAX_SIDE) by (nonlinear_arith)
            requires 1 <= size <= MAX_SIDE;
        let total = size * size;
        let mut cells: Vec<i8> = Vec::new();
        let mut i: usize = 0;
        while i < total
            invariant
                1 <= size <= MAX_SIDE,
                i <= total,
                total == size * size,
                cells@ == Seq::new(i as nat, |j: int| 0i8),
            decreases total - i,
        {
            cells.push(0);
            i = i + 1;
            assert(cells@ =~= Seq::new(i as nat, |j: int| 0i8));
        }
        let r = Gomoku { size, cells, moves: 0, last_move: 0 };
        proof {
            lemma_all_empty(r.cells@, (size * size) as int);
        }
        r
    }

    /// The side of the board.
    pub fn size(&self) -> (r: usize)
        ensures
            r == self.model().size,
    {
        self.size
    }

    /// The stone on square `loc`: `1`, `-1`, or `0` for none.
    pub fn stone(&self, loc: usize) -> (r: i8)
        requires
            <Gomoku as Game>::valid(self.model()),
            loc < self.model().size * self.model().size,
        ensures
            r == self.model().cells[loc as int],
    {
        self.cells[loc]
    }

    /// Whether some stone lies next to square `loc`, diagonals included.
    pub fn has_neighbour(&self, loc: usize) -> (r: bool)
        requires
            <Gomoku as Game>::valid(self.model()),
            loc < self.model().size * self.model().size,
        ensures
            r == exists|dr: int, dc: int|
                -1 <= dr <= 1 && -1 <= dc <= 1 && !(dr == 0 && dc == 0) && #[trigger] stone_at(
                    self.model().cells,
                    self.model().size,
                    loc as int / (self.model().size) + dr,
                    loc as int % (self.model().size) + dc,
                ),
    {
        proof {
            lemma_board(self);
            lemma_square(self.size, loc);
        }
        let row = (loc / self.size) as i64;
        let col = (loc % self.size) as i64;
        let mut dr: i64 = -1;
        while dr <= 1
            invariant
                <Gomoku as Game>::valid(self.model()),
                1 <= self.size <= MAX_SIDE,
                row == loc as int / (self.model().size),
                col == loc as int % (self.model().size),
                0 <= row < self.size,
                0 <= col < self.size,
                -1 <= dr <= 2,
                forall|dr2: int, dc2: int|
                    -1 <= dr2 < dr && -1 <= dc2 <= 1 && !(dr2 == 0 && dc2 == 0) ==> !#[trigger] stone_at(
                        self.model().cells,
                        self.model().size,
                        row + dr2,
                        col + dc2,
                    ),
            decreases 2 - dr,
        {
            let mut dc: i64 = -1;
            while dc <= 1
                invariant
                    <Gomoku as Game>::valid(self.model()),
                    1 <= self.size <= MAX_SIDE,
                    row == loc as int / (self.model().size),
                    col == loc as int % (self.model().size),
                    0 <= row < self.size,
                    0 <= col < self.size,
                    -1 <= dr <= 1,
                    -1 <= dc <= 2,
                    forall|dr2: int, dc2: int|
                        (-1 <= dr2 < dr && -1 <= dc2 <= 1 || dr2 == dr && -1 <= dc2 < dc) && !(dr2 == 0
                            && dc2 == 0) ==> !#[trigger] stone_at(
                            self.model().cells,
                            self.model().size,
                            row + dr2,
                            col + dc2,
                        ),
                decreases 2 - dc,
            {
                if dr != 0 || dc != 0 {
                    let r = row + dr;
                    let c = col + dc;
                    if r >= 0 && r < self.size as i64 && c >= 0 && c < self.size as i64 {
                        assert(r * self.size + c < self.size * self.size) by (nonlinear_arith)
                            requires 0 <= r < self.size, 0 <= c < self.size;
                        assert(r * self.size <= MAX_SIDE * MAX_SIDE) by (nonlinear_arith)
                            requires 0 <= r < self.size, self.size <= MAX_SIDE;
                        if self.cells[r as usize * self.size + c as usize] != 0 {
                            assert(stone_at(self.model().cells, self.model().size, row + dr, col + dc));
                            return true;
                        }
                    }
                }
                dc = dc + 1;
            }
            dr = dr + 1;
        }
        false
    }
}

proof fn lemma_board(g: &Gomoku)
    requires
        <Gomoku as Game>::valid(g.model()),
    ensures
        1 <= g.size <= MAX_SIDE,
        g.size * g.size <= MAX_SIDE * MAX_SIDE,
        g.cells@.len() == g.size * g.size,
        g.last_move < g.size * g.size,
        g.last_move / g.size < g.size,
{
    lemma_square(g.size, g.last_move);
}

proof fn lemma_square(n: usize, loc: usize)
    requires
        1 <= n <= MAX_SIDE,
        loc < n * n,
    ensures
        n * n <= MAX_SIDE * MAX_SIDE,
        loc / n < n,
        loc % n < n,
        (loc / n) * n + loc % n == loc,
{
    assert(n * n <= MAX_SIDE * MAX_SIDE) by (nonlinear_arith)
        requires 1 <= n <= MAX_SIDE;
    assert(loc / n < n) by (nonlinear_arith)
        requires loc < n * n, n >= 1;
    assert((loc / n) * n + loc % n == loc) by (nonlinear_arith)
        requires n >= 1;
}

/// Row `r`, column `c` is on the `n` by `n` board and holds a stone.
pub open spec fn stone_at(cells: Seq<i8>, n: int, r: int, c: int) -> bool {
    0 <= r < n && 0 <= c < n && cells[r * n + c] != 0
}

impl Game for Gomoku {
    type Move = Move;

    type Model = Position;

    closed spec fn model(&self) -> Position {
        Position { size: self.size as int, cells: self.cells@, moves: self.moves as int, last: self.last_move as int }
    }

    open spec fn valid(s: Position) -> bool {
        &&& 1 <= s.size <= MAX_SIDE
        &&& s.cells.len() == s.size * s.size
        &&& stones_ok(s.cells)
        &&& 0 <= s.moves
        &&& 0 <= s.last < s.size * s.size
        &&& s.moves + empties_below(s.cells, s.size * s.size).len() == s.size * s.size
    }

    open spec fn side(s: Position) -> i8 {
        side_after(s.moves)
    }

    open spec fn result(s: Position) -> i8 {
        if has_run_through(s.cells, s.size, s.size, 5, last_side(s.moves), s.last / (s.size), s.last % (s.size)) {
            last_side(s.moves)
        } else {
            0
        }
    }

    open spec fn over(s: Position) -> bool {
        empties_below(s.cells, s.size * s.size).len() == 0 || has_run_through(
            s.cells,
            s.size,
            s.size,
            5,
            last_side(s.moves),
            s.last / (s.size),
            s.last % (s.size),
        )
    }

    open spec fn legal_moves(s: Position) -> Seq<Move> {
        gomoku_moves(s.cells)
    }

    open spec fn after(s: Position, m: Move) -> Position {
        if m.loc < s.size * s.size && s.cells[m.loc as int] == 0 {
            Position {
                size: s.size,
                cells: s.cells.update(m.loc as int, side_after(s.moves)),
                moves: s.moves + 1,
                last: m.loc as int,
            }
        } else {
            s
        }
    }

    /// Three for a square next to a stone, one elsewhere.
    open spec fn prior(s: Position, m: Move) -> u32 {
        if m.loc < s.size * s.size && exists|dr: int, dc: int|
            -1 <= dr <= 1 && -1 <= dc <= 1 && !(dr == 0 && dc == 0) && #[trigger] stone_at(
                s.cells,
                s.size,
                m.loc as int / s.size + dr,
                m.loc as int % s.size + dc,
            ) {
            3
        } else {
            1
        }
    }

    open spec fn moves_left(s: Position) -> nat {
        empties_below(s.cells, s.size * s.size).len()
    }

    proof fn lemma_legal_move(s: Position, m: Move) {
        assert(s.size * s.size <= MAX_SIDE * MAX_SIDE) by (nonlinear_arith)
            requires 1 <= s.size <= MAX_SIDE;
        lemma_empties_below(s.cells, s.size * s.size);
        let j = choose|j: int| 0 <= j < gomoku_moves(s.cells).len() && gomoku_moves(s.cells)[j] == m;
        let e = empties_below(s.cells, s.size * s.size)[j];
        assert(m.loc == e);
        lemma_empties_fill(s.cells, m.loc as int, side_after(s.moves), s.size * s.size);
        let t = <Gomoku as Game>::after(s, m);
        assert(stones_ok(t.cells));
    }

    open spec fn max_branching() -> nat {
        (MAX_SIDE * MAX_SIDE) as nat
    }

    proof fn lemma_branching(s: Position) {
        assert(s.size * s.size <= MAX_SIDE * MAX_SIDE) by (nonlinear_arith)
            requires 1 <= s.size <= MAX_SIDE;
        lemma_empties_len(s.cells, s.cells.len() as int);
    }

    proof fn lemma_moves_left_bound(s: Position) {
        assert(s.size * s.size <= MAX_SIDE * MAX_SIDE) by (nonlinear_arith)
            requires 1 <= s.size <= MAX_SIDE;
        lemma_empties_len(s.cells, s.size * s.size);
    }

    fn turn(&self) -> (r: i8) {
        if self.moves % 2 == 0 {
            1
        } else {
            -1
        }
    }

    fn is_terminal(&self) -> (r: bool) {
        proof {
            lemma_board(self);
        }
        self.moves >= self.size * self.size || self.evaluate() != 0
    }

    fn evaluate(&self) -> (r: i8) {
        proof {
            lemma_board(self);
        }
        let last = -self.turn();
        let row = self.last_move / self.size;
        let col = self.last_move % self.size;
        if find_run_through(&self.cells, self.size, self.size, WIN_LINE_LENGTH, last, row, col) {
            last
        } else {
            0
        }
    }

    fn generate_moves(&self) -> (r: Vec<Move>) {
        proof {
            lemma_board(self);
        }
        let mut buf = Buffer::new();
        let mut i: usize = 0;
        let total = self.size * self.size;
        while i < total
            invariant
                1 <= self.size <= MAX_SIDE,
                total == self.size * self.size,
                total <= MAX_SIDE * MAX_SIDE,
                i <= total,
                self.cells@.len() == self.size * self.size,
                buf.view_moves() == empties_below(self.cells@, i as int).map_values(
                    |j: usize| Move { loc: j as u16 },
                ),
            decreases total - i,
        {
            if self.cells[i] == 0 {
                buf.push(Move { loc: i as u16 });
            }
            i = i + 1;
            assert(buf.view_moves() =~= empties_below(self.cells@, i as int).map_values(
                |j: usize| Move { loc: j as u16 },
            ));
        }
        proof {
            lemma_empties_len(self.cells@, (self.size * self.size) as int);
            assert(self.size * self.size <= MAX_SIDE * MAX_SIDE) by (nonlinear_arith)
                requires 1 <= self.size <= MAX_SIDE;
        }
        buf.into_vec()
    }

    fn push(&mut self, m: Move) {
        proof {
            lemma_board(self);
        }
        let ghost before = self.cells@;
        if (m.loc as usize) < self.size * self.size && self.cells[m.loc as usize] == 0 {
            let k = m.loc as usize;
            proof {
                lemma_empties_fill(before, k as int, 1, (self.size * self.size) as int);
            }
            let side = self.turn();
            proof {
                lemma_empties_fill(before, k as int, side, (self.size * self.size) as int);
            }
            self.cells.set(k, side);
            self.moves = self.moves + 1;
            self.last_move = k;
            proof {
                assert(self.cells@ == before.update(k as int, side));
                assert(stones_ok(self.cells@));
            }
        }
        proof {
            if gomoku_moves(before).contains(m) {
                lemma_empties_below(before, (self.size * self.size) as int);
                let j = choose|j: int| 0 <= j < gomoku_moves(before).len() && gomoku_moves(before)[j] == m;
                let e = empties_below(before, (self.size * self.size) as int)[j];
                assert(m.loc == e as u16);
                assert(e < self.size * self.size);
                assert(self.size * self.size <= MAX_SIDE * MAX_SIDE) by (nonlinear_arith)
                    requires 1 <= self.size <= MAX_SIDE;
                assert(m.loc == e);
            }
        }
    }

    fn null_move() -> Move {
        Move { loc: 0xffff }
    }

    fn snapshot(&self) -> (r: Self) {
        Gomoku { size: self.size, cells: copy_cells(&self.cells), moves: self.moves, last_move: self.last_move }
    }

    /// Three times the weight for a square next to a stone.
    fn policy(&self, m: Move) -> (r: u32) {
        proof {
            lemma_board(self);
        }
        let loc = m.loc as usize;
        if loc < self.size * self.size && self.has_neighbour(loc) {
            3
        } else {
            1
        }
    }
}

impl MCTSExt for Gomoku {
    fn rollout_cutoff_length() -> usize {
        100_000
    }

    fn rollout_policy() -> RolloutPolicy {
        RolloutPolicy::Random
    }
}

} // verus!
