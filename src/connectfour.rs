//! Connect four: seven columns of six rows; stones drop to the lowest empty
//! cell of a column.
use vstd::prelude::*;
use crate::game::Game;
use crate::grid::{
    Position, StateVector, encodes, vectorise_cells, copy_cells, empties_below, find_run_dir, has_run, has_run_dir, last_side,
    lemma_empties_below, lemma_empties_fill, lemma_empties_len, lemma_has_run_dirs, side_after, stones_ok,
};
use crate::mcts::MCTSExt;
use crate::rollout::RolloutPolicy;

verus! {

/// The number of rows.
pub const ROWS: usize = 6;

/// The number of columns.
pub const COLS: usize = 7;

/// A move: the column, `0` to `6`, to drop a stone in; `7` is no column.
#[derive(Debug, Clone, Copy, PartialEq, Eq, PartialOrd, Ord, Hash, Structural)]
pub struct C4Move(pub usize);

/// A list of moves with room for every column.
#[derive(Debug, Clone)]
pub struct MoveBuf {
    moves: Vec<C4Move>,
}

impl MoveBuf {
    pub closed spec fn view_moves(&self) -> Seq<C4Move> {
        self.moves@
    }

    pub fn new() -> (r: Self)
        ensures
            r.view_moves().len() == 0,
    {
        MoveBuf { moves: Vec::new() }
    }

    pub fn push(&mut self, m: C4Move)
        ensures
            final(self).view_moves() == old(self).view_moves().push(m),
    {
        self.moves.push(m);
    }

    pub fn len(&self) -> (r: usize)
        ensures
            r == self.view_moves().len(),
    {
        self.moves.len()
    }

    pub fn is_empty(&self) -> (r: bool)
        ensures
            r == (self.view_moves().len() == 0),
    {
        self.moves.len() == 0
    }

    /// The number of moves a buffer is meant for.
    pub fn capacity(&self) -> (r: usize)
        ensures
            r == COLS,
    {
        COLS
    }

    pub fn get(&self, i: usize) -> (r: C4Move)
        requires
            i < self.view_moves().len(),
        ensures
            r == self.view_moves()[i as int],
    {
        self.moves[i]
    }

    /// The moves, in order.
    pub fn into_vec(self) -> (r: Vec<C4Move>)
        ensures
            r@ == self.view_moves(),
    {
        self.moves
    }
}

/// A position of connect four; row `0` is the top row.
#[derive(Debug, Clone, PartialEq, Eq)]
pub struct Connect4 {
    cells: Vec<i8>,
    moves: usize,
}

/// The lowest empty row of column `col` at or above row `row`, or `-1`.
pub open spec fn lowest_empty(cells: Seq<i8>, col: int, row: int) -> int
    decreases row + 1,
{
    if row < 0 {
        -1
    } else if cells[row * 7 + col] == 0 {
        row
    } else {
        lowest_empty(cells, col, row - 1)
    }
}

proof fn lemma_lowest_empty(cells: Seq<i8>, col: int, row: int)
    requires
        0 <= col < 7,
        -1 <= row < 6,
        cells.len() == 42,
    ensures
        -1 <= lowest_empty(cells, col, row) <= row,
        lowest_empty(cells, col, row) >= 0 ==> cells[lowest_empty(cells, col, row) * 7 + col] == 0,
        row >= 0 && cells[col] == 0 ==> lowest_empty(cells, col, row) >= 0,
    decreases row + 1,
{
    if row >= 0 {
        lemma_lowest_empty(cells, col, row - 1);
    }
}

/// The moves: the columns whose top cell is empty.
pub open spec fn c4_moves(cells: Seq<i8>) -> Seq<C4Move> {
    empties_below(cells, 7).map_values(|i: usize| C4Move(i))
}

/// Four in a row for `p` along direction `k`.
pub open spec fn four(cells: Seq<i8>, p: i8, k: int) -> bool {
    has_run_dir(cells, 7, 6, 4, p, k)
}

impl Connect4 {
    /// The empty board.
    pub fn new() -> (r: Self)
        ensures
            <Connect4 as Game>::valid(r.model()),
            r.model().moves == 0,
    {
        let mut cells: Vec<i8> = Vec::new();
        let mut i: usize = 0;
        while i < 42
            invariant
                i <= 42,
                cells@ == Seq::new(i as nat, |j: int| 0i8),
            decreases 42 - i,
        {
            cells.push(0);
            i = i + 1;
            assert(cells@ =~= Seq::new(i as nat, |j: int| 0i8));
        }
        let r = Connect4 { cells, moves: 0 };
        proof {
            lemma_all_empty(r.cells@, 42);
        }
        r
    }

    /// The position as bits, two per cell: a nought, then a cross (for connect
    /// four: a stone of the second player, then one of the first).
    pub fn vectorise_state(&self) -> (r: StateVector)
        requires
            <Connect4 as Game>::valid(self.model()),
        ensures
            encodes(r.data@, self.model().cells),
    {
        vectorise_cells(&self.cells)
    }

    /// Whether the cell at `row`, `col` holds a stone.
    pub fn filled(&self, row: usize, col: usize) -> (r: bool)
        requires
            <Connect4 as Game>::valid(self.model()),
            row < ROWS,
            col < COLS,
        ensures
            r == (self.model().cells[row * 7 + col] != 0),
    {
        self.cells[row * COLS + col] != 0
    }

    /// The stone at `row`, `col`: `1`, `-1`, or `0` for none.
    pub fn player_at(&self, row: usize, col: usize) -> (r: i8)
        requires
            <Connect4 as Game>::valid(self.model()),
            row < ROWS,
            col < COLS,
        ensures
            r == self.model().cells[row * 7 + col],
    {
        self.cells[row * COLS + col]
    }

    /// Whether the cell at `row`, `col` holds a stone of the side that moved
    /// last.
    pub fn probe(&self, row: usize, col: usize) -> (r: bool)
        requires
            <Connect4 as Game>::valid(self.model()),
            row < ROWS,
            col < COLS,
        ensures
            r == (self.model().cells[row * 7 + col] == last_side(self.model().moves)),
    {
        let last = if self.moves % 2 == 0 { -1i8 } else { 1i8 };
        self.cells[row * COLS + col] == last
    }

    /// The side that moved last if it has four in a row.
    fn line_eval(&self, k: usize) -> (r: i8)
        requires
            <Connect4 as Game>::valid(self.model()),
            k < 4,
        ensures
            r == if four(self.model().cells, last_side(self.model().moves), k as int) {
                last_side(self.model().moves)
            } else {
                0
            },
    {
        let last = if self.moves % 2 == 0 { -1i8 } else { 1i8 };
        if find_run_dir(&self.cells, COLS, ROWS, 4, last, k) {
            last
        } else {
            0
        }
    }

    /// Four in a row along a row.
    pub fn horizontal_eval(&self) -> (r: i8)
        requires
            <Connect4 as Game>::valid(self.model()),
        ensures
            r == if four(self.model().cells, last_side(self.model().moves), 0) {
                last_side(self.model().moves)
            } else {
                0
            },
    {
        self.line_eval(0)
    }

    /// Four in a row down a column.
    pub fn vertical_eval(&self) -> (r: i8)
        requires
            <Connect4 as Game>::valid(self.model()),
        ensures
            r == if four(self.model().cells, last_side(self.model().moves), 1) {
                last_side(self.model().moves)
            } else {
                0
            },
    {
        self.line_eval(1)
    }

    /// Four in a row on a diagonal rising to the right.
    pub fn diag_up_eval(&self) -> (r: i8)
        requires
            <Connect4 as Game>::valid(self.model()),
        ensures
            r == if four(self.model().cells, last_side(self.model().moves), 3) {
                last_side(self.model().moves)
            } else {
                0
            },
    {
        self.line_eval(3)
    }

    /// Four in a row on a diagonal falling to the right.
    pub fn diag_down_eval(&self) -> (r: i8)
        requires
            <Connect4 as Game>::valid(self.model()),
        ensures
            r == if four(self.model().cells, last_side(self.model().moves), 2) {
                last_side(self.model().moves)
            } else {
                0
            },
    {
        self.line_eval(2)
    }
}

proof fn lemma_all_empty(cells: Seq<i8>, n: int)
    requires
        0 <= n <= cells.len(),
        forall|i: int| 0 <= i < cells.len() ==> cells[i] == 0,
    ensures
        empties_below(cells, n).len() == n,
    decreases n,
{
    if n > 0 {
        lemma_all_empty(cells, n - 1);
    }
}

impl Game for Connect4 {
    type Move = C4Move;

    type Model = Position;

    closed spec fn model(&self) -> Position {
        Position { size: 7, cells: self.cells@, moves: self.moves as int, last: 0 }
    }

    open spec fn valid(s: Position) -> bool {
        &&& s.size == 7
        &&& s.cells.len() == 42
        &&& stones_ok(s.cells)
        &&& 0 <= s.moves
        &&& s.moves + empties_below(s.cells, 42).len() == 42
    }

    open spec fn side(s: Position) -> i8 {
        side_after(s.moves)
    }

    open spec fn result(s: Position) -> i8 {
        if has_run(s.cells, 7, 6, 4, last_side(s.moves)) {
            last_side(s.moves)
        } else {
            0
        }
    }

    open spec fn over(s: Position) -> bool {
        empties_below(s.cells, 7).len() == 0 || has_run(s.cells, 7, 6, 4, last_side(s.moves))
    }

    open spec fn legal_moves(s: Position) -> Seq<C4Move> {
        c4_moves(s.cells)
    }

    open spec fn after(s: Position, m: C4Move) -> Position {
        if m.0 < 7 && s.cells[m.0 as int] == 0 {
            let row = lowest_empty(s.cells, m.0 as int, 5);
            Position {
                size: s.size,
                cells: s.cells.update(row * 7 + m.0, side_after(s.moves)),
                moves: s.moves + 1,
                last: 0,
            }
        } else {
            s
        }
    }

    open spec fn prior(s: Position, m: C4Move) -> u32 {
        1
    }

    open spec fn moves_left(s: Position) -> nat {
        empties_below(s.cells, 42).len()
    }

    proof fn lemma_legal_move(s: Position, m: C4Move) {
        lemma_empties_below(s.cells, 7);
        let j = choose|j: int| 0 <= j < c4_moves(s.cells).len() && c4_moves(s.cells)[j] == m;
        assert(empties_below(s.cells, 7)[j] == m.0);
        lemma_lowest_empty(s.cells, m.0 as int, 5);
        let row = lowest_empty(s.cells, m.0 as int, 5);
        lemma_empties_fill(s.cells, row * 7 + m.0, side_after(s.moves), 42);
        let t = <Connect4 as Game>::after(s, m);
        assert(stones_ok(t.cells));
    }

    open spec fn max_branching() -> nat {
        7
    }

    proof fn lemma_branching(s: Position) {
        lemma_empties_len(s.cells, 7);
    }

    proof fn lemma_moves_left_bound(s: Position) {
        lemma_empties_len(s.cells, 42);
    }

    fn turn(&self) -> (r: i8) {
        if self.moves % 2 == 0 {
            1
        } else {
            -1
        }
    }

    fn is_terminal(&self) -> (r: bool) {
        let mut full = true;
        let mut c: usize = 0;
        while c < COLS
            invariant
                c <= COLS,
                self.cells@.len() == 42,
                full == (empties_below(self.cells@, c as int).len() == 0),
            decreases COLS - c,
        {
            if self.cells[c] == 0 {
                full = false;
            }
            c = c + 1;
        }
        full || self.evaluate() != 0
    }

    fn evaluate(&self) -> (r: i8) {
        proof {
            lemma_has_run_dirs(self.cells@, 7, 6, 4, last_side(self.moves as int));
        }
        let h = self.horizontal_eval();
        if h != 0 {
            return h;
        }
        let v = self.vertical_eval();
        if v != 0 {
            return v;
        }
        let du = self.diag_up_eval();
        if du != 0 {
            return du;
        }
        self.diag_down_eval()
    }

    fn generate_moves(&self) -> (r: Vec<C4Move>) {
        let mut buf = MoveBuf::new();
        let mut i: usize = 0;
        while i < COLS
            invariant
                i <= COLS,
                self.cells@.len() == 42,
                buf.view_moves() == empties_below(self.cells@, i as int).map_values(|j: usize| C4Move(j)),
            decreases COLS - i,
        {
            if self.cells[i] == 0 {
                buf.push(C4Move(i));
            }
            i = i + 1;
            assert(buf.view_moves() =~= empties_below(self.cells@, i as int).map_values(
                |j: usize| C4Move(j),
            ));
        }
        proof {
            lemma_empties_len(self.cells@, 7);
        }
        buf.into_vec()
    }

    fn push(&mut self, m: C4Move) {
        let ghost before = self.cells@;
        if m.0 < COLS && self.cells[m.0] == 0 {
            proof {
                lemma_lowest_empty(before, m.0 as int, 5);
            }
            let mut row: usize = ROWS;
            while row > 0 && self.cells[(row - 1) * COLS + m.0] != 0
                invariant
                    0 <= row <= ROWS,
                    m.0 < 7,
                    self.cells@ == before,
                    before.len() == 42,
                    before[m.0 as int] == 0,
                    lowest_empty(before, m.0 as int, 5) == lowest_empty(before, m.0 as int, row - 1),
                decreases row,
            {
                row = row - 1;
            }
            proof {
                lemma_lowest_empty(before, m.0 as int, row - 1);
            }
            let k = (row - 1) * COLS + m.0;
            let side = self.turn();
            proof {
                lemma_empties_fill(before, k as int, side, 42);
            }
            self.cells.set(k, side);
            self.moves = self.moves + 1;
            proof {
                assert(self.cells@ == before.update(k as int, side));
                assert(stones_ok(self.cells@));
            }
        }
        proof {
            if c4_moves(before).contains(m) {
                lemma_empties_below(before, 7);
                let j = choose|j: int| 0 <= j < c4_moves(before).len() && c4_moves(before)[j] == m;
                assert(empties_below(before, 7)[j] == m.0);
            }
        }
    }

    fn null_move() -> C4Move {
        C4Move(7)
    }

    fn snapshot(&self) -> (r: Self) {
        Connect4 { cells: copy_cells(&self.cells), moves: self.moves }
    }

    fn policy(&self, m: C4Move) -> (r: u32) {
        1
    }
}

impl MCTSExt for Connect4 {
    fn rollout_cutoff_length() -> usize {
        100_000
    }

    fn rollout_policy() -> RolloutPolicy {
        RolloutPolicy::Random
    }
}

} // verus!
