//! The interface through which the search engine sees a game.
use vstd::prelude::*;

verus! {

/// The largest number of legal moves a position may offer.
pub const MAX_MOVES: usize = 65535;

/// A bound on the length of any game.
pub const MAX_GAME_MOVES: u64 = 0xffff_fffe;

/// The largest prior weight a game may give a move.
pub const MAX_WEIGHT: u32 = 65536;

/// A two-player, zero-sum game with perfect information.
///
/// Side `1` is the maximiser and side `-1` the minimiser; results are given
/// from the maximiser's point of view. Every statement is made of the
/// mathematical state, `Model`.
pub trait Game: Sized {
    type Move: Copy;

    /// What a position is, mathematically.
    type Model;

    /// The position of this state.
    spec fn model(&self) -> Self::Model;

    /// The positions that can arise in play.
    spec fn valid(s: Self::Model) -> bool;

    /// The side to move.
    spec fn side(s: Self::Model) -> i8;

    /// Whether the game is over.
    spec fn over(s: Self::Model) -> bool;

    /// The result: `1`, `0` or `-1`.
    spec fn result(s: Self::Model) -> i8;

    /// The legal moves, in generation order.
    spec fn legal_moves(s: Self::Model) -> Seq<Self::Move>;

    /// The position after a move; a move that is not legal leaves it as it is.
    spec fn after(s: Self::Model, m: Self::Move) -> Self::Model;

    /// A bound on the number of moves left; a legal move lowers it.
    spec fn moves_left(s: Self::Model) -> nat;

    /// The prior weight of move `m` in position `s`.
    spec fn prior(s: Self::Model, m: Self::Move) -> u32;

    /// A legal move leads to a valid position, passes the turn and lowers the
    /// bound on the moves left.
    proof fn lemma_legal_move(s: Self::Model, m: Self::Move)
        requires
            Self::valid(s),
            Self::legal_moves(s).contains(m),
        ensures
            Self::valid(Self::after(s, m)),
            Self::side(Self::after(s, m)) == -Self::side(s),
            Self::moves_left(Self::after(s, m)) < Self::moves_left(s),
    ;

    /// A bound on the number of legal moves in any position.
    spec fn max_branching() -> nat;

    /// No position offers more than `max_branching()` moves.
    proof fn lemma_branching(s: Self::Model)
        requires
            Self::valid(s),
        ensures
            Self::legal_moves(s).len() <= Self::max_branching(),
            Self::max_branching() <= MAX_MOVES,
    ;

    /// Every game ends within `MAX_GAME_MOVES` moves.
    proof fn lemma_moves_left_bound(s: Self::Model)
        requires
            Self::valid(s),
        ensures
            Self::moves_left(s) <= MAX_GAME_MOVES,
    ;

    fn turn(&self) -> (r: i8)
        requires
            Self::valid(self.model()),
        ensures
            r == Self::side(self.model()),
            r == 1 || r == -1,
    ;

    fn is_terminal(&self) -> (r: bool)
        requires
            Self::valid(self.model()),
        ensures
            r == Self::over(self.model()),
    ;

    fn evaluate(&self) -> (r: i8)
        requires
            Self::valid(self.model()),
        ensures
            r == Self::result(self.model()),
            -1 <= r <= 1,
    ;

    fn generate_moves(&self) -> (r: Vec<Self::Move>)
        requires
            Self::valid(self.model()),
        ensures
            r@ == Self::legal_moves(self.model()),
            r@.len() <= MAX_MOVES,
            !Self::over(self.model()) ==> r@.len() > 0,
    ;

    fn push(&mut self, m: Self::Move)
        requires
            Self::valid(old(self).model()),
        ensures
            final(self).model() == Self::after(old(self).model(), m),
            Self::valid(final(self).model()),
            Self::legal_moves(old(self).model()).contains(m) ==> {
                &&& Self::side(final(self).model()) == -Self::side(old(self).model())
                &&& Self::moves_left(final(self).model()) < Self::moves_left(old(self).model())
            },
    ;

    /// A move that stands for no move: the inbound edge of the root.
    fn null_move() -> Self::Move;

    /// A copy of the state.
    fn snapshot(&self) -> (r: Self)
        ensures
            r.model() == self.model(),
    ;

    /// An unnormalised, non-negative prior weight for the move `m`; equal
    /// weights make a uniform prior.
    fn policy(&self, m: Self::Move) -> (r: u32)
        requires
            Self::valid(self.model()),
        ensures
            r == Self::prior(self.model(), m),
            r <= MAX_WEIGHT,
    ;
}

/// The result in chess notation once the game is over: `1-0`, `0-1` or
/// `1/2-1/2`.
pub fn outcome<G: Game>(state: &G) -> (r: Option<&'static str>)
    requires
        G::valid(state.model()),
    ensures
        !G::over(state.model()) ==> r is None,
        G::over(state.model()) && G::result(state.model()) == 1 ==> r == Some("1-0"),
        G::over(state.model()) && G::result(state.model()) == -1 ==> r == Some("0-1"),
        G::over(state.model()) && G::result(state.model()) == 0 ==> r == Some("1/2-1/2"),
{
    if state.is_terminal() {
        let e = state.evaluate();
        if e == 1 {
            Some("1-0")
        } else if e == -1 {
            Some("0-1")
        } else {
            Some("1/2-1/2")
        }
    } else {
        None
    }
}

} // verus!
