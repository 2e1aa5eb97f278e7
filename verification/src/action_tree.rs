use vstd::prelude::*;

verus! {

/// A board street: the deepest street a game tree starts from, is stored to, or is saved to.
///
/// Streets are ordered `Flop < Turn < River` (see [`BoardState::rank`]).
#[derive(Clone, Copy, Debug, PartialEq, Eq, Structural, Hash, PartialOrd, Ord)]
pub enum BoardState {
    Flop,
    Turn,
    River,
}

impl BoardState {
    /// Position of the street in the order `Flop < Turn < River`.
    pub open spec fn rank(self) -> int {
        match self {
            BoardState::Flop => 0,
            BoardState::Turn => 1,
            BoardState::River => 2,
        }
    }

    /// Executable form of [`BoardState::rank`].
    pub fn street_index(self) -> (r: u8)
        ensures
            r as int == self.rank(),
    {
        match self {
            BoardState::Flop => 0,
            BoardState::Turn => 1,
            BoardState::River => 2,
        }
    }
}

/// A card, numbered `0..52`; [`NOT_DEALT`] stands for a card that is not dealt yet.
pub type Card = u8;

/// The card value of a street that is not dealt yet.
pub const NOT_DEALT: Card = 255u8;

/// An action of the game tree.
#[derive(Clone, Copy, Debug, PartialEq, Eq, Structural)]
pub enum Action {
    /// No action led here (the root of the tree).
    NoAction,
    Fold,
    Check,
    Call,
    /// Bet of the given total amount on this street.
    Bet(i32),
    /// Raise to the given total amount on this street.
    Raise(i32),
    /// All-in to the given total amount on this street.
    AllIn(i32),
    /// Dealing of the given card.
    Chance(Card),
}

} // verus!
