//! Playing cards and hand rankings.

use vstd::prelude::*;

verus! {

/// Number of suits in the deck.
pub const NUM_DECK_SUITS: usize = 4;

/// Number of ranks per suit.
pub const NUM_DECK_VALUES: usize = 13;

/// A playing card.  Suits are numbered `0..4`; ranks run from 1 (lowest)
/// upward.  Dealt cards carry ranks `1..=13`; the resolver also accepts 14 so
/// that callers may encode an ace-high ordering.
#[derive(Clone, Copy, Debug, PartialEq, Eq, Structural)]
pub struct Card {
    /// Suit index, `0..4`.
    pub suit: u8,
    /// Rank, `1..=14`; 1 is the lowest.
    pub rank: u8,
}

/// The outcome of evaluating one player's best 5-card hand.
#[derive(Clone, Debug)]
pub struct CardRanking {
    /// The player the pool belongs to (0-indexed).
    pub player: usize,
    /// Hand category, `0..=8`; higher beats lower.
    pub hand: u8,
    /// Comparison keys for hands of equal category; compared lexicographically.
    pub tiebreak: Vec<u8>,
}

/// A card that the resolver accepts.
pub open spec fn card_valid(c: Card) -> bool {
    c.suit < 4 && 1 <= c.rank <= 14
}

/// A card that the deck can produce.
pub open spec fn card_dealable(c: Card) -> bool {
    c.suit < 4 && 1 <= c.rank <= 13
}

/// The deck slot, `0..52`, that holds a dealable card.
pub open spec fn card_slot(c: Card) -> int {
    c.suit * 13 + c.rank - 1
}

} // verus!
