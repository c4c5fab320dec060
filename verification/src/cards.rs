//! The card model: ranks, suits, and cards.
//!
//! A rank is one of thirteen symbolic values with a total, cyclic successor
//! operation (King wraps back to Ace).  A suit is one of four symbolic
//! values with only equality.  A card is an immutable (rank, suit) pair;
//! its successor keeps the suit and takes the rank's successor, and is used
//! only to test run-adjacency during the search.

use vstd::prelude::*;

verus! {

/// The thirteen card ranks.
#[allow(non_camel_case_types)]
#[derive(Debug, PartialEq, Eq, Structural, Clone, Copy)]
pub enum Rank {
    ACE,
    TWO,
    THREE,
    FOUR,
    FIVE,
    SIX,
    SEVEN,
    EIGHT,
    NINE,
    TEN,
    JACK,
    QUEEN,
    KING,
}

/// The four card suits.
#[allow(non_camel_case_types)]
#[derive(Debug, PartialEq, Eq, Structural, Clone, Copy)]
pub enum Suit {
    CLUB,
    SPADE,
    HEART,
    DIAMOND,
}

/// An immutable card: a (rank, suit) pair with structural equality.
#[derive(Debug, PartialEq, Eq, Structural, Clone, Copy)]
pub struct Card {
    pub rank: Rank,
    pub suit: Suit,
}

/// A hand: an ordered sequence of cards.  The order is kept for display
/// only; the search depends on nothing but the multiset of cards.
pub type Hand = Vec<Card>;

/// The cyclic successor of a rank: Ace, 2, ..., King, and King back to Ace.
pub open spec fn rank_succ(r: Rank) -> Rank {
    match r {
        Rank::ACE => Rank::TWO,
        Rank::TWO => Rank::THREE,
        Rank::THREE => Rank::FOUR,
        Rank::FOUR => Rank::FIVE,
        Rank::FIVE => Rank::SIX,
        Rank::SIX => Rank::SEVEN,
        Rank::SEVEN => Rank::EIGHT,
        Rank::EIGHT => Rank::NINE,
        Rank::NINE => Rank::TEN,
        Rank::TEN => Rank::JACK,
        Rank::JACK => Rank::QUEEN,
        Rank::QUEEN => Rank::KING,
        Rank::KING => Rank::ACE,
    }
}

/// The card with the same suit and the successor rank.
pub open spec fn card_succ(c: Card) -> Card {
    Card { rank: rank_succ(c.rank), suit: c.suit }
}

/// Run-adjacency inside a sequence: card `i` is the successor of card
/// `i - 1`.
pub open spec fn run_link(m: Seq<Card>, i: int) -> bool
    recommends
        1 <= i < m.len(),
{
    m[i] == card_succ(m[i - 1])
}

impl Rank {
    /// Cyclic successor: total and deterministic, King wraps to Ace.
    pub fn succ(&self) -> (r: Rank)
        ensures
            r == rank_succ(*self),
    {
        match self {
            Rank::ACE => Rank::TWO,
            Rank::TWO => Rank::THREE,
            Rank::THREE => Rank::FOUR,
            Rank::FOUR => Rank::FIVE,
            Rank::FIVE => Rank::SIX,
            Rank::SIX => Rank::SEVEN,
            Rank::SEVEN => Rank::EIGHT,
            Rank::EIGHT => Rank::NINE,
            Rank::NINE => Rank::TEN,
            Rank::TEN => Rank::JACK,
            Rank::JACK => Rank::QUEEN,
            Rank::QUEEN => Rank::KING,
            Rank::KING => Rank::ACE,
        }
    }
}

impl Card {
    /// The card with the same suit and the successor rank; used only to
    /// test whether another card extends a run.
    pub fn succ(&self) -> (r: Card)
        ensures
            r == card_succ(*self),
    {
        Card { rank: self.rank.succ(), suit: self.suit }
    }
}

} // verus!
