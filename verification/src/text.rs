//! Rendering a hand back to text.
//!
//! Purely cosmetic: each card becomes its two-character token (the rank
//! character, then the suit character), and a hand is listed between
//! `Hand: [` and `]`.  The search never consumes this output.

use vstd::prelude::*;
use vstd::string::StringExecFns;

use crate::cards::{Card, Hand, Rank, Suit};

verus! {

/// The character that denotes a rank.
pub open spec fn spec_rank_char(r: Rank) -> char {
    match r {
        Rank::ACE => 'A',
        Rank::TWO => '2',
        Rank::THREE => '3',
        Rank::FOUR => '4',
        Rank::FIVE => '5',
        Rank::SIX => '6',
        Rank::SEVEN => '7',
        Rank::EIGHT => '8',
        Rank::NINE => '9',
        Rank::TEN => 'T',
        Rank::JACK => 'J',
        Rank::QUEEN => 'Q',
        Rank::KING => 'K',
    }
}

/// The character that denotes a suit.
pub open spec fn spec_suit_char(s: Suit) -> char {
    match s {
        Suit::CLUB => 'C',
        Suit::SPADE => 'S',
        Suit::HEART => 'H',
        Suit::DIAMOND => 'D',
    }
}

/// The listed cards: each card's two characters followed by one space.
pub open spec fn spec_cards_text(cards: Seq<Card>) -> Seq<char>
    decreases cards.len(),
{
    if cards.len() == 0 {
        Seq::<char>::empty()
    } else {
        seq![
            spec_rank_char(cards[0].rank),
            spec_suit_char(cards[0].suit),
            ' ',
        ] + spec_cards_text(cards.drop_first())
    }
}

proof fn lemma_cards_text_push(cards: Seq<Card>, c: Card)
    ensures
        spec_cards_text(cards.push(c)) == spec_cards_text(cards) + seq![
            spec_rank_char(c.rank),
            spec_suit_char(c.suit),
            ' ',
        ],
    decreases cards.len(),
{
    reveal_with_fuel(spec_cards_text, 3);
    let tail3 = seq![spec_rank_char(c.rank), spec_suit_char(c.suit), ' '];
    if cards.len() == 0 {
        assert(cards.push(c).drop_first() =~= Seq::<Card>::empty());
        assert(cards.push(c)[0] == c);
        assert(tail3 + Seq::<char>::empty() =~= tail3);
        assert(Seq::<char>::empty() + tail3 =~= tail3);
    } else {
        lemma_cards_text_push(cards.drop_first(), c);
        assert(cards.push(c).drop_first() =~= cards.drop_first().push(c));
        assert(cards.push(c)[0] == cards[0]);
        let head3 = seq![spec_rank_char(cards[0].rank), spec_suit_char(cards[0].suit), ' '];
        assert(head3 + (spec_cards_text(cards.drop_first()) + tail3) =~= (head3 + spec_cards_text(
            cards.drop_first(),
        )) + tail3);
    }
    assert(spec_cards_text(cards.push(c)) =~= spec_cards_text(cards) + tail3);
}

impl Rank {
    /// The one-character text for this rank.
    pub fn as_str(&self) -> (s: &'static str)
        ensures
            s@ == seq![spec_rank_char(*self)],
    {
        let s: &'static str = match self {
            Rank::ACE => "A",
            Rank::TWO => "2",
            Rank::THREE => "3",
            Rank::FOUR => "4",
            Rank::FIVE => "5",
            Rank::SIX => "6",
            Rank::SEVEN => "7",
            Rank::EIGHT => "8",
            Rank::NINE => "9",
            Rank::TEN => "T",
            Rank::JACK => "J",
            Rank::QUEEN => "Q",
            Rank::KING => "K",
        };
        proof {
            reveal_strlit("A");
            reveal_strlit("2");
            reveal_strlit("3");
            reveal_strlit("4");
            reveal_strlit("5");
            reveal_strlit("6");
            reveal_strlit("7");
            reveal_strlit("8");
            reveal_strlit("9");
            reveal_strlit("T");
            reveal_strlit("J");
            reveal_strlit("Q");
            reveal_strlit("K");
            assert(s@ =~= seq![spec_rank_char(*self)]);
        }
        s
    }
}

impl Suit {
    /// The one-character text for this suit.
    pub fn as_str(&self) -> (s: &'static str)
        ensures
            s@ == seq![spec_suit_char(*self)],
    {
        let s: &'static str = match self {
            Suit::CLUB => "C",
            Suit::SPADE => "S",
            Suit::HEART => "H",
            Suit::DIAMOND => "D",
        };
        proof {
            reveal_strlit("C");
            reveal_strlit("S");
            reveal_strlit("H");
            reveal_strlit("D");
            assert(s@ =~= seq![spec_suit_char(*self)]);
        }
        s
    }
}

/// Renders the hand for display: every card as its two-character token
/// followed by a space, between `Hand: [ ` and `]`.
pub fn hand_to_string(hand: &Hand) -> (r: String)
    ensures
        r@ == "Hand: [ "@ + spec_cards_text(hand@) + "]"@,
{
    let mut s = String::from_str("Hand: [ ");
    proof {
        assert(spec_cards_text(hand@.subrange(0, 0)) =~= Seq::<char>::empty());
        assert(s@ + Seq::<char>::empty() =~= s@);
    }
    let mut i: usize = 0;
    while i < hand.len()
        invariant
            i <= hand@.len(),
            s@ == "Hand: [ "@ + spec_cards_text(hand@.subrange(0, i as int)),
        decreases hand@.len() - i,
    {
        let c = hand[i];
        s.append(c.rank.as_str());
        s.append(c.suit.as_str());
        s.append(" ");
        proof {
            reveal_strlit(" ");
            assert(" "@ =~= seq![' ']);
            let shown = hand@.subrange(0, i as int);
            assert(hand@.subrange(0, i as int + 1) =~= shown.push(c));
            lemma_cards_text_push(shown, c);
            let tail3 = seq![spec_rank_char(c.rank), spec_suit_char(c.suit), ' '];
            assert((("Hand: [ "@ + spec_cards_text(shown)) + seq![spec_rank_char(c.rank)] + seq![
                spec_suit_char(c.suit),
            ] + seq![' ']) =~= "Hand: [ "@ + (spec_cards_text(shown) + tail3));
        }
        i = i + 1;
    }
    proof {
        assert(hand@.subrange(0, hand@.len() as int) =~= hand@);
    }
    s.append("]");
    s
}

} // verus!
