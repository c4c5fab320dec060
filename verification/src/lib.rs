//! A verified gin-rummy hand checker.
//!
//! The library decides whether a hand of playing cards can be fully
//! partitioned into non-overlapping melds (runs of consecutive same-suit
//! cards, or sets of same-rank cards), each holding at least
//! [`MELD_MINIMUM`] cards.  The decision procedure [`has_gin`] is an
//! exhaustive backtracking search; its contract pins the result to a
//! specification stated over the multiset of cards, so the answer is
//! independent of the order in which the hand is written down.

mod cards;
mod laws;
mod melds;
mod parse;
mod search;
mod text;

pub use cards::{card_succ, rank_succ, run_link, Card, Hand, Rank, Suit};
pub use laws::{
    king_ace_two, lemma_empty_hand_gins, lemma_order_independent, lemma_run_hand_gins,
    lemma_set_hand_gins, lemma_short_hand_cannot_gin, lemma_three_card_run_gins,
    lemma_wrapping_run_fails,
};
pub use melds::{
    is_meld, is_partition, is_run_meld, is_set_meld, lemma_gin_sound, lemma_single_meld_gins,
    melds_cards,
};
pub use parse::{hand_from_str, spec_parse_hand, spec_rank_of_char, spec_suit_of_char, spec_tokens};
pub use search::{
    can_gin, first_choice, has_gin, has_gin_helper, run_extends, search_step, search_wins,
    set_extends, MeldType, MELD_MINIMUM,
};
pub use text::{hand_to_string, spec_cards_text, spec_rank_char, spec_suit_char};
