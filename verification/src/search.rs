//! The meld-partition search: can a hand be split into valid melds?
//!
//! The specification [`can_gin`] is stated over the multiset of cards, so
//! it is order-independent by construction.  It describes an exhaustive
//! backtracking search that carries the meld currently under construction
//! as `(anchor, length, kind)`: the most recently committed card, how many
//! cards the meld holds so far, and whether it is a set or a run.  A meld
//! may only be closed once it holds at least [`MELD_MINIMUM`] cards, and
//! the search succeeds when every card has been committed and the final
//! meld is complete.

use vstd::multiset::Multiset;
use vstd::prelude::*;

use crate::cards::{card_succ, Card, Hand, Rank};
use crate::melds::{is_partition, lemma_gin_sound};

verus! {

broadcast use vstd::seq_lib::group_to_multiset_ensures;

/// Every meld must hold at least this many cards.
pub const MELD_MINIMUM: usize = 3;

/// The kind of the meld currently under construction.
#[allow(non_camel_case_types)]
#[derive(Debug, PartialEq, Eq, Structural, Clone, Copy)]
pub enum MeldType {
    RUN,
    SET,
}

/// `c` extends a set whose most recent card is `anchor`: the ranks agree.
pub open spec fn set_extends(anchor: Card, c: Card) -> bool {
    c.rank == anchor.rank
}

/// `c` extends a run of `len` cards whose most recent card is `anchor`:
/// `c` is the anchor's successor, and the run does not continue past an
/// Ace that was itself reached by extension.  An Ace may open a run or
/// terminate one (Queen-King-Ace), but a run may never wrap onward from
/// King through Ace toward Two.
pub open spec fn run_extends(anchor: Card, len: nat, c: Card) -> bool {
    c == card_succ(anchor) && !(anchor.rank == Rank::ACE && len > 1)
}

/// The search succeeds from the state `(anchor, len, mt, h)`: the meld
/// under construction holds `len` cards ending at `anchor`, and `h` is the
/// multiset of cards not yet committed.  With nothing left, success means
/// the final meld is complete; otherwise some remaining card leads on.
pub open spec fn search_wins(anchor: Card, len: nat, mt: MeldType, h: Multiset<Card>) -> bool
    decreases h.len(), 1int,
{
    if h.len() == 0 {
        len >= MELD_MINIMUM
    } else {
        exists|c: Card| #![trigger h.count(c)] search_step(anchor, len, mt, h, c)
    }
}

/// Committing the candidate `c` next leads the search to success.  A
/// candidate that extends the current meld must do so; any other candidate
/// may only anchor a fresh meld, and only once the current meld is already
/// complete.
pub open spec fn search_step(anchor: Card, len: nat, mt: MeldType, h: Multiset<Card>, c: Card) -> bool
    decreases h.len(), 0int,
{
    h.contains(c) && ({
        let rest = h.remove(c);
        if mt == MeldType::SET && set_extends(anchor, c) {
            search_wins(c, len + 1, MeldType::SET, rest)
        } else if mt == MeldType::RUN && run_extends(anchor, len, c) {
            search_wins(c, len + 1, MeldType::RUN, rest)
        } else if len >= MELD_MINIMUM {
            search_wins(c, 1, MeldType::SET, rest) || search_wins(c, 1, MeldType::RUN, rest)
        } else {
            false
        }
    })
}

/// Choosing `c` as the very first anchor leads the search to success,
/// with the meld kind still open.
pub open spec fn first_choice(h: Multiset<Card>, c: Card) -> bool {
    h.contains(c) && (search_wins(c, 1, MeldType::SET, h.remove(c)) || search_wins(
        c,
        1,
        MeldType::RUN,
        h.remove(c),
    ))
}

/// The hand `h` can gin: it is empty, or it can be split into disjoint
/// melds of at least [`MELD_MINIMUM`] cards each that together use every
/// card exactly once, as discovered by the exhaustive search.
pub open spec fn can_gin(h: Multiset<Card>) -> bool {
    h.len() == 0 || exists|c: Card| first_choice(h, c)
}

/// A copy of `hand` with the card at index `i` removed.
fn hand_without(hand: &Hand, i: usize) -> (r: Hand)
    requires
        i < hand@.len(),
    ensures
        r@ == hand@.remove(i as int),
{
    let mut r: Hand = Vec::new();
    let mut j: usize = 0;
    while j < hand.len()
        invariant
            i < hand@.len(),
            j <= hand@.len(),
            r@ == (if j <= i {
                hand@.subrange(0, j as int)
            } else {
                hand@.subrange(0, i as int) + hand@.subrange(i as int + 1, j as int)
            }),
        decreases hand@.len() - j,
    {
        if j != i {
            r.push(hand[j]);
        }
        proof {
            if j < i {
                assert(r@ =~= hand@.subrange(0, j as int + 1));
            } else if j == i {
                assert(r@ =~= hand@.subrange(0, i as int) + hand@.subrange(
                    i as int + 1,
                    j as int + 1,
                ));
            } else {
                assert(r@ =~= hand@.subrange(0, i as int) + hand@.subrange(
                    i as int + 1,
                    j as int + 1,
                ));
            }
        }
        j = j + 1;
    }
    proof {
        assert(r@ =~= hand@.remove(i as int));
    }
    r
}

/// One node of the backtracking search: `card` is the most recently
/// committed card of the meld under construction, `meld_length` counts its
/// cards so far, and `hand` holds the cards not yet committed.  Returns
/// exactly what the specification [`search_wins`] says of this state.
pub fn has_gin_helper(card: &Card, meld_length: usize, meld_type: MeldType, hand: &Hand) -> (r:
    bool)
    requires
        1 <= meld_length,
        meld_length + hand@.len() <= usize::MAX,
    ensures
        r == search_wins(*card, meld_length as nat, meld_type, hand@.to_multiset()),
    decreases hand@.len(),
{
    let ghost m = hand@.to_multiset();
    proof {
        assert(m.len() == hand@.len());
    }
    if hand.len() == 0 {
        return meld_length >= MELD_MINIMUM;
    }
    let mut i: usize = 0;
    while i < hand.len()
        invariant
            1 <= meld_length,
            meld_length + hand@.len() <= usize::MAX,
            0 < hand@.len(),
            i <= hand@.len(),
            m == hand@.to_multiset(),
            m.len() == hand@.len(),
            forall|j: int|
                0 <= j < i ==> !search_step(
                    *card,
                    meld_length as nat,
                    meld_type,
                    m,
                    #[trigger] hand@[j],
                ),
        decreases hand@.len() - i,
    {
        let new_card = hand[i];
        let new_hand = hand_without(hand, i);
        proof {
            assert(hand@.contains(new_card));
            assert(m.contains(new_card));
            assert(m.count(new_card) > 0);
            assert(new_hand@.to_multiset() == m.remove(new_card));
        }
        if meld_type == MeldType::SET && card.rank == new_card.rank {
            if has_gin_helper(&new_card, meld_length + 1, MeldType::SET, &new_hand) {
                proof {
                    assert(search_step(*card, meld_length as nat, meld_type, m, new_card));
                    assert(search_wins(*card, meld_length as nat, meld_type, m));
                }
                return true;
            }
        } else if meld_type == MeldType::RUN && card.succ() == new_card && !(card.rank == Rank::ACE
            && meld_length > 1) {
            if has_gin_helper(&new_card, meld_length + 1, MeldType::RUN, &new_hand) {
                proof {
                    assert(search_step(*card, meld_length as nat, meld_type, m, new_card));
                    assert(search_wins(*card, meld_length as nat, meld_type, m));
                }
                return true;
            }
        } else if meld_length >= MELD_MINIMUM {
            if has_gin_helper(&new_card, 1, MeldType::SET, &new_hand) {
                proof {
                    assert(search_step(*card, meld_length as nat, meld_type, m, new_card));
                    assert(search_wins(*card, meld_length as nat, meld_type, m));
                }
                return true;
            }
            if has_gin_helper(&new_card, 1, MeldType::RUN, &new_hand) {
                proof {
                    assert(search_step(*card, meld_length as nat, meld_type, m, new_card));
                    assert(search_wins(*card, meld_length as nat, meld_type, m));
                }
                return true;
            }
        }
        proof {
            assert(!search_step(*card, meld_length as nat, meld_type, m, new_card));
        }
        i = i + 1;
    }
    proof {
        assert forall|c: Card| !(#[trigger] search_step(*card, meld_length as nat, meld_type, m, c))
        by {
            if search_step(*card, meld_length as nat, meld_type, m, c) {
                assert(m.contains(c));
                assert(hand@.contains(c));
                let j = choose|j: int| 0 <= j < hand@.len() && hand@[j] == c;
                assert(!search_step(*card, meld_length as nat, meld_type, m, hand@[j]));
            }
        }
    }
    false
}

/// Decides whether the hand can gin: true iff the hand is empty or can be
/// split into disjoint melds of at least [`MELD_MINIMUM`] cards each that
/// together use every card exactly once.  A winning verdict carries a
/// witness: some list of valid melds partitions the hand.  The result
/// depends only on the multiset of cards, never on their order, and two
/// calls on equal hands always agree, since the result equals a function
/// of the hand's view.
pub fn has_gin(hand: &Hand) -> (r: bool)
    ensures
        r == can_gin(hand@.to_multiset()),
        r ==> exists|ms: Seq<Seq<Card>>| #[trigger] is_partition(ms, hand@.to_multiset()),
{
    let ghost m = hand@.to_multiset();
    proof {
        assert(m.len() == hand@.len());
    }
    if hand.len() == 0 {
        proof {
            lemma_gin_sound(m);
        }
        return true;
    }
    let mut i: usize = 0;
    while i < hand.len()
        invariant
            0 < hand@.len(),
            i <= hand@.len(),
            m == hand@.to_multiset(),
            m.len() == hand@.len(),
            forall|j: int| 0 <= j < i ==> !first_choice(m, #[trigger] hand@[j]),
        decreases hand@.len() - i,
    {
        let new_card = hand[i];
        let new_hand = hand_without(hand, i);
        proof {
            assert(hand@.contains(new_card));
            assert(m.contains(new_card));
            assert(m.count(new_card) > 0);
            assert(new_hand@.to_multiset() == m.remove(new_card));
        }
        if has_gin_helper(&new_card, 1, MeldType::SET, &new_hand) {
            proof {
                assert(first_choice(m, new_card));
                lemma_gin_sound(m);
            }
            return true;
        }
        if has_gin_helper(&new_card, 1, MeldType::RUN, &new_hand) {
            proof {
                assert(first_choice(m, new_card));
                lemma_gin_sound(m);
            }
            return true;
        }
        proof {
            assert(!first_choice(m, new_card));
        }
        i = i + 1;
    }
    proof {
        assert forall|c: Card| !(#[trigger] first_choice(m, c)) by {
            if first_choice(m, c) {
                assert(m.contains(c));
                assert(hand@.contains(c));
                let j = choose|j: int| 0 <= j < hand@.len() && hand@[j] == c;
                assert(!first_choice(m, hand@[j]));
            }
        }
    }
    false
}

} // verus!

