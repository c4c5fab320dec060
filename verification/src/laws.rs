//! General laws of the meld-partition search, proved once and for all.
//!
//! Each public proof function states a property of [`can_gin`] over every
//! hand of the shape it describes: empty hands gin vacuously, hands too
//! small for one meld never gin, same-rank hands of meld size always gin,
//! ascending same-suit runs always gin, a run may not wrap from King
//! through Ace toward Two, and the verdict depends only on the multiset
//! of cards.

use vstd::multiset::Multiset;
use vstd::prelude::*;

use crate::cards::{card_succ, run_link, Card, Rank, Suit};
use crate::search::{can_gin, first_choice, search_step, search_wins, MeldType, MELD_MINIMUM};

verus! {

/// An empty hand is vacuously partitioned into zero melds, so it gins.
pub proof fn lemma_empty_hand_gins(h: Multiset<Card>)
    requires
        h.len() == 0,
    ensures
        can_gin(h),
{
}

/// A meld under construction that can never reach [`MELD_MINIMUM`] cards
/// dooms the search: too few cards remain.
proof fn lemma_short_search(anchor: Card, len: nat, mt: MeldType, h: Multiset<Card>)
    requires
        len + h.len() < MELD_MINIMUM,
    ensures
        !search_wins(anchor, len, mt, h),
    decreases h.len(),
{
    if h.len() > 0 {
        assert forall|c: Card| !(#[trigger] search_step(anchor, len, mt, h, c)) by {
            if h.contains(c) {
                lemma_short_search(c, len + 1, MeldType::SET, h.remove(c));
                lemma_short_search(c, len + 1, MeldType::RUN, h.remove(c));
            }
        }
        assert(!(exists|c: Card| #![trigger h.count(c)] search_step(anchor, len, mt, h, c)));
    }
}

/// A hand of one or two cards cannot gin: no meld of
/// [`MELD_MINIMUM`] cards fits in it.
pub proof fn lemma_short_hand_cannot_gin(h: Multiset<Card>)
    requires
        1 <= h.len() <= 2,
    ensures
        !can_gin(h),
{
    assert forall|c: Card| !(#[trigger] first_choice(h, c)) by {
        if h.contains(c) {
            lemma_short_search(c, 1, MeldType::SET, h.remove(c));
            lemma_short_search(c, 1, MeldType::RUN, h.remove(c));
        }
    }
}

/// Extending a set absorbs any remaining cards of the anchor's rank.
proof fn lemma_set_search(anchor: Card, len: nat, rk: Rank, h: Multiset<Card>)
    requires
        1 <= len,
        anchor.rank == rk,
        len + h.len() >= MELD_MINIMUM,
        forall|c: Card| #[trigger] h.contains(c) ==> c.rank == rk,
    ensures
        search_wins(anchor, len, MeldType::SET, h),
    decreases h.len(),
{
    if h.len() > 0 {
        let c = h.choose();
        assert(h.contains(c));
        assert(h.count(c) > 0);
        let rest = h.remove(c);
        assert forall|x: Card| #[trigger] rest.contains(x) implies x.rank == rk by {
            assert(h.contains(x));
        }
        lemma_set_search(c, len + 1, rk, rest);
        assert(search_step(anchor, len, MeldType::SET, h, c));
    }
}

/// Every hand of at least [`MELD_MINIMUM`] cards that all share one rank
/// gins: the whole hand forms a single set.
pub proof fn lemma_set_hand_gins(h: Multiset<Card>, rk: Rank)
    requires
        h.len() >= MELD_MINIMUM,
        forall|c: Card| #[trigger] h.contains(c) ==> c.rank == rk,
    ensures
        can_gin(h),
{
    let c = h.choose();
    assert(h.contains(c));
    let rest = h.remove(c);
    assert forall|x: Card| #[trigger] rest.contains(x) implies x.rank == rk by {
        assert(h.contains(x));
    }
    lemma_set_search(c, 1, rk, rest);
    assert(first_choice(h, c));
}

/// Extending a run absorbs an ascending chain `s` of successors: `s`
/// continues the anchor card by successor steps, and no card that is
/// extended past is an Ace.
proof fn lemma_run_search(anchor: Card, len: nat, s: Seq<Card>)
    requires
        1 <= len,
        len + s.len() >= MELD_MINIMUM,
        s.len() > 0 ==> s[0] == card_succ(anchor) && !(anchor.rank == Rank::ACE && len > 1),
        forall|i: int| 0 < i < s.len() ==> #[trigger] run_link(s, i),
        forall|i: int| #![trigger s[i]] 0 <= i < s.len() - 1 ==> s[i].rank != Rank::ACE,
    ensures
        search_wins(anchor, len, MeldType::RUN, s.to_multiset()),
    decreases s.len(),
{
    let h = s.to_multiset();
    assert(h.len() == s.len()) by {
        broadcast use vstd::seq_lib::group_to_multiset_ensures;

    }
    if s.len() > 0 {
        let c = s[0];
        let tail = s.remove(0);
        assert(h.count(c) > 0 && h.remove(c) == tail.to_multiset()) by {
            broadcast use vstd::seq_lib::group_to_multiset_ensures;

            assert(s.contains(c));
        }
        assert forall|i: int| 0 < i < tail.len() implies #[trigger] run_link(tail, i) by {
            assert(run_link(s, i + 1));
            assert(tail[i] == s[i + 1]);
            assert(tail[i - 1] == s[i]);
        }
        assert forall|i: int| #![trigger tail[i]] 0 <= i < tail.len() - 1 implies tail[i].rank
            != Rank::ACE by {
            assert(tail[i] == s[i + 1]);
        }
        if tail.len() > 0 {
            assert(run_link(s, 1));
            assert(tail[0] == s[1]);
            assert(s[0].rank != Rank::ACE);
        }
        lemma_run_search(c, len + 1, tail);
        assert(search_step(anchor, len, MeldType::RUN, h, c));
    }
}

/// Every hand of at least [`MELD_MINIMUM`] cards that forms one ascending
/// same-suit run gins, provided no interior card is an Ace: a run may
/// open at Ace and may close at Ace (Queen-King-Ace), but may never
/// continue past an Ace reached from King.
pub proof fn lemma_run_hand_gins(s: Seq<Card>)
    requires
        s.len() >= MELD_MINIMUM,
        forall|i: int| 0 < i < s.len() ==> #[trigger] run_link(s, i),
        forall|i: int| #![trigger s[i]] 0 < i < s.len() - 1 ==> s[i].rank != Rank::ACE,
    ensures
        can_gin(s.to_multiset()),
{
    broadcast use vstd::seq_lib::group_to_multiset_ensures;

    let h = s.to_multiset();
    let c = s[0];
    assert(s.contains(c));
    let tail = s.remove(0);
    assert(h.remove(c) == tail.to_multiset());
    assert forall|i: int| 0 < i < tail.len() implies #[trigger] run_link(tail, i) by {
        assert(run_link(s, i + 1));
        assert(tail[i] == s[i + 1]);
        assert(tail[i - 1] == s[i]);
    }
    assert forall|i: int| #![trigger tail[i]] 0 <= i < tail.len() - 1 implies tail[i].rank
        != Rank::ACE by {
        assert(tail[i] == s[i + 1]);
    }
    if tail.len() > 0 {
        assert(run_link(s, 1));
        assert(tail[0] == s[1]);
    }
    lemma_run_search(c, 1, tail);
    assert(first_choice(h, c));
}

/// Any three consecutive same-suit cards that do not cross the King to
/// Ace boundary form a run and gin.  The excluded start is King, whose
/// three-card chain would wrap King, Ace, Two.
pub proof fn lemma_three_card_run_gins(c: Card)
    requires
        c.rank != Rank::KING,
    ensures
        can_gin(seq![c, card_succ(c), card_succ(card_succ(c))].to_multiset()),
{
    let s = seq![c, card_succ(c), card_succ(card_succ(c))];
    assert(run_link(s, 1));
    assert(run_link(s, 2));
    assert(s[1].rank != Rank::ACE);
    lemma_run_hand_gins(s);
}

/// The three same-suit cards King, Ace, Two.
pub open spec fn king_ace_two(st: Suit) -> Multiset<Card> {
    Multiset::<Card>::empty().insert(Card { rank: Rank::KING, suit: st }).insert(
        Card { rank: Rank::ACE, suit: st },
    ).insert(Card { rank: Rank::TWO, suit: st })
}

/// A run may not wrap through the King to Ace boundary and continue
/// toward Two: the hand King, Ace, Two of one suit never gins, for any
/// suit.
pub proof fn lemma_wrapping_run_fails(st: Suit)
    ensures
        !can_gin(king_ace_two(st)),
{
    let k = Card { rank: Rank::KING, suit: st };
    let a = Card { rank: Rank::ACE, suit: st };
    let t = Card { rank: Rank::TWO, suit: st };
    let h = king_ace_two(st);
    let e = Multiset::<Card>::empty();
    let h_at = e.insert(a).insert(t);
    let h_kt = e.insert(k).insert(t);
    let h_ka = e.insert(k).insert(a);
    let s_t = e.insert(t);
    let s_k = e.insert(k);
    assert(h.remove(k) =~= h_at);
    assert(h.remove(a) =~= h_kt);
    assert(h.remove(t) =~= h_ka);
    assert(h_at.remove(a) =~= s_t);
    assert(h_kt.remove(t) =~= s_k);
    // A run of two ending at Ace cannot continue: the only card left is
    // Two, and extension past an Ace is barred.
    assert(!search_wins(a, 2, MeldType::RUN, s_t)) by {
        assert forall|c: Card| !(#[trigger] search_step(a, 2, MeldType::RUN, s_t, c)) by {
            if s_t.contains(c) {
                assert(c == t) by {
                    if c != t {
                        assert(s_t.count(c) == 0);
                    }
                }
            }
        }
        assert(s_t.len() == 1);
    }
    // A run of two ending at Two cannot absorb the King.
    assert(!search_wins(t, 2, MeldType::RUN, s_k)) by {
        assert forall|c: Card| !(#[trigger] search_step(t, 2, MeldType::RUN, s_k, c)) by {
            if s_k.contains(c) {
                assert(c == k) by {
                    if c != k {
                        assert(s_k.count(c) == 0);
                    }
                }
            }
        }
        assert(s_k.len() == 1);
    }
    // No meld opened by any of the three cards completes.
    assert(!search_wins(k, 1, MeldType::SET, h_at)) by {
        assert forall|c: Card| !(#[trigger] search_step(k, 1, MeldType::SET, h_at, c)) by {
            if h_at.contains(c) {
                assert(c == a || c == t) by {
                    if c != a && c != t {
                        assert(h_at.count(c) == 0);
                    }
                }
            }
        }
        assert(h_at.len() == 2);
    }
    assert(!search_wins(k, 1, MeldType::RUN, h_at)) by {
        assert forall|c: Card| !(#[trigger] search_step(k, 1, MeldType::RUN, h_at, c)) by {
            if h_at.contains(c) {
                assert(c == a || c == t) by {
                    if c != a && c != t {
                        assert(h_at.count(c) == 0);
                    }
                }
            }
        }
        assert(h_at.len() == 2);
    }
    assert(!search_wins(a, 1, MeldType::SET, h_kt)) by {
        assert forall|c: Card| !(#[trigger] search_step(a, 1, MeldType::SET, h_kt, c)) by {
            if h_kt.contains(c) {
                assert(c == k || c == t) by {
                    if c != k && c != t {
                        assert(h_kt.count(c) == 0);
                    }
                }
            }
        }
        assert(h_kt.len() == 2);
    }
    assert(!search_wins(a, 1, MeldType::RUN, h_kt)) by {
        assert forall|c: Card| !(#[trigger] search_step(a, 1, MeldType::RUN, h_kt, c)) by {
            if h_kt.contains(c) {
                assert(c == k || c == t) by {
                    if c != k && c != t {
                        assert(h_kt.count(c) == 0);
                    }
                }
            }
        }
        assert(h_kt.len() == 2);
    }
    assert(!search_wins(t, 1, MeldType::SET, h_ka)) by {
        assert forall|c: Card| !(#[trigger] search_step(t, 1, MeldType::SET, h_ka, c)) by {
            if h_ka.contains(c) {
                assert(c == k || c == a) by {
                    if c != k && c != a {
                        assert(h_ka.count(c) == 0);
                    }
                }
            }
        }
        assert(h_ka.len() == 2);
    }
    assert(!search_wins(t, 1, MeldType::RUN, h_ka)) by {
        assert forall|c: Card| !(#[trigger] search_step(t, 1, MeldType::RUN, h_ka, c)) by {
            if h_ka.contains(c) {
                assert(c == k || c == a) by {
                    if c != k && c != a {
                        assert(h_ka.count(c) == 0);
                    }
                }
            }
        }
        assert(h_ka.len() == 2);
    }
    assert forall|c: Card| !(#[trigger] first_choice(h, c)) by {
        if h.contains(c) {
            assert(c == k || c == a || c == t) by {
                if c != k && c != a && c != t {
                    assert(h.count(c) == 0);
                }
            }
        }
    }
    assert(h.len() == 3);
}

/// The verdict depends only on the multiset of cards: two hands with
/// equal multisets gin or fail together, whatever order they list their
/// cards in.
pub proof fn lemma_order_independent(a: Seq<Card>, b: Seq<Card>)
    requires
        a.to_multiset() == b.to_multiset(),
    ensures
        can_gin(a.to_multiset()) == can_gin(b.to_multiset()),
{
}

} // verus!
