//! Valid melds and partitions, stated declaratively.
//!
//! [`is_partition`] says directly what "the hand gins" means: a list of
//! melds, each a valid set or run, whose cards are exactly the hand.  The
//! lemma [`lemma_gin_sound`] ties the search to this statement: whenever
//! [`can_gin`] holds, an actual partition exists.  Conversely,
//! [`lemma_single_meld_gins`] shows that a hand consisting of one valid
//! meld always gins.

use vstd::multiset::Multiset;
use vstd::prelude::*;

use crate::cards::{card_succ, run_link, Card, Rank};
use crate::laws::{lemma_run_hand_gins, lemma_set_hand_gins};
use crate::search::{can_gin, first_choice, search_step, search_wins, MeldType, MELD_MINIMUM};

verus! {

/// A valid set: at least [`MELD_MINIMUM`] cards, all of one rank.
pub open spec fn is_set_meld(m: Seq<Card>) -> bool {
    m.len() >= MELD_MINIMUM && forall|i: int| #![trigger m[i]] 0 <= i < m.len() ==> m[i].rank
        == m[0].rank
}

/// A valid run: at least [`MELD_MINIMUM`] cards, each the successor of
/// the one before (same suit, next rank), and never continuing past an
/// Ace: an Ace may only open or close a run.
pub open spec fn is_run_meld(m: Seq<Card>) -> bool {
    && m.len() >= MELD_MINIMUM
    && (forall|i: int| 0 < i < m.len() ==> #[trigger] run_link(m, i))
    && (forall|i: int| #![trigger m[i]] 0 < i < m.len() - 1 ==> m[i].rank != Rank::ACE)
}

/// A valid meld: a set or a run.
pub open spec fn is_meld(m: Seq<Card>) -> bool {
    is_set_meld(m) || is_run_meld(m)
}

/// All cards of a list of melds, as one multiset.
pub open spec fn melds_cards(ms: Seq<Seq<Card>>) -> Multiset<Card>
    decreases ms.len(),
{
    if ms.len() == 0 {
        Multiset::<Card>::empty()
    } else {
        ms[0].to_multiset().add(melds_cards(ms.drop_first()))
    }
}

/// `ms` partitions the hand `h`: every entry is a valid meld, and the
/// melds together hold exactly the cards of `h`, each used once.
pub open spec fn is_partition(ms: Seq<Seq<Card>>, h: Multiset<Card>) -> bool {
    (forall|i: int| 0 <= i < ms.len() ==> is_meld(#[trigger] ms[i])) && melds_cards(ms) == h
}

/// The partial meld `p` so far obeys the shape of its kind: all one rank
/// for a set; an ascending chain whose interior cards are never Aces for
/// a run.
spec fn partial_meld_ok(p: Seq<Card>, mt: MeldType) -> bool {
    && 1int <= p.len()
    && (mt == MeldType::SET ==> forall|i: int| #![trigger p[i]] 0 <= i < p.len() ==> p[i].rank
        == p[0].rank)
    && (mt == MeldType::RUN ==> forall|i: int| 0 < i < p.len() ==> #[trigger] run_link(p, i))
    && (mt == MeldType::RUN ==> forall|i: int| #![trigger p[i]] 0 < i < p.len() - 1 ==> p[i].rank
        != Rank::ACE)
}

/// `ext` and `ms` complete the search state whose partial meld is `p`:
/// `p` extended by `ext` is a valid meld, `ms` holds further valid melds,
/// and together `ext` and `ms` use exactly the remaining cards `h`.
spec fn completion_ok(
    p: Seq<Card>,
    h: Multiset<Card>,
    ext: Seq<Card>,
    ms: Seq<Seq<Card>>,
) -> bool {
    && ext.to_multiset().add(melds_cards(ms)) == h
    && is_meld(p + ext)
    && (forall|i: int| 0 <= i < ms.len() ==> is_meld(#[trigger] ms[i]))
}

proof fn lemma_prepend_multiset(c: Card, s: Seq<Card>)
    ensures
        (seq![c] + s).to_multiset() == s.to_multiset().insert(c),
{
    broadcast use vstd::seq_lib::group_to_multiset_ensures;

    let full = seq![c] + s;
    assert(full.remove(0) =~= s);
    assert(full[0] == c);
    assert(full.contains(c));
    assert(full.to_multiset().count(c) > 0);
    assert(full.to_multiset().remove(c) == s.to_multiset());
    assert(full.to_multiset() =~= s.to_multiset().insert(c));
}

proof fn lemma_empty_seq_multiset()
    ensures
        Seq::<Card>::empty().to_multiset() == Multiset::<Card>::empty(),
{
    broadcast use vstd::seq_lib::group_to_multiset_ensures;

    assert(Seq::<Card>::empty().to_multiset() =~= Multiset::<Card>::empty());
}

/// Whatever partial meld `p` the search state stands for, a winning
/// search completes `p` into a valid meld and parcels the rest of the
/// hand into further valid melds.
proof fn lemma_wins_completion(p: Seq<Card>, mt: MeldType, h: Multiset<Card>)
    requires
        partial_meld_ok(p, mt),
        search_wins(p[p.len() - 1], p.len() as nat, mt, h),
    ensures
        exists|ext: Seq<Card>, ms: Seq<Seq<Card>>| #[trigger] completion_ok(p, h, ext, ms),
    decreases h.len(), 3int,
{
    let anchor = p[p.len() - 1];
    let len = p.len() as nat;
    if h.len() == 0 {
        let ext = Seq::<Card>::empty();
        let ms = Seq::<Seq<Card>>::empty();
        assert(p + ext =~= p);
        if mt == MeldType::SET {
            assert(is_set_meld(p));
        } else {
            assert(is_run_meld(p));
        }
        lemma_empty_seq_multiset();
        assert(ext.to_multiset().add(melds_cards(ms)) =~= h);
        assert(completion_ok(p, h, ext, ms));
    } else {
        assert(exists|c: Card| #![trigger h.count(c)] search_step(anchor, len, mt, h, c));
        let c = choose|c: Card| #![trigger h.count(c)] search_step(anchor, len, mt, h, c);
        assert(search_step(anchor, len, mt, h, c));
        assert(h.contains(c));
        if mt == MeldType::SET && c.rank == anchor.rank {
            lemma_completion_extend(p, mt, h, c);
        } else if mt == MeldType::RUN && c == card_succ(anchor) && !(anchor.rank == Rank::ACE
            && len > 1) {
            lemma_completion_extend(p, mt, h, c);
        } else {
            assert(len >= MELD_MINIMUM);
            if mt == MeldType::SET {
                assert(is_set_meld(p));
            } else {
                assert(is_run_meld(p));
            }
            lemma_completion_close(p, h, c);
        }
    }
}

/// Committing `c` as one more card of the current partial meld.
proof fn lemma_completion_extend(p: Seq<Card>, mt: MeldType, h: Multiset<Card>, c: Card)
    requires
        partial_meld_ok(p, mt),
        h.contains(c),
        mt == MeldType::SET ==> c.rank == p[p.len() - 1].rank,
        mt == MeldType::RUN ==> c == card_succ(p[p.len() - 1]) && !(p[p.len() - 1].rank
            == Rank::ACE && p.len() > 1),
        search_wins(c, p.len() as nat + 1, mt, h.remove(c)),
    ensures
        exists|ext: Seq<Card>, ms: Seq<Seq<Card>>| #[trigger] completion_ok(p, h, ext, ms),
    decreases h.len(), 2int,
{
    let anchor = p[p.len() - 1];
    let rest = h.remove(c);
    assert(rest.insert(c) =~= h);
    let p2 = p.push(c);
    assert(p2[p2.len() - 1] == c);
    if mt == MeldType::SET {
        assert forall|i: int| #![trigger p2[i]] 0 <= i < p2.len() implies p2[i].rank == p2[0].rank
        by {
            if i < p.len() {
                assert(p2[i] == p[i]);
            }
        }
    } else {
        assert forall|i: int| 0 < i < p2.len() implies #[trigger] run_link(p2, i) by {
            if i < p.len() {
                assert(run_link(p, i));
                assert(p2[i] == p[i]);
                assert(p2[i - 1] == p[i - 1]);
            } else {
                assert(p2[i] == c);
                assert(p2[i - 1] == anchor);
            }
        }
        assert forall|i: int| #![trigger p2[i]] 0 < i < p2.len() - 1 implies p2[i].rank
            != Rank::ACE by {
            assert(p2[i] == p[i]);
            if i == p.len() - 1 {
                assert(p[i] == anchor && p.len() > 1);
            }
        }
    }
    lemma_wins_completion(p2, mt, rest);
    let (ext2, ms2) = choose|ext2: Seq<Card>, ms2: Seq<Seq<Card>>|
        #[trigger] completion_ok(p2, rest, ext2, ms2);
    let ext = seq![c] + ext2;
    lemma_prepend_multiset(c, ext2);
    assert(ext.to_multiset().add(melds_cards(ms2)) =~= h);
    assert(p + ext =~= p2 + ext2);
    assert(completion_ok(p, h, ext, ms2));
}

/// Closing the current meld, already valid on its own, and opening a
/// fresh one with `c` as its anchor.
proof fn lemma_completion_close(p: Seq<Card>, h: Multiset<Card>, c: Card)
    requires
        is_meld(p),
        h.contains(c),
        search_wins(c, 1, MeldType::SET, h.remove(c)) || search_wins(
            c,
            1,
            MeldType::RUN,
            h.remove(c),
        ),
    ensures
        exists|ext: Seq<Card>, ms: Seq<Seq<Card>>| #[trigger] completion_ok(p, h, ext, ms),
    decreases h.len(), 2int,
{
    let rest = h.remove(c);
    assert(rest.insert(c) =~= h);
    let p2 = seq![c];
    let mt2: MeldType = if search_wins(c, 1, MeldType::SET, rest) {
        MeldType::SET
    } else {
        MeldType::RUN
    };
    assert(search_wins(c, 1, mt2, rest));
    assert(p2[p2.len() - 1] == c);
    lemma_wins_completion(p2, mt2, rest);
    let (ext2, ms2) = choose|ext2: Seq<Card>, ms2: Seq<Seq<Card>>|
        #[trigger] completion_ok(p2, rest, ext2, ms2);
    let ext = Seq::<Card>::empty();
    let ms = seq![p2 + ext2] + ms2;
    assert(p + ext =~= p);
    assert(ms[0] == p2 + ext2);
    assert(ms.drop_first() =~= ms2);
    assert(melds_cards(ms) == (p2 + ext2).to_multiset().add(melds_cards(ms2)));
    lemma_prepend_multiset(c, ext2);
    assert((p2 + ext2).to_multiset() == ext2.to_multiset().insert(c));
    lemma_empty_seq_multiset();
    assert(ext2.to_multiset().insert(c).add(melds_cards(ms2)) =~= h);
    assert(ext.to_multiset().add(melds_cards(ms)) =~= h);
    assert forall|i: int| 0 <= i < ms.len() implies is_meld(#[trigger] ms[i]) by {
        if i > 0 {
            assert(ms[i] == ms2[i - 1]);
        }
    }
    assert(completion_ok(p, h, ext, ms));
}

/// Any single valid meld, taken as a whole hand, gins.
pub proof fn lemma_single_meld_gins(m: Seq<Card>)
    requires
        is_meld(m),
    ensures
        can_gin(m.to_multiset()),
{
    if is_set_meld(m) {
        let rk = m[0].rank;
        assert forall|c: Card| #[trigger] m.to_multiset().contains(c) implies c.rank == rk by {
            assert(m.contains(c)) by {
                broadcast use vstd::seq_lib::group_to_multiset_ensures;
            }
            let j = choose|j: int| 0 <= j < m.len() && m[j] == c;
            assert(m[j].rank == rk);
        }
        assert(m.to_multiset().len() == m.len()) by {
            broadcast use vstd::seq_lib::group_to_multiset_ensures;
        }
        lemma_set_hand_gins(m.to_multiset(), rk);
    } else {
        lemma_run_hand_gins(m);
    }
}

/// Soundness of the search: whenever the hand can gin, an actual
/// partition of its cards into valid melds exists.
pub proof fn lemma_gin_sound(h: Multiset<Card>)
    requires
        can_gin(h),
    ensures
        exists|ms: Seq<Seq<Card>>| #[trigger] is_partition(ms, h),
{
    if h.len() == 0 {
        let ms = Seq::<Seq<Card>>::empty();
        assert(melds_cards(ms) =~= h);
        assert(is_partition(ms, h));
    } else {
        let c = choose|c: Card| first_choice(h, c);
        assert(first_choice(h, c));
        let rest = h.remove(c);
        assert(rest.insert(c) =~= h);
        let p = seq![c];
        let mt: MeldType = if search_wins(c, 1, MeldType::SET, rest) {
            MeldType::SET
        } else {
            MeldType::RUN
        };
        assert(search_wins(c, 1, mt, rest));
        assert(p[p.len() - 1] == c);
        lemma_wins_completion(p, mt, rest);
        let (ext, ms2) = choose|ext: Seq<Card>, ms2: Seq<Seq<Card>>|
            #[trigger] completion_ok(p, rest, ext, ms2);
        let ms = seq![p + ext] + ms2;
        assert(ms[0] == p + ext);
        assert(ms.drop_first() =~= ms2);
        assert(melds_cards(ms) == (p + ext).to_multiset().add(melds_cards(ms2)));
        lemma_prepend_multiset(c, ext);
        assert((p + ext).to_multiset() == ext.to_multiset().insert(c));
        assert(ext.to_multiset().insert(c).add(melds_cards(ms2)) =~= h);
        assert forall|i: int| 0 <= i < ms.len() implies is_meld(#[trigger] ms[i]) by {
            if i > 0 {
                assert(ms[i] == ms2[i - 1]);
            }
        }
        assert(is_partition(ms, h));
    }
}

} // verus!
