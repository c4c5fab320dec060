//! Parsing a hand from text.
//!
//! The textual form is a space-separated list of two-character tokens, a
//! rank character (`A 2 3 4 5 6 7 8 9 T J Q K`) followed by a suit
//! character (`C S H D`).  Any malformed token — an unknown rank or suit
//! character, or a token that is not exactly two characters — makes the
//! whole input invalid, and no hand is produced.

use vstd::prelude::*;
use vstd::string::StrSliceExecFns;

use crate::cards::{Card, Hand, Rank, Suit};

verus! {

/// The rank a single character denotes, if any.
pub open spec fn spec_rank_of_char(ch: char) -> Option<Rank> {
    if ch == 'A' {
        Some(Rank::ACE)
    } else if ch == '2' {
        Some(Rank::TWO)
    } else if ch == '3' {
        Some(Rank::THREE)
    } else if ch == '4' {
        Some(Rank::FOUR)
    } else if ch == '5' {
        Some(Rank::FIVE)
    } else if ch == '6' {
        Some(Rank::SIX)
    } else if ch == '7' {
        Some(Rank::SEVEN)
    } else if ch == '8' {
        Some(Rank::EIGHT)
    } else if ch == '9' {
        Some(Rank::NINE)
    } else if ch == 'T' {
        Some(Rank::TEN)
    } else if ch == 'J' {
        Some(Rank::JACK)
    } else if ch == 'Q' {
        Some(Rank::QUEEN)
    } else if ch == 'K' {
        Some(Rank::KING)
    } else {
        None
    }
}

/// The suit a single character denotes, if any.
pub open spec fn spec_suit_of_char(ch: char) -> Option<Suit> {
    if ch == 'C' {
        Some(Suit::CLUB)
    } else if ch == 'S' {
        Some(Suit::SPADE)
    } else if ch == 'H' {
        Some(Suit::HEART)
    } else if ch == 'D' {
        Some(Suit::DIAMOND)
    } else {
        None
    }
}

/// The card a token denotes: exactly two characters, a rank character
/// followed by a suit character.
pub open spec fn spec_token_card(t: Seq<char>) -> Option<Card> {
    if t.len() == 2 && spec_rank_of_char(t[0]) is Some && spec_suit_of_char(t[1]) is Some {
        Some(Card { rank: spec_rank_of_char(t[0])->Some_0, suit: spec_suit_of_char(t[1])->Some_0 })
    } else {
        None
    }
}

/// The input split at every single space.  The empty input is one empty
/// token, and each space separates two tokens, so consecutive spaces and
/// leading or trailing spaces produce empty tokens.
pub open spec fn spec_tokens(s: Seq<char>) -> Seq<Seq<char>>
    decreases s.len(),
{
    if s.len() == 0 {
        seq![Seq::<char>::empty()]
    } else if s[0] == ' ' {
        seq![Seq::<char>::empty()] + spec_tokens(s.drop_first())
    } else {
        let rest = spec_tokens(s.drop_first());
        seq![seq![s[0]] + rest[0]] + rest.drop_first()
    }
}

/// The hand the input denotes: one card per token if every token is
/// well-formed, and nothing otherwise.
pub open spec fn spec_parse_hand(s: Seq<char>) -> Option<Seq<Card>> {
    let toks = spec_tokens(s);
    if forall|k: int| 0 <= k < toks.len() ==> spec_token_card(#[trigger] toks[k]) is Some {
        Some(Seq::new(toks.len(), |k: int| spec_token_card(toks[k])->Some_0))
    } else {
        None
    }
}

proof fn lemma_tokens_nonempty(s: Seq<char>)
    ensures
        spec_tokens(s).len() >= 1,
    decreases s.len(),
{
    if s.len() > 0 && s[0] != ' ' {
        lemma_tokens_nonempty(s.drop_first());
    }
}

/// The token under construction, glued onto the front of the first token
/// still to come.
spec fn glue_first(p: Seq<char>, ts: Seq<Seq<char>>) -> Seq<Seq<char>>
    recommends
        ts.len() >= 1,
{
    seq![p + ts[0]] + ts.drop_first()
}

/// The rank a character denotes, if any.
fn rank_of_char(ch: char) -> (r: Option<Rank>)
    ensures
        r == spec_rank_of_char(ch),
{
    match ch {
        'A' => Some(Rank::ACE),
        '2' => Some(Rank::TWO),
        '3' => Some(Rank::THREE),
        '4' => Some(Rank::FOUR),
        '5' => Some(Rank::FIVE),
        '6' => Some(Rank::SIX),
        '7' => Some(Rank::SEVEN),
        '8' => Some(Rank::EIGHT),
        '9' => Some(Rank::NINE),
        'T' => Some(Rank::TEN),
        'J' => Some(Rank::JACK),
        'Q' => Some(Rank::QUEEN),
        'K' => Some(Rank::KING),
        _ => None,
    }
}

/// The suit a character denotes, if any.
fn suit_of_char(ch: char) -> (r: Option<Suit>)
    ensures
        r == spec_suit_of_char(ch),
{
    match ch {
        'C' => Some(Suit::CLUB),
        'S' => Some(Suit::SPADE),
        'H' => Some(Suit::HEART),
        'D' => Some(Suit::DIAMOND),
        _ => None,
    }
}

/// The card a finished token denotes, if it is well-formed.
fn token_card(tok: &Vec<char>) -> (r: Option<Card>)
    ensures
        r == spec_token_card(tok@),
{
    if tok.len() != 2 {
        return None;
    }
    let rk = rank_of_char(tok[0]);
    let su = suit_of_char(tok[1]);
    match rk {
        Some(rank) => match su {
            Some(suit) => Some(Card { rank: rank, suit: suit }),
            None => None,
        },
        None => None,
    }
}

/// Builds a hand from its textual form: `Some` hand with one card per
/// token when every space-separated token is a rank character followed by
/// a suit character, and `None` as soon as any token is malformed.
pub fn hand_from_str(hand_str: &str) -> (r: Option<Hand>)
    ensures
        r is Some <==> spec_parse_hand(hand_str@) is Some,
        r is Some ==> Some(r->Some_0@) == spec_parse_hand(hand_str@),
{
    let ghost full = hand_str@;
    let n = hand_str.unicode_len();
    let mut hand: Hand = Vec::new();
    let mut tok: Vec<char> = Vec::new();
    let ghost mut done: Seq<Seq<char>> = Seq::empty();
    proof {
        assert(full.subrange(0, n as int) =~= full);
        lemma_tokens_nonempty(full);
        let t0 = spec_tokens(full);
        assert(Seq::<char>::empty() + t0[0] =~= t0[0]);
        assert(glue_first(Seq::<char>::empty(), t0) =~= t0);
        assert(Seq::<Seq<char>>::empty() + t0 =~= t0);
    }
    let mut i: usize = 0;
    while i < n
        invariant
            n == full.len(),
            full == hand_str@,
            i <= n,
            spec_tokens(full) == done + glue_first(
                tok@,
                spec_tokens(full.subrange(i as int, n as int)),
            ),
            spec_tokens(full.subrange(i as int, n as int)).len() >= 1,
            hand@.len() == done.len(),
            forall|k: int| 0 <= k < done.len() ==> spec_token_card(#[trigger] done[k]) == Some(
                hand@[k],
            ),
        decreases n - i,
    {
        let ghost rem = full.subrange(i as int, n as int);
        let ghost rem2 = full.subrange(i as int + 1, n as int);
        let ghost toks2 = spec_tokens(rem2);
        proof {
            assert(rem.len() > 0);
            assert(rem[0] == full[i as int]);
            assert(rem.drop_first() =~= rem2);
            lemma_tokens_nonempty(rem2);
        }
        let c = hand_str.get_char(i);
        if c == ' ' {
            proof {
                assert(spec_tokens(rem) == seq![Seq::<char>::empty()] + toks2);
                assert((seq![Seq::<char>::empty()] + toks2)[0] == Seq::<char>::empty());
                assert(tok@ + Seq::<char>::empty() =~= tok@);
                assert((seq![Seq::<char>::empty()] + toks2).drop_first() =~= toks2);
                assert(glue_first(tok@, spec_tokens(rem)) =~= seq![tok@] + toks2);
                assert(done + (seq![tok@] + toks2) =~= (done + seq![tok@]) + toks2);
                assert(spec_tokens(full) == (done + seq![tok@]) + toks2);
            }
            let card_opt = token_card(&tok);
            match card_opt {
                Some(cd) => {
                    hand.push(cd);
                    proof {
                        let old_done = done;
                        done = done.push(tok@);
                        assert(done =~= old_done + seq![tok@]);
                        assert(Seq::<char>::empty() + toks2[0] =~= toks2[0]);
                        assert(glue_first(Seq::<char>::empty(), toks2) =~= toks2);
                        assert(done + toks2 =~= (old_done + seq![tok@]) + toks2);
                        assert(spec_tokens(full) == done + glue_first(
                            Seq::<char>::empty(),
                            toks2,
                        ));
                        assert forall|k: int| 0 <= k < done.len() implies spec_token_card(
                            #[trigger] done[k],
                        ) == Some(hand@[k]) by {
                            if k < old_done.len() {
                                assert(done[k] == old_done[k]);
                            } else {
                                assert(done[k] == tok@);
                            }
                        }
                    }
                    tok.clear();
                }
                None => {
                    proof {
                        let toks = spec_tokens(full);
                        assert(toks[done.len() as int] == tok@);
                        assert(spec_token_card(toks[done.len() as int]) is None);
                        assert(!(spec_parse_hand(full) is Some));
                    }
                    return None;
                }
            }
        } else {
            proof {
                assert(spec_tokens(rem) == seq![seq![rem[0]] + toks2[0]] + toks2.drop_first());
                assert((seq![seq![rem[0]] + toks2[0]] + toks2.drop_first())[0] == seq![rem[0]]
                    + toks2[0]);
                assert(tok@ + (seq![rem[0]] + toks2[0]) =~= (tok@.push(rem[0])) + toks2[0]);
                assert((seq![seq![rem[0]] + toks2[0]] + toks2.drop_first()).drop_first()
                    =~= toks2.drop_first());
                assert(glue_first(tok@, spec_tokens(rem)) =~= glue_first(
                    tok@.push(rem[0]),
                    toks2,
                ));
            }
            tok.push(c);
        }
        i = i + 1;
    }
    proof {
        assert(full.subrange(n as int, n as int) =~= Seq::<char>::empty());
        assert(spec_tokens(full.subrange(n as int, n as int)) == seq![Seq::<char>::empty()]);
        assert(tok@ + Seq::<char>::empty() =~= tok@);
        assert(seq![Seq::<char>::empty()].drop_first() =~= Seq::<Seq<char>>::empty());
        assert(glue_first(tok@, seq![Seq::<char>::empty()]) =~= seq![tok@]);
        assert(spec_tokens(full) == done + seq![tok@]);
    }
    let card_opt = token_card(&tok);
    match card_opt {
        Some(cd) => {
            hand.push(cd);
            proof {
                let toks = spec_tokens(full);
                assert(toks.len() == done.len() + 1);
                assert(toks[done.len() as int] == tok@);
                assert forall|k: int| 0 <= k < toks.len() implies spec_token_card(
                    #[trigger] toks[k],
                ) is Some by {
                    if k < done.len() {
                        assert(toks[k] == done[k]);
                    }
                }
                let cards = Seq::new(toks.len(), |k: int| spec_token_card(toks[k])->Some_0);
                assert forall|k: int| 0 <= k < toks.len() implies #[trigger] cards[k] == hand@[k]
                by {
                    if k < done.len() {
                        assert(toks[k] == done[k]);
                        assert(spec_token_card(done[k]) == Some(hand@[k]));
                    }
                }
                assert(cards =~= hand@);
                assert(spec_parse_hand(full) == Some(hand@));
            }
            Some(hand)
        }
        None => {
            proof {
                let toks = spec_tokens(full);
                assert(toks[done.len() as int] == tok@);
                assert(spec_token_card(toks[done.len() as int]) is None);
                assert(!(spec_parse_hand(full) is Some));
            }
            None
        }
    }
}

} // verus!
