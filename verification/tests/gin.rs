use gin_rummy::{hand_from_str, hand_to_string, has_gin, Card, Hand, Rank, Suit};

#[test]
fn test_hand_from_str() {
    let hand = vec![
        Card {
            rank: Rank::SEVEN,
            suit: Suit::HEART,
        },
        Card {
            rank: Rank::EIGHT,
            suit: Suit::HEART,
        },
        Card {
            rank: Rank::NINE,
            suit: Suit::HEART,
        },
        Card {
            rank: Rank::TEN,
            suit: Suit::HEART,
        },
        Card {
            rank: Rank::SIX,
            suit: Suit::HEART,
        },
        Card {
            rank: Rank::SIX,
            suit: Suit::DIAMOND,
        },
        Card {
            rank: Rank::SIX,
            suit: Suit::SPADE,
        },
        Card {
            rank: Rank::KING,
            suit: Suit::HEART,
        },
        Card {
            rank: Rank::KING,
            suit: Suit::DIAMOND,
        },
        Card {
            rank: Rank::KING,
            suit: Suit::CLUB,
        },
    ];
    let hand2 = hand_from_str("7H 8H 9H TH 6H 6D 6S KH KD KC").unwrap();
    for i in 0..10 {
        assert_eq!(hand[i], hand2[i]);
    }
}

#[test]
fn test_short_set() {
    assert!(!has_gin(&hand_from_str("AC AH").unwrap()));
}

#[test]
fn test_short_run() {
    assert!(!has_gin(&hand_from_str("AC 2C").unwrap()));
}

#[test]
fn test_set() {
    assert!(has_gin(&hand_from_str("AC AH AD").unwrap()));
}

#[test]
fn test_runs() {
    assert!(has_gin(&hand_from_str("AC 2C 3C").unwrap()));
    assert!(has_gin(&hand_from_str("QH KH AH").unwrap()));
}

#[test]
fn test_long_run() {
    assert!(has_gin(&hand_from_str("5S 6S 7S 8S 9S").unwrap()));
}

#[test]
fn test_long_set() {
    assert!(has_gin(&hand_from_str("TH TC TS TD").unwrap()));
}

#[test]
fn test_wraparound() {
    assert!(!has_gin(&hand_from_str("KD AD 2D").unwrap()));
}

#[test]
fn test_double_dip() {
    assert!(!has_gin(&hand_from_str("6H 6C 6D 7D 8D").unwrap()));
}

#[test]
fn test_full_hand() {
    assert!(has_gin(
        &hand_from_str("7H 8H 9H TH 6H 6D 6S KH KD KC").unwrap()
    ));
}

#[test]
fn test_empty_hand_gins() {
    let empty: Hand = Vec::new();
    assert!(has_gin(&empty));
}

#[test]
fn test_single_card_fails() {
    assert!(!has_gin(&hand_from_str("QS").unwrap()));
}

#[test]
fn test_idempotent() {
    let hand = hand_from_str("7H 8H 9H TH 6H 6D 6S KH KD KC").unwrap();
    let first = has_gin(&hand);
    let second = has_gin(&hand);
    assert_eq!(first, second);
    assert!(first);
}

#[test]
fn test_order_independence() {
    // The same ten cards in several orders give the same verdict.
    assert!(has_gin(&hand_from_str("KC KD KH 6S 6D 6H TH 9H 8H 7H").unwrap()));
    assert!(has_gin(&hand_from_str("6D 7H KH 8H 6S KD 9H KC TH 6H").unwrap()));
    // Likewise for a failing hand.
    assert!(!has_gin(&hand_from_str("AD 2D KD").unwrap()));
    assert!(!has_gin(&hand_from_str("2D KD AD").unwrap()));
}

#[test]
fn test_wraparound_all_suits() {
    assert!(!has_gin(&hand_from_str("KC AC 2C").unwrap()));
    assert!(!has_gin(&hand_from_str("KS AS 2S").unwrap()));
    assert!(!has_gin(&hand_from_str("KH AH 2H").unwrap()));
}

#[test]
fn test_duplicate_suit_set() {
    // A "set" never checks that suits differ, so three identical cards
    // still count as one meld.
    assert!(has_gin(&hand_from_str("6H 6H 6H").unwrap()));
}

#[test]
fn test_run_and_set_together() {
    assert!(has_gin(&hand_from_str("AC 2C 3C 9H 9S 9D").unwrap()));
}

#[test]
fn test_rank_succ_cycles() {
    assert_eq!(Rank::ACE.succ(), Rank::TWO);
    assert_eq!(Rank::QUEEN.succ(), Rank::KING);
    assert_eq!(Rank::KING.succ(), Rank::ACE);
}

#[test]
fn test_card_succ_keeps_suit() {
    let card = Card {
        rank: Rank::TEN,
        suit: Suit::SPADE,
    };
    let next = card.succ();
    assert_eq!(next.rank, Rank::JACK);
    assert_eq!(next.suit, Suit::SPADE);
}

#[test]
fn test_parse_values() {
    let hand = hand_from_str("AS TC 5H").unwrap();
    assert_eq!(hand.len(), 3);
    assert_eq!(
        hand[0],
        Card {
            rank: Rank::ACE,
            suit: Suit::SPADE,
        }
    );
    assert_eq!(
        hand[1],
        Card {
            rank: Rank::TEN,
            suit: Suit::CLUB,
        }
    );
    assert_eq!(
        hand[2],
        Card {
            rank: Rank::FIVE,
            suit: Suit::HEART,
        }
    );
}

#[test]
fn test_parse_rejects_bad_rank() {
    assert!(hand_from_str("XC").is_none());
}

#[test]
fn test_parse_rejects_bad_suit() {
    assert!(hand_from_str("AX").is_none());
}

#[test]
fn test_parse_rejects_short_token() {
    assert!(hand_from_str("A").is_none());
    assert!(hand_from_str("AC S").is_none());
}

#[test]
fn test_parse_rejects_long_token() {
    assert!(hand_from_str("ACX").is_none());
}

#[test]
fn test_parse_rejects_empty_input() {
    assert!(hand_from_str("").is_none());
    assert!(hand_from_str(" ").is_none());
    assert!(hand_from_str("AC  2C").is_none());
}

#[test]
fn test_hand_to_string_exact() {
    let hand = hand_from_str("AS TC 5H").unwrap();
    assert_eq!(hand_to_string(&hand), "Hand: [ AS TC 5H ]");
    let empty: Hand = Vec::new();
    assert_eq!(hand_to_string(&empty), "Hand: [ ]");
}
