use advoc2023::error::ParseError;
use advoc2023::hand::{Card, CardFace, Hand, HandType, Hands};
use std::collections::HashMap;

const EXAMPLE: &str = "32T3K 765
T55J5 684
KK677 28
KTJJT 220
QQQJA 483
";

#[test]
fn test_hand_type() {
    assert_eq!(HandType::FiveOfAKind.prio(), 8);
    assert_eq!(HandType::ThreeOfAKind.prio(), 5);
    assert_eq!(HandType::Nothing.prio(), 1);
}

#[test]
fn test_score() {
    let test_data = EXAMPLE.to_string();
    let hands = Hands::from_str(&test_data).unwrap();
    for hand in hands.hands.iter() {
        println!("{:?}", hand.score());
    }
    let scores: Vec<HandType> = hands.hands.iter().map(|hand| hand.score()).collect();
    assert_eq!(
        scores,
        vec![
            HandType::OnePair,
            HandType::ThreeOfAKind,
            HandType::TwoPair,
            HandType::TwoPair,
            HandType::ThreeOfAKind
        ]
    );

    let more_hands = Hands::from_str(
        r#"TTTTT 1
34567 8
T2TTT 2
32323 2
"#,
    )
    .unwrap();
    let scores: Vec<HandType> = more_hands.hands.iter().map(|hand| hand.score()).collect();
    assert_eq!(scores[0], HandType::FiveOfAKind);
    assert_eq!(scores[1], HandType::HighCard);
    assert_eq!(scores[2], HandType::FourOfAKind);
    assert_eq!(scores[3], HandType::FullHouse);
}

#[test]
fn test_hands_2() {
    let test_data = EXAMPLE.to_string();
    let hands = Hands::from_str(&test_data).unwrap();
    assert!(hands.hands[0] < hands.hands[1]);
    assert!(hands.hands[0] <= hands.hands[0]);
    assert!(hands.hands[0] == hands.hands[0]);
    assert!(hands.hands[2] > hands.hands[1]);
}

#[test]
fn test_hands_1() {
    let test_data = EXAMPLE.to_string();
    let hands = Hands::from_str(&test_data).unwrap();
    for (i, hand) in hands.hands.iter().enumerate() {
        println!("{:?}", hand);
        if i == 0 {
            assert_eq!(
                hand.cards,
                [
                    Card {
                        face: CardFace::Three,
                        prio: 2
                    },
                    Card {
                        face: CardFace::Two,
                        prio: 1
                    },
                    Card {
                        face: CardFace::Ten,
                        prio: 9
                    },
                    Card {
                        face: CardFace::Three,
                        prio: 2
                    },
                    Card {
                        face: CardFace::King,
                        prio: 12
                    }
                ]
            );
            assert_eq!(hand.bid, 765);
        }
        if i == 4 {
            assert_eq!(
                hand.cards,
                [
                    Card {
                        face: CardFace::Queen,
                        prio: 11
                    },
                    Card {
                        face: CardFace::Queen,
                        prio: 11
                    },
                    Card {
                        face: CardFace::Queen,
                        prio: 11
                    },
                    Card {
                        face: CardFace::Jack,
                        prio: 10
                    },
                    Card {
                        face: CardFace::Ace,
                        prio: 13
                    }
                ]
            );
            assert_eq!(hand.bid, 483);
        }
    }
}

#[test]
fn test_prio_map() {
    assert_eq!(CardFace::Ace.prio(), 13);
    assert!(CardFace::Ace.prio() > CardFace::King.prio());
    assert_eq!(CardFace::Ten.prio(), 9);
    assert_eq!(CardFace::Two.prio(), 1);
}

#[test]
fn every_face_and_kind_has_its_rank() {
    let faces = [
        ('A', CardFace::Ace),
        ('K', CardFace::King),
        ('Q', CardFace::Queen),
        ('J', CardFace::Jack),
        ('T', CardFace::Ten),
        ('9', CardFace::Nine),
        ('8', CardFace::Eight),
        ('7', CardFace::Seven),
        ('6', CardFace::Six),
        ('5', CardFace::Five),
        ('4', CardFace::Four),
        ('3', CardFace::Three),
        ('2', CardFace::Two),
    ];
    for (i, (c, face)) in faces.iter().enumerate() {
        assert_eq!(CardFace::from_char(*c), Some(*face));
        assert_eq!(face.prio(), 13 - i as i64);
    }
    assert_eq!(CardFace::from_char('1'), None);
    assert_eq!(CardFace::from_char('a'), None);
    let kinds = [
        HandType::FiveOfAKind,
        HandType::FourOfAKind,
        HandType::FullHouse,
        HandType::ThreeOfAKind,
        HandType::TwoPair,
        HandType::OnePair,
        HandType::HighCard,
        HandType::Nothing,
    ];
    for (i, kind) in kinds.iter().enumerate() {
        assert_eq!(kind.prio(), 8 - i as i64);
    }
    assert_eq!(HandType::default(), HandType::Nothing);
    assert_eq!(CardFace::default(), CardFace::Ace);
}

#[test]
fn short_hand_keeps_blank_cards() {
    let hand = Hand::from_str("A2 5").unwrap();
    assert_eq!(hand.cards[0], Card { face: CardFace::Ace, prio: 13 });
    assert_eq!(hand.cards[1], Card { face: CardFace::Two, prio: 1 });
    assert_eq!(hand.cards[2], Card { face: CardFace::Ace, prio: 0 });
    assert_eq!(hand.cards[4], Card::default());
    assert_eq!(hand.bid, 5);
    assert_eq!(hand.score(), HandType::ThreeOfAKind);
    assert_eq!(Hand::from_str(" 5").unwrap().score(), HandType::FiveOfAKind);
    assert_eq!(Hand::default().score(), HandType::FiveOfAKind);
}

#[test]
fn hand_errors() {
    assert_eq!(Hand::from_str("32X3K 765").unwrap_err(), ParseError::SyntaxError { at: 2 });
    assert_eq!(Hand::from_str("32T3K2 765").unwrap_err(), ParseError::UnexpectedToken { at: 5 });
    assert_eq!(Hand::from_str("32T3Kx 765").unwrap_err(), ParseError::SyntaxError { at: 5 });
    assert_eq!(Hand::from_str("32T3K22x 765").unwrap_err(), ParseError::UnexpectedToken { at: 5 });
    assert_eq!(Hand::from_str("32T3K").unwrap_err(), ParseError::MissingField);
    assert_eq!(Hand::from_str("").unwrap_err(), ParseError::MissingField);
    assert_eq!(Hand::from_str("32T3K ").unwrap_err(), ParseError::MissingField);
    assert_eq!(Hand::from_str("32T3K  7").unwrap_err(), ParseError::MissingField);
    assert_eq!(Hand::from_str("32T3K 7x").unwrap_err(), ParseError::SyntaxError { at: 7 });
    assert_eq!(Hand::from_str("32T3K -7").unwrap_err(), ParseError::SyntaxError { at: 6 });
    assert_eq!(
        Hand::from_str("32T3K 9223372036854775808").unwrap_err(),
        ParseError::NumberOutOfRange { at: 6 }
    );
    assert_eq!(Hand::from_str("32T3K 9223372036854775807 x").unwrap().bid, i64::MAX);
}

#[test]
fn hands_stop_at_the_first_bad_line() {
    assert_eq!(
        Hands::from_str("32T3K 765\nT55J5\nXXXXX 1").unwrap_err(),
        ParseError::MissingField
    );
    assert_eq!(Hands::from_str("").unwrap().hands.len(), 0);
    assert_eq!(Hands::from_str("32T3K 765\n\n").unwrap_err(), ParseError::MissingField);
}

#[test]
fn hands_are_ordered_by_their_first_card() {
    let low = Hand::from_str("2AAAA 1").unwrap();
    let high = Hand::from_str("A2222 1").unwrap();
    let other = Hand::from_str("A3333 9").unwrap();
    assert!(low < high);
    assert!(high > low);
    assert!(high <= other && high >= other);
    assert!(high != other);
}

/// A small generator of numbers that is the same on every run.
fn next(state: &mut u64) -> u64 {
    *state = state
        .wrapping_mul(6364136223846793005)
        .wrapping_add(1442695040888963407);
    *state >> 33
}

fn kind_by_counting(hand: &Hand) -> HandType {
    let mut card_counts: HashMap<Card, i64> = HashMap::new();
    for card in hand.cards.iter() {
        *card_counts.entry(*card).or_insert(0) += 1;
    }
    let mut res: Vec<i64> = card_counts.values().cloned().collect();
    res.sort();
    res.reverse();
    match (res.len(), res[0]) {
        (1, _) => HandType::FiveOfAKind,
        (5, _) => HandType::HighCard,
        (2, 3) => HandType::FullHouse,
        (2, 4) => HandType::FourOfAKind,
        (3, 3) => HandType::ThreeOfAKind,
        (3, 2) => HandType::TwoPair,
        (4, _) => HandType::OnePair,
        _ => HandType::Nothing,
    }
}

#[test]
fn many_hands_have_the_kind_that_counting_gives() {
    let faces = ['A', 'K', 'Q', 'J', 'T', '9', '8', '7', '6', '5', '4', '3', '2'];
    let mut state = 5;
    let mut seen = std::collections::HashSet::new();
    for _ in 0..500 {
        let variety = 1 + next(&mut state) % 13;
        let length = next(&mut state) % 6;
        let cards: String = (0..length)
            .map(|_| faces[(next(&mut state) % variety) as usize])
            .collect();
        let bid = next(&mut state) as i64;
        let hand = Hand::from_str(&format!("{} {}", cards, bid)).unwrap();
        assert_eq!(hand.bid, bid);
        for (k, c) in cards.chars().enumerate() {
            assert_eq!(Some(hand.cards[k].face), CardFace::from_char(c));
            assert_eq!(hand.cards[k].prio, hand.cards[k].face.prio());
        }
        assert_eq!(hand.score(), kind_by_counting(&hand), "{:?}", cards);
        seen.insert(hand.score());
    }
    assert_eq!(seen.len(), 7);
}
