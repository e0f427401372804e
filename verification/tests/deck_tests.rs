use advoc2023::card::{sum_of_scores, Card};
use advoc2023::deck::Deck;

const TEST_CARDS: &str = r"Card 1: 41 48 83 86 17 | 83 86  6 31 17  9 48 53 
Card 2: 13 32 20 16 61 | 61 30 68 82 17 32 24 19
Card 3:  1 21 53 59 44 | 69 82 63 72 16 21 14  1
Card 4: 41 92 73 84 69 | 59 84 76 51 58  5 54 83
Card 5: 87 83 26 28 32 | 88 30 70 12 93 22 82 36
Card 6: 31 18 13 56 72 | 74 77 10 23 35 67 36 11";

#[test]
fn test_deck() {
    let mut deck = Deck::new();
    for line in TEST_CARDS.lines() {
        deck.add(Card::from_card_string(line).unwrap());
    }

    assert_eq!(deck.cards.len(), 6);
    assert_eq!(deck.cards[0].count, 1);
}

#[test]
fn test_process_wins() {
    let mut deck = Deck::new();
    for line in TEST_CARDS.lines() {
        deck.add(Card::from_card_string(line).unwrap());
    }
    deck.process_wins();
    assert_eq!(deck.cards.len(), 6);
    assert_eq!(deck.cards[0].count, 1);
    assert_eq!(deck.cards[1].count, 2);
    assert_eq!(deck.cards[2].count, 4);
    assert_eq!(deck.cards[3].count, 8);
    assert_eq!(deck.cards[4].count, 14);
    assert_eq!(deck.cards[5].count, 1);

    assert_eq!(deck.number_of_cards(), 30);
}

#[test]
fn deck_without_cards_counts_nothing() {
    let mut deck = Deck::new();
    deck.process_wins();
    assert_eq!(deck.cards.len(), 0);
    assert_eq!(deck.number_of_cards(), 0);
}

#[test]
fn wins_beyond_the_last_card_are_dropped() {
    let mut deck = Deck::new();
    deck.add(Card::from_card_string("Card 1: 1 2 3 | 1 2 3").unwrap());
    deck.add(Card::from_card_string("Card 2: 1 2 3 | 1 2 3").unwrap());
    deck.process_wins();
    assert_eq!(deck.cards[0].count, 1);
    assert_eq!(deck.cards[1].count, 2);
    assert_eq!(deck.number_of_cards(), 3);
}

#[test]
fn copies_are_added_to_the_count() {
    let mut deck = Deck::new();
    deck.add(Card::from_card_string("Card 1: 1 | 2").unwrap());
    deck.cards[0].add_copies(4);
    assert_eq!(deck.cards[0].count, 5);
    assert_eq!(deck.cards[0].card()._card_no, 1);
    assert_eq!(deck.number_of_cards(), 5);
}

#[test]
fn counts_double_along_a_run_of_winners() {
    let mut deck = Deck::new();
    for k in 0..20 {
        let line = format!("Card {}: 1 2 3 4 5 6 7 8 9 10 11 12 13 14 15 16 17 18 19 20 | 1 2 3 4 5 6 7 8 9 10 11 12 13 14 15 16 17 18 19 20", k);
        deck.add(Card::from_card_string(&line).unwrap());
    }
    deck.process_wins();
    for k in 0..20 {
        assert_eq!(deck.cards[k].count, 1i64 << k);
    }
    assert_eq!(deck.number_of_cards(), (1i64 << 20) - 1);
}

#[test]
fn scores_of_the_six_cards_sum_to_thirteen() {
    let cards: Vec<Card> = TEST_CARDS
        .lines()
        .map(|line| Card::from_card_string(line).unwrap())
        .collect();
    let each: Vec<usize> = cards.iter().map(|card| card.score()).collect();
    assert_eq!(each, vec![8, 2, 2, 1, 0, 0]);
    assert_eq!(sum_of_scores(&cards), Some(13));
    assert_eq!(sum_of_scores(&vec![]), Some(0));
}

#[test]
fn card_with_too_many_matches_has_no_sum() {
    let numbers: Vec<String> = (1..=33).map(|n| n.to_string()).collect();
    let line = format!("Card 1: {} | {}", numbers.join(" "), numbers.join(" "));
    let card = Card::from_card_string(&line).unwrap();
    assert_eq!(card.correct_numbers().len(), 33);
    assert_eq!(sum_of_scores(&vec![card]), None);
    let line = format!("Card 1: {} | {}", numbers[..32].join(" "), numbers.join(" "));
    let card = Card::from_card_string(&line).unwrap();
    assert_eq!(card.score(), 1 << 31);
    assert_eq!(sum_of_scores(&vec![card]), Some(1 << 31));
}
