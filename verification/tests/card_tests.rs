use advoc2023::card::{lexer, Card, ParseError, ParseState, Token};
use std::collections::HashSet;

const TEST_CARD_1: &str = r"Card 1: 41 48 83 86 17 | 83 86  6 31 17  9 48 53";

fn set_of(numbers: &[usize]) -> HashSet<usize> {
    numbers.iter().copied().collect()
}

#[test]
fn test_parse_card() {
    let tokens = lexer(TEST_CARD_1).unwrap();
    println!("TOKENS: {:?}", tokens);
    assert_eq!(tokens.len(), 17);
}

#[test]
fn test_card() {
    let card = Card::from_card_string(TEST_CARD_1).unwrap();
    println!("CARD: {:?}", card);
    println!("Correct Numbers: {:?}", card.correct_numbers());
    assert_eq!(card.wins.len(), 5);
    assert_eq!(card.score(), 8);
}

#[test]
fn card_line_has_seventeen_tokens_in_order() {
    let tokens = lexer("Card 1: 41 48 83 86 17 | 83 86 6 31 17 9 48 53").unwrap();
    let expected = vec![
        Token::Card,
        Token::Number(1),
        Token::Colon,
        Token::Number(41),
        Token::Number(48),
        Token::Number(83),
        Token::Number(86),
        Token::Number(17),
        Token::Pipe,
        Token::Number(83),
        Token::Number(86),
        Token::Number(6),
        Token::Number(31),
        Token::Number(17),
        Token::Number(9),
        Token::Number(48),
        Token::Number(53),
    ];
    assert_eq!(tokens, expected);
    assert_eq!(tokens.iter().filter(|t| **t == Token::Pipe).count(), 1);
}

#[test]
fn card_record_holds_both_buckets() {
    let card = Card::from_card_string("Card 1: 41 48 83 86 17 | 83 86 6 31 17 9 48 53").unwrap();
    assert_eq!(card._card_no, 1);
    assert_eq!(card.wins, set_of(&[41, 48, 83, 86, 17]));
    assert_eq!(card.played, set_of(&[83, 86, 6, 31, 17, 9, 48, 53]));
    let mut correct = card.correct_numbers();
    correct.sort();
    assert_eq!(correct, vec![17, 48, 83, 86]);
    assert_eq!(card.score(), 8);
}

#[test]
fn card_scores_double_with_each_match() {
    assert_eq!(Card::from_card_string("Card 7: 1 2 3 | 4 5 6").unwrap().score(), 0);
    assert_eq!(Card::from_card_string("Card 7: 1 2 3 | 3 5 6").unwrap().score(), 1);
    assert_eq!(Card::from_card_string("Card 7: 1 2 3 | 3 2 6").unwrap().score(), 2);
    assert_eq!(Card::from_card_string("Card 7: 1 2 3 | 3 2 1").unwrap().score(), 4);
    assert_eq!(Card::default().score(), 0);
}

#[test]
fn card_with_letter_for_number_is_a_syntax_error() {
    assert_eq!(lexer("Card X:").unwrap_err(), ParseError::SyntaxError { at: 5 });
    assert_eq!(
        Card::from_card_string("Card X:").unwrap_err(),
        ParseError::SyntaxError { at: 5 }
    );
}

#[test]
fn card_lexer_rejects_characters_outside_the_alphabet() {
    assert_eq!(lexer("Card 1: 4 $").unwrap_err(), ParseError::SyntaxError { at: 10 });
    assert_eq!(lexer("Card 1: 4\t5").unwrap_err(), ParseError::SyntaxError { at: 9 });
    assert_eq!(lexer("Card 1: 4a | 5").unwrap_err(), ParseError::SyntaxError { at: 8 });
    assert_eq!(lexer("card 1: 4 | 5").unwrap_err(), ParseError::SyntaxError { at: 0 });
    assert_eq!(lexer("Card 1: 4 | 5 é").unwrap_err(), ParseError::SyntaxError { at: 14 });
}

#[test]
fn card_lexer_reports_the_first_error_from_the_left() {
    assert_eq!(
        lexer("Card 1: 99999999999999999999999999 $").unwrap_err(),
        ParseError::NumberOutOfRange { at: 8 }
    );
    assert_eq!(
        lexer("Card 1: $ 99999999999999999999999999").unwrap_err(),
        ParseError::SyntaxError { at: 8 }
    );
}

#[test]
fn card_lexer_reads_the_largest_number_and_leading_zeros() {
    let line = format!("Card 007: {} | 0", usize::MAX);
    let tokens = lexer(&line).unwrap();
    assert_eq!(tokens[1], Token::Number(7));
    assert_eq!(tokens[3], Token::Number(usize::MAX));
    assert_eq!(tokens[5], Token::Number(0));
}

#[test]
fn card_lexer_takes_separators_without_blanks() {
    assert_eq!(
        lexer("Card 3:1|2").unwrap(),
        vec![
            Token::Card,
            Token::Number(3),
            Token::Colon,
            Token::Number(1),
            Token::Pipe,
            Token::Number(2)
        ]
    );
    assert_eq!(lexer("").unwrap(), vec![]);
    assert_eq!(lexer("    ").unwrap(), vec![]);
}

#[test]
fn card_builder_needs_the_identifier() {
    assert_eq!(Card::from_card_string("").unwrap_err(), ParseError::MissingField);
    assert_eq!(Card::from_card_string("Card").unwrap_err(), ParseError::MissingField);
    assert_eq!(Card::from_card_string("Card 1").unwrap_err(), ParseError::MissingField);
    assert_eq!(Card::from_card_string("1 2: 3 | 4").unwrap_err(), ParseError::MissingField);
    assert_eq!(Card::from_card_string("Card : 3 | 4").unwrap_err(), ParseError::MissingField);
    assert_eq!(Card::build(&vec![Token::Card, Token::Number(1)]).unwrap_err(), ParseError::MissingField);
}

#[test]
fn card_builder_rejects_tokens_out_of_place() {
    assert_eq!(
        Card::from_card_string("Card 1: 3 | 4 | 5").unwrap_err(),
        ParseError::UnexpectedToken { at: 6 }
    );
    assert_eq!(
        Card::from_card_string("Card 1: 3 Card 4").unwrap_err(),
        ParseError::UnexpectedToken { at: 4 }
    );
    assert_eq!(
        Card::from_card_string("Card 1: 3 : 4").unwrap_err(),
        ParseError::UnexpectedToken { at: 4 }
    );
}

#[test]
fn card_without_pipe_has_played_nothing() {
    let card = Card::from_card_string("Card 12: 5 6 5").unwrap();
    assert_eq!(card._card_no, 12);
    assert_eq!(card.wins, set_of(&[5, 6]));
    assert!(card.played.is_empty());
    assert!(card.correct_numbers().is_empty());
}

#[test]
fn same_card_line_gives_the_same_card() {
    let first = Card::from_card_string(TEST_CARD_1).unwrap();
    let second = Card::from_card_string(TEST_CARD_1).unwrap();
    assert_eq!(first._card_no, second._card_no);
    assert_eq!(first.wins, second.wins);
    assert_eq!(first.played, second.played);
    assert_eq!(lexer(TEST_CARD_1).unwrap(), lexer(TEST_CARD_1).unwrap());
}

#[test]
fn card_written_back_reads_as_the_same_card() {
    let card = Card::from_card_string(TEST_CARD_1).unwrap();
    let wins: Vec<String> = card.wins.iter().map(|n| n.to_string()).collect();
    let played: Vec<String> = card.played.iter().map(|n| n.to_string()).collect();
    let text = format!("Card {}: {} | {}", card._card_no, wins.join(" "), played.join(" "));
    let again = Card::from_card_string(&text).unwrap();
    assert_eq!(again._card_no, card._card_no);
    assert_eq!(again.wins, card.wins);
    assert_eq!(again.played, card.played);
    assert_eq!(lexer(&text).unwrap().len(), 17);
}

#[test]
fn error_messages_name_the_kind_and_the_place() {
    assert_eq!(ParseError::SyntaxError { at: 5 }.message(), "syntax error at character 5");
    assert_eq!(
        ParseError::NumberOutOfRange { at: 120 }.message(),
        "number out of range at character 120"
    );
    assert_eq!(ParseError::MissingField.message(), "missing field");
    assert_eq!(ParseError::UnexpectedToken { at: 0 }.message(), "unexpected token 0");
}

#[test]
fn error_descriptions_show_the_offending_text() {
    let line = "Card X1: 4 $ 99999999999999999999999999";
    assert_eq!(
        ParseError::SyntaxError { at: 5 }.describe(line),
        "syntax error at character 5: X1"
    );
    assert_eq!(
        ParseError::SyntaxError { at: 11 }.describe(line),
        "syntax error at character 11: $"
    );
    assert_eq!(
        ParseError::NumberOutOfRange { at: 13 }.describe(line),
        "number out of range at character 13: 99999999999999999999999999"
    );
    assert_eq!(ParseError::SyntaxError { at: 39 }.describe(line), "syntax error at character 39");
    assert_eq!(ParseError::MissingField.describe(line), "missing field");
    assert_eq!(ParseError::UnexpectedToken { at: 2 }.describe(line), "unexpected token 2");
    let error = lexer("Card é").unwrap_err();
    assert_eq!(error.describe("Card é"), "syntax error at character 5: é");
}

#[test]
fn card_module_names_the_machine_states() {
    assert_eq!(ParseState::default(), ParseState::OutsideToken);
    assert_ne!(ParseState::InToken, ParseState::OutsideToken);
}

/// A small generator of numbers that is the same on every run.
fn next(state: &mut u64) -> u64 {
    *state = state
        .wrapping_mul(6364136223846793005)
        .wrapping_add(1442695040888963407);
    *state >> 33
}

#[test]
fn many_cards_written_with_any_spacing_read_back() {
    let mut state = 7;
    for _ in 0..200 {
        let id = next(&mut state) as usize % 1000;
        let wins: Vec<usize> = (0..next(&mut state) % 8).map(|_| next(&mut state) as usize % 100).collect();
        let played: Vec<usize> = (0..next(&mut state) % 12).map(|_| next(&mut state) as usize % 100).collect();
        let blanks = |state: &mut u64, least: u64| " ".repeat((least + next(state) % 3) as usize);
        let mut text = String::new();
        text += &blanks(&mut state, 0);
        text += "Card";
        text += &blanks(&mut state, 1);
        text += &id.to_string();
        text += &blanks(&mut state, 0);
        text += ":";
        for n in &wins {
            text += &blanks(&mut state, 1);
            text += &n.to_string();
        }
        text += &blanks(&mut state, 0);
        text += "|";
        for (k, n) in played.iter().enumerate() {
            text += &blanks(&mut state, if k == 0 { 0 } else { 1 });
            text += &n.to_string();
        }
        text += &blanks(&mut state, 0);
        let tokens = lexer(&text).unwrap();
        assert_eq!(tokens.len(), 4 + wins.len() + played.len(), "{:?}", text);
        let card = Card::from_card_string(&text).unwrap();
        assert_eq!(card._card_no, id);
        assert_eq!(card.wins, wins.iter().copied().collect(), "{:?}", text);
        assert_eq!(card.played, played.iter().copied().collect(), "{:?}", text);
        let matches = wins
            .iter()
            .copied()
            .collect::<HashSet<usize>>()
            .intersection(&played.iter().copied().collect())
            .count();
        let mut correct = card.correct_numbers();
        assert_eq!(correct.len(), matches);
        correct.sort();
        correct.dedup();
        assert_eq!(correct.len(), matches);
        let expected = if matches == 0 { 0 } else { 1usize << (matches - 1) };
        assert_eq!(card.score(), expected);
    }
}
