use advoc2023::error::ParseError;
use advoc2023::text::{chars_of, parse_decimal, render_decimal, split_lines};
use advoc2023::tokenizer::{tokenize, Grammar, Lexeme, ParseState};

fn grammar() -> Grammar {
    Grammar {
        keywords: vec![chars_of("Alpha"), chars_of("beta2")],
        separators: vec![':', '|', ';', ','],
        max_number: 1000,
        ignore_case: false,
    }
}

#[test]
fn lexemes_come_in_input_order() {
    assert_eq!(
        tokenize("Alpha 12:beta2|;, 0", &grammar()).unwrap(),
        vec![
            Lexeme::Keyword(0),
            Lexeme::Number(12),
            Lexeme::Separator(0),
            Lexeme::Keyword(1),
            Lexeme::Separator(1),
            Lexeme::Separator(2),
            Lexeme::Separator(3),
            Lexeme::Number(0),
        ]
    );
}

#[test]
fn numbers_up_to_the_bound() {
    assert_eq!(tokenize("1000", &grammar()).unwrap(), vec![Lexeme::Number(1000)]);
    assert_eq!(tokenize("0001000", &grammar()).unwrap(), vec![Lexeme::Number(1000)]);
    assert_eq!(
        tokenize("7 1001", &grammar()).unwrap_err(),
        ParseError::NumberOutOfRange { at: 2 }
    );
}

#[test]
fn words_must_be_keywords() {
    assert_eq!(tokenize("alpha", &grammar()).unwrap_err(), ParseError::SyntaxError { at: 0 });
    assert_eq!(tokenize("1 Alphabet", &grammar()).unwrap_err(), ParseError::SyntaxError { at: 2 });
    assert_eq!(tokenize("12ab", &grammar()).unwrap_err(), ParseError::SyntaxError { at: 0 });
    let relaxed = Grammar { ignore_case: true, ..grammar() };
    assert_eq!(tokenize("aLPHA BETA2", &relaxed).unwrap(), vec![Lexeme::Keyword(0), Lexeme::Keyword(1)]);
}

#[test]
fn foreign_character_stops_the_pass() {
    assert_eq!(tokenize("Alpha#", &grammar()).unwrap_err(), ParseError::SyntaxError { at: 5 });
    assert_eq!(tokenize("# 99999", &grammar()).unwrap_err(), ParseError::SyntaxError { at: 0 });
    assert_eq!(tokenize("99999#", &grammar()).unwrap_err(), ParseError::SyntaxError { at: 5 });
    assert_eq!(
        tokenize("99999 #", &grammar()).unwrap_err(),
        ParseError::NumberOutOfRange { at: 0 }
    );
}

#[test]
fn machine_starts_between_words() {
    assert_eq!(ParseState::default(), ParseState::OutsideToken);
}

#[test]
fn decimal_numbers() {
    assert_eq!(render_decimal(0), vec!['0']);
    assert_eq!(render_decimal(907), vec!['9', '0', '7']);
    assert_eq!(render_decimal(u64::MAX), chars_of("18446744073709551615"));
    let digits = chars_of("x18446744073709551615");
    assert_eq!(parse_decimal(&digits, 1, digits.len(), u64::MAX), Some(u64::MAX));
    assert_eq!(parse_decimal(&digits, 1, digits.len(), u64::MAX - 1), None);
    assert_eq!(parse_decimal(&digits, 1, 4, 200), Some(184));
    assert_eq!(parse_decimal(&digits, 1, 4, 183), None);
    assert_eq!(parse_decimal(&digits, 1, 1, 0), Some(0));
    let more = chars_of("18446744073709551616");
    assert_eq!(parse_decimal(&more, 0, more.len(), u64::MAX), None);
}

#[test]
fn lines_of_a_text() {
    let lines = |s: &str| -> Vec<String> {
        split_lines(&chars_of(s)).iter().map(|l| l.iter().collect()).collect()
    };
    for text in ["", "\n", "a", "a\n", "a\nb", "a\n\nb\n", "foo\nbar\n\r\nbaz\r", "\r\n\r\n", "a\r\r\nb"] {
        let expected: Vec<String> = text.lines().map(|l| l.to_string()).collect();
        assert_eq!(lines(text), expected, "{:?}", text);
    }
}
