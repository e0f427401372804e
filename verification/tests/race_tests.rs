use advoc2023::error::ParseError;
use advoc2023::race::{lexer, Race, Season, Token, WinCombinations, WinLimits};

const EXAMPLE: &str = "Time:      7  15   30
Distance:  9  40  200
";

#[test]
fn test_season() {
    let test_data = EXAMPLE.to_string();
    let season = Season::from_str(&test_data).unwrap();
    println!("{:?}", season);
    assert_eq!(season.races.len(), 3);
    assert_eq!(season.races[1], Race::new(15, 40));
}

#[test]
fn test_season2() {
    let test_data = EXAMPLE.to_string();
    let season = Season::from_str2(&test_data).unwrap();
    println!("{:?}", season);
    assert_eq!(season.races.len(), 1);
    assert_eq!(season.races[0], Race::new(71530, 940200));
}

#[test]
fn test_lexer() {
    let test_data = EXAMPLE.to_string();
    for (i, line) in test_data.lines().enumerate() {
        let line = line.to_string() + " ";
        if i == 0 {
            assert_eq!(
                lexer(&line).unwrap(),
                vec![
                    Token::Time,
                    Token::Number(7),
                    Token::Number(15),
                    Token::Number(30)
                ]
            );
        }
        if i == 1 {
            assert_eq!(
                lexer(&line).unwrap(),
                vec![
                    Token::Distance,
                    Token::Number(9),
                    Token::Number(40),
                    Token::Number(200)
                ]
            );
        }
    }
}

#[test]
fn two_race_lines_give_three_races() {
    let season = Season::from_str("Time: 7 15 30\nDistance: 9 40 200").unwrap();
    assert_eq!(
        season.races,
        vec![Race::new(7, 9), Race::new(15, 40), Race::new(30, 200)]
    );
}

#[test]
fn race_lexer_closes_the_last_number_at_the_end_of_the_line() {
    assert_eq!(lexer("Time: 7").unwrap(), vec![Token::Time, Token::Number(7)]);
    assert_eq!(lexer("Distance:9").unwrap(), vec![Token::Distance, Token::Number(9)]);
    assert_eq!(lexer("").unwrap(), vec![]);
    assert_eq!(
        lexer(&format!("Time: {}", i64::MAX)).unwrap(),
        vec![Token::Time, Token::Number(i64::MAX)]
    );
}

#[test]
fn race_lexer_errors() {
    assert_eq!(lexer("Time: 7 x").unwrap_err(), ParseError::SyntaxError { at: 8 });
    assert_eq!(lexer("time: 7").unwrap_err(), ParseError::SyntaxError { at: 0 });
    assert_eq!(lexer("Time: 7 | 8").unwrap_err(), ParseError::SyntaxError { at: 8 });
    assert_eq!(lexer("Time: -7").unwrap_err(), ParseError::SyntaxError { at: 6 });
    assert_eq!(lexer("Time: 7.5").unwrap_err(), ParseError::SyntaxError { at: 7 });
    assert_eq!(
        lexer("Time: 9223372036854775808").unwrap_err(),
        ParseError::NumberOutOfRange { at: 6 }
    );
}

#[test]
fn season_errors() {
    assert_eq!(
        Season::from_str("Time: 7 15\nDistance: 9").unwrap_err(),
        ParseError::MissingField
    );
    assert_eq!(Season::from_str("7 15\nDistance: 9").unwrap_err(), ParseError::MissingField);
    assert_eq!(
        Season::from_str("Time: 7 Time 15\nDistance: 9").unwrap_err(),
        ParseError::UnexpectedToken { at: 2 }
    );
    assert_eq!(
        Season::from_str("Time: 7\nDistance: 9 ?").unwrap_err(),
        ParseError::SyntaxError { at: 12 }
    );
    assert_eq!(
        Season::from_str("Time: 7 ?\nDistance: 99999999999999999999").unwrap_err(),
        ParseError::SyntaxError { at: 8 }
    );
}

#[test]
fn season_takes_lines_in_any_order_and_passes_over_blank_ones() {
    let season = Season::from_str("Distance: 9\n\nTime: 7\nTime: 15\n   \nDistance: 40 200\r\n").unwrap();
    assert_eq!(season.races, vec![Race::new(7, 9), Race::new(15, 40)]);
    assert_eq!(Season::from_str("").unwrap().races, vec![]);
}

#[test]
fn long_race_joins_the_digits() {
    let season = Season::from_str2("Time: 7 15 30\nDistance: 9 40 200").unwrap();
    assert_eq!(season.races, vec![Race::new(71530, 940200)]);
    let zeros = Season::from_str2("Time: 007 0\nDistance: 0 1").unwrap();
    assert_eq!(zeros.races, vec![Race::new(70, 1)]);
}

#[test]
fn long_race_errors() {
    assert_eq!(Season::from_str2("").unwrap_err(), ParseError::MissingField);
    assert_eq!(Season::from_str2("Time: 7").unwrap_err(), ParseError::MissingField);
    assert_eq!(Season::from_str2("Distance: 7").unwrap_err(), ParseError::MissingField);
    assert_eq!(
        Season::from_str2("Time: 9223372036854775807 0\nDistance: 1").unwrap_err(),
        ParseError::NumberOutOfRange { at: 0 }
    );
    assert_eq!(
        Season::from_str2("Time: 1\nDistance: 922337203 6854775808").unwrap_err(),
        ParseError::NumberOutOfRange { at: 0 }
    );
    assert_eq!(
        Season::from_str2("Time: 1\nDistance: 922337203 6854775807").unwrap().races,
        vec![Race::new(1, i64::MAX)]
    );
}

#[test]
fn season_add_puts_the_race_last() {
    let mut season = Season::default();
    season.add(Race::new(1, 2));
    season.add(Race::new(3, 4));
    assert_eq!(season.races, vec![Race::new(1, 2), Race::new(3, 4)]);
}

#[test]
fn season_written_back_reads_as_the_same_season() {
    let season = Season::from_str(EXAMPLE).unwrap();
    let times: Vec<String> = season.races.iter().map(|r| r.duration.to_string()).collect();
    let distances: Vec<String> = season.races.iter().map(|r| r.distance.to_string()).collect();
    let text = format!("Time: {}\nDistance: {}", times.join(" "), distances.join(" "));
    assert_eq!(text, "Time: 7 15 30\nDistance: 9 40 200");
    assert_eq!(Season::from_str(&text).unwrap().races, season.races);
    assert_eq!(lexer("Time: 7 15 30").unwrap(), lexer("Time:      7  15   30 ").unwrap());
}

/// A small generator of numbers that is the same on every run.
fn next(state: &mut u64) -> u64 {
    *state = state
        .wrapping_mul(6364136223846793005)
        .wrapping_add(1442695040888963407);
    *state >> 33
}

#[test]
fn many_seasons_written_with_any_spacing_read_back() {
    let mut state = 11;
    for _ in 0..200 {
        let count = next(&mut state) % 6;
        let races: Vec<Race> = (0..count)
            .map(|_| Race::new(next(&mut state) as i64 % 1000, (next(&mut state) as i64) << 20))
            .collect();
        let blanks = |state: &mut u64, least: u64| " ".repeat((least + next(state) % 3) as usize);
        let mut text = String::from("Time:");
        for race in &races {
            text += &blanks(&mut state, 1);
            text += &race.duration.to_string();
        }
        text += &blanks(&mut state, 0);
        text += if next(&mut state) % 2 == 0 { "\n" } else { "\r\n" };
        text += "Distance:";
        for race in &races {
            text += &blanks(&mut state, 1);
            text += &race.distance.to_string();
        }
        if next(&mut state) % 2 == 0 {
            text += "\n";
        }
        assert_eq!(Season::from_str(&text).unwrap().races, races, "{:?}", text);
        let words: Vec<&str> = text.lines().next().unwrap().split_whitespace().collect();
        let tokens = lexer(text.lines().next().unwrap()).unwrap();
        assert_eq!(tokens.len(), words.len());
        assert_eq!(tokens[0], Token::Time);
        for (token, word) in tokens.iter().zip(words.iter()).skip(1) {
            assert_eq!(*token, Token::Number(word.parse().unwrap()));
        }
    }
}

#[test]
fn combinations_between_limits() {
    assert_eq!(Race::calc_win_combinatios(&WinLimits(2, 5)), Some(WinCombinations(4)));
    assert_eq!(Race::calc_win_combinatios(&WinLimits(4, 11)), Some(WinCombinations(8)));
    assert_eq!(Race::calc_win_combinatios(&WinLimits(11, 19)), Some(WinCombinations(9)));
    assert_eq!(Race::calc_win_combinatios(&WinLimits(14, 71516)), Some(WinCombinations(71503)));
    assert_eq!(Race::calc_win_combinatios(&WinLimits(0, 0)), Some(WinCombinations(1)));
    assert_eq!(Race::calc_win_combinatios(&WinLimits(2, 0)), Some(WinCombinations(-1)));
    assert_eq!(Race::calc_win_combinatios(&WinLimits(1, i64::MAX)), Some(WinCombinations(i64::MAX)));
    assert_eq!(Race::calc_win_combinatios(&WinLimits(0, i64::MAX)), None);
    assert_eq!(Race::calc_win_combinatios(&WinLimits(i64::MAX, i64::MIN)), None);
    assert_eq!(
        Race::calc_win_combinatios(&WinLimits(i64::MAX, 0)),
        Some(WinCombinations(i64::MIN + 2))
    );
}

#[test]
fn product_of_combinations() {
    let all = vec![WinCombinations(4), WinCombinations(8), WinCombinations(9)];
    assert_eq!(Season::winning_combinations(&all), Some(288));
    assert_eq!(Season::winning_combinations(&vec![]), Some(1));
    assert_eq!(Season::winning_combinations(&vec![WinCombinations(-3)]), Some(-3));
    let lost = vec![WinCombinations(i64::MAX), WinCombinations(2), WinCombinations(0)];
    assert_eq!(Season::winning_combinations(&lost), None);
    let kept = vec![WinCombinations(0), WinCombinations(i64::MAX), WinCombinations(2)];
    assert_eq!(Season::winning_combinations(&kept), Some(0));
    let edge = vec![WinCombinations(i64::MIN), WinCombinations(1)];
    assert_eq!(Season::winning_combinations(&edge), Some(i64::MIN));
    let over = vec![WinCombinations(i64::MIN), WinCombinations(-1)];
    assert_eq!(Season::winning_combinations(&over), None);
}
