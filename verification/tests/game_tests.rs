use advoc2023::error::ParseError;
use advoc2023::game::{
    lexer, sum_of_powers, sum_of_valid_ids, CubeColor, Game, GameError, Reveal, Token,
};

const GAME_2: &str = "Game 2: 3 red, 1 blue, 2 green; 1 blue, 9 green; 1 red, 10 green";

#[test]
fn game_line_gives_the_largest_number_of_each_colour() {
    let game = Game::parse_game(GAME_2).unwrap();
    assert_eq!(game.id, 2);
    assert_eq!(game.get_max_cube_per_color(CubeColor::Red), 3);
    assert_eq!(game.get_max_cube_per_color(CubeColor::Green), 10);
    assert_eq!(game.get_max_cube_per_color(CubeColor::Blue), 1);
}

#[test]
fn colour_that_a_reveal_omits_is_zero_in_that_reveal() {
    let game = Game::parse_game(GAME_2).unwrap();
    assert_eq!(
        game.reveals,
        vec![
            Reveal { red: 3, green: 2, blue: 1 },
            Reveal { red: 0, green: 9, blue: 1 },
            Reveal { red: 1, green: 10, blue: 0 },
        ]
    );
}

#[test]
fn game_is_valid_within_the_limits() {
    let game = Game::parse_game(GAME_2).unwrap();
    assert!(game.is_valid(12, 13, 14));
    assert!(game.is_valid(3, 10, 1));
    assert!(!game.is_valid(2, 10, 1));
    assert!(!game.is_valid(3, 9, 1));
    assert!(!game.is_valid(3, 10, 0));
    let much = Game::parse_game("Game 3: 8 green, 6 blue, 20 red; 5 blue, 4 red, 13 green; 5 green, 1 red").unwrap();
    assert!(!much.is_valid(12, 13, 14));
}

#[test]
fn game_tokens() {
    assert_eq!(
        lexer("Game 11: 3 RED, 1 Blue;2 green").unwrap(),
        vec![
            Token::Game,
            Token::Number(11),
            Token::Colon,
            Token::Number(3),
            Token::Color(CubeColor::Red),
            Token::Comma,
            Token::Number(1),
            Token::Color(CubeColor::Blue),
            Token::Semicolon,
            Token::Number(2),
            Token::Color(CubeColor::Green),
        ]
    );
    assert_eq!(lexer("game 1").unwrap(), vec![Token::Game, Token::Number(1)]);
}

#[test]
fn later_count_of_a_colour_replaces_the_earlier_one() {
    let game = Game::parse_game("Game 1: 3 red, 1 red").unwrap();
    assert_eq!(game.reveals, vec![Reveal { red: 1, green: 0, blue: 0 }]);
    assert_eq!(game.get_max_cube_per_color(CubeColor::Red), 1);
}

#[test]
fn game_lexer_errors() {
    assert_eq!(
        Game::parse_game("Game 1: 3 pink").unwrap_err().kind,
        ParseError::SyntaxError { at: 10 }
    );
    assert_eq!(
        Game::parse_game("Game 1: 3 red. 2 blue").unwrap_err().kind,
        ParseError::SyntaxError { at: 13 }
    );
    assert_eq!(
        Game::parse_game("Game 65536: 3 red").unwrap_err().kind,
        ParseError::NumberOutOfRange { at: 5 }
    );
    assert_eq!(
        Game::parse_game("Game 65535: 65536 red").unwrap_err().kind,
        ParseError::NumberOutOfRange { at: 12 }
    );
    assert_eq!(Game::parse_game("Game 65535: 65535 red").unwrap().id, 65535);
}

#[test]
fn game_builder_errors() {
    assert_eq!(Game::parse_game("").unwrap_err().kind, ParseError::MissingField);
    assert_eq!(Game::parse_game("Game 1").unwrap_err().kind, ParseError::MissingField);
    assert_eq!(Game::parse_game("Game 1:").unwrap_err().kind, ParseError::MissingField);
    assert_eq!(Game::parse_game("Game x: 1 red").unwrap_err().kind, ParseError::SyntaxError { at: 5 });
    assert_eq!(Game::parse_game("Game red: 1 red").unwrap_err().kind, ParseError::MissingField);
    assert_eq!(Game::parse_game("1: 1 red").unwrap_err().kind, ParseError::MissingField);
    assert_eq!(Game::parse_game("Game 1: 3").unwrap_err().kind, ParseError::MissingField);
    assert_eq!(Game::parse_game("Game 1: 3 red,").unwrap_err().kind, ParseError::MissingField);
    assert_eq!(Game::parse_game("Game 1: 3 red;").unwrap_err().kind, ParseError::MissingField);
    assert_eq!(
        Game::parse_game("Game 1: 3 red,, 1 blue").unwrap_err().kind,
        ParseError::UnexpectedToken { at: 6 }
    );
    assert_eq!(
        Game::parse_game("Game 1: 3 red 1 blue").unwrap_err().kind,
        ParseError::UnexpectedToken { at: 5 }
    );
    assert_eq!(
        Game::parse_game("Game 1: red 3").unwrap_err().kind,
        ParseError::UnexpectedToken { at: 3 }
    );
    assert_eq!(
        Game::parse_game("Game 1: 3 3 red").unwrap_err().kind,
        ParseError::UnexpectedToken { at: 4 }
    );
    assert_eq!(
        Game::parse_game("Game 1: 3 red; Game 2").unwrap_err().kind,
        ParseError::UnexpectedToken { at: 6 }
    );
}

#[test]
fn game_error_carries_its_message() {
    let error: GameError = Game::parse_game("Game 1: 3 pink").unwrap_err();
    assert_eq!(error.message, "syntax error at character 10: pink");
    assert_eq!(error.to_string(), "ERROR(Game Error): syntax error at character 10: pink\n");
    let other = GameError::new(ParseError::MissingField, "Game 1");
    assert_eq!(other.kind, ParseError::MissingField);
    assert_eq!(other.to_string(), "ERROR(Game Error): missing field\n");
    let third = Game::parse_game("Game 1: 70000 red").unwrap_err();
    assert_eq!(third.message, "number out of range at character 8: 70000");
    let fourth = Game::parse_game("Game 1: 7 red? 8").unwrap_err();
    assert_eq!(fourth.message, "syntax error at character 13: ?");
    let fifth = Game::parse_game("Game 1: 7 red,,").unwrap_err();
    assert_eq!(fifth.message, "unexpected token 6");
}

#[test]
fn colours_by_name() {
    assert_eq!(CubeColor::from_str("red"), Ok(CubeColor::Red));
    assert_eq!(CubeColor::from_str("Green"), Ok(CubeColor::Green));
    assert_eq!(CubeColor::from_str("BLUE"), Ok(CubeColor::Blue));
    assert_eq!(CubeColor::from_str("blu"), Err(ParseError::SyntaxError { at: 0 }));
    assert_eq!(CubeColor::from_str(""), Err(ParseError::SyntaxError { at: 0 }));
    assert_eq!(CubeColor::Red.to_string(), "Red");
    assert_eq!(CubeColor::Green.to_string(), "Green");
    assert_eq!(CubeColor::Blue.to_string(), "Blue");
}

#[test]
fn game_without_reveals_has_no_largest_number() {
    let game = Game { id: 1, reveals: vec![] };
    assert_eq!(game.get_max_cube_per_color(CubeColor::Green), 0);
    assert!(game.is_valid(0, 0, 0));
}

#[test]
fn game_written_back_reads_as_the_same_game() {
    let game = Game::parse_game(GAME_2).unwrap();
    let reveals: Vec<String> = game
        .reveals
        .iter()
        .map(|r| format!("{} red, {} green, {} blue", r.red, r.green, r.blue))
        .collect();
    let text = format!("Game {}: {}", game.id, reveals.join("; "));
    assert_eq!(
        text,
        "Game 2: 3 red, 2 green, 1 blue; 0 red, 9 green, 1 blue; 1 red, 10 green, 0 blue"
    );
    let again = Game::parse_game(&text).unwrap();
    assert_eq!(again.id, game.id);
    assert_eq!(again.reveals, game.reveals);
}

/// A small generator of numbers that is the same on every run.
fn next(state: &mut u64) -> u64 {
    *state = state
        .wrapping_mul(6364136223846793005)
        .wrapping_add(1442695040888963407);
    *state >> 33
}

#[test]
fn many_games_give_the_reveals_that_were_written() {
    let names = [["red", "Red", "RED"], ["green", "Green", "gReEn"], ["blue", "Blue", "BLUE"]];
    let mut state = 3;
    for _ in 0..200 {
        let id = next(&mut state) as u16;
        let count = 1 + next(&mut state) % 5;
        let mut reveals: Vec<Reveal> = Vec::new();
        let mut parts: Vec<String> = Vec::new();
        for _ in 0..count {
            let mut shown = [0u16; 3];
            let mut cubes: Vec<String> = Vec::new();
            for _ in 0..(1 + next(&mut state) % 4) {
                let color = (next(&mut state) % 3) as usize;
                let n = (next(&mut state) % 30) as u16;
                shown[color] = n;
                cubes.push(format!("{} {}", n, names[color][(next(&mut state) % 3) as usize]));
            }
            reveals.push(Reveal { red: shown[0], green: shown[1], blue: shown[2] });
            parts.push(cubes.join(", "));
        }
        let text = format!("Game {}: {}", id, parts.join("; "));
        let game = Game::parse_game(&text).unwrap();
        assert_eq!(game.id, id, "{:?}", text);
        assert_eq!(game.reveals, reveals, "{:?}", text);
        let most = |f: fn(&Reveal) -> u16| reveals.iter().map(f).max().unwrap();
        let (red, green, blue) = (most(|r| r.red), most(|r| r.green), most(|r| r.blue));
        assert_eq!(game.get_max_cube_per_color(CubeColor::Red), red);
        assert_eq!(game.get_max_cube_per_color(CubeColor::Green), green);
        assert_eq!(game.get_max_cube_per_color(CubeColor::Blue), blue);
        assert!(game.is_valid(red, green, blue));
        assert_eq!(game.is_valid(12, 13, 14), red <= 12 && green <= 13 && blue <= 14);
        if red > 0 {
            assert!(!game.is_valid(red - 1, green, blue));
        }
    }
}

#[test]
fn sums_over_the_five_games_of_the_example() {
    let lines = [
        "Game 1: 3 blue, 4 red; 1 red, 2 green, 6 blue; 2 green",
        "Game 2: 1 blue, 2 green; 3 green, 4 blue, 1 red; 1 green, 1 blue",
        "Game 3: 8 green, 6 blue, 20 red; 5 blue, 4 red, 13 green; 5 green, 1 red",
        "Game 4: 1 green, 3 red, 6 blue; 3 green, 6 red; 3 green, 15 blue, 14 red",
        "Game 5: 6 red, 1 blue, 3 green; 2 blue, 1 red, 2 green",
    ];
    let games: Vec<Game> = lines.iter().map(|l| Game::parse_game(l).unwrap()).collect();
    assert_eq!(sum_of_valid_ids(&games, 12, 13, 14), Some(8));
    assert_eq!(sum_of_valid_ids(&games, 0, 0, 0), Some(0));
    assert_eq!(sum_of_valid_ids(&games, 20, 20, 20), Some(15));
    let powers: Vec<u64> = games.iter().map(|g| g.power()).collect();
    assert_eq!(powers, vec![48, 12, 1560, 630, 36]);
    assert_eq!(sum_of_powers(&games), Some(2286));
    assert_eq!(sum_of_valid_ids(&vec![], 1, 1, 1), Some(0));
    assert_eq!(sum_of_powers(&vec![]), Some(0));
}

#[test]
fn sums_that_do_not_fit() {
    let games: Vec<Game> = (0..3)
        .map(|_| Game::parse_game("Game 30000: 1 red").unwrap())
        .collect();
    assert_eq!(sum_of_valid_ids(&games[..2].iter().map(|g| Game { id: g.id, reveals: g.reveals.clone() }).collect(), 1, 0, 0), Some(60000));
    assert_eq!(sum_of_valid_ids(&games, 1, 0, 0), None);
    assert_eq!(sum_of_valid_ids(&games, 0, 0, 0), Some(0));
    let big = Game::parse_game("Game 1: 65535 red, 65535 green, 65535 blue").unwrap();
    assert_eq!(big.power(), 65535u64 * 65535 * 65535);
    let many: Vec<Game> = (0..70000)
        .map(|_| Game { id: 1, reveals: big.reveals.clone() })
        .collect();
    assert_eq!(sum_of_powers(&many), None);
    assert_eq!(sum_of_powers(&many[..60000].iter().map(|g| Game { id: g.id, reveals: g.reveals.clone() }).collect()), Some(60000 * 65535u64 * 65535 * 65535));
}
