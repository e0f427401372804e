//! Cube games: a line such as `Game 2: 3 red, 1 blue; 2 green` names a game
//! and its reveals. A reveal shows some cubes of each colour; a colour that
//! it does not mention was not shown.

use vstd::prelude::*;
use vstd::string::StringExecFns;
use crate::error::{description_of, ParseError};
use crate::tally::{lemma_sum_grows, none_negative, sum_of};
use crate::text::chars_of;
use crate::tokenizer::{
    in_alphabet, is_word, keyword_index, lemma_foreign_character_rejected, lemma_lexemes_valid,
    lemma_render_round_trip, lexemes_of, render, same_word, separator_index, tokenize,
    valid_lexeme, well_formed, Grammar, GrammarView, Lexeme,
};

verus! {

/// The colour of a cube.
#[derive(Debug, Clone, Copy, PartialEq, Eq, Hash, Structural)]
pub enum CubeColor {
    Red,
    Green,
    Blue,
}

/// The colour that the word `word` names, whatever the case of its letters.
pub open spec fn color_of(word: Seq<char>) -> Option<CubeColor> {
    if same_word("red"@, word, true) {
        Some(CubeColor::Red)
    } else if same_word("green"@, word, true) {
        Some(CubeColor::Green)
    } else if same_word("blue"@, word, true) {
        Some(CubeColor::Blue)
    } else {
        None
    }
}

impl CubeColor {
    /// The colour that `s` names, whatever the case of its letters. A word
    /// that names no colour is a syntax error at its first character.
    pub fn from_str(s: &str) -> (r: Result<CubeColor, ParseError>)
        ensures
            r == match color_of(s@) {
                Some(color) => Ok::<CubeColor, ParseError>(color),
                None => Err(ParseError::SyntaxError { at: 0 }),
            },
    {
        let word = chars_of(s);
        assert(word@.subrange(0, word.len() as int) == word@);
        if is_word(&chars_of("red"), &word, 0, word.len(), true) {
            Ok(CubeColor::Red)
        } else if is_word(&chars_of("green"), &word, 0, word.len(), true) {
            Ok(CubeColor::Green)
        } else if is_word(&chars_of("blue"), &word, 0, word.len(), true) {
            Ok(CubeColor::Blue)
        } else {
            Err(ParseError::SyntaxError { at: 0 })
        }
    }

    /// The name of the colour.
    pub fn to_string(&self) -> (s: String)
        ensures
            s@ == match *self {
                CubeColor::Red => "Red"@,
                CubeColor::Green => "Green"@,
                CubeColor::Blue => "Blue"@,
            },
    {
        match self {
            CubeColor::Red => String::from_str("Red"),
            CubeColor::Green => String::from_str("Green"),
            CubeColor::Blue => String::from_str("Blue"),
        }
    }
}

/// The cubes that one reveal shows, by colour.
#[derive(Debug, Clone, Copy, PartialEq, Eq, Structural)]
pub struct Reveal {
    pub red: u16,
    pub green: u16,
    pub blue: u16,
}

/// The number of cubes of the colour `color` that `reveal` shows.
pub open spec fn shown(cubes: Reveal, color: CubeColor) -> u16 {
    match color {
        CubeColor::Red => cubes.red,
        CubeColor::Green => cubes.green,
        CubeColor::Blue => cubes.blue,
    }
}

/// `reveal` with `count` cubes of the colour `color`.
pub open spec fn with_cubes(cubes: Reveal, color: CubeColor, count: u16) -> Reveal {
    match color {
        CubeColor::Red => Reveal { red: count, ..cubes },
        CubeColor::Green => Reveal { green: count, ..cubes },
        CubeColor::Blue => Reveal { blue: count, ..cubes },
    }
}

/// The reveal that shows nothing.
pub open spec fn no_cubes() -> Reveal {
    Reveal { red: 0, green: 0, blue: 0 }
}

/// A token of a game line.
#[derive(Debug, Clone, Copy, PartialEq, Eq, Structural)]
pub enum Token {
    /// The keyword `Game`.
    Game,
    /// The name of a colour.
    Color(CubeColor),
    /// The colon after the game's number.
    Colon,
    /// The semicolon between two reveals.
    Semicolon,
    /// The comma between the cubes of a reveal.
    Comma,
    /// A number.
    Number(u16),
}

/// The grammar of a game line: the keyword `Game` and the names of the
/// colours, in any case; the separators `:`, `;` and `,`; and numbers that
/// fit `u16`.
pub open spec fn game_grammar() -> GrammarView {
    GrammarView {
        keywords: seq!["Game"@, "red"@, "green"@, "blue"@],
        separators: seq![':', ';', ','],
        max_number: u16::MAX as nat,
        ignore_case: true,
    }
}

/// The game token that a lexeme of the game grammar stands for.
pub open spec fn token_of(l: Lexeme) -> Token {
    match l {
        Lexeme::Number(n) => Token::Number(n as u16),
        Lexeme::Keyword(k) => if k == 0 {
            Token::Game
        } else if k == 1 {
            Token::Color(CubeColor::Red)
        } else if k == 2 {
            Token::Color(CubeColor::Green)
        } else {
            Token::Color(CubeColor::Blue)
        },
        Lexeme::Separator(k) => if k == 0 {
            Token::Colon
        } else if k == 1 {
            Token::Semicolon
        } else {
            Token::Comma
        },
    }
}

/// The tokens of the game line `s`, in input order, or the first error of
/// the line.
pub open spec fn tokens_of(s: Seq<char>) -> Result<Seq<Token>, ParseError> {
    match lexemes_of(s, game_grammar()) {
        Ok(ls) => Ok(ls.map_values(|l: Lexeme| token_of(l))),
        Err(e) => Err(e),
    }
}

/// The grammar of a game line.
pub fn grammar() -> (g: Grammar)
    ensures
        g@ == game_grammar(),
{
    let mut keywords: Vec<Vec<char>> = Vec::new();
    keywords.push(chars_of("Game"));
    keywords.push(chars_of("red"));
    keywords.push(chars_of("green"));
    keywords.push(chars_of("blue"));
    let mut separators: Vec<char> = Vec::new();
    separators.push(':');
    separators.push(';');
    separators.push(',');
    let g = Grammar { keywords, separators, max_number: u16::MAX as u64, ignore_case: true };
    assert(g@.keywords == game_grammar().keywords);
    assert(g@.separators == game_grammar().separators);
    g
}

/// The tokens of a game line, in input order.
///
/// Fails with `SyntaxError` at the first character outside the alphabet or
/// at the first word that is neither a number, `Game` nor a colour, and with
/// `NumberOutOfRange` at the first number that does not fit `u16`,
/// whichever a pass from left to right meets first.
pub fn lexer(line: &str) -> (r: Result<Vec<Token>, ParseError>)
    ensures
        match r {
            Ok(v) => tokens_of(line@) == Ok::<Seq<Token>, ParseError>(v@),
            Err(e) => tokens_of(line@) == Err::<Seq<Token>, ParseError>(e),
        },
{
    let g = grammar();
    let lexemes = tokenize(line, &g)?;
    proof {
        lemma_lexemes_valid(line@, game_grammar());
    }
    let mut tokens: Vec<Token> = Vec::new();
    let mut i: usize = 0;
    while i < lexemes.len()
        invariant
            0 <= i <= lexemes.len(),
            forall|m: int|
                0 <= m < lexemes.len() ==> valid_lexeme(game_grammar(), #[trigger] lexemes@[m]),
            tokens@ == lexemes@.take(i as int).map_values(|l: Lexeme| token_of(l)),
        decreases lexemes.len() - i,
    {
        let token = match lexemes[i] {
            Lexeme::Number(n) => {
                assert(valid_lexeme(game_grammar(), lexemes@[i as int]));
                Token::Number(n as u16)
            },
            Lexeme::Keyword(k) => if k == 0 {
                Token::Game
            } else if k == 1 {
                Token::Color(CubeColor::Red)
            } else if k == 2 {
                Token::Color(CubeColor::Green)
            } else {
                Token::Color(CubeColor::Blue)
            },
            Lexeme::Separator(k) => if k == 0 {
                Token::Colon
            } else if k == 1 {
                Token::Semicolon
            } else {
                Token::Comma
            },
        };
        tokens.push(token);
        assert(lexemes@.take(i + 1).map_values(|l: Lexeme| token_of(l)) == lexemes@.take(
            i as int,
        ).map_values(|l: Lexeme| token_of(l)).push(token));
        i += 1;
    }
    assert(lexemes@.take(lexemes.len() as int) == lexemes@);
    Ok(tokens)
}

/// What the builder waits for.
#[derive(Debug, Clone, Copy, PartialEq, Eq, Structural)]
pub enum Awaiting {
    /// The number of cubes of the next colour.
    Count,
    /// The colour of the cubes whose number was read.
    Color(u16),
    /// A comma, a semicolon or the end of the line.
    Separator,
}

/// The reveals after the tokens from `i` on have been taken, where `done`
/// holds the reveals that are finished and `current` what the reveal in
/// progress shows so far. Each reveal starts from no cubes; a colour that
/// is named again gets the later number. A comma goes on with the reveal, a
/// semicolon and the end of the line finish it. A token that is not
/// awaited is not allowed, and the line may only end after a colour.
pub open spec fn reveals_from(
    tokens: Seq<Token>,
    i: int,
    awaiting: Awaiting,
    current: Reveal,
    done: Seq<Reveal>,
) -> Result<Seq<Reveal>, ParseError>
    decreases tokens.len() - i,
{
    if i < 0 || i >= tokens.len() {
        if awaiting == Awaiting::Separator {
            Ok(done.push(current))
        } else {
            Err(ParseError::MissingField)
        }
    } else {
        match (awaiting, tokens[i]) {
            (Awaiting::Count, Token::Number(n)) => reveals_from(
                tokens,
                i + 1,
                Awaiting::Color(n),
                current,
                done,
            ),
            (Awaiting::Color(n), Token::Color(color)) => reveals_from(
                tokens,
                i + 1,
                Awaiting::Separator,
                with_cubes(current, color, n),
                done,
            ),
            (Awaiting::Separator, Token::Comma) => reveals_from(
                tokens,
                i + 1,
                Awaiting::Count,
                current,
                done,
            ),
            (Awaiting::Separator, Token::Semicolon) => reveals_from(
                tokens,
                i + 1,
                Awaiting::Count,
                no_cubes(),
                done.push(current),
            ),
            _ => Err(ParseError::UnexpectedToken { at: i as usize }),
        }
    }
}

/// A game as plain mathematical values.
pub ghost struct GameView {
    pub id: u16,
    pub reveals: Seq<Reveal>,
}

/// The game that a sequence of tokens describes. The first three tokens
/// must be `Game`, the game's number and the colon: without them the game's
/// identifier is missing.
pub open spec fn game_of_tokens(tokens: Seq<Token>) -> Result<GameView, ParseError> {
    if tokens.len() < 3 || tokens[0] != Token::Game || !(tokens[1] is Number) || tokens[2]
        != Token::Colon {
        Err(ParseError::MissingField)
    } else {
        match reveals_from(tokens, 3, Awaiting::Count, no_cubes(), Seq::empty()) {
            Ok(reveals) => Ok(GameView { id: tokens[1]->Number_0, reveals }),
            Err(e) => Err(e),
        }
    }
}

/// The game that the line `s` describes.
pub open spec fn game_of_text(s: Seq<char>) -> Result<GameView, ParseError> {
    match tokens_of(s) {
        Ok(tokens) => game_of_tokens(tokens),
        Err(e) => Err(e),
    }
}

/// Why a game line could not be read.
#[derive(Debug)]
pub struct GameError {
    /// The kind of the error, and the place that it names.
    pub kind: ParseError,
    /// What the error says to a reader.
    pub message: String,
}

impl GameError {
    /// The error of the kind `kind` that the line `line` has, with what it
    /// says about that line.
    pub fn new(kind: ParseError, line: &str) -> (e: GameError)
        ensures
            e.kind == kind,
            e.message@ == description_of(kind, line@),
    {
        GameError { kind, message: kind.describe(line) }
    }

    /// The error as a line of a report.
    pub fn to_string(&self) -> (s: String)
        ensures
            s@ == "ERROR(Game Error): "@ + self.message@ + "\n"@,
    {
        let mut s = String::from_str("ERROR(Game Error): ");
        s.append(self.message.as_str());
        s.append("\n");
        s
    }
}

/// A game: its number and its reveals, in the order of the line.
#[derive(Debug)]
pub struct Game {
    pub id: u16,
    pub reveals: Vec<Reveal>,
}

impl View for Game {
    type V = GameView;

    open spec fn view(&self) -> GameView {
        GameView { id: self.id, reveals: self.reveals@ }
    }
}

/// The game can be played with `red` red, `green` green and `blue` blue
/// cubes: no reveal shows more of a colour.
pub open spec fn can_play(game: GameView, red: u16, green: u16, blue: u16) -> bool {
    forall|k: int|
        0 <= k < game.reveals.len() ==> (#[trigger] game.reveals[k]).red <= red
            && game.reveals[k].green <= green && game.reveals[k].blue <= blue
}

/// The largest number of cubes of the colour `color` that one of `reveals`
/// shows; zero without reveals.
pub open spec fn most_shown(reveals: Seq<Reveal>, color: CubeColor) -> u16
    decreases reveals.len(),
{
    if reveals.len() == 0 {
        0
    } else {
        let before = most_shown(reveals.drop_last(), color);
        if shown(reveals.last(), color) > before {
            shown(reveals.last(), color)
        } else {
            before
        }
    }
}

/// The power of a game: the product of the least numbers of red, green and
/// blue cubes with which it can be played.
pub open spec fn power_of(game: GameView) -> int {
    most_shown(game.reveals, CubeColor::Red) * most_shown(game.reveals, CubeColor::Green)
        * most_shown(game.reveals, CubeColor::Blue)
}

/// What each game adds to the sum of the numbers of the games that can be
/// played with the given cubes: its number, or nothing.
pub open spec fn valid_ids(games: Seq<Game>, red: u16, green: u16, blue: u16) -> Seq<int> {
    Seq::new(
        games.len(),
        |k: int|
            if can_play(games[k]@, red, green, blue) {
                games[k].id as int
            } else {
                0
            },
    )
}

/// The powers of the games.
pub open spec fn powers(games: Seq<Game>) -> Seq<int> {
    Seq::new(games.len(), |k: int| power_of(games[k]@))
}

/// The sum of the numbers of the games that can be played with `red` red,
/// `green` green and `blue` blue cubes; `None` where the sum does not fit
/// `u16`.
pub fn sum_of_valid_ids(games: &Vec<Game>, red: u16, green: u16, blue: u16) -> (sum: Option<u16>)
    ensures
        sum == if sum_of(valid_ids(games@, red, green, blue), games@.len() as int) <= u16::MAX {
            Some(sum_of(valid_ids(games@, red, green, blue), games@.len() as int) as u16)
        } else {
            None
        },
{
    let ghost terms = valid_ids(games@, red, green, blue);
    let mut sum: u16 = 0;
    let mut k: usize = 0;
    while k < games.len()
        invariant
            0 <= k <= games.len(),
            terms == valid_ids(games@, red, green, blue),
            sum == sum_of(terms, k as int),
        decreases games.len() - k,
    {
        if games[k].is_valid(red, green, blue) {
            match sum.checked_add(games[k].id) {
                Some(more) => {
                    sum = more;
                },
                None => {
                    proof {
                        lemma_sum_grows(terms, k + 1, games@.len() as int);
                    }
                    return None;
                },
            }
        }
        k += 1;
    }
    Some(sum)
}

/// The sum of the powers of the games; `None` where the sum does not fit
/// `u64`.
pub fn sum_of_powers(games: &Vec<Game>) -> (sum: Option<u64>)
    ensures
        sum == if sum_of(powers(games@), games@.len() as int) <= u64::MAX {
            Some(sum_of(powers(games@), games@.len() as int) as u64)
        } else {
            None
        },
{
    let ghost terms = powers(games@);
    let mut sum: u64 = 0;
    let mut k: usize = 0;
    assert(none_negative(terms)) by {
        assert forall|m: int| 0 <= m < terms.len() implies #[trigger] terms[m] >= 0 by {
            let shown = games@[m]@.reveals;
            assert(most_shown(shown, CubeColor::Red) * most_shown(shown, CubeColor::Green)
                * most_shown(shown, CubeColor::Blue) >= 0) by (nonlinear_arith)
                requires
                    most_shown(shown, CubeColor::Red) >= 0,
                    most_shown(shown, CubeColor::Green) >= 0,
                    most_shown(shown, CubeColor::Blue) >= 0,
            ;
        }
    }
    while k < games.len()
        invariant
            0 <= k <= games.len(),
            terms == powers(games@),
            none_negative(terms),
            sum == sum_of(terms, k as int),
        decreases games.len() - k,
    {
        match sum.checked_add(games[k].power()) {
            Some(more) => {
                sum = more;
            },
            None => {
                proof {
                    lemma_sum_grows(terms, k + 1, games@.len() as int);
                }
                return None;
            },
        }
        k += 1;
    }
    Some(sum)
}

impl Game {
    /// Builds the game that a sequence of tokens describes.
    ///
    /// Fails with `MissingField` unless the tokens begin with `Game`, a
    /// number and the colon, and where the line ends before a reveal is
    /// complete; and with `UnexpectedToken` at the first token that is not
    /// awaited.
    pub fn build(tokens: &Vec<Token>) -> (r: Result<Game, ParseError>)
        ensures
            match r {
                Ok(game) => game_of_tokens(tokens@) == Ok::<GameView, ParseError>(game@),
                Err(e) => game_of_tokens(tokens@) == Err::<GameView, ParseError>(e),
            },
    {
        if tokens.len() < 3 {
            return Err(ParseError::MissingField);
        }
        let id = match tokens[1] {
            Token::Number(n) => n,
            _ => {
                return Err(ParseError::MissingField);
            },
        };
        if tokens[0] != Token::Game || tokens[2] != Token::Colon {
            return Err(ParseError::MissingField);
        }
        let mut reveals: Vec<Reveal> = Vec::new();
        let mut current = Reveal { red: 0, green: 0, blue: 0 };
        let mut awaiting = Awaiting::Count;
        let mut i: usize = 3;
        while i < tokens.len()
            invariant
                3 <= i <= tokens.len(),
                tokens@[0] == Token::Game,
                tokens@[1] == Token::Number(id),
                tokens@[2] == Token::Colon,
                reveals_from(tokens@, 3, Awaiting::Count, no_cubes(), Seq::empty()) == reveals_from(
                    tokens@,
                    i as int,
                    awaiting,
                    current,
                    reveals@,
                ),
            decreases tokens.len() - i,
        {
            match (awaiting, tokens[i]) {
                (Awaiting::Count, Token::Number(n)) => {
                    awaiting = Awaiting::Color(n);
                },
                (Awaiting::Color(n), Token::Color(color)) => {
                    match color {
                        CubeColor::Red => {
                            current.red = n;
                        },
                        CubeColor::Green => {
                            current.green = n;
                        },
                        CubeColor::Blue => {
                            current.blue = n;
                        },
                    }
                    awaiting = Awaiting::Separator;
                },
                (Awaiting::Separator, Token::Comma) => {
                    awaiting = Awaiting::Count;
                },
                (Awaiting::Separator, Token::Semicolon) => {
                    reveals.push(current);
                    current = Reveal { red: 0, green: 0, blue: 0 };
                    awaiting = Awaiting::Count;
                },
                _ => {
                    return Err(ParseError::UnexpectedToken { at: i });
                },
            }
            i += 1;
        }
        if awaiting != Awaiting::Separator {
            return Err(ParseError::MissingField);
        }
        reveals.push(current);
        Ok(Game { id, reveals })
    }

    /// Reads a game from its line: the tokens of the line, then the game
    /// that they describe. No game is built from a line with an error.
    pub fn parse_game(line: &str) -> (r: Result<Game, GameError>)
        ensures
            match r {
                Ok(game) => game_of_text(line@) == Ok::<GameView, ParseError>(game@),
                Err(e) => game_of_text(line@) == Err::<GameView, ParseError>(e.kind) && e.message@
                    == description_of(e.kind, line@),
            },
    {
        let tokens = match lexer(line) {
            Ok(tokens) => tokens,
            Err(e) => {
                return Err(GameError::new(e, line));
            },
        };
        match Game::build(&tokens) {
            Ok(game) => Ok(game),
            Err(e) => Err(GameError::new(e, line)),
        }
    }

    /// Tells whether the game can be played with `red` red, `green` green
    /// and `blue` blue cubes: no reveal shows more of a colour.
    pub fn is_valid(self: &Self, red: u16, green: u16, blue: u16) -> (valid: bool)
        ensures
            valid == can_play(self@, red, green, blue),
    {
        let mut k: usize = 0;
        while k < self.reveals.len()
            invariant
                0 <= k <= self.reveals.len(),
                forall|m: int|
                    0 <= m < k ==> (#[trigger] self.reveals@[m]).red <= red && self.reveals@[m].green
                        <= green && self.reveals@[m].blue <= blue,
            decreases self.reveals.len() - k,
        {
            let cubes = self.reveals[k];
            if cubes.red > red || cubes.green > green || cubes.blue > blue {
                assert(self@.reveals[k as int] == cubes);
                return false;
            }
            k += 1;
        }
        true
    }

    /// The largest number of cubes of the colour `cube_color` that a reveal
    /// of the game shows; zero for a game without reveals.
    pub fn get_max_cube_per_color(self: &Self, cube_color: CubeColor) -> (max: u16)
        ensures
            max == most_shown(self.reveals@, cube_color),
            forall|k: int|
                0 <= k < self.reveals@.len() ==> shown(#[trigger] self.reveals@[k], cube_color) <= max,
            max == 0 || exists|k: int|
                0 <= k < self.reveals@.len() && shown(#[trigger] self.reveals@[k], cube_color) == max,
    {
        let mut max: u16 = 0;
        let mut k: usize = 0;
        assert(self.reveals@.take(0) == Seq::<Reveal>::empty());
        while k < self.reveals.len()
            invariant
                0 <= k <= self.reveals.len(),
                max == most_shown(self.reveals@.take(k as int), cube_color),
                forall|m: int| 0 <= m < k ==> shown(#[trigger] self.reveals@[m], cube_color) <= max,
                max == 0 || exists|m: int|
                    0 <= m < k && shown(#[trigger] self.reveals@[m], cube_color) == max,
            decreases self.reveals.len() - k,
        {
            assert(self.reveals@.take(k + 1).drop_last() == self.reveals@.take(k as int));
            let cubes = self.reveals[k];
            let here = match cube_color {
                CubeColor::Red => cubes.red,
                CubeColor::Green => cubes.green,
                CubeColor::Blue => cubes.blue,
            };
            if here > max {
                max = here;
                assert(shown(self.reveals@[k as int], cube_color) == max);
            }
            k += 1;
        }
        assert(self.reveals@.take(self.reveals@.len() as int) == self.reveals@);
        max
    }

    /// The power of the game: the product of the least numbers of red, green
    /// and blue cubes with which it can be played.
    pub fn power(&self) -> (p: u64)
        ensures
            p == power_of(self@),
    {
        let red = self.get_max_cube_per_color(CubeColor::Red) as u64;
        let green = self.get_max_cube_per_color(CubeColor::Green) as u64;
        let blue = self.get_max_cube_per_color(CubeColor::Blue) as u64;
        assert(red * green <= 0xffff * 0xffff) by (nonlinear_arith)
            requires
                red <= 0xffff,
                green <= 0xffff,
        ;
        assert(red * green * blue <= 0xffff * 0xffff * 0xffff) by (nonlinear_arith)
            requires
                red * green <= 0xffff * 0xffff,
                blue <= 0xffff,
        ;
        red * green * blue
    }
}

/// The game grammar can be written and read back.
pub proof fn lemma_game_grammar_well_formed()
    ensures
        well_formed(game_grammar()),
{
    reveal_strlit("Game");
    reveal_strlit("red");
    reveal_strlit("green");
    reveal_strlit("blue");
    let g = game_grammar();
    let game = g.keywords[0];
    let red = g.keywords[1];
    let green = g.keywords[2];
    let blue = g.keywords[3];
    assert(game.len() == 4 && red.len() == 3 && green.len() == 5 && blue.len() == 4);
    assert(game[0] == 'G' && game[1] == 'a' && game[2] == 'm' && game[3] == 'e');
    assert(red[0] == 'r' && red[1] == 'e' && red[2] == 'd');
    assert(green[0] == 'g' && green[1] == 'r' && green[2] == 'e' && green[3] == 'e' && green[4]
        == 'n');
    assert(blue[0] == 'b' && blue[1] == 'l' && blue[2] == 'u' && blue[3] == 'e');
    assert(!crate::text::is_digit(game[0]));
    assert(!crate::text::is_digit(red[0]));
    assert(!crate::text::is_digit(green[0]));
    assert(!crate::text::is_digit(blue[0]));
    assert(same_word(game, game, true));
    assert(same_word(red, red, true));
    assert(same_word(green, green, true));
    assert(same_word(blue, blue, true));
    assert(!same_word(game, blue, true)) by {
        assert(crate::tokenizer::lower(game[0]) != crate::tokenizer::lower(blue[0]));
    }
    assert(keyword_index(g, blue, 3) == Some(3int));
    assert(keyword_index(g, blue, 2) == Some(3int));
    assert(keyword_index(g, blue, 1) == Some(3int));
    assert(keyword_index(g, green, 2) == Some(2int));
    assert(keyword_index(g, green, 1) == Some(2int));
    assert(keyword_index(g, red, 1) == Some(1int));
    assert(separator_index(g, ',', 2) == Some(2int));
    assert(separator_index(g, ',', 1) == Some(2int));
    assert(separator_index(g, ';', 1) == Some(1int));
}

/// The lexeme at the index `m` of the line of the game with the number `id`
/// and the reveals `reveals`: `Game`, the number and the colon; then, for
/// each reveal, its red, green and blue cubes with commas between them; and
/// a semicolon between two reveals.
pub open spec fn game_lexeme(id: u16, reveals: Seq<Reveal>, m: int) -> Lexeme {
    if m == 0 {
        Lexeme::Keyword(0)
    } else if m == 1 {
        Lexeme::Number(id as u64)
    } else if m == 2 {
        Lexeme::Separator(0)
    } else {
        let shown = reveals[(m - 3) / 9];
        let place = (m - 3) % 9;
        if place == 0 {
            Lexeme::Number(shown.red as u64)
        } else if place == 1 {
            Lexeme::Keyword(1)
        } else if place == 3 {
            Lexeme::Number(shown.green as u64)
        } else if place == 4 {
            Lexeme::Keyword(2)
        } else if place == 6 {
            Lexeme::Number(shown.blue as u64)
        } else if place == 7 {
            Lexeme::Keyword(3)
        } else if place == 8 {
            Lexeme::Separator(1)
        } else {
            Lexeme::Separator(2)
        }
    }
}

/// The lexemes of the line of a game with at least one reveal.
pub open spec fn game_lexemes(id: u16, reveals: Seq<Reveal>) -> Seq<Lexeme> {
    Seq::new((9 * reveals.len() + 2) as nat, |m: int| game_lexeme(id, reveals, m))
}

/// The gaps of the line of a game: none before `Game` and before a
/// separator, one blank before every other lexeme.
pub open spec fn game_gaps(id: u16, reveals: Seq<Reveal>) -> Seq<nat> {
    Seq::new(
        (9 * reveals.len() + 2) as nat,
        |m: int|
            if m == 0 || game_lexeme(id, reveals, m) is Separator {
                0nat
            } else {
                1nat
            },
    )
}

/// The line of a game, as in `Game 2: 3 red, 2 green, 1 blue; 0 red, 9
/// green, 1 blue`.
pub open spec fn game_text(id: u16, reveals: Seq<Reveal>) -> Seq<char> {
    render(game_grammar(), game_lexemes(id, reveals), game_gaps(id, reveals))
}

/// The tokens of a written game describe its reveals from the reveal `k`
/// on.
pub proof fn lemma_reveals_round_trip(id: u16, reveals: Seq<Reveal>, k: int)
    requires
        0 <= k < reveals.len(),
    ensures
        reveals_from(
            game_lexemes(id, reveals).map_values(|l: Lexeme| token_of(l)),
            3 + 9 * k,
            Awaiting::Count,
            no_cubes(),
            reveals.take(k),
        ) == Ok::<Seq<Reveal>, ParseError>(reveals),
    decreases reveals.len() - k,
{
    let ls = game_lexemes(id, reveals);
    let tokens = ls.map_values(|l: Lexeme| token_of(l));
    let p = 3 + 9 * k;
    let shown = reveals[k];
    let done = reveals.take(k);
    assert forall|o: int| 0 <= o < 8 implies #[trigger] tokens[p + o] == token_of(
        game_lexeme(id, reveals, p + o),
    ) && (p + o - 3) / 9 == k && (p + o - 3) % 9 == o by {
        assert(tokens[p + o] == token_of(ls[p + o]));
    }
    assert(tokens[p + 0] == Token::Number(shown.red));
    assert(tokens[p + 1] == Token::Color(CubeColor::Red));
    assert(tokens[p + 2] == Token::Comma);
    assert(tokens[p + 3] == Token::Number(shown.green));
    assert(tokens[p + 4] == Token::Color(CubeColor::Green));
    assert(tokens[p + 5] == Token::Comma);
    assert(tokens[p + 6] == Token::Number(shown.blue));
    assert(tokens[p + 7] == Token::Color(CubeColor::Blue));
    let c1 = with_cubes(no_cubes(), CubeColor::Red, shown.red);
    let c2 = with_cubes(c1, CubeColor::Green, shown.green);
    let c3 = with_cubes(c2, CubeColor::Blue, shown.blue);
    assert(c3 == shown);
    assert(reveals_from(tokens, p, Awaiting::Count, no_cubes(), done) == reveals_from(
        tokens,
        p + 1,
        Awaiting::Color(shown.red),
        no_cubes(),
        done,
    ));
    assert(reveals_from(tokens, p + 1, Awaiting::Color(shown.red), no_cubes(), done)
        == reveals_from(tokens, p + 2, Awaiting::Separator, c1, done));
    assert(reveals_from(tokens, p + 2, Awaiting::Separator, c1, done) == reveals_from(
        tokens,
        p + 3,
        Awaiting::Count,
        c1,
        done,
    ));
    assert(reveals_from(tokens, p + 3, Awaiting::Count, c1, done) == reveals_from(
        tokens,
        p + 4,
        Awaiting::Color(shown.green),
        c1,
        done,
    ));
    assert(reveals_from(tokens, p + 4, Awaiting::Color(shown.green), c1, done) == reveals_from(
        tokens,
        p + 5,
        Awaiting::Separator,
        c2,
        done,
    ));
    assert(reveals_from(tokens, p + 5, Awaiting::Separator, c2, done) == reveals_from(
        tokens,
        p + 6,
        Awaiting::Count,
        c2,
        done,
    ));
    assert(reveals_from(tokens, p + 6, Awaiting::Count, c2, done) == reveals_from(
        tokens,
        p + 7,
        Awaiting::Color(shown.blue),
        c2,
        done,
    ));
    assert(reveals_from(tokens, p + 7, Awaiting::Color(shown.blue), c2, done) == reveals_from(
        tokens,
        p + 8,
        Awaiting::Separator,
        c3,
        done,
    ));
    assert(done.push(shown) == reveals.take(k + 1));
    if k + 1 < reveals.len() {
        assert(tokens[p + 8] == token_of(ls[p + 8]));
        assert((p + 8 - 3) / 9 == k && (p + 8 - 3) % 9 == 8);
        assert(tokens[p + 8] == Token::Semicolon);
        lemma_reveals_round_trip(id, reveals, k + 1);
    } else {
        assert(p + 8 == tokens.len());
        assert(reveals.take(k + 1) == reveals);
    }
}

/// Writing a game and reading it back: the line of the game with the number
/// `id` and the reveals `reveals`, of which there is at least one,
/// describes that game.
pub proof fn lemma_game_round_trip(id: u16, reveals: Seq<Reveal>)
    requires
        reveals.len() > 0,
    ensures
        game_of_text(game_text(id, reveals)) == Ok::<GameView, ParseError>(GameView { id, reveals }),
{
    let g = game_grammar();
    let ls = game_lexemes(id, reveals);
    let gaps = game_gaps(id, reveals);
    lemma_game_grammar_well_formed();
    assert forall|m: int| 0 <= m < ls.len() implies valid_lexeme(g, #[trigger] ls[m]) by {
        if m >= 3 {
            assert(0 <= (m - 3) / 9 < reveals.len());
        }
    }
    assert(crate::tokenizer::spaced(ls, gaps)) by {
        assert forall|m: int|
            1 <= m < ls.len() && crate::tokenizer::is_word_lexeme(ls[m - 1])
                && crate::tokenizer::is_word_lexeme(#[trigger] ls[m]) implies gaps[m] >= 1 by {
            assert(!(game_lexeme(id, reveals, m) is Separator));
        }
    }
    lemma_render_round_trip(g, ls, gaps);
    let tokens = ls.map_values(|l: Lexeme| token_of(l));
    assert(tokens_of(game_text(id, reveals)) == Ok::<Seq<Token>, ParseError>(tokens));
    assert(tokens[0] == Token::Game);
    assert(tokens[1] == Token::Number(id));
    assert(tokens[2] == Token::Colon);
    assert(reveals.take(0) == Seq::<Reveal>::empty());
    lemma_reveals_round_trip(id, reveals, 0);
}

/// A game line with a character outside the alphabet gives no tokens and
/// no game: it is rejected with a syntax error, unless the pass has met a
/// number that is out of range before it came to that character.
pub proof fn lemma_game_rejects_foreign_character(s: Seq<char>, k: int)
    requires
        0 <= k < s.len(),
        !in_alphabet(game_grammar(), s[k]),
        !(tokens_of(s) is Err && tokens_of(s)->Err_0 is NumberOutOfRange),
    ensures
        tokens_of(s) is Err,
        tokens_of(s)->Err_0 is SyntaxError,
        game_of_text(s) == Err::<GameView, ParseError>(tokens_of(s)->Err_0),
{
    lemma_foreign_character_rejected(s, game_grammar(), k);
}

/// The reveals that tokens describe are the finished reveals and at least
/// one more.
pub proof fn lemma_reveals_are_not_empty(
    tokens: Seq<Token>,
    i: int,
    awaiting: Awaiting,
    current: Reveal,
    done: Seq<Reveal>,
)
    requires
        reveals_from(tokens, i, awaiting, current, done) is Ok,
    ensures
        reveals_from(tokens, i, awaiting, current, done)->Ok_0.len() > done.len(),
    decreases tokens.len() - i,
{
    if 0 <= i < tokens.len() {
        match (awaiting, tokens[i]) {
            (Awaiting::Count, Token::Number(n)) => {
                lemma_reveals_are_not_empty(tokens, i + 1, Awaiting::Color(n), current, done);
            },
            (Awaiting::Color(n), Token::Color(color)) => {
                lemma_reveals_are_not_empty(
                    tokens,
                    i + 1,
                    Awaiting::Separator,
                    with_cubes(current, color, n),
                    done,
                );
            },
            (Awaiting::Separator, Token::Comma) => {
                lemma_reveals_are_not_empty(tokens, i + 1, Awaiting::Count, current, done);
            },
            (Awaiting::Separator, Token::Semicolon) => {
                lemma_reveals_are_not_empty(
                    tokens,
                    i + 1,
                    Awaiting::Count,
                    no_cubes(),
                    done.push(current),
                );
            },
            _ => {},
        }
    }
}

/// Reading a game, writing it and reading it back: a line that describes a
/// game describes the game that the line of that game describes. The
/// tokens of the two lines are equivalent: they describe the same game.
pub proof fn lemma_read_game_survives_rendering(s: Seq<char>)
    requires
        game_of_text(s) is Ok,
    ensures
        game_of_text(game_text(game_of_text(s)->Ok_0.id, game_of_text(s)->Ok_0.reveals))
            == game_of_text(s),
{
    let tokens = tokens_of(s)->Ok_0;
    lemma_reveals_are_not_empty(tokens, 3, Awaiting::Count, no_cubes(), Seq::empty());
    lemma_game_round_trip(game_of_text(s)->Ok_0.id, game_of_text(s)->Ok_0.reveals);
}

/// The game of a line is a function of its characters: the same line has
/// the same tokens and describes the same game, or has the same error.
pub proof fn lemma_same_line_same_game(a: Seq<char>, b: Seq<char>)
    requires
        a == b,
    ensures
        tokens_of(a) == tokens_of(b),
        game_of_text(a) == game_of_text(b),
{
}

} // verus!
