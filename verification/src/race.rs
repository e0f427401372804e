//! Boat races: a line `Time: 7 15 30` gives the durations of the races and a
//! line `Distance: 9 40 200` the record distances, race by race.

use vstd::prelude::*;
use crate::error::ParseError;
use crate::text::{
    chars_of, decimal_value, digits_of, lemma_two_lines, lines_of, parse_decimal, render_decimal,
    split_lines, views,
};
use crate::tokenizer::{
    in_alphabet, lemma_foreign_character_rejected, lemma_lexemes_valid, lemma_render_alphabet,
    lemma_render_round_trip, lexemes_of, render, tokenize_chars, valid_lexeme, well_formed,
    Grammar, GrammarView, Lexeme,
};

verus! {

/// A token of a race line.
#[derive(Debug, Clone, Copy, PartialEq, Eq, Structural)]
pub enum Token {
    /// The keyword `Time`.
    Time,
    /// The keyword `Distance`.
    Distance,
    /// A number.
    Number(i64),
}

/// The grammar of a race line: the keywords `Time` and `Distance`, the
/// colon, and numbers that fit `i64`.
pub open spec fn race_grammar() -> GrammarView {
    GrammarView {
        keywords: seq!["Time"@, "Distance"@],
        separators: seq![':'],
        max_number: i64::MAX as nat,
        ignore_case: false,
    }
}

/// The race tokens that the lexemes `ls` stand for. The colon stands for
/// no token.
pub open spec fn tokens_of_lexemes(ls: Seq<Lexeme>) -> Seq<Token>
    decreases ls.len(),
{
    if ls.len() == 0 {
        Seq::empty()
    } else {
        let before = tokens_of_lexemes(ls.drop_last());
        match ls.last() {
            Lexeme::Number(n) => before.push(Token::Number(n as i64)),
            Lexeme::Keyword(k) => before.push(
                if k == 0 {
                    Token::Time
                } else {
                    Token::Distance
                },
            ),
            Lexeme::Separator(_) => before,
        }
    }
}

/// The tokens of the race line `s`, in input order, or the first error of
/// the line.
pub open spec fn tokens_of(s: Seq<char>) -> Result<Seq<Token>, ParseError> {
    match lexemes_of(s, race_grammar()) {
        Ok(ls) => Ok(tokens_of_lexemes(ls)),
        Err(e) => Err(e),
    }
}

/// No number among `tokens` is negative.
pub open spec fn natural_tokens(tokens: Seq<Token>) -> bool {
    forall|m: int|
        0 <= m < tokens.len() ==> (#[trigger] tokens[m] matches Token::Number(n) ==> n >= 0)
}

/// No number of `ns` is negative.
pub open spec fn natural(ns: Seq<i64>) -> bool {
    forall|k: int| 0 <= k < ns.len() ==> #[trigger] ns[k] >= 0
}

/// The grammar of a race line.
pub fn grammar() -> (g: Grammar)
    ensures
        g@ == race_grammar(),
{
    let mut keywords: Vec<Vec<char>> = Vec::new();
    keywords.push(chars_of("Time"));
    keywords.push(chars_of("Distance"));
    let mut separators: Vec<char> = Vec::new();
    separators.push(':');
    let g = Grammar { keywords, separators, max_number: i64::MAX as u64, ignore_case: false };
    assert(g@.keywords == race_grammar().keywords);
    assert(g@.separators == race_grammar().separators);
    g
}

/// The tokens of the race line `chars`, in input order.
pub fn lex_line(chars: &Vec<char>) -> (r: Result<Vec<Token>, ParseError>)
    ensures
        match r {
            Ok(v) => tokens_of(chars@) == Ok::<Seq<Token>, ParseError>(v@) && natural_tokens(v@),
            Err(e) => tokens_of(chars@) == Err::<Seq<Token>, ParseError>(e),
        },
{
    let g = grammar();
    let lexemes = tokenize_chars(chars, &g)?;
    proof {
        lemma_lexemes_valid(chars@, race_grammar());
    }
    let mut tokens: Vec<Token> = Vec::new();
    let mut i: usize = 0;
    assert(lexemes@.take(0) == Seq::<Lexeme>::empty());
    while i < lexemes.len()
        invariant
            0 <= i <= lexemes.len(),
            forall|m: int|
                0 <= m < lexemes.len() ==> valid_lexeme(race_grammar(), #[trigger] lexemes@[m]),
            tokens@ == tokens_of_lexemes(lexemes@.take(i as int)),
            natural_tokens(tokens@),
        decreases lexemes.len() - i,
    {
        assert(lexemes@.take(i + 1).drop_last() == lexemes@.take(i as int));
        match lexemes[i] {
            Lexeme::Number(n) => {
                assert(valid_lexeme(race_grammar(), lexemes@[i as int]));
                tokens.push(Token::Number(n as i64));
            },
            Lexeme::Keyword(k) => {
                tokens.push(
                    if k == 0 {
                        Token::Time
                    } else {
                        Token::Distance
                    },
                );
            },
            Lexeme::Separator(_) => {},
        }
        i += 1;
    }
    assert(lexemes@.take(lexemes.len() as int) == lexemes@);
    Ok(tokens)
}

/// The tokens of a race line, in input order.
///
/// Fails with `SyntaxError` at the first character outside the alphabet or
/// at the first word that is neither a number nor a keyword, and with
/// `NumberOutOfRange` at the first number that does not fit `i64`,
/// whichever a pass from left to right meets first.
pub fn lexer(line: &str) -> (r: Result<Vec<Token>, ParseError>)
    ensures
        match r {
            Ok(v) => tokens_of(line@) == Ok::<Seq<Token>, ParseError>(v@) && natural_tokens(v@),
            Err(e) => tokens_of(line@) == Err::<Seq<Token>, ParseError>(e),
        },
{
    let chars = chars_of(line);
    lex_line(&chars)
}

/// One race: how long it lasts and the distance to beat.
#[derive(Debug, Clone, Copy, PartialEq, Eq, Structural)]
pub struct Race {
    pub duration: i64,
    pub distance: i64,
}

impl Race {
    /// The race that lasts `duration` and has the record `distance`.
    pub fn new(duration: i64, distance: i64) -> (race: Race)
        ensures
            race == (Race { duration, distance }),
    {
        Race { duration, distance }
    }
}

/// The first and the last time of holding the button that win a race.
#[derive(Debug, Clone, Copy, PartialEq, Eq, Structural)]
pub struct WinLimits(pub i64, pub i64);

/// The number of times of holding the button that win a race.
#[derive(Debug, Clone, Copy, PartialEq, Eq, Structural)]
pub struct WinCombinations(pub i64);

impl Race {
    /// The number of times from the first to the last of `limits`; `None`
    /// where it does not fit `i64`.
    pub fn calc_win_combinatios(limits: &WinLimits) -> (r: Option<WinCombinations>)
        ensures
            r == if i64::MIN <= limits.1 - limits.0 + 1 <= i64::MAX {
                Some(WinCombinations((limits.1 - limits.0 + 1) as i64))
            } else {
                None
            },
    {
        let count = limits.1 as i128 - limits.0 as i128 + 1;
        if count < i64::MIN as i128 || count > i64::MAX as i128 {
            None
        } else {
            Some(WinCombinations(count as i64))
        }
    }
}

/// The product of the first `k` numbers of `combinations`, and `None` where
/// it, or the product of fewer of them, does not fit `i64`.
pub open spec fn product_upto(combinations: Seq<WinCombinations>, k: int) -> Option<int>
    decreases k,
{
    if k <= 0 {
        Some(1int)
    } else {
        match product_upto(combinations, k - 1) {
            None => None,
            Some(before) => if i64::MIN <= before * combinations[k - 1].0 <= i64::MAX {
                Some(before * combinations[k - 1].0)
            } else {
                None
            },
        }
    }
}

/// The races of a season, in the order of the input.
#[derive(Debug)]
pub struct Season {
    pub races: Vec<Race>,
}

impl View for Season {
    type V = Seq<Race>;

    open spec fn view(&self) -> Seq<Race> {
        self.races@
    }
}

impl Default for Season {
    fn default() -> (season: Season)
        ensures
            season@ == Seq::<Race>::empty(),
    {
        Season { races: Vec::new() }
    }
}

/// The column that takes the numbers of a line.
#[derive(Debug, Clone, Copy, PartialEq, Eq, Structural)]
pub enum Column {
    /// The durations: the column of a line that begins with `Time`.
    Times,
    /// The record distances: the column of a line that begins with
    /// `Distance`.
    Distances,
}

/// The numbers that the lines of a season have given so far: the durations
/// and the record distances.
pub ghost struct Columns {
    pub times: Seq<i64>,
    pub distances: Seq<i64>,
}

/// The numbers of a line of tokens, from token `i` on: every token from
/// there must be a number.
pub open spec fn numbers_from(tokens: Seq<Token>, i: int) -> Result<Seq<i64>, ParseError>
    decreases tokens.len() - i,
{
    if i < 0 || i >= tokens.len() {
        Ok(Seq::empty())
    } else {
        match tokens[i] {
            Token::Number(n) => match numbers_from(tokens, i + 1) {
                Ok(more) => Ok(seq![n] + more),
                Err(e) => Err(e),
            },
            _ => Err(ParseError::UnexpectedToken { at: i as usize }),
        }
    }
}

/// The columns after a line of tokens has been taken. A line without
/// tokens gives nothing. The first token of any other line must be the
/// keyword that selects the column that the numbers after it go to.
pub open spec fn with_line(columns: Columns, tokens: Seq<Token>) -> Result<Columns, ParseError> {
    if tokens.len() == 0 {
        Ok(columns)
    } else {
        match tokens[0] {
            Token::Number(_) => Err(ParseError::MissingField),
            Token::Time => match numbers_from(tokens, 1) {
                Ok(more) => Ok(Columns { times: columns.times + more, ..columns }),
                Err(e) => Err(e),
            },
            Token::Distance => match numbers_from(tokens, 1) {
                Ok(more) => Ok(Columns { distances: columns.distances + more, ..columns }),
                Err(e) => Err(e),
            },
        }
    }
}

/// The columns after the lines from `i` on have been taken, one after the
/// other, or the error of the first line that has one.
pub open spec fn columns_from(lines: Seq<Seq<char>>, i: int, columns: Columns) -> Result<
    Columns,
    ParseError,
>
    decreases lines.len() - i,
{
    if i < 0 || i >= lines.len() {
        Ok(columns)
    } else {
        match tokens_of(lines[i]) {
            Err(e) => Err(e),
            Ok(tokens) => match with_line(columns, tokens) {
                Err(e) => Err(e),
                Ok(next) => columns_from(lines, i + 1, next),
            },
        }
    }
}

/// The columns of a text.
pub open spec fn columns_of(s: Seq<char>) -> Result<Columns, ParseError> {
    columns_from(lines_of(s), 0, Columns { times: Seq::empty(), distances: Seq::empty() })
}

/// The races of a text, where each duration is a race of its own: the
/// `k`-th duration with the `k`-th record distance. A duration without a
/// record distance is a missing field; a record distance without a duration
/// is not used.
pub open spec fn season_of(s: Seq<char>) -> Result<Seq<Race>, ParseError> {
    match columns_of(s) {
        Err(e) => Err(e),
        Ok(columns) => if columns.distances.len() < columns.times.len() {
            Err(ParseError::MissingField)
        } else {
            Ok(
                Seq::new(
                    columns.times.len(),
                    |k: int| Race { duration: columns.times[k], distance: columns.distances[k] },
                ),
            )
        },
    }
}

/// The digits of the numbers `ns`, one number after the other.
pub open spec fn joined_digits(ns: Seq<i64>) -> Seq<char>
    decreases ns.len(),
{
    if ns.len() == 0 {
        Seq::empty()
    } else {
        joined_digits(ns.drop_last()) + digits_of(ns.last() as nat)
    }
}

/// The number that the digits of the numbers `ns` denote when they are read
/// as one number. A column without numbers is a missing field, and a number
/// that does not fit `i64` is out of range; it stands in no one place, and
/// the error names the place zero.
pub open spec fn joined_number(ns: Seq<i64>) -> Result<i64, ParseError> {
    if ns.len() == 0 {
        Err(ParseError::MissingField)
    } else if decimal_value(joined_digits(ns)) > i64::MAX {
        Err(ParseError::NumberOutOfRange { at: 0 })
    } else {
        Ok(decimal_value(joined_digits(ns)) as i64)
    }
}

/// The one race of a text whose numbers are read without the blanks
/// between them: the digits of all durations form the duration, and the
/// digits of all record distances the record distance. The duration is
/// looked at first.
pub open spec fn long_race_of(s: Seq<char>) -> Result<Seq<Race>, ParseError> {
    match columns_of(s) {
        Err(e) => Err(e),
        Ok(columns) => match joined_number(columns.times) {
            Err(e) => Err(e),
            Ok(duration) => match joined_number(columns.distances) {
                Err(e) => Err(e),
                Ok(distance) => Ok(seq![Race { duration, distance }]),
            },
        },
    }
}

/// Takes the numbers of a line of tokens into the column that its first
/// token selects.
pub fn take_line(tokens: &Vec<Token>, times: &mut Vec<i64>, distances: &mut Vec<i64>) -> (r: Result<
    (),
    ParseError,
>)
    ensures
        natural_tokens(tokens@) && natural(old(times)@) && natural(old(distances)@) ==> natural(
            final(times)@,
        ) && natural(final(distances)@),
        match r {
            Ok(_) => with_line(
                Columns { times: old(times)@, distances: old(distances)@ },
                tokens@,
            ) == Ok::<Columns, ParseError>(
                Columns { times: final(times)@, distances: final(distances)@ },
            ),
            Err(e) => with_line(
                Columns { times: old(times)@, distances: old(distances)@ },
                tokens@,
            ) == Err::<Columns, ParseError>(e),
        },
{
    if tokens.len() == 0 {
        return Ok(());
    }
    let column = match tokens[0] {
        Token::Number(_) => {
            return Err(ParseError::MissingField);
        },
        Token::Time => Column::Times,
        Token::Distance => Column::Distances,
    };
    let mut numbers: Vec<i64> = Vec::new();
    let mut i: usize = 1;
    while i < tokens.len()
        invariant
            1 <= i <= tokens.len(),
            numbers_from(tokens@, 1) == match numbers_from(tokens@, i as int) {
                Ok(more) => Ok::<Seq<i64>, ParseError>(numbers@ + more),
                Err(e) => Err(e),
            },
            natural_tokens(tokens@) ==> natural(numbers@),
            !(tokens@[0] is Number),
        decreases tokens.len() - i,
    {
        match tokens[i] {
            Token::Number(n) => {
                proof {
                    if let Ok(more) = numbers_from(tokens@, i + 1) {
                        assert(numbers@ + (seq![n] + more) == numbers@.push(n) + more);
                    }
                }
                numbers.push(n);
            },
            _ => {
                return Err(ParseError::UnexpectedToken { at: i });
            },
        }
        i += 1;
    }
    assert(numbers@ + Seq::<i64>::empty() == numbers@);
    match column {
        Column::Times => {
            times.append(&mut numbers);
        },
        Column::Distances => {
            distances.append(&mut numbers);
        },
    }
    Ok(())
}

/// The columns of a text.
pub fn read_columns(data: &str) -> (r: Result<(Vec<i64>, Vec<i64>), ParseError>)
    ensures
        match r {
            Ok(c) => columns_of(data@) == Ok::<Columns, ParseError>(
                Columns { times: c.0@, distances: c.1@ },
            ) && natural(c.0@) && natural(c.1@),
            Err(e) => columns_of(data@) == Err::<Columns, ParseError>(e),
        },
{
    let chars = chars_of(data);
    let lines = split_lines(&chars);
    let mut times: Vec<i64> = Vec::new();
    let mut distances: Vec<i64> = Vec::new();
    let mut i: usize = 0;
    while i < lines.len()
        invariant
            0 <= i <= lines.len(),
            views(lines@) == lines_of(data@),
            columns_of(data@) == columns_from(
                lines_of(data@),
                i as int,
                Columns { times: times@, distances: distances@ },
            ),
            natural(times@),
            natural(distances@),
        decreases lines.len() - i,
    {
        assert(views(lines@)[i as int] == lines@[i as int]@);
        let tokens = lex_line(&lines[i])?;
        take_line(&tokens, &mut times, &mut distances)?;
        i += 1;
    }
    Ok((times, distances))
}

/// The digits of the numbers `ns`, one number after the other.
pub fn join_digits(ns: &Vec<i64>) -> (digits: Vec<char>)
    requires
        natural(ns@),
    ensures
        digits@ == joined_digits(ns@),
        crate::text::all_digits(digits@),
{
    let mut digits: Vec<char> = Vec::new();
    let mut i: usize = 0;
    assert(ns@.take(0) == Seq::<i64>::empty());
    while i < ns.len()
        invariant
            0 <= i <= ns.len(),
            natural(ns@),
            digits@ == joined_digits(ns@.take(i as int)),
            crate::text::all_digits(digits@),
        decreases ns.len() - i,
    {
        let n = ns[i];
        assert(ns@[i as int] >= 0);
        let mut more = render_decimal(n as u64);
        proof {
            crate::text::lemma_digits_of(n as nat);
            assert(ns@.take(i + 1).drop_last() == ns@.take(i as int));
        }
        digits.append(&mut more);
        i += 1;
    }
    assert(ns@.take(ns.len() as int) == ns@);
    digits
}

/// The number that the digits of the numbers `ns` denote when they are read
/// as one number.
pub fn join_numbers(ns: &Vec<i64>) -> (r: Result<i64, ParseError>)
    requires
        natural(ns@),
    ensures
        r == joined_number(ns@),
{
    if ns.len() == 0 {
        return Err(ParseError::MissingField);
    }
    let digits = join_digits(ns);
    assert(digits@.subrange(0, digits.len() as int) == digits@);
    match parse_decimal(&digits, 0, digits.len(), i64::MAX as u64) {
        Some(n) => Ok(n as i64),
        None => Err(ParseError::NumberOutOfRange { at: 0 }),
    }
}

impl Season {
    /// The number of ways to win all races of a season: the product of the
    /// numbers of ways to win each, taken from the first race on; one for
    /// a season without races, and `None` where a product does not fit
    /// `i64`.
    pub fn winning_combinations(combinations: &Vec<WinCombinations>) -> (r: Option<i64>)
        ensures
            match r {
                Some(product) => product_upto(combinations@, combinations@.len() as int) == Some(
                    product as int,
                ),
                None => product_upto(combinations@, combinations@.len() as int) is None,
            },
    {
        let mut product: i64 = 1;
        let mut k: usize = 0;
        while k < combinations.len()
            invariant
                0 <= k <= combinations.len(),
                product_upto(combinations@, k as int) == Some(product as int),
            decreases combinations.len() - k,
        {
            match product.checked_mul(combinations[k].0) {
                Some(more) => {
                    product = more;
                },
                None => {
                    proof {
                        lemma_product_stays_lost(combinations@, k + 1, combinations@.len() as int);
                    }
                    return None;
                },
            }
            k += 1;
        }
        Some(product)
    }

    /// Adds a race after the races of the season.
    pub fn add(&mut self, race: Race)
        ensures
            final(self)@ == old(self)@.push(race),
    {
        self.races.push(race);
    }

    /// Reads a season in which each duration is a race of its own.
    ///
    /// Fails with the error of the first line that has one: that of its
    /// tokens, `MissingField` where the line begins with a number and
    /// `UnexpectedToken` at a keyword after the first token; the place that
    /// the error names is a place in that line. Fails with `MissingField`
    /// where there are more durations than record distances.
    pub fn from_str(data: &str) -> (r: Result<Season, ParseError>)
        ensures
            match r {
                Ok(season) => season_of(data@) == Ok::<Seq<Race>, ParseError>(season@),
                Err(e) => season_of(data@) == Err::<Seq<Race>, ParseError>(e),
            },
    {
        let (times, distances) = read_columns(data)?;
        if distances.len() < times.len() {
            return Err(ParseError::MissingField);
        }
        let mut season = Season::default();
        let mut i: usize = 0;
        while i < times.len()
            invariant
                0 <= i <= times.len() <= distances.len(),
                season@.len() == i,
                forall|k: int|
                    0 <= k < i ==> #[trigger] season@[k] == (Race {
                        duration: times@[k],
                        distance: distances@[k],
                    }),
            decreases times.len() - i,
        {
            season.add(Race { duration: times[i], distance: distances[i] });
            i += 1;
        }
        assert(season@ == Seq::new(
            times@.len(),
            |k: int| Race { duration: times@[k], distance: distances@[k] },
        ));
        Ok(season)
    }

    /// Reads a season of one long race, whose numbers are written with
    /// blanks between their digits.
    ///
    /// Fails with the error of the first line that has one, as `from_str`
    /// does; with `MissingField` where there is no duration or no record
    /// distance; and with `NumberOutOfRange` where the digits of the
    /// durations, or those of the record distances, do not fit `i64`.
    pub fn from_str2(data: &str) -> (r: Result<Season, ParseError>)
        ensures
            match r {
                Ok(season) => long_race_of(data@) == Ok::<Seq<Race>, ParseError>(season@),
                Err(e) => long_race_of(data@) == Err::<Seq<Race>, ParseError>(e),
            },
    {
        let (times, distances) = read_columns(data)?;
        let duration = join_numbers(&times)?;
        let distance = join_numbers(&distances)?;
        let mut season = Season::default();
        season.add(Race { duration, distance });
        Ok(season)
    }
}

/// The race grammar can be written and read back.
pub proof fn lemma_race_grammar_well_formed()
    ensures
        well_formed(race_grammar()),
{
    reveal_strlit("Time");
    reveal_strlit("Distance");
    let g = race_grammar();
    let time = g.keywords[0];
    let distance = g.keywords[1];
    assert(time.len() == 4 && distance.len() == 8);
    assert(time[0] == 'T' && time[1] == 'i' && time[2] == 'm' && time[3] == 'e');
    assert(distance[0] == 'D' && distance[1] == 'i' && distance[2] == 's' && distance[3] == 't'
        && distance[4] == 'a' && distance[5] == 'n' && distance[6] == 'c' && distance[7] == 'e');
    assert(!crate::text::is_digit(time[0]));
    assert(!crate::text::is_digit(distance[0]));
    assert(crate::tokenizer::same_word(time, time, false));
    assert(crate::tokenizer::same_word(distance, distance, false));
    assert(!crate::tokenizer::same_word(time, distance, false));
    assert(crate::tokenizer::keyword_index(g, distance, 1) == Some(1int));
}

/// The lexemes of a line: the keyword, the colon, and the numbers `ns`.
pub open spec fn line_lexemes(keyword: usize, ns: Seq<i64>) -> Seq<Lexeme> {
    seq![Lexeme::Keyword(keyword), Lexeme::Separator(0)] + Seq::new(
        ns.len(),
        |i: int| Lexeme::Number(ns[i] as u64),
    )
}

/// The gaps of a line of `n` lexemes: none before the keyword and the
/// colon, one blank before each number.
pub open spec fn line_gaps(n: nat) -> Seq<nat> {
    Seq::new(
        n,
        |m: int|
            if m < 2 {
                0nat
            } else {
                1nat
            },
    )
}

/// A line of the numbers `ns` under the keyword with the index `keyword`,
/// as in `Time: 7 15 30`.
pub open spec fn line_text(keyword: usize, ns: Seq<i64>) -> Seq<char> {
    render(race_grammar(), line_lexemes(keyword, ns), line_gaps(line_lexemes(keyword, ns).len()))
}

/// The two lines of a season: the durations of its races, then their
/// record distances.
pub open spec fn season_text(races: Seq<Race>) -> Seq<char> {
    line_text(0, races.map_values(|r: Race| r.duration)) + seq!['\n'] + line_text(
        1,
        races.map_values(|r: Race| r.distance),
    )
}

/// The tokens of a written line are the keyword and the numbers.
pub proof fn lemma_line_tokens(keyword: usize, ns: Seq<i64>)
    requires
        keyword < 2,
        natural(ns),
    ensures
        tokens_of_lexemes(line_lexemes(keyword, ns)) == seq![
            if keyword == 0 {
                Token::Time
            } else {
                Token::Distance
            },
        ] + Seq::new(ns.len(), |i: int| Token::Number(ns[i])),
    decreases ns.len(),
{
    let ls = line_lexemes(keyword, ns);
    let first = if keyword == 0 {
        Token::Time
    } else {
        Token::Distance
    };
    if ns.len() == 0 {
        let one = seq![Lexeme::Keyword(keyword)];
        assert(ls == seq![Lexeme::Keyword(keyword), Lexeme::Separator(0)]);
        assert(ls.drop_last() == one);
        assert(one.drop_last() == Seq::<Lexeme>::empty());
        assert(tokens_of_lexemes(one.drop_last()) == Seq::<Token>::empty());
        assert(tokens_of_lexemes(one) == Seq::<Token>::empty().push(first));
        assert(tokens_of_lexemes(ls) == tokens_of_lexemes(one));
        assert(Seq::<Token>::empty().push(first) == seq![first] + Seq::new(
            ns.len(),
            |i: int| Token::Number(ns[i]),
        ));
    } else {
        let fewer = ns.drop_last();
        lemma_line_tokens(keyword, fewer);
        assert(ls.drop_last() == line_lexemes(keyword, fewer));
        assert(ls.last() == Lexeme::Number(ns.last() as u64));
        assert(ns[ns.len() - 1] >= 0);
        assert((seq![first] + Seq::new(fewer.len(), |i: int| Token::Number(fewer[i]))).push(
            Token::Number(ns.last()),
        ) == seq![first] + Seq::new(ns.len(), |i: int| Token::Number(ns[i])));
    }
}

/// A stretch of numbers to the end of the line gives those numbers.
pub proof fn lemma_numbers_from(tokens: Seq<Token>, i: int, ns: Seq<i64>)
    requires
        0 <= i <= tokens.len(),
        ns.len() == tokens.len() - i,
        forall|m: int| 0 <= m < ns.len() ==> #[trigger] tokens[i + m] == Token::Number(ns[m]),
    ensures
        numbers_from(tokens, i) == Ok::<Seq<i64>, ParseError>(ns),
    decreases tokens.len() - i,
{
    if i < tokens.len() {
        assert(tokens[i + 0] == Token::Number(ns[0]));
        let fewer = ns.drop_first();
        assert forall|m: int| 0 <= m < fewer.len() implies #[trigger] tokens[i + 1 + m]
            == Token::Number(fewer[m]) by {
            assert(tokens[i + (m + 1)] == Token::Number(ns[m + 1]));
        }
        lemma_numbers_from(tokens, i + 1, fewer);
        assert(seq![ns[0]] + fewer == ns);
    } else {
        assert(ns == Seq::<i64>::empty());
    }
}

/// A written line is read back as its keyword and its numbers.
pub proof fn lemma_line_round_trip(keyword: usize, ns: Seq<i64>)
    requires
        keyword < 2,
        natural(ns),
    ensures
        tokens_of(line_text(keyword, ns)) == Ok::<Seq<Token>, ParseError>(
            seq![
                if keyword == 0 {
                    Token::Time
                } else {
                    Token::Distance
                },
            ] + Seq::new(ns.len(), |i: int| Token::Number(ns[i])),
        ),
        forall|i: int|
            0 <= i < line_text(keyword, ns).len() ==> in_alphabet(
                race_grammar(),
                #[trigger] line_text(keyword, ns)[i],
            ),
        line_text(keyword, ns).len() > 0,
{
    let g = race_grammar();
    let ls = line_lexemes(keyword, ns);
    let gaps = line_gaps(ls.len());
    lemma_race_grammar_well_formed();
    assert forall|m: int| 0 <= m < ls.len() implies valid_lexeme(g, #[trigger] ls[m]) by {
        if m >= 2 {
            assert(ls[m] == Lexeme::Number(ns[m - 2] as u64));
            assert(ns[m - 2] >= 0);
        }
    }
    assert(ls[1] == Lexeme::Separator(0));
    lemma_render_round_trip(g, ls, gaps);
    lemma_render_alphabet(g, ls, gaps);
    lemma_line_tokens(keyword, ns);
    let word = crate::tokenizer::text_of(g, ls[0]);
    assert(word.len() > 0);
    assert(render(g, ls, gaps).len() >= word.len());
}

/// Writing a season and reading it back: the two lines of the races
/// `races`, whose numbers are not negative, describe these races.
pub proof fn lemma_season_round_trip(races: Seq<Race>)
    requires
        forall|k: int|
            0 <= k < races.len() ==> (#[trigger] races[k]).duration >= 0 && races[k].distance >= 0,
    ensures
        season_of(season_text(races)) == Ok::<Seq<Race>, ParseError>(races),
{
    let g = race_grammar();
    let times = races.map_values(|r: Race| r.duration);
    let distances = races.map_values(|r: Race| r.distance);
    let a = line_text(0, times);
    let b = line_text(1, distances);
    assert(natural(times)) by {
        assert forall|k: int| 0 <= k < times.len() implies #[trigger] times[k] >= 0 by {
            assert(times[k] == races[k].duration);
        }
    }
    assert(natural(distances)) by {
        assert forall|k: int| 0 <= k < distances.len() implies #[trigger] distances[k] >= 0 by {
            assert(distances[k] == races[k].distance);
        }
    }
    lemma_line_round_trip(0, times);
    lemma_line_round_trip(1, distances);
    assert(crate::tokenizer::separator_index(g, '\n', 1) is None);
    assert(crate::tokenizer::separator_index(g, '\n', 0) is None);
    assert(crate::tokenizer::separator_index(g, '\r', 1) is None);
    assert(crate::tokenizer::separator_index(g, '\r', 0) is None);
    assert forall|k: int| 0 <= k < a.len() implies #[trigger] a[k] != '\n' by {
        assert(in_alphabet(g, a[k]));
    }
    assert forall|k: int| 0 <= k < b.len() implies #[trigger] b[k] != '\n' by {
        assert(in_alphabet(g, b[k]));
    }
    assert(a.last() != '\r') by {
        assert(in_alphabet(g, a[a.len() - 1]));
    }
    lemma_two_lines(a, b);
    let lines = lines_of(season_text(races));
    assert(lines == seq![a, b]);
    let time_tokens = seq![Token::Time] + Seq::new(times.len(), |i: int| Token::Number(times[i]));
    let distance_tokens = seq![Token::Distance] + Seq::new(
        distances.len(),
        |i: int| Token::Number(distances[i]),
    );
    lemma_numbers_from(time_tokens, 1, times);
    lemma_numbers_from(distance_tokens, 1, distances);
    let c0 = Columns { times: Seq::empty(), distances: Seq::empty() };
    let c1 = Columns { times: times, distances: Seq::empty() };
    let c2 = Columns { times: times, distances: distances };
    assert(Seq::<i64>::empty() + times == times);
    assert(Seq::<i64>::empty() + distances == distances);
    assert(with_line(c0, time_tokens) == Ok::<Columns, ParseError>(c1));
    assert(with_line(c1, distance_tokens) == Ok::<Columns, ParseError>(c2));
    assert(columns_from(lines, 2, c2) == Ok::<Columns, ParseError>(c2));
    assert(columns_from(lines, 1, c1) == Ok::<Columns, ParseError>(c2));
    assert(columns_from(lines, 0, c0) == Ok::<Columns, ParseError>(c2));
    assert(Seq::new(times.len(), |k: int| Race { duration: times[k], distance: distances[k] })
        == races);
}

/// A race line with a character outside the alphabet gives no tokens: it
/// is rejected with a syntax error, unless the pass has met a number that is
/// out of range before it came to that character.
pub proof fn lemma_race_rejects_foreign_character(s: Seq<char>, k: int)
    requires
        0 <= k < s.len(),
        !in_alphabet(race_grammar(), s[k]),
        !(tokens_of(s) is Err && tokens_of(s)->Err_0 is NumberOutOfRange),
    ensures
        tokens_of(s) is Err,
        tokens_of(s)->Err_0 is SyntaxError,
{
    lemma_foreign_character_rejected(s, race_grammar(), k);
}

/// No number among the tokens of lexemes of the race grammar is negative.
pub proof fn lemma_tokens_are_natural(ls: Seq<Lexeme>)
    requires
        forall|m: int| 0 <= m < ls.len() ==> valid_lexeme(race_grammar(), #[trigger] ls[m]),
    ensures
        natural_tokens(tokens_of_lexemes(ls)),
    decreases ls.len(),
{
    if ls.len() > 0 {
        let fewer = ls.drop_last();
        assert forall|m: int| 0 <= m < fewer.len() implies valid_lexeme(
            race_grammar(),
            #[trigger] fewer[m],
        ) by {
            assert(fewer[m] == ls[m]);
        }
        lemma_tokens_are_natural(fewer);
        assert(valid_lexeme(race_grammar(), ls[ls.len() - 1]));
    }
}

/// The numbers of a line without negative numbers are not negative.
pub proof fn lemma_numbers_are_natural(tokens: Seq<Token>, i: int)
    requires
        0 <= i,
        natural_tokens(tokens),
        numbers_from(tokens, i) is Ok,
    ensures
        natural(numbers_from(tokens, i)->Ok_0),
    decreases tokens.len() - i,
{
    if i < tokens.len() {
        lemma_numbers_are_natural(tokens, i + 1);
        let n = tokens[i]->Number_0;
        let more = numbers_from(tokens, i + 1)->Ok_0;
        let all = seq![n] + more;
        assert forall|k: int| 0 <= k < all.len() implies #[trigger] all[k] >= 0 by {
            if k > 0 {
                assert(all[k] == more[k - 1]);
            }
        }
    }
}

/// The columns of lines are not negative, if the columns that they started
/// from are not.
pub proof fn lemma_columns_are_natural(lines: Seq<Seq<char>>, i: int, columns: Columns)
    requires
        0 <= i,
        natural(columns.times),
        natural(columns.distances),
        columns_from(lines, i, columns) is Ok,
    ensures
        natural(columns_from(lines, i, columns)->Ok_0.times),
        natural(columns_from(lines, i, columns)->Ok_0.distances),
    decreases lines.len() - i,
{
    if i < lines.len() {
        let ls = lexemes_of(lines[i], race_grammar())->Ok_0;
        let tokens = tokens_of(lines[i])->Ok_0;
        lemma_lexemes_valid(lines[i], race_grammar());
        lemma_tokens_are_natural(ls);
        let next = with_line(columns, tokens)->Ok_0;
        if tokens.len() > 0 {
            lemma_numbers_are_natural(tokens, 1);
            let more = numbers_from(tokens, 1)->Ok_0;
            assert(natural(columns.times + more));
            assert(natural(columns.distances + more));
        }
        lemma_columns_are_natural(lines, i + 1, next);
    }
}

/// Reading a season, writing it and reading it back: a text that describes
/// a season describes the season that the two lines of that season
/// describe. The tokens of the two texts are equivalent: they describe the
/// same races.
pub proof fn lemma_read_season_survives_rendering(s: Seq<char>)
    requires
        season_of(s) is Ok,
    ensures
        season_of(season_text(season_of(s)->Ok_0)) == season_of(s),
{
    let columns = columns_of(s)->Ok_0;
    let races = season_of(s)->Ok_0;
    lemma_columns_are_natural(
        lines_of(s),
        0,
        Columns { times: Seq::empty(), distances: Seq::empty() },
    );
    assert forall|k: int| 0 <= k < races.len() implies (#[trigger] races[k]).duration >= 0
        && races[k].distance >= 0 by {
        assert(columns.times[k] >= 0);
        assert(columns.distances[k] >= 0);
    }
    lemma_season_round_trip(races);
}

/// The season of a text is a function of its characters: the same text
/// describes the same races, or has the same error.
pub proof fn lemma_same_text_same_season(a: Seq<char>, b: Seq<char>)
    requires
        a == b,
    ensures
        season_of(a) == season_of(b),
        long_race_of(a) == long_race_of(b),
{
}

/// A product that does not fit is not regained by further factors.
pub proof fn lemma_product_stays_lost(combinations: Seq<WinCombinations>, i: int, j: int)
    requires
        i <= j,
        product_upto(combinations, i) is None,
    ensures
        product_upto(combinations, j) is None,
    decreases j - i,
{
    if i < j {
        lemma_product_stays_lost(combinations, i, j - 1);
    }
}

} // verus!
