//! Scratch cards: a line such as `Card 1: 41 48 83 | 83 86 6` names a card,
//! its winning numbers and, after the pipe, the numbers played.

use std::collections::HashSet;
use vstd::prelude::*;
use vstd::arithmetic::power2::{lemma2_to64, lemma_pow2_strictly_increases, lemma_pow2_unfold, pow2};
use vstd::std_specs::hash::group_hash_axioms;
use vstd::std_specs::iter::IteratorSpec;
pub use crate::error::ParseError;
use crate::tally::{lemma_sum_grows, none_negative, sum_of};
use crate::text::chars_of;
pub use crate::tokenizer::ParseState;
use crate::tokenizer::{
    in_alphabet, lemma_foreign_character_rejected, lemma_lexemes_valid, lemma_render_round_trip,
    lexemes_of, render, tokenize, valid_lexeme, well_formed, Grammar, GrammarView, Lexeme,
};

verus! {

broadcast use group_hash_axioms;

/// A token of a card line.
#[derive(Debug, Clone, Copy, PartialEq, Eq, Structural)]
pub enum Token {
    /// The keyword `Card`.
    Card,
    /// The colon after the card's number.
    Colon,
    /// The pipe between the winning numbers and the numbers played.
    Pipe,
    /// A number.
    Number(usize),
}

/// The grammar of a card line: the keyword `Card`, the separators `:` and
/// `|`, and numbers that fit `usize`.
pub open spec fn card_grammar() -> GrammarView {
    GrammarView {
        keywords: seq!["Card"@],
        separators: seq![':', '|'],
        max_number: usize::MAX as nat,
        ignore_case: false,
    }
}

/// The card token that a lexeme of the card grammar stands for.
pub open spec fn token_of(l: Lexeme) -> Token {
    match l {
        Lexeme::Number(n) => Token::Number(n as usize),
        Lexeme::Keyword(_) => Token::Card,
        Lexeme::Separator(k) => if k == 0 {
            Token::Colon
        } else {
            Token::Pipe
        },
    }
}

/// The tokens of the card line `s`, in input order, or the first error of
/// the line.
pub open spec fn tokens_of(s: Seq<char>) -> Result<Seq<Token>, ParseError> {
    match lexemes_of(s, card_grammar()) {
        Ok(ls) => Ok(ls.map_values(|l: Lexeme| token_of(l))),
        Err(e) => Err(e),
    }
}

/// The grammar of a card line.
pub fn grammar() -> (g: Grammar)
    ensures
        g@ == card_grammar(),
{
    let mut keywords: Vec<Vec<char>> = Vec::new();
    keywords.push(chars_of("Card"));
    let mut separators: Vec<char> = Vec::new();
    separators.push(':');
    separators.push('|');
    let g = Grammar { keywords, separators, max_number: usize::MAX as u64, ignore_case: false };
    assert(g@.keywords == card_grammar().keywords);
    assert(g@.separators == card_grammar().separators);
    g
}

/// The tokens of a card line, in input order.
///
/// Fails with `SyntaxError` at the first character outside the alphabet or
/// at the first word that is neither a number nor `Card`, and with
/// `NumberOutOfRange` at the first number that does not fit `usize`,
/// whichever a pass from left to right meets first.
pub fn lexer(card: &str) -> (r: Result<Vec<Token>, ParseError>)
    ensures
        match r {
            Ok(v) => tokens_of(card@) == Ok::<Seq<Token>, ParseError>(v@),
            Err(e) => tokens_of(card@) == Err::<Seq<Token>, ParseError>(e),
        },
{
    let g = grammar();
    let lexemes = tokenize(card, &g)?;
    proof {
        lemma_lexemes_valid(card@, card_grammar());
    }
    let mut tokens: Vec<Token> = Vec::new();
    let mut i: usize = 0;
    while i < lexemes.len()
        invariant
            0 <= i <= lexemes.len(),
            forall|m: int|
                0 <= m < lexemes.len() ==> valid_lexeme(card_grammar(), #[trigger] lexemes@[m]),
            tokens@ == lexemes@.take(i as int).map_values(|l: Lexeme| token_of(l)),
        decreases lexemes.len() - i,
    {
        let token = match lexemes[i] {
            Lexeme::Number(n) => {
                assert(valid_lexeme(card_grammar(), lexemes@[i as int]));
                Token::Number(n as usize)
            },
            Lexeme::Keyword(_) => Token::Card,
            Lexeme::Separator(k) => if k == 0 {
                Token::Colon
            } else {
                Token::Pipe
            },
        };
        tokens.push(token);
        assert(lexemes@.take(i + 1).map_values(|l: Lexeme| token_of(l)) == lexemes@.take(
            i as int,
        ).map_values(|l: Lexeme| token_of(l)).push(token));
        i += 1;
    }
    assert(lexemes@.take(lexemes.len() as int) == lexemes@);
    Ok(tokens)
}

/// A scratch card.
#[derive(Debug)]
pub struct Card {
    /// The number that names the card.
    pub _card_no: usize,
    /// The winning numbers.
    pub wins: HashSet<usize>,
    /// The numbers played.
    pub played: HashSet<usize>,
}

/// A card as plain mathematical values.
pub ghost struct CardView {
    pub card_no: usize,
    pub wins: Set<usize>,
    pub played: Set<usize>,
}

impl View for Card {
    type V = CardView;

    open spec fn view(&self) -> CardView {
        CardView { card_no: self._card_no, wins: self.wins@, played: self.played@ }
    }
}

impl Default for Card {
    fn default() -> (card: Card)
        ensures
            card@ == (CardView { card_no: 0, wins: Set::empty(), played: Set::empty() }),
    {
        Card { _card_no: 0, wins: HashSet::new(), played: HashSet::new() }
    }
}

/// The bucket of a card that takes the numbers of the line.
#[derive(Debug, Clone, Copy, PartialEq, Eq, Structural)]
pub enum Bucket {
    /// The winning numbers: the bucket before the pipe.
    Winning,
    /// The numbers played: the bucket after the pipe.
    Played,
}

/// `card` with the number `n` in the bucket `bucket`.
pub open spec fn with_number(card: CardView, bucket: Bucket, n: usize) -> CardView {
    match bucket {
        Bucket::Winning => CardView { wins: card.wins.insert(n), ..card },
        Bucket::Played => CardView { played: card.played.insert(n), ..card },
    }
}

/// The card after the tokens from `i` on have been taken, where `card` holds
/// what the tokens before `i` gave and `bucket` is the bucket that is
/// active. A number goes to the active bucket; the pipe makes the numbers
/// played the active bucket; any other token, and a second pipe, is not
/// allowed.
pub open spec fn fill_from(tokens: Seq<Token>, i: int, bucket: Bucket, card: CardView) -> Result<
    CardView,
    ParseError,
>
    decreases tokens.len() - i,
{
    if i < 0 || i >= tokens.len() {
        Ok(card)
    } else {
        match tokens[i] {
            Token::Number(n) => fill_from(tokens, i + 1, bucket, with_number(card, bucket, n)),
            Token::Pipe => if bucket == Bucket::Played {
                Err(ParseError::UnexpectedToken { at: i as usize })
            } else {
                fill_from(tokens, i + 1, Bucket::Played, card)
            },
            _ => Err(ParseError::UnexpectedToken { at: i as usize }),
        }
    }
}

/// The card that a sequence of tokens describes. The first three tokens
/// must be `Card`, the card's number and the colon: without them the card's
/// identifier is missing.
pub open spec fn card_of_tokens(tokens: Seq<Token>) -> Result<CardView, ParseError> {
    if tokens.len() < 3 || tokens[0] != Token::Card || !(tokens[1] is Number) || tokens[2]
        != Token::Colon {
        Err(ParseError::MissingField)
    } else {
        fill_from(
            tokens,
            3,
            Bucket::Winning,
            CardView { card_no: tokens[1]->Number_0, wins: Set::empty(), played: Set::empty() },
        )
    }
}

/// The card that the line `s` describes.
pub open spec fn card_of_text(s: Seq<char>) -> Result<CardView, ParseError> {
    match tokens_of(s) {
        Ok(tokens) => card_of_tokens(tokens),
        Err(e) => Err(e),
    }
}

impl Card {
    /// The number of winning numbers that were played.
    pub open spec fn matches(&self) -> nat {
        self.wins@.intersect(self.played@).len()
    }

    /// The winning numbers that were played, each once, in no particular
    /// order.
    pub fn correct_numbers(&self) -> (v: Vec<usize>)
        ensures
            v@.to_set() == self.wins@.intersect(self.played@),
            v@.no_duplicates(),
            v@.len() == self.matches(),
    {
        let mut v: Vec<usize> = Vec::new();
        let keys = self.wins.iter();
        let ghost all: Seq<usize> = keys.remaining().unref();
        let ghost mut seen: int = 0;
        assert(all.to_set() == self.wins@);
        assert(all.no_duplicates()) by {
            assert forall|a: int, b: int|
                0 <= a < all.len() && 0 <= b < all.len() && a != b implies all[a] != all[b] by {
                assert(keys.remaining()[a] != keys.remaining()[b]);
            }
        }
        for key in it: keys
            invariant
                it.seq().unref() == all,
                seen == it.index(),
                0 <= seen <= all.len(),
                all.no_duplicates(),
                v@.no_duplicates(),
                forall|x: usize|
                    v@.contains(x) <==> self.played@.contains(x) && exists|j: int|
                        0 <= j < seen && #[trigger] all[j] == x,
        {
            let ghost before = v@;
            assert(*key == all[seen]);
            if self.played.contains(key) {
                assert(!before.contains(*key)) by {
                    if before.contains(*key) {
                        let j = choose|j: int| 0 <= j < seen && #[trigger] all[j] == *key;
                        assert(all[j] == all[seen]);
                    }
                }
                v.push(*key);
                assert forall|x: usize|
                    v@.contains(x) <==> self.played@.contains(x) && exists|j: int|
                        0 <= j < seen + 1 && #[trigger] all[j] == x by {
                    if v@.contains(x) {
                        let m = choose|m: int| 0 <= m < v@.len() && v@[m] == x;
                        if m < before.len() {
                            assert(before[m] == x);
                            assert(before.contains(x));
                        } else {
                            assert(all[seen] == x);
                        }
                    }
                    if self.played@.contains(x) && exists|j: int|
                        0 <= j < seen + 1 && #[trigger] all[j] == x {
                        let j = choose|j: int| 0 <= j < seen + 1 && #[trigger] all[j] == x;
                        if j < seen {
                            assert(before.contains(x));
                            let m = choose|m: int| 0 <= m < before.len() && before[m] == x;
                            assert(v@[m] == x);
                        } else {
                            assert(v@[before.len() as int] == x);
                        }
                    }
                }
            } else {
                assert forall|x: usize|
                    v@.contains(x) <==> self.played@.contains(x) && exists|j: int|
                        0 <= j < seen + 1 && #[trigger] all[j] == x by {
                    if self.played@.contains(x) && exists|j: int|
                        0 <= j < seen + 1 && #[trigger] all[j] == x {
                        let j = choose|j: int| 0 <= j < seen + 1 && #[trigger] all[j] == x;
                        assert(j < seen);
                    }
                }
            }
            proof {
                seen = seen + 1;
            }
        }
        proof {
            assert(seen == all.len());
            assert(v@.to_set() =~= self.wins@.intersect(self.played@)) by {
                assert forall|x: usize| v@.to_set().contains(x) <==> self.wins@.intersect(
                    self.played@,
                ).contains(x) by {
                    if v@.contains(x) {
                        let j = choose|j: int| 0 <= j < seen && #[trigger] all[j] == x;
                        assert(all.contains(x));
                    }
                    if self.wins@.contains(x) && self.played@.contains(x) {
                        assert(all.to_set().contains(x));
                        assert(all.contains(x));
                        let j = choose|j: int| 0 <= j < all.len() && all[j] == x;
                        assert(all[j] == x);
                    }
                }
            }
            v@.unique_seq_to_set();
        }
        v
    }

    /// The card's score: nothing without a match, one point for the first
    /// match, and twice as much for each further one.
    pub fn score(&self) -> (s: usize)
        requires
            self.matches() <= 32,
        ensures
            s == score_of(self.matches()),
    {
        let n = self.correct_numbers().len();
        if n == 0 {
            0
        } else {
            let mut s: usize = 1;
            let mut i: usize = 1;
            proof {
                lemma2_to64();
            }
            while i < n
                invariant
                    1 <= i <= n <= 32,
                    s == pow2((i - 1) as nat),
                decreases n - i,
            {
                proof {
                    lemma2_to64();
                    lemma_pow2_unfold(i as nat);
                    if i < 31 {
                        lemma_pow2_strictly_increases(i as nat, 31);
                    }
                }
                s = s * 2;
                i += 1;
            }
            s
        }
    }

    /// Builds the card that a sequence of tokens describes.
    ///
    /// Fails with `MissingField` unless the tokens begin with `Card`, a
    /// number and the colon, and with `UnexpectedToken` at the first token
    /// after these that is neither a number nor the first pipe.
    pub fn build(tokens: &Vec<Token>) -> (r: Result<Card, ParseError>)
        ensures
            match r {
                Ok(card) => card_of_tokens(tokens@) == Ok::<CardView, ParseError>(card@),
                Err(e) => card_of_tokens(tokens@) == Err::<CardView, ParseError>(e),
            },
    {
        if tokens.len() < 3 {
            return Err(ParseError::MissingField);
        }
        let card_no = match tokens[1] {
            Token::Number(n) => n,
            _ => {
                return Err(ParseError::MissingField);
            },
        };
        if tokens[0] != Token::Card || tokens[2] != Token::Colon {
            return Err(ParseError::MissingField);
        }
        let mut card = Card { _card_no: card_no, wins: HashSet::new(), played: HashSet::new() };
        let mut bucket = Bucket::Winning;
        let mut i: usize = 3;
        while i < tokens.len()
            invariant
                3 <= i <= tokens.len(),
                card_of_tokens(tokens@) == fill_from(tokens@, i as int, bucket, card@),
            decreases tokens.len() - i,
        {
            match tokens[i] {
                Token::Number(n) => {
                    match bucket {
                        Bucket::Winning => {
                            card.wins.insert(n);
                        },
                        Bucket::Played => {
                            card.played.insert(n);
                        },
                    }
                },
                Token::Pipe => {
                    if bucket == Bucket::Played {
                        return Err(ParseError::UnexpectedToken { at: i });
                    }
                    bucket = Bucket::Played;
                },
                _ => {
                    return Err(ParseError::UnexpectedToken { at: i });
                },
            }
            i += 1;
        }
        Ok(card)
    }

    /// Reads a card from its line: the tokens of the line, then the card
    /// that they describe. No card is built from a line with an error.
    pub fn from_card_string(card_str: &str) -> (r: Result<Card, ParseError>)
        ensures
            match r {
                Ok(card) => card_of_text(card_str@) == Ok::<CardView, ParseError>(card@),
                Err(e) => card_of_text(card_str@) == Err::<CardView, ParseError>(e),
            },
    {
        let tokens = lexer(card_str)?;
        Card::build(&tokens)
    }
}

/// The score of a card with `matches` matches: nothing without a match, one
/// point for the first match, and twice as much for each further one.
pub open spec fn score_of(matches: nat) -> int {
    if matches == 0 {
        0
    } else {
        pow2((matches - 1) as nat) as int
    }
}

/// The scores of the cards.
pub open spec fn scores(cards: Seq<Card>) -> Seq<int> {
    Seq::new(cards.len(), |k: int| score_of(cards[k].matches()))
}

/// The sum of the scores of the cards; `None` where a card has more than
/// thirty-two matches, so that its score is not computed, and where the sum
/// does not fit `usize`.
pub fn sum_of_scores(cards: &Vec<Card>) -> (sum: Option<usize>)
    ensures
        sum == if (exists|k: int| 0 <= k < cards@.len() && (#[trigger] cards@[k]).matches() > 32)
            || sum_of(scores(cards@), cards@.len() as int) > usize::MAX {
            None
        } else {
            Some(sum_of(scores(cards@), cards@.len() as int) as usize)
        },
{
    let ghost terms = scores(cards@);
    let mut sum: usize = 0;
    let mut overflow = false;
    let mut k: usize = 0;
    while k < cards.len()
        invariant
            0 <= k <= cards.len(),
            terms == scores(cards@),
            none_negative(terms),
            forall|m: int| 0 <= m < k ==> (#[trigger] cards@[m]).matches() <= 32,
            !overflow ==> sum == sum_of(terms, k as int),
            overflow ==> sum_of(terms, k as int) > usize::MAX,
        decreases cards.len() - k,
    {
        if cards[k].correct_numbers().len() > 32 {
            return None;
        }
        let score = cards[k].score();
        if !overflow {
            match sum.checked_add(score) {
                Some(more) => {
                    sum = more;
                },
                None => {
                    overflow = true;
                },
            }
        } else {
            proof {
                lemma_sum_grows(terms, k as int, k + 1);
            }
        }
        k += 1;
    }
    if overflow {
        None
    } else {
        Some(sum)
    }
}

/// The card grammar can be written and read back.
pub proof fn lemma_card_grammar_well_formed()
    ensures
        well_formed(card_grammar()),
{
    reveal_strlit("Card");
    let g = card_grammar();
    let word = g.keywords[0];
    assert(word.len() == 4);
    assert(word[0] == 'C' && word[1] == 'a' && word[2] == 'r' && word[3] == 'd');
    assert(!crate::text::is_digit(word[0]));
    assert(crate::tokenizer::same_word(word, word, false));
    assert(crate::tokenizer::separator_index(g, '|', 1) == Some(1int));
}

/// The numbers `ns` as lexemes.
pub open spec fn numbers(ns: Seq<usize>) -> Seq<Lexeme> {
    ns.map_values(|n: usize| Lexeme::Number(n as u64))
}

/// The lexemes of the card with the number `id`, the winning numbers `wins`
/// and the numbers played `played`, each in the order given.
pub open spec fn card_lexemes(id: usize, wins: Seq<usize>, played: Seq<usize>) -> Seq<Lexeme> {
    seq![Lexeme::Keyword(0), Lexeme::Number(id as u64), Lexeme::Separator(0)] + numbers(wins)
        + seq![Lexeme::Separator(1)] + numbers(played)
}

/// The gaps of a card line of `n` lexemes: none before `Card` and before
/// the colon, one blank before every other lexeme.
pub open spec fn card_gaps(n: nat) -> Seq<nat> {
    Seq::new(
        n,
        |m: int|
            if m == 0 || m == 2 {
                0nat
            } else {
                1nat
            },
    )
}

/// The line of a card, as in `Card 1: 41 48 | 83 86`.
pub open spec fn card_text(id: usize, wins: Seq<usize>, played: Seq<usize>) -> Seq<char> {
    render(
        card_grammar(),
        card_lexemes(id, wins, played),
        card_gaps(card_lexemes(id, wins, played).len()),
    )
}

/// The numbers among the tokens from `i` up to `j`.
pub open spec fn numbers_between(tokens: Seq<Token>, i: int, j: int) -> Set<usize> {
    Set::new(|x: usize| exists|m: int| i <= m < j && #[trigger] tokens[m] == Token::Number(x))
}

/// `card` with the numbers `more` added to the bucket `bucket`.
pub open spec fn with_numbers(card: CardView, bucket: Bucket, more: Set<usize>) -> CardView {
    match bucket {
        Bucket::Winning => CardView { wins: card.wins.union(more), ..card },
        Bucket::Played => CardView { played: card.played.union(more), ..card },
    }
}

/// A stretch of numbers goes to the active bucket.
pub proof fn lemma_fill_numbers(tokens: Seq<Token>, i: int, j: int, bucket: Bucket, card: CardView)
    requires
        0 <= i <= j <= tokens.len(),
        forall|m: int| i <= m < j ==> #[trigger] tokens[m] is Number,
    ensures
        fill_from(tokens, i, bucket, card) == fill_from(
            tokens,
            j,
            bucket,
            with_numbers(card, bucket, numbers_between(tokens, i, j)),
        ),
    decreases j - i,
{
    if i < j {
        let n = tokens[i]->Number_0;
        assert(tokens[i] is Number);
        let next = with_number(card, bucket, n);
        lemma_fill_numbers(tokens, i + 1, j, bucket, next);
        let a = numbers_between(tokens, i, j);
        let b = numbers_between(tokens, i + 1, j);
        assert(a =~= b.insert(n)) by {
            assert forall|x: usize| a.contains(x) <==> b.insert(n).contains(x) by {
                if a.contains(x) {
                    let m = choose|m: int| i <= m < j && #[trigger] tokens[m] == Token::Number(x);
                    if m > i {
                        assert(b.contains(x));
                    }
                }
                if b.contains(x) {
                    let m = choose|m: int| i + 1 <= m < j && #[trigger] tokens[m] == Token::Number(x);
                    assert(tokens[m] == Token::Number(x));
                }
                if x == n {
                    assert(tokens[i] == Token::Number(x));
                }
            }
        }
        assert(card.played.insert(n).union(b) =~= card.played.union(a));
        assert(card.wins.insert(n).union(b) =~= card.wins.union(a));
    } else {
        let a = numbers_between(tokens, i, j);
        assert(a =~= Set::<usize>::empty());
        assert(card.played.union(a) =~= card.played);
        assert(card.wins.union(a) =~= card.wins);
    }
}

/// Writing a card and reading it back: the line of the card with the number
/// `id`, the winning numbers `wins` and the numbers played `played`
/// describes that card.
pub proof fn lemma_card_round_trip(id: usize, wins: Seq<usize>, played: Seq<usize>)
    ensures
        lexemes_of(card_text(id, wins, played), card_grammar()) == Ok::<Seq<Lexeme>, ParseError>(
            card_lexemes(id, wins, played),
        ),
        card_of_text(card_text(id, wins, played)) == Ok::<CardView, ParseError>(
            CardView { card_no: id, wins: wins.to_set(), played: played.to_set() },
        ),
{
    let g = card_grammar();
    let ls = card_lexemes(id, wins, played);
    let gaps = card_gaps(ls.len());
    let w = wins.len() as int;
    let q = played.len() as int;
    lemma_card_grammar_well_formed();
    assert(ls.len() == 4 + w + q);
    assert(ls[0] == Lexeme::Keyword(0));
    assert(ls[1] == Lexeme::Number(id as u64));
    assert(ls[2] == Lexeme::Separator(0));
    assert forall|m: int| 3 <= m < 3 + w implies #[trigger] ls[m] == Lexeme::Number(
        wins[m - 3] as u64,
    ) by {
        assert(ls[m] == numbers(wins)[m - 3]);
    }
    assert(ls[3 + w] == Lexeme::Separator(1));
    assert forall|m: int| 4 + w <= m < 4 + w + q implies #[trigger] ls[m] == Lexeme::Number(
        played[m - 4 - w] as u64,
    ) by {
        assert(ls[m] == numbers(played)[m - 4 - w]);
    }
    assert forall|m: int| 0 <= m < ls.len() implies valid_lexeme(g, #[trigger] ls[m]) by {
        if 3 <= m < 3 + w {
            assert(ls[m] == Lexeme::Number(wins[m - 3] as u64));
        } else if 4 + w <= m {
            assert(ls[m] == Lexeme::Number(played[m - 4 - w] as u64));
        }
    }
    lemma_render_round_trip(g, ls, gaps);
    let tokens = ls.map_values(|l: Lexeme| token_of(l));
    assert(tokens_of(card_text(id, wins, played)) == Ok::<Seq<Token>, ParseError>(tokens));
    assert(tokens[0] == Token::Card);
    assert(tokens[1] == Token::Number(id));
    assert(tokens[2] == Token::Colon);
    assert forall|m: int| 3 <= m < 3 + w implies #[trigger] tokens[m] == Token::Number(
        wins[m - 3],
    ) by {
        assert(ls[m] == Lexeme::Number(wins[m - 3] as u64));
    }
    assert(tokens[3 + w] == Token::Pipe);
    assert forall|m: int| 4 + w <= m < 4 + w + q implies #[trigger] tokens[m] == Token::Number(
        played[m - 4 - w],
    ) by {
        assert(ls[m] == Lexeme::Number(played[m - 4 - w] as u64));
    }
    let c0 = CardView { card_no: id, wins: Set::empty(), played: Set::empty() };
    lemma_fill_numbers(tokens, 3, 3 + w, Bucket::Winning, c0);
    let c1 = with_numbers(c0, Bucket::Winning, numbers_between(tokens, 3, 3 + w));
    assert(fill_from(tokens, 3 + w, Bucket::Winning, c1) == fill_from(
        tokens,
        4 + w,
        Bucket::Played,
        c1,
    ));
    lemma_fill_numbers(tokens, 4 + w, 4 + w + q, Bucket::Played, c1);
    let c2 = with_numbers(c1, Bucket::Played, numbers_between(tokens, 4 + w, 4 + w + q));
    assert(fill_from(tokens, 4 + w + q, Bucket::Played, c2) == Ok::<CardView, ParseError>(c2));
    assert(c2.wins =~= wins.to_set()) by {
        assert forall|x: usize| c2.wins.contains(x) <==> wins.to_set().contains(x) by {
            if c2.wins.contains(x) {
                let m = choose|m: int| 3 <= m < 3 + w && #[trigger] tokens[m] == Token::Number(x);
                assert(tokens[m] == Token::Number(wins[m - 3]));
                assert(wins[m - 3] == x);
            }
            if wins.contains(x) {
                let k = choose|k: int| 0 <= k < wins.len() && wins[k] == x;
                assert(tokens[k + 3] == Token::Number(wins[k + 3 - 3]));
            }
        }
    }
    assert(c2.played =~= played.to_set()) by {
        assert forall|x: usize| c2.played.contains(x) <==> played.to_set().contains(x) by {
            if c2.played.contains(x) {
                let m = choose|m: int|
                    4 + w <= m < 4 + w + q && #[trigger] tokens[m] == Token::Number(x);
                assert(tokens[m] == Token::Number(played[m - 4 - w]));
                assert(played[m - 4 - w] == x);
            }
            if played.contains(x) {
                let k = choose|k: int| 0 <= k < played.len() && played[k] == x;
                assert(tokens[k + 4 + w] == Token::Number(played[k + 4 + w - 4 - w]));
            }
        }
    }
}

/// A card that tokens describe holds finitely many numbers, if the card
/// that it started from does.
pub proof fn lemma_fill_is_finite(tokens: Seq<Token>, i: int, bucket: Bucket, card: CardView)
    requires
        card.wins.finite(),
        card.played.finite(),
        fill_from(tokens, i, bucket, card) is Ok,
    ensures
        fill_from(tokens, i, bucket, card)->Ok_0.wins.finite(),
        fill_from(tokens, i, bucket, card)->Ok_0.played.finite(),
    decreases tokens.len() - i,
{
    if 0 <= i < tokens.len() {
        match tokens[i] {
            Token::Number(n) => {
                lemma_fill_is_finite(tokens, i + 1, bucket, with_number(card, bucket, n));
            },
            Token::Pipe => {
                lemma_fill_is_finite(tokens, i + 1, Bucket::Played, card);
            },
            _ => {},
        }
    }
}

/// The text of a card: its numbers are written in some order, bucket by
/// bucket.
pub open spec fn text_of_card(card: CardView) -> Seq<char> {
    card_text(card.card_no, card.wins.to_seq(), card.played.to_seq())
}

/// Reading a card, writing it and reading it back: a line that describes a
/// card describes the card that the text of that card describes. The tokens
/// of the two lines are equivalent: they describe the same card.
pub proof fn lemma_read_card_survives_rendering(s: Seq<char>)
    requires
        card_of_text(s) is Ok,
    ensures
        card_of_text(text_of_card(card_of_text(s)->Ok_0)) == card_of_text(s),
{
    let tokens = tokens_of(s)->Ok_0;
    lemma_fill_is_finite(
        tokens,
        3,
        Bucket::Winning,
        CardView { card_no: tokens[1]->Number_0, wins: Set::empty(), played: Set::empty() },
    );
    lemma_card_survives_rendering(card_of_text(s)->Ok_0);
}

/// Writing any card and reading it back gives the same card: the numbers of
/// each bucket are written in some order, and the line describes the card.
pub proof fn lemma_card_survives_rendering(card: CardView)
    requires
        card.wins.finite(),
        card.played.finite(),
    ensures
        card_of_text(text_of_card(card)) == Ok::<CardView, ParseError>(card),
{
    lemma_card_round_trip(card.card_no, card.wins.to_seq(), card.played.to_seq());
    card.wins.lemma_to_seq_to_set_id();
    card.played.lemma_to_seq_to_set_id();
}

/// A card line with a character outside the alphabet gives no tokens and
/// no card: it is rejected with a syntax error, unless the pass has met a
/// number that is out of range before it came to that character.
pub proof fn lemma_card_rejects_foreign_character(s: Seq<char>, k: int)
    requires
        0 <= k < s.len(),
        !in_alphabet(card_grammar(), s[k]),
        !(tokens_of(s) is Err && tokens_of(s)->Err_0 is NumberOutOfRange),
    ensures
        tokens_of(s) is Err,
        tokens_of(s)->Err_0 is SyntaxError,
        card_of_text(s) == Err::<CardView, ParseError>(tokens_of(s)->Err_0),
{
    lemma_foreign_character_rejected(s, card_grammar(), k);
}

/// The card of a line is a function of its characters: the same line has
/// the same tokens and describes the same card, or has the same error.
pub proof fn lemma_same_line_same_card(a: Seq<char>, b: Seq<char>)
    requires
        a == b,
    ensures
        tokens_of(a) == tokens_of(b),
        card_of_text(a) == card_of_text(b),
{
}

} // verus!
