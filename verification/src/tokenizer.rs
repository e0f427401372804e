//! The line tokenizer: one pass over the characters of a line, driven by a
//! two-state machine, that yields the lexemes of the line in input order.
//!
//! A grammar names its keywords and its separator characters, and bounds its
//! numbers. A lexeme is a number, a keyword or a separator. Blanks are
//! skipped; a run of letters and digits is one word, read as a number when
//! it is all digits and looked up among the keywords otherwise. The end of
//! the line closes a word as a blank does.

use vstd::prelude::*;
use crate::error::ParseError;
use crate::text::{
    all_digits, chars_of, decimal_value, digit, digits_of, digits_only, is_alnum, lemma_digits_of,
    letter, parse_decimal, views,
};

verus! {

/// The smallest classified unit of a line.
#[derive(Debug, Clone, Copy, PartialEq, Eq, Structural)]
pub enum Lexeme {
    /// A run of digits, by its value.
    Number(u64),
    /// A keyword, by its index among the grammar's keywords.
    Keyword(usize),
    /// A separator, by its index among the grammar's separators.
    Separator(usize),
}

/// What the machine is doing between two characters.
#[derive(Debug, Clone, Copy, PartialEq, Eq, Structural)]
pub enum ParseState {
    /// Inside a word that began at an earlier character.
    InToken,
    /// Between words.
    OutsideToken,
}

impl Default for ParseState {
    fn default() -> (s: ParseState)
        ensures
            s == ParseState::OutsideToken,
    {
        ParseState::OutsideToken
    }
}

/// The fixed parts of a grammar.
#[derive(Debug)]
pub struct Grammar {
    /// The words that the grammar knows.
    pub keywords: Vec<Vec<char>>,
    /// The characters that stand for themselves.
    pub separators: Vec<char>,
    /// The largest number that the grammar's integer type holds.
    pub max_number: u64,
    /// Whether a keyword is recognised whatever the case of its ASCII
    /// letters.
    pub ignore_case: bool,
}

/// A grammar as plain mathematical values.
pub ghost struct GrammarView {
    pub keywords: Seq<Seq<char>>,
    pub separators: Seq<char>,
    pub max_number: nat,
    pub ignore_case: bool,
}

impl View for Grammar {
    type V = GrammarView;

    open spec fn view(&self) -> GrammarView {
        GrammarView {
            keywords: views(self.keywords@),
            separators: self.separators@,
            max_number: self.max_number as nat,
            ignore_case: self.ignore_case,
        }
    }
}

/// The lower-case form of an ASCII capital; any other character is itself.
pub open spec fn lower(c: char) -> char {
    if 'A' <= c && c <= 'Z' {
        (c as int + 32) as char
    } else {
        c
    }
}

/// `a` and `b` are the same word, up to the case of ASCII letters where
/// `ignore_case` is set.
pub open spec fn same_word(a: Seq<char>, b: Seq<char>, ignore_case: bool) -> bool {
    &&& a.len() == b.len()
    &&& forall|i: int|
        0 <= i < a.len() ==> if ignore_case {
            lower(#[trigger] a[i]) == lower(b[i])
        } else {
            a[i] == b[i]
        }
}

/// The index of the first keyword at or after `from` that is the same word
/// as `word`, if there is one.
pub open spec fn keyword_index(g: GrammarView, word: Seq<char>, from: int) -> Option<int>
    decreases g.keywords.len() - from,
{
    if from < 0 || from >= g.keywords.len() {
        None
    } else if same_word(g.keywords[from], word, g.ignore_case) {
        Some(from)
    } else {
        keyword_index(g, word, from + 1)
    }
}

/// The index of the first separator at or after `from` that is `c`, if there
/// is one.
pub open spec fn separator_index(g: GrammarView, c: char, from: int) -> Option<int>
    decreases g.separators.len() - from,
{
    if from < 0 || from >= g.separators.len() {
        None
    } else if g.separators[from] == c {
        Some(from)
    } else {
        separator_index(g, c, from + 1)
    }
}

/// `c` belongs to the alphabet of `g`: a blank, a letter, a digit or one of
/// its separators.
pub open spec fn in_alphabet(g: GrammarView, c: char) -> bool {
    c == ' ' || is_alnum(c) || separator_index(g, c, 0) is Some
}

/// What a word of `g` that starts at character `at` stands for: a number if
/// it is all digits, and a keyword otherwise.
pub open spec fn lexeme_of(g: GrammarView, word: Seq<char>, at: int) -> Result<Lexeme, ParseError> {
    if all_digits(word) {
        if decimal_value(word) <= g.max_number {
            Ok(Lexeme::Number(decimal_value(word) as u64))
        } else {
            Err(ParseError::NumberOutOfRange { at: at as usize })
        }
    } else {
        match keyword_index(g, word, 0) {
            Some(k) => Ok(Lexeme::Keyword(k as usize)),
            None => Err(ParseError::SyntaxError { at: at as usize }),
        }
    }
}

/// The first index at or after `i` whose character is no letter and no
/// digit; the length of `p` if there is none.
pub open spec fn run_end(p: Seq<char>, i: int) -> int
    decreases p.len() - i,
{
    if 0 <= i < p.len() && is_alnum(p[i]) {
        run_end(p, i + 1)
    } else {
        i
    }
}

/// `first` followed by what `rest` holds, or the error of `rest`.
pub open spec fn prepend(first: Seq<Lexeme>, rest: Result<Seq<Lexeme>, ParseError>) -> Result<
    Seq<Lexeme>,
    ParseError,
> {
    match rest {
        Ok(more) => Ok(first + more),
        Err(e) => Err(e),
    }
}

/// A run that starts at a letter or a digit ends after it, within `p`, and
/// holds letters and digits only.
pub proof fn lemma_run_end(p: Seq<char>, i: int)
    requires
        0 <= i <= p.len(),
    ensures
        i <= run_end(p, i) <= p.len(),
        i < p.len() && is_alnum(p[i]) ==> i < run_end(p, i),
        forall|k: int| i <= k < run_end(p, i) ==> is_alnum(#[trigger] p[k]),
        run_end(p, i) < p.len() ==> !is_alnum(p[run_end(p, i)]),
    decreases p.len() - i,
{
    if i < p.len() && is_alnum(p[i]) {
        lemma_run_end(p, i + 1);
    }
}

/// The lexemes of `p` from character `i` on, where `i` stands between two
/// words.
pub open spec fn lex_from(p: Seq<char>, g: GrammarView, i: int) -> Result<Seq<Lexeme>, ParseError>
    decreases p.len() - i,
{
    if i < 0 || i >= p.len() {
        Ok(Seq::empty())
    } else if p[i] == ' ' {
        lex_from(p, g, i + 1)
    } else if is_alnum(p[i]) {
        let j = run_end(p, i);
        if j < p.len() && p[j] != ' ' && separator_index(g, p[j], 0) is None {
            Err(ParseError::SyntaxError { at: j as usize })
        } else {
            match lexeme_of(g, p.subrange(i, j), i) {
                Ok(l) => {
                    proof {
                        lemma_run_end(p, i);
                    }
                    prepend(seq![l], lex_from(p, g, j))
                },
                Err(e) => Err(e),
            }
        }
    } else {
        match separator_index(g, p[i], 0) {
            Some(k) => prepend(seq![Lexeme::Separator(k as usize)], lex_from(p, g, i + 1)),
            None => Err(ParseError::SyntaxError { at: i as usize }),
        }
    }
}

/// The lexemes of the line `s` under the grammar `g`, or the first error
/// that a pass from left to right meets. The line is read as if a blank
/// followed its last character.
pub open spec fn lexemes_of(s: Seq<char>, g: GrammarView) -> Result<Seq<Lexeme>, ParseError> {
    lex_from(s.push(' '), g, 0)
}

/// A run of letters and digits that is followed by another character, or by
/// nothing, ends there.
pub proof fn lemma_run_stops(p: Seq<char>, start: int, i: int)
    requires
        0 <= start <= i <= p.len(),
        forall|k: int| start <= k < i ==> is_alnum(#[trigger] p[k]),
        i < p.len() ==> !is_alnum(p[i]),
    ensures
        run_end(p, start) == i,
    decreases i - start,
{
    if start < i {
        lemma_run_stops(p, start + 1, i);
    }
}

/// What holds between two steps of the machine: the lexemes `done`, then
/// those of the rest of the line, are the lexemes of the line. Inside a
/// word the rest begins at the word's first character, `start`, and every
/// character from there up to `i` is a letter or a digit.
pub open spec fn consistent(
    p: Seq<char>,
    g: GrammarView,
    done: Seq<Lexeme>,
    state: ParseState,
    start: int,
    i: int,
) -> bool {
    &&& 0 <= i <= p.len()
    &&& match state {
        ParseState::OutsideToken => lex_from(p, g, 0) == prepend(done, lex_from(p, g, i)),
        ParseState::InToken => {
            &&& 0 <= start < i
            &&& forall|k: int| start <= k < i ==> is_alnum(#[trigger] p[k])
            &&& lex_from(p, g, 0) == prepend(done, lex_from(p, g, start))
        },
    }
}

/// The lower-case form of an ASCII capital; any other character is itself.
pub fn to_lower(c: char) -> (l: char)
    ensures
        l == lower(c),
{
    if 'A' <= c && c <= 'Z' {
        ((c as u8) + 32u8) as char
    } else {
        c
    }
}

/// Tells whether the characters of `chars` from `start` up to `end` are the
/// word `word`.
pub fn is_word(
    word: &Vec<char>,
    chars: &Vec<char>,
    start: usize,
    end: usize,
    ignore_case: bool,
) -> (b: bool)
    requires
        start <= end <= chars.len(),
    ensures
        b == same_word(word@, chars@.subrange(start as int, end as int), ignore_case),
{
    let ghost sub = chars@.subrange(start as int, end as int);
    if word.len() != end - start {
        return false;
    }
    let mut k: usize = 0;
    while k < word.len()
        invariant
            start <= end <= chars.len(),
            word.len() == end - start,
            sub == chars@.subrange(start as int, end as int),
            0 <= k <= word.len(),
            forall|i: int|
                0 <= i < k ==> if ignore_case {
                    lower(#[trigger] word@[i]) == lower(sub[i])
                } else {
                    word@[i] == sub[i]
                },
        decreases word.len() - k,
    {
        let a = word[k];
        let b = chars[start + k];
        assert(b == sub[k as int]);
        let same = if ignore_case {
            to_lower(a) == to_lower(b)
        } else {
            a == b
        };
        if !same {
            assert(!(if ignore_case {
                lower(word@[k as int]) == lower(sub[k as int])
            } else {
                word@[k as int] == sub[k as int]
            }));
            return false;
        }
        k += 1;
    }
    true
}

/// Looks the characters of `chars` from `start` up to `end` up among the
/// keywords of `grammar`.
pub fn find_keyword(grammar: &Grammar, chars: &Vec<char>, start: usize, end: usize) -> (r: Option<
    usize,
>)
    requires
        start <= end <= chars.len(),
    ensures
        match r {
            Some(k) => keyword_index(grammar@, chars@.subrange(start as int, end as int), 0)
                == Some(k as int),
            None => keyword_index(grammar@, chars@.subrange(start as int, end as int), 0) is None,
        },
{
    let ghost sub = chars@.subrange(start as int, end as int);
    let mut k: usize = 0;
    while k < grammar.keywords.len()
        invariant
            start <= end <= chars.len(),
            sub == chars@.subrange(start as int, end as int),
            0 <= k <= grammar.keywords.len(),
            keyword_index(grammar@, sub, 0) == keyword_index(grammar@, sub, k as int),
        decreases grammar.keywords.len() - k,
    {
        assert(grammar@.keywords[k as int] == grammar.keywords@[k as int]@);
        if is_word(&grammar.keywords[k], chars, start, end, grammar.ignore_case) {
            return Some(k);
        }
        k += 1;
    }
    None
}

/// Looks `c` up among the separators of `grammar`.
pub fn find_separator(grammar: &Grammar, c: char) -> (r: Option<usize>)
    ensures
        match r {
            Some(k) => separator_index(grammar@, c, 0) == Some(k as int),
            None => separator_index(grammar@, c, 0) is None,
        },
{
    let mut k: usize = 0;
    while k < grammar.separators.len()
        invariant
            0 <= k <= grammar.separators.len(),
            separator_index(grammar@, c, 0) == separator_index(grammar@, c, k as int),
        decreases grammar.separators.len() - k,
    {
        if grammar.separators[k] == c {
            return Some(k);
        }
        k += 1;
    }
    None
}

/// Reads the word that the characters of `chars` from `start` up to `end`
/// form.
pub fn read_word(grammar: &Grammar, chars: &Vec<char>, start: usize, end: usize) -> (r: Result<
    Lexeme,
    ParseError,
>)
    requires
        start <= end <= chars.len(),
    ensures
        r == lexeme_of(grammar@, chars@.subrange(start as int, end as int), start as int),
{
    if digits_only(chars, start, end) {
        match parse_decimal(chars, start, end, grammar.max_number) {
            Some(n) => Ok(Lexeme::Number(n)),
            None => Err(ParseError::NumberOutOfRange { at: start }),
        }
    } else {
        match find_keyword(grammar, chars, start, end) {
            Some(k) => Ok(Lexeme::Keyword(k)),
            None => Err(ParseError::SyntaxError { at: start }),
        }
    }
}

/// One step of the machine: takes the character `c` at index `i` of the
/// line, where the line's end counts as a blank, and moves to the state
/// before the next character, or stops with the line's error.
pub fn step(
    chars: &Vec<char>,
    grammar: &Grammar,
    i: usize,
    c: char,
    state: &mut ParseState,
    start: &mut usize,
    tokens: &mut Vec<Lexeme>,
) -> (r: Result<(), ParseError>)
    requires
        i <= chars.len(),
        c == chars@.push(' ')[i as int],
        consistent(
            chars@.push(' '),
            grammar@,
            old(tokens)@,
            *old(state),
            *old(start) as int,
            i as int,
        ),
    ensures
        match r {
            Ok(_) => consistent(
                chars@.push(' '),
                grammar@,
                final(tokens)@,
                *final(state),
                *final(start) as int,
                i + 1,
            ),
            Err(e) => lex_from(chars@.push(' '), grammar@, 0) == Err::<Seq<Lexeme>, ParseError>(e),
        },
{
    let ghost p = chars@.push(' ');
    let ghost g = grammar@;
    let ghost done = tokens@;
    match *state {
        ParseState::OutsideToken => {
            if c == ' ' {
                Ok(())
            } else if digit(c) || letter(c) {
                *state = ParseState::InToken;
                *start = i;
                Ok(())
            } else {
                match find_separator(grammar, c) {
                    Some(k) => {
                        tokens.push(Lexeme::Separator(k));
                        proof {
                            let rest = lex_from(p, g, i + 1);
                            assert(done + seq![Lexeme::Separator(k)] == done.push(
                                Lexeme::Separator(k),
                            ));
                            if let Ok(more) = rest {
                                assert(done + (seq![Lexeme::Separator(k)] + more) == done.push(
                                    Lexeme::Separator(k),
                                ) + more);
                            }
                        }
                        Ok(())
                    },
                    None => Err(ParseError::SyntaxError { at: i }),
                }
            }
        },
        ParseState::InToken => {
            if digit(c) || letter(c) {
                Ok(())
            } else {
                let word_start = *start;
                proof {
                    lemma_run_stops(p, word_start as int, i as int);
                    assert(p.subrange(word_start as int, i as int) == chars@.subrange(
                        word_start as int,
                        i as int,
                    ));
                    assert(is_alnum(p[word_start as int]));
                }
                let separator = if c == ' ' {
                    None
                } else {
                    find_separator(grammar, c)
                };
                if c != ' ' && separator.is_none() {
                    return Err(ParseError::SyntaxError { at: i });
                }
                let word = read_word(grammar, chars, word_start, i)?;
                tokens.push(word);
                *state = ParseState::OutsideToken;
                proof {
                    assert(done + seq![word] == done.push(word));
                    if let Ok(more) = lex_from(p, g, i as int) {
                        assert(done + (seq![word] + more) == done.push(word) + more);
                    }
                }
                match separator {
                    Some(k) => {
                        let ghost sofar = tokens@;
                        tokens.push(Lexeme::Separator(k));
                        proof {
                            if let Ok(more) = lex_from(p, g, i + 1) {
                                assert(sofar + (seq![Lexeme::Separator(k)] + more) == sofar.push(
                                    Lexeme::Separator(k),
                                ) + more);
                            }
                        }
                        Ok(())
                    },
                    None => Ok(()),
                }
            }
        },
    }
}

/// The lexemes of the line `chars` under `grammar`, in input order, or the
/// first error that a pass from left to right meets.
pub fn tokenize_chars(chars: &Vec<char>, grammar: &Grammar) -> (r: Result<Vec<Lexeme>, ParseError>)
    ensures
        match r {
            Ok(v) => lexemes_of(chars@, grammar@) == Ok::<Seq<Lexeme>, ParseError>(v@),
            Err(e) => lexemes_of(chars@, grammar@) == Err::<Seq<Lexeme>, ParseError>(e),
        },
{
    let ghost p = chars@.push(' ');
    let mut tokens: Vec<Lexeme> = Vec::new();
    let mut state = ParseState::OutsideToken;
    let mut start: usize = 0;
    let mut i: usize = 0;
    proof {
        if let Ok(more) = lex_from(p, grammar@, 0) {
            assert(Seq::<Lexeme>::empty() + more == more);
        }
    }
    while i < chars.len()
        invariant
            p == chars@.push(' '),
            0 <= i <= chars.len(),
            consistent(p, grammar@, tokens@, state, start as int, i as int),
        decreases chars.len() - i,
    {
        step(chars, grammar, i, chars[i], &mut state, &mut start, &mut tokens)?;
        i += 1;
    }
    step(chars, grammar, i, ' ', &mut state, &mut start, &mut tokens)?;
    proof {
        assert(state == ParseState::OutsideToken);
        assert(tokens@ + Seq::<Lexeme>::empty() == tokens@);
    }
    Ok(tokens)
}

/// The lexemes of `line` under `grammar`, in input order, or the first
/// error that a pass from left to right meets.
pub fn tokenize(line: &str, grammar: &Grammar) -> (r: Result<Vec<Lexeme>, ParseError>)
    ensures
        match r {
            Ok(v) => lexemes_of(line@, grammar@) == Ok::<Seq<Lexeme>, ParseError>(v@),
            Err(e) => lexemes_of(line@, grammar@) == Err::<Seq<Lexeme>, ParseError>(e),
        },
{
    let chars = chars_of(line);
    tokenize_chars(&chars, grammar)
}

/// A line that holds a character outside the alphabet, at index `k` or
/// later than `i`, has no lexemes from `i` on: the pass stops there or
/// before, with a syntax error or at a number that is out of range.
pub proof fn lemma_foreign_from(p: Seq<char>, g: GrammarView, i: int, k: int)
    requires
        0 <= i <= k < p.len(),
        !in_alphabet(g, p[k]),
    ensures
        lex_from(p, g, i) is Err,
        lex_from(p, g, i)->Err_0 is SyntaxError || lex_from(p, g, i)->Err_0 is NumberOutOfRange,
    decreases p.len() - i,
{
    if p[i] == ' ' {
        lemma_foreign_from(p, g, i + 1, k);
    } else if is_alnum(p[i]) {
        let j = run_end(p, i);
        lemma_run_end(p, i);
        assert(j <= k) by {
            if k < j {
                assert(is_alnum(p[k]));
            }
        }
        if j < p.len() && p[j] != ' ' && separator_index(g, p[j], 0) is None {
        } else if lexeme_of(g, p.subrange(i, j), i) is Ok {
            lemma_foreign_from(p, g, j, k);
        }
    } else if separator_index(g, p[i], 0) is Some {
        lemma_foreign_from(p, g, i + 1, k);
    }
}

/// A line with a character outside the grammar's alphabet is never
/// tokenized: it is rejected with a syntax error, unless the pass has met a
/// number that is out of range before it came to that character.
pub proof fn lemma_foreign_character_rejected(s: Seq<char>, g: GrammarView, k: int)
    requires
        0 <= k < s.len(),
        !in_alphabet(g, s[k]),
        !(lexemes_of(s, g) is Err && lexemes_of(s, g)->Err_0 is NumberOutOfRange),
    ensures
        lexemes_of(s, g) is Err,
        lexemes_of(s, g)->Err_0 is SyntaxError,
{
    lemma_foreign_from(s.push(' '), g, 0, k);
}

/// `l` is a number or a keyword: a lexeme written in letters and digits.
pub open spec fn is_word_lexeme(l: Lexeme) -> bool {
    !(l is Separator)
}

/// `l` is a lexeme of `g`: a number within its bound, or the index of one of
/// its keywords or separators.
pub open spec fn valid_lexeme(g: GrammarView, l: Lexeme) -> bool {
    match l {
        Lexeme::Number(n) => n <= g.max_number,
        Lexeme::Keyword(k) => k < g.keywords.len(),
        Lexeme::Separator(k) => k < g.separators.len(),
    }
}

/// The text of a lexeme: the digits of a number, the keyword as the grammar
/// spells it, the separator's character.
pub open spec fn text_of(g: GrammarView, l: Lexeme) -> Seq<char> {
    match l {
        Lexeme::Number(n) => digits_of(n as nat),
        Lexeme::Keyword(k) => g.keywords[k as int],
        Lexeme::Separator(k) => seq![g.separators[k as int]],
    }
}

/// `n` blanks.
pub open spec fn blanks(n: nat) -> Seq<char> {
    Seq::new(n, |i: int| ' ')
}

/// The line that spells the lexemes `ls` in order, with `gaps[m]` blanks
/// before the text of `ls[m]`.
pub open spec fn render(g: GrammarView, ls: Seq<Lexeme>, gaps: Seq<nat>) -> Seq<char>
    decreases ls.len(),
{
    if ls.len() == 0 || gaps.len() == 0 {
        Seq::empty()
    } else {
        blanks(gaps[0]) + text_of(g, ls[0]) + render(g, ls.drop_first(), gaps.drop_first())
    }
}

/// There is a gap for each lexeme, and at least one blank between two
/// lexemes that are both written in letters and digits.
pub open spec fn spaced(ls: Seq<Lexeme>, gaps: Seq<nat>) -> bool {
    &&& gaps.len() == ls.len()
    &&& forall|m: int|
        1 <= m < ls.len() && is_word_lexeme(ls[m - 1]) && is_word_lexeme(#[trigger] ls[m])
            ==> gaps[m] >= 1
}

/// The grammar can be written and read back: each keyword is a word of
/// letters and digits that is not a number and is found at its own index,
/// and each separator is neither a letter, a digit nor a blank and is found
/// at its own index.
pub open spec fn well_formed(g: GrammarView) -> bool {
    &&& forall|k: int|
        0 <= k < g.keywords.len() ==> {
            &&& (#[trigger] g.keywords[k]).len() > 0
            &&& forall|i: int| 0 <= i < g.keywords[k].len() ==> is_alnum(#[trigger] g.keywords[k][i])
            &&& !all_digits(g.keywords[k])
            &&& keyword_index(g, g.keywords[k], 0) == Some(k)
        }
    &&& forall|k: int|
        0 <= k < g.separators.len() ==> {
            &&& !is_alnum(#[trigger] g.separators[k])
            &&& g.separators[k] != ' '
            &&& separator_index(g, g.separators[k], 0) == Some(k)
        }
}

/// Blanks between `i` and `n` are skipped.
pub proof fn lemma_skip_blanks(p: Seq<char>, g: GrammarView, i: int, n: int)
    requires
        0 <= i <= n <= p.len(),
        forall|k: int| i <= k < n ==> #[trigger] p[k] == ' ',
    ensures
        lex_from(p, g, i) == lex_from(p, g, n),
    decreases n - i,
{
    if i < n {
        lemma_skip_blanks(p, g, i + 1, n);
    }
}

/// A run ends at the same character whatever stands before the line.
pub proof fn lemma_run_shift(a: Seq<char>, b: Seq<char>, i: int)
    requires
        0 <= i <= b.len(),
    ensures
        run_end(a + b, a.len() + i) == a.len() + run_end(b, i),
    decreases b.len() - i,
{
    if i < b.len() && is_alnum(b[i]) {
        assert((a + b)[a.len() + i] == b[i]);
        lemma_run_shift(a, b, i + 1);
    } else if i < b.len() {
        assert((a + b)[a.len() + i] == b[i]);
    }
}

/// The lexemes of a line from some character on do not depend on what
/// stands before that character.
pub proof fn lemma_lex_suffix(a: Seq<char>, b: Seq<char>, g: GrammarView, i: int)
    requires
        0 <= i <= b.len(),
        lex_from(b, g, i) is Ok,
    ensures
        lex_from(a + b, g, a.len() + i) == lex_from(b, g, i),
    decreases b.len() - i,
{
    let p = a + b;
    let n = a.len() as int;
    if i < b.len() {
        assert(p[n + i] == b[i]);
        if b[i] == ' ' {
            lemma_lex_suffix(a, b, g, i + 1);
        } else if is_alnum(b[i]) {
            let j = run_end(b, i);
            lemma_run_end(b, i);
            lemma_run_shift(a, b, i);
            assert(p.subrange(n + i, n + j) == b.subrange(i, j));
            if j < b.len() {
                assert(p[n + j] == b[j]);
            }
            lemma_lex_suffix(a, b, g, j);
        } else {
            lemma_lex_suffix(a, b, g, i + 1);
        }
    }
}

/// The line that spells lexemes starts, when a blank is put after it, with a
/// blank or a separator unless its first lexeme is written in letters and
/// digits and has no gap before it.
pub proof fn lemma_render_starts(g: GrammarView, ls: Seq<Lexeme>, gaps: Seq<nat>)
    requires
        well_formed(g),
        gaps.len() == ls.len(),
        forall|m: int| 0 <= m < ls.len() ==> valid_lexeme(g, #[trigger] ls[m]),
        ls.len() > 0 ==> gaps[0] >= 1 || !is_word_lexeme(ls[0]),
    ensures
        render(g, ls, gaps).push(' ')[0] == ' ' || separator_index(
            g,
            render(g, ls, gaps).push(' ')[0],
            0,
        ) is Some,
{
    if ls.len() > 0 {
        let rest = render(g, ls.drop_first(), gaps.drop_first());
        let t = blanks(gaps[0]) + text_of(g, ls[0]) + rest;
        if gaps[0] >= 1 {
            assert(t.push(' ')[0] == blanks(gaps[0])[0]);
        } else {
            let k = ls[0]->Separator_0 as int;
            assert(valid_lexeme(g, ls[0]));
            assert(t.push(' ')[0] == g.separators[k]);
        }
    }
}

/// Writing and reading back: the line that spells the lexemes `ls` of a
/// well-formed grammar, with the gaps `gaps`, has the lexemes `ls`.
pub proof fn lemma_render_round_trip(g: GrammarView, ls: Seq<Lexeme>, gaps: Seq<nat>)
    requires
        well_formed(g),
        spaced(ls, gaps),
        forall|m: int| 0 <= m < ls.len() ==> valid_lexeme(g, #[trigger] ls[m]),
    ensures
        lexemes_of(render(g, ls, gaps), g) == Ok::<Seq<Lexeme>, ParseError>(ls),
    decreases ls.len(),
{
    if ls.len() == 0 {
        let p = Seq::<char>::empty().push(' ');
        assert(lex_from(p, g, 1) == Ok::<Seq<Lexeme>, ParseError>(Seq::empty()));
        assert(lex_from(p, g, 0) == lex_from(p, g, 1));
        assert(ls == Seq::<Lexeme>::empty());
    } else {
        let first = ls[0];
        let more = ls.drop_first();
        let more_gaps = gaps.drop_first();
        let gap = blanks(gaps[0]);
        let word = text_of(g, first);
        let tail = render(g, more, more_gaps);
        let head = gap + word;
        let p = render(g, ls, gaps).push(' ');
        let b = tail.push(' ');
        assert(valid_lexeme(g, first));
        assert forall|m: int| 0 <= m < more.len() implies valid_lexeme(g, #[trigger] more[m]) by {
            assert(more[m] == ls[m + 1]);
        }
        assert(spaced(more, more_gaps)) by {
            assert forall|m: int|
                1 <= m < more.len() && is_word_lexeme(more[m - 1]) && is_word_lexeme(
                    #[trigger] more[m],
                ) implies more_gaps[m] >= 1 by {
                assert(more[m] == ls[m + 1]);
                assert(more[m - 1] == ls[m]);
                assert(is_word_lexeme(ls[m + 1]));
            }
        }
        lemma_render_round_trip(g, more, more_gaps);
        assert(p == head + b);
        let n0 = gap.len() as int;
        let j = head.len() as int;
        assert forall|k: int| 0 <= k < n0 implies #[trigger] p[k] == ' ' by {
            assert(p[k] == gap[k]);
        }
        lemma_skip_blanks(p, g, 0, n0);
        lemma_lex_suffix(head, b, g, 0);
        assert(lex_from(p, g, j) == Ok::<Seq<Lexeme>, ParseError>(more));
        assert(seq![first] + more == ls);
        match first {
            Lexeme::Separator(k) => {
                assert(word.len() == 1);
                assert(p[n0] == g.separators[k as int]);
            },
            _ => {
                assert(more.len() > 0 ==> more_gaps[0] >= 1 || !is_word_lexeme(more[0])) by {
                    if more.len() > 0 {
                        assert(more[0] == ls[1]);
                        assert(more_gaps[0] == gaps[1]);
                    }
                }
                lemma_render_starts(g, more, more_gaps);
                assert(p[j] == b[0]);
                assert(!is_alnum(p[j])) by {
                    if p[j] != ' ' {
                        let q = separator_index(g, p[j], 0)->Some_0;
                        lemma_separator_found(g, p[j], 0);
                    }
                }
                match first {
                    Lexeme::Number(v) => {
                        lemma_digits_of(v as nat);
                    },
                    _ => {},
                }
                assert(word.len() > 0);
                assert forall|k: int| n0 <= k < j implies is_alnum(#[trigger] p[k]) by {
                    assert(p[k] == word[k - n0]);
                }
                lemma_run_stops(p, n0, j);
                assert(p.subrange(n0, j) == word);
                assert(lexeme_of(g, word, n0) == Ok::<Lexeme, ParseError>(first));
            },
        }
    }
}

/// A separator that is found is one of the grammar's separators.
pub proof fn lemma_separator_found(g: GrammarView, c: char, from: int)
    requires
        separator_index(g, c, from) is Some,
    ensures
        from <= separator_index(g, c, from)->Some_0 < g.separators.len(),
        g.separators[separator_index(g, c, from)->Some_0] == c,
    decreases g.separators.len() - from,
{
    if from < 0 || from >= g.separators.len() {
    } else if g.separators[from] == c {
    } else {
        lemma_separator_found(g, c, from + 1);
    }
}

/// A keyword that is found is one of the grammar's keywords, and the same
/// word as the one looked up.
pub proof fn lemma_keyword_found(g: GrammarView, word: Seq<char>, from: int)
    requires
        keyword_index(g, word, from) is Some,
    ensures
        from <= keyword_index(g, word, from)->Some_0 < g.keywords.len(),
        same_word(g.keywords[keyword_index(g, word, from)->Some_0], word, g.ignore_case),
    decreases g.keywords.len() - from,
{
    if from < 0 || from >= g.keywords.len() {
    } else if same_word(g.keywords[from], word, g.ignore_case) {
    } else {
        lemma_keyword_found(g, word, from + 1);
    }
}

/// Every lexeme that the pass yields from `i` on is a lexeme of the
/// grammar.
pub proof fn lemma_lexemes_valid_from(p: Seq<char>, g: GrammarView, i: int)
    requires
        0 <= i <= p.len(),
        lex_from(p, g, i) is Ok,
    ensures
        forall|m: int|
            0 <= m < lex_from(p, g, i)->Ok_0.len() ==> valid_lexeme(
                g,
                #[trigger] lex_from(p, g, i)->Ok_0[m],
            ),
    decreases p.len() - i,
{
    if i < p.len() {
        if p[i] == ' ' {
            lemma_lexemes_valid_from(p, g, i + 1);
        } else if is_alnum(p[i]) {
            let j = run_end(p, i);
            lemma_run_end(p, i);
            let word = p.subrange(i, j);
            lemma_lexemes_valid_from(p, g, j);
            if !all_digits(word) {
                lemma_keyword_found(g, word, 0);
            }
        } else {
            lemma_separator_found(g, p[i], 0);
            lemma_lexemes_valid_from(p, g, i + 1);
        }
    }
}

/// Every lexeme of a line is a lexeme of the grammar.
pub proof fn lemma_lexemes_valid(s: Seq<char>, g: GrammarView)
    requires
        lexemes_of(s, g) is Ok,
    ensures
        forall|m: int|
            0 <= m < lexemes_of(s, g)->Ok_0.len() ==> valid_lexeme(
                g,
                #[trigger] lexemes_of(s, g)->Ok_0[m],
            ),
{
    lemma_lexemes_valid_from(s.push(' '), g, 0);
}

/// The line that spells lexemes of a well-formed grammar holds characters
/// of the grammar's alphabet only.
pub proof fn lemma_render_alphabet(g: GrammarView, ls: Seq<Lexeme>, gaps: Seq<nat>)
    requires
        well_formed(g),
        gaps.len() == ls.len(),
        forall|m: int| 0 <= m < ls.len() ==> valid_lexeme(g, #[trigger] ls[m]),
    ensures
        forall|i: int|
            0 <= i < render(g, ls, gaps).len() ==> in_alphabet(g, #[trigger] render(g, ls, gaps)[i]),
    decreases ls.len(),
{
    if ls.len() > 0 {
        let more = ls.drop_first();
        let gap = blanks(gaps[0]);
        let word = text_of(g, ls[0]);
        let tail = render(g, more, gaps.drop_first());
        assert forall|m: int| 0 <= m < more.len() implies valid_lexeme(g, #[trigger] more[m]) by {
            assert(more[m] == ls[m + 1]);
        }
        lemma_render_alphabet(g, more, gaps.drop_first());
        assert(valid_lexeme(g, ls[0]));
        match ls[0] {
            Lexeme::Number(v) => {
                lemma_digits_of(v as nat);
            },
            _ => {},
        }
        let t = render(g, ls, gaps);
        assert forall|i: int| 0 <= i < t.len() implies in_alphabet(g, #[trigger] t[i]) by {
            if i < gap.len() {
                assert(t[i] == gap[i]);
            } else if i < gap.len() + word.len() {
                assert(t[i] == word[i - gap.len()]);
            } else {
                assert(t[i] == tail[i - gap.len() - word.len()]);
            }
        }
    }
}

/// The lexemes of a line are a function of its characters and of the
/// grammar: the same line under the same grammar has the same lexemes, or
/// the same error.
pub proof fn lemma_same_line_same_lexemes(a: Seq<char>, b: Seq<char>, g: GrammarView, h: GrammarView)
    requires
        a == b,
        g == h,
    ensures
        lexemes_of(a, g) == lexemes_of(b, h),
{
}

} // verus!
