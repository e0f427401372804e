//! Engine schematics: a grid of characters in which each run of digits is a
//! number, `.` is blank and every other character is a symbol. A number
//! next to a symbol is a part number, and two part numbers at the same `*`
//! form a gear.

use vstd::prelude::*;
use crate::error::{followed_by, ParseError};
use crate::tally::{lemma_sum_grows, none_negative, sum_of};
use crate::text::{
    chars_of, decimal_value, digit, digits_end, end_of_digits, is_digit, lemma_digits_end, lines_of,
    parse_decimal, split_lines, views,
};

verus! {

/// The character that stands for an empty cell.
pub const BLANK: char = '.';

/// The kind of a symbol.
#[derive(Debug, Clone, Copy, PartialEq, Eq, Structural)]
pub enum TokenType {
    /// The symbol `*`.
    Asterisk,
    /// Any other symbol.
    Any,
}

/// A symbol and the cell that holds it.
#[derive(Debug, Clone, Copy, PartialEq, Eq, Structural)]
pub struct SymbolToken {
    pub token_type: TokenType,
    pub row: i64,
    pub col: i64,
}

impl SymbolToken {
    /// The symbol of the kind `token_type` in the cell at `row` and `col`.
    pub fn new(row: i64, col: i64, token_type: TokenType) -> (token: SymbolToken)
        ensures
            token == (SymbolToken { token_type, row, col }),
    {
        SymbolToken { token_type, row, col }
    }
}

/// A number, the cells that hold its digits, and the symbol that makes it a
/// part number, if one was found.
#[derive(Debug, Clone, Copy, PartialEq, Eq, Structural)]
pub struct NumberToken {
    /// What the digits denote.
    pub value: usize,
    /// How many digits there are.
    pub length: usize,
    /// The row of the digits.
    pub row: i64,
    /// The column of the first digit.
    pub col: i64,
    /// The symbol next to the number.
    pub symbol_token: Option<SymbolToken>,
}

impl NumberToken {
    /// The number `value`, written in `length` digits from the cell at `row`
    /// and `col` on, with no symbol known next to it.
    pub fn new(value: usize, length: usize, row: i64, col: i64) -> (token: NumberToken)
        ensures
            token == (NumberToken { value, length, row, col, symbol_token: None }),
    {
        NumberToken { value, length, row, col, symbol_token: None }
    }

    /// The symbol next to the number, if one was found.
    pub fn symbol_token(&self) -> (symbol: Option<SymbolToken>)
        ensures
            symbol == self.symbol_token,
    {
        self.symbol_token
    }

    /// What the digits denote.
    pub fn value(&self) -> (value: usize)
        ensures
            value == self.value,
    {
        self.value
    }

    /// How many digits there are.
    pub fn length(&self) -> (length: usize)
        ensures
            length == self.length,
    {
        self.length
    }
}

/// A number next to a symbol.
#[derive(Debug, Clone, Copy, PartialEq, Eq, Structural)]
pub struct PartNumber(pub NumberToken);

/// Two part numbers at the same `*`.
#[derive(Debug, Clone, Copy)]
pub struct Gear {
    pub part_numbers: (NumberToken, NumberToken),
}

impl Gear {
    /// The gear of two part numbers.
    pub fn new(part_number_1: NumberToken, part_number_2: NumberToken) -> (gear: Gear)
        ensures
            gear == (Gear { part_numbers: (part_number_1, part_number_2) }),
    {
        Gear { part_numbers: (part_number_1, part_number_2) }
    }

    /// The product of the two part numbers.
    pub fn ratio(&self) -> (ratio: usize)
        requires
            self.part_numbers.0.value * self.part_numbers.1.value <= usize::MAX,
        ensures
            ratio == self.part_numbers.0.value * self.part_numbers.1.value,
    {
        self.part_numbers.0.value() * self.part_numbers.1.value()
    }
}

/// The number tokens of a grid from the cell at row `r` and column `i` on,
/// row by row and from left to right: each maximal run of digits in a row is
/// one token, with its value, the number of its digits, its row and the
/// column of its first digit. A run whose value does not fit `usize` is out
/// of range; `at` is the column of its first digit.
pub open spec fn numbers_from(grid: Seq<Seq<char>>, r: int, i: int) -> Result<
    Seq<NumberToken>,
    ParseError,
>
    decreases grid.len() - r, (if 0 <= r < grid.len() { grid[r].len() - i } else { 0 }),
{
    if r < 0 || r >= grid.len() {
        Ok(Seq::empty())
    } else if i < 0 || i >= grid[r].len() {
        numbers_from(grid, r + 1, 0)
    } else if is_digit(grid[r][i]) {
        let j = digits_end(grid[r], i);
        let value = decimal_value(grid[r].subrange(i, j));
        if value > usize::MAX {
            Err(ParseError::NumberOutOfRange { at: i as usize })
        } else {
            proof {
                lemma_digits_end(grid[r], i);
            }
            followed_by(
                seq![
                    NumberToken {
                        value: value as usize,
                        length: (j - i) as usize,
                        row: r as i64,
                        col: i as i64,
                        symbol_token: None,
                    },
                ],
                numbers_from(grid, r, j),
            )
        }
    } else {
        numbers_from(grid, r, i + 1)
    }
}

/// The kind of the symbol `c`.
pub open spec fn kind_of(c: char) -> TokenType {
    if c == '*' {
        TokenType::Asterisk
    } else {
        TokenType::Any
    }
}

/// The symbol tokens of a grid from the cell at row `r` and column `i` on,
/// row by row and from left to right: each cell that holds neither a digit
/// nor the blank is one token.
pub open spec fn symbols_from(grid: Seq<Seq<char>>, r: int, i: int) -> Seq<SymbolToken>
    decreases grid.len() - r, (if 0 <= r < grid.len() { grid[r].len() - i } else { 0 }),
{
    if r < 0 || r >= grid.len() {
        Seq::empty()
    } else if i < 0 || i >= grid[r].len() {
        symbols_from(grid, r + 1, 0)
    } else if !is_digit(grid[r][i]) && grid[r][i] != BLANK {
        seq![SymbolToken { token_type: kind_of(grid[r][i]), row: r as i64, col: i as i64 }]
            + symbols_from(grid, r, i + 1)
    } else {
        symbols_from(grid, r, i + 1)
    }
}

/// No symbol stands among digits.
pub proof fn lemma_no_symbols_in_digits(grid: Seq<Seq<char>>, r: int, i: int, j: int)
    requires
        0 <= r < grid.len(),
        0 <= i <= j <= grid[r].len(),
        forall|k: int| i <= k < j ==> is_digit(#[trigger] grid[r][k]),
    ensures
        symbols_from(grid, r, i) == symbols_from(grid, r, j),
    decreases j - i,
{
    if i < j {
        lemma_no_symbols_in_digits(grid, r, i + 1, j);
    }
}

/// The symbol `symbol` is next to the number `number`: in its row or in
/// the row above or below, and in one of the columns from the one before
/// its first digit to the one after its last digit.
pub open spec fn adjacent(symbol: SymbolToken, number: NumberToken) -> bool {
    &&& number.row - 1 <= symbol.row <= number.row + 1
    &&& number.col - 1 <= symbol.col <= number.col + number.length
}

/// The first of the symbols at or after the index `from` that is next to
/// `number`, if there is one.
pub open spec fn first_adjacent(symbols: Seq<SymbolToken>, number: NumberToken, from: int) -> Option<
    SymbolToken,
>
    decreases symbols.len() - from,
{
    if from < 0 || from >= symbols.len() {
        None
    } else if adjacent(symbols[from], number) {
        Some(symbols[from])
    } else {
        first_adjacent(symbols, number, from + 1)
    }
}

/// The part numbers among `numbers`, in their order: each number that is
/// next to one of `symbols`, with the first such symbol.
pub open spec fn part_numbers_of(numbers: Seq<NumberToken>, symbols: Seq<SymbolToken>) -> Seq<
    PartNumber,
>
    decreases numbers.len(),
{
    if numbers.len() == 0 {
        Seq::empty()
    } else {
        let before = part_numbers_of(numbers.drop_last(), symbols);
        match first_adjacent(symbols, numbers.last(), 0) {
            Some(symbol) => before.push(
                PartNumber(NumberToken { symbol_token: Some(symbol), ..numbers.last() }),
            ),
            None => before,
        }
    }
}

/// The part number stands at a `*`.
pub open spec fn at_asterisk(part: PartNumber) -> bool {
    part.0.symbol_token matches Some(symbol) && symbol.token_type == TokenType::Asterisk
}

/// The part numbers at a `*`, in their order.
pub open spec fn at_asterisks(parts: Seq<PartNumber>) -> Seq<NumberToken>
    decreases parts.len(),
{
    if parts.len() == 0 {
        Seq::empty()
    } else {
        let before = at_asterisks(parts.drop_last());
        if at_asterisk(parts.last()) {
            before.push(parts.last().0)
        } else {
            before
        }
    }
}

/// The gears of the pairs of `numbers` from the pair at `i` and `j` on,
/// where the pairs are taken with the first number in order and, for each,
/// the second number after it in order: a pair with the same symbol is a
/// gear.
pub open spec fn gears_from(numbers: Seq<NumberToken>, i: int, j: int) -> Seq<Gear>
    decreases numbers.len() - i, numbers.len() - j,
{
    if i < 0 || i >= numbers.len() {
        Seq::empty()
    } else if j < 0 || j >= numbers.len() {
        gears_from(numbers, i + 1, i + 2)
    } else if numbers[i].symbol_token == numbers[j].symbol_token {
        seq![Gear { part_numbers: (numbers[i], numbers[j]) }] + gears_from(numbers, i, j + 1)
    } else {
        gears_from(numbers, i, j + 1)
    }
}

/// The gears among the part numbers `parts`.
pub open spec fn gears_of(parts: Seq<PartNumber>) -> Seq<Gear> {
    gears_from(at_asterisks(parts), 0, 1)
}

/// The values of the part numbers.
pub open spec fn part_values(parts: Seq<PartNumber>) -> Seq<int> {
    Seq::new(parts.len(), |k: int| parts[k].0.value as int)
}

/// The ratios of the gears: for each gear, the product of its two part
/// numbers.
pub open spec fn gear_ratios(gears: Seq<Gear>) -> Seq<int> {
    Seq::new(gears.len(), |k: int| gears[k].part_numbers.0.value * gears[k].part_numbers.1.value)
}

/// A row of a schematic: the line between two blanks.
pub open spec fn framed(line: Seq<char>) -> Seq<char> {
    seq![BLANK] + line + seq![BLANK]
}

/// The grid of a text: its lines, each between two blanks.
pub open spec fn grid_of(s: Seq<char>) -> Seq<Seq<char>> {
    Seq::new(lines_of(s).len(), |k: int| framed(lines_of(s)[k]))
}

/// A schematic: the grid, the tokens found in it, and what was made of
/// them.
#[derive(Debug)]
pub struct Schematic {
    pub data: Vec<Vec<char>>,
    pub number_tokens: Vec<NumberToken>,
    pub symbol_tokens: Vec<SymbolToken>,
    pub part_numbers: Vec<PartNumber>,
    pub gears: Vec<Gear>,
}

/// A schematic as plain mathematical values.
pub ghost struct SchematicView {
    pub grid: Seq<Seq<char>>,
    pub number_tokens: Seq<NumberToken>,
    pub symbol_tokens: Seq<SymbolToken>,
    pub part_numbers: Seq<PartNumber>,
    pub gears: Seq<Gear>,
}

impl View for Schematic {
    type V = SchematicView;

    open spec fn view(&self) -> SchematicView {
        SchematicView {
            grid: views(self.data@),
            number_tokens: self.number_tokens@,
            symbol_tokens: self.symbol_tokens@,
            part_numbers: self.part_numbers@,
            gears: self.gears@,
        }
    }
}

/// The schematic of a text: its grid, the tokens of the grid, the part
/// numbers among the number tokens and the gears among the part numbers; or
/// the error of the first number that is out of range.
pub open spec fn schematic_of(s: Seq<char>) -> Result<SchematicView, ParseError> {
    let grid = grid_of(s);
    match numbers_from(grid, 0, 0) {
        Err(e) => Err(e),
        Ok(numbers) => {
            let symbols = symbols_from(grid, 0, 0);
            let parts = part_numbers_of(numbers, symbols);
            Ok(
                SchematicView {
                    grid,
                    number_tokens: numbers,
                    symbol_tokens: symbols,
                    part_numbers: parts,
                    gears: gears_of(parts),
                },
            )
        },
    }
}

impl Default for Schematic {
    fn default() -> (schematic: Schematic)
        ensures
            schematic@ == (SchematicView {
                grid: Seq::empty(),
                number_tokens: Seq::empty(),
                symbol_tokens: Seq::empty(),
                part_numbers: Seq::empty(),
                gears: Seq::empty(),
            }),
    {
        let schematic = Schematic {
            data: Vec::new(),
            number_tokens: Vec::new(),
            symbol_tokens: Vec::new(),
            part_numbers: Vec::new(),
            gears: Vec::new(),
        };
        assert(views(schematic.data@) == Seq::<Seq<char>>::empty());
        schematic
    }
}

impl Schematic {
    /// A schematic with the grid of the text `v` and nothing else.
    pub fn from(v: &str) -> (schematic: Schematic)
        ensures
            schematic@ == (SchematicView {
                grid: grid_of(v@),
                number_tokens: Seq::empty(),
                symbol_tokens: Seq::empty(),
                part_numbers: Seq::empty(),
                gears: Seq::empty(),
            }),
    {
        let chars = chars_of(v);
        let lines = split_lines(&chars);
        let mut data: Vec<Vec<char>> = Vec::new();
        let mut k: usize = 0;
        while k < lines.len()
            invariant
                0 <= k <= lines.len(),
                views(lines@) == lines_of(v@),
                data.len() == k,
                forall|m: int| 0 <= m < k ==> (#[trigger] data@[m])@ == framed(lines_of(v@)[m]),
            decreases lines.len() - k,
        {
            let line = &lines[k];
            assert(views(lines@)[k as int] == line@);
            let mut row: Vec<char> = Vec::new();
            row.push(BLANK);
            let mut i: usize = 0;
            while i < line.len()
                invariant
                    0 <= i <= line.len(),
                    row@ == seq![BLANK] + line@.take(i as int),
                decreases line.len() - i,
            {
                row.push(line[i]);
                assert(line@.take(i + 1) == line@.take(i as int).push(line@[i as int]));
                i += 1;
            }
            assert(line@.take(line.len() as int) == line@);
            row.push(BLANK);
            data.push(row);
            k += 1;
        }
        let schematic = Schematic {
            data,
            number_tokens: Vec::new(),
            symbol_tokens: Vec::new(),
            part_numbers: Vec::new(),
            gears: Vec::new(),
        };
        assert(views(schematic.data@) == grid_of(v@));
        schematic
    }

    /// Finds the tokens of the grid and puts them after the tokens that the
    /// schematic holds. Nothing changes where a number is out of range.
    pub fn tokenize(&mut self) -> (r: Result<(), ParseError>)
        ensures
            match r {
                Ok(_) => numbers_from(old(self)@.grid, 0, 0) is Ok && final(self)@ == (SchematicView {
                    number_tokens: old(self)@.number_tokens + numbers_from(old(self)@.grid, 0, 0)->Ok_0,
                    symbol_tokens: old(self)@.symbol_tokens + symbols_from(old(self)@.grid, 0, 0),
                    ..old(self)@
                }),
                Err(e) => numbers_from(old(self)@.grid, 0, 0) == Err::<Seq<NumberToken>, ParseError>(
                    e,
                ) && *final(self) == *old(self),
            },
    {
        let ghost grid = self@.grid;
        let mut numbers: Vec<NumberToken> = Vec::new();
        let mut symbols: Vec<SymbolToken> = Vec::new();
        let mut r: usize = 0;
        assert(Seq::<SymbolToken>::empty() + symbols_from(grid, 0, 0) == symbols_from(grid, 0, 0));
        proof {
            if let Ok(all) = numbers_from(grid, 0, 0) {
                assert(Seq::<NumberToken>::empty() + all == all);
            }
        }
        while r < self.data.len()
            invariant
                0 <= r <= self.data.len(),
                *self == *old(self),
                grid == views(self.data@),
                numbers_from(grid, 0, 0) == followed_by(numbers@, numbers_from(grid, r as int, 0)),
                symbols_from(grid, 0, 0) == symbols@ + symbols_from(grid, r as int, 0),
            decreases self.data.len() - r,
        {
            let row = &self.data[r];
            assert(grid[r as int] == row@);
            let mut i: usize = 0;
            while i < row.len()
                invariant
                    0 <= r < self.data.len(),
                    0 <= i <= row.len(),
                    grid == views(self.data@),
                    grid[r as int] == row@,
                    numbers_from(grid, 0, 0) == followed_by(
                        numbers@,
                        numbers_from(grid, r as int, i as int),
                    ),
                    symbols_from(grid, 0, 0) == symbols@ + symbols_from(grid, r as int, i as int),
                decreases row.len() - i,
            {
                let c = row[i];
                if digit(c) {
                    let j = end_of_digits(row, i);
                    proof {
                        lemma_digits_end(row@, i as int);
                        lemma_no_symbols_in_digits(grid, r as int, i as int, j as int);
                    }
                    match parse_decimal(row, i, j, usize::MAX as u64) {
                        None => {
                            return Err(ParseError::NumberOutOfRange { at: i });
                        },
                        Some(value) => {
                            let token = NumberToken {
                                value: value as usize,
                                length: j - i,
                                row: r as i64,
                                col: i as i64,
                                symbol_token: None,
                            };
                            proof {
                                if let Ok(more) = numbers_from(grid, r as int, j as int) {
                                    assert(numbers@ + (seq![token] + more) == numbers@.push(token)
                                        + more);
                                }
                            }
                            numbers.push(token);
                        },
                    }
                    i = j;
                } else {
                    if c != BLANK {
                        let token = SymbolToken::new(
                            r as i64,
                            i as i64,
                            if c == '*' {
                                TokenType::Asterisk
                            } else {
                                TokenType::Any
                            },
                        );
                        assert(symbols@ + (seq![token] + symbols_from(grid, r as int, i + 1))
                            == symbols@.push(token) + symbols_from(grid, r as int, i + 1));
                        symbols.push(token);
                    }
                    i += 1;
                }
            }
            r += 1;
        }
        proof {
            assert(numbers@ + Seq::<NumberToken>::empty() == numbers@);
            assert(symbols@ + Seq::<SymbolToken>::empty() == symbols@);
        }
        self.number_tokens.append(&mut numbers);
        self.symbol_tokens.append(&mut symbols);
        Ok(())
    }

    /// The first symbol of the schematic that is next to the number, if
    /// there is one.
    pub fn is_next_to_symbol(&self, number_token: &NumberToken) -> (symbol: Option<SymbolToken>)
        ensures
            symbol == first_adjacent(self.symbol_tokens@, *number_token, 0),
    {
        let mut k: usize = 0;
        while k < self.symbol_tokens.len()
            invariant
                0 <= k <= self.symbol_tokens.len(),
                first_adjacent(self.symbol_tokens@, *number_token, 0) == first_adjacent(
                    self.symbol_tokens@,
                    *number_token,
                    k as int,
                ),
            decreases self.symbol_tokens.len() - k,
        {
            let symbol = self.symbol_tokens[k];
            let row = symbol.row as i128;
            let col = symbol.col as i128;
            let number_row = number_token.row as i128;
            let number_col = number_token.col as i128;
            if row >= number_row - 1 && row <= number_row + 1 {
                if col >= number_col - 1 && col <= number_col + number_token.length as i128 {
                    return Some(symbol);
                }
            }
            k += 1;
        }
        None
    }

    /// Finds the part numbers among the number tokens and puts them after
    /// the part numbers that the schematic holds.
    pub fn find_part_numbers(&mut self)
        ensures
            final(self)@ == (SchematicView {
                part_numbers: old(self)@.part_numbers + part_numbers_of(
                    old(self)@.number_tokens,
                    old(self)@.symbol_tokens,
                ),
                ..old(self)@
            }),
    {
        let ghost numbers = self.number_tokens@;
        let ghost symbols = self.symbol_tokens@;
        let mut found: Vec<PartNumber> = Vec::new();
        let mut k: usize = 0;
        assert(numbers.take(0) == Seq::<NumberToken>::empty());
        while k < self.number_tokens.len()
            invariant
                0 <= k <= self.number_tokens.len(),
                *self == *old(self),
                numbers == self.number_tokens@,
                symbols == self.symbol_tokens@,
                found@ == part_numbers_of(numbers.take(k as int), symbols),
            decreases self.number_tokens.len() - k,
        {
            let number_token = self.number_tokens[k];
            assert(numbers.take(k + 1).drop_last() == numbers.take(k as int));
            if let Some(symbol_token) = self.is_next_to_symbol(&number_token) {
                found.push(
                    PartNumber(
                        NumberToken {
                            value: number_token.value,
                            length: number_token.length,
                            row: number_token.row,
                            col: number_token.col,
                            symbol_token: Some(symbol_token),
                        },
                    ),
                );
            }
            k += 1;
        }
        assert(numbers.take(numbers.len() as int) == numbers);
        self.part_numbers.append(&mut found);
    }

    /// Finds the gears among the part numbers and puts them after the gears
    /// that the schematic holds.
    pub fn find_gears(&mut self)
        ensures
            final(self)@ == (SchematicView {
                gears: old(self)@.gears + gears_of(old(self)@.part_numbers),
                ..old(self)@
            }),
    {
        let ghost parts = self.part_numbers@;
        let mut possible_gears: Vec<NumberToken> = Vec::new();
        let mut k: usize = 0;
        assert(parts.take(0) == Seq::<PartNumber>::empty());
        while k < self.part_numbers.len()
            invariant
                0 <= k <= self.part_numbers.len(),
                *self == *old(self),
                parts == self.part_numbers@,
                possible_gears@ == at_asterisks(parts.take(k as int)),
            decreases self.part_numbers.len() - k,
        {
            let part = self.part_numbers[k];
            assert(parts.take(k + 1).drop_last() == parts.take(k as int));
            let is_candidate = match part.0.symbol_token {
                Some(symbol) => symbol.token_type == TokenType::Asterisk,
                None => false,
            };
            if is_candidate {
                possible_gears.push(part.0);
            }
            k += 1;
        }
        assert(parts.take(parts.len() as int) == parts);
        let ghost numbers = possible_gears@;
        let mut found: Vec<Gear> = Vec::new();
        let mut i: usize = 0;
        assert(Seq::<Gear>::empty() + gears_from(numbers, 0, 1) == gears_from(numbers, 0, 1));
        while i < possible_gears.len()
            invariant
                0 <= i <= possible_gears.len(),
                numbers == possible_gears@,
                gears_from(numbers, 0, 1) == found@ + gears_from(numbers, i as int, i + 1),
            decreases possible_gears.len() - i,
        {
            let first = possible_gears[i];
            let mut j: usize = i + 1;
            while j < possible_gears.len()
                invariant
                    0 <= i < possible_gears.len(),
                    i < j <= possible_gears.len(),
                    numbers == possible_gears@,
                    first == numbers[i as int],
                    gears_from(numbers, 0, 1) == found@ + gears_from(numbers, i as int, j as int),
                decreases possible_gears.len() - j,
            {
                let second = possible_gears[j];
                let same = match (first.symbol_token, second.symbol_token) {
                    (Some(a), Some(b)) => a == b,
                    (None, None) => true,
                    _ => false,
                };
                assert(same == (first.symbol_token == second.symbol_token));
                if same {
                    let gear = Gear::new(first, second);
                    assert(found@ + (seq![gear] + gears_from(numbers, i as int, j + 1)) == found@.push(
                        gear,
                    ) + gears_from(numbers, i as int, j + 1));
                    found.push(gear);
                }
                j += 1;
            }
            i += 1;
        }
        assert(found@ + Seq::<Gear>::empty() == found@);
        self.gears.append(&mut found);
    }

    /// The sum of the part numbers; `None` where the sum does not fit
    /// `usize`.
    pub fn sum_of_part_numbers(&self) -> (sum: Option<usize>)
        ensures
            sum == if sum_of(part_values(self.part_numbers@), self.part_numbers@.len() as int)
                <= usize::MAX {
                Some(
                    sum_of(part_values(self.part_numbers@), self.part_numbers@.len() as int) as usize,
                )
            } else {
                None
            },
    {
        let ghost terms = part_values(self.part_numbers@);
        let mut sum: usize = 0;
        let mut k: usize = 0;
        while k < self.part_numbers.len()
            invariant
                0 <= k <= self.part_numbers.len(),
                terms == part_values(self.part_numbers@),
                sum == sum_of(terms, k as int),
            decreases self.part_numbers.len() - k,
        {
            match sum.checked_add(self.part_numbers[k].0.value()) {
                Some(more) => {
                    sum = more;
                },
                None => {
                    proof {
                        lemma_sum_grows(terms, k + 1, self.part_numbers@.len() as int);
                    }
                    return None;
                },
            }
            k += 1;
        }
        Some(sum)
    }

    /// The sum of the ratios of the gears; `None` where a ratio or the sum
    /// does not fit `usize`.
    pub fn sum_of_gear_ratios(&self) -> (sum: Option<usize>)
        ensures
            sum == if sum_of(gear_ratios(self.gears@), self.gears@.len() as int) <= usize::MAX {
                Some(sum_of(gear_ratios(self.gears@), self.gears@.len() as int) as usize)
            } else {
                None
            },
    {
        let ghost terms = gear_ratios(self.gears@);
        let mut sum: usize = 0;
        let mut k: usize = 0;
        assert(none_negative(terms)) by {
            assert forall|m: int| 0 <= m < terms.len() implies #[trigger] terms[m] >= 0 by {
                let gear = self.gears@[m];
                assert(gear.part_numbers.0.value * gear.part_numbers.1.value >= 0)
                    by (nonlinear_arith)
                    requires
                        gear.part_numbers.0.value >= 0,
                        gear.part_numbers.1.value >= 0,
                ;
            }
        }
        while k < self.gears.len()
            invariant
                0 <= k <= self.gears.len(),
                terms == gear_ratios(self.gears@),
                none_negative(terms),
                sum == sum_of(terms, k as int),
            decreases self.gears.len() - k,
        {
            let gear = self.gears[k];
            let ratio = gear.part_numbers.0.value().checked_mul(gear.part_numbers.1.value());
            let next = match ratio {
                Some(ratio) => sum.checked_add(ratio),
                None => None,
            };
            match next {
                Some(more) => {
                    sum = more;
                },
                None => {
                    proof {
                        lemma_sum_grows(terms, k + 1, self.gears@.len() as int);
                        lemma_sum_grows(terms, 0, k as int);
                    }
                    return None;
                },
            }
            k += 1;
        }
        Some(sum)
    }

    /// Reads a schematic: the grid of the text, its tokens, the part numbers
    /// and the gears.
    ///
    /// Fails with `NumberOutOfRange` at the first run of digits, row by row
    /// and from left to right, whose value does not fit `usize`.
    pub fn from_string(s: &str) -> (r: Result<Schematic, ParseError>)
        ensures
            match r {
                Ok(schematic) => schematic_of(s@) == Ok::<SchematicView, ParseError>(schematic@),
                Err(e) => schematic_of(s@) == Err::<SchematicView, ParseError>(e),
            },
    {
        let mut schematic = Schematic::from(s);
        schematic.tokenize()?;
        proof {
            let grid = grid_of(s@);
            assert(Seq::<NumberToken>::empty() + numbers_from(grid, 0, 0)->Ok_0 == numbers_from(
                grid,
                0,
                0,
            )->Ok_0);
            assert(Seq::<SymbolToken>::empty() + symbols_from(grid, 0, 0) == symbols_from(grid, 0, 0));
        }
        schematic.find_part_numbers();
        proof {
            let parts = part_numbers_of(schematic@.number_tokens, schematic@.symbol_tokens);
            assert(Seq::<PartNumber>::empty() + parts == parts);
        }
        schematic.find_gears();
        proof {
            let gears = gears_of(schematic@.part_numbers);
            assert(Seq::<Gear>::empty() + gears == gears);
        }
        Ok(schematic)
    }
}

/// The schematic of a text is a function of its characters: the same text
/// has the same schematic, or the same error.
pub proof fn lemma_same_text_same_schematic(a: Seq<char>, b: Seq<char>)
    requires
        a == b,
    ensures
        schematic_of(a) == schematic_of(b),
{
}

} // verus!
