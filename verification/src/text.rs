//! Character classes, decimal numbers, and the lines of a text.

use vstd::prelude::*;
use vstd::string::StringExecFns;
use crate::error::ParseError;

verus! {

/// `c` is one of the ten decimal digits.
pub open spec fn is_digit(c: char) -> bool {
    '0' <= c && c <= '9'
}

/// `c` is an ASCII letter.
pub open spec fn is_letter(c: char) -> bool {
    ('a' <= c && c <= 'z') || ('A' <= c && c <= 'Z')
}

/// `c` is an ASCII letter or a decimal digit.
pub open spec fn is_alnum(c: char) -> bool {
    is_digit(c) || is_letter(c)
}

/// The number that the digit `c` stands for.
pub open spec fn digit_value(c: char) -> nat {
    (c as int - '0' as int) as nat
}

/// The digit that stands for `d`, for `d` below ten.
pub open spec fn digit_char(d: nat) -> char {
    (d + '0' as nat) as char
}

/// Every character of `s` is a decimal digit.
pub open spec fn all_digits(s: Seq<char>) -> bool {
    forall|i: int| 0 <= i < s.len() ==> is_digit(#[trigger] s[i])
}

/// The number that `s` denotes when read as decimal digits, most significant
/// first. The empty sequence denotes zero.
pub open spec fn decimal_value(s: Seq<char>) -> nat
    decreases s.len(),
{
    if s.len() == 0 {
        0
    } else {
        decimal_value(s.drop_last()) * 10 + digit_value(s.last())
    }
}

/// The decimal digits of `n`, most significant first, without leading zeros
/// (zero itself is the single digit `0`).
pub open spec fn digits_of(n: nat) -> Seq<char>
    decreases n,
{
    if n < 10 {
        seq![digit_char(n)]
    } else {
        digits_of(n / 10).push(digit_char(n % 10))
    }
}

/// Appending a digit multiplies the value by ten and adds the digit.
pub proof fn lemma_decimal_push(s: Seq<char>, c: char)
    ensures
        decimal_value(s.push(c)) == decimal_value(s) * 10 + digit_value(c),
{
    assert(s.push(c).drop_last() == s);
}

/// A prefix of a number never denotes more than the whole.
pub proof fn lemma_decimal_prefix(s: Seq<char>, k: int)
    requires
        0 <= k <= s.len(),
    ensures
        decimal_value(s.take(k)) <= decimal_value(s),
    decreases s.len(),
{
    if k < s.len() {
        lemma_decimal_prefix(s.drop_last(), k);
        assert(s.drop_last().take(k) == s.take(k));
    } else {
        assert(s.take(k) == s);
    }
}

/// The digits of a number are digits, there is at least one of them, they
/// start with `0` only for zero, and they denote the number.
pub proof fn lemma_digits_of(n: nat)
    ensures
        digits_of(n).len() >= 1,
        all_digits(digits_of(n)),
        decimal_value(digits_of(n)) == n,
        n > 0 ==> digits_of(n)[0] != '0',
    decreases n,
{
    if n < 10 {
        let s = seq![digit_char(n)];
        assert(s.drop_last() == Seq::<char>::empty());
        assert(decimal_value(s.drop_last()) == 0);
        assert(s.last() == digit_char(n));
    } else {
        lemma_digits_of(n / 10);
        lemma_decimal_push(digits_of(n / 10), digit_char(n % 10));
    }
}

/// Tells whether `c` is a decimal digit.
pub fn digit(c: char) -> (b: bool)
    ensures
        b == is_digit(c),
{
    '0' <= c && c <= '9'
}

/// Tells whether `c` is an ASCII letter.
pub fn letter(c: char) -> (b: bool)
    ensures
        b == is_letter(c),
{
    ('a' <= c && c <= 'z') || ('A' <= c && c <= 'Z')
}

/// The number that the digit `c` stands for.
pub fn value_of_digit(c: char) -> (d: u64)
    requires
        is_digit(c),
    ensures
        d == digit_value(c),
        d <= 9,
{
    (c as u32 - '0' as u32) as u64
}

/// The digit that stands for `d`.
pub fn char_of_digit(d: u8) -> (c: char)
    requires
        d < 10,
    ensures
        c == digit_char(d as nat),
        is_digit(c),
{
    (d + 48u8) as char
}

/// Tells whether the characters of `chars` from `start` up to `end` are all
/// decimal digits.
pub fn digits_only(chars: &Vec<char>, start: usize, end: usize) -> (b: bool)
    requires
        start <= end <= chars.len(),
    ensures
        b == all_digits(chars@.subrange(start as int, end as int)),
{
    let ghost sub = chars@.subrange(start as int, end as int);
    let mut i: usize = start;
    while i < end
        invariant
            start <= i <= end <= chars.len(),
            sub == chars@.subrange(start as int, end as int),
            forall|k: int| 0 <= k < i - start ==> is_digit(#[trigger] sub[k]),
        decreases end - i,
    {
        if !digit(chars[i]) {
            assert(!is_digit(sub[i - start]));
            return false;
        }
        i += 1;
    }
    true
}

/// Reads the digits of `chars` from `start` up to `end` as a decimal number.
/// Returns the number if it is at most `max`, and `None` if it is larger.
pub fn parse_decimal(chars: &Vec<char>, start: usize, end: usize, max: u64) -> (r: Option<u64>)
    requires
        start <= end <= chars.len(),
        all_digits(chars@.subrange(start as int, end as int)),
    ensures
        r == if decimal_value(chars@.subrange(start as int, end as int)) <= max {
            Some(decimal_value(chars@.subrange(start as int, end as int)) as u64)
        } else {
            None
        },
{
    let ghost sub = chars@.subrange(start as int, end as int);
    let mut acc: u64 = 0;
    let mut i: usize = start;
    assert(sub.take(0) == Seq::<char>::empty());
    while i < end
        invariant
            start <= i <= end <= chars.len(),
            sub == chars@.subrange(start as int, end as int),
            all_digits(sub),
            acc == decimal_value(sub.take(i - start)),
            acc <= max,
        decreases end - i,
    {
        assert(chars[i as int] == sub[i - start]);
        let d = value_of_digit(chars[i]);
        proof {
            let k = i - start;
            assert(sub.take(k + 1) == sub.take(k).push(sub[k]));
            lemma_decimal_push(sub.take(k), sub[k]);
            lemma_decimal_prefix(sub, k + 1);
        }
        if d > max || acc > (max - d) / 10 {
            assert(acc * 10 + d > max);
            return None;
        }
        acc = acc * 10 + d;
        i += 1;
    }
    assert(sub.take(end - start) == sub);
    Some(acc)
}

/// Writes `n` in decimal digits.
pub fn render_decimal(n: u64) -> (v: Vec<char>)
    ensures
        v@ == digits_of(n as nat),
    decreases n,
{
    if n < 10 {
        let mut v: Vec<char> = Vec::new();
        v.push(char_of_digit(n as u8));
        assert(v@ == seq![digit_char(n as nat)]);
        v
    } else {
        let mut v = render_decimal(n / 10);
        v.push(char_of_digit((n % 10) as u8));
        v
    }
}

/// The characters of `s`, in order.
pub fn chars_of(s: &str) -> (v: Vec<char>)
    ensures
        v@ == s@,
{
    broadcast use vstd::string::group_string_axioms;
    let mut v: Vec<char> = Vec::new();
    let chars = s.chars();
    for c in it: chars
        invariant
            it.seq() == s@,
            v@ == s@.take(it.index()),
    {
        assert(s@.take(it.index() + 1) == s@.take(it.index()).push(c));
        v.push(c);
    }
    assert(s@.take(s@.len() as int) == s@);
    v
}

/// The sequences of characters that the vectors of `v` hold.
pub open spec fn views(v: Seq<Vec<char>>) -> Seq<Seq<char>> {
    Seq::new(v.len(), |k: int| v[k]@)
}

/// The first index at or after `i` that holds `stop`; the length of `s` if
/// there is none.
pub open spec fn find_from(s: Seq<char>, stop: char, i: int) -> int
    decreases s.len() - i,
{
    if 0 <= i < s.len() && s[i] != stop {
        find_from(s, stop, i + 1)
    } else {
        i
    }
}

/// `find_from` gives the first occurrence of `stop`, or the end.
pub proof fn lemma_find_from(s: Seq<char>, stop: char, i: int)
    requires
        0 <= i <= s.len(),
    ensures
        i <= find_from(s, stop, i) <= s.len(),
        forall|k: int| i <= k < find_from(s, stop, i) ==> #[trigger] s[k] != stop,
        find_from(s, stop, i) < s.len() ==> s[find_from(s, stop, i)] == stop,
    decreases s.len() - i,
{
    if i < s.len() && s[i] != stop {
        lemma_find_from(s, stop, i + 1);
    }
}

/// An index that holds `stop`, or the end, with no `stop` before it from
/// `i` on, is what `find_from` gives.
pub proof fn lemma_find_from_is(s: Seq<char>, stop: char, i: int, j: int)
    requires
        0 <= i <= j <= s.len(),
        forall|k: int| i <= k < j ==> #[trigger] s[k] != stop,
        j < s.len() ==> s[j] == stop,
    ensures
        find_from(s, stop, i) == j,
    decreases j - i,
{
    if i < j {
        lemma_find_from_is(s, stop, i + 1, j);
    }
}

/// A line without the carriage return that ends it, if one does.
pub open spec fn without_cr(line: Seq<char>) -> Seq<char> {
    if line.len() > 0 && line.last() == '\r' {
        line.drop_last()
    } else {
        line
    }
}

/// The lines of `s` from character `i` on, where a line starts at `i`.
pub open spec fn lines_from(s: Seq<char>, i: int) -> Seq<Seq<char>>
    decreases s.len() - i,
{
    if i < 0 || i >= s.len() {
        Seq::empty()
    } else {
        let j = find_from(s, '\n', i);
        if j < s.len() {
            proof {
                lemma_find_from(s, '\n', i);
            }
            seq![without_cr(s.subrange(i, j))] + lines_from(s, j + 1)
        } else {
            seq![s.subrange(i, j)]
        }
    }
}

/// The lines of a text. A line ends at a line feed, or at a carriage return
/// followed by a line feed; neither belongs to the line. The last line
/// needs no line end, and a text that ends in a line end has no empty line
/// after it.
pub open spec fn lines_of(s: Seq<char>) -> Seq<Seq<char>> {
    lines_from(s, 0)
}

/// The first index at or after `from` of `chars` that holds `stop`, or the
/// length of `chars`.
pub fn find(chars: &Vec<char>, stop: char, from: usize) -> (j: usize)
    requires
        from <= chars.len(),
    ensures
        j == find_from(chars@, stop, from as int),
        from <= j <= chars.len(),
{
    let mut j: usize = from;
    while j < chars.len() && chars[j] != stop
        invariant
            from <= j <= chars.len(),
            find_from(chars@, stop, from as int) == find_from(chars@, stop, j as int),
        decreases chars.len() - j,
    {
        j += 1;
    }
    j
}

/// The characters of `chars` from `start` up to `end`.
pub fn slice_of(chars: &Vec<char>, start: usize, end: usize) -> (v: Vec<char>)
    requires
        start <= end <= chars.len(),
    ensures
        v@ == chars@.subrange(start as int, end as int),
{
    let mut v: Vec<char> = Vec::new();
    let mut i: usize = start;
    while i < end
        invariant
            start <= i <= end <= chars.len(),
            v@ == chars@.subrange(start as int, i as int),
        decreases end - i,
    {
        v.push(chars[i]);
        assert(chars@.subrange(start as int, i + 1) == chars@.subrange(start as int, i as int).push(
            chars@[i as int],
        ));
        i += 1;
    }
    v
}

/// Where the lines of a text start and end: for each line, the index of its
/// first character and the index after its last.
pub fn line_bounds(chars: &Vec<char>) -> (bounds: Vec<(usize, usize)>)
    ensures
        bounds.len() == lines_of(chars@).len(),
        forall|k: int|
            0 <= k < bounds.len() ==> (#[trigger] bounds@[k]).0 <= bounds@[k].1 <= chars.len()
                && chars@.subrange(bounds@[k].0 as int, bounds@[k].1 as int) == lines_of(chars@)[k],
{
    let mut bounds: Vec<(usize, usize)> = Vec::new();
    let mut i: usize = 0;
    let ghost mut done: Seq<Seq<char>> = Seq::empty();
    while i < chars.len()
        invariant
            0 <= i <= chars.len(),
            lines_of(chars@) == done + lines_from(chars@, i as int),
            bounds.len() == done.len(),
            forall|k: int|
                0 <= k < bounds.len() ==> (#[trigger] bounds@[k]).0 <= bounds@[k].1 <= chars.len()
                    && chars@.subrange(bounds@[k].0 as int, bounds@[k].1 as int) == done[k],
        decreases chars.len() - i,
    {
        let j = find(chars, '\n', i);
        if j < chars.len() {
            let end = if j > i && chars[j - 1] == '\r' {
                j - 1
            } else {
                j
            };
            let ghost line = chars@.subrange(i as int, end as int);
            assert(line == without_cr(chars@.subrange(i as int, j as int)));
            bounds.push((i, end));
            proof {
                assert(done.push(line) + lines_from(chars@, j + 1) == done + (seq![line]
                    + lines_from(chars@, j + 1)));
                done = done.push(line);
            }
            i = j + 1;
        } else {
            let ghost line = chars@.subrange(i as int, j as int);
            bounds.push((i, j));
            proof {
                assert(done.push(line) + lines_from(chars@, j as int) == done + seq![line]);
                done = done.push(line);
            }
            i = j;
        }
    }
    assert(done + Seq::<Seq<char>>::empty() == done);
    bounds
}

/// The lines of a text.
pub fn split_lines(chars: &Vec<char>) -> (lines: Vec<Vec<char>>)
    ensures
        views(lines@) == lines_of(chars@),
{
    let bounds = line_bounds(chars);
    let mut lines: Vec<Vec<char>> = Vec::new();
    let mut k: usize = 0;
    while k < bounds.len()
        invariant
            0 <= k <= bounds.len(),
            bounds.len() == lines_of(chars@).len(),
            forall|m: int|
                0 <= m < bounds.len() ==> (#[trigger] bounds@[m]).0 <= bounds@[m].1 <= chars.len()
                    && chars@.subrange(bounds@[m].0 as int, bounds@[m].1 as int) == lines_of(
                    chars@,
                )[m],
            lines.len() == k,
            forall|m: int| 0 <= m < k ==> (#[trigger] lines@[m])@ == lines_of(chars@)[m],
        decreases bounds.len() - k,
    {
        let (start, end) = bounds[k];
        assert(bounds@[k as int].0 <= bounds@[k as int].1 <= chars.len());
        lines.push(slice_of(chars, start, end));
        k += 1;
    }
    assert(views(lines@) == lines_of(chars@));
    lines
}

/// A text of two lines: `a`, a line feed, and the line `b`, which is not
/// empty.
pub proof fn lemma_two_lines(a: Seq<char>, b: Seq<char>)
    requires
        forall|k: int| 0 <= k < a.len() ==> #[trigger] a[k] != '\n',
        forall|k: int| 0 <= k < b.len() ==> #[trigger] b[k] != '\n',
        a.len() > 0 ==> a.last() != '\r',
        b.len() > 0,
    ensures
        lines_of(a + seq!['\n'] + b) == seq![a, b],
{
    let s = a + seq!['\n'] + b;
    let n = a.len() as int;
    assert forall|k: int| 0 <= k < n implies #[trigger] s[k] != '\n' by {
        assert(s[k] == a[k]);
    }
    assert(s[n] == '\n');
    lemma_find_from_is(s, '\n', 0, n);
    assert(s.subrange(0, n) == a);
    assert forall|k: int| n + 1 <= k < s.len() implies #[trigger] s[k] != '\n' by {
        assert(s[k] == b[k - n - 1]);
    }
    lemma_find_from_is(s, '\n', n + 1, s.len() as int);
    assert(s.subrange(n + 1, s.len() as int) == b);
    assert(lines_from(s, n + 1) == seq![b]);
    assert(seq![a] + seq![b] == seq![a, b]);
}

/// The first index at or after `i` whose character is no digit; the length
/// of `row` if there is none.
pub open spec fn digits_end(row: Seq<char>, i: int) -> int
    decreases row.len() - i,
{
    if 0 <= i < row.len() && is_digit(row[i]) {
        digits_end(row, i + 1)
    } else {
        i
    }
}

/// A run of digits ends after its first digit, within the row, and holds
/// digits only.
pub proof fn lemma_digits_end(row: Seq<char>, i: int)
    requires
        0 <= i <= row.len(),
    ensures
        i <= digits_end(row, i) <= row.len(),
        i < row.len() && is_digit(row[i]) ==> i < digits_end(row, i),
        forall|k: int| i <= k < digits_end(row, i) ==> is_digit(#[trigger] row[k]),
        digits_end(row, i) < row.len() ==> !is_digit(row[digits_end(row, i)]),
    decreases row.len() - i,
{
    if i < row.len() && is_digit(row[i]) {
        lemma_digits_end(row, i + 1);
    }
}

/// The end of the run of digits that starts at `i`.
pub fn end_of_digits(row: &Vec<char>, i: usize) -> (j: usize)
    requires
        i <= row.len(),
    ensures
        j == digits_end(row@, i as int),
        i <= j <= row.len(),
{
    let mut j: usize = i;
    while j < row.len() && digit(row[j])
        invariant
            i <= j <= row.len(),
            digits_end(row@, i as int) == digits_end(row@, j as int),
        decreases row.len() - j,
    {
        j += 1;
    }
    j
}

/// The number that the piece of text `piece` denotes, where the piece
/// starts at character `at` of its line and the number must be at most
/// `max`. A piece without characters is a missing field; a character that
/// is no digit is a syntax error at that character; digits that denote more
/// than `max` are out of range.
pub open spec fn number_of(piece: Seq<char>, at: int, max: nat) -> Result<u64, ParseError> {
    if piece.len() == 0 {
        Err(ParseError::MissingField)
    } else if digits_end(piece, 0) < piece.len() {
        Err(ParseError::SyntaxError { at: (at + digits_end(piece, 0)) as usize })
    } else if decimal_value(piece) > max {
        Err(ParseError::NumberOutOfRange { at: at as usize })
    } else {
        Ok(decimal_value(piece) as u64)
    }
}

/// The end of a run of digits does not depend on where the row starts.
pub proof fn lemma_digits_end_shift(row: Seq<char>, start: int, end: int, i: int)
    requires
        0 <= start <= i <= end <= row.len(),
    ensures
        digits_end(row.subrange(start, end), i - start) == if digits_end(row, i) < end {
            digits_end(row, i) - start
        } else {
            end - start
        },
    decreases end - i,
{
    let piece = row.subrange(start, end);
    if i < end {
        assert(piece[i - start] == row[i]);
        if is_digit(row[i]) {
            lemma_digits_end_shift(row, start, end, i + 1);
        }
    } else {
        lemma_digits_end(row, i);
    }
}

/// Reads the characters of `chars` from `start` up to `end` as a number
/// that is at most `max`.
pub fn read_number(chars: &Vec<char>, start: usize, end: usize, max: u64) -> (r: Result<
    u64,
    ParseError,
>)
    requires
        start <= end <= chars.len(),
    ensures
        r == number_of(chars@.subrange(start as int, end as int), start as int, max as nat),
{
    if start == end {
        return Err(ParseError::MissingField);
    }
    let stop = end_of_digits(chars, start);
    proof {
        lemma_digits_end_shift(chars@, start as int, end as int, start as int);
        lemma_digits_end(chars@, start as int);
    }
    if stop < end {
        return Err(ParseError::SyntaxError { at: stop });
    }
    assert(all_digits(chars@.subrange(start as int, end as int)));
    match parse_decimal(chars, start, end, max) {
        Some(n) => Ok(n),
        None => Err(ParseError::NumberOutOfRange { at: start }),
    }
}

/// The digit that stands for `d`, as a string.
pub fn str_of_digit(d: u8) -> (s: &'static str)
    requires
        d < 10,
    ensures
        s@ == seq![digit_char(d as nat)],
{
    proof {
        reveal_strlit("0");
        reveal_strlit("1");
        reveal_strlit("2");
        reveal_strlit("3");
        reveal_strlit("4");
        reveal_strlit("5");
        reveal_strlit("6");
        reveal_strlit("7");
        reveal_strlit("8");
        reveal_strlit("9");
    }
    let s = if d == 0 {
        "0"
    } else if d == 1 {
        "1"
    } else if d == 2 {
        "2"
    } else if d == 3 {
        "3"
    } else if d == 4 {
        "4"
    } else if d == 5 {
        "5"
    } else if d == 6 {
        "6"
    } else if d == 7 {
        "7"
    } else if d == 8 {
        "8"
    } else {
        "9"
    };
    assert(s@ == seq![digit_char(d as nat)]);
    s
}

/// Writes `n` in decimal digits after the text of `s`.
pub fn append_decimal(s: &mut String, n: u64)
    ensures
        final(s)@ == old(s)@ + digits_of(n as nat),
    decreases n,
{
    if n < 10 {
        s.append(str_of_digit(n as u8));
    } else {
        append_decimal(s, n / 10);
        s.append(str_of_digit((n % 10) as u8));
        assert(old(s)@ + digits_of((n / 10) as nat) + seq![digit_char((n % 10) as nat)] == old(s)@
            + digits_of((n / 10) as nat).push(digit_char((n % 10) as nat)));
    }
}

} // verus!
