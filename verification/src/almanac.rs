//! Almanacs: a line `seeds: 79 14 55 13` lists the seeds, and each block
//! that begins with a line such as `seed-to-soil map:` lists the entries of
//! a map, one `target source length` per line, up to the next empty line.

use vstd::prelude::*;
use vstd::string::StrSliceExecFns;
use crate::error::{followed_by, ParseError};
use crate::text::{
    chars_of, find, find_from, lemma_find_from, line_bounds, lines_of, number_of, read_number,
    slice_of,
};

verus! {

/// What a seed line begins with.
pub const SEED_MARKER: &'static str = "seeds: ";

/// What the first line of a block holds.
pub const MAP_MARKER: &'static str = " map:";

/// `line` holds `pat` from the index `k` on.
pub open spec fn holds_at(line: Seq<char>, pat: Seq<char>, k: int) -> bool {
    0 <= k && k + pat.len() <= line.len() && line.subrange(k, k + pat.len()) == pat
}

/// `line` holds `pat` somewhere.
pub open spec fn has_infix(line: Seq<char>, pat: Seq<char>) -> bool {
    exists|k: int| holds_at(line, pat, k)
}

/// Tells whether `line` holds `pat` from the index `k` on.
pub fn matches_at(line: &Vec<char>, pat: &Vec<char>, k: usize) -> (b: bool)
    ensures
        b == holds_at(line@, pat@, k as int),
{
    if pat.len() > line.len() || k > line.len() - pat.len() {
        return false;
    }
    let ghost part = line@.subrange(k as int, k + pat.len());
    let mut i: usize = 0;
    while i < pat.len()
        invariant
            0 <= i <= pat.len(),
            k + pat.len() <= line.len(),
            part == line@.subrange(k as int, k + pat.len()),
            forall|m: int| 0 <= m < i ==> part[m] == pat@[m],
        decreases pat.len() - i,
    {
        if line[k + i] != pat[i] {
            assert(part[i as int] != pat@[i as int]);
            return false;
        }
        i += 1;
    }
    assert(part == pat@);
    true
}

/// Tells whether `line` holds `pat` somewhere.
pub fn contains(line: &Vec<char>, pat: &Vec<char>) -> (b: bool)
    ensures
        b == has_infix(line@, pat@),
{
    if pat.len() > line.len() {
        return false;
    }
    let last = line.len() - pat.len();
    let mut k: usize = 0;
    loop
        invariant
            0 <= k <= last,
            last == line.len() - pat.len(),
            forall|m: int| 0 <= m < k ==> !holds_at(line@, pat@, m),
        decreases last - k,
    {
        if matches_at(line, pat, k) {
            return true;
        }
        if k >= last {
            return false;
        }
        k += 1;
    }
}

/// The numbers that `line` holds from character `i` on, with one blank
/// between two numbers, where `k` numbers stand before `i`. Each number must
/// fit `i64`. Where `limit` is set, a number after the first `limit`
/// numbers is not allowed. The first error from the left is the error of
/// the line.
pub open spec fn numbers_in(line: Seq<char>, i: int, k: int, limit: Option<int>) -> Result<
    Seq<i64>,
    ParseError,
>
    decreases line.len() - i,
{
    if i < 0 || i > line.len() {
        Ok(Seq::empty())
    } else {
        let j = find_from(line, ' ', i);
        match number_of(line.subrange(i, j), i, i64::MAX as nat) {
            Err(e) => Err(e),
            Ok(n) => if limit is Some && k >= limit->Some_0 {
                Err(ParseError::UnexpectedToken { at: k as usize })
            } else if j < line.len() {
                proof {
                    lemma_find_from(line, ' ', i);
                }
                followed_by(seq![n as i64], numbers_in(line, j + 1, k + 1, limit))
            } else {
                Ok(seq![n as i64])
            },
        }
    }
}

/// Reads the numbers that `line` holds from character `from` on.
pub fn read_numbers(line: &Vec<char>, from: usize, limit: Option<usize>) -> (r: Result<
    Vec<i64>,
    ParseError,
>)
    requires
        from <= line.len(),
    ensures
        match r {
            Ok(v) => numbers_in(line@, from as int, 0, spec_limit(limit)) == Ok::<
                Seq<i64>,
                ParseError,
            >(v@) && forall|m: int| 0 <= m < v@.len() ==> #[trigger] v@[m] >= 0,
            Err(e) => numbers_in(line@, from as int, 0, spec_limit(limit)) == Err::<
                Seq<i64>,
                ParseError,
            >(e),
        },
{
    let mut numbers: Vec<i64> = Vec::new();
    let mut i: usize = from;
    let ghost all = numbers_in(line@, from as int, 0, spec_limit(limit));
    proof {
        if let Ok(more) = all {
            assert(Seq::<i64>::empty() + more == more);
        }
    }
    loop
        invariant_except_break
            from <= i <= line.len(),
            all == numbers_in(line@, from as int, 0, spec_limit(limit)),
            all == followed_by(
                numbers@,
                numbers_in(line@, i as int, numbers@.len() as int, spec_limit(limit)),
            ),
            forall|m: int| 0 <= m < numbers@.len() ==> #[trigger] numbers@[m] >= 0,
        ensures
            all == Ok::<Seq<i64>, ParseError>(numbers@),
            forall|m: int| 0 <= m < numbers@.len() ==> #[trigger] numbers@[m] >= 0,
        decreases line.len() - i,
    {
        let j = find(line, ' ', i);
        let n = read_number(line, i, j, i64::MAX as u64)?;
        match limit {
            Some(most) => {
                if numbers.len() >= most {
                    return Err(ParseError::UnexpectedToken { at: numbers.len() });
                }
            },
            None => {},
        }
        let ghost before = numbers@;
        numbers.push(n as i64);
        if j < line.len() {
            proof {
                if let Ok(more) = numbers_in(
                    line@,
                    j + 1,
                    (before.len() + 1) as int,
                    spec_limit(limit),
                ) {
                    assert(before + (seq![n as i64] + more) == before.push(n as i64) + more);
                }
            }
            i = j + 1;
        } else {
            assert(before + seq![n as i64] == before.push(n as i64));
            break;
        }
    }
    Ok(numbers)
}

/// A limit as a mathematical value.
pub open spec fn spec_limit(limit: Option<usize>) -> Option<int> {
    match limit {
        Some(most) => Some(most as int),
        None => None,
    }
}

/// The seeds of the lines from the index `i` on: the numbers of the first
/// line that begins with the seed marker, after the marker. Lines without
/// such a line have no seeds.
pub open spec fn seeds_from(lines: Seq<Seq<char>>, i: int) -> Result<Seq<i64>, ParseError>
    decreases lines.len() - i,
{
    if i < 0 || i >= lines.len() {
        Ok(Seq::empty())
    } else if holds_at(lines[i], SEED_MARKER@, 0) {
        numbers_in(lines[i], SEED_MARKER@.len() as int, 0, None)
    } else {
        seeds_from(lines, i + 1)
    }
}

/// The seeds of a text.
pub open spec fn seeds_of(s: Seq<char>) -> Result<Seq<i64>, ParseError> {
    seeds_from(lines_of(s), 0)
}

/// The seeds of an almanac: the numbers of the first line that begins with
/// `seeds: `, and no seeds where there is no such line.
///
/// Fails with the first error of that line: `MissingField` at an empty
/// place for a number, `SyntaxError` at a character that is no digit, and
/// `NumberOutOfRange` at a number that does not fit `i64`.
pub fn get_seeds(data: &str) -> (r: Result<Vec<i64>, ParseError>)
    ensures
        match r {
            Ok(seeds) => seeds_of(data@) == Ok::<Seq<i64>, ParseError>(seeds@),
            Err(e) => seeds_of(data@) == Err::<Seq<i64>, ParseError>(e),
        },
{
    let chars = chars_of(data);
    let bounds = line_bounds(&chars);
    let marker = chars_of(SEED_MARKER);
    let mut k: usize = 0;
    while k < bounds.len()
        invariant
            0 <= k <= bounds.len(),
            marker@ == SEED_MARKER@,
            bounds.len() == lines_of(data@).len(),
            chars@ == data@,
            forall|m: int|
                0 <= m < bounds.len() ==> (#[trigger] bounds@[m]).0 <= bounds@[m].1 <= chars.len()
                    && chars@.subrange(bounds@[m].0 as int, bounds@[m].1 as int) == lines_of(
                    chars@,
                )[m],
            seeds_of(data@) == seeds_from(lines_of(data@), k as int),
        decreases bounds.len() - k,
    {
        let (start, end) = bounds[k];
        assert(bounds@[k as int].0 <= bounds@[k as int].1 <= chars.len());
        let line = slice_of(&chars, start, end);
        if matches_at(&line, &marker, 0) {
            return read_numbers(&line, marker.len(), None);
        }
        k += 1;
    }
    Ok(Vec::new())
}

/// An entry of a map: the numbers from `source_start` on, `range_length` of
/// them, go to the numbers from `target_start` on. The last number that the
/// entry maps to fits `i64`.
#[derive(Debug, Clone, Copy, PartialEq, Eq, Structural)]
pub struct MapEntry {
    target_start: i64,
    source_start: i64,
    range_length: i64,
}

/// An entry as plain mathematical values.
pub ghost struct EntryView {
    pub target_start: int,
    pub source_start: int,
    pub range_length: int,
}

/// The numbers that the entry maps to fit `i64`.
pub open spec fn entry_fits(target_start: int, range_length: int) -> bool {
    range_length <= 0 || target_start + range_length - 1 <= i64::MAX
}

/// What the entry makes of `v`: a number of its source range goes to the
/// number at the same place of its target range, any other number is left
/// as it is.
pub open spec fn entry_value(entry: EntryView, v: int) -> int {
    if entry.source_start <= v < entry.source_start + entry.range_length {
        v + entry.target_start - entry.source_start
    } else {
        v
    }
}

/// The entry that a line describes: up to three numbers, the start of the
/// target range, the start of the source range and the length of the ranges,
/// where a number that is not written is zero. A fourth number is not
/// allowed, and a target range that does not fit `i64` is out of range.
pub open spec fn entry_of(line: Seq<char>) -> Result<EntryView, ParseError> {
    match numbers_in(line, 0, 0, Some(3int)) {
        Err(e) => Err(e),
        Ok(ns) => {
            let target_start: int = if ns.len() > 0 {
                ns[0] as int
            } else {
                0
            };
            let source_start: int = if ns.len() > 1 {
                ns[1] as int
            } else {
                0
            };
            let range_length: int = if ns.len() > 2 {
                ns[2] as int
            } else {
                0
            };
            if entry_fits(target_start, range_length) {
                Ok(EntryView { target_start, source_start, range_length })
            } else {
                Err(ParseError::NumberOutOfRange { at: 0 })
            }
        },
    }
}

impl View for MapEntry {
    type V = EntryView;

    closed spec fn view(&self) -> EntryView {
        EntryView {
            target_start: self.target_start as int,
            source_start: self.source_start as int,
            range_length: self.range_length as int,
        }
    }
}

impl MapEntry {
    #[verifier::type_invariant]
    spec fn fits(self) -> bool {
        entry_fits(self.target_start as int, self.range_length as int)
    }

    /// The entry of the given ranges, or `NumberOutOfRange` where the target
    /// range does not fit `i64`.
    pub fn new(target_start: i64, source_start: i64, range_length: i64) -> (r: Result<
        MapEntry,
        ParseError,
    >)
        ensures
            match r {
                Ok(entry) => entry_fits(target_start as int, range_length as int) && entry@ == (
                EntryView {
                    target_start: target_start as int,
                    source_start: source_start as int,
                    range_length: range_length as int,
                }),
                Err(e) => !entry_fits(target_start as int, range_length as int) && e
                    == (ParseError::NumberOutOfRange { at: 0 }),
            },
    {
        if range_length <= 0 || target_start as i128 + range_length as i128 - 1 <= i64::MAX as i128 {
            Ok(MapEntry { target_start, source_start, range_length })
        } else {
            Err(ParseError::NumberOutOfRange { at: 0 })
        }
    }

    /// The start of the target range.
    pub fn target_start(&self) -> (n: i64)
        ensures
            n == self@.target_start,
    {
        self.target_start
    }

    /// The start of the source range.
    pub fn source_start(&self) -> (n: i64)
        ensures
            n == self@.source_start,
    {
        self.source_start
    }

    /// The length of the two ranges.
    pub fn range_length(&self) -> (n: i64)
        ensures
            n == self@.range_length,
    {
        self.range_length
    }

    /// What the entry makes of `v`.
    pub fn map(&self, v: i64) -> (w: i64)
        ensures
            w == entry_value(self@, v as int),
    {
        proof {
            use_type_invariant(self);
        }
        let source = self.source_start as i128;
        let value = v as i128;
        if value >= source && value < source + self.range_length as i128 {
            (value + self.target_start as i128 - source) as i64
        } else {
            v
        }
    }

    /// Reads an entry from its line.
    ///
    /// Fails with the first error of the line: `MissingField` at an empty
    /// place for a number, `SyntaxError` at a character that is no digit,
    /// `NumberOutOfRange` at a number that does not fit `i64`, and
    /// `UnexpectedToken` at a fourth number; and with `NumberOutOfRange`
    /// where the target range does not fit `i64`.
    pub fn from(v: &str) -> (r: Result<MapEntry, ParseError>)
        ensures
            match r {
                Ok(entry) => entry_of(v@) == Ok::<EntryView, ParseError>(entry@),
                Err(e) => entry_of(v@) == Err::<EntryView, ParseError>(e),
            },
    {
        let line = chars_of(v);
        MapEntry::from_chars(&line)
    }

    /// Reads an entry from the characters of its line.
    pub fn from_chars(line: &Vec<char>) -> (r: Result<MapEntry, ParseError>)
        ensures
            match r {
                Ok(entry) => entry_of(line@) == Ok::<EntryView, ParseError>(entry@),
                Err(e) => entry_of(line@) == Err::<EntryView, ParseError>(e),
            },
    {
        let numbers = read_numbers(line, 0, Some(3))?;
        let target_start = if numbers.len() > 0 {
            numbers[0]
        } else {
            0
        };
        let source_start = if numbers.len() > 1 {
            numbers[1]
        } else {
            0
        };
        let range_length = if numbers.len() > 2 {
            numbers[2]
        } else {
            0
        };
        MapEntry::new(target_start, source_start, range_length)
    }
}

/// A map with a name: its entries, in the order of the text.
#[derive(Debug)]
pub struct NamedMap {
    name: String,
    map_entries: Vec<MapEntry>,
}

/// A named map as plain mathematical values.
pub ghost struct NamedMapView {
    pub name: Seq<char>,
    pub entries: Seq<EntryView>,
}

/// The first value that one of the entries from the index `from` on makes
/// of `v` and that is not `v` itself; `v` where there is none.
pub open spec fn mapped_from(entries: Seq<EntryView>, v: int, from: int) -> int
    decreases entries.len() - from,
{
    if from < 0 || from >= entries.len() {
        v
    } else if entry_value(entries[from], v) != v {
        entry_value(entries[from], v)
    } else {
        mapped_from(entries, v, from + 1)
    }
}

/// What a map makes of `v`.
pub open spec fn mapped(map: NamedMapView, v: int) -> int {
    mapped_from(map.entries, v, 0)
}

/// What the maps from the index `from` on make of `v`, one after the
/// other.
pub open spec fn chained_from(maps: Seq<NamedMapView>, v: int, from: int) -> int
    decreases maps.len() - from,
{
    if from < 0 || from >= maps.len() {
        v
    } else {
        chained_from(maps, mapped(maps[from], v), from + 1)
    }
}

impl View for NamedMap {
    type V = NamedMapView;

    closed spec fn view(&self) -> NamedMapView {
        NamedMapView {
            name: self.name@,
            entries: Seq::new(self.map_entries@.len(), |k: int| self.map_entries@[k]@),
        }
    }
}

impl Default for NamedMap {
    fn default() -> (map: NamedMap)
        ensures
            map@ == (NamedMapView { name: Seq::empty(), entries: Seq::empty() }),
    {
        let map = NamedMap { name: String::new(), map_entries: Vec::new() };
        assert(map@.entries == Seq::<EntryView>::empty());
        map
    }
}

impl Clone for NamedMap {
    fn clone(&self) -> (map: NamedMap)
        ensures
            map@ == self@,
    {
        let mut map_entries: Vec<MapEntry> = Vec::new();
        let mut k: usize = 0;
        while k < self.map_entries.len()
            invariant
                0 <= k <= self.map_entries.len(),
                map_entries@ == self.map_entries@.take(k as int),
            decreases self.map_entries.len() - k,
        {
            map_entries.push(self.map_entries[k]);
            assert(self.map_entries@.take(k + 1) == self.map_entries@.take(k as int).push(
                self.map_entries@[k as int],
            ));
            k += 1;
        }
        assert(self.map_entries@.take(self.map_entries@.len() as int) == self.map_entries@);
        NamedMap { name: self.name.clone(), map_entries }
    }
}

impl NamedMap {
    /// The name of the map.
    pub fn name(&self) -> (name: &str)
        ensures
            name@ == self@.name,
    {
        self.name.as_str()
    }

    /// The entries of the map.
    pub fn map_entries(&self) -> (entries: &[MapEntry])
        ensures
            entries@.len() == self@.entries.len(),
            forall|k: int| 0 <= k < entries@.len() ==> (#[trigger] entries@[k])@ == self@.entries[k],
    {
        self.map_entries.as_slice()
    }

    /// What the map makes of `v`: the first value that one of its entries
    /// makes of `v` and that is not `v` itself, or `v`.
    pub fn map(&self, v: i64) -> (w: i64)
        ensures
            w == mapped(self@, v as int),
    {
        let mut k: usize = 0;
        while k < self.map_entries.len()
            invariant
                0 <= k <= self.map_entries.len(),
                mapped(self@, v as int) == mapped_from(self@.entries, v as int, k as int),
            decreases self.map_entries.len() - k,
        {
            let mapped_value = self.map_entries[k].map(v);
            assert(self@.entries[k as int] == self.map_entries@[k as int]@);
            if mapped_value != v {
                return mapped_value;
            }
            k += 1;
        }
        v
    }
}

/// The maps of an almanac, in the order of the text.
#[derive(Debug)]
pub struct MapChain {
    pub maps: Vec<NamedMap>,
}

impl View for MapChain {
    type V = Seq<NamedMapView>;

    open spec fn view(&self) -> Seq<NamedMapView> {
        Seq::new(self.maps@.len(), |k: int| self.maps@[k]@)
    }
}

/// Where the reader of an almanac stands.
#[derive(Debug, Clone, Copy, PartialEq, Eq, Structural)]
pub enum ParseState {
    /// Outside a block.
    BlankLine,
    /// Inside the block of a map.
    MapBlock,
}

impl Default for ParseState {
    fn default() -> (state: ParseState)
        ensures
            state == ParseState::BlankLine,
    {
        ParseState::BlankLine
    }
}

/// The maps after the lines from the index `i` on have been read, where
/// `done` holds the maps that are finished and `open` the map whose block is
/// being read, if one is. Outside a block, a line that holds the map marker
/// opens the block of a map named by what stands before the line's first
/// blank, and any other line is passed over. Inside a block, an empty line
/// and the end of the text close it, and any other line is an entry.
pub open spec fn chain_from(
    lines: Seq<Seq<char>>,
    i: int,
    open: Option<NamedMapView>,
    done: Seq<NamedMapView>,
) -> Result<Seq<NamedMapView>, ParseError>
    decreases lines.len() - i,
{
    if i < 0 || i >= lines.len() {
        match open {
            Some(map) => Ok(done.push(map)),
            None => Ok(done),
        }
    } else {
        match open {
            None => if has_infix(lines[i], MAP_MARKER@) {
                chain_from(
                    lines,
                    i + 1,
                    Some(
                        NamedMapView {
                            name: lines[i].subrange(0, find_from(lines[i], ' ', 0)),
                            entries: Seq::empty(),
                        },
                    ),
                    done,
                )
            } else {
                chain_from(lines, i + 1, None, done)
            },
            Some(map) => if lines[i].len() == 0 {
                chain_from(lines, i + 1, None, done.push(map))
            } else {
                match entry_of(lines[i]) {
                    Err(e) => Err(e),
                    Ok(entry) => chain_from(
                        lines,
                        i + 1,
                        Some(NamedMapView { entries: map.entries.push(entry), ..map }),
                        done,
                    ),
                }
            },
        }
    }
}

/// The maps of a text.
pub open spec fn chain_of(s: Seq<char>) -> Result<Seq<NamedMapView>, ParseError> {
    chain_from(lines_of(s), 0, None, Seq::empty())
}

impl Default for MapChain {
    fn default() -> (chain: MapChain)
        ensures
            chain@ == Seq::<NamedMapView>::empty(),
    {
        let chain = MapChain { maps: Vec::new() };
        assert(chain@ == Seq::<NamedMapView>::empty());
        chain
    }
}

impl Clone for MapChain {
    fn clone(&self) -> (chain: MapChain)
        ensures
            chain@ == self@,
    {
        let mut maps: Vec<NamedMap> = Vec::new();
        let mut k: usize = 0;
        while k < self.maps.len()
            invariant
                0 <= k <= self.maps.len(),
                maps.len() == k,
                forall|m: int| 0 <= m < k ==> (#[trigger] maps@[m])@ == self.maps@[m]@,
            decreases self.maps.len() - k,
        {
            maps.push(self.maps[k].clone());
            k += 1;
        }
        let chain = MapChain { maps };
        assert(chain@ == self@);
        chain
    }
}

/// `lowest` is the lowest of the numbers `values`: one of them, and not
/// above any of them.
pub open spec fn is_lowest(values: Seq<i64>, lowest: i64) -> bool {
    &&& exists|k: int| 0 <= k < values.len() && #[trigger] values[k] == lowest
    &&& forall|k: int| 0 <= k < values.len() ==> lowest <= #[trigger] values[k]
}

/// The lowest of the numbers `values`, and `None` where there is no number.
pub fn lowest(values: &Vec<i64>) -> (r: Option<i64>)
    ensures
        match r {
            Some(lowest) => is_lowest(values@, lowest),
            None => values@.len() == 0,
        },
{
    if values.len() == 0 {
        return None;
    }
    let mut lowest = values[0];
    let mut k: usize = 1;
    while k < values.len()
        invariant
            1 <= k <= values.len(),
            exists|m: int| 0 <= m < k && #[trigger] values@[m] == lowest,
            forall|m: int| 0 <= m < k ==> lowest <= #[trigger] values@[m],
        decreases values.len() - k,
    {
        if values[k] < lowest {
            lowest = values[k];
        }
        k += 1;
    }
    Some(lowest)
}

/// The ranges of seeds that a list of seeds describes when its numbers are
/// read in pairs of a first seed and a number of seeds: for each pair, the
/// first seed and the seed after the last.
pub open spec fn ranges_of(seeds: Seq<i64>) -> Seq<(i64, i64)> {
    Seq::new(seeds.len() / 2, |k: int| (seeds[2 * k], (seeds[2 * k] + seeds[2 * k + 1]) as i64))
}

/// The numbers of `seeds` come in pairs, and the seed after the last of
/// each range fits `i64`.
pub open spec fn ranges_fit(seeds: Seq<i64>) -> bool {
    &&& seeds.len() % 2 == 0
    &&& forall|k: int|
        0 <= k < seeds.len() / 2 ==> i64::MIN <= #[trigger] seeds[2 * k] + seeds[2 * k + 1]
            <= i64::MAX
}

/// The ranges of seeds that a list of seeds describes; `None` where a
/// number is left without its pair, and where a range ends beyond `i64`.
pub fn seed_ranges(seeds: &Vec<i64>) -> (r: Option<Vec<(i64, i64)>>)
    ensures
        match r {
            Some(ranges) => ranges_fit(seeds@) && ranges@ == ranges_of(seeds@),
            None => !ranges_fit(seeds@),
        },
{
    if seeds.len() % 2 != 0 {
        return None;
    }
    let pairs = seeds.len() / 2;
    let mut ranges: Vec<(i64, i64)> = Vec::new();
    let mut k: usize = 0;
    while k < pairs
        invariant
            0 <= k <= pairs,
            pairs == seeds.len() / 2,
            seeds.len() % 2 == 0,
            ranges.len() == k,
            forall|m: int|
                0 <= m < k ==> i64::MIN <= #[trigger] seeds@[2 * m] + seeds@[2 * m + 1] <= i64::MAX,
            forall|m: int|
                0 <= m < k ==> #[trigger] ranges@[m] == (
                    seeds@[2 * m],
                    (seeds@[2 * m] + seeds@[2 * m + 1]) as i64,
                ),
        decreases pairs - k,
    {
        let start = seeds[2 * k];
        match start.checked_add(seeds[2 * k + 1]) {
            Some(end) => {
                ranges.push((start, end));
            },
            None => {
                assert(!(i64::MIN <= seeds@[2 * k] + seeds@[2 * k + 1] <= i64::MAX));
                return None;
            },
        }
        k += 1;
    }
    assert(ranges@ == ranges_of(seeds@));
    Some(ranges)
}

/// The sum of the numbers of seeds of the first `k` pairs of `seeds`, and
/// `None` where it, or the sum of fewer of them, does not fit `i64`.
pub open spec fn count_upto(seeds: Seq<i64>, k: int) -> Option<int>
    decreases k,
{
    if k <= 0 {
        Some(0int)
    } else {
        match count_upto(seeds, k - 1) {
            None => None,
            Some(before) => if i64::MIN <= before + seeds[2 * k - 1] <= i64::MAX {
                Some(before + seeds[2 * k - 1])
            } else {
                None
            },
        }
    }
}

/// A sum that does not fit is not regained by further terms.
pub proof fn lemma_count_stays_lost(seeds: Seq<i64>, i: int, j: int)
    requires
        i <= j,
        count_upto(seeds, i) is None,
    ensures
        count_upto(seeds, j) is None,
    decreases j - i,
{
    if i < j {
        lemma_count_stays_lost(seeds, i, j - 1);
    }
}

/// The number of seeds that a list of seeds describes when its numbers are
/// read in pairs of a first seed and a number of seeds: the sum of the
/// numbers of seeds, taken from the first pair on; `None` where a number is
/// left without its pair, and where a sum does not fit `i64`.
pub fn seed_count(seeds: &Vec<i64>) -> (r: Option<i64>)
    ensures
        match r {
            Some(count) => seeds@.len() % 2 == 0 && count_upto(
                seeds@,
                (seeds@.len() / 2) as int,
            ) == Some(count as int),
            None => seeds@.len() % 2 != 0 || count_upto(seeds@, (seeds@.len() / 2) as int) is None,
        },
{
    if seeds.len() % 2 != 0 {
        return None;
    }
    let pairs = seeds.len() / 2;
    let mut count: i64 = 0;
    let mut k: usize = 0;
    while k < pairs
        invariant
            0 <= k <= pairs,
            pairs == seeds.len() / 2,
            seeds.len() % 2 == 0,
            count_upto(seeds@, k as int) == Some(count as int),
        decreases pairs - k,
    {
        match count.checked_add(seeds[2 * k + 1]) {
            Some(more) => {
                count = more;
            },
            None => {
                proof {
                    lemma_count_stays_lost(seeds@, k + 1, pairs as int);
                }
                return None;
            },
        }
        k += 1;
    }
    Some(count)
}

impl MapChain {
    /// What the maps make of each of the seeds.
    pub fn locations(&self, seeds: &Vec<i64>) -> (locations: Vec<i64>)
        ensures
            locations@.len() == seeds@.len(),
            forall|k: int|
                0 <= k < seeds@.len() ==> #[trigger] locations@[k] == chained_from(
                    self@,
                    seeds@[k] as int,
                    0,
                ),
    {
        let mut locations: Vec<i64> = Vec::new();
        let mut k: usize = 0;
        while k < seeds.len()
            invariant
                0 <= k <= seeds.len(),
                locations.len() == k,
                forall|m: int|
                    0 <= m < k ==> #[trigger] locations@[m] == chained_from(
                        self@,
                        seeds@[m] as int,
                        0,
                    ),
            decreases seeds.len() - k,
        {
            locations.push(self.map(seeds[k]));
            k += 1;
        }
        locations
    }

    /// The lowest of what the maps make of the numbers from `start` up to,
    /// and without, `end`; the largest number of all where there is no
    /// number from `start` up to `end`.
    pub fn lowest_in_range(&self, start: i64, end: i64) -> (lowest: i64)
        ensures
            forall|j: int| start <= j < end ==> lowest <= #[trigger] chained_from(self@, j, 0),
            start < end ==> exists|j: int|
                start <= j < end && #[trigger] chained_from(self@, j, 0) == lowest,
            start >= end ==> lowest == i64::MAX,
    {
        let mut lowest = i64::MAX;
        let mut j = start;
        while j < end
            invariant
                start <= j <= end || (start > end && j == start),
                forall|m: int| start <= m < j ==> lowest <= #[trigger] chained_from(self@, m, 0),
                start < j ==> exists|m: int|
                    start <= m < j && #[trigger] chained_from(self@, m, 0) == lowest,
                start >= j ==> lowest == i64::MAX,
            decreases end - j,
        {
            let location = self.map(j);
            if location < lowest || j == start {
                lowest = location;
            }
            j += 1;
        }
        lowest
    }

    /// What the maps make of `v`, one after the other.
    pub fn map(&self, v: i64) -> (w: i64)
        ensures
            w == chained_from(self@, v as int, 0),
    {
        let mut map_staged = v;
        let mut k: usize = 0;
        while k < self.maps.len()
            invariant
                0 <= k <= self.maps.len(),
                chained_from(self@, v as int, 0) == chained_from(self@, map_staged as int, k as int),
            decreases self.maps.len() - k,
        {
            assert(self@[k as int] == self.maps@[k as int]@);
            map_staged = self.maps[k].map(map_staged);
            k += 1;
        }
        map_staged
    }

    /// Reads the maps of an almanac.
    ///
    /// Fails with the error of the first line of a block that is not an
    /// entry; see `MapEntry::from`.
    pub fn from_str(data: &str) -> (r: Result<MapChain, ParseError>)
        ensures
            match r {
                Ok(chain) => chain_of(data@) == Ok::<Seq<NamedMapView>, ParseError>(chain@),
                Err(e) => chain_of(data@) == Err::<Seq<NamedMapView>, ParseError>(e),
            },
    {
        let chars = chars_of(data);
        let bounds = line_bounds(&chars);
        let marker = chars_of(MAP_MARKER);
        let mut maps: Vec<NamedMap> = Vec::new();
        let mut parse_state = ParseState::default();
        let mut name = String::new();
        let mut entries: Vec<MapEntry> = Vec::new();
        let ghost lines = lines_of(data@);
        let mut k: usize = 0;
        assert(Seq::new(maps@.len(), |m: int| maps@[m]@) == Seq::<NamedMapView>::empty());
        while k < bounds.len()
            invariant
                0 <= k <= bounds.len(),
                marker@ == MAP_MARKER@,
                lines == lines_of(data@),
                bounds.len() == lines.len(),
                chars@ == data@,
                forall|m: int|
                    0 <= m < bounds.len() ==> (#[trigger] bounds@[m]).0 <= bounds@[m].1
                        <= chars.len() && chars@.subrange(
                        bounds@[m].0 as int,
                        bounds@[m].1 as int,
                    ) == lines[m],
                chain_of(data@) == chain_from(
                    lines,
                    k as int,
                    if parse_state == ParseState::MapBlock {
                        Some(
                            NamedMapView {
                                name: name@,
                                entries: Seq::new(entries@.len(), |m: int| entries@[m]@),
                            },
                        )
                    } else {
                        None
                    },
                    Seq::new(maps@.len(), |m: int| maps@[m]@),
                ),
            decreases bounds.len() - k,
        {
            let (start, end) = bounds[k];
            assert(bounds@[k as int].0 <= bounds@[k as int].1 <= chars.len());
            let line = slice_of(&chars, start, end);
            let ghost done = Seq::new(maps@.len(), |m: int| maps@[m]@);
            let ghost so_far = Seq::new(entries@.len(), |m: int| entries@[m]@);
            match parse_state {
                ParseState::BlankLine => {
                    if contains(&line, &marker) {
                        let stop = find(&line, ' ', 0);
                        name = data.substring_char(start, start + stop).to_owned();
                        assert(name@ == lines[k as int].subrange(0, stop as int));
                        entries = Vec::new();
                        assert(Seq::new(entries@.len(), |m: int| entries@[m]@) == Seq::<
                            EntryView,
                        >::empty());
                        parse_state = ParseState::MapBlock;
                    }
                },
                ParseState::MapBlock => {
                    if line.len() == 0 {
                        let map = NamedMap { name, map_entries: entries };
                        assert(map@ == (NamedMapView { name: map.name@, entries: so_far }));
                        maps.push(map);
                        assert(Seq::new(maps@.len(), |m: int| maps@[m]@) == done.push(
                            maps@[maps@.len() - 1]@,
                        ));
                        name = String::new();
                        entries = Vec::new();
                        parse_state = ParseState::BlankLine;
                    } else {
                        let entry = MapEntry::from_chars(&line)?;
                        entries.push(entry);
                        assert(Seq::new(entries@.len(), |m: int| entries@[m]@) == so_far.push(
                            entry@,
                        ));
                    }
                },
            }
            k += 1;
        }
        if parse_state == ParseState::MapBlock {
            let ghost done = Seq::new(maps@.len(), |m: int| maps@[m]@);
            let ghost so_far = Seq::new(entries@.len(), |m: int| entries@[m]@);
            let map = NamedMap { name, map_entries: entries };
            assert(map@ == (NamedMapView { name: map.name@, entries: so_far }));
            maps.push(map);
            assert(Seq::new(maps@.len(), |m: int| maps@[m]@) == done.push(maps@[maps@.len() - 1]@));
        }
        Ok(MapChain { maps })
    }
}

} // verus!
