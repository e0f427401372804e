//! Hands of five cards with a bid: a line such as `32T3K 765`.

use std::cmp::Ordering;
use vstd::prelude::*;
use crate::error::{followed_by, ParseError};
use crate::text::{chars_of, find, find_from, lines_of, number_of, read_number, split_lines, views};

verus! {

/// What a hand is worth, from the best kind to the worst.
#[derive(Debug, Clone, Copy, PartialEq, Eq, Hash, Structural)]
pub enum HandType {
    FiveOfAKind,
    FourOfAKind,
    FullHouse,
    ThreeOfAKind,
    TwoPair,
    OnePair,
    HighCard,
    Nothing,
}

impl Default for HandType {
    fn default() -> (kind: HandType)
        ensures
            kind == HandType::Nothing,
    {
        HandType::Nothing
    }
}

/// The rank of a kind of hand: eight for the best, one for the worst.
pub open spec fn kind_prio(kind: HandType) -> int {
    match kind {
        HandType::FiveOfAKind => 8,
        HandType::FourOfAKind => 7,
        HandType::FullHouse => 6,
        HandType::ThreeOfAKind => 5,
        HandType::TwoPair => 4,
        HandType::OnePair => 3,
        HandType::HighCard => 2,
        HandType::Nothing => 1,
    }
}

impl HandType {
    /// The rank of the kind: eight for the best, one for the worst.
    pub fn prio(&self) -> (p: i64)
        ensures
            p == kind_prio(*self),
    {
        match self {
            HandType::FiveOfAKind => 8,
            HandType::FourOfAKind => 7,
            HandType::FullHouse => 6,
            HandType::ThreeOfAKind => 5,
            HandType::TwoPair => 4,
            HandType::OnePair => 3,
            HandType::HighCard => 2,
            HandType::Nothing => 1,
        }
    }
}

/// The face of a card, from the highest to the lowest.
#[derive(Debug, Clone, Copy, PartialEq, Eq, Hash, Structural)]
pub enum CardFace {
    Ace,
    King,
    Queen,
    Jack,
    Ten,
    Nine,
    Eight,
    Seven,
    Six,
    Five,
    Four,
    Three,
    Two,
}

impl Default for CardFace {
    fn default() -> (face: CardFace)
        ensures
            face == CardFace::Ace,
    {
        CardFace::Ace
    }
}

/// The rank of a face: thirteen for the ace, one for the two.
pub open spec fn face_prio(face: CardFace) -> int {
    match face {
        CardFace::Ace => 13,
        CardFace::King => 12,
        CardFace::Queen => 11,
        CardFace::Jack => 10,
        CardFace::Ten => 9,
        CardFace::Nine => 8,
        CardFace::Eight => 7,
        CardFace::Seven => 6,
        CardFace::Six => 5,
        CardFace::Five => 4,
        CardFace::Four => 3,
        CardFace::Three => 2,
        CardFace::Two => 1,
    }
}

/// The face that a character stands for, if it stands for one.
pub open spec fn face_of(c: char) -> Option<CardFace> {
    if c == 'A' {
        Some(CardFace::Ace)
    } else if c == 'K' {
        Some(CardFace::King)
    } else if c == 'Q' {
        Some(CardFace::Queen)
    } else if c == 'J' {
        Some(CardFace::Jack)
    } else if c == 'T' {
        Some(CardFace::Ten)
    } else if c == '9' {
        Some(CardFace::Nine)
    } else if c == '8' {
        Some(CardFace::Eight)
    } else if c == '7' {
        Some(CardFace::Seven)
    } else if c == '6' {
        Some(CardFace::Six)
    } else if c == '5' {
        Some(CardFace::Five)
    } else if c == '4' {
        Some(CardFace::Four)
    } else if c == '3' {
        Some(CardFace::Three)
    } else if c == '2' {
        Some(CardFace::Two)
    } else {
        None
    }
}

impl CardFace {
    /// The rank of the face: thirteen for the ace, one for the two.
    pub fn prio(&self) -> (p: i64)
        ensures
            p == face_prio(*self),
    {
        match self {
            CardFace::Ace => 13,
            CardFace::King => 12,
            CardFace::Queen => 11,
            CardFace::Jack => 10,
            CardFace::Ten => 9,
            CardFace::Nine => 8,
            CardFace::Eight => 7,
            CardFace::Seven => 6,
            CardFace::Six => 5,
            CardFace::Five => 4,
            CardFace::Four => 3,
            CardFace::Three => 2,
            CardFace::Two => 1,
        }
    }

    /// The face that a character stands for: `A`, `K`, `Q`, `J`, `T` or a
    /// digit from `9` down to `2`.
    pub fn from_char(c: char) -> (face: Option<CardFace>)
        ensures
            face == face_of(c),
    {
        if c == 'A' {
            Some(CardFace::Ace)
        } else if c == 'K' {
            Some(CardFace::King)
        } else if c == 'Q' {
            Some(CardFace::Queen)
        } else if c == 'J' {
            Some(CardFace::Jack)
        } else if c == 'T' {
            Some(CardFace::Ten)
        } else if c == '9' {
            Some(CardFace::Nine)
        } else if c == '8' {
            Some(CardFace::Eight)
        } else if c == '7' {
            Some(CardFace::Seven)
        } else if c == '6' {
            Some(CardFace::Six)
        } else if c == '5' {
            Some(CardFace::Five)
        } else if c == '4' {
            Some(CardFace::Four)
        } else if c == '3' {
            Some(CardFace::Three)
        } else if c == '2' {
            Some(CardFace::Two)
        } else {
            None
        }
    }
}

/// A card: its face, and the rank that it was given.
#[derive(Debug, Clone, Copy, PartialEq, Eq, Hash, Structural)]
pub struct Card {
    pub face: CardFace,
    pub prio: i64,
}

impl Default for Card {
    fn default() -> (card: Card)
        ensures
            card == blank_card(),
    {
        Card { face: CardFace::Ace, prio: 0 }
    }
}

/// The card of a place that no character has filled: an ace without rank.
pub open spec fn blank_card() -> Card {
    Card { face: CardFace::Ace, prio: 0 }
}

/// The card with the face `face` and the rank of that face.
pub open spec fn card_of(face: CardFace) -> Card {
    Card { face, prio: face_prio(face) as i64 }
}

/// A hand: five cards and a bid.
#[derive(Debug, PartialEq)]
pub struct Hand {
    pub cards: [Card; 5],
    pub bid: i64,
}

/// A hand as plain mathematical values.
pub ghost struct HandView {
    pub cards: Seq<Card>,
    pub bid: i64,
}

impl View for Hand {
    type V = HandView;

    open spec fn view(&self) -> HandView {
        HandView { cards: self.cards@, bid: self.bid }
    }
}

impl Default for Hand {
    fn default() -> (hand: Hand)
        ensures
            hand@ == (HandView { cards: Seq::new(5, |k: int| blank_card()), bid: 0 }),
    {
        let hand = Hand { cards: [Card::default();5], bid: 0 };
        assert(hand.cards@ == Seq::new(5, |k: int| blank_card()));
        hand
    }
}

/// The first index at or after `i` whose character stands for no face; the
/// length of `word` if there is none.
pub open spec fn faces_end(word: Seq<char>, i: int) -> int
    decreases word.len() - i,
{
    if 0 <= i < word.len() && face_of(word[i]) is Some {
        faces_end(word, i + 1)
    } else {
        i
    }
}

/// The characters before the end stand for faces, and the end is within the
/// word.
pub proof fn lemma_faces_end(word: Seq<char>, i: int)
    requires
        0 <= i <= word.len(),
    ensures
        i <= faces_end(word, i) <= word.len(),
        forall|k: int| i <= k < faces_end(word, i) ==> face_of(#[trigger] word[k]) is Some,
    decreases word.len() - i,
{
    if i < word.len() && face_of(word[i]) is Some {
        lemma_faces_end(word, i + 1);
    }
}

/// The five cards that the word `word` describes: its characters, in
/// order, fill the places from the first on, and a place that no character
/// fills holds the blank card. A character that stands for no face is a
/// syntax error, and a sixth card is not allowed; the characters are looked
/// at in order.
pub open spec fn cards_of(word: Seq<char>) -> Result<Seq<Card>, ParseError> {
    let bad = faces_end(word, 0);
    if bad < word.len() && bad <= 5 {
        Err(ParseError::SyntaxError { at: bad as usize })
    } else if word.len() > 5 {
        Err(ParseError::UnexpectedToken { at: 5 })
    } else {
        Ok(
            Seq::new(
                5,
                |k: int|
                    if k < word.len() {
                        card_of(face_of(word[k])->Some_0)
                    } else {
                        blank_card()
                    },
            ),
        )
    }
}

/// The hand that the line `line` describes: the cards up to the first
/// blank, and the bid after it, up to the next blank or the end of the
/// line. What follows the bid is not used. A line without a blank has no
/// bid: a missing field. The bid is a number that fits `i64`.
pub open spec fn hand_of(line: Seq<char>) -> Result<HandView, ParseError> {
    let p = find_from(line, ' ', 0);
    match cards_of(line.subrange(0, p)) {
        Err(e) => Err(e),
        Ok(cards) => if p >= line.len() {
            Err(ParseError::MissingField)
        } else {
            let q = find_from(line, ' ', p + 1);
            match number_of(line.subrange(p + 1, q), p + 1, i64::MAX as nat) {
                Err(e) => Err(e),
                Ok(bid) => Ok(HandView { cards, bid: bid as i64 }),
            }
        },
    }
}

/// How often the card `card` occurs among `cards`.
pub open spec fn count_of(cards: Seq<Card>, card: Card) -> nat
    decreases cards.len(),
{
    if cards.len() == 0 {
        0
    } else {
        count_of(cards.drop_last(), card) + if cards.last() == card {
            1nat
        } else {
            0nat
        }
    }
}

/// The largest number of equal cards, where only the cards before the index
/// `k` are asked how often they occur among all `cards`.
pub open spec fn largest_group_upto(cards: Seq<Card>, k: int) -> nat
    decreases k,
{
    if k <= 0 {
        0
    } else {
        let before = largest_group_upto(cards, k - 1);
        let here = count_of(cards, cards[k - 1]);
        if here > before {
            here
        } else {
            before
        }
    }
}

/// The largest number of equal cards among `cards`.
pub open spec fn largest_group(cards: Seq<Card>) -> nat {
    largest_group_upto(cards, cards.len() as int)
}

/// The kind of a hand: by the number of different cards, and by the largest
/// number of equal cards among them.
pub open spec fn hand_type(cards: Seq<Card>) -> HandType {
    let different = cards.to_set().len();
    let largest = largest_group(cards);
    if different == 1 {
        HandType::FiveOfAKind
    } else if different == 5 {
        HandType::HighCard
    } else if different == 2 && largest == 3 {
        HandType::FullHouse
    } else if different == 2 && largest == 4 {
        HandType::FourOfAKind
    } else if different == 3 && largest == 3 {
        HandType::ThreeOfAKind
    } else if different == 3 && largest == 2 {
        HandType::TwoPair
    } else if different == 4 {
        HandType::OnePair
    } else {
        HandType::Nothing
    }
}

/// How often `card` occurs among the five cards.
fn occurrences(cards: &[Card; 5], card: Card) -> (n: usize)
    ensures
        n == count_of(cards@, card),
        n <= 5,
{
    let mut n: usize = 0;
    let mut k: usize = 0;
    assert(cards@.take(0) == Seq::<Card>::empty());
    while k < 5
        invariant
            0 <= k <= 5,
            cards@.len() == 5,
            n == count_of(cards@.take(k as int), card),
            n <= k,
        decreases 5 - k,
    {
        assert(cards@.take(k + 1).drop_last() == cards@.take(k as int));
        if cards[k] == card {
            n += 1;
        }
        k += 1;
    }
    assert(cards@.take(5) == cards@);
    n
}

/// Tells whether `card` is one of `seen`.
fn is_among(seen: &Vec<Card>, card: Card) -> (b: bool)
    ensures
        b == seen@.contains(card),
{
    let mut k: usize = 0;
    while k < seen.len()
        invariant
            0 <= k <= seen.len(),
            forall|m: int| 0 <= m < k ==> seen@[m] != card,
        decreases seen.len() - k,
    {
        if seen[k] == card {
            return true;
        }
        k += 1;
    }
    false
}

impl Hand {
    /// Reads a hand from its line.
    ///
    /// Fails with `SyntaxError` at the first character before the first
    /// blank that stands for no face, with `UnexpectedToken` at a sixth
    /// card, with `MissingField` where no bid follows the cards, with
    /// `SyntaxError` at the first character of the bid that is no digit and
    /// with `NumberOutOfRange` at a bid that does not fit `i64`; the cards
    /// are looked at before the bid.
    pub fn from_str(line: &str) -> (r: Result<Hand, ParseError>)
        ensures
            match r {
                Ok(hand) => hand_of(line@) == Ok::<HandView, ParseError>(hand@),
                Err(e) => hand_of(line@) == Err::<HandView, ParseError>(e),
            },
    {
        let chars = chars_of(line);
        Hand::from_chars(&chars)
    }

    /// Reads a hand from the characters of its line.
    pub fn from_chars(chars: &Vec<char>) -> (r: Result<Hand, ParseError>)
        ensures
            match r {
                Ok(hand) => hand_of(chars@) == Ok::<HandView, ParseError>(hand@),
                Err(e) => hand_of(chars@) == Err::<HandView, ParseError>(e),
            },
    {
        let p = find(chars, ' ', 0);
        let ghost word = chars@.subrange(0, p as int);
        let mut hand = Hand::default();
        let mut i: usize = 0;
        while i < p
            invariant
                0 <= i <= p <= chars.len(),
                i <= 5,
                word == chars@.subrange(0, p as int),
                p == find_from(chars@, ' ', 0),
                faces_end(word, 0) == faces_end(word, i as int),
                hand.bid == 0,
                hand.cards@ == Seq::new(
                    5,
                    |k: int|
                        if k < i {
                            card_of(face_of(word[k])->Some_0)
                        } else {
                            blank_card()
                        },
                ),
            decreases p - i,
        {
            assert(word[i as int] == chars@[i as int]);
            match CardFace::from_char(chars[i]) {
                None => {
                    return Err(ParseError::SyntaxError { at: i });
                },
                Some(face) => {
                    if i >= 5 {
                        proof {
                            lemma_faces_end(word, i + 1);
                        }
                        return Err(ParseError::UnexpectedToken { at: 5 });
                    }
                    hand.cards[i] = Card { face, prio: face.prio() };
                },
            }
            i += 1;
        }
        proof {
            lemma_faces_end(word, i as int);
        }
        if p >= chars.len() {
            return Err(ParseError::MissingField);
        }
        let q = find(chars, ' ', p + 1);
        let bid = read_number(chars, p + 1, q, i64::MAX as u64)?;
        hand.bid = bid as i64;
        Ok(hand)
    }

    /// The kind of the hand.
    pub fn score(&self) -> (kind: HandType)
        ensures
            kind == hand_type(self.cards@),
    {
        let ghost cards = self.cards@;
        let mut seen: Vec<Card> = Vec::new();
        let mut largest: usize = 0;
        let mut i: usize = 0;
        assert(cards.take(0).to_set() == Set::<Card>::empty());
        assert(seen@.to_set() == Set::<Card>::empty());
        while i < 5
            invariant
                0 <= i <= 5,
                cards == self.cards@,
                cards.len() == 5,
                seen@.no_duplicates(),
                seen@.to_set() == cards.take(i as int).to_set(),
                largest == largest_group_upto(cards, i as int),
            decreases 5 - i,
        {
            let card = self.cards[i];
            let n = occurrences(&self.cards, card);
            if n > largest {
                largest = n;
            }
            let ghost before = seen@;
            let known = is_among(&seen, card);
            if !known {
                seen.push(card);
            }
            proof {
                let more = cards.take(i + 1);
                let fewer = cards.take(i as int);
                assert(more == fewer.push(card));
                assert(seen@.to_set() =~= more.to_set()) by {
                    assert forall|x: Card| seen@.to_set().contains(x) <==> more.to_set().contains(
                        x,
                    ) by {
                        if seen@.contains(x) {
                            let m = choose|m: int| 0 <= m < seen@.len() && seen@[m] == x;
                            if m < before.len() {
                                assert(before[m] == x);
                                assert(before.to_set().contains(x));
                                assert(fewer.contains(x));
                                let k = choose|k: int| 0 <= k < fewer.len() && fewer[k] == x;
                                assert(more[k] == x);
                            } else {
                                assert(more[i as int] == x);
                            }
                        }
                        if more.contains(x) {
                            let k = choose|k: int| 0 <= k < more.len() && more[k] == x;
                            if k < i {
                                assert(fewer[k] == x);
                                assert(fewer.to_set().contains(x));
                                assert(before.contains(x));
                                let m = choose|m: int| 0 <= m < before.len() && before[m] == x;
                                assert(seen@[m] == x);
                            } else if known {
                                let m = choose|m: int| 0 <= m < before.len() && before[m] == x;
                                assert(seen@[m] == x);
                            } else {
                                assert(seen@[before.len() as int] == x);
                            }
                        }
                    }
                }
            }
            i += 1;
        }
        proof {
            assert(cards.take(5) == cards);
            seen@.unique_seq_to_set();
        }
        let different = seen.len();
        if different == 1 {
            return HandType::FiveOfAKind;
        }
        if different == 5 {
            return HandType::HighCard;
        }
        if different == 2 {
            if largest == 3 {
                return HandType::FullHouse;
            }
            if largest == 4 {
                return HandType::FourOfAKind;
            }
        }
        if different == 3 {
            if largest == 3 {
                return HandType::ThreeOfAKind;
            }
            if largest == 2 {
                return HandType::TwoPair;
            }
        }
        if different == 4 {
            return HandType::OnePair;
        }
        HandType::Nothing
    }
}

impl PartialOrd for Hand {
    /// Orders two hands by the rank of their first cards.
    fn partial_cmp(&self, other: &Self) -> (r: Option<Ordering>) {
        if self.cards[0].prio < other.cards[0].prio {
            return Some(Ordering::Less);
        }
        if self.cards[0].prio > other.cards[0].prio {
            return Some(Ordering::Greater);
        }
        Some(Ordering::Equal)
    }
}

impl vstd::std_specs::cmp::PartialOrdSpecImpl for Hand {
    open spec fn obeys_partial_cmp_spec() -> bool {
        true
    }

    open spec fn partial_cmp_spec(&self, other: &Self) -> Option<Ordering> {
        if self.cards@[0].prio < other.cards@[0].prio {
            Some(Ordering::Less)
        } else if self.cards@[0].prio > other.cards@[0].prio {
            Some(Ordering::Greater)
        } else {
            Some(Ordering::Equal)
        }
    }
}

/// The hands of a text, read one after the other.
#[derive(Debug)]
pub struct Hands {
    pub hands: Vec<Hand>,
}

impl View for Hands {
    type V = Seq<HandView>;

    open spec fn view(&self) -> Seq<HandView> {
        Seq::new(self.hands@.len(), |k: int| self.hands@[k]@)
    }
}

impl Default for Hands {
    fn default() -> (hands: Hands)
        ensures
            hands@ == Seq::<HandView>::empty(),
    {
        let hands = Hands { hands: Vec::new() };
        assert(hands@ == Seq::<HandView>::empty());
        hands
    }
}

/// The hands of the lines from the index `i` on, or the error of the first
/// line that has one.
pub open spec fn hands_from(lines: Seq<Seq<char>>, i: int) -> Result<Seq<HandView>, ParseError>
    decreases lines.len() - i,
{
    if i < 0 || i >= lines.len() {
        Ok(Seq::empty())
    } else {
        match hand_of(lines[i]) {
            Err(e) => Err(e),
            Ok(hand) => followed_by(seq![hand], hands_from(lines, i + 1)),
        }
    }
}

/// The hands of a text, a hand for each of its lines.
pub open spec fn hands_of(s: Seq<char>) -> Result<Seq<HandView>, ParseError> {
    hands_from(lines_of(s), 0)
}

impl Hands {
    /// Reads the hands of a text, a hand for each of its lines. Fails with
    /// the error of the first line that has one.
    pub fn from_str(s: &str) -> (r: Result<Hands, ParseError>)
        ensures
            match r {
                Ok(hands) => hands_of(s@) == Ok::<Seq<HandView>, ParseError>(hands@),
                Err(e) => hands_of(s@) == Err::<Seq<HandView>, ParseError>(e),
            },
    {
        let chars = chars_of(s);
        let lines = split_lines(&chars);
        let mut hands = Hands::default();
        let mut i: usize = 0;
        proof {
            if let Ok(all) = hands_from(lines_of(s@), 0) {
                assert(Seq::<HandView>::empty() + all == all);
            }
        }
        while i < lines.len()
            invariant
                0 <= i <= lines.len(),
                views(lines@) == lines_of(s@),
                hands_of(s@) == followed_by(hands@, hands_from(lines_of(s@), i as int)),
            decreases lines.len() - i,
        {
            assert(views(lines@)[i as int] == lines@[i as int]@);
            let hand = Hand::from_chars(&lines[i])?;
            let ghost before = hands@;
            let ghost view = hand@;
            hands.hands.push(hand);
            proof {
                assert(hands@ == before.push(view));
                if let Ok(more) = hands_from(lines_of(s@), i + 1) {
                    assert(before + (seq![view] + more) == before.push(view) + more);
                }
            }
            i += 1;
        }
        assert(hands@ + Seq::<HandView>::empty() == hands@);
        Ok(hands)
    }
}

} // verus!
