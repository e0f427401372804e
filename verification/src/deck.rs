//! A deck of scratch cards, each with the number of its copies. A card
//! with matches wins a copy of each of the next cards, as many cards as it
//! has matches, for each of its own copies.

use vstd::prelude::*;
use crate::card::{Card, CardView};

verus! {

/// A card with a count of the number of copies of it in the deck.
#[derive(Debug)]
pub struct CardWithCount {
    pub card: Card,
    pub count: i64,
}

/// A card with its count, as plain mathematical values.
pub ghost struct CountedCard {
    pub card: CardView,
    pub matches: nat,
    pub count: int,
}

impl View for CardWithCount {
    type V = CountedCard;

    open spec fn view(&self) -> CountedCard {
        CountedCard { card: self.card@, matches: self.card.matches(), count: self.count as int }
    }
}

impl CardWithCount {
    /// The card.
    pub fn card(&self) -> (card: &Card)
        ensures
            card == &self.card,
    {
        &self.card
    }

    /// Adds `count` copies of the card.
    pub fn add_copies(&mut self, count: i64)
        requires
            i64::MIN <= old(self).count + count <= i64::MAX,
        ensures
            final(self).count == old(self).count + count,
            final(self).card == old(self).card,
    {
        self.count += count;
    }
}

/// The cards of a deck, in the order in which they were added.
#[derive(Debug)]
pub struct Deck {
    pub cards: Vec<CardWithCount>,
}

impl View for Deck {
    type V = Seq<CountedCard>;

    open spec fn view(&self) -> Seq<CountedCard> {
        Seq::new(self.cards@.len(), |k: int| self.cards@[k]@)
    }
}

/// The deck after the card at the index `i` has given its copies: each of
/// the next cards, as many as the card has matches, gets as many copies as
/// the card has.
pub open spec fn after_card(deck: Seq<CountedCard>, i: int) -> Seq<CountedCard> {
    Seq::new(
        deck.len(),
        |j: int|
            if i < j <= i + deck[i].matches {
                CountedCard { count: deck[j].count + deck[i].count, ..deck[j] }
            } else {
                deck[j]
            },
    )
}

/// The deck after the cards from the index `i` on have given their copies,
/// one after the other.
pub open spec fn after_wins(deck: Seq<CountedCard>, i: int) -> Seq<CountedCard>
    decreases deck.len() - i,
{
    if i < 0 || i >= deck.len() {
        deck
    } else {
        after_wins(after_card(deck, i), i + 1)
    }
}

/// Every count of the deck fits `i64`.
pub open spec fn counts_fit(deck: Seq<CountedCard>) -> bool {
    forall|j: int| 0 <= j < deck.len() ==> i64::MIN <= (#[trigger] deck[j]).count <= i64::MAX
}

/// The counts fit `i64` after each of the cards from the index `i` on has
/// given its copies.
pub open spec fn wins_fit(deck: Seq<CountedCard>, i: int) -> bool
    decreases deck.len() - i,
{
    if i < 0 || i >= deck.len() {
        true
    } else {
        counts_fit(after_card(deck, i)) && wins_fit(after_card(deck, i), i + 1)
    }
}

/// The sum of the counts of the first `k` cards.
pub open spec fn total(deck: Seq<CountedCard>, k: int) -> int
    decreases k,
{
    if k <= 0 {
        0
    } else {
        total(deck, k - 1) + deck[k - 1].count
    }
}

impl Default for Deck {
    fn default() -> (deck: Deck)
        ensures
            deck@ == Seq::<CountedCard>::empty(),
    {
        let deck = Deck { cards: Vec::new() };
        assert(deck@ == Seq::<CountedCard>::empty());
        deck
    }
}

impl Deck {
    /// A deck without cards.
    pub fn new() -> (deck: Deck)
        ensures
            deck@ == Seq::<CountedCard>::empty(),
    {
        Deck::default()
    }

    /// Adds one copy of `card` after the cards of the deck.
    pub fn add(&mut self, card: Card)
        ensures
            final(self)@ == old(self)@.push(
                CountedCard { card: card@, matches: card.matches(), count: 1 },
            ),
    {
        self.cards.push(CardWithCount { card, count: 1 });
        assert(self@ == old(self)@.push(
            CountedCard { card: card@, matches: card.matches(), count: 1 },
        ));
    }

    /// Lets each card, from the first to the last, give its copies.
    pub fn process_wins(&mut self)
        requires
            wins_fit(old(self)@, 0),
        ensures
            final(self)@ == after_wins(old(self)@, 0),
    {
        let n = self.cards.len();
        let mut i: usize = 0;
        while i < n
            invariant
                0 <= i <= n,
                n == self.cards.len(),
                wins_fit(self@, i as int),
                after_wins(old(self)@, 0) == after_wins(self@, i as int),
            decreases n - i,
        {
            let ghost before = self@;
            let count = self.cards[i].count;
            let matches = self.cards[i].card().correct_numbers().len();
            let stop = if matches >= n - i - 1 {
                n
            } else {
                i + 1 + matches
            };
            let mut j: usize = i + 1;
            while j < stop
                invariant
                    0 <= i < n,
                    i < j <= stop <= n,
                    n == self.cards.len(),
                    before.len() == n,
                    matches == before[i as int].matches,
                    count == before[i as int].count,
                    stop == if matches >= n - i - 1 {
                        n as int
                    } else {
                        i + 1 + matches
                    },
                    counts_fit(after_card(before, i as int)),
                    self@ == Seq::new(
                        n as nat,
                        |k: int|
                            if i < k < j {
                                after_card(before, i as int)[k]
                            } else {
                                before[k]
                            },
                    ),
                decreases stop - j,
            {
                let ghost inner = self@;
                assert(after_card(before, i as int)[j as int].count == before[j as int].count
                    + count);
                assert(inner[j as int] == before[j as int]);
                self.cards[j].add_copies(count);
                assert(self@ == Seq::new(
                    n as nat,
                    |k: int|
                        if i < k < j + 1 {
                            after_card(before, i as int)[k]
                        } else {
                            before[k]
                        },
                )) by {
                    assert forall|k: int| 0 <= k < n implies self@[k] == if i < k < j + 1 {
                        after_card(before, i as int)[k]
                    } else {
                        before[k]
                    } by {
                        if k != j {
                            assert(self@[k] == inner[k]);
                        }
                    }
                }
                j += 1;
            }
            assert(self@ == after_card(before, i as int));
            i += 1;
        }
    }

    /// The number of cards in the deck, copies included.
    pub fn number_of_cards(&self) -> (sum: i64)
        requires
            i64::MIN <= total(self@, self@.len() as int) <= i64::MAX,
        ensures
            sum == total(self@, self@.len() as int),
    {
        let mut sum: i128 = 0;
        let mut k: usize = 0;
        while k < self.cards.len()
            invariant
                0 <= k <= self.cards.len(),
                sum == total(self@, k as int),
                -(k as int) * 0x8000_0000_0000_0000 <= sum <= (k as int) * 0x8000_0000_0000_0000,
            decreases self.cards.len() - k,
        {
            assert(self@[k as int].count == self.cards@[k as int].count);
            sum = sum + self.cards[k].count as i128;
            k += 1;
        }
        sum as i64
    }
}

} // verus!
