//! The deck: the 52 standard cards in order, a shuffle, and single-card
//! draws from the top (the end of the sequence).

use vstd::prelude::*;
use vstd::arithmetic::div_mod::lemma_fundamental_div_mod;
use vstd::arithmetic::div_mod::lemma_fundamental_div_mod_converse_div;
use vstd::arithmetic::div_mod::lemma_fundamental_div_mod_converse_mod;
use crate::card::Card;
use crate::card::CardRank;
use crate::card::CardSuit;

verus! {

/// The rank at position `i` of the canonical order, ace first.
pub open spec fn rank_of_index(i: int) -> CardRank {
    if i == 0 {
        CardRank::Ace
    } else if i == 1 {
        CardRank::Two
    } else if i == 2 {
        CardRank::Three
    } else if i == 3 {
        CardRank::Four
    } else if i == 4 {
        CardRank::Five
    } else if i == 5 {
        CardRank::Six
    } else if i == 6 {
        CardRank::Seven
    } else if i == 7 {
        CardRank::Eight
    } else if i == 8 {
        CardRank::Nine
    } else if i == 9 {
        CardRank::Ten
    } else if i == 10 {
        CardRank::Jack
    } else if i == 11 {
        CardRank::Queen
    } else {
        CardRank::King
    }
}

/// The position of a rank in the canonical order.
pub open spec fn rank_index(r: CardRank) -> int {
    match r {
        CardRank::Ace => 0,
        CardRank::Two => 1,
        CardRank::Three => 2,
        CardRank::Four => 3,
        CardRank::Five => 4,
        CardRank::Six => 5,
        CardRank::Seven => 6,
        CardRank::Eight => 7,
        CardRank::Nine => 8,
        CardRank::Ten => 9,
        CardRank::Jack => 10,
        CardRank::Queen => 11,
        CardRank::King => 12,
    }
}

/// The suit at position `j` of the fixed order used within each rank.
pub open spec fn suit_of_index(j: int) -> CardSuit {
    if j == 0 {
        CardSuit::Diamond
    } else if j == 1 {
        CardSuit::Club
    } else if j == 2 {
        CardSuit::Heart
    } else {
        CardSuit::Spade
    }
}

/// The position of a suit in the fixed order.
pub open spec fn suit_index(s: CardSuit) -> int {
    match s {
        CardSuit::Diamond => 0,
        CardSuit::Club => 1,
        CardSuit::Heart => 2,
        CardSuit::Spade => 3,
    }
}

/// The card at position `k` of the canonical 52-card order: ranks ace to
/// king, and the four suits in the fixed order within each rank.
pub open spec fn ordered_card(k: int) -> Card {
    Card { rank: rank_of_index(k / 4), suit: suit_of_index(k % 4) }
}

/// A sequence that holds all 52 cards, each exactly once.
pub open spec fn full_deck(s: Seq<Card>) -> bool {
    &&& s.len() == 52
    &&& s.no_duplicates()
    &&& forall|c: Card| s.contains(c)
}

/// A permutation of a sequence with all 52 cards, each exactly once, again
/// holds all 52 cards, each exactly once.
pub proof fn lemma_permutation_keeps_full_deck(a: Seq<Card>, b: Seq<Card>)
    requires
        full_deck(a),
        a.to_multiset() == b.to_multiset(),
    ensures
        full_deck(b),
{
    broadcast use vstd::seq_lib::group_to_multiset_ensures;
    broadcast use vstd::multiset::group_multiset_axioms;

    a.lemma_multiset_has_no_duplicates();
    assert forall|x: Card| b.to_multiset().contains(x) implies b.to_multiset().count(x) == 1 by {
        assert(a.to_multiset().contains(x));
    }
    b.lemma_multiset_has_no_duplicates_conv();
    assert(a.len() == a.to_multiset().len());
    assert(b.len() == b.to_multiset().len());
    assert forall|c: Card| b.contains(c) by {
        assert(a.contains(c));
        assert(a.to_multiset().count(c) > 0);
        assert(b.to_multiset().count(c) > 0);
    }
}

/// Within the canonical order, position determines the rank back again.
proof fn lemma_rank_index_of_index(i: int)
    requires
        0 <= i < 13,
    ensures
        rank_index(rank_of_index(i)) == i,
{
}

/// Within the fixed suit order, position determines the suit back again.
proof fn lemma_suit_index_of_index(j: int)
    requires
        0 <= j < 4,
    ensures
        suit_index(suit_of_index(j)) == j,
{
}

/// Every rank sits at its own position of the canonical order, and every
/// suit at its own position of the fixed order.
proof fn lemma_rank_suit_roundtrip(c: Card)
    ensures
        0 <= rank_index(c.rank) < 13,
        0 <= suit_index(c.suit) < 4,
        rank_of_index(rank_index(c.rank)) == c.rank,
        suit_of_index(suit_index(c.suit)) == c.suit,
{
}

/// Drawing from the top of a deck with no repeated card never repeats a
/// card: the drawn top differs from every card still in the deck, and in
/// particular from the next draw's.
pub proof fn lemma_successive_draws_differ(s: Seq<Card>)
    requires
        s.no_duplicates(),
        s.len() >= 2,
    ensures
        !s.drop_last().contains(s.last()),
        s.last() != s.drop_last().last(),
{
    assert forall|i: int| 0 <= i < s.len() - 1 implies s.drop_last()[i] != s.last() by {
        assert(s[i] != s[s.len() - 1]);
    }
}

/// The 52 standard cards, owned by one game for one round, drawn from the
/// end of the sequence.
pub struct Deck(pub Vec<Card>);

impl View for Deck {
    type V = Seq<Card>;

    open spec fn view(&self) -> Seq<Card> {
        self.0@
    }
}

/// The rank at position `i` of the canonical order.
fn rank_for(i: usize) -> (r: CardRank)
    requires
        i < 13,
    ensures
        r == rank_of_index(i as int),
{
    if i == 0 {
        CardRank::Ace
    } else if i == 1 {
        CardRank::Two
    } else if i == 2 {
        CardRank::Three
    } else if i == 3 {
        CardRank::Four
    } else if i == 4 {
        CardRank::Five
    } else if i == 5 {
        CardRank::Six
    } else if i == 6 {
        CardRank::Seven
    } else if i == 7 {
        CardRank::Eight
    } else if i == 8 {
        CardRank::Nine
    } else if i == 9 {
        CardRank::Ten
    } else if i == 10 {
        CardRank::Jack
    } else if i == 11 {
        CardRank::Queen
    } else {
        CardRank::King
    }
}

/// Relies on rand's `SliceRandom::shuffle` (a Fisher-Yates pass driven by
/// the thread-local generator): it permutes the slice in place, so the
/// multiset of elements is unchanged.
#[verifier::external_body]
fn shuffle_cards(cards: &mut Vec<Card>)
    ensures
        final(cards)@.to_multiset() == old(cards)@.to_multiset(),
{
    let mut rng = rand::rng();
    rand::seq::SliceRandom::shuffle(cards.as_mut_slice(), &mut rng);
}

impl Deck {
    /// A deck that never holds the same card twice.
    pub open spec fn wf(self) -> bool {
        self@.no_duplicates()
    }

    /// The canonical 52-card sequence: ranks ace to king, and within each
    /// rank the four suits in the fixed order. Every (rank, suit) pair
    /// appears exactly once.
    pub fn build_ordered() -> (r: Vec<Card>)
        ensures
            r@.len() == 52,
            forall|k: int| 0 <= k < 52 ==> r@[k] == ordered_card(k),
            full_deck(r@),
    {
        let mut cards: Vec<Card> = Vec::new();
        let mut i: usize = 0;
        while i < 13
            invariant
                i <= 13,
                cards@.len() == 4 * i,
                forall|k: int| 0 <= k < 4 * i ==> cards@[k] == ordered_card(k),
            decreases 13 - i,
        {
            let rank = rank_for(i);
            cards.push(Card { rank, suit: CardSuit::Diamond });
            cards.push(Card { rank, suit: CardSuit::Club });
            cards.push(Card { rank, suit: CardSuit::Heart });
            cards.push(Card { rank, suit: CardSuit::Spade });
            proof {
                let ii = i as int;
                assert forall|k: int| 0 <= k < 4 * (ii + 1) implies cards@[k] == ordered_card(
                    k,
                ) by {
                    if k >= 4 * ii {
                        let j = k - 4 * ii;
                        lemma_fundamental_div_mod_converse_div(k, 4, ii, j);
                        lemma_fundamental_div_mod_converse_mod(k, 4, ii, j);
                        assert(ordered_card(k) == Card {
                            rank: rank_of_index(ii),
                            suit: suit_of_index(j),
                        });
                    }
                }
            }
            i = i + 1;
        }
        proof {
            lemma_ordered_is_full(cards@);
        }
        cards
    }

    /// Permutes the deck in place. Which order comes out is up to the random
    /// source; the cards themselves are exactly those that went in.
    pub fn shuffle(&mut self)
        ensures
            final(self)@.to_multiset() == old(self)@.to_multiset(),
    {
        shuffle_cards(&mut self.0);
    }

    /// A ready-to-play deck: the canonical 52 cards, shuffled. Holds every
    /// (rank, suit) pair exactly once.
    pub fn new() -> (r: Deck)
        ensures
            full_deck(r@),
            r.wf(),
    {
        let mut deck = Deck(Self::build_ordered());
        let ghost before = deck@;
        deck.shuffle();
        proof {
            lemma_permutation_keeps_full_deck(before, deck@);
        }
        deck
    }

    /// Removes and returns the top card (the end of the sequence). A deck
    /// without repeated cards stays that way, and never again holds the
    /// card it just gave out.
    pub fn take(&mut self) -> (r: Card)
        requires
            old(self)@.len() > 0,
        ensures
            r == old(self)@.last(),
            final(self)@ == old(self)@.drop_last(),
            old(self).wf() ==> final(self).wf() && !final(self)@.contains(r),
    {
        proof {
            if old(self).wf() {
                lemma_take_keeps_wf(old(self)@);
            }
        }
        let c = self.0.pop().unwrap();
        proof {
            assert(final(self)@ =~= old(self)@.drop_last());
        }
        c
    }

    /// Draws the two top cards, top first: the opening hand of a player.
    pub fn deal_cards(&mut self) -> (r: Vec<Card>)
        requires
            old(self)@.len() >= 2,
        ensures
            r@ =~= seq![old(self)@.last(), old(self)@.drop_last().last()],
            final(self)@ == old(self)@.take(old(self)@.len() - 2),
            old(self).wf() ==> final(self).wf(),
    {
        let first = self.take();
        let second = self.take();
        let mut r: Vec<Card> = Vec::new();
        r.push(first);
        r.push(second);
        proof {
            assert(final(self)@ =~= old(self)@.take(old(self)@.len() - 2));
        }
        r
    }
}

proof fn lemma_take_keeps_wf(s: Seq<Card>)
    requires
        s.no_duplicates(),
        s.len() > 0,
    ensures
        s.drop_last().no_duplicates(),
        !s.drop_last().contains(s.last()),
{
    assert forall|i: int| 0 <= i < s.len() - 1 implies s.drop_last()[i] != s.last() by {
        assert(s[i] != s[s.len() - 1]);
    }
}

proof fn lemma_ordered_is_full(s: Seq<Card>)
    requires
        s.len() == 52,
        forall|k: int| 0 <= k < 52 ==> s[k] == ordered_card(k),
    ensures
        full_deck(s),
{
    assert forall|k1: int, k2: int| 0 <= k1 < 52 && 0 <= k2 < 52 && k1 != k2 implies s[k1]
        != s[k2] by {
        lemma_fundamental_div_mod(k1, 4);
        lemma_fundamental_div_mod(k2, 4);
        assert(0 <= k1 / 4 < 13 && 0 <= k1 % 4 < 4);
        assert(0 <= k2 / 4 < 13 && 0 <= k2 % 4 < 4);
        lemma_rank_index_of_index(k1 / 4);
        lemma_rank_index_of_index(k2 / 4);
        lemma_suit_index_of_index(k1 % 4);
        lemma_suit_index_of_index(k2 % 4);
        assert(s[k1] == ordered_card(k1) && s[k2] == ordered_card(k2));
        if s[k1] == s[k2] {
            assert(rank_of_index(k1 / 4) == rank_of_index(k2 / 4));
            assert(k1 / 4 == k2 / 4);
            assert(k1 % 4 == k2 % 4);
            assert(false);
        }
    }
    assert forall|c: Card| s.contains(c) by {
        lemma_rank_suit_roundtrip(c);
        let k = 4 * rank_index(c.rank) + suit_index(c.suit);
        lemma_fundamental_div_mod_converse_div(k, 4, rank_index(c.rank), suit_index(c.suit));
        lemma_fundamental_div_mod_converse_mod(k, 4, rank_index(c.rank), suit_index(c.suit));
        assert(s[k] == ordered_card(k));
        assert(ordered_card(k) == c);
    }
}

} // verus!
