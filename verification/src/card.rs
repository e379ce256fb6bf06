//! The card model: ranks, suits, and the (rank, suit) pair a deck is made of.

use vstd::prelude::*;
use vstd::string::StringExecFns;

verus! {

/// The scoring value of a rank: a fixed number of points, or the ace's
/// low/high pair.
#[derive(Clone, Copy, Debug, PartialEq, Eq, Structural)]
pub enum RankValue {
    Standard(u8),
    Ace(u8, u8),
}

/// One of the thirteen ranks of a standard deck.
#[derive(Clone, Copy, Debug, PartialEq, Eq, Structural)]
pub enum CardRank {
    Ace,
    Two,
    Three,
    Four,
    Five,
    Six,
    Seven,
    Eight,
    Nine,
    Ten,
    Jack,
    Queen,
    King,
}

/// One of the four suits. Suits carry no score; they only give each card its
/// identity and glyph.
#[derive(Clone, Copy, Debug, PartialEq, Eq, Structural)]
pub enum CardSuit {
    Club,
    Diamond,
    Heart,
    Spade,
}

impl CardRank {
    /// The scoring value of this rank: aces are the (1, 11) pair, face cards
    /// count 10, and every other rank counts its own number.
    pub open spec fn spec_value(self) -> RankValue {
        match self {
            CardRank::Ace => RankValue::Ace(1, 11),
            CardRank::Two => RankValue::Standard(2),
            CardRank::Three => RankValue::Standard(3),
            CardRank::Four => RankValue::Standard(4),
            CardRank::Five => RankValue::Standard(5),
            CardRank::Six => RankValue::Standard(6),
            CardRank::Seven => RankValue::Standard(7),
            CardRank::Eight => RankValue::Standard(8),
            CardRank::Nine => RankValue::Standard(9),
            CardRank::Ten => RankValue::Standard(10),
            CardRank::Jack => RankValue::Standard(10),
            CardRank::Queen => RankValue::Standard(10),
            CardRank::King => RankValue::Standard(10),
        }
    }

    /// The one- or two-character glyph of this rank.
    pub open spec fn glyph(self) -> Seq<char> {
        match self {
            CardRank::Ace => "A"@,
            CardRank::Two => "2"@,
            CardRank::Three => "3"@,
            CardRank::Four => "4"@,
            CardRank::Five => "5"@,
            CardRank::Six => "6"@,
            CardRank::Seven => "7"@,
            CardRank::Eight => "8"@,
            CardRank::Nine => "9"@,
            CardRank::Ten => "10"@,
            CardRank::Jack => "J"@,
            CardRank::Queen => "Q"@,
            CardRank::King => "K"@,
        }
    }

    pub fn value(&self) -> (r: RankValue)
        ensures
            r == self.spec_value(),
    {
        match self {
            CardRank::Ace => RankValue::Ace(1, 11),
            CardRank::Two => RankValue::Standard(2),
            CardRank::Three => RankValue::Standard(3),
            CardRank::Four => RankValue::Standard(4),
            CardRank::Five => RankValue::Standard(5),
            CardRank::Six => RankValue::Standard(6),
            CardRank::Seven => RankValue::Standard(7),
            CardRank::Eight => RankValue::Standard(8),
            CardRank::Nine => RankValue::Standard(9),
            CardRank::Ten => RankValue::Standard(10),
            CardRank::Jack => RankValue::Standard(10),
            CardRank::Queen => RankValue::Standard(10),
            CardRank::King => RankValue::Standard(10),
        }
    }

    pub fn display(&self) -> (r: &'static str)
        ensures
            r@ == self.glyph(),
    {
        match self {
            CardRank::Ace => "A",
            CardRank::Two => "2",
            CardRank::Three => "3",
            CardRank::Four => "4",
            CardRank::Five => "5",
            CardRank::Six => "6",
            CardRank::Seven => "7",
            CardRank::Eight => "8",
            CardRank::Nine => "9",
            CardRank::Ten => "10",
            CardRank::Jack => "J",
            CardRank::Queen => "Q",
            CardRank::King => "K",
        }
    }
}

impl CardSuit {
    /// The one-character glyph of this suit.
    pub open spec fn glyph(self) -> Seq<char> {
        match self {
            CardSuit::Club => "\u{2663}"@,
            CardSuit::Diamond => "\u{2666}"@,
            CardSuit::Heart => "\u{2665}"@,
            CardSuit::Spade => "\u{2660}"@,
        }
    }

    pub fn display(&self) -> (r: &'static str)
        ensures
            r@ == self.glyph(),
    {
        match self {
            CardSuit::Club => "\u{2663}",
            CardSuit::Diamond => "\u{2666}",
            CardSuit::Heart => "\u{2665}",
            CardSuit::Spade => "\u{2660}",
        }
    }
}

/// A single card: a rank and a suit. Equal by value; a standard deck holds
/// exactly one card of each of the 52 (rank, suit) combinations.
#[derive(Clone, Copy, Debug, PartialEq, Eq, Structural)]
pub struct Card {
    pub rank: CardRank,
    pub suit: CardSuit,
}

impl Card {
    /// The text of a card: its rank and suit glyphs between brackets,
    /// separated by single spaces.
    pub open spec fn text(self) -> Seq<char> {
        "["@ + " "@ + self.rank.glyph() + " "@ + self.suit.glyph() + " "@ + "]"@
    }

    pub fn value(&self) -> (r: RankValue)
        ensures
            r == self.rank.spec_value(),
    {
        self.rank.value()
    }

    pub fn display(&self) -> (r: String)
        ensures
            r@ == self.text(),
    {
        let mut s = String::new();
        s.append("[");
        s.append(" ");
        s.append(self.rank.display());
        s.append(" ");
        s.append(self.suit.display());
        s.append(" ");
        s.append("]");
        proof {
            assert(s@ =~= self.text());
        }
        s
    }
}

} // verus!
