use blackjack::card::Card;
use blackjack::card::CardRank;
use blackjack::card::CardSuit;
use blackjack::deck::Deck;

fn card(rank: CardRank, suit: CardSuit) -> Card {
    Card { rank, suit }
}

#[test]
fn build_ordered_has_fifty_two_cards_in_canonical_order() {
    let cards = Deck::build_ordered();
    assert_eq!(cards.len(), 52);
    assert_eq!(cards[0], card(CardRank::Ace, CardSuit::Diamond));
    assert_eq!(cards[1], card(CardRank::Ace, CardSuit::Club));
    assert_eq!(cards[2], card(CardRank::Ace, CardSuit::Heart));
    assert_eq!(cards[3], card(CardRank::Ace, CardSuit::Spade));
    assert_eq!(cards[4], card(CardRank::Two, CardSuit::Diamond));
    assert_eq!(cards[51], card(CardRank::King, CardSuit::Spade));
}

#[test]
fn build_ordered_has_each_pair_exactly_once() {
    let cards = Deck::build_ordered();
    for i in 0..cards.len() {
        let mut occurrences = 0;
        for j in 0..cards.len() {
            if cards[i] == cards[j] {
                occurrences += 1;
            }
        }
        assert_eq!(occurrences, 1);
    }
}

#[test]
fn new_deck_is_a_permutation_of_the_ordered_deck() {
    let deck = Deck::new();
    assert_eq!(deck.0.len(), 52);
    let ordered = Deck::build_ordered();
    for c in &ordered {
        let mut occurrences = 0;
        for d in &deck.0 {
            if c == d {
                occurrences += 1;
            }
        }
        assert_eq!(occurrences, 1);
    }
}

#[test]
fn shuffle_keeps_the_same_cards() {
    let mut deck = Deck(Deck::build_ordered());
    deck.shuffle();
    assert_eq!(deck.0.len(), 52);
    let ordered = Deck::build_ordered();
    for c in &ordered {
        let mut occurrences = 0;
        for d in &deck.0 {
            if c == d {
                occurrences += 1;
            }
        }
        assert_eq!(occurrences, 1);
    }
}

#[test]
fn take_removes_the_top_card() {
    let a = card(CardRank::Two, CardSuit::Club);
    let b = card(CardRank::Nine, CardSuit::Heart);
    let mut deck = Deck(vec![a, b]);
    let first = deck.take();
    assert_eq!(first, b);
    assert_eq!(deck.0.len(), 1);
    let second = deck.take();
    assert_eq!(second, a);
    assert_eq!(deck.0.len(), 0);
}

#[test]
fn repeated_takes_never_repeat_a_card() {
    let mut deck = Deck::new();
    let mut drawn: Vec<Card> = Vec::new();
    for _ in 0..52 {
        drawn.push(deck.take());
    }
    assert_eq!(deck.0.len(), 0);
    for i in 0..drawn.len() {
        for j in 0..drawn.len() {
            if i != j {
                assert_ne!(drawn[i], drawn[j]);
            }
        }
    }
}

#[test]
fn deal_cards_draws_the_two_top_cards() {
    let a = card(CardRank::Two, CardSuit::Club);
    let b = card(CardRank::Nine, CardSuit::Heart);
    let c = card(CardRank::King, CardSuit::Spade);
    let mut deck = Deck(vec![a, b, c]);
    let dealt = deck.deal_cards();
    assert_eq!(dealt, vec![c, b]);
    assert_eq!(deck.0, vec![a]);
}
