use blackjack::card::Card;
use blackjack::card::CardRank;
use blackjack::card::CardSuit;
use blackjack::card::RankValue;
use blackjack::hand::Hand;

fn card(rank: CardRank, suit: CardSuit) -> Card {
    Card { rank, suit }
}

fn hand_of(ranks: &[CardRank]) -> Hand {
    let mut cards = Vec::new();
    for r in ranks {
        cards.push(card(*r, CardSuit::Club));
    }
    Hand(cards)
}

#[test]
fn rank_values() {
    assert_eq!(CardRank::Ace.value(), RankValue::Ace(1, 11));
    assert_eq!(CardRank::Two.value(), RankValue::Standard(2));
    assert_eq!(CardRank::Nine.value(), RankValue::Standard(9));
    assert_eq!(CardRank::Ten.value(), RankValue::Standard(10));
    assert_eq!(CardRank::Jack.value(), RankValue::Standard(10));
    assert_eq!(CardRank::Queen.value(), RankValue::Standard(10));
    assert_eq!(CardRank::King.value(), RankValue::Standard(10));
    let c = card(CardRank::Seven, CardSuit::Heart);
    assert_eq!(c.value(), RankValue::Standard(7));
}

#[test]
fn score_without_aces_is_plain_sum() {
    let h = hand_of(&[CardRank::Four, CardRank::Ten, CardRank::Seven]);
    assert_eq!(h.score(), 21);
    let h = hand_of(&[CardRank::Two, CardRank::Three]);
    assert_eq!(h.score(), 5);
    let h = hand_of(&[CardRank::King, CardRank::Queen, CardRank::Jack]);
    assert_eq!(h.score(), 30);
}

#[test]
fn empty_hand_scores_zero() {
    let h = Hand(Vec::new());
    assert_eq!(h.score(), 0);
}

#[test]
fn ace_counts_high_when_it_fits() {
    let h = hand_of(&[CardRank::Ace, CardRank::King]);
    assert_eq!(h.score(), 21);
}

#[test]
fn ace_drops_low_when_high_would_bust() {
    let h = hand_of(&[CardRank::Ace, CardRank::King, CardRank::Five]);
    assert_eq!(h.score(), 16);
}

#[test]
fn two_aces_score_twelve() {
    let h = hand_of(&[CardRank::Ace, CardRank::Ace]);
    assert_eq!(h.score(), 12);
}

#[test]
fn greedy_ace_rule_is_sequential_not_optimal() {
    let h = hand_of(&[CardRank::Ten, CardRank::Ace, CardRank::Ace]);
    assert_eq!(h.score(), 22);
}

#[test]
fn lone_ace_scores_eleven() {
    let h = hand_of(&[CardRank::Ace]);
    assert_eq!(h.score(), 11);
}

#[test]
fn card_display_brackets_rank_and_suit() {
    let c = card(CardRank::Ace, CardSuit::Club);
    assert_eq!(c.display(), "[ A \u{2663} ]");
    let c = card(CardRank::Ten, CardSuit::Diamond);
    assert_eq!(c.display(), "[ 10 \u{2666} ]");
    let c = card(CardRank::Queen, CardSuit::Heart);
    assert_eq!(c.display(), "[ Q \u{2665} ]");
    let c = card(CardRank::Seven, CardSuit::Spade);
    assert_eq!(c.display(), "[ 7 \u{2660} ]");
}

#[test]
fn hand_display_joins_cards_with_spaces() {
    let h = Hand(vec![
        card(CardRank::Ace, CardSuit::Club),
        card(CardRank::King, CardSuit::Heart),
    ]);
    assert_eq!(h.display(), "[ A \u{2663} ] [ K \u{2665} ]");
    let empty = Hand(Vec::new());
    assert_eq!(empty.display(), "");
}
