use blackjack::card::Card;
use blackjack::card::CardRank;
use blackjack::card::CardSuit;
use blackjack::deck::Deck;
use blackjack::game::Game;
use blackjack::player::Decision;
use blackjack::player::Player;

fn card(rank: CardRank, suit: CardSuit) -> Card {
    Card { rank, suit }
}

fn player_with(name: &str, ranks: &[CardRank]) -> Player {
    let mut p = Player::new(String::from(name), true);
    for r in ranks {
        p.hand.0.push(card(*r, CardSuit::Club));
    }
    p
}

fn game_with(players: Vec<Player>, dealer: Player) -> Game {
    Game { dealer, players, deck: Deck(Vec::new()) }
}

#[test]
fn new_game_seats_the_players_and_the_dealer() {
    let g = Game::new(3);
    assert_eq!(g.players.len(), 3);
    assert_eq!(g.players[0].name, "You");
    assert!(!g.players[0].is_computer);
    assert_eq!(g.players[1].name, "Player  2");
    assert!(g.players[1].is_computer);
    assert_eq!(g.players[2].name, "Player  3");
    assert_eq!(g.dealer.name, "Mr. Zamboni");
    assert!(g.dealer.is_computer);
    assert_eq!(g.deck.0.len(), 52);
    for p in &g.players {
        assert!(p.is_playing);
        assert!(p.hand.0.is_empty());
    }
}

#[test]
fn new_game_with_no_count_still_seats_one_player() {
    let g = Game::new(0);
    assert_eq!(g.players.len(), 1);
    assert_eq!(g.players[0].name, "You");
    let g = Game::new(1);
    assert_eq!(g.players.len(), 1);
}

#[test]
fn deal_in_gives_two_cards_each_and_one_to_the_dealer() {
    let mut g = Game::new(2);
    let top: Vec<Card> = g.deck.0.iter().rev().cloned().collect();
    g.deal_in();
    assert_eq!(g.players[0].hand.0.len(), 2);
    assert_eq!(g.players[1].hand.0.len(), 2);
    assert_eq!(g.dealer.hand.0.len(), 1);
    assert_eq!(g.deck.0.len(), 47);
    assert_eq!(g.players[0].hand.0[0], top[0]);
    assert_eq!(g.players[0].hand.0[1], top[1]);
    assert_eq!(g.players[1].hand.0[0], top[2]);
    assert_eq!(g.players[1].hand.0[1], top[3]);
    assert_eq!(g.dealer.hand.0[0], top[4]);
}

#[test]
fn no_card_repeats_across_deck_and_hands() {
    let mut g = Game::new(3);
    g.deal_in();
    g.human_turn(0, Decision::Hit);
    g.human_turn(1, Decision::Hit);
    g.resolve_dealer();
    let mut all: Vec<Card> = g.deck.0.clone();
    for p in &g.players {
        all.extend(p.hand.0.iter().cloned());
    }
    all.extend(g.dealer.hand.0.iter().cloned());
    assert_eq!(all.len(), 52);
    for i in 0..all.len() {
        for j in 0..all.len() {
            if i != j {
                assert_ne!(all[i], all[j]);
            }
        }
    }
}

#[test]
fn has_playing_players_sees_any_active_player() {
    let mut a = player_with("A", &[]);
    a.is_playing = false;
    let b = player_with("B", &[]);
    let g = game_with(vec![a, b], player_with("Dealer", &[]));
    assert!(g.has_playing_players());
    let mut c = player_with("C", &[]);
    c.is_playing = false;
    let g = game_with(vec![c], player_with("Dealer", &[]));
    assert!(!g.has_playing_players());
}

#[test]
fn human_turn_applies_the_decision_to_that_player() {
    let a = player_with("A", &[CardRank::Two, CardRank::Three]);
    let b = player_with("B", &[CardRank::Four, CardRank::Six]);
    let mut g = game_with(vec![a, b], player_with("Dealer", &[]));
    g.deck = Deck(vec![card(CardRank::Five, CardSuit::Heart)]);
    g.human_turn(0, Decision::Hit);
    assert_eq!(g.players[0].hand.0.len(), 3);
    assert_eq!(g.players[0].hand.score(), 10);
    assert!(g.players[0].is_playing);
    assert_eq!(g.players[1].hand.0.len(), 2);
    assert_eq!(g.deck.0.len(), 0);
    g.human_turn(1, Decision::Stand);
    assert!(!g.players[1].is_playing);
    assert_eq!(g.players[1].hand.0.len(), 2);
}

#[test]
fn computer_turn_at_twenty_stands() {
    let a = player_with("A", &[CardRank::Ten, CardRank::Ten]);
    let mut g = game_with(vec![a], player_with("Dealer", &[]));
    g.deck = Deck(vec![card(CardRank::Five, CardSuit::Heart)]);
    let d = g.computer_turn(0);
    assert_eq!(d, Decision::Stand);
    assert!(!g.players[0].is_playing);
    assert_eq!(g.players[0].hand.0.len(), 2);
    assert_eq!(g.deck.0.len(), 1);
}

#[test]
fn game_resolves_the_dealer_to_seventeen() {
    let dealer = player_with("Dealer", &[CardRank::Ten, CardRank::Five]);
    let mut g = game_with(Vec::new(), dealer);
    let mut cards = Vec::new();
    for _ in 0..15 {
        cards.push(card(CardRank::Two, CardSuit::Club));
    }
    g.deck = Deck(cards);
    g.resolve_dealer();
    assert_eq!(g.dealer.hand.score(), 17);
    assert_eq!(g.dealer.hand.0.len(), 3);
}

#[test]
fn winner_is_the_best_unbusted_player() {
    let a = player_with("A", &[CardRank::Ten, CardRank::Ten]);
    let b = player_with("B", &[CardRank::Ten, CardRank::Ten, CardRank::Three]);
    let dealer = player_with("Dealer", &[CardRank::Ten, CardRank::Eight]);
    let g = game_with(vec![a, b], dealer);
    let w = g.find_winner().expect("a winner");
    assert_eq!(w.name, "A");
}

#[test]
fn tied_players_leave_nobody_the_winner() {
    let a = player_with("A", &[CardRank::Ten, CardRank::Nine]);
    let b = player_with("B", &[CardRank::Ten, CardRank::Nine]);
    let dealer = player_with("Dealer", &[CardRank::Ten, CardRank::Seven]);
    let g = game_with(vec![a, b], dealer);
    assert!(g.find_winner().is_none());
}

#[test]
fn a_push_against_the_dealer_leaves_nobody_the_winner() {
    let a = player_with("A", &[CardRank::Ten, CardRank::Eight]);
    let dealer = player_with("Dealer", &[CardRank::Ten, CardRank::Eight]);
    let g = game_with(vec![a], dealer);
    assert!(g.find_winner().is_none());
}

#[test]
fn dealer_wins_when_every_player_busts() {
    let a = player_with("A", &[CardRank::Ten, CardRank::Ten, CardRank::Three]);
    let dealer = player_with("Dealer", &[CardRank::Ten, CardRank::Ten]);
    let g = game_with(vec![a], dealer);
    let w = g.find_winner().expect("a winner");
    assert_eq!(w.name, "Dealer");
}

#[test]
fn nobody_wins_when_everyone_busts() {
    let a = player_with("A", &[CardRank::Ten, CardRank::Ten, CardRank::Three]);
    let dealer = player_with("Dealer", &[CardRank::Ten, CardRank::Ten, CardRank::Two]);
    let g = game_with(vec![a], dealer);
    assert!(g.find_winner().is_none());
}

#[test]
fn dealer_beats_a_lower_unbusted_player() {
    let a = player_with("A", &[CardRank::Ten, CardRank::Six]);
    let dealer = player_with("Dealer", &[CardRank::Ten, CardRank::Nine]);
    let g = game_with(vec![a], dealer);
    let w = g.find_winner().expect("a winner");
    assert_eq!(w.name, "Dealer");
}

#[test]
fn a_busted_dealer_loses_to_any_unbusted_player() {
    let a = player_with("A", &[CardRank::Two, CardRank::Three]);
    let dealer = player_with("Dealer", &[CardRank::Ten, CardRank::Ten, CardRank::Two]);
    let g = game_with(vec![a], dealer);
    let w = g.find_winner().expect("a winner");
    assert_eq!(w.name, "A");
}
