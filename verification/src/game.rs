//! One round of the game: the deck, the players, the dealer, the deal, the
//! turns, and the winner resolution.

use vstd::prelude::*;
use vstd::string::StringExecFns;
use crate::card::Card;
use crate::deck::Deck;
use crate::deck::full_deck;
use crate::hand::hand_score;
use crate::hand::lemma_two_card_score;
use crate::player::Decision;
use crate::player::Player;
use crate::text::dec_digits;
use crate::text::number_text;

verus! {

/// The scores of a line-up of players, in order.
pub open spec fn scores_of(ps: Seq<Player>) -> Seq<nat> {
    ps.map_values(|p: Player| hand_score(p.hand@))
}

/// Whether any score of the line-up is at most 21.
pub open spec fn has_unbusted(ss: Seq<nat>) -> bool {
    exists|i: int| 0 <= i < ss.len() && ss[i] <= 21
}

/// The best score at most 21 of the line-up, and 0 where every score is
/// past 21.
pub open spec fn best_unbusted(ss: Seq<nat>) -> nat
    decreases ss.len(),
{
    if ss.len() == 0 {
        0
    } else {
        let rest = best_unbusted(ss.drop_last());
        if ss.last() <= 21 && ss.last() > rest {
            ss.last()
        } else {
            rest
        }
    }
}

/// How many scores of the line-up equal `v`.
pub open spec fn count_eq(ss: Seq<nat>, v: nat) -> nat
    decreases ss.len(),
{
    if ss.len() == 0 {
        0
    } else {
        count_eq(ss.drop_last(), v) + (if ss.last() == v {
            1nat
        } else {
            0nat
        })
    }
}

/// A value that appears in the line-up is counted at least once.
proof fn lemma_count_eq_at_least_one(ss: Seq<nat>, v: nat, i: int)
    requires
        0 <= i < ss.len(),
        ss[i] == v,
    ensures
        count_eq(ss, v) >= 1,
    decreases ss.len(),
{
    if i < ss.len() - 1 {
        lemma_count_eq_at_least_one(ss.drop_last(), v, i);
    }
}

/// The name of the automated player numbered `n`: the word and the number,
/// joined the way the display joins its parts.
pub open spec fn player_label(n: nat) -> Seq<char> {
    "Player "@ + " "@ + dec_digits(n)
}

/// The cards of the seated players' hands, one hand after another.
pub open spec fn hands_of(ps: Seq<Player>) -> Seq<Card>
    decreases ps.len(),
{
    if ps.len() == 0 {
        Seq::<Card>::empty()
    } else {
        hands_of(ps.drop_last()) + ps.last().hand@
    }
}

/// Every card of the round, wherever it sits: still in the deck, dealt to a
/// player, or dealt to the dealer.
pub open spec fn cards_in_play(g: Game) -> Seq<Card> {
    g.deck@ + hands_of(g.players@) + g.dealer.hand@
}

/// The round's data-model invariant: no card value repeats across the deck
/// and every dealt hand together.
pub open spec fn no_card_repeats(g: Game) -> bool {
    cards_in_play(g).no_duplicates()
}

/// A step that conserves the round's cards — it only moves them between the
/// deck and the hands — cannot introduce a repeated card.
pub proof fn lemma_conservation_keeps_no_repeats(a: Game, b: Game)
    requires
        no_card_repeats(a),
        cards_in_play(b).to_multiset() == cards_in_play(a).to_multiset(),
    ensures
        no_card_repeats(b),
{
    broadcast use vstd::seq_lib::group_to_multiset_ensures;
    broadcast use vstd::multiset::group_multiset_axioms;

    cards_in_play(a).lemma_multiset_has_no_duplicates();
    assert forall|x: Card| cards_in_play(b).to_multiset().contains(x) implies cards_in_play(
        b,
    ).to_multiset().count(x) == 1 by {
        assert(cards_in_play(a).to_multiset().contains(x));
    }
    cards_in_play(b).lemma_multiset_has_no_duplicates_conv();
}

/// A line-up's cards split around any one seat.
proof fn lemma_hands_of_split(ps: Seq<Player>, i: int)
    requires
        0 <= i < ps.len(),
    ensures
        hands_of(ps) == hands_of(ps.take(i)) + ps[i].hand@ + hands_of(ps.skip(i + 1)),
    decreases ps.len(),
{
    if i == ps.len() - 1 {
        assert(ps.take(i) =~= ps.drop_last());
        assert(ps.skip(i + 1) =~= Seq::<Player>::empty());
        assert(hands_of(ps) =~= hands_of(ps.take(i)) + ps[i].hand@ + hands_of(ps.skip(i + 1)));
    } else {
        lemma_hands_of_split(ps.drop_last(), i);
        assert(ps.drop_last().take(i) =~= ps.take(i));
        assert(ps.drop_last()[i] == ps[i]);
        assert(ps.drop_last().skip(i + 1) =~= ps.skip(i + 1).drop_last());
        assert(ps.skip(i + 1).last() == ps.last());
        assert(hands_of(ps.skip(i + 1)) == hands_of(ps.skip(i + 1).drop_last()) + ps.last().hand@);
        assert(hands_of(ps) =~= hands_of(ps.take(i)) + ps[i].hand@ + hands_of(ps.skip(i + 1)));
    }
}

/// A line-up of empty hands holds no cards.
proof fn lemma_hands_of_all_empty(ps: Seq<Player>)
    requires
        forall|i: int| 0 <= i < ps.len() ==> (#[trigger] ps[i]).hand@.len() == 0,
    ensures
        hands_of(ps) == Seq::<Card>::empty(),
    decreases ps.len(),
{
    if ps.len() > 0 {
        lemma_hands_of_all_empty(ps.drop_last());
        assert(hands_of(ps) =~= Seq::<Card>::empty());
    }
}

/// A line-up whose hands are consecutive pairs off the top of a deck holds,
/// as a multiset, exactly the top cards of that deck.
proof fn lemma_dealt_hands_multiset(ps: Seq<Player>, d: Seq<Card>)
    requires
        d.len() >= 2 * ps.len(),
        forall|i: int| 0 <= i < ps.len() ==> (#[trigger] ps[i]).hand@ =~= seq![
            d[d.len() - 1 - 2 * i],
            d[d.len() - 2 - 2 * i],
        ],
    ensures
        hands_of(ps).to_multiset() == d.subrange(
            d.len() - 2 * ps.len(),
            d.len() as int,
        ).to_multiset(),
    decreases ps.len(),
{
    broadcast use vstd::seq_lib::group_to_multiset_ensures;
    broadcast use vstd::multiset::group_multiset_axioms;
    broadcast use vstd::seq_lib::lemma_multiset_commutative;

    let l = d.len() as int;
    let n = ps.len() as int;
    if n == 0 {
        assert(d.subrange(l, l) =~= Seq::<Card>::empty());
        assert(hands_of(ps).to_multiset() =~= d.subrange(l, l).to_multiset());
    } else {
        lemma_dealt_hands_multiset(ps.drop_last(), d);
        let rest = d.subrange(l - 2 * (n - 1), l);
        let whole = d.subrange(l - 2 * n, l);
        assert(ps.last().hand@ =~= seq![d[l - 2 * n + 1], d[l - 2 * n]]);
        assert(whole =~= seq![d[l - 2 * n], d[l - 2 * n + 1]] + rest);
        assert(seq![d[l - 2 * n + 1], d[l - 2 * n]] =~= Seq::<Card>::empty().push(
            d[l - 2 * n + 1],
        ).push(d[l - 2 * n]));
        assert(seq![d[l - 2 * n], d[l - 2 * n + 1]] =~= Seq::<Card>::empty().push(
            d[l - 2 * n],
        ).push(d[l - 2 * n + 1]));
        assert(hands_of(ps).to_multiset() =~= whole.to_multiset());
    }
}

/// A step that leaves every seat but one alone, and either leaves that seat
/// and the deck alone too or moves the deck's top card to that seat's hand,
/// conserves the round's cards.
proof fn lemma_one_seat_step_conserves(a: Game, b: Game, i: int)
    requires
        0 <= i < a.players@.len(),
        b.players@.len() == a.players@.len(),
        b.dealer.hand@ == a.dealer.hand@,
        forall|j: int| 0 <= j < a.players@.len() && j != i ==> b.players@[j] == a.players@[j],
        (b.deck@ == a.deck@ && b.players@[i].hand@ == a.players@[i].hand@) || (a.deck@.len() > 0
            && b.deck@ == a.deck@.drop_last() && b.players@[i].hand@ == a.players@[i].hand@.push(
            a.deck@.last(),
        )),
    ensures
        cards_in_play(b).to_multiset() == cards_in_play(a).to_multiset(),
{
    broadcast use vstd::seq_lib::group_to_multiset_ensures;
    broadcast use vstd::multiset::group_multiset_axioms;
    broadcast use vstd::seq_lib::lemma_multiset_commutative;

    lemma_hands_of_split(a.players@, i);
    lemma_hands_of_split(b.players@, i);
    assert(b.players@.take(i) =~= a.players@.take(i));
    assert(b.players@.skip(i + 1) =~= a.players@.skip(i + 1));
    if b.deck@ == a.deck@ && b.players@[i].hand@ == a.players@[i].hand@ {
        assert(cards_in_play(b).to_multiset() =~= cards_in_play(a).to_multiset());
    } else {
        let x = a.deck@.last();
        assert(a.deck@ =~= b.deck@.push(x));
        assert(a.deck@.to_multiset() == b.deck@.to_multiset().insert(x));
        assert(b.players@[i].hand@.to_multiset() == a.players@[i].hand@.to_multiset().insert(x));
        assert(cards_in_play(b).to_multiset() =~= cards_in_play(a).to_multiset());
    }
}

/// One round: a deck, the non-dealer players in seating order, and the
/// dealer, who follows the fixed draw-to-17 rule instead of taking turns.
pub struct Game {
    pub dealer: Player,
    pub players: Vec<Player>,
    pub deck: Deck,
}

impl Game {
    /// What every step of a round preserves: the deck never repeats a card,
    /// every player can be scored and has not busted while still playing,
    /// and the dealer's hand can be scored.
    pub open spec fn wf(self) -> bool {
        &&& self.deck.wf()
        &&& forall|i: int| 0 <= i < self.players@.len() ==> (#[trigger] self.players@[i]).wf()
        &&& self.dealer.hand_ok()
    }

    /// A fresh round for the given head-count: a shuffled full deck, the
    /// interactive player first, then automated players numbered from 2,
    /// and the dealer. A count below 2 still seats the one interactive
    /// player.
    pub fn new(player_count: u8) -> (g: Game)
        ensures
            g.wf(),
            full_deck(g.deck@),
            g.players@.len() == (if player_count == 0 {
                1int
            } else {
                player_count as int
            }),
            g.players@[0].name@ == "You"@,
            !g.players@[0].is_computer,
            forall|i: int| 1 <= i < g.players@.len() ==> (#[trigger] g.players@[i]).name@
                == player_label((i + 1) as nat),
            forall|i: int| 1 <= i < g.players@.len() ==> (#[trigger] g.players@[i]).is_computer,
            forall|i: int| 0 <= i < g.players@.len() ==> (#[trigger] g.players@[i]).is_playing
                && g.players@[i].hand@ == Seq::<Card>::empty(),
            g.dealer.name@ == "Mr. Zamboni"@,
            g.dealer.is_computer,
            g.dealer.is_playing,
            g.dealer.hand@ == Seq::<Card>::empty(),
            no_card_repeats(g),
    {
        let deck = Deck::new();
        let mut players: Vec<Player> = Vec::new();
        players.push(Player::new(String::from_str("You"), false));
        let mut p: u16 = 2;
        while p <= player_count as u16
            invariant
                2 <= p,
                player_count >= 2 ==> p <= player_count as u16 + 1,
                player_count < 2 ==> p == 2,
                players@.len() == p - 1,
                players@[0].name@ == "You"@,
                !players@[0].is_computer,
                forall|i: int| 1 <= i < players@.len() ==> (#[trigger] players@[i]).name@
                    == player_label((i + 1) as nat),
                forall|i: int| 1 <= i < players@.len() ==> (#[trigger] players@[i]).is_computer,
                forall|i: int| 0 <= i < players@.len() ==> (#[trigger] players@[i]).is_playing
                    && players@[i].hand@ == Seq::<Card>::empty() && players@[i].wf(),
            decreases player_count as int + 1 - p,
        {
            let mut name = String::from_str("Player ");
            name.append(" ");
            let digits = number_text(p as u8);
            name.append(digits.as_str());
            proof {
                assert(name@ =~= player_label(p as nat));
            }
            players.push(Player::new(name, true));
            p = p + 1;
        }
        let g = Game {
            deck,
            dealer: Player::new(String::from_str("Mr. Zamboni"), true),
            players,
        };
        proof {
            lemma_hands_of_all_empty(g.players@);
            assert(cards_in_play(g) =~= g.deck@);
        }
        g
    }

    /// Whether any non-dealer player is still in the round.
    pub fn has_playing_players(&self) -> (b: bool)
        ensures
            b == exists|i: int| 0 <= i < self.players@.len() && (#[trigger] self.players@[i]).is_playing,
    {
        let n = self.players.len();
        let mut i: usize = 0;
        while i < n
            invariant
                i <= n == self.players@.len(),
                forall|j: int| 0 <= j < i ==> !(#[trigger] self.players@[j]).is_playing,
            decreases n - i,
        {
            if self.players[i].is_playing {
                return true;
            }
            i = i + 1;
        }
        false
    }

    /// The opening deal: two cards off the top for each player in seating
    /// order, then one for the dealer. Runs once per round, on fresh hands
    /// and a freshly shuffled deck.
    pub fn deal_in(&mut self)
        requires
            old(self).wf(),
            forall|i: int| 0 <= i < old(self).players@.len()
                ==> (#[trigger] old(self).players@[i]).hand@.len() == 0,
            old(self).dealer.hand@.len() == 0,
            old(self).deck@.len() >= 2 * old(self).players@.len() + 1,
        ensures
            final(self).wf(),
            final(self).players@.len() == old(self).players@.len(),
            ({
                let l = old(self).deck@.len() as int;
                let n = old(self).players@.len() as int;
                &&& forall|i: int| 0 <= i < n ==> (#[trigger] final(self).players@[i]).hand@
                    =~= seq![old(self).deck@[l - 1 - 2 * i], old(self).deck@[l - 2 - 2 * i]]
                &&& final(self).dealer.hand@ =~= seq![old(self).deck@[l - 1 - 2 * n]]
                &&& final(self).deck@ == old(self).deck@.take(l - 2 * n - 1)
            }),
            forall|i: int| 0 <= i < old(self).players@.len() ==> {
                let p0 = #[trigger] old(self).players@[i];
                let p1 = final(self).players@[i];
                p1.name == p0.name && p1.is_computer == p0.is_computer && p1.is_playing
                    == p0.is_playing
            },
            final(self).dealer.name == old(self).dealer.name,
            final(self).dealer.is_computer == old(self).dealer.is_computer,
            final(self).dealer.is_playing == old(self).dealer.is_playing,
            cards_in_play(*final(self)).to_multiset() == cards_in_play(*old(self)).to_multiset(),
            no_card_repeats(*old(self)) ==> no_card_repeats(*final(self)),
    {
        let ghost l = old(self).deck@.len() as int;
        let ghost n_spec = old(self).players@.len() as int;
        let n = self.players.len();
        let mut i: usize = 0;
        while i < n
            invariant
                i <= n == old(self).players@.len(),
                self.players@.len() == n,
                l == old(self).deck@.len(),
                n_spec == n,
                old(self).wf(),
                forall|j: int| 0 <= j < n
                    ==> (#[trigger] old(self).players@[j]).hand@.len() == 0,
                l >= 2 * n_spec + 1,
                self.deck@ == old(self).deck@.take(l - 2 * i),
                self.deck.wf(),
                self.dealer == old(self).dealer,
                forall|j: int| i <= j < n
                    ==> (#[trigger] self.players@[j]) == old(self).players@[j],
                forall|j: int| 0 <= j < i ==> (#[trigger] self.players@[j]).hand@ =~= seq![
                    old(self).deck@[l - 1 - 2 * j],
                    old(self).deck@[l - 2 - 2 * j],
                ],
                forall|j: int| 0 <= j < i ==> (#[trigger] self.players@[j]).wf(),
                forall|j: int| 0 <= j < i ==> {
                    let p0 = old(self).players@[j];
                    let p1 = #[trigger] self.players@[j];
                    p1.name == p0.name && p1.is_computer == p0.is_computer && p1.is_playing
                        == p0.is_playing
                },
            decreases n - i,
        {
            let ghost deck_before = self.deck@;
            let mut cards = self.deck.deal_cards();
            proof {
                assert(self.deck@ =~= old(self).deck@.take(l - 2 * (i + 1)));
                assert(deck_before.last() == old(self).deck@[l - 1 - 2 * i]);
                assert(deck_before.drop_last().last() == old(self).deck@[l - 2 - 2 * i]);
            }
            let ghost cards_v = cards@;
            let ghost players_before = self.players@;
            let mut p = self.players.remove(i);
            proof {
                assert(p == old(self).players@[i as int]);
                assert(p.hand@.len() == 0);
                assert(cards_v =~= seq![deck_before.last(), deck_before.drop_last().last()]);
            }
            p.hand.0.append(&mut cards);
            proof {
                assert(p.hand@ =~= cards_v);
            }
            self.players.insert(i, p);
            proof {
                let j = i as int;
                assert(self.players@ =~= players_before.update(j, self.players@[j]));
                assert(self.players@[j].hand@ =~= seq![
                    old(self).deck@[l - 1 - 2 * j],
                    old(self).deck@[l - 2 - 2 * j],
                ]);
                lemma_two_card_score(self.players@[j].hand@);
            }
            i = i + 1;
        }
        let c = self.deck.take();
        self.dealer.hand.0.push(c);
        proof {
            broadcast use vstd::seq_lib::group_to_multiset_ensures;
            broadcast use vstd::multiset::group_multiset_axioms;
            broadcast use vstd::seq_lib::lemma_multiset_commutative;

            assert(final(self).dealer.hand@ =~= seq![old(self).deck@[l - 1 - 2 * n_spec]]);
            assert(final(self).deck@ =~= old(self).deck@.take(l - 2 * n_spec - 1));
            lemma_dealt_hands_multiset(self.players@, old(self).deck@);
            lemma_hands_of_all_empty(old(self).players@);
            assert(old(self).dealer.hand@ =~= Seq::<Card>::empty());
            assert(cards_in_play(*old(self)) =~= old(self).deck@);
            assert(old(self).deck@ =~= self.deck@ + seq![old(self).deck@[l - 2 * n_spec - 1]]
                + old(self).deck@.subrange(l - 2 * n_spec, l));
            assert(self.dealer.hand@ =~= Seq::<Card>::empty().push(
                old(self).deck@[l - 2 * n_spec - 1],
            ));
            assert(seq![old(self).deck@[l - 2 * n_spec - 1]] =~= Seq::<Card>::empty().push(
                old(self).deck@[l - 2 * n_spec - 1],
            ));
            assert(cards_in_play(*self).to_multiset() =~= cards_in_play(
                *old(self),
            ).to_multiset());
            if no_card_repeats(*old(self)) {
                lemma_conservation_keeps_no_repeats(*old(self), *self);
            }
        }
    }

    /// One automated player's turn: a fresh threshold decides between
    /// standing and hitting, a hitting player draws the top card, and a
    /// hand past 21 then busts.
    pub fn computer_turn(&mut self, i: usize) -> (d: Decision)
        requires
            old(self).wf(),
            i < old(self).players@.len(),
            old(self).players@[i as int].is_playing,
            old(self).deck@.len() > 0,
        ensures
            final(self).wf(),
            final(self).players@.len() == old(self).players@.len(),
            final(self).dealer == old(self).dealer,
            forall|j: int| 0 <= j < old(self).players@.len() && j != i
                ==> final(self).players@[j] == old(self).players@[j],
            ({
                let p0 = old(self).players@[i as int];
                let p1 = final(self).players@[i as int];
                &&& p1.name == p0.name
                &&& p1.is_computer == p0.is_computer
                &&& (d == Decision::Stand ==> !p1.is_playing && p1.hand@ == p0.hand@
                    && final(self).deck@ == old(self).deck@ && hand_score(p0.hand@) >= 15)
                &&& (d == Decision::Hit ==> p1.hand@ == p0.hand@.push(old(self).deck@.last())
                    && final(self).deck@ == old(self).deck@.drop_last() && (p1.is_playing
                    <==> hand_score(p1.hand@) <= 21) && hand_score(p0.hand@) < 19)
                &&& (hand_score(p0.hand@) >= 19 ==> d == Decision::Stand)
                &&& (hand_score(p0.hand@) < 15 ==> d == Decision::Hit)
            }),
            cards_in_play(*final(self)).to_multiset() == cards_in_play(*old(self)).to_multiset(),
            no_card_repeats(*old(self)) ==> no_card_repeats(*final(self)),
    {
        let ghost players_before = self.players@;
        let mut p = self.players.remove(i);
        let d = p.take_computer_turn();
        p.finish_turn(&mut self.deck);
        self.players.insert(i, p);
        proof {
            assert(final(self).players@ =~= players_before.update(
                i as int,
                final(self).players@[i as int],
            ));
            lemma_one_seat_step_conserves(*old(self), *self, i as int);
            if no_card_repeats(*old(self)) {
                lemma_conservation_keeps_no_repeats(*old(self), *self);
            }
        }
        d
    }

    /// One interactive player's turn from the decision the round's driver
    /// collected: standing ends the player's round; hitting draws the top
    /// card, and a hand past 21 then busts.
    pub fn human_turn(&mut self, i: usize, decision: Decision)
        requires
            old(self).wf(),
            i < old(self).players@.len(),
            old(self).players@[i as int].is_playing,
            decision == Decision::Hit ==> old(self).deck@.len() > 0,
        ensures
            final(self).wf(),
            final(self).players@.len() == old(self).players@.len(),
            final(self).dealer == old(self).dealer,
            forall|j: int| 0 <= j < old(self).players@.len() && j != i
                ==> final(self).players@[j] == old(self).players@[j],
            ({
                let p0 = old(self).players@[i as int];
                let p1 = final(self).players@[i as int];
                &&& p1.name == p0.name
                &&& p1.is_computer == p0.is_computer
                &&& (decision == Decision::Stand ==> !p1.is_playing && p1.hand@ == p0.hand@
                    && final(self).deck@ == old(self).deck@)
                &&& (decision == Decision::Hit ==> p1.hand@ == p0.hand@.push(
                    old(self).deck@.last(),
                ) && final(self).deck@ == old(self).deck@.drop_last() && (p1.is_playing
                    <==> hand_score(p1.hand@) <= 21))
            }),
            cards_in_play(*final(self)).to_multiset() == cards_in_play(*old(self)).to_multiset(),
            no_card_repeats(*old(self)) ==> no_card_repeats(*final(self)),
    {
        let ghost players_before = self.players@;
        let mut p = self.players.remove(i);
        p.take_turn(decision, &mut self.deck);
        self.players.insert(i, p);
        proof {
            assert(final(self).players@ =~= players_before.update(
                i as int,
                final(self).players@[i as int],
            ));
            lemma_one_seat_step_conserves(*old(self), *self, i as int);
            if no_card_repeats(*old(self)) {
                lemma_conservation_keeps_no_repeats(*old(self), *self);
            }
        }
    }

    /// The winner of the round, by final scores. Only players at or under
    /// 21 contend; with none, the dealer wins unless busted too. Otherwise
    /// the dealer wins by beating the best contending score outright; a tie
    /// among players at the best score, or a push against the dealer,
    /// leaves nobody the winner; else the single best player wins.
    pub fn find_winner(&self) -> (w: Option<&Player>)
        requires
            self.wf(),
        ensures
            ({
                let ds = hand_score(self.dealer.hand@);
                let ss = scores_of(self.players@);
                let c = best_unbusted(ss);
                &&& (!has_unbusted(ss) && ds <= 21) ==> (w matches Some(p) && *p == self.dealer)
                &&& (!has_unbusted(ss) && ds > 21) ==> w is None
                &&& (has_unbusted(ss) && ds <= 21 && ds > c) ==> (w matches Some(p) && *p
                    == self.dealer)
                &&& (has_unbusted(ss) && !(ds <= 21 && ds > c) && (count_eq(ss, c) > 1 || c
                    == ds)) ==> w is None
                &&& (has_unbusted(ss) && !(ds <= 21 && ds > c) && count_eq(ss, c) == 1 && c != ds)
                    ==> (w matches Some(p) && exists|i: int|
                    0 <= i < self.players@.len() && ss[i] == c && *p == self.players@[i])
            }),
    {
        let ghost ss = scores_of(self.players@);
        let n = self.players.len();
        let mut found = false;
        let mut best_i: usize = 0;
        let mut best_score: u8 = 0;
        let mut i: usize = 0;
        while i < n
            invariant
                i <= n == self.players@.len(),
                self.wf(),
                ss == scores_of(self.players@),
                found == has_unbusted(ss.take(i as int)),
                found ==> best_i < i && ss[best_i as int] == best_score as nat && best_score as nat
                    == best_unbusted(ss.take(i as int)) && best_score <= 21,
                !found ==> best_unbusted(ss.take(i as int)) == 0,
            decreases n - i,
        {
            proof {
                assert(ss.take(i + 1).drop_last() =~= ss.take(i as int));
                assert(ss.take(i + 1).last() == ss[i as int]);
            }
            let sc = self.players[i].hand.score();
            if sc <= 21 {
                proof {
                    assert(ss.take(i + 1)[i as int] <= 21);
                }
                if !found || sc >= best_score {
                    found = true;
                    best_i = i;
                    best_score = sc;
                }
            } else {
                proof {
                    if has_unbusted(ss.take(i + 1)) {
                        let j = choose|j: int| 0 <= j < i + 1 && #[trigger] ss.take(i + 1)[j]
                            <= 21;
                        assert(ss.take(i as int)[j] <= 21);
                    }
                }
            }
            i = i + 1;
        }
        proof {
            assert(ss.take(n as int) =~= ss);
        }
        let dealer_score = self.dealer.hand.score();
        if !found {
            if dealer_score <= 21 {
                return Some(&self.dealer);
            } else {
                return None;
            }
        }
        if dealer_score <= 21 && dealer_score > best_score {
            return Some(&self.dealer);
        }
        let mut count: usize = 0;
        let mut k: usize = 0;
        while k < n
            invariant
                k <= n == self.players@.len(),
                self.wf(),
                ss == scores_of(self.players@),
                count == count_eq(ss.take(k as int), best_score as nat),
                count <= k,
            decreases n - k,
        {
            proof {
                assert(ss.take(k + 1).drop_last() =~= ss.take(k as int));
                assert(ss.take(k + 1).last() == ss[k as int]);
            }
            let sc = self.players[k].hand.score();
            if sc == best_score {
                count = count + 1;
            }
            k = k + 1;
        }
        proof {
            assert(ss.take(n as int) =~= ss);
            lemma_count_eq_at_least_one(ss, best_score as nat, best_i as int);
        }
        if count > 1 || best_score == dealer_score {
            None
        } else {
            Some(&self.players[best_i])
        }
    }

    /// The dealer's resolution, once every player has stopped: draw from
    /// the top until the dealer's score reaches 17. A dealer already there
    /// draws nothing; one that climbs past 21 stops all the same, busted.
    pub fn resolve_dealer(&mut self)
        requires
            old(self).wf(),
            hand_score(old(self).dealer.hand@) >= 17
                || old(self).dealer.hand@.len() + old(self).deck@.len() >= 17,
        ensures
            final(self).wf(),
            final(self).players@ == old(self).players@,
            final(self).dealer.name == old(self).dealer.name,
            final(self).dealer.is_computer == old(self).dealer.is_computer,
            final(self).dealer.is_playing == old(self).dealer.is_playing,
            hand_score(final(self).dealer.hand@) >= 17,
            final(self).dealer.hand@.len() - old(self).dealer.hand@.len() == old(self).deck@.len()
                - final(self).deck@.len(),
            final(self).deck@ == old(self).deck@.take(final(self).deck@.len() as int),
            final(self).dealer.hand@ == old(self).dealer.hand@ + old(self).deck@.subrange(
                final(self).deck@.len() as int,
                old(self).deck@.len() as int,
            ).reverse(),
            hand_score(old(self).dealer.hand@) >= 17 ==> final(self).dealer.hand@
                == old(self).dealer.hand@ && final(self).deck@ == old(self).deck@,
            hand_score(old(self).dealer.hand@) < 17 ==> final(self).dealer.hand@.len()
                > old(self).dealer.hand@.len(),
            forall|k: int| old(self).dealer.hand@.len() <= k < final(self).dealer.hand@.len()
                ==> hand_score(#[trigger] final(self).dealer.hand@.take(k)) < 17,
            cards_in_play(*final(self)).to_multiset() == cards_in_play(*old(self)).to_multiset(),
            no_card_repeats(*old(self)) ==> no_card_repeats(*final(self)),
    {
        self.dealer.resolve_dealer(&mut self.deck);
        proof {
            broadcast use vstd::seq_lib::group_to_multiset_ensures;
            broadcast use vstd::multiset::group_multiset_axioms;
            broadcast use vstd::seq_lib::lemma_multiset_commutative;

            let drawn = old(self).deck@.subrange(
                self.deck@.len() as int,
                old(self).deck@.len() as int,
            );
            drawn.lemma_reverse_to_multiset();
            assert(old(self).deck@ =~= self.deck@ + drawn);
            assert(cards_in_play(*self).to_multiset() =~= cards_in_play(
                *old(self),
            ).to_multiset());
            if no_card_repeats(*old(self)) {
                lemma_conservation_keeps_no_repeats(*old(self), *self);
            }
        }
    }
}

} // verus!
