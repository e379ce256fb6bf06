//! A participant: a named hand, the playing/standing flag, and the turn
//! rules, including the automated player's threshold rule and the dealer's
//! draw-to-17 rule.

use vstd::prelude::*;
use vstd::string::StringExecFns;
use crate::card::Card;
use crate::deck::Deck;
use crate::hand::Hand;
use crate::hand::MAX_HAND_CARDS;
use crate::hand::hand_score;
use crate::hand::hand_text;
use crate::hand::lemma_score_bounds;
use crate::text::dec_digits;
use crate::text::number_text;

verus! {

/// The two possible turn decisions: draw another card, or stop for the
/// round.
#[derive(Clone, Copy, Debug, PartialEq, Eq, Structural)]
pub enum Decision {
    Hit,
    Stand,
}

/// Reads a decision token: exactly "stand" or "hit"; anything else is
/// refused, and the caller asks again.
pub fn parse_decision(s: &str) -> (r: Option<Decision>)
    ensures
        r == (if s@ == "stand"@ {
            Some(Decision::Stand)
        } else if s@ == "hit"@ {
            Some(Decision::Hit)
        } else {
            None::<Decision>
        }),
{
    let text = String::from_str(s);
    if text.eq(&String::from_str("stand")) {
        Some(Decision::Stand)
    } else if text.eq(&String::from_str("hit")) {
        Some(Decision::Hit)
    } else {
        None
    }
}

/// Relies on rand's `random_range` over a closed range: it returns a value
/// of the range, sampled from the thread-local generator, and the range
/// `lo..=hi` is non-empty.
#[verifier::external_body]
fn sample_in_range(lo: u8, hi: u8) -> (r: u8)
    requires
        lo <= hi,
    ensures
        lo <= r <= hi,
{
    rand::random_range(lo..=hi)
}

/// The automated rule at a given threshold: stand once the score has
/// reached it, hit below it.
pub fn decide_at_threshold(score: u8, threshold: u8) -> (d: Decision)
    ensures
        d == (if score >= threshold {
            Decision::Stand
        } else {
            Decision::Hit
        }),
{
    if score >= threshold {
        Decision::Stand
    } else {
        Decision::Hit
    }
}

/// The display line of a player: name, hand, and score.
pub open spec fn player_text(p: Player) -> Seq<char> {
    p.name@ + "'s hand: "@ + hand_text(p.hand@) + "  |  score: "@ + dec_digits(
        hand_score(p.hand@),
    )
}

/// One participant of a round: a name, the hand it has been dealt, whether
/// its decisions are automated, and whether it is still playing. The flag
/// starts true and, once false (a stand or a bust), never turns back.
#[derive(Debug)]
pub struct Player {
    pub name: String,
    pub hand: Hand,
    pub is_computer: bool,
    pub is_playing: bool,
}

impl Player {
    /// A hand small enough to score.
    pub open spec fn hand_ok(self) -> bool {
        self.hand@.len() <= MAX_HAND_CARDS
    }

    /// What every turn preserves: the hand can be scored, and a player
    /// still in the round has not busted.
    pub open spec fn wf(self) -> bool {
        &&& self.hand_ok()
        &&& self.is_playing ==> hand_score(self.hand@) <= 21
    }

    /// A fresh player: empty hand, still playing.
    pub fn new(name: String, is_computer: bool) -> (p: Player)
        ensures
            p.name == name,
            p.hand@ == Seq::<Card>::empty(),
            p.is_computer == is_computer,
            p.is_playing,
            p.wf(),
    {
        Player { name, hand: Hand(Vec::new()), is_computer, is_playing: true }
    }

    /// The automated player's move: a fresh threshold between 15 and 19 is
    /// drawn for this one decision, and the player stands exactly when its
    /// score has reached the threshold. So a score of 19 or more always
    /// stands, a score below 15 always hits, and in between either may
    /// come out. Standing clears the playing flag.
    pub fn take_computer_turn(&mut self) -> (d: Decision)
        requires
            old(self).hand_ok(),
        ensures
            final(self).name == old(self).name,
            final(self).hand == old(self).hand,
            final(self).is_computer == old(self).is_computer,
            d == Decision::Stand ==> !final(self).is_playing && hand_score(old(self).hand@)
                >= 15,
            d == Decision::Hit ==> final(self).is_playing == old(self).is_playing && hand_score(
                old(self).hand@,
            ) < 19,
            hand_score(old(self).hand@) >= 19 ==> d == Decision::Stand,
            hand_score(old(self).hand@) < 15 ==> d == Decision::Hit,
            old(self).wf() ==> final(self).wf(),
    {
        let threshold = sample_in_range(15, 19);
        let score = self.hand.score();
        let d = decide_at_threshold(score, threshold);
        if let Decision::Stand = d {
            self.is_playing = false;
        }
        d
    }

    /// The tail of every turn: a player still in the round draws the top
    /// card, and a hand past 21 then busts, ending its round.
    pub fn finish_turn(&mut self, deck: &mut Deck)
        requires
            old(self).wf(),
            old(self).is_playing ==> old(deck)@.len() > 0,
        ensures
            final(self).name == old(self).name,
            final(self).is_computer == old(self).is_computer,
            final(self).wf(),
            old(deck).wf() ==> final(deck).wf(),
            !old(self).is_playing ==> final(self).hand@ == old(self).hand@
                && !final(self).is_playing && final(deck)@ == old(deck)@,
            old(self).is_playing ==> final(self).hand@ == old(self).hand@.push(old(deck)@.last())
                && final(deck)@ == old(deck)@.drop_last() && (final(self).is_playing
                <==> hand_score(final(self).hand@) <= 21),
    {
        proof {
            lemma_score_bounds(old(self).hand@);
        }
        if self.is_playing {
            let c = deck.take();
            self.hand.0.push(c);
        }
        if self.hand.score() > 21 {
            self.is_playing = false;
        }
    }

    /// One full turn from a supplied decision: standing ends the player's
    /// round with the hand unchanged; hitting draws exactly one card, and a
    /// hand past 21 then busts.
    pub fn take_turn(&mut self, decision: Decision, deck: &mut Deck)
        requires
            old(self).wf(),
            old(self).is_playing,
            decision == Decision::Hit ==> old(deck)@.len() > 0,
        ensures
            final(self).name == old(self).name,
            final(self).is_computer == old(self).is_computer,
            final(self).wf(),
            old(deck).wf() ==> final(deck).wf(),
            decision == Decision::Stand ==> !final(self).is_playing
                && final(self).hand@ == old(self).hand@ && final(deck)@ == old(deck)@,
            decision == Decision::Hit ==> final(self).hand@ == old(self).hand@.push(old(deck)@.last())
                && final(deck)@ == old(deck)@.drop_last() && (final(self).is_playing
                <==> hand_score(final(self).hand@) <= 21),
    {
        match decision {
            Decision::Stand => {
                self.is_playing = false;
            },
            Decision::Hit => {},
        }
        self.finish_turn(deck);
    }

    /// The dealer's fixed rule, run once every player has stopped: draw
    /// from the top until the score reaches 17. A dealer already at 17 or
    /// more draws nothing; a dealer that climbs past 21 stops all the same,
    /// busted. Needs enough cards for the worst case; every card is worth
    /// at least a point, so a deck that can bring the hand to 17 cards
    /// always suffices.
    pub fn resolve_dealer(&mut self, deck: &mut Deck)
        requires
            old(self).hand_ok(),
            hand_score(old(self).hand@) >= 17 || old(self).hand@.len() + old(deck)@.len() >= 17,
        ensures
            final(self).name == old(self).name,
            final(self).is_computer == old(self).is_computer,
            final(self).is_playing == old(self).is_playing,
            final(self).hand_ok(),
            old(deck).wf() ==> final(deck).wf(),
            hand_score(final(self).hand@) >= 17,
            final(self).hand@.len() - old(self).hand@.len() == old(deck)@.len()
                - final(deck)@.len(),
            final(deck)@ == old(deck)@.take(final(deck)@.len() as int),
            final(self).hand@ == old(self).hand@ + old(deck)@.subrange(
                final(deck)@.len() as int,
                old(deck)@.len() as int,
            ).reverse(),
            hand_score(old(self).hand@) >= 17 ==> final(self).hand@ == old(self).hand@
                && final(deck)@ == old(deck)@,
            hand_score(old(self).hand@) < 17 ==> final(self).hand@.len() > old(self).hand@.len(),
            forall|k: int| old(self).hand@.len() <= k < final(self).hand@.len()
                ==> hand_score(#[trigger] final(self).hand@.take(k)) < 17,
    {
        proof {
            assert(old(deck)@.subrange(old(deck)@.len() as int, old(deck)@.len() as int).reverse()
                =~= Seq::<Card>::empty());
            assert(old(self).hand@ + Seq::<Card>::empty() =~= old(self).hand@);
            assert(old(deck)@.take(old(deck)@.len() as int) =~= old(deck)@);
        }
        while self.hand.score() < 17
            invariant
                self.name == old(self).name,
                self.is_computer == old(self).is_computer,
                self.is_playing == old(self).is_playing,
                self.hand@.len() <= MAX_HAND_CARDS,
                old(deck).wf() ==> deck.wf(),
                self.hand@.len() - old(self).hand@.len() == old(deck)@.len() - deck@.len(),
                deck@ == old(deck)@.take(deck@.len() as int),
                self.hand@ == old(self).hand@ + old(deck)@.subrange(
                    deck@.len() as int,
                    old(deck)@.len() as int,
                ).reverse(),
                hand_score(old(self).hand@) >= 17 ==> self.hand@ == old(self).hand@ && deck@
                    == old(deck)@,
                hand_score(old(self).hand@) < 17 ==> self.hand@.len() + deck@.len() >= 17,
                forall|k: int| old(self).hand@.len() <= k < self.hand@.len()
                    ==> hand_score(#[trigger] self.hand@.take(k)) < 17,
            decreases deck@.len(),
        {
            proof {
                lemma_score_bounds(self.hand@);
                if hand_score(old(self).hand@) >= 17 {
                    assert(hand_score(self.hand@) >= 17);
                    assert(false);
                }
            }
            let ghost prev_hand = self.hand@;
            let ghost prev_score = hand_score(self.hand@);
            let c = deck.take();
            self.hand.0.push(c);
            proof {
                assert(deck@ =~= old(deck)@.take(deck@.len() as int));
                assert(self.hand@ =~= old(self).hand@ + old(deck)@.subrange(
                    deck@.len() as int,
                    old(deck)@.len() as int,
                ).reverse());
                assert forall|k: int|
                    old(self).hand@.len() <= k < self.hand@.len() implies hand_score(
                    #[trigger] self.hand@.take(k),
                ) < 17 by {
                    assert(self.hand@.take(k) =~= prev_hand.take(k));
                    if k == prev_hand.len() {
                        assert(prev_hand.take(k) =~= prev_hand);
                        assert(prev_score < 17);
                    }
                }
            }
        }
        proof {
            if hand_score(old(self).hand@) < 17 && self.hand@.len() == old(self).hand@.len() {
                assert(self.hand@ =~= old(self).hand@);
                assert(false);
            }
        }
    }

    /// The display line: name, hand, and score.
    pub fn display(&self) -> (r: String)
        requires
            self.hand_ok(),
        ensures
            r@ == player_text(*self),
    {
        let mut s = self.name.clone();
        s.append("'s hand: ");
        let h = self.hand.display();
        s.append(h.as_str());
        s.append("  |  score: ");
        let sc = number_text(self.hand.score());
        s.append(sc.as_str());
        proof {
            assert(s@ =~= player_text(*self));
        }
        s
    }
}

} // verus!
