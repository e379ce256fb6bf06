//! A hand of cards and its score under the greedy soft/hard ace rule.

use vstd::prelude::*;
use vstd::string::StringExecFns;
use crate::card::Card;
use crate::card::CardRank;
use crate::card::RankValue;

verus! {

/// The most cards a hand of one round can hold. A hand only grows while its
/// score is at most 21, every card is worth at least one point, and at most
/// one more card is drawn after that, so 22 cards is the ceiling; it also
/// keeps every intermediate sum well inside `u8`.
pub const MAX_HAND_CARDS: usize = 22;

/// The points a card contributes in the first scoring pass: its fixed value,
/// or 0 for an ace (aces are settled in a second pass).
pub open spec fn standard_points(c: Card) -> nat {
    match c.rank.spec_value() {
        RankValue::Standard(v) => v as nat,
        RankValue::Ace(_, _) => 0,
    }
}

/// The sum of the fixed values of the cards of `s`, counting aces as 0.
pub open spec fn standard_sum(s: Seq<Card>) -> nat
    decreases s.len(),
{
    if s.len() == 0 {
        0
    } else {
        standard_sum(s.drop_last()) + standard_points(s.last())
    }
}

/// How many aces `s` holds.
pub open spec fn ace_count(s: Seq<Card>) -> nat
    decreases s.len(),
{
    if s.len() == 0 {
        0
    } else {
        ace_count(s.drop_last()) + (if s.last().rank == CardRank::Ace {
            1nat
        } else {
            0nat
        })
    }
}

/// The greedy ace pass: each ace in turn counts 11 if that keeps the running
/// total at or under 21, and 1 otherwise. This is the sequential rule of the
/// game, not an optimal assignment: a total of 10 followed by two aces
/// settles to 22, not 12.
pub open spec fn settle_aces(total: nat, aces: nat) -> nat
    decreases aces,
{
    if aces == 0 {
        total
    } else {
        settle_aces(
            if total + 11 <= 21 {
                total + 11
            } else {
                total + 1
            },
            (aces - 1) as nat,
        )
    }
}

/// The score of a hand: the fixed values summed first, then the aces settled
/// greedily, one after the other.
pub open spec fn hand_score(s: Seq<Card>) -> nat {
    settle_aces(standard_sum(s), ace_count(s))
}

/// Every fixed rank value lies between 2 and 10.
pub proof fn lemma_standard_points_range(c: Card)
    ensures
        c.rank == CardRank::Ace ==> standard_points(c) == 0,
        c.rank != CardRank::Ace ==> 2 <= standard_points(c) <= 10,
{
}

/// A hand has no more aces than cards, and its first-pass sum is between
/// twice and ten times its count of non-ace cards.
pub proof fn lemma_standard_sum_bounds(s: Seq<Card>)
    ensures
        ace_count(s) <= s.len(),
        2 * (s.len() - ace_count(s)) <= standard_sum(s) <= 10 * (s.len() - ace_count(s)),
    decreases s.len(),
{
    if s.len() > 0 {
        lemma_standard_sum_bounds(s.drop_last());
        lemma_standard_points_range(s.last());
    }
}

/// The ace pass adds between 1 and 11 points per ace.
pub proof fn lemma_settle_aces_bounds(total: nat, aces: nat)
    ensures
        total + aces <= settle_aces(total, aces) <= total + 11 * aces,
    decreases aces,
{
    if aces > 0 {
        if total + 11 <= 21 {
            lemma_settle_aces_bounds(total + 11, (aces - 1) as nat);
        } else {
            lemma_settle_aces_bounds(total + 1, (aces - 1) as nat);
        }
    }
}

/// A hand's score is at least its number of cards and at most ten times its
/// number of cards plus its number of aces.
pub proof fn lemma_score_bounds(s: Seq<Card>)
    ensures
        s.len() <= hand_score(s),
        hand_score(s) <= 10 * s.len() + ace_count(s),
        ace_count(s) <= s.len(),
{
    lemma_standard_sum_bounds(s);
    lemma_settle_aces_bounds(standard_sum(s), ace_count(s));
}

/// A hand with no ace scores exactly the sum of its cards' fixed values.
pub proof fn lemma_score_without_aces(s: Seq<Card>)
    requires
        forall|i: int| 0 <= i < s.len() ==> s[i].rank != CardRank::Ace,
    ensures
        hand_score(s) == standard_sum(s),
{
    lemma_ace_count_zero(s);
}

proof fn lemma_ace_count_zero(s: Seq<Card>)
    requires
        forall|i: int| 0 <= i < s.len() ==> s[i].rank != CardRank::Ace,
    ensures
        ace_count(s) == 0,
    decreases s.len(),
{
    if s.len() > 0 {
        assert(s.last() == s[s.len() - 1]);
        lemma_ace_count_zero(s.drop_last());
    }
}

/// Any two cards score at most 21 together: two fixed ranks reach at most 20,
/// one ace settles to at most 21 beside a fixed rank, and a pair of aces
/// settles to 12.
pub proof fn lemma_two_card_score(s: Seq<Card>)
    requires
        s.len() == 2,
    ensures
        hand_score(s) <= 21,
{
    lemma_standard_sum_bounds(s);
    assert(s.drop_last().drop_last() =~= Seq::<Card>::empty());
    lemma_standard_points_range(s.last());
    lemma_standard_points_range(s.drop_last().last());
    let total = standard_sum(s);
    let aces = ace_count(s);
    if aces == 0 {
        assert(hand_score(s) == total);
    } else if aces == 1 {
        assert(total <= 10);
        assert(hand_score(s) == settle_aces(
            if total + 11 <= 21 {
                total + 11
            } else {
                total + 1
            },
            0,
        ));
    } else {
        assert(total == 0);
        assert(hand_score(s) == settle_aces(11, 1));
        assert(settle_aces(11, 1) == settle_aces(12, 0));
    }
}

/// The text of a hand: its cards' texts in order, joined by single spaces.
pub open spec fn hand_text(s: Seq<Card>) -> Seq<char>
    decreases s.len(),
{
    if s.len() == 0 {
        Seq::<char>::empty()
    } else if s.len() == 1 {
        s[0].text()
    } else {
        hand_text(s.drop_last()) + " "@ + s.last().text()
    }
}

/// The cards one participant holds, in the order they were dealt.
#[derive(Debug)]
pub struct Hand(pub Vec<Card>);

impl View for Hand {
    type V = Seq<Card>;

    open spec fn view(&self) -> Seq<Card> {
        self.0@
    }
}

impl Hand {
    /// A hand small enough that scoring it cannot overflow; the game never
    /// grows a hand past this.
    pub open spec fn wf(self) -> bool {
        self@.len() <= MAX_HAND_CARDS
    }

    /// The best score of this hand: fixed values summed, then each ace in
    /// order counted high only while that keeps the total at or under 21.
    pub fn score(&self) -> (r: u8)
        requires
            self.wf(),
        ensures
            r == hand_score(self@),
    {
        let ghost cards = self@;
        let mut total: u8 = 0;
        let mut aces: u8 = 0;
        let n = self.0.len();
        for i in 0..n
            invariant
                n == cards.len() <= MAX_HAND_CARDS,
                cards == self@,
                total == standard_sum(cards.take(i as int)),
                aces == ace_count(cards.take(i as int)),
                total <= 10 * i,
                aces <= i,
        {
            proof {
                assert(cards.take(i + 1).drop_last() =~= cards.take(i as int));
                assert(cards.take(i + 1).last() == cards[i as int]);
                lemma_standard_points_range(cards[i as int]);
            }
            match self.0[i].value() {
                RankValue::Standard(v) => {
                    total = total + v;
                },
                RankValue::Ace(_, _) => {
                    aces = aces + 1;
                },
            }
        }
        proof {
            assert(cards.take(n as int) =~= cards);
            lemma_standard_sum_bounds(cards);
        }
        let mut j: u8 = 0;
        while j < aces
            invariant
                j <= aces,
                aces <= cards.len() <= MAX_HAND_CARDS,
                settle_aces(standard_sum(cards), ace_count(cards)) == settle_aces(
                    total as nat,
                    (aces - j) as nat,
                ),
                total <= 10 * (cards.len() - aces) + 11 * j,
            decreases aces - j,
        {
            if total + 11 <= 21 {
                total = total + 11;
            } else {
                total = total + 1;
            }
            j = j + 1;
        }
        total
    }

    /// The display string of this hand: its cards' texts joined by single
    /// spaces, oldest first.
    pub fn display(&self) -> (r: String)
        ensures
            r@ == hand_text(self@),
    {
        let ghost cards = self@;
        let mut s = String::new();
        let n = self.0.len();
        for i in 0..n
            invariant
                n == cards.len(),
                cards == self@,
                s@ == hand_text(cards.take(i as int)),
        {
            proof {
                assert(cards.take(i + 1).drop_last() =~= cards.take(i as int));
                assert(cards.take(i + 1).last() == cards[i as int]);
            }
            if i > 0 {
                s.append(" ");
            }
            let card_str = self.0[i].display();
            s.append(card_str.as_str());
            proof {
                if i == 0 {
                    assert(cards.take(1)[0] == cards[0]);
                    assert(s@ =~= hand_text(cards.take(1)));
                } else {
                    assert(s@ =~= hand_text(cards.take(i + 1)));
                }
            }
        }
        proof {
            assert(cards.take(n as int) =~= cards);
        }
        s
    }
}

} // verus!
