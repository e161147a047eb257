//! Game state, the legality engine, the play transition and the trick
//! resolver.

use crate::repr::{suit_mask, Card, CardIterator, CardSet, Suit};
use vstd::prelude::*;

verus! {

/// A card validated by the legality engine; only this module can produce one.
#[derive(Clone, Copy, PartialEq, Eq, Debug)]
pub struct LegalCard(Card);

impl LegalCard {
    /// The wrapped card.
    pub closed spec fn spec_card(self) -> Card {
        self.0
    }

    /// The wrapped card.
    pub fn as_card(self) -> (c: Card)
        ensures
            c == self.spec_card(),
    {
        self.0
    }
}

/// A legal-move set produced by the legality engine; only this module can
/// produce one.
#[derive(Clone, Copy, PartialEq, Eq, Debug)]
pub struct LegalCardSet(CardSet);

impl LegalCardSet {
    /// The wrapped set.
    pub closed spec fn spec_set(self) -> CardSet {
        self.0
    }

    /// The wrapped set.
    pub fn as_set(self) -> (s: CardSet)
        ensures
            s == self.spec_set(),
    {
        self.0
    }

    /// A fresh enumeration of the validated set.
    pub fn iter(self) -> (it: LegalCardIterator)
        ensures
            it.remaining() == self.spec_set(),
    {
        LegalCardIterator { inner: self.0.iter() }
    }
}

/// Enumerates a legal-move set as validated cards, in ascending identity
/// order.
#[derive(Clone, Copy, PartialEq, Eq, Debug)]
pub struct LegalCardIterator {
    inner: CardIterator,
}

impl LegalCardIterator {
    /// The cards not yet yielded.
    pub closed spec fn remaining(self) -> CardSet {
        self.inner.remaining()
    }

    /// Yields the smallest still-present card of the validated set.
    pub fn next(&mut self) -> (r: Option<LegalCard>)
        requires
            old(self).remaining().wf(),
        ensures
            final(self).remaining().wf(),
            match r {
                None => old(self).remaining().0 == 0 && *final(self) == *old(self),
                Some(lc) => {
                    &&& lc.spec_card().wf()
                    &&& old(self).remaining().has(lc.spec_card().id())
                    &&& forall|j: int| j < lc.spec_card().id() ==> !old(self).remaining().has(j)
                    &&& forall|j: int|
                        final(self).remaining().has(j) <==> (old(self).remaining().has(j) && j
                            != lc.spec_card().id())
                    &&& final(self).remaining().0 < old(self).remaining().0
                },
            },
    {
        match self.inner.next() {
            Some(c) => Some(LegalCard(c)),
            None => None,
        }
    }
}

/// `b` counted as 0 or 1.
pub open spec fn ind(b: bool) -> int {
    if b {
        1
    } else {
        0
    }
}

/// How many of the four dealt hands hold the card with identity `i`.
pub open spec fn deal_count(hands: Seq<CardSet>, i: int) -> int {
    ind(hands[0].has(i)) + ind(hands[1].has(i)) + ind(hands[2].has(i)) + ind(hands[3].has(i))
}

/// Four hands that partition the full 24-card deck exactly.
pub open spec fn full_disjoint_deal(hands: Seq<CardSet>) -> bool {
    hands.len() == 4 && forall|i: int| 0 <= i < 24 ==> deal_count(hands, i) == 1
}

/// The hand `h` holds at least one card of the suit with ordinal `s`.
pub open spec fn holds_suit(h: CardSet, s: int) -> bool {
    exists|i: int| #[trigger] h.has(i) && i % 4 + 1 == s
}

/// `c` takes the trick from `best`: it follows `best`'s suit with a strictly
/// higher rank, or it is a trump card. A later trump takes over whatever its
/// rank, so of two trumps in one trick the later one wins.
pub open spec fn beats(c: Card, best: Card, trump: int) -> bool {
    (c.suit_ord() == best.suit_ord() && c.rank_ord() > best.rank_ord()) || c.suit_ord() == trump
}

/// The trick position (0 through 3, in play order) of the winning card.
pub open spec fn winner_offset(c0: Card, c1: Card, c2: Card, c3: Card, trump: int) -> int {
    let w1: int = if beats(c1, c0, trump) {
        1
    } else {
        0
    };
    let b1 = if w1 == 1 {
        c1
    } else {
        c0
    };
    let w2: int = if beats(c2, b1, trump) {
        2
    } else {
        w1
    };
    let b2 = if w2 == 2 {
        c2
    } else {
        b1
    };
    if beats(c3, b2, trump) {
        3
    } else {
        w2
    }
}

/// The points awarded for the trick: the values of the three cards that
/// answered the lead (the leading card's own value is not part of the
/// award).
pub open spec fn trick_award(c1: Card, c2: Card, c3: Card) -> int {
    c1.points_spec() + c2.points_spec() + c3.points_spec()
}

/// Two suits are the same value exactly when their ordinals agree.
proof fn lemma_suit_ord_injective(a: Suit, b: Suit)
    ensures
        (a == b) <==> (a.ord_spec() == b.ord_spec()),
{
}

/// One trick-in-progress within a hand: whose turn it is, how many cards
/// have been played since the hand began, the team point totals, the cards
/// out of play, the current trick's plays, the four remaining hands, and the
/// hand's trump suit.
#[derive(Clone, Copy, PartialEq, Eq, Debug)]
pub struct GameState {
    player: u8,
    turn: u8,
    points0: u8,
    points1: u8,
    discard: CardSet,
    played0: Option<Card>,
    played1: Option<Card>,
    played2: Option<Card>,
    played3: Option<Card>,
    hand0: CardSet,
    hand1: CardSet,
    hand2: CardSet,
    hand3: CardSet,
    trump: Option<Suit>,
}

impl GameState {
    /// The index, 0 through 3, of the player to act next.
    pub closed spec fn spec_player(self) -> int {
        self.player as int
    }

    /// How many cards have been played since the hand began.
    pub closed spec fn spec_turn(self) -> int {
        self.turn as int
    }

    /// The accumulated points of team 0 (players 0 and 2) or team 1
    /// (players 1 and 3).
    pub closed spec fn spec_points(self, team: int) -> int {
        if team == 0 {
            self.points0 as int
        } else {
            self.points1 as int
        }
    }

    /// The cards removed from play across earlier tricks.
    pub closed spec fn spec_discard(self) -> CardSet {
        self.discard
    }

    /// The card played in trick position `j`, if that slot has ever been
    /// filled.
    pub closed spec fn spec_played(self, j: int) -> Option<Card> {
        if j == 0 {
            self.played0
        } else if j == 1 {
            self.played1
        } else if j == 2 {
            self.played2
        } else {
            self.played3
        }
    }

    /// The remaining hand of player `p`.
    pub closed spec fn spec_hand(self, p: int) -> CardSet {
        if p == 0 {
            self.hand0
        } else if p == 1 {
            self.hand1
        } else if p == 2 {
            self.hand2
        } else {
            self.hand3
        }
    }

    /// The hand's trump suit, unset until the first card of the hand is
    /// played.
    pub closed spec fn spec_trump(self) -> Option<Suit> {
        self.trump
    }

    /// Well-formedness: the acting player's index is valid, every held set
    /// is a valid card-set, trump is unset exactly before the hand's first
    /// play, and every trick slot that a play has reached holds a valid
    /// card.
    pub open spec fn wf(self) -> bool {
        &&& 0 <= self.spec_player() < 4
        &&& 0 <= self.spec_turn()
        &&& forall|p: int| 0 <= p < 4 ==> (#[trigger] self.spec_hand(p)).wf()
        &&& self.spec_discard().wf()
        &&& (self.spec_trump() is None <==> self.spec_turn() == 0)
        &&& forall|j: int|
            0 <= j < 4 && j < self.spec_turn() ==> ((#[trigger] self.spec_played(j)) matches Some(
                c,
            ) && c.wf())
    }

    /// The suit ordinal of the current trick's leading card.
    pub open spec fn lead_suit(self) -> int {
        (self.spec_played(0)->Some_0).suit_ord()
    }

    /// The ordinal of the established trump suit.
    pub open spec fn trump_ord(self) -> int {
        (self.spec_trump()->Some_0).ord_spec()
    }

    /// The card with identity `i` may be played next: when leading a trick,
    /// the whole hand; otherwise exactly the hand's cards of the led suit,
    /// or, holding none, exactly its trump cards, or, holding neither, the
    /// whole hand.
    pub open spec fn legal_ok(self, i: int) -> bool {
        let h = self.spec_hand(self.spec_player());
        if self.spec_turn() % 4 == 0 {
            h.has(i)
        } else {
            let ls = self.lead_suit();
            let ts = self.trump_ord();
            if holds_suit(h, ls) {
                h.has(i) && i % 4 + 1 == ls
            } else if holds_suit(h, ts) {
                h.has(i) && i % 4 + 1 == ts
            } else {
                h.has(i)
            }
        }
    }

    /// How many of the trick slots hold the current trick's plays.
    pub open spec fn live_len(self) -> int {
        if self.spec_turn() > 0 && self.spec_turn() % 4 == 0 {
            4
        } else {
            self.spec_turn() % 4
        }
    }

    /// Trick slot `j` currently holds the card with identity `i`.
    pub open spec fn slot_holds(self, j: int, i: int) -> bool {
        j < self.live_len() && (self.spec_played(j) matches Some(c) && c.id() == i)
    }

    /// In how many places — the four hands, the current trick's slots, the
    /// discard set — the card with identity `i` sits.
    pub open spec fn occ_count(self, i: int) -> int {
        ind(self.spec_hand(0).has(i)) + ind(self.spec_hand(1).has(i)) + ind(
            self.spec_hand(2).has(i),
        ) + ind(self.spec_hand(3).has(i)) + ind(self.spec_discard().has(i)) + ind(
            self.slot_holds(0, i),
        ) + ind(self.slot_holds(1, i)) + ind(self.slot_holds(2, i)) + ind(self.slot_holds(3, i))
    }

    /// Conservation: every one of the 24 card identities sits in exactly one
    /// place.
    pub open spec fn conserved(self) -> bool {
        forall|i: int| 0 <= i < 24 ==> self.occ_count(i) == 1
    }

    /// The remaining hand of player `p`.
    pub fn hand(&self, p: u8) -> (h: CardSet)
        requires
            p < 4,
        ensures
            h == self.spec_hand(p as int),
    {
        if p == 0 {
            self.hand0
        } else if p == 1 {
            self.hand1
        } else if p == 2 {
            self.hand2
        } else {
            self.hand3
        }
    }

    /// The index of the player to act next.
    pub fn player(&self) -> (r: u8)
        ensures
            r == self.spec_player(),
    {
        self.player
    }

    /// How many cards have been played since the hand began.
    pub fn turn(&self) -> (r: u8)
        ensures
            r == self.spec_turn(),
    {
        self.turn
    }

    /// The accumulated points of the given team.
    pub fn points(&self, team: u8) -> (r: u8)
        requires
            team < 2,
        ensures
            r == self.spec_points(team as int),
    {
        if team == 0 {
            self.points0
        } else {
            self.points1
        }
    }

    /// The cards removed from play across earlier tricks.
    pub fn discard(&self) -> (r: CardSet)
        ensures
            r == self.spec_discard(),
    {
        self.discard
    }

    /// The card played in trick position `j`, if that slot has ever been
    /// filled.
    pub fn played(&self, j: u8) -> (r: Option<Card>)
        requires
            j < 4,
        ensures
            r == self.spec_played(j as int),
    {
        if j == 0 {
            self.played0
        } else if j == 1 {
            self.played1
        } else if j == 2 {
            self.played2
        } else {
            self.played3
        }
    }

    /// The hand's trump suit, unset before the hand's first play.
    pub fn trump(&self) -> (r: Option<Suit>)
        ensures
            r == self.spec_trump(),
    {
        self.trump
    }

    /// A fresh state for a newly dealt hand: player 0 is to lead the first
    /// trick, nothing has been played, no points are scored and trump is
    /// unset. Dealt from four pairwise-disjoint hands; a deal that
    /// partitions the full deck starts conserved.
    pub fn new(hands: [CardSet; 4]) -> (r: GameState)
        requires
            forall|p: int| 0 <= p < 4 ==> (#[trigger] hands@[p]).wf(),
        ensures
            r.wf(),
            r.spec_player() == 0,
            r.spec_turn() == 0,
            r.spec_points(0) == 0 && r.spec_points(1) == 0,
            r.spec_trump() is None,
            forall|i: int| !r.spec_discard().has(i),
            forall|j: int| 0 <= j < 4 ==> (#[trigger] r.spec_played(j)) is None,
            forall|p: int| 0 <= p < 4 ==> (#[trigger] r.spec_hand(p)) == hands@[p],
            full_disjoint_deal(hands@) ==> r.conserved(),
    {
        let r = GameState {
            player: 0,
            turn: 0,
            points0: 0,
            points1: 0,
            discard: CardSet::empty(),
            played0: None,
            played1: None,
            played2: None,
            played3: None,
            hand0: hands[0],
            hand1: hands[1],
            hand2: hands[2],
            hand3: hands[3],
            trump: None,
        };
        proof {
            if full_disjoint_deal(hands@) {
                assert forall|i: int| 0 <= i < 24 implies r.occ_count(i) == 1 by {
                    assert(deal_count(hands@, i) == 1);
                }
            }
        }
        r
    }

    /// The subset of the acting player's hand that is legal to play next:
    /// the whole hand when leading a trick; otherwise the cards following
    /// the led suit, or failing that the trump cards, or failing both the
    /// whole hand.
    pub fn legal(self) -> (r: LegalCardSet)
        requires
            self.wf(),
        ensures
            r.spec_set().wf(),
            forall|i: int| #![trigger r.spec_set().has(i)] r.spec_set().has(i) <==> self.legal_ok(i),
    {
        let hand = self.hand(self.player);
        proof {
            hand.lemma_members_wf();
        }
        if self.turn % 4 == 0 {
            return LegalCardSet(hand);
        }
        proof {
            assert(self.spec_turn() % 4 != 0);
            assert(self.spec_turn() > 0);
            assert(self.spec_played(0) matches Some(c) && c.wf());
        }
        let first: Card = self.played0.unwrap();
        let lead: Suit = first.suit();
        let trump: Suit = self.trump.unwrap();
        let same_suit = hand.intersect(suit_mask(lead.ord()));
        if !same_suit.is_empty() {
            proof {
                let w = choose|i: int| same_suit.has(i);
                assert(holds_suit(hand, self.lead_suit()));
            }
            return LegalCardSet(same_suit);
        }
        proof {
            if holds_suit(hand, self.lead_suit()) {
                let w = choose|i: int| #[trigger] hand.has(i) && i % 4 + 1 == self.lead_suit();
                assert(same_suit.has(w));
            }
        }
        let trump_suit = hand.intersect(suit_mask(trump.ord()));
        if !trump_suit.is_empty() {
            proof {
                let w = choose|i: int| trump_suit.has(i);
                assert(holds_suit(hand, self.trump_ord()));
            }
            LegalCardSet(trump_suit)
        } else {
            proof {
                if holds_suit(hand, self.trump_ord()) {
                    let w = choose|i: int| #[trigger] hand.has(i) && i % 4 + 1 == self.trump_ord();
                    assert(trump_suit.has(w));
                }
            }
            LegalCardSet(hand)
        }
    }

    /// Validates a candidate card: a proof-carrying wrapper comes back
    /// exactly when the card is in the current legal set; an illegal
    /// candidate yields nothing.
    pub fn check(self, card: Card) -> (r: Option<LegalCard>)
        requires
            self.wf(),
            card.wf(),
        ensures
            r is Some <==> self.legal_ok(card.id()),
            r matches Some(lc) ==> lc.spec_card() == card,
    {
        if self.legal().as_set().contains(card) {
            Some(LegalCard(card))
        } else {
            None
        }
    }

    /// Applies a validated play: the card leaves the acting player's hand
    /// and is recorded in the current trick slot; the hand's first play
    /// fixes trump to that card's suit; the next player comes to act and
    /// the turn count advances. The input state is left as it was. A play
    /// within a trick keeps every card identity in exactly one place.
    pub fn play(self, legal_card: LegalCard) -> (r: GameState)
        requires
            self.wf(),
            self.spec_turn() < 255,
            self.legal_ok(legal_card.spec_card().id()),
        ensures
            r.wf(),
            r.spec_turn() == self.spec_turn() + 1,
            r.spec_player() == (self.spec_player() + 1) % 4,
            forall|i: int|
                #![trigger r.spec_hand(self.spec_player()).has(i)]
                r.spec_hand(self.spec_player()).has(i) <==> (self.spec_hand(
                    self.spec_player(),
                ).has(i) && i != legal_card.spec_card().id()),
            forall|p: int|
                0 <= p < 4 && p != self.spec_player() ==> (#[trigger] r.spec_hand(p))
                    == self.spec_hand(p),
            r.spec_played(self.spec_turn() % 4) == Some(legal_card.spec_card()),
            forall|j: int|
                0 <= j < 4 && j != self.spec_turn() % 4 ==> (#[trigger] r.spec_played(j))
                    == self.spec_played(j),
            self.spec_turn() == 0 ==> (r.spec_trump() matches Some(t) && t.ord_spec()
                == legal_card.spec_card().suit_ord()),
            self.spec_turn() != 0 ==> r.spec_trump() == self.spec_trump(),
            r.spec_discard() == self.spec_discard(),
            r.spec_points(0) == self.spec_points(0) && r.spec_points(1) == self.spec_points(1),
            self.conserved() && self.live_len() < 4 ==> r.conserved(),
    {
        let card = legal_card.as_card();
        let p = self.player;
        let hand = self.hand(p);
        proof {
            hand.lemma_members_wf();
        }
        let new_hand = hand.sym_diff(card.to_set());
        let k = self.turn % 4;
        let r = GameState {
            player: (p + 1) % 4,
            turn: self.turn + 1,
            points0: self.points0,
            points1: self.points1,
            discard: self.discard,
            played0: if k == 0 {
                Some(card)
            } else {
                self.played0
            },
            played1: if k == 1 {
                Some(card)
            } else {
                self.played1
            },
            played2: if k == 2 {
                Some(card)
            } else {
                self.played2
            },
            played3: if k == 3 {
                Some(card)
            } else {
                self.played3
            },
            hand0: if p == 0 {
                new_hand
            } else {
                self.hand0
            },
            hand1: if p == 1 {
                new_hand
            } else {
                self.hand1
            },
            hand2: if p == 2 {
                new_hand
            } else {
                self.hand2
            },
            hand3: if p == 3 {
                new_hand
            } else {
                self.hand3
            },
            trump: if self.turn == 0 {
                Some(card.suit())
            } else {
                self.trump
            },
        };
        proof {
            let k_int = self.spec_turn() % 4;
            let cid = legal_card.spec_card().id();
            assert(k == k_int);
            assert(hand.has(cid));
            assert(legal_card.spec_card().wf());
            assert forall|j: int|
                0 <= j < 4 && j < r.spec_turn() implies ((#[trigger] r.spec_played(j)) matches Some(
                c,
            ) && c.wf()) by {
                if j == k_int {
                    assert(r.spec_played(j) == Some(card));
                } else {
                    assert(j < self.spec_turn());
                    assert((self.spec_played(j) matches Some(c) && c.wf()));
                    assert(r.spec_played(j) == self.spec_played(j));
                }
            }
            assert forall|q: int| 0 <= q < 4 implies (#[trigger] r.spec_hand(q)).wf() by {
                if q == self.spec_player() {
                    assert(r.spec_hand(q) == new_hand);
                } else {
                    assert(r.spec_hand(q) == self.spec_hand(q));
                    assert(self.spec_hand(q).wf());
                }
            }
            assert(r.wf());
            if self.conserved() && self.live_len() < 4 {
                assert(self.live_len() == k_int);
                assert(r.spec_turn() % 4 == (k_int + 1) % 4);
                assert(r.live_len() == k_int + 1);
                assert forall|i: int| 0 <= i < 24 implies r.occ_count(i) == 1 by {
                    assert(self.occ_count(i) == 1);
                    assert(!self.slot_holds(k_int, i));
                    assert(r.slot_holds(k_int, i) <==> i == cid);
                    assert forall|j: int|
                        0 <= j < 4 && j != k_int implies (#[trigger] r.slot_holds(j, i))
                            == self.slot_holds(j, i) by {
                        assert(r.spec_played(j) == self.spec_played(j));
                    }
                    assert(ind(r.spec_hand(self.spec_player()).has(i)) == ind(
                        self.spec_hand(self.spec_player()).has(i),
                    ) - ind(i == cid));
                }
            }
        }
        r
    }

    /// Resolves the just-completed trick: starting from the leading card, a
    /// later card takes the lead when it follows the current best's suit
    /// with a strictly higher rank, or when it is a trump card. The values
    /// of the three answering cards are awarded to the winner's team; every
    /// other part of the state is left as it was.
    pub fn take(self) -> (r: GameState)
        requires
            self.wf(),
            self.spec_turn() > 0 && self.spec_turn() % 4 == 0,
            self.spec_points(0) <= 222,
            self.spec_points(1) <= 222,
        ensures
            r.wf(),
            r.spec_player() == self.spec_player(),
            r.spec_turn() == self.spec_turn(),
            r.spec_trump() == self.spec_trump(),
            r.spec_discard() == self.spec_discard(),
            forall|p: int| 0 <= p < 4 ==> (#[trigger] r.spec_hand(p)) == self.spec_hand(p),
            forall|j: int| 0 <= j < 4 ==> (#[trigger] r.spec_played(j)) == self.spec_played(j),
            ({
                let c0 = self.spec_played(0)->Some_0;
                let c1 = self.spec_played(1)->Some_0;
                let c2 = self.spec_played(2)->Some_0;
                let c3 = self.spec_played(3)->Some_0;
                let w = (self.spec_player() + winner_offset(c0, c1, c2, c3, self.trump_ord()))
                    % 4;
                let award = trick_award(c1, c2, c3);
                &&& r.spec_points(w % 2) == self.spec_points(w % 2) + award
                &&& r.spec_points(1 - w % 2) == self.spec_points(1 - w % 2)
            }),
            r.conserved() == self.conserved(),
    {
        proof {
            assert(self.spec_turn() >= 4);
            assert(self.spec_played(0) matches Some(c) && c.wf());
            assert(self.spec_played(1) matches Some(c) && c.wf());
            assert(self.spec_played(2) matches Some(c) && c.wf());
            assert(self.spec_played(3) matches Some(c) && c.wf());
        }
        let mut player: u8 = self.player;
        let trump: Suit = self.trump.unwrap();
        let mut best_card: Card = self.played0.unwrap();
        let mut best_player: u8 = player;
        player = (player + 1) % 4;
        let mut points: u8 = 0;

        let ghost c0 = self.spec_played(0)->Some_0;
        let ghost c1s = self.spec_played(1)->Some_0;
        let ghost c2s = self.spec_played(2)->Some_0;
        let ghost c3s = self.spec_played(3)->Some_0;
        let ghost tr = self.trump_ord();

        let c1: Card = self.played1.unwrap();
        points = points + c1.points();
        let s1: Suit = c1.suit();
        let b1: Suit = best_card.suit();
        proof {
            lemma_suit_ord_injective(s1, b1);
            lemma_suit_ord_injective(s1, trump);
        }
        if s1 == b1 && c1.rank().ord() > best_card.rank().ord() {
            best_card = c1;
            best_player = player;
        } else if s1 == trump {
            best_card = c1;
            best_player = player;
        }
        player = (player + 1) % 4;
        let ghost w1: int = if beats(c1s, c0, tr) {
            1
        } else {
            0
        };
        proof {
            assert(best_player == (self.spec_player() + w1) % 4);
        }

        let c2: Card = self.played2.unwrap();
        points = points + c2.points();
        let s2: Suit = c2.suit();
        let b2: Suit = best_card.suit();
        proof {
            lemma_suit_ord_injective(s2, b2);
            lemma_suit_ord_injective(s2, trump);
        }
        if s2 == b2 && c2.rank().ord() > best_card.rank().ord() {
            best_card = c2;
            best_player = player;
        } else if s2 == trump {
            best_card = c2;
            best_player = player;
        }
        player = (player + 1) % 4;
        let ghost best1 = if w1 == 1 {
            c1s
        } else {
            c0
        };
        let ghost w2: int = if beats(c2s, best1, tr) {
            2
        } else {
            w1
        };
        proof {
            assert(best_player == (self.spec_player() + w2) % 4);
        }

        let c3: Card = self.played3.unwrap();
        points = points + c3.points();
        let s3: Suit = c3.suit();
        let b3: Suit = best_card.suit();
        proof {
            lemma_suit_ord_injective(s3, b3);
            lemma_suit_ord_injective(s3, trump);
        }
        if s3 == b3 && c3.rank().ord() > best_card.rank().ord() {
            best_card = c3;
            best_player = player;
        } else if s3 == trump {
            best_card = c3;
            best_player = player;
        }
        proof {
            assert(best_player == (self.spec_player() + winner_offset(c0, c1s, c2s, c3s, tr))
                % 4);
            assert(points == trick_award(c1s, c2s, c3s));
        }

        let mut s = self;
        if best_player % 2 == 0 {
            s.points0 = s.points0 + points;
        } else {
            s.points1 = s.points1 + points;
        }
        proof {
            assert forall|q: int| 0 <= q < 4 implies (#[trigger] s.spec_hand(q))
                == self.spec_hand(q) by {}
            assert forall|j: int| 0 <= j < 4 implies (#[trigger] s.spec_played(j))
                == self.spec_played(j) by {}
            assert forall|q: int| 0 <= q < 4 implies (#[trigger] s.spec_hand(q)).wf() by {
                assert(self.spec_hand(q).wf());
            }
            assert forall|j: int|
                0 <= j < 4 && j < s.spec_turn() implies ((#[trigger] s.spec_played(j)) matches Some(
                c,
            ) && c.wf()) by {
                assert((self.spec_played(j) matches Some(c) && c.wf()));
            }
            assert(s.wf());
            assert forall|i: int| s.occ_count(i) == self.occ_count(i) by {
                assert forall|j: int| 0 <= j < 4 implies (#[trigger] s.slot_holds(j, i))
                    == self.slot_holds(j, i) by {}
            }
        }
        s
    }
}

/// Trump fixation: trump is unset exactly before the hand's first play; the
/// first play fixes it to the first card's suit and no later play or trick
/// resolution changes it (see the trump clauses of `play` and `take`).
pub proof fn lemma_trump_fixation(s: GameState)
    requires
        s.wf(),
    ensures
        s.spec_trump() is None <==> s.spec_turn() == 0,
{
}

/// Opening freedom: when the acting player leads a trick, the legal set is
/// the player's whole hand.
pub proof fn lemma_opening_freedom(s: GameState)
    requires
        s.wf(),
        s.spec_turn() % 4 == 0,
    ensures
        forall|i: int| s.legal_ok(i) <==> s.spec_hand(s.spec_player()).has(i),
{
}

/// Follow-suit tier: holding at least one card of the led suit, the legal
/// set is exactly the hand's cards of that suit.
pub proof fn lemma_follow_suit_tier(s: GameState)
    requires
        s.wf(),
        s.spec_turn() % 4 != 0,
        holds_suit(s.spec_hand(s.spec_player()), s.lead_suit()),
    ensures
        forall|i: int|
            s.legal_ok(i) <==> (s.spec_hand(s.spec_player()).has(i) && i % 4 + 1
                == s.lead_suit()),
{
}

/// Must-trump tier: holding no card of the led suit but at least one trump,
/// the legal set is exactly the hand's trump cards.
pub proof fn lemma_must_trump_tier(s: GameState)
    requires
        s.wf(),
        s.spec_turn() % 4 != 0,
        !holds_suit(s.spec_hand(s.spec_player()), s.lead_suit()),
        holds_suit(s.spec_hand(s.spec_player()), s.trump_ord()),
    ensures
        forall|i: int|
            s.legal_ok(i) <==> (s.spec_hand(s.spec_player()).has(i) && i % 4 + 1
                == s.trump_ord()),
{
}

/// Free-play tier: holding neither the led suit nor trump, the legal set is
/// the whole hand.
pub proof fn lemma_free_play_tier(s: GameState)
    requires
        s.wf(),
        s.spec_turn() % 4 != 0,
        !holds_suit(s.spec_hand(s.spec_player()), s.lead_suit()),
        !holds_suit(s.spec_hand(s.spec_player()), s.trump_ord()),
    ensures
        forall|i: int| s.legal_ok(i) <==> s.spec_hand(s.spec_player()).has(i),
{
}

} // verus!
