//! Card encoding and the bit-mask card set.
//!
//! A card identity is the integer `rank_ordinal * 4 + (suit_ordinal - 1)`,
//! in `0..24`; a `CardSet` is a 32-bit mask whose bit `i` is set exactly when
//! the card with identity `i` is present. Bits 24 and above are never set by
//! any operation defined here.

use vstd::prelude::*;

verus! {

/// The four suits, with ordinals 1 through 4 (ordinal 0 is reserved).
#[derive(Eq, PartialEq, Structural, Ord, PartialOrd, Copy, Clone, Debug)]
pub enum Suit {
    Acorns,
    Leaves,
    Hearts,
    Bells,
}

impl Suit {
    /// The suit's ordinal, 1 through 4.
    pub open spec fn ord_spec(self) -> int {
        match self {
            Suit::Acorns => 1,
            Suit::Leaves => 2,
            Suit::Hearts => 3,
            Suit::Bells => 4,
        }
    }

    /// The suit's ordinal, 1 through 4.
    pub fn ord(self) -> (r: u8)
        ensures
            r == self.ord_spec(),
    {
        match self {
            Suit::Acorns => 1,
            Suit::Leaves => 2,
            Suit::Hearts => 3,
            Suit::Bells => 4,
        }
    }

    /// The suit with the given ordinal.
    pub fn from_ord(o: u8) -> (r: Suit)
        requires
            1 <= o <= 4,
        ensures
            r.ord_spec() == o,
    {
        if o == 1 {
            Suit::Acorns
        } else if o == 2 {
            Suit::Leaves
        } else if o == 3 {
            Suit::Hearts
        } else {
            Suit::Bells
        }
    }
}

/// The six ranks, with ordinals 0 through 5, ordered by trick-winning
/// strength; each carries a fixed point value.
#[derive(Eq, PartialEq, Structural, Ord, PartialOrd, Copy, Clone, Debug)]
pub enum Rank {
    Nine,
    Two,
    Three,
    Four,
    Ten,
    Ace,
}

/// The point value carried by the rank with the given ordinal.
pub open spec fn points_of_rank_ord(r: int) -> int {
    if r == 0 {
        0
    } else if r == 1 {
        2
    } else if r == 2 {
        3
    } else if r == 3 {
        4
    } else if r == 4 {
        10
    } else {
        11
    }
}

impl Rank {
    /// The rank's ordinal, 0 through 5.
    pub open spec fn ord_spec(self) -> int {
        match self {
            Rank::Nine => 0,
            Rank::Two => 1,
            Rank::Three => 2,
            Rank::Four => 3,
            Rank::Ten => 4,
            Rank::Ace => 5,
        }
    }

    /// The rank's ordinal, 0 through 5.
    pub fn ord(self) -> (r: u8)
        ensures
            r == self.ord_spec(),
    {
        match self {
            Rank::Nine => 0,
            Rank::Two => 1,
            Rank::Three => 2,
            Rank::Four => 3,
            Rank::Ten => 4,
            Rank::Ace => 5,
        }
    }

    /// The rank with the given ordinal.
    pub fn from_ord(o: u8) -> (r: Rank)
        requires
            0 <= o <= 5,
        ensures
            r.ord_spec() == o,
    {
        if o == 0 {
            Rank::Nine
        } else if o == 1 {
            Rank::Two
        } else if o == 2 {
            Rank::Three
        } else if o == 3 {
            Rank::Four
        } else if o == 4 {
            Rank::Ten
        } else {
            Rank::Ace
        }
    }
}

/// One of the 24 cards, held as its identity in `0..24`.
#[derive(Eq, PartialEq, Structural, Ord, PartialOrd, Copy, Clone, Debug)]
pub struct Card(pub u8);

impl Card {
    /// The card's identity as a mathematical integer.
    pub open spec fn id(self) -> int {
        self.0 as int
    }

    /// The identity lies in the valid range `0..24`.
    pub open spec fn wf(self) -> bool {
        self.0 < 24
    }

    /// The ordinal of the card's suit, recovered from the identity.
    pub open spec fn suit_ord(self) -> int {
        self.id() % 4 + 1
    }

    /// The ordinal of the card's rank, recovered from the identity.
    pub open spec fn rank_ord(self) -> int {
        self.id() / 4
    }

    /// The card's point value.
    pub open spec fn points_spec(self) -> int {
        points_of_rank_ord(self.rank_ord())
    }

    /// The card with the given rank and suit.
    pub fn new(rank: Rank, suit: Suit) -> (c: Card)
        ensures
            c.wf(),
            c.rank_ord() == rank.ord_spec(),
            c.suit_ord() == suit.ord_spec(),
    {
        Card(rank.ord() * 4 + suit.ord() - 1)
    }

    /// The card's suit.
    pub fn suit(self) -> (s: Suit)
        requires
            self.wf(),
        ensures
            s.ord_spec() == self.suit_ord(),
    {
        Suit::from_ord(self.0 % 4 + 1)
    }

    /// The card's rank.
    pub fn rank(self) -> (r: Rank)
        requires
            self.wf(),
        ensures
            r.ord_spec() == self.rank_ord(),
    {
        Rank::from_ord(self.0 / 4)
    }

    /// The card's point value: Nine is worth 0, Two 2, Three 3, Four 4,
    /// Ten 10 and Ace 11.
    pub fn points(self) -> (p: u8)
        requires
            self.wf(),
        ensures
            p == self.points_spec(),
    {
        match self.rank() {
            Rank::Nine => 0,
            Rank::Two => 2,
            Rank::Three => 3,
            Rank::Four => 4,
            Rank::Ten => 10,
            Rank::Ace => 11,
        }
    }
}

/// Bit `j` of `x | y` is the disjunction of the operands' bits.
proof fn lemma_bit_or(x: u32, y: u32, j: u32)
    by (bit_vector)
    requires
        j < 32,
    ensures
        ((x | y) >> j) & 1u32 == 1u32 <==> ((x >> j) & 1u32 == 1u32 || (y >> j) & 1u32 == 1u32),
{
}

/// Bit `j` of `x & y` is the conjunction of the operands' bits.
proof fn lemma_bit_and(x: u32, y: u32, j: u32)
    by (bit_vector)
    requires
        j < 32,
    ensures
        ((x & y) >> j) & 1u32 == 1u32 <==> ((x >> j) & 1u32 == 1u32 && (y >> j) & 1u32 == 1u32),
{
}

/// Bit `j` of `x ^ y` is set exactly when the operands' bits differ.
proof fn lemma_bit_xor(x: u32, y: u32, j: u32)
    by (bit_vector)
    requires
        j < 32,
    ensures
        ((x ^ y) >> j) & 1u32 == 1u32 <==> (((x >> j) & 1u32 == 1u32) != ((y >> j) & 1u32
            == 1u32)),
{
}

/// Bit `j` of the singleton mask `1 << t` is set exactly when `j == t`.
proof fn lemma_bit_single(t: u32, j: u32)
    by (bit_vector)
    requires
        t < 32,
        j < 32,
    ensures
        ((1u32 << t) >> j) & 1u32 == 1u32 <==> j == t,
{
}

/// A mask below `0x100_0000` has no bit at position 24 or above, and
/// conversely the bitwise operations keep that bound.
proof fn lemma_mask_bound(x: u32, y: u32, j: u32)
    by (bit_vector)
    requires
        j < 32,
    ensures
        x < 0x100_0000 && 24 <= j ==> (x >> j) & 1u32 == 0u32,
        x < 0x100_0000 && y < 0x100_0000 ==> (x | y) < 0x100_0000 && (x & y) < 0x100_0000 && (x ^ y)
            < 0x100_0000,
        x == 0 ==> (x >> j) & 1u32 == 0u32,
{
}

/// A singleton mask of a bit below 24 stays below `0x100_0000`.
proof fn lemma_single_bound(t: u32)
    by (bit_vector)
    requires
        t < 24,
    ensures
        (1u32 << t) < 0x100_0000,
{
}

/// A set of cards, held as a 32-bit mask: bit `i` is set exactly when the
/// card with identity `i` is present.
#[derive(Eq, PartialEq, Structural, Ord, PartialOrd, Copy, Clone, Debug)]
pub struct CardSet(pub u32);

impl CardSet {
    /// The card with identity `i` is present.
    pub open spec fn has(self, i: int) -> bool {
        0 <= i < 32 && (self.0 >> (i as u32)) & 1u32 == 1u32
    }

    /// No bit at position 24 or above is set.
    pub open spec fn wf(self) -> bool {
        self.0 < 0x100_0000
    }

    /// A well-formed set holds valid card identities only.
    pub proof fn lemma_members_wf(self)
        requires
            self.wf(),
        ensures
            forall|i: int| self.has(i) ==> 0 <= i < 24,
    {
        assert forall|i: int| self.has(i) implies 0 <= i < 24 by {
            if 24 <= i < 32 {
                lemma_mask_bound(self.0, 0, i as u32);
            }
        }
    }

    /// Two sets with the same members are the same set.
    pub proof fn lemma_ext(self, other: CardSet)
        requires
            forall|i: int| self.has(i) <==> other.has(i),
        ensures
            self == other,
    {
        if self.0 != other.0 {
            let x: u32 = self.0;
            let y: u32 = other.0;
            let z: u32 = x ^ y;
            assert(z != 0) by (bit_vector)
                requires
                    z == x ^ y,
                    x != y,
            ;
            vstd::std_specs::bits::axiom_u32_trailing_zeros(z);
            let t: u32 = vstd::std_specs::bits::u32_trailing_zeros(z);
            assert((z >> t) & 1u32 == 1u32);
            lemma_bit_xor(x, y, t);
            assert(self.has(t as int) != other.has(t as int));
        }
    }

    /// The set with the given mask.
    pub fn from_bits(bits: u32) -> (r: CardSet)
        requires
            bits < 0x100_0000,
        ensures
            r.wf(),
            r.0 == bits,
    {
        CardSet(bits)
    }

    /// The set with no cards.
    pub fn empty() -> (r: CardSet)
        ensures
            r.wf(),
            r.0 == 0,
            forall|i: int| !r.has(i),
    {
        let r = CardSet(0);
        proof {
            assert forall|i: int| !r.has(i) by {
                if 0 <= i < 32 {
                    lemma_mask_bound(0, 0, i as u32);
                }
            }
        }
        r
    }

    /// The union of the two sets.
    pub fn union(self, other: CardSet) -> (r: CardSet)
        ensures
            forall|i: int| r.has(i) <==> (self.has(i) || other.has(i)),
            self.wf() && other.wf() ==> r.wf(),
    {
        let r = CardSet(self.0 | other.0);
        proof {
            assert forall|i: int| r.has(i) <==> (self.has(i) || other.has(i)) by {
                if 0 <= i < 32 {
                    lemma_bit_or(self.0, other.0, i as u32);
                }
            }
            lemma_mask_bound(self.0, other.0, 0);
        }
        r
    }

    /// The intersection of the two sets.
    pub fn intersect(self, other: CardSet) -> (r: CardSet)
        ensures
            forall|i: int| r.has(i) <==> (self.has(i) && other.has(i)),
            self.wf() && other.wf() ==> r.wf(),
    {
        let r = CardSet(self.0 & other.0);
        proof {
            assert forall|i: int| r.has(i) <==> (self.has(i) && other.has(i)) by {
                if 0 <= i < 32 {
                    lemma_bit_and(self.0, other.0, i as u32);
                }
            }
            lemma_mask_bound(self.0, other.0, 0);
        }
        r
    }

    /// The symmetric difference of the two sets.
    pub fn sym_diff(self, other: CardSet) -> (r: CardSet)
        ensures
            forall|i: int| r.has(i) <==> (self.has(i) != other.has(i)),
            self.wf() && other.wf() ==> r.wf(),
    {
        let r = CardSet(self.0 ^ other.0);
        proof {
            assert forall|i: int| r.has(i) <==> (self.has(i) != other.has(i)) by {
                if 0 <= i < 32 {
                    lemma_bit_xor(self.0, other.0, i as u32);
                }
            }
            lemma_mask_bound(self.0, other.0, 0);
        }
        r
    }

    /// The set holds no card at all.
    pub fn is_empty(self) -> (r: bool)
        ensures
            r <==> forall|i: int| !self.has(i),
    {
        proof {
            if self.0 == 0 {
                assert forall|i: int| !self.has(i) by {
                    if 0 <= i < 32 {
                        lemma_mask_bound(0, 0, i as u32);
                    }
                }
            } else {
                vstd::std_specs::bits::axiom_u32_trailing_zeros(self.0);
                let t: u32 = vstd::std_specs::bits::u32_trailing_zeros(self.0);
                assert(self.has(t as int));
            }
        }
        self.0 == 0
    }

    /// The given card is a member.
    pub fn contains(self, card: Card) -> (r: bool)
        requires
            card.wf(),
        ensures
            r == self.has(card.id()),
    {
        let inter = self.intersect(card.to_set());
        let r = !inter.is_empty();
        proof {
            if self.has(card.id()) {
                assert(inter.has(card.id()));
            }
        }
        r
    }
}

/// Clearing the lowest set bit `t` by a singleton xor leaves every other
/// bit as it was and strictly shrinks the mask's value.
proof fn lemma_bit_drop(x: u32, t: u32, j: u32)
    by (bit_vector)
    requires
        t < 32,
        j < 32,
        (x >> t) & 1u32 == 1u32,
    ensures
        ((x ^ (1u32 << t)) >> j) & 1u32 == (if j == t {
            0u32
        } else {
            (x >> j) & 1u32
        }),
        (x ^ (1u32 << t)) < x,
{
}

/// Enumerates a card set in ascending identity order, by repeatedly
/// extracting the lowest set bit of an independent copy of the mask.
#[derive(Eq, PartialEq, Copy, Clone, Debug)]
pub struct CardIterator {
    set: CardSet,
}

impl CardIterator {
    /// The cards not yet yielded.
    pub closed spec fn remaining(self) -> CardSet {
        self.set
    }

    /// Yields the smallest card identity still present, or nothing once the
    /// set is exhausted.
    pub fn next(&mut self) -> (r: Option<Card>)
        requires
            old(self).remaining().wf(),
        ensures
            final(self).remaining().wf(),
            match r {
                None => old(self).remaining().0 == 0 && *final(self) == *old(self),
                Some(c) => {
                    &&& c.wf()
                    &&& old(self).remaining().has(c.id())
                    &&& forall|j: int| j < c.id() ==> !old(self).remaining().has(j)
                    &&& forall|j: int|
                        final(self).remaining().has(j) <==> (old(self).remaining().has(j) && j
                            != c.id())
                    &&& final(self).remaining().0 < old(self).remaining().0
                },
            },
    {
        if self.set.0 == 0 {
            return None;
        }
        let set: u32 = self.set.0;
        proof {
            vstd::std_specs::bits::axiom_u32_trailing_zeros(set);
        }
        let idx: u32 = set.trailing_zeros();
        proof {
            assert(idx < 24) by (bit_vector)
                requires
                    set < 0x100_0000,
                    idx < 32,
                    (set >> idx) & 1u32 == 1u32,
            ;
        }
        let card = Card(idx as u8);
        let rest = CardSet(set ^ (1u32 << idx));
        proof {
            lemma_bit_drop(set, idx, 0);
            assert(self.set.has(card.id()));
            assert forall|j: int| j < card.id() implies !self.set.has(j) by {
                if 0 <= j < 32 {
                    assert((set >> (j as u32)) & 1u32 == 0u32);
                }
            }
            assert forall|j: int| rest.has(j) <==> (self.set.has(j) && j != card.id()) by {
                if 0 <= j < 32 {
                    lemma_bit_drop(set, idx, j as u32);
                }
            }
            assert(rest.wf()) by {
                assert(rest.0 < set);
            }
        }
        self.set = rest;
        Some(card)
    }
}

impl CardSet {
    /// A fresh enumeration of this set; each enumeration works on its own
    /// copy of the mask.
    pub fn iter(self) -> (it: CardIterator)
        ensures
            it.remaining() == self,
    {
        CardIterator { set: self }
    }

    /// The members of the set, in ascending identity order.
    pub fn members(self) -> (r: Vec<Card>)
        requires
            self.wf(),
        ensures
            forall|k: int|
                0 <= k < r@.len() ==> (#[trigger] r@[k]).wf() && self.has(r@[k].id()),
            forall|i: int|
                self.has(i) ==> exists|k: int| 0 <= k < r@.len() && (#[trigger] r@[k]).id() == i,
            forall|k1: int, k2: int| 0 <= k1 < k2 < r@.len() ==> r@[k1].id() < r@[k2].id(),
    {
        let mut it = self.iter();
        let mut r: Vec<Card> = Vec::new();
        loop
            invariant
                it.remaining().wf(),
                forall|k: int|
                    0 <= k < r@.len() ==> (#[trigger] r@[k]).wf() && self.has(r@[k].id()),
                forall|i: int|
                    self.has(i) <==> (it.remaining().has(i) || exists|k: int|
                        0 <= k < r@.len() && (#[trigger] r@[k]).id() == i),
                forall|i: int, k: int|
                    #![trigger it.remaining().has(i), r@[k]]
                    it.remaining().has(i) && 0 <= k < r@.len() ==> r@[k].id() < i,
                forall|k1: int, k2: int| 0 <= k1 < k2 < r@.len() ==> r@[k1].id() < r@[k2].id(),
            decreases it.remaining().0,
        {
            let ghost r0 = r@;
            match it.next() {
                None => {
                    proof {
                        assert forall|i: int| !it.remaining().has(i) by {
                            if 0 <= i < 32 {
                                lemma_mask_bound(0, 0, i as u32);
                            }
                        }
                    }
                    return r;
                },
                Some(c) => {
                    r.push(c);
                    proof {
                        assert(r@ == r0.push(c));
                        assert(r@[r0.len() as int] == c);
                        assert forall|i: int|
                            self.has(i) <==> (it.remaining().has(i) || exists|k: int|
                                0 <= k < r@.len() && (#[trigger] r@[k]).id() == i) by {
                            if self.has(i) && !it.remaining().has(i) && i != c.id() {
                                let k = choose|k: int|
                                    0 <= k < r0.len() && (#[trigger] r0[k]).id() == i;
                                assert(r@[k].id() == i);
                            }
                            if (exists|k: int|
                                0 <= k < r@.len() && (#[trigger] r@[k]).id() == i) {
                                let k = choose|k: int|
                                    0 <= k < r@.len() && (#[trigger] r@[k]).id() == i;
                                if k < r0.len() {
                                    assert(r0[k].id() == i);
                                } else {
                                    assert(i == c.id());
                                }
                                assert(self.has(i));
                            }
                        }
                    }
                },
            }
        }
    }

    /// The union of the singleton sets of the given cards.
    pub fn from_cards(cards: &Vec<Card>) -> (r: CardSet)
        requires
            forall|k: int| 0 <= k < cards@.len() ==> (#[trigger] cards@[k]).wf(),
        ensures
            r.wf(),
            forall|i: int|
                r.has(i) <==> exists|k: int|
                    0 <= k < cards@.len() && (#[trigger] cards@[k]).id() == i,
    {
        let mut r = CardSet::empty();
        let mut n: usize = 0;
        while n < cards.len()
            invariant
                forall|k: int| 0 <= k < cards@.len() ==> (#[trigger] cards@[k]).wf(),
                n <= cards@.len(),
                r.wf(),
                forall|i: int|
                    r.has(i) <==> exists|k: int| 0 <= k < n && (#[trigger] cards@[k]).id() == i,
            decreases cards@.len() - n,
        {
            r = r.union(cards[n].to_set());
            n = n + 1;
        }
        r
    }
}

/// Bit `j` of the suit mask `0x111111 << k` is set exactly for the card
/// identities below 24 whose suit ordinal is `k + 1`.
proof fn lemma_suit_mask_bit(k: u32, j: u32)
    by (bit_vector)
    requires
        k < 4,
        j < 32,
    ensures
        (((0x111111u32 << k) >> j) & 1u32 == 1u32) <==> (j < 24 && j % 4 == k),
        (0x111111u32 << k) < 0x100_0000,
{
}

/// The set of the six cards of the suit with ordinal `s`.
pub fn suit_mask(s: u8) -> (m: CardSet)
    requires
        1 <= s <= 4,
    ensures
        m.wf(),
        forall|i: int| m.has(i) <==> (0 <= i < 24 && i % 4 + 1 == s),
{
    let m = CardSet(0x111111u32 << ((s - 1) as u32));
    proof {
        lemma_suit_mask_bit((s - 1) as u32, 0);
        assert forall|i: int| m.has(i) <==> (0 <= i < 24 && i % 4 + 1 == s) by {
            if 0 <= i < 32 {
                lemma_suit_mask_bit((s - 1) as u32, i as u32);
                assert((i as u32) % 4 == (i % 4) as u32);
            }
        }
    }
    m
}

/// Round-trip enumeration: re-unioning, as singleton sets, any enumeration
/// that lists exactly a set's members reproduces that set exactly.
pub proof fn lemma_enumeration_round_trip(s: CardSet, cards: Seq<Card>, r: CardSet)
    requires
        forall|k: int| 0 <= k < cards.len() ==> s.has((#[trigger] cards[k]).id()),
        forall|i: int|
            s.has(i) ==> exists|k: int| 0 <= k < cards.len() && (#[trigger] cards[k]).id() == i,
        forall|i: int|
            r.has(i) <==> exists|k: int|
                0 <= k < cards.len() && (#[trigger] cards[k]).id() == i,
    ensures
        r == s,
{
    assert forall|i: int| r.has(i) <==> s.has(i) by {
        if s.has(i) {
            let k = choose|k: int| 0 <= k < cards.len() && (#[trigger] cards[k]).id() == i;
            assert(r.has(i));
        }
        if r.has(i) {
            let k = choose|k: int| 0 <= k < cards.len() && (#[trigger] cards[k]).id() == i;
            assert(s.has(i));
        }
    }
    r.lemma_ext(s);
}

impl Card {
    /// The set holding this card alone.
    pub fn to_set(self) -> (s: CardSet)
        requires
            self.wf(),
        ensures
            s.wf(),
            forall|i: int| s.has(i) <==> i == self.id(),
    {
        let s = CardSet(1u32 << self.0);
        proof {
            assert forall|i: int| s.has(i) <==> i == self.id() by {
                if 0 <= i < 32 {
                    lemma_bit_single(self.0 as u32, i as u32);
                }
            }
            lemma_single_bound(self.0 as u32);
        }
        s
    }
}

} // verus!
