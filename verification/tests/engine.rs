use cruce::{Card, CardSet, GameState, Rank, Suit};

fn mask(ids: &[u8]) -> u32 {
    let mut m: u32 = 0;
    for &i in ids {
        m |= 1u32 << i;
    }
    m
}

fn set(ids: &[u8]) -> CardSet {
    CardSet::from_bits(mask(ids))
}

#[test]
fn card_encoding_round_trip() {
    let suits = [Suit::Acorns, Suit::Leaves, Suit::Hearts, Suit::Bells];
    let ranks = [
        Rank::Nine,
        Rank::Two,
        Rank::Three,
        Rank::Four,
        Rank::Ten,
        Rank::Ace,
    ];
    for (ri, &r) in ranks.iter().enumerate() {
        for (si, &s) in suits.iter().enumerate() {
            let c = Card::new(r, s);
            assert_eq!(c.0 as usize, ri * 4 + si);
            assert_eq!(c.suit(), s);
            assert_eq!(c.rank(), r);
        }
    }
}

#[test]
fn card_point_values() {
    assert_eq!(Card::new(Rank::Nine, Suit::Hearts).points(), 0);
    assert_eq!(Card::new(Rank::Two, Suit::Hearts).points(), 2);
    assert_eq!(Card::new(Rank::Three, Suit::Hearts).points(), 3);
    assert_eq!(Card::new(Rank::Four, Suit::Hearts).points(), 4);
    assert_eq!(Card::new(Rank::Ten, Suit::Hearts).points(), 10);
    assert_eq!(Card::new(Rank::Ace, Suit::Hearts).points(), 11);
}

#[test]
fn set_algebra() {
    let a = set(&[0, 2, 23]);
    let b = set(&[0, 1]);
    assert_eq!(a.union(b).0, mask(&[0, 1, 2, 23]));
    assert_eq!(a.intersect(b).0, mask(&[0]));
    assert_eq!(a.sym_diff(b).0, mask(&[1, 2, 23]));
    assert!(CardSet::empty().is_empty());
    assert!(!a.is_empty());
    assert!(a.contains(Card(2)));
    assert!(!a.contains(Card(1)));
}

#[test]
fn enumeration_is_ascending_and_restartable() {
    let s = set(&[3, 0, 17, 23, 8]);
    let first: Vec<u8> = s.members().iter().map(|c| c.0).collect();
    assert_eq!(first, vec![0, 3, 8, 17, 23]);
    // a second enumeration of the same value yields the same sequence
    let second: Vec<u8> = s.members().iter().map(|c| c.0).collect();
    assert_eq!(first, second);
    let mut it = s.iter();
    assert_eq!(it.next().map(|c| c.0), Some(0));
    assert_eq!(it.next().map(|c| c.0), Some(3));
    assert_eq!(it.next().map(|c| c.0), Some(8));
    assert_eq!(it.next().map(|c| c.0), Some(17));
    assert_eq!(it.next().map(|c| c.0), Some(23));
    assert_eq!(it.next(), None);
    assert_eq!(it.next(), None);
}

#[test]
fn enumeration_round_trip() {
    // re-unioning the members as singleton sets reproduces the set exactly
    for bits in [0u32, 1, 0x2A, 0x800001, 0xABCDEF, 0xFFFFFF] {
        let s = CardSet::from_bits(bits);
        let cards = s.members();
        let rebuilt = CardSet::from_cards(&cards);
        assert_eq!(rebuilt, s);
        let mut manual = CardSet::empty();
        for c in s.members() {
            manual = manual.union(c.to_set());
        }
        assert_eq!(manual, s);
    }
}

// The deal used by the follow-suit scenario: player 0 holds the Acorns Ace
// and Leaves, player 1 holds two Acorns and Hearts.
fn follow_suit_deal() -> [CardSet; 4] {
    [
        set(&[20, 1, 5, 9, 13, 17]),
        set(&[0, 4, 2, 6, 10, 14]),
        set(&[3, 7, 8, 11, 12, 15]),
        set(&[16, 18, 19, 21, 22, 23]),
    ]
}

#[test]
fn opening_play_is_free() {
    let s = GameState::new(follow_suit_deal());
    assert_eq!(s.turn(), 0);
    assert_eq!(s.player(), 0);
    assert_eq!(s.legal().as_set(), set(&[20, 1, 5, 9, 13, 17]));
}

#[test]
fn follow_suit_tier() {
    let s = GameState::new(follow_suit_deal());
    // player 0 leads the Acorns Ace
    let lead = s.check(Card::new(Rank::Ace, Suit::Acorns)).unwrap();
    let s = s.play(lead);
    assert_eq!(s.player(), 1);
    // player 1 holds Acorns, so the legal set is exactly those Acorns cards
    assert_eq!(s.legal().as_set(), set(&[0, 4]));
    assert!(s.check(Card(0)).is_some());
    assert!(s.check(Card(4)).is_some());
    // an off-suit card in hand is not legal
    assert!(s.check(Card(2)).is_none());
}

#[test]
fn must_trump_and_free_play_tiers() {
    // player 1 has no Leaves but two Acorns; player 2 has neither Leaves nor
    // Acorns
    let deal = [
        set(&[1, 5, 9, 13, 17, 21]),
        set(&[0, 4, 2, 6, 10, 14]),
        set(&[3, 7, 11, 15, 19, 23]),
        set(&[8, 12, 16, 20, 18, 22]),
    ];
    let s = GameState::new(deal);
    // player 0 leads Leaves Nine; a trump-less lead fixes trump to Leaves...
    let s = s.play(s.check(Card(1)).unwrap());
    assert_eq!(s.trump(), Some(Suit::Leaves));
    // ...player 1 holds no Leaves and no trump: free play of the whole hand
    assert_eq!(s.legal().as_set(), set(&[0, 4, 2, 6, 10, 14]));
    let s = s.play(s.check(Card(0)).unwrap());
    // player 2 holds no Leaves either: free play too (Bells is not trump)
    assert_eq!(s.legal().as_set(), set(&[3, 7, 11, 15, 19, 23]));
    let s = s.play(s.check(Card(3)).unwrap());
    // player 3 holds no Leaves and no trump either: free play
    assert_eq!(s.legal().as_set(), set(&[8, 12, 16, 20, 18, 22]));
}

#[test]
fn must_trump_tier_exactly() {
    // trump is Acorns from player 0's lead; player 1 holds no Leaves (the
    // led suit of trick two) but holds Acorns: must trump
    let deal = [
        set(&[0, 1, 5, 9, 13, 17]),
        set(&[4, 8, 2, 6, 10, 14]),
        set(&[3, 7, 11, 15, 19, 23]),
        set(&[12, 16, 20, 18, 21, 22]),
    ];
    let s = GameState::new(deal);
    // trick one: Acorns Nine leads, fixing trump to Acorns
    let s = s.play(s.check(Card(0)).unwrap());
    let s = s.play(s.check(Card(4)).unwrap());
    let s = s.play(s.check(Card(3)).unwrap());
    let s = s.play(s.check(Card(12)).unwrap());
    let s = s.take();
    // trick two: player 0 leads Leaves Two
    let s = s.play(s.check(Card(5)).unwrap());
    // player 1 has no Leaves left but still holds the Acorns Two: must trump
    assert_eq!(s.legal().as_set(), set(&[8]));
    assert!(s.check(Card(8)).is_some());
    assert!(s.check(Card(2)).is_none());
}

#[test]
fn trump_is_fixed_by_first_play_only() {
    let s = GameState::new(follow_suit_deal());
    assert_eq!(s.trump(), None);
    let s = s.play(s.check(Card(20)).unwrap());
    assert_eq!(s.trump(), Some(Suit::Acorns));
    let s = s.play(s.check(Card(0)).unwrap());
    assert_eq!(s.trump(), Some(Suit::Acorns));
    let s = s.play(s.check(Card(8)).unwrap());
    let s = s.play(s.check(Card(16)).unwrap());
    let s = s.take();
    assert_eq!(s.trump(), Some(Suit::Acorns));
}

#[test]
fn validation_agrees_with_legal_set() {
    let s = GameState::new(follow_suit_deal());
    let s = s.play(s.check(Card(20)).unwrap());
    let legal = s.legal().as_set();
    for id in 0u8..24 {
        let c = Card(id);
        assert_eq!(s.check(c).is_some(), legal.contains(c));
        if let Some(lc) = s.check(c) {
            assert_eq!(lc.as_card(), c);
        }
    }
}

#[test]
fn absent_card_yields_no_proof_value() {
    let s = GameState::new(follow_suit_deal());
    // card 0 sits in player 1's hand, not player 0's
    assert!(s.check(Card(0)).is_none());
}

// The deal used by the trick-resolution scenario.
fn resolution_deal() -> [CardSet; 4] {
    [
        set(&[0, 3, 4, 8, 12, 20]),
        set(&[2, 5, 9, 13, 17, 21]),
        set(&[7, 11, 15, 16, 19, 23]),
        set(&[1, 6, 10, 14, 18, 22]),
    ]
}

#[test]
fn trick_resolution_trump_beats_higher_rank() {
    let s = GameState::new(resolution_deal());
    // Acorns Nine leads (a trump-less lead fixes trump to Acorns),
    // then Leaves Ace, Acorns Ten, Leaves Nine
    let s = s.play(s.check(Card::new(Rank::Nine, Suit::Acorns)).unwrap());
    let s = s.play(s.check(Card::new(Rank::Ace, Suit::Leaves)).unwrap());
    let s = s.play(s.check(Card::new(Rank::Ten, Suit::Acorns)).unwrap());
    let s = s.play(s.check(Card::new(Rank::Nine, Suit::Leaves)).unwrap());
    assert_eq!(s.player(), 0);
    let s = s.take();
    // the Acorns Ten (player 2, team 0) wins over the higher-ranked Leaves
    // Ace; the award is the answering cards' 11 + 10 + 0 points, the leading
    // card's own value not being part of it
    assert_eq!(s.points(0), 21);
    assert_eq!(s.points(1), 0);
}

#[test]
fn later_trump_wins_over_earlier_trump() {
    // trump is Acorns; the lead is the Acorns Ten, and player 1 answers with
    // the lower-ranked Acorns Nine, which still takes the lead as a later
    // trump
    let deal = [
        set(&[16, 3, 7, 11, 15, 19]),
        set(&[0, 2, 6, 10, 14, 18]),
        set(&[1, 5, 9, 13, 17, 21]),
        set(&[4, 8, 12, 20, 22, 23]),
    ];
    let s = GameState::new(deal);
    let s = s.play(s.check(Card(16)).unwrap());
    // player 1 must follow suit with the Acorns Nine
    assert_eq!(s.legal().as_set(), set(&[0]));
    let s = s.play(s.check(Card(0)).unwrap());
    // player 2 holds neither Acorns nor any other trump: free play
    assert_eq!(s.legal().as_set(), set(&[1, 5, 9, 13, 17, 21]));
    let s = s.play(s.check(Card(1)).unwrap());
    assert_eq!(s.legal().as_set(), set(&[4, 8, 12, 20]));
    let s = s.play(s.check(Card(4)).unwrap());
    let s = s.take();
    // the last Acorns card (player 3's Two) wins: team 1 takes 0 + 0 + 2
    assert_eq!(s.points(1), 2);
    assert_eq!(s.points(0), 0);
}

#[test]
fn conservation_across_plays() {
    let deck: u32 = 0xFF_FFFF;
    let mut s = GameState::new(resolution_deal());
    let plays = [0u8, 21, 16, 1];
    for (n, &id) in plays.iter().enumerate() {
        // hands, live trick slots and discard partition the deck exactly
        let mut total: u32 = 0;
        let mut count: u32 = 0;
        for p in 0..4u8 {
            total |= s.hand(p).0;
            count += s.hand(p).0.count_ones();
        }
        for j in 0..4u8 {
            if (j as usize) < n {
                let c = s.played(j).unwrap();
                total |= c.to_set().0;
                count += 1;
            }
        }
        total |= s.discard().0;
        count += s.discard().0.count_ones();
        assert_eq!(total, deck);
        assert_eq!(count, 24);
        s = s.play(s.check(Card(id)).unwrap());
    }
}

#[test]
fn play_leaves_the_input_state_unchanged() {
    let s = GameState::new(follow_suit_deal());
    let before = s;
    let lead = s.check(Card(20)).unwrap();
    let after = s.play(lead);
    assert_eq!(s, before);
    assert_ne!(after, before);
    assert_eq!(s.hand(0), set(&[20, 1, 5, 9, 13, 17]));
    assert_eq!(after.hand(0), set(&[1, 5, 9, 13, 17]));
}

#[test]
fn legal_iterator_yields_validated_cards() {
    let s = GameState::new(follow_suit_deal());
    let s = s.play(s.check(Card(20)).unwrap());
    let mut it = s.legal().iter();
    let mut ids = Vec::new();
    while let Some(lc) = it.next() {
        ids.push(lc.as_card().0);
    }
    assert_eq!(ids, vec![0, 4]);
}

#[test]
fn new_state_is_zeroed() {
    let s = GameState::new(follow_suit_deal());
    assert_eq!(s.player(), 0);
    assert_eq!(s.turn(), 0);
    assert_eq!(s.points(0), 0);
    assert_eq!(s.points(1), 0);
    assert_eq!(s.trump(), None);
    assert!(s.discard().is_empty());
    for j in 0..4u8 {
        assert_eq!(s.played(j), None);
    }
}

#[test]
fn suit_and_rank_ordinals() {
    assert_eq!(Suit::Acorns.ord(), 1);
    assert_eq!(Suit::Leaves.ord(), 2);
    assert_eq!(Suit::Hearts.ord(), 3);
    assert_eq!(Suit::Bells.ord(), 4);
    assert_eq!(Suit::from_ord(3), Suit::Hearts);
    assert_eq!(Rank::Nine.ord(), 0);
    assert_eq!(Rank::Ace.ord(), 5);
    assert_eq!(Rank::from_ord(4), Rank::Ten);
}
