use shengji_mechanics::ordered_card::{standing_of, ByRank, OrderedCard, Standing, Trump};
use std::cmp::Ordering;

/// A context over cards `(suit, rank)` in which one suit is trump: trumps stand above the
/// other cards, and cards of equal rank outside the trump suit are equally strong.
#[derive(Clone, Copy, PartialEq, Eq, Hash, Debug)]
struct SuitTrump {
    suit: u8,
}

impl SuitTrump {
    fn key(self, card: (u8, u8)) -> (bool, u8, u8) {
        (card.0 == self.suit, card.0, card.1)
    }
}

impl Trump for SuitTrump {
    type Card = (u8, u8);

    fn ordering(self, a: (u8, u8), b: (u8, u8)) -> Ordering {
        self.compare(a, b)
    }

    fn effective_ordering(self, a: (u8, u8), b: (u8, u8)) -> Ordering {
        self.compare_effective(a, b)
    }

    fn successor_count(self, card: (u8, u8)) -> usize {
        self.successor(card).len()
    }

    fn successor_at(self, card: (u8, u8), i: usize) -> (u8, u8) {
        self.successor(card)[i]
    }

    fn ordering_is_total(self) {}

    fn compare(self, a: (u8, u8), b: (u8, u8)) -> Ordering {
        self.key(a).cmp(&self.key(b))
    }

    fn compare_effective(self, a: (u8, u8), b: (u8, u8)) -> Ordering {
        let ka = (a.0 == self.suit, a.1);
        let kb = (b.0 == self.suit, b.1);
        ka.cmp(&kb)
    }

    fn successor(self, card: (u8, u8)) -> Vec<(u8, u8)> {
        if card.1 == 0 {
            vec![]
        } else if card.0 == self.suit {
            vec![(card.0, card.1 - 1)]
        } else {
            vec![(card.0, card.1 - 1), (card.0, card.1 - 1)]
        }
    }
}

fn ranked(card: u8) -> OrderedCard<ByRank> {
    OrderedCard { card, trump: ByRank }
}

#[test]
fn make_map_counts_each_card_in_ascending_order() {
    let counts = OrderedCard::make_map(vec![3, 1, 3, 2, 1, 3], ByRank);
    assert_eq!(counts.len(), 3);
    assert!(counts[0].0 == ranked(1));
    assert_eq!(counts[0].1, 2);
    assert!(counts[1].0 == ranked(2));
    assert_eq!(counts[1].1, 1);
    assert!(counts[2].0 == ranked(3));
    assert_eq!(counts[2].1, 3);
}

#[test]
fn make_map_of_no_cards_is_empty() {
    let counts = OrderedCard::make_map(vec![], ByRank);
    assert!(counts.is_empty());
}

#[test]
fn make_map_orders_by_the_context() {
    let trump = SuitTrump { suit: 1 };
    let counts = OrderedCard::make_map(vec![(1, 2), (0, 9), (2, 3), (1, 2), (0, 4)], trump);
    let keys: Vec<(u8, u8)> = counts.iter().map(|entry| entry.0.card()).collect();
    assert_eq!(keys, vec![(0, 4), (0, 9), (2, 3), (1, 2)]);
    let numbers: Vec<usize> = counts.iter().map(|entry| entry.1).collect();
    assert_eq!(numbers, vec![1, 1, 1, 2]);
    assert!(counts.iter().all(|entry| entry.0.trump == trump));
}

#[test]
fn cards_repeats_each_key_by_its_count() {
    let counts = OrderedCard::make_map(vec![3, 1, 3, 2, 1, 3], ByRank);
    let flat: Vec<u8> = OrderedCard::cards(&counts).into_iter().map(|c| c.card()).collect();
    assert_eq!(flat, vec![1, 1, 2, 3, 3, 3]);
    let again: Vec<u8> = OrderedCard::cards(&counts).into_iter().map(|c| c.card()).collect();
    assert_eq!(again, flat);
}

#[test]
fn cards_keeps_the_order_of_the_entries() {
    let counts = vec![(ranked(7), 2), (ranked(2), 0), (ranked(5), 1)];
    let flat: Vec<u8> = OrderedCard::cards(&counts).into_iter().map(|c| c.card()).collect();
    assert_eq!(flat, vec![7, 7, 5]);
}

#[test]
fn successor_keeps_the_context() {
    let below = ranked(5).successor();
    assert_eq!(below.len(), 1);
    assert!(below[0] == ranked(4));
    assert!(ranked(0).successor().is_empty());

    let trump = SuitTrump { suit: 1 };
    let card = OrderedCard { card: (0, 3), trump };
    let below = card.successor();
    assert_eq!(below.len(), 2);
    assert!(below.iter().all(|c| c.card() == (0, 2) && c.trump == trump));
}

#[test]
fn cmp_is_the_order_of_the_context() {
    assert_eq!(ranked(2).cmp(ranked(3)), Ordering::Less);
    assert_eq!(ranked(3).cmp(ranked(3)), Ordering::Equal);
    assert_eq!(ranked(4).cmp(ranked(3)), Ordering::Greater);
    let trump = SuitTrump { suit: 1 };
    let low_trump = OrderedCard { card: (1, 0), trump };
    let high_plain = OrderedCard { card: (2, 12), trump };
    assert_eq!(low_trump.cmp(high_plain), Ordering::Greater);
}

#[test]
fn cmp_effective_is_the_strength_of_the_context() {
    assert_eq!(ranked(2).cmp_effective(ranked(3)), Ordering::Less);
    let trump = SuitTrump { suit: 1 };
    let a = OrderedCard { card: (0, 5), trump };
    let b = OrderedCard { card: (2, 5), trump };
    assert_eq!(a.cmp_effective(b), Ordering::Equal);
    assert_eq!(a.cmp(b), Ordering::Less);
}

#[test]
fn card_gives_the_card_back() {
    assert_eq!(ranked(9).card(), 9);
}

#[test]
fn equality_is_identity_of_card_and_context() {
    let a = OrderedCard { card: (0, 5), trump: SuitTrump { suit: 1 } };
    let b = OrderedCard { card: (0, 5), trump: SuitTrump { suit: 2 } };
    let c = OrderedCard { card: (0, 5), trump: SuitTrump { suit: 1 } };
    assert!(a != b);
    assert!(a == c);
}

#[test]
fn standing_of_reads_the_order() {
    assert_eq!(standing_of(ByRank, 1, 2), Standing::Below);
    assert_eq!(standing_of(ByRank, 2, 2), Standing::Level);
    assert_eq!(standing_of(ByRank, 3, 2), Standing::Above);
}

#[test]
fn by_rank_orders_by_rank() {
    assert_eq!(ByRank.compare(1, 2), Ordering::Less);
    assert_eq!(ByRank.compare_effective(2, 1), Ordering::Greater);
    assert_eq!(ByRank.successor(1), vec![0]);
    assert_eq!(ByRank.successor(0), Vec::<u8>::new());
}
