use std::cmp::Ordering;
use vstd::prelude::*;

verus! {

/// What a trump context has to offer: an order of the cards, an order of their strength,
/// and the cards that stand just below a card.
pub trait Trump: Copy {
    /// The cards that the context ranks.
    type Card: Copy;

    /// Where `a` stands relative to `b` in the order of the cards.
    spec fn ordering(self, a: Self::Card, b: Self::Card) -> Ordering;

    /// Where `a` stands relative to `b` in strength. Cards of equal strength need not be
    /// the same card.
    spec fn effective_ordering(self, a: Self::Card, b: Self::Card) -> Ordering;

    /// How many cards stand just below `card`: none, one or several.
    spec fn successor_count(self, card: Self::Card) -> usize;

    /// The card that stands at place `i` among the cards just below `card`.
    spec fn successor_at(self, card: Self::Card, i: usize) -> Self::Card;

    /// The order of the cards is total: only a card itself stands level with it, the
    /// order read from the other side is the reverse, and standing below is transitive.
    proof fn ordering_is_total(self)
        ensures
            forall|a: Self::Card, b: Self::Card|
                (#[trigger] self.ordering(a, b) == Ordering::Equal) <==> a == b,
            forall|a: Self::Card, b: Self::Card|
                (#[trigger] self.ordering(a, b) == Ordering::Less) <==> self.ordering(b, a)
                    == Ordering::Greater,
            forall|a: Self::Card, b: Self::Card, c: Self::Card|
                #[trigger] self.ordering(a, b) == Ordering::Less && #[trigger] self.ordering(b, c)
                    == Ordering::Less ==> self.ordering(a, c) == Ordering::Less,
    ;

    /// Where `a` stands relative to `b` in the order of the cards.
    fn compare(self, a: Self::Card, b: Self::Card) -> (r: Ordering)
        ensures
            r == self.ordering(a, b),
    ;

    /// Where `a` stands relative to `b` in strength.
    fn compare_effective(self, a: Self::Card, b: Self::Card) -> (r: Ordering)
        ensures
            r == self.effective_ordering(a, b),
    ;

    /// The cards just below `card`.
    fn successor(self, card: Self::Card) -> (r: Vec<Self::Card>)
        ensures
            r.len() == self.successor_count(card),
            forall|i: usize| i < r.len() ==> r[i as int] == #[trigger] self.successor_at(card, i),
    ;
}

/// The context without any trump, over cards that are known by their rank alone: the
/// higher rank is the greater and the stronger card, and just below a card stands the
/// card of the next lower rank.
#[derive(Clone, Copy, PartialEq, Eq, Hash, Debug)]
pub struct ByRank;

impl Trump for ByRank {
    type Card = u8;

    open spec fn ordering(self, a: u8, b: u8) -> Ordering {
        if a < b {
            Ordering::Less
        } else if a == b {
            Ordering::Equal
        } else {
            Ordering::Greater
        }
    }

    open spec fn effective_ordering(self, a: u8, b: u8) -> Ordering {
        self.ordering(a, b)
    }

    open spec fn successor_count(self, card: u8) -> usize {
        if card == 0 {
            0
        } else {
            1
        }
    }

    open spec fn successor_at(self, card: u8, i: usize) -> u8 {
        (card - 1) as u8
    }

    proof fn ordering_is_total(self) {
    }

    fn compare(self, a: u8, b: u8) -> (r: Ordering) {
        if a < b {
            Ordering::Less
        } else if a == b {
            Ordering::Equal
        } else {
            Ordering::Greater
        }
    }

    fn compare_effective(self, a: u8, b: u8) -> (r: Ordering) {
        self.compare(a, b)
    }

    fn successor(self, card: u8) -> (r: Vec<u8>) {
        let mut below: Vec<u8> = Vec::new();
        if card > 0 {
            below.push(card - 1);
        }
        below
    }
}

/// `a` stands below `b` in the order of the cards of `trump`.
pub open spec fn stands_below<T: Trump>(trump: T, a: T::Card, b: T::Card) -> bool {
    trump.ordering(a, b) == Ordering::Less
}

/// Where one card stands relative to another.
#[derive(Clone, Copy, PartialEq, Eq, Debug)]
pub enum Standing {
    Below,
    Level,
    Above,
}

/// Standing below is a strict total order of the cards.
pub proof fn lemma_stands_below_is_total<T: Trump>(trump: T)
    ensures
        forall|a: T::Card, b: T::Card| #[trigger] stands_below(trump, a, b) ==> !stands_below(trump, b, a),
        forall|a: T::Card, b: T::Card|
            a != b ==> #[trigger] stands_below(trump, a, b) || stands_below(trump, b, a),
        forall|a: T::Card, b: T::Card, c: T::Card|
            #[trigger] stands_below(trump, a, b) && #[trigger] stands_below(trump, b, c)
                ==> stands_below(trump, a, c),
{
    trump.ordering_is_total();
    assert forall|a: T::Card, b: T::Card| a != b implies #[trigger] stands_below(trump, a, b)
        || stands_below(trump, b, a) by {
        match trump.ordering(a, b) {
            Ordering::Less => {},
            Ordering::Equal => {},
            Ordering::Greater => {
                assert(trump.ordering(b, a) == Ordering::Less);
            },
        }
    }
}

/// Where `a` stands relative to `b` in the order of the cards of `trump`.
pub fn standing_of<T: Trump>(trump: T, a: T::Card, b: T::Card) -> (r: Standing)
    ensures
        r == Standing::Below <==> stands_below(trump, a, b),
        r == Standing::Level <==> a == b,
        r == Standing::Above <==> stands_below(trump, b, a),
{
    proof {
        trump.ordering_is_total();
    }
    match trump.compare(a, b) {
        Ordering::Less => Standing::Below,
        Ordering::Equal => Standing::Level,
        Ordering::Greater => Standing::Above,
    }
}

/// A card together with the trump context that orders it.
#[derive(Clone, Copy, PartialEq, Eq, Hash)]
pub struct OrderedCard<T: Trump> {
    pub card: T::Card,
    pub trump: T,
}

/// Cards in ascending order, each with the number of times it is held.
pub type MatchingCards<T> = Vec<(OrderedCard<T>, usize)>;

/// How often `card` stands in `cards`.
pub open spec fn occurrences<C>(cards: Seq<C>, card: C) -> nat
    decreases cards.len(),
{
    if cards.len() == 0 {
        0
    } else if cards.last() == card {
        occurrences(cards.drop_last(), card) + 1
    } else {
        occurrences(cards.drop_last(), card)
    }
}

/// How often the counts of `entries` say that `card` is held.
pub open spec fn counted<T: Trump>(entries: Seq<(OrderedCard<T>, usize)>, card: T::Card) -> nat
    decreases entries.len(),
{
    if entries.len() == 0 {
        0
    } else if entries.last().0.card == card {
        counted(entries.drop_last(), card) + entries.last().1 as nat
    } else {
        counted(entries.drop_last(), card)
    }
}

/// `entries` is a map from the cards of one context to counts: the cards stand in
/// strictly ascending order, and no count is 0.
pub open spec fn is_count_map<T: Trump>(entries: Seq<(OrderedCard<T>, usize)>, trump: T) -> bool {
    &&& forall|i: int| 0 <= i < entries.len() ==> (#[trigger] entries[i]).0.trump == trump
    &&& forall|i: int| 0 <= i < entries.len() ==> (#[trigger] entries[i]).1 >= 1
    &&& forall|i: int, j: int|
        0 <= i < j < entries.len() ==> stands_below(
            trump,
            (#[trigger] entries[i]).0.card,
            (#[trigger] entries[j]).0.card,
        )
}

/// The cards just below `card`, in the context of `card`.
pub open spec fn successors_of<T: Trump>(card: OrderedCard<T>) -> Seq<OrderedCard<T>> {
    Seq::new(
        card.trump.successor_count(card.card) as nat,
        |i: int| (OrderedCard { card: card.trump.successor_at(card.card, i as usize), trump: card.trump }),
    )
}

/// `count` times `card`.
pub open spec fn repeated<T: Trump>(card: OrderedCard<T>, count: nat) -> Seq<OrderedCard<T>> {
    Seq::new(count, |i: int| card)
}

/// The cards that `entries` counts, in the order of the entries, each as often as its
/// count says.
pub open spec fn expanded<T: Trump>(entries: Seq<(OrderedCard<T>, usize)>) -> Seq<OrderedCard<T>>
    decreases entries.len(),
{
    if entries.len() == 0 {
        Seq::empty()
    } else {
        expanded(entries.drop_last()) + repeated(entries.last().0, entries.last().1 as nat)
    }
}

impl<T: Trump> OrderedCard<T> {
    /// The cards just below this one, in the same context.
    pub fn successor(self) -> (r: Vec<OrderedCard<T>>)
        ensures
            r@ == successors_of(self),
    {
        let below = self.trump.successor(self.card);
        let mut out: Vec<OrderedCard<T>> = Vec::new();
        let mut i: usize = 0;
        while i < below.len()
            invariant
                i <= below.len(),
                below.len() == self.trump.successor_count(self.card),
                forall|j: usize|
                    j < below.len() ==> below[j as int] == #[trigger] self.trump.successor_at(
                        self.card,
                        j,
                    ),
                out.len() == i,
                forall|j: int| 0 <= j < i ==> #[trigger] out@[j] == successors_of(self)[j],
            decreases below.len() - i,
        {
            out.push(OrderedCard { card: below[i], trump: self.trump });
            i = i + 1;
        }
        assert(out@ =~= successors_of(self));
        out
    }

    /// Counts `cards`: the map from each card that occurs to the number of times it
    /// does, in ascending order of the cards.
    pub fn make_map(cards: Vec<T::Card>, trump: T) -> (r: MatchingCards<T>)
        ensures
            is_count_map(r@, trump),
            forall|card: T::Card| counted(r@, card) == occurrences(cards@, card),
    {
        let mut counts: Vec<(OrderedCard<T>, usize)> = Vec::new();
        let mut n: usize = 0;
        while n < cards.len()
            invariant
                n <= cards.len(),
                is_count_map(counts@, trump),
                forall|card: T::Card|
                    counted(counts@, card) == occurrences(cards@.take(n as int), card),
            decreases cards.len() - n,
        {
            let card = cards[n];
            let ghost before = counts@;
            proof {
                assert(cards@.take(n as int + 1).drop_last() =~= cards@.take(n as int));
                lemma_counted_bound(before, cards@.take(n as int), trump);
            }
            Self::count_one(&mut counts, card, trump, Ghost(n as nat));
            n = n + 1;
        }
        assert(cards@.take(cards.len() as int) =~= cards@);
        counts
    }

    /// Counts one more `card` into the map `counts`.
    fn count_one(
        counts: &mut Vec<(OrderedCard<T>, usize)>,
        card: T::Card,
        trump: T,
        Ghost(bound): Ghost<nat>,
    )
        requires
            is_count_map(old(counts)@, trump),
            bound < usize::MAX,
            forall|i: int| 0 <= i < old(counts)@.len() ==> (#[trigger] old(counts)@[i]).1 <= bound,
        ensures
            is_count_map(final(counts)@, trump),
            forall|other: T::Card|
                counted(final(counts)@, other) == counted(old(counts)@, other) + if other
                    == card {
                    1nat
                } else {
                    0nat
                },
    {
        let ghost before = counts@;
        proof {
            lemma_stands_below_is_total(trump);
        }
        let mut i: usize = 0;
        let mut found = false;
        while i < counts.len() && !found
            invariant
                i <= counts.len(),
                counts@ == before,
                before == old(counts)@,
                is_count_map(before, trump),
                found ==> i < counts.len() && stands_below(trump, card, before[i as int].0.card),
                bound < usize::MAX,
                forall|j: int| 0 <= j < before.len() ==> (#[trigger] before[j]).1 <= bound,
                forall|j: int| 0 <= j < i ==> stands_below(trump, (#[trigger] before[j]).0.card, card),
            decreases counts.len() - i, if found { 0int } else { 1int },
        {
            match standing_of(trump, counts[i].0.card, card) {
                Standing::Below => {
                    i = i + 1;
                },
                Standing::Level => {
                    let entry = counts[i];
                    counts[i] = (entry.0, entry.1 + 1);
                    proof {
                        lemma_counted_update(before, i as int, trump);
                        assert(counts@ =~= before.update(
                            i as int,
                            (before[i as int].0, (before[i as int].1 + 1) as usize),
                        ));
                        assert forall|a: int, b: int| 0 <= a < b < counts@.len() implies stands_below(
                            trump,
                            (#[trigger] counts@[a]).0.card,
                            (#[trigger] counts@[b]).0.card,
                        ) by {
                            assert(counts@[a].0.card == before[a].0.card);
                            assert(counts@[b].0.card == before[b].0.card);
                        }
                        assert forall|other: T::Card|
                            counted(counts@, other) == counted(before, other) + if other
                                == card {
                                1nat
                            } else {
                                0nat
                            } by {
                            let raised = before.update(
                                i as int,
                                (before[i as int].0, (before[i as int].1 + 1) as usize),
                            );
                            assert(counted(raised, other) == counted(before, other) + if other
                                == before[i as int].0.card {
                                1nat
                            } else {
                                0nat
                            });
                        }
                    }
                    return ;
                },
                Standing::Above => {
                    found = true;
                },
            }
        }
        counts.insert(i, (OrderedCard { card, trump }, 1));
        proof {
            lemma_stands_below_is_total(trump);
            lemma_counted_insert(before, i as int, card, trump);
            assert forall|a: int, b: int| 0 <= a < b < counts@.len() implies stands_below(
                trump,
                (#[trigger] counts@[a]).0.card,
                (#[trigger] counts@[b]).0.card,
            ) by {
                let x = if a < i { a } else { a - 1 };
                let y = if b < i { b } else { b - 1 };
                if a != i && b != i {
                    assert(counts@[a] == before[x] && counts@[b] == before[y]);
                } else if a == i {
                    assert(counts@[b] == before[y]);
                    assert(found);
                    if y > i {
                        assert(stands_below(trump, before[i as int].0.card, before[y].0.card));
                    }
                } else {
                    assert(counts@[a] == before[x]);
                    assert(stands_below(trump, before[x].0.card, card));
                }
            }
        }
    }

    /// The card itself.
    pub fn card(self) -> (r: T::Card)
        ensures
            r == self.card,
    {
        self.card
    }

    /// The cards that `counts` counts, in the order of its entries, each as often as its
    /// count says.
    pub fn cards(counts: &Vec<(OrderedCard<T>, usize)>) -> (r: Vec<OrderedCard<T>>)
        ensures
            r@ == expanded(counts@),
    {
        let mut out: Vec<OrderedCard<T>> = Vec::new();
        let mut i: usize = 0;
        assert(out@ =~= expanded(counts@.take(0)));
        while i < counts.len()
            invariant
                i <= counts.len(),
                out@ == expanded(counts@.take(i as int)),
            decreases counts.len() - i,
        {
            let entry = counts[i];
            let ghost held = out@;
            let mut k: usize = 0;
            while k < entry.1
                invariant
                    k <= entry.1,
                    out@ == held + repeated(entry.0, k as nat),
                decreases entry.1 - k,
            {
                out.push(entry.0);
                assert(held + repeated(entry.0, (k + 1) as nat) =~= (held + repeated(
                    entry.0,
                    k as nat,
                )).push(entry.0));
                k = k + 1;
            }
            proof {
                assert(counts@.take(i as int + 1).drop_last() =~= counts@.take(i as int));
                assert(counts@.take(i as int + 1).last() == entry);
            }
            i = i + 1;
        }
        assert(counts@.take(counts.len() as int) =~= counts@);
        out
    }

    /// Where this card stands relative to `o` in the order of the cards.
    pub fn cmp(self, o: OrderedCard<T>) -> (r: Ordering)
        ensures
            r == self.trump.ordering(self.card, o.card),
    {
        self.trump.compare(self.card, o.card)
    }

    /// Where this card stands relative to `o` in strength. Both cards belong to one
    /// context.
    pub fn cmp_effective(self, o: OrderedCard<T>) -> (r: Ordering)
        requires
            self.trump == o.trump,
        ensures
            r == self.trump.effective_ordering(self.card, o.card),
    {
        self.trump.compare_effective(self.card, o.card)
    }
}

/// No count of a map exceeds the number of cards that it counts.
proof fn lemma_counted_bound<T: Trump>(
    entries: Seq<(OrderedCard<T>, usize)>,
    cards: Seq<T::Card>,
    trump: T,
)
    requires
        is_count_map(entries, trump),
        forall|card: T::Card| counted(entries, card) == occurrences(cards, card),
    ensures
        forall|i: int| 0 <= i < entries.len() ==> (#[trigger] entries[i]).1 <= cards.len(),
{
    assert forall|i: int| 0 <= i < entries.len() implies (#[trigger] entries[i]).1
        <= cards.len() by {
        lemma_counted_at_least(entries, i);
        lemma_occurrences_bound(cards, entries[i].0.card);
    }
}

/// A card is counted at least as often as one of its entries says.
proof fn lemma_counted_at_least<T: Trump>(entries: Seq<(OrderedCard<T>, usize)>, i: int)
    requires
        0 <= i < entries.len(),
    ensures
        counted(entries, entries[i].0.card) >= entries[i].1,
    decreases entries.len(),
{
    if i < entries.len() - 1 {
        lemma_counted_at_least(entries.drop_last(), i);
    }
}

/// A card stands in a list at most as often as the list is long.
proof fn lemma_occurrences_bound<C>(cards: Seq<C>, card: C)
    ensures
        occurrences(cards, card) <= cards.len(),
    decreases cards.len(),
{
    if cards.len() > 0 {
        lemma_occurrences_bound(cards.drop_last(), card);
    }
}

/// One more of the card of entry `i` is counted for that card alone.
proof fn lemma_counted_update<T: Trump>(entries: Seq<(OrderedCard<T>, usize)>, i: int, trump: T)
    requires
        0 <= i < entries.len(),
        entries[i].1 < usize::MAX,
    ensures
        forall|other: T::Card|
            counted(entries.update(i, (entries[i].0, (entries[i].1 + 1) as usize)), other)
                == counted(entries, other) + if other == entries[i].0.card {
                1nat
            } else {
                0nat
            },
    decreases entries.len(),
{
    let now = entries.update(i, (entries[i].0, (entries[i].1 + 1) as usize));
    let init = entries.drop_last();
    if i == entries.len() - 1 {
        assert(now.drop_last() =~= init);
        assert(now.last() == (entries[i].0, (entries[i].1 + 1) as usize));
    } else {
        assert(init[i] == entries[i]);
        lemma_counted_update(init, i, trump);
        let shorter = init.update(i, (init[i].0, (init[i].1 + 1) as usize));
        assert(now.drop_last() =~= shorter);
        assert(now.last() == entries.last());
        assert forall|other: T::Card|
            counted(now, other) == counted(entries, other) + if other == entries[i].0.card {
                1nat
            } else {
                0nat
            } by {
            assert(counted(shorter, other) == counted(init, other) + if other
                == init[i].0.card {
                1nat
            } else {
                0nat
            });
        }
    }
}

/// A new entry with count 1 is counted for its card alone.
proof fn lemma_counted_insert<T: Trump>(
    entries: Seq<(OrderedCard<T>, usize)>,
    i: int,
    card: T::Card,
    trump: T,
)
    requires
        0 <= i <= entries.len(),
    ensures
        forall|other: T::Card|
            counted(entries.insert(i, (OrderedCard { card, trump }, 1usize)), other) == counted(
                entries,
                other,
            ) + if other == card {
                1nat
            } else {
                0nat
            },
    decreases entries.len(),
{
    let entry = (OrderedCard { card, trump }, 1usize);
    let now = entries.insert(i, entry);
    if i == entries.len() {
        assert(now.drop_last() =~= entries);
        assert(now.last() == entry);
    } else {
        let init = entries.drop_last();
        lemma_counted_insert(init, i, card, trump);
        let shorter = init.insert(i, entry);
        assert(now.drop_last() =~= shorter);
        assert(now.last() == entries.last());
        assert forall|other: T::Card|
            counted(now, other) == counted(entries, other) + if other == card {
                1nat
            } else {
                0nat
            } by {
            assert(counted(shorter, other) == counted(init, other) + if other == card {
                1nat
            } else {
                0nat
            });
        }
    }
}

/// How often a card stands in lists put together.
proof fn lemma_occurrences_concat<C>(a: Seq<C>, b: Seq<C>, card: C)
    ensures
        occurrences(a + b, card) == occurrences(a, card) + occurrences(b, card),
    decreases b.len(),
{
    if b.len() == 0 {
        assert(a + b =~= a);
    } else {
        lemma_occurrences_concat(a, b.drop_last(), card);
        assert((a + b).drop_last() =~= a + b.drop_last());
        assert((a + b).last() == b.last());
    }
}

/// How often a card stands among `count` times a card.
proof fn lemma_occurrences_repeated<T: Trump>(given: OrderedCard<T>, count: nat, card: OrderedCard<T>)
    ensures
        occurrences(repeated(given, count), card) == if given == card {
            count
        } else {
            0
        },
    decreases count,
{
    if count > 0 {
        lemma_occurrences_repeated(given, (count - 1) as nat, card);
        assert(repeated(given, count).drop_last() =~= repeated(given, (count - 1) as nat));
        assert(repeated(given, count).last() == given);
    }
}

/// Expanding a map gives each card as often as the map counts it. So the cards of a hand,
/// counted by `make_map` and expanded by `cards`, are the cards of the hand again, each as
/// often as the hand holds it.
pub proof fn lemma_expanded_holds_what_is_counted<T: Trump>(
    entries: Seq<(OrderedCard<T>, usize)>,
    trump: T,
    card: T::Card,
)
    requires
        is_count_map(entries, trump),
    ensures
        occurrences(expanded(entries), OrderedCard { card, trump }) == counted(entries, card),
    decreases entries.len(),
{
    if entries.len() > 0 {
        let init = entries.drop_last();
        let last = entries.last();
        assert forall|i: int, j: int| 0 <= i < j < init.len() implies stands_below(
            trump,
            (#[trigger] init[i]).0.card,
            (#[trigger] init[j]).0.card,
        ) by {
            assert(init[i] == entries[i] && init[j] == entries[j]);
        }
        assert forall|i: int| 0 <= i < init.len() implies (#[trigger] init[i]).0.trump == trump
            && init[i].1 >= 1 by {
            assert(init[i] == entries[i]);
        }
        lemma_expanded_holds_what_is_counted(init, trump, card);
        lemma_occurrences_concat(
            expanded(init),
            repeated(last.0, last.1 as nat),
            OrderedCard { card, trump },
        );
        lemma_occurrences_repeated(last.0, last.1 as nat, OrderedCard { card, trump });
        assert(last == entries[entries.len() - 1]);
        assert(last.0.trump == trump);
    }
}

} // verus!
