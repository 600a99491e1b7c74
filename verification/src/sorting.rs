use vstd::prelude::*;

verus! {

/// `s` with `x` put in from the right: `x` passes every entry that it must precede and
/// stops behind the first one that it need not.
pub open spec fn insert_behind<T>(s: Seq<T>, x: T, precedes: spec_fn(T, T) -> bool) -> Seq<T>
    decreases s.len(),
{
    if s.len() > 0 && precedes(x, s.last()) {
        insert_behind(s.drop_last(), x, precedes).push(s.last())
    } else {
        s.push(x)
    }
}

/// The stable sort of `s` under the strict order `precedes`: the entries are placed one by
/// one, from the left, each behind everything already placed that it does not precede. So
/// entries that neither precede the other keep the order they had in `s`.
pub open spec fn stable_sort<T>(s: Seq<T>, precedes: spec_fn(T, T) -> bool) -> Seq<T>
    decreases s.len(),
{
    if s.len() == 0 {
        s
    } else {
        insert_behind(stable_sort(s.drop_last(), precedes), s.last(), precedes)
    }
}

/// The index at which `insert_behind` places `x`.
pub open spec fn slot_of<T>(s: Seq<T>, x: T, precedes: spec_fn(T, T) -> bool) -> int
    decreases s.len(),
{
    if s.len() > 0 && precedes(x, s.last()) {
        slot_of(s.drop_last(), x, precedes)
    } else {
        s.len() as int
    }
}

/// No entry of `s` has to precede an entry that stands before it.
pub open spec fn in_order<T>(s: Seq<T>, precedes: spec_fn(T, T) -> bool) -> bool {
    forall|i: int, j: int| 0 <= i < j < s.len() ==> !precedes(#[trigger] s[j], #[trigger] s[i])
}

/// `precedes` is a strict weak order: nothing precedes what precedes it, and being
/// not-before is transitive.
pub open spec fn is_strict_weak<T>(precedes: spec_fn(T, T) -> bool) -> bool {
    &&& forall|a: T, b: T| #[trigger] precedes(a, b) ==> !precedes(b, a)
    &&& forall|a: T, b: T, c: T|
        !#[trigger] precedes(a, b) && !#[trigger] precedes(b, c) ==> !precedes(a, c)
}

/// `insert_behind` is an insertion at `slot_of`; everything from the slot on must follow
/// `x`, and the entry just before the slot need not.
pub proof fn lemma_insert_behind_slot<T>(s: Seq<T>, x: T, precedes: spec_fn(T, T) -> bool)
    ensures
        0 <= slot_of(s, x, precedes) <= s.len(),
        insert_behind(s, x, precedes) == s.insert(slot_of(s, x, precedes), x),
        forall|j: int| slot_of(s, x, precedes) <= j < s.len() ==> precedes(x, #[trigger] s[j]),
        slot_of(s, x, precedes) > 0 ==> !precedes(x, s[slot_of(s, x, precedes) - 1]),
    decreases s.len(),
{
    if s.len() > 0 && precedes(x, s.last()) {
        let t = s.drop_last();
        lemma_insert_behind_slot(t, x, precedes);
        let k = slot_of(t, x, precedes);
        assert(t.insert(k, x).push(s.last()) =~= s.insert(k, x));
        assert forall|j: int| k <= j < s.len() implies precedes(x, #[trigger] s[j]) by {
            if j < t.len() {
                assert(s[j] == t[j]);
            }
        }
        if k > 0 {
            assert(s[k - 1] == t[k - 1]);
        }
    } else {
        assert(s.push(x) =~= s.insert(s.len() as int, x));
    }
}

/// Sorting rearranges: every value occurs in the result as often as in the input.
pub proof fn lemma_stable_sort_rearranges<T>(s: Seq<T>, precedes: spec_fn(T, T) -> bool)
    ensures
        stable_sort(s, precedes).to_multiset() == s.to_multiset(),
        stable_sort(s, precedes).len() == s.len(),
    decreases s.len(),
{
    broadcast use vstd::seq_lib::group_to_multiset_ensures;

    if s.len() > 0 {
        let t = stable_sort(s.drop_last(), precedes);
        lemma_stable_sort_rearranges(s.drop_last(), precedes);
        lemma_insert_behind_slot(t, s.last(), precedes);
        assert(s.drop_last().push(s.last()) =~= s);
        assert(t.insert(slot_of(t, s.last(), precedes), s.last()).to_multiset()
            == t.to_multiset().insert(s.last()));
        assert(s.drop_last().push(s.last()).to_multiset() == s.drop_last().to_multiset().insert(
            s.last(),
        ));
    }
}

/// The result of a sort holds exactly the values of the input.
pub proof fn lemma_stable_sort_contains<T>(s: Seq<T>, precedes: spec_fn(T, T) -> bool)
    ensures
        forall|x: T| stable_sort(s, precedes).contains(x) <==> s.contains(x),
{
    broadcast use vstd::seq_lib::group_to_multiset_ensures;

    lemma_stable_sort_rearranges(s, precedes);
    assert forall|x: T| stable_sort(s, precedes).contains(x) <==> s.contains(x) by {
        assert(stable_sort(s, precedes).to_multiset().count(x) == s.to_multiset().count(x));
    }
}

/// Under a strict weak order the result of a sort is in order.
pub proof fn lemma_stable_sort_in_order<T>(s: Seq<T>, precedes: spec_fn(T, T) -> bool)
    requires
        is_strict_weak(precedes),
    ensures
        in_order(stable_sort(s, precedes), precedes),
    decreases s.len(),
{
    if s.len() > 0 {
        let t = stable_sort(s.drop_last(), precedes);
        let x = s.last();
        lemma_stable_sort_in_order(s.drop_last(), precedes);
        lemma_insert_behind_slot(t, x, precedes);
        let k = slot_of(t, x, precedes);
        let r = t.insert(k, x);
        assert forall|i: int, j: int| 0 <= i < j < r.len() implies !precedes(
            #[trigger] r[j],
            #[trigger] r[i],
        ) by {
            if j == k {
                // r[j] is x, r[i] is t[i] with i < k
                assert(r[i] == t[i]);
                if i < k - 1 {
                    assert(!precedes(t[k - 1], t[i]));
                }
            } else if i == k {
                assert(r[j] == t[j - 1]);
                assert(precedes(x, t[j - 1]));
            } else {
                let ti = if i < k { i } else { i - 1 };
                let tj = if j < k { j } else { j - 1 };
                assert(r[i] == t[ti]);
                assert(r[j] == t[tj]);
            }
        }
    }
}

/// A sequence that is in order already is left as it is.
pub proof fn lemma_stable_sort_of_ordered<T>(s: Seq<T>, precedes: spec_fn(T, T) -> bool)
    requires
        in_order(s, precedes),
    ensures
        stable_sort(s, precedes) == s,
    decreases s.len(),
{
    if s.len() > 0 {
        let t = s.drop_last();
        assert forall|i: int, j: int| 0 <= i < j < t.len() implies !precedes(
            #[trigger] t[j],
            #[trigger] t[i],
        ) by {
            assert(t[i] == s[i] && t[j] == s[j]);
        }
        lemma_stable_sort_of_ordered(t, precedes);
        if t.len() > 0 {
            assert(t.last() == s[t.len() - 1]);
            assert(!precedes(s[s.len() - 1], s[t.len() - 1]));
        }
        assert(t.push(s.last()) =~= s);
    }
}

/// A filter that no entry passes leaves nothing.
proof fn lemma_filter_keeps_none<T>(s: Seq<T>, keep: spec_fn(T) -> bool)
    requires
        forall|i: int| 0 <= i < s.len() ==> !keep(#[trigger] s[i]),
    ensures
        s.filter(keep) == Seq::<T>::empty(),
    decreases s.len(),
{
    reveal(Seq::filter);
    if s.len() > 0 {
        assert forall|i: int| 0 <= i < s.drop_last().len() implies !keep(
            #[trigger] s.drop_last()[i],
        ) by {
            assert(s.drop_last()[i] == s[i]);
        }
        lemma_filter_keeps_none(s.drop_last(), keep);
        assert(!keep(s[s.len() - 1]));
    }
}

/// The sort is stable: entries of which none has to precede another keep the order that
/// they had. Picking such entries out gives the same before the sort and after it.
pub proof fn lemma_stable_sort_is_stable<T>(
    s: Seq<T>,
    precedes: spec_fn(T, T) -> bool,
    keep: spec_fn(T) -> bool,
)
    requires
        forall|a: T, b: T| keep(a) && keep(b) ==> !#[trigger] precedes(a, b),
    ensures
        stable_sort(s, precedes).filter(keep) == s.filter(keep),
    decreases s.len(),
{
    reveal(Seq::filter);
    if s.len() > 0 {
        let x = s.last();
        let t = stable_sort(s.drop_last(), precedes);
        lemma_stable_sort_is_stable(s.drop_last(), precedes, keep);
        lemma_insert_behind_slot(t, x, precedes);
        let k = slot_of(t, x, precedes);
        let front = t.take(k);
        let back = t.skip(k);
        let one = seq![x];
        assert(t =~= front + back);
        assert(t.insert(k, x) =~= (front + one) + back);
        Seq::filter_distributes_over_add(front, back, keep);
        Seq::filter_distributes_over_add(front + one, back, keep);
        Seq::filter_distributes_over_add(front, one, keep);
        assert(one.drop_last() =~= Seq::<T>::empty());
        assert(one.last() == x);
        if keep(x) {
            assert forall|i: int| 0 <= i < back.len() implies !keep(#[trigger] back[i]) by {
                assert(back[i] == t[k + i]);
                assert(precedes(x, t[k + i]));
            }
            lemma_filter_keeps_none(back, keep);
            assert(one.filter(keep) =~= one);
            assert(front.filter(keep) + one + Seq::<T>::empty() =~= (front.filter(keep)
                + Seq::<T>::empty()).push(x));
        } else {
            lemma_filter_keeps_none(one, keep);
            assert(front.filter(keep) + Seq::<T>::empty() + back.filter(keep) =~= front.filter(
                keep,
            ) + back.filter(keep));
        }
    }
}

/// Sorts `v` stably. `comes_first` decides the order; what it decides is `precedes`, read
/// on the model of each entry.
pub(crate) fn sort_stably<T, U, F>(
    v: Vec<T>,
    comes_first: F,
    Ghost(model): Ghost<spec_fn(T) -> U>,
    Ghost(precedes): Ghost<spec_fn(U, U) -> bool>,
) -> (r: Vec<T>) where F: Fn(&T, &T) -> bool
    requires
        forall|a: &T, b: &T| #[trigger] comes_first.requires((a, b)),
        forall|a: &T, b: &T, res: bool| #[trigger]
            comes_first.ensures((a, b), res) ==> res == precedes(model(*a), model(*b)),
    ensures
        r@.map_values(model) == stable_sort(v@.map_values(model), precedes),
        r@.to_multiset() == v@.to_multiset(),
{
    broadcast use vstd::seq_lib::group_to_multiset_ensures;

    let mut out: Vec<T> = Vec::new();
    let ghost all = v@;
    let ghost models = v@.map_values(model);
    assert(out@.map_values(model) =~= stable_sort(models.take(0), precedes));
    assert(all.take(0) =~= Seq::<T>::empty());
    for x in it: v
        invariant
            forall|a: &T, b: &T| #[trigger] comes_first.requires((a, b)),
            forall|a: &T, b: &T, res: bool| #[trigger]
                comes_first.ensures((a, b), res) ==> res == precedes(model(*a), model(*b)),
            it.seq() == all,
            models == all.map_values(model),
            out@.map_values(model) == stable_sort(models.take(it.index() as int), precedes),
            out@.to_multiset() == all.take(it.index() as int).to_multiset(),
    {
        let ghost placed = out@.map_values(model);
        let ghost before = out@;
        let mut j: usize = out.len();
        assert(placed.take(placed.len() as int) =~= placed);
        while j > 0 && comes_first(&x, &out[j - 1])
            invariant
                forall|a: &T, b: &T| #[trigger] comes_first.requires((a, b)),
                forall|a: &T, b: &T, res: bool| #[trigger]
                    comes_first.ensures((a, b), res) ==> res == precedes(model(*a), model(*b)),
                j <= out.len(),
                placed == out@.map_values(model),
                before == out@,
                slot_of(placed, model(x), precedes) == slot_of(
                    placed.take(j as int),
                    model(x),
                    precedes,
                ),
            decreases j,
        {
            assert(placed.take(j as int).drop_last() =~= placed.take(j as int - 1));
            j = j - 1;
        }
        proof {
            assert(placed.take(placed.len() as int) =~= placed);
            lemma_insert_behind_slot(placed, model(x), precedes);
            let i = it.index() as int;
            assert(models.take(i + 1).drop_last() =~= models.take(i));
            assert(models.take(i + 1).last() == model(x));
            assert(out@.insert(j as int, x).map_values(model) =~= placed.insert(
                j as int,
                model(x),
            ));
            assert(all.take(i + 1) =~= all.take(i).push(x));
            vstd::seq_lib::to_multiset_insert(before, j as int, x);
            vstd::seq_lib::to_multiset_build(all.take(i), x);
        }
        out.insert(j, x);
    }
    assert(all.take(all.len() as int) =~= all);
    assert(models.take(all.len() as int) =~= models);
    out
}

/// `s` without the entries that repeat the entry just before them.
pub open spec fn without_repeats<U>(s: Seq<U>) -> Seq<U>
    decreases s.len(),
{
    if s.len() <= 1 {
        s
    } else if s[s.len() - 2] == s.last() {
        without_repeats(s.drop_last())
    } else {
        without_repeats(s.drop_last()).push(s.last())
    }
}

/// Dropping repeats keeps the last entry last, and loses no value and adds none.
pub proof fn lemma_without_repeats_members<U>(s: Seq<U>)
    ensures
        s.len() > 0 ==> without_repeats(s).len() > 0 && without_repeats(s).last() == s.last(),
        without_repeats(s).len() <= s.len(),
        forall|x: U| without_repeats(s).contains(x) <==> s.contains(x),
    decreases s.len(),
{
    if s.len() > 1 {
        let t = s.drop_last();
        let w = without_repeats(t);
        lemma_without_repeats_members(t);
        assert(t.last() == s[s.len() - 2]);
        assert forall|x: U| without_repeats(s).contains(x) <==> s.contains(x) by {
            if s.contains(x) {
                let i = choose|i: int| 0 <= i < s.len() && s[i] == x;
                if i < t.len() {
                    assert(t[i] == x);
                    assert(t.contains(x));
                    assert(w.contains(x));
                    let j = choose|j: int| 0 <= j < w.len() && w[j] == x;
                    if s[s.len() - 2] != s.last() {
                        assert(w.push(s.last())[j] == x);
                    }
                } else if s[s.len() - 2] == s.last() {
                    assert(w[w.len() - 1] == x);
                } else {
                    assert(w.push(s.last())[w.len() as int] == x);
                }
            }
            if without_repeats(s).contains(x) {
                let j = choose|j: int|
                    0 <= j < without_repeats(s).len() && without_repeats(s)[j] == x;
                if j < w.len() {
                    assert(w[j] == x);
                    assert(w.contains(x));
                    assert(t.contains(x));
                    let i = choose|i: int| 0 <= i < t.len() && t[i] == x;
                    assert(s[i] == x);
                } else {
                    assert(s[s.len() - 1] == x);
                }
            }
        }
    }
}

/// Where no entry repeats the one before it, nothing is dropped.
pub proof fn lemma_without_repeats_of_distinct<U>(s: Seq<U>)
    requires
        forall|i: int| 0 < i < s.len() ==> s[i - 1] != #[trigger] s[i],
    ensures
        without_repeats(s) == s,
    decreases s.len(),
{
    if s.len() > 1 {
        let t = s.drop_last();
        assert forall|i: int| 0 < i < t.len() implies t[i - 1] != #[trigger] t[i] by {
            assert(t[i] == s[i]);
        }
        lemma_without_repeats_of_distinct(t);
        assert(s[s.len() - 2] != s[s.len() - 1]);
        assert(t.push(s.last()) =~= s);
    }
}

/// Drops every entry that repeats the entry just before it. `same` decides whether two
/// entries are the same; what it decides is equality of their models.
pub(crate) fn drop_repeats<T, U, F>(v: Vec<T>, same: F, Ghost(model): Ghost<spec_fn(T) -> U>) -> (r:
    Vec<T>) where F: Fn(&T, &T) -> bool
    requires
        forall|a: &T, b: &T| #[trigger] same.requires((a, b)),
        forall|a: &T, b: &T, res: bool| #[trigger]
            same.ensures((a, b), res) ==> res == (model(*a) == model(*b)),
    ensures
        r@.map_values(model) == without_repeats(v@.map_values(model)),
{
    let mut out: Vec<T> = Vec::new();
    let ghost all = v@;
    let ghost models = v@.map_values(model);
    assert(out@.map_values(model) =~= without_repeats(models.take(0)));
    for x in it: v
        invariant
            forall|a: &T, b: &T| #[trigger] same.requires((a, b)),
            forall|a: &T, b: &T, res: bool| #[trigger]
                same.ensures((a, b), res) ==> res == (model(*a) == model(*b)),
            it.seq() == all,
            models == all.map_values(model),
            out@.map_values(model) == without_repeats(models.take(it.index() as int)),
    {
        let ghost i = it.index() as int;
        proof {
            lemma_without_repeats_members(models.take(i));
            assert(models.take(i + 1).drop_last() =~= models.take(i));
            assert(models.take(i + 1).last() == model(x));
            if i > 0 {
                assert(models.take(i).last() == models.take(i + 1)[i - 1]);
                assert(out@.map_values(model).last() == model(out@.last()));
            }
        }
        let n = out.len();
        if n == 0 || !same(&out[n - 1], &x) {
            assert(out@.push(x).map_values(model) =~= out@.map_values(model).push(model(x)));
            out.push(x);
        }
    }
    assert(models.take(all.len() as int) =~= models);
    out
}

/// The entries of `s` whose key no earlier entry has, in the order of `s`.
pub open spec fn first_of_each<U, K>(s: Seq<U>, key: spec_fn(U) -> K) -> Seq<U>
    decreases s.len(),
{
    if s.len() == 0 {
        s
    } else if has_key(s.drop_last(), key, key(s.last())) {
        first_of_each(s.drop_last(), key)
    } else {
        first_of_each(s.drop_last(), key).push(s.last())
    }
}

/// Some entry of `s` has the key `k`.
pub open spec fn has_key<U, K>(s: Seq<U>, key: spec_fn(U) -> K, k: K) -> bool {
    exists|j: int| 0 <= j < s.len() && #[trigger] key(s[j]) == k
}

/// The key of an entry that is its own key.
pub open spec fn itself<U>() -> spec_fn(U) -> U {
    |x: U| x
}

/// The entries of `s` without those that occurred before, in the order of `s`.
pub open spec fn first_occurrences<U>(s: Seq<U>) -> Seq<U> {
    first_of_each(s, itself())
}

/// What `first_of_each` keeps: entries of `s`, one for each key that `s` has, no key twice.
pub proof fn lemma_first_of_each<U, K>(s: Seq<U>, key: spec_fn(U) -> K)
    ensures
        first_of_each(s, key).len() <= s.len(),
        forall|x: U| first_of_each(s, key).contains(x) ==> s.contains(x),
        forall|k: K| has_key(first_of_each(s, key), key, k) <==> has_key(s, key, k),
        forall|i: int, j: int|
            0 <= i < j < first_of_each(s, key).len() ==> key(#[trigger] first_of_each(s, key)[i])
                != key(#[trigger] first_of_each(s, key)[j]),
        s.len() > 0 ==> first_of_each(s, key).len() > 0 && first_of_each(s, key)[0] == s[0],
    decreases s.len(),
{
    if s.len() > 0 {
        let init = s.drop_last();
        let kept = first_of_each(init, key);
        let now = first_of_each(s, key);
        let last = s.last();
        lemma_first_of_each(init, key);
        assert forall|x: U| now.contains(x) implies s.contains(x) by {
            let i = choose|i: int| 0 <= i < now.len() && now[i] == x;
            if i < kept.len() {
                assert(kept[i] == x);
                assert(kept.contains(x));
                assert(init.contains(x));
                let j = choose|j: int| 0 <= j < init.len() && init[j] == x;
                assert(s[j] == x);
            } else {
                assert(s[s.len() - 1] == x);
            }
        }
        assert forall|k: K| has_key(now, key, k) <==> has_key(s, key, k) by {
            if has_key(now, key, k) {
                let i = choose|i: int| 0 <= i < now.len() && #[trigger] key(now[i]) == k;
                if i < kept.len() {
                    assert(key(kept[i]) == k);
                    assert(has_key(kept, key, k));
                    assert(has_key(init, key, k));
                    let j = choose|j: int| 0 <= j < init.len() && #[trigger] key(init[j]) == k;
                    assert(key(s[j]) == k);
                } else {
                    assert(key(s[s.len() - 1]) == k);
                }
            }
            if has_key(s, key, k) {
                let j = choose|j: int| 0 <= j < s.len() && #[trigger] key(s[j]) == k;
                if j < init.len() {
                    assert(key(init[j]) == k);
                    assert(has_key(init, key, k));
                } else {
                    assert(k == key(last));
                }
                if has_key(init, key, k) {
                    assert(has_key(kept, key, k));
                    let i = choose|i: int| 0 <= i < kept.len() && #[trigger] key(kept[i]) == k;
                    assert(key(now[i]) == k);
                } else {
                    assert(key(now[now.len() - 1]) == k);
                }
            }
        }
        assert forall|i: int, j: int| 0 <= i < j < now.len() implies key(#[trigger] now[i]) != key(
            #[trigger] now[j],
        ) by {
            if j < kept.len() {
                assert(now[i] == kept[i] && now[j] == kept[j]);
            } else {
                assert(now[i] == kept[i]);
                assert(has_key(kept, key, key(kept[i])));
            }
        }
        if init.len() > 0 {
            assert(init[0] == s[0]);
            assert(now[0] == kept[0]);
        }
    }
}

/// Where no two entries have the same key, every entry is kept.
pub proof fn lemma_first_of_each_of_distinct<U, K>(s: Seq<U>, key: spec_fn(U) -> K)
    requires
        forall|i: int, j: int| 0 <= i < j < s.len() ==> key(#[trigger] s[i]) != key(#[trigger] s[j]),
    ensures
        first_of_each(s, key) == s,
    decreases s.len(),
{
    if s.len() > 0 {
        let init = s.drop_last();
        assert forall|i: int, j: int| 0 <= i < j < init.len() implies key(#[trigger] init[i])
            != key(#[trigger] init[j]) by {
            assert(init[i] == s[i] && init[j] == s[j]);
        }
        lemma_first_of_each_of_distinct(init, key);
        assert(!has_key(init, key, key(s.last()))) by {
            if has_key(init, key, key(s.last())) {
                let j = choose|j: int| 0 <= j < init.len() && #[trigger] key(init[j]) == key(
                    s.last(),
                );
                assert(init[j] == s[j]);
                assert(s.last() == s[s.len() - 1]);
            }
        }
        assert(init.push(s.last()) =~= s);
    }
}

} // verus!
