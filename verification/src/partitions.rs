use crate::memo::Memo;
use crate::sizes::{run_precedes, same_run, AdjacentTupleSizes};
use crate::sorting::{drop_repeats, sort_stably};
use std::collections::HashSet;
use vstd::prelude::*;

verus! {

/// `p` is a partition of `n`: positive sizes, never increasing, that add up to `n`.
pub open spec fn is_partition(p: Seq<usize>, n: nat) -> bool {
    &&& forall|i: int| 0 <= i < p.len() ==> #[trigger] p[i] >= 1
    &&& forall|i: int, j: int| 0 <= i <= j < p.len() ==> p[i] >= p[j]
    &&& crate::sizes::run_total(p) == n
}

/// Each of `rests` with `first` put in front.
pub open spec fn prepend_each(first: usize, rests: Seq<Seq<usize>>) -> Seq<Seq<usize>> {
    Seq::new(rests.len(), |i: int| seq![first] + rests[i])
}

/// The partitions of `n` into sizes of at most `cap`, the greatest first: those that begin
/// with `cap` itself, then those whose sizes all stay below it.
pub open spec fn partitions_capped(n: nat, cap: nat) -> Seq<Seq<usize>>
    decreases n + cap,
{
    if n == 0 {
        seq![Seq::<usize>::empty()]
    } else if cap == 0 {
        Seq::<Seq<usize>>::empty()
    } else {
        let smaller = partitions_capped(n, (cap - 1) as nat);
        if cap <= n {
            prepend_each(cap as usize, partitions_capped((n - cap) as nat, cap)) + smaller
        } else {
            smaller
        }
    }
}

/// Every partition of `n`, each once, the greatest first.
pub open spec fn tuple_partitions(n: nat) -> Seq<Seq<usize>> {
    partitions_capped(n, n)
}

/// Each entry of `list` stands after all the entries before it in the dictionary.
pub open spec fn strictly_descending(list: Seq<Seq<usize>>) -> bool {
    forall|i: int, j: int|
        0 <= i < j < list.len() ==> crate::sizes::lex_less(#[trigger] list[j], #[trigger] list[i])
}

/// Positive sizes add up to at least their number, and to at least each of them.
pub proof fn lemma_total_bounds(p: Seq<usize>)
    requires
        forall|i: int| 0 <= i < p.len() ==> #[trigger] p[i] >= 1,
    ensures
        crate::sizes::run_total(p) >= p.len(),
        forall|i: int| 0 <= i < p.len() ==> #[trigger] p[i] <= crate::sizes::run_total(p),
    decreases p.len(),
{
    if p.len() > 0 {
        let q = p.drop_last();
        assert forall|i: int| 0 <= i < q.len() implies #[trigger] q[i] >= 1 by {
            assert(q[i] == p[i]);
        }
        lemma_total_bounds(q);
        assert forall|i: int| 0 <= i < p.len() implies #[trigger] p[i] <= crate::sizes::run_total(
            p,
        ) by {
            if i < q.len() {
                assert(q[i] == p[i]);
            }
        }
    }
}

/// A size put in front of a run adds to its total.
proof fn lemma_total_prepend(first: usize, rest: Seq<usize>)
    ensures
        crate::sizes::run_total(seq![first] + rest) == first + crate::sizes::run_total(rest),
{
    crate::sizes::lemma_run_total_concat(seq![first], rest);
    assert(seq![first].drop_last() =~= Seq::<usize>::empty());
    assert(crate::sizes::run_total(seq![first].drop_last()) == 0);
}

/// What `partitions_capped` lists: partitions of `n` with sizes up to `cap`, all of them,
/// in strictly descending order.
pub proof fn lemma_partitions_capped(n: nat, cap: nat)
    requires
        cap <= usize::MAX,
    ensures
        forall|i: int|
            0 <= i < partitions_capped(n, cap).len() ==> {
                let p = #[trigger] partitions_capped(n, cap)[i];
                is_partition(p, n) && (p.len() > 0 ==> p[0] <= cap)
            },
        forall|p: Seq<usize>|
            is_partition(p, n) && (p.len() > 0 ==> p[0] <= cap) ==> partitions_capped(
                n,
                cap,
            ).contains(p),
        strictly_descending(partitions_capped(n, cap)),
    decreases n + cap,
{
    let list = partitions_capped(n, cap);
    if n == 0 {
        assert(crate::sizes::run_total(Seq::<usize>::empty()) == 0);
        assert forall|p: Seq<usize>|
            is_partition(p, n) && (p.len() > 0 ==> p[0] <= cap) implies list.contains(p) by {
            lemma_total_bounds(p);
            assert(p =~= Seq::<usize>::empty());
            assert(list[0] == p);
        }
    } else if cap == 0 {
        assert forall|p: Seq<usize>|
            is_partition(p, n) && (p.len() > 0 ==> p[0] <= cap) implies list.contains(p) by {
            if p.len() > 0 {
                assert(p[0] >= 1);
            }
        }
    } else {
        let smaller = partitions_capped(n, (cap - 1) as nat);
        lemma_partitions_capped(n, (cap - 1) as nat);
        assert forall|j: int| 0 <= j < smaller.len() implies (#[trigger] smaller[j]).len() > 0 by {
        }
        if cap <= n {
            let rests = partitions_capped((n - cap) as nat, cap);
            let with_cap = prepend_each(cap as usize, rests);
            lemma_partitions_capped((n - cap) as nat, cap);
            assert(list == with_cap + smaller);
            assert forall|i: int| 0 <= i < with_cap.len() implies is_partition(
                #[trigger] with_cap[i],
                n,
            ) && with_cap[i].len() > 0 && with_cap[i][0] == cap by {
                let rest = rests[i];
                let p = with_cap[i];
                assert(p == seq![cap as usize] + rest);
                lemma_total_prepend(cap as usize, rest);
                assert(is_partition(rest, (n - cap) as nat));
                assert forall|a: int| 0 <= a < p.len() implies #[trigger] p[a] >= 1 by {
                    if a > 0 {
                        assert(p[a] == rest[a - 1]);
                    }
                }
                assert forall|a: int, b: int| 0 <= a <= b < p.len() implies p[a] >= p[b] by {
                    if a > 0 {
                        assert(p[a] == rest[a - 1] && p[b] == rest[b - 1]);
                    } else if b > 0 {
                        assert(p[b] == rest[b - 1]);
                        assert(rest[0] >= rest[b - 1]);
                    }
                }
            }
            assert forall|i: int| 0 <= i < list.len() implies {
                let p = #[trigger] list[i];
                is_partition(p, n) && (p.len() > 0 ==> p[0] <= cap)
            } by {
                if i < with_cap.len() {
                    assert(list[i] == with_cap[i]);
                } else {
                    assert(list[i] == smaller[i - with_cap.len()]);
                }
            }
            assert forall|p: Seq<usize>|
                is_partition(p, n) && (p.len() > 0 ==> p[0] <= cap) implies list.contains(p) by {
                lemma_total_bounds(p);
                if p[0] == cap {
                    let rest = p.drop_first();
                    assert(p =~= seq![cap as usize] + rest);
                    lemma_total_prepend(cap as usize, rest);
                    assert forall|a: int| 0 <= a < rest.len() implies #[trigger] rest[a] >= 1 by {
                        assert(rest[a] == p[a + 1]);
                    }
                    assert forall|a: int, b: int| 0 <= a <= b < rest.len() implies rest[a]
                        >= rest[b] by {
                        assert(rest[a] == p[a + 1] && rest[b] == p[b + 1]);
                    }
                    if rest.len() > 0 {
                        assert(rest[0] == p[1]);
                    }
                    assert(crate::sizes::run_total(rest) == n - cap);
                    assert(rest.len() > 0 ==> rest[0] <= cap);
                    assert(is_partition(rest, (n - cap) as nat));
                    assert(rests.contains(rest));
                    let k = choose|k: int| 0 <= k < rests.len() && rests[k] == rest;
                    assert(with_cap[k] == p);
                    assert(list[k] == p);
                } else {
                    assert(smaller.contains(p));
                    let k = choose|k: int| 0 <= k < smaller.len() && smaller[k] == p;
                    assert(list[with_cap.len() + k] == p);
                }
            }
            assert forall|i: int, j: int| 0 <= i < j < list.len() implies crate::sizes::lex_less(
                #[trigger] list[j],
                #[trigger] list[i],
            ) by {
                if j < with_cap.len() {
                    let a = rests[j];
                    let b = rests[i];
                    assert(crate::sizes::lex_less(a, b));
                    let k = choose|k: int| crate::sizes::lex_less_at(a, b, k);
                    assert(list[j] == seq![cap as usize] + a);
                    assert(list[i] == seq![cap as usize] + b);
                    assert forall|x: int| 0 <= x < k + 1 implies list[j][x] == list[i][x] by {
                        if x > 0 {
                            assert(a[x - 1] == b[x - 1]);
                        }
                    }
                    assert(crate::sizes::lex_less_at(list[j], list[i], k + 1));
                } else if i < with_cap.len() {
                    assert(list[j] == smaller[j - with_cap.len()]);
                    assert(list[i] == with_cap[i]);
                    assert(crate::sizes::lex_less_at(list[j], list[i], 0));
                } else {
                    assert(list[j] == smaller[j - with_cap.len()]);
                    assert(list[i] == smaller[i - with_cap.len()]);
                }
            }
        } else {
            assert forall|p: Seq<usize>|
                is_partition(p, n) && (p.len() > 0 ==> p[0] <= cap) implies list.contains(p) by {
                lemma_total_bounds(p);
            }
        }
    }
}

/// A strictly descending list is fixed by what it holds.
pub proof fn lemma_descending_lists_agree(a: Seq<Seq<usize>>, b: Seq<Seq<usize>>)
    requires
        strictly_descending(a),
        strictly_descending(b),
        forall|p: Seq<usize>| a.contains(p) <==> b.contains(p),
    ensures
        a == b,
    decreases a.len(),
{
    if a.len() == 0 {
        if b.len() > 0 {
            assert(b.contains(b[0]));
        }
        assert(a =~= b);
    } else {
        let la = a.last();
        assert(a.contains(la));
        assert(b.contains(la));
        let j = choose|j: int| 0 <= j < b.len() && b[j] == la;
        let lb = b.last();
        assert(b.contains(lb));
        assert(a.contains(lb));
        let i = choose|i: int| 0 <= i < a.len() && a[i] == lb;
        if j < b.len() - 1 {
            assert(crate::sizes::lex_less(lb, la));
            if i < a.len() - 1 {
                assert(crate::sizes::lex_less(la, lb));
                crate::sizes::lemma_lex_less_asymmetric(la, lb);
            } else {
                crate::sizes::lemma_lex_less_irreflexive(la);
            }
        }
        assert(la == lb);
        let a0 = a.drop_last();
        let b0 = b.drop_last();
        assert forall|p: Seq<usize>| a0.contains(p) <==> b0.contains(p) by {
            crate::sizes::lemma_lex_less_irreflexive(la);
            if a0.contains(p) {
                let x = choose|x: int| 0 <= x < a0.len() && a0[x] == p;
                assert(a[x] == p);
                assert(crate::sizes::lex_less(la, p));
                assert(b.contains(p));
                let y = choose|y: int| 0 <= y < b.len() && b[y] == p;
                assert(b0[y] == p);
            }
            if b0.contains(p) {
                let y = choose|y: int| 0 <= y < b0.len() && b0[y] == p;
                assert(b[y] == p);
                assert(crate::sizes::lex_less(lb, p));
                assert(a.contains(p));
                let x = choose|x: int| 0 <= x < a.len() && a[x] == p;
                assert(a0[x] == p);
            }
        }
        assert forall|x: int, y: int| 0 <= x < y < a0.len() implies crate::sizes::lex_less(
            #[trigger] a0[y],
            #[trigger] a0[x],
        ) by {
            assert(a0[x] == a[x] && a0[y] == a[y]);
        }
        assert forall|x: int, y: int| 0 <= x < y < b0.len() implies crate::sizes::lex_less(
            #[trigger] b0[y],
            #[trigger] b0[x],
        ) by {
            assert(b0[x] == b[x] && b0[y] == b[y]);
        }
        lemma_descending_lists_agree(a0, b0);
        assert(a =~= a0.push(la));
        assert(b =~= b0.push(lb));
    }
}

/// `k` is the first place at which `g` holds the size that stands there.
pub open spec fn is_first_place(g: Seq<usize>, k: int) -> bool {
    &&& 0 <= k < g.len()
    &&& forall|j: int| 0 <= j < k ==> g[j] != g[k]
}

/// `g` with the size at place `k` raised by one.
pub open spec fn raised_at(g: Seq<usize>, k: int) -> Seq<usize> {
    g.update(k, (g[k] + 1) as usize)
}

/// For each first place below `upto`, in turn, `g` raised at that place.
pub open spec fn raised_below(g: Seq<usize>, upto: int) -> Seq<Seq<usize>>
    decreases upto,
{
    if upto <= 0 {
        Seq::empty()
    } else if is_first_place(g, upto - 1) {
        raised_below(g, upto - 1).push(raised_at(g, upto - 1))
    } else {
        raised_below(g, upto - 1)
    }
}

/// What one more card makes of `g`: each distinct size raised once, at its first place, and
/// last `g` with a single card behind it.
pub open spec fn successors(g: Seq<usize>) -> Seq<Seq<usize>> {
    raised_below(g, g.len() as int).push(g.push(1))
}

/// The successors of each entry of `list`, in turn.
pub open spec fn all_successors(list: Seq<Seq<usize>>) -> Seq<Seq<usize>>
    decreases list.len(),
{
    if list.len() == 0 {
        Seq::empty()
    } else {
        all_successors(list.drop_last()) + successors(list.last())
    }
}

/// What `raised_below` holds: `g` raised at a first place below `upto`.
proof fn lemma_raised_below_members(g: Seq<usize>, upto: int)
    requires
        0 <= upto <= g.len(),
    ensures
        forall|p: Seq<usize>|
            raised_below(g, upto).contains(p) <==> exists|k: int|
                0 <= k < upto && is_first_place(g, k) && p == #[trigger] raised_at(g, k),
    decreases upto,
{
    if upto > 0 {
        lemma_raised_below_members(g, upto - 1);
        let before = raised_below(g, upto - 1);
        let now = raised_below(g, upto);
        assert forall|p: Seq<usize>|
            now.contains(p) <==> exists|k: int|
                0 <= k < upto && is_first_place(g, k) && p == #[trigger] raised_at(g, k) by {
            if now.contains(p) {
                let i = choose|i: int| 0 <= i < now.len() && now[i] == p;
                if i < before.len() {
                    assert(before[i] == p);
                    assert(before.contains(p));
                } else {
                    assert(p == raised_at(g, upto - 1));
                }
            }
            if exists|k: int|
                0 <= k < upto && is_first_place(g, k) && p == #[trigger] raised_at(g, k) {
                let k = choose|k: int|
                    0 <= k < upto && is_first_place(g, k) && p == #[trigger] raised_at(g, k);
                if k < upto - 1 {
                    assert(before.contains(p));
                    let i = choose|i: int| 0 <= i < before.len() && before[i] == p;
                    assert(now[i] == p);
                } else {
                    assert(now[now.len() - 1] == p);
                }
            }
        }
    }
}

/// What `all_successors` holds: the successors of the entries of `list`.
proof fn lemma_all_successors_members(list: Seq<Seq<usize>>)
    ensures
        forall|p: Seq<usize>|
            all_successors(list).contains(p) <==> exists|i: int|
                0 <= i < list.len() && (#[trigger] successors(list[i])).contains(p),
    decreases list.len(),
{
    if list.len() > 0 {
        let init = list.drop_last();
        lemma_all_successors_members(init);
        let a = all_successors(init);
        let b = successors(list.last());
        assert forall|p: Seq<usize>|
            all_successors(list).contains(p) <==> exists|i: int|
                0 <= i < list.len() && (#[trigger] successors(list[i])).contains(p) by {
            vstd::seq_lib::lemma_seq_concat_contains_all_elements(a, b, p);
            if a.contains(p) {
                let i = choose|i: int|
                    0 <= i < init.len() && (#[trigger] successors(init[i])).contains(p);
                assert(init[i] == list[i]);
                assert(successors(list[i]).contains(p));
            }
            if b.contains(p) {
                assert(successors(list[list.len() - 1]).contains(p));
            }
            if exists|i: int|
                0 <= i < list.len() && (#[trigger] successors(list[i])).contains(p) {
                let i = choose|i: int|
                    0 <= i < list.len() && (#[trigger] successors(list[i])).contains(p);
                if i < init.len() {
                    assert(init[i] == list[i]);
                    assert(successors(init[i]).contains(p));
                }
            }
        }
    }
}

/// A size put in the place of another changes the total by their difference.
proof fn lemma_total_update(g: Seq<usize>, k: int, size: usize)
    requires
        0 <= k < g.len(),
    ensures
        crate::sizes::run_total(g.update(k, size)) == crate::sizes::run_total(g) - g[k] + size,
    decreases g.len(),
{
    if k == g.len() - 1 {
        assert(g.update(k, size).drop_last() =~= g.drop_last());
    } else {
        lemma_total_update(g.drop_last(), k, size);
        assert(g.update(k, size).drop_last() =~= g.drop_last().update(k, size));
    }
}

/// One more card makes partitions of `m + 1` of a partition of `m`.
proof fn lemma_successors_are_partitions(g: Seq<usize>, m: nat)
    requires
        is_partition(g, m),
        m < usize::MAX,
    ensures
        forall|p: Seq<usize>| successors(g).contains(p) ==> is_partition(p, m + 1),
{
    lemma_raised_below_members(g, g.len() as int);
    lemma_total_bounds(g);
    assert forall|p: Seq<usize>| successors(g).contains(p) implies is_partition(p, m + 1) by {
        let s = successors(g);
        let i = choose|i: int| 0 <= i < s.len() && s[i] == p;
        if i == s.len() - 1 {
            assert(p == g.push(1));
            crate::sizes::lemma_run_total_push(g, 1);
            assert forall|a: int, b: int| 0 <= a <= b < p.len() implies p[a] >= p[b] by {
                if b < g.len() {
                    assert(p[a] == g[a] && p[b] == g[b]);
                } else if a < g.len() {
                    assert(p[a] == g[a]);
                }
            }
        } else {
            assert(raised_below(g, g.len() as int)[i] == p);
            assert(raised_below(g, g.len() as int).contains(p));
            let k = choose|k: int|
                0 <= k < g.len() && is_first_place(g, k) && p == #[trigger] raised_at(g, k);
            lemma_total_update(g, k, (g[k] + 1) as usize);
            assert(g[k] <= m);
            assert forall|a: int, b: int| 0 <= a <= b < p.len() implies p[a] >= p[b] by {
                assert(g[a] >= g[b]);
                if b == k && a < k {
                    assert(g[a] != g[k]);
                }
            }
        }
    }
}

/// Every partition of `m + 1` comes from a partition of `m` by one more card.
proof fn lemma_partition_has_predecessor(p: Seq<usize>, m: nat)
    requires
        is_partition(p, m + 1),
        m >= 1,
    ensures
        exists|g: Seq<usize>| is_partition(g, m) && (#[trigger] successors(g)).contains(p),
{
    lemma_total_bounds(p);
    let last = p.len() - 1;
    if p[last] == 1 {
        let g = p.drop_last();
        assert(g.push(1) =~= p);
        assert(successors(g)[successors(g).len() - 1] == p);
        assert forall|a: int, b: int| 0 <= a <= b < g.len() implies g[a] >= g[b] by {
            assert(g[a] == p[a] && g[b] == p[b]);
        }
        assert forall|a: int| 0 <= a < g.len() implies #[trigger] g[a] >= 1 by {
            assert(g[a] == p[a]);
        }
        assert(is_partition(g, m));
    } else {
        let g = p.update(last, (p[last] - 1) as usize);
        lemma_total_update(p, last, (p[last] - 1) as usize);
        assert(raised_at(g, last) =~= p);
        assert forall|a: int, b: int| 0 <= a <= b < g.len() implies g[a] >= g[b] by {
            assert(p[a] >= p[b]);
        }
        assert forall|j: int| 0 <= j < last implies g[j] != g[last] by {
            assert(p[j] >= p[last]);
        }
        assert(is_first_place(g, last));
        assert(is_partition(g, m));
        lemma_raised_below_members(g, g.len() as int);
        assert(raised_below(g, g.len() as int).contains(p));
        let i = choose|i: int|
            0 <= i < raised_below(g, g.len() as int).len() && raised_below(g, g.len() as int)[i]
                == p;
        assert(successors(g)[i] == p);
    }
}

/// The successors of all partitions of `m` are the partitions of `m + 1`.
proof fn lemma_successors_of_partitions(m: nat)
    requires
        1 <= m < usize::MAX,
    ensures
        forall|p: Seq<usize>|
            all_successors(tuple_partitions(m)).contains(p) <==> is_partition(p, m + 1),
{
    let list = tuple_partitions(m);
    lemma_partitions_capped(m, m);
    lemma_all_successors_members(list);
    assert forall|p: Seq<usize>| all_successors(list).contains(p) <==> is_partition(
        p,
        m + 1,
    ) by {
        if all_successors(list).contains(p) {
            let i = choose|i: int|
                0 <= i < list.len() && (#[trigger] successors(list[i])).contains(p);
            lemma_successors_are_partitions(list[i], m);
        }
        if is_partition(p, m + 1) {
            lemma_partition_has_predecessor(p, m);
            let g = choose|g: Seq<usize>|
                is_partition(g, m) && (#[trigger] successors(g)).contains(p);
            lemma_total_bounds(g);
            assert(list.contains(g));
            let i = choose|i: int| 0 <= i < list.len() && list[i] == g;
            assert(successors(list[i]).contains(p));
        }
    }
}

/// A copy of `g` in which the first `size` is one greater.
fn raise_first(g: &Vec<usize>, size: usize) -> (r: Vec<usize>)
    requires
        size < usize::MAX,
    ensures
        forall|k: int| is_first_place(g@, k) && g@[k] == size ==> r@ == raised_at(g@, k),
{
    let mut found = false;
    let mut out: Vec<usize> = Vec::new();
    let ghost mut place: int = 0;
    let mut i: usize = 0;
    while i < g.len()
        invariant
            i <= g.len(),
            size < usize::MAX,
            out.len() == i,
            !found ==> out@ == g@.take(i as int) && forall|j: int| 0 <= j < i ==> g@[j] != size,
            found ==> 0 <= place < i && is_first_place(g@, place) && g@[place] == size && out@
                == g@.take(i as int).update(place, (size + 1) as usize),
        decreases g.len() - i,
    {
        if g[i] == size && !found {
            found = true;
            proof {
                place = i as int;
            }
            out.push(g[i] + 1);
            assert(out@ =~= g@.take(i as int + 1).update(place, (size + 1) as usize));
        } else {
            out.push(g[i]);
            assert(found ==> out@ =~= g@.take(i as int + 1).update(place, (size + 1) as usize));
            assert(!found ==> out@ =~= g@.take(i as int + 1));
        }
        i = i + 1;
    }
    proof {
        assert(g@.take(g.len() as int) =~= g@);
        assert forall|k: int| is_first_place(g@, k) && g@[k] == size implies out@ == raised_at(
            g@,
            k,
        ) by {
            assert(found);
            if k < place {
                assert(g@[k] != g@[place]);
            } else if place < k {
                assert(g@[place] != g@[k]);
            }
        }
    }
    out
}

/// The sizes seen up to a place, with the size at that place, are the sizes seen up to
/// the next.
proof fn lemma_seen_one_more(g: Seq<usize>, i: int, seen: Set<usize>)
    requires
        0 <= i < g.len(),
        forall|size: usize| seen.contains(size) <==> exists|j: int| 0 <= j < i && g[j] == size,
    ensures
        forall|size: usize|
            seen.insert(g[i]).contains(size) <==> exists|j: int| 0 <= j < i + 1 && g[j] == size,
        seen.contains(g[i]) <==> !is_first_place(g, i),
        seen.contains(g[i]) ==> seen.insert(g[i]) == seen,
{
    assert forall|size: usize|
        seen.insert(g[i]).contains(size) <==> exists|j: int| 0 <= j < i + 1 && g[j] == size by {
        if seen.contains(size) {
            let j = choose|j: int| 0 <= j < i && g[j] == size;
            assert(0 <= j < i + 1 && g[j] == size);
        }
        if exists|j: int| 0 <= j < i + 1 && g[j] == size {
            let j = choose|j: int| 0 <= j < i + 1 && g[j] == size;
            if j < i {
                assert(seen.contains(size));
            }
        }
    }
    if seen.contains(g[i]) {
        let j = choose|j: int| 0 <= j < i && g[j] == g[i];
        assert(!is_first_place(g, i));
        assert(seen.insert(g[i]) =~= seen);
    } else {
        assert forall|j: int| 0 <= j < i implies g[j] != g[i] by {
            if g[j] == g[i] {
                assert(seen.contains(g[i]));
            }
        }
    }
}

/// Puts the successors of `g` behind what `groupings` holds.
fn push_successors(groupings: &mut Vec<Vec<usize>>, g: Vec<usize>, Ghost(m): Ghost<nat>)
    requires
        is_partition(g@, m),
        m < usize::MAX,
    ensures
        final(groupings).deep_view() == old(groupings).deep_view() + successors(g@),
{
    let ghost base = groupings.deep_view();
    let mut incremented: HashSet<usize> = HashSet::new();
    let mut i: usize = 0;
    assert(groupings.deep_view() =~= base + raised_below(g@, 0));
    while i < g.len()
        invariant
            i <= g.len(),
            is_partition(g@, m),
            m < usize::MAX,
            forall|size: usize|
                incremented@.contains(size) <==> exists|j: int| 0 <= j < i && g@[j] == size,
            groupings.deep_view() == base + raised_below(g@, i as int),
        decreases g.len() - i,
    {
        let size = g[i];
        let ghost held = *groupings;
        let ghost seen = incremented@;
        proof {
            lemma_total_bounds(g@);
            lemma_seen_one_more(g@, i as int, seen);
        }
        let fresh = insert_size(&mut incremented, size);
        if fresh {
            let raised = raise_first(&g, size);
            groupings.push(raised);
            proof {
                crate::views::lemma_shape_view_push(held, *groupings, raised);
                assert(held.deep_view().push(raised@) =~= base + raised_below(
                    g@,
                    i as int + 1,
                ));
            }
        }
        i = i + 1;
    }
    let ghost held = *groupings;
    let ghost before = g@;
    let mut g = g;
    g.push(1);
    groupings.push(g);
    proof {
        crate::views::lemma_shape_view_push(held, *groupings, g);
        assert(held.deep_view().push(before.push(1)) =~= base + successors(before));
    }
}

/// Notes that `size` was seen; says whether it was new.
fn insert_size(seen: &mut HashSet<usize>, size: usize) -> (fresh: bool)
    ensures
        final(seen)@ == old(seen)@.insert(size),
        fresh == !old(seen)@.contains(size),
{
    broadcast use vstd::std_specs::hash::group_hash_axioms;

    seen.insert(size)
}

/// Every way to break `num` cards up into tuples: each partition of `num` once, as sizes
/// that never increase, the greatest partition first.
pub fn find_tuple_partitions(num: usize) -> (r: Vec<AdjacentTupleSizes>)
    requires
        num >= 1,
    ensures
        r.deep_view() == tuple_partitions(num as nat),
{
    let mut memo = Memo::new();
    memo.find_tuple_partitions(num)
}

/// The partitions of `num`, made from the partitions of `num - 1`: each of those gives
/// its successors, and the successors are sorted, the greatest first, and freed of
/// repeats. One card has one partition, for which `smaller` is not looked at.
pub fn partitions_from(smaller: Vec<AdjacentTupleSizes>, num: usize) -> (r: Vec<AdjacentTupleSizes>)
    requires
        num >= 1,
        num >= 2 ==> smaller.deep_view() == tuple_partitions((num - 1) as nat),
    ensures
        r.deep_view() == tuple_partitions(num as nat),
{
    let mut groupings: Vec<Vec<usize>> = Vec::new();
    if num == 1 {
        groupings.push(vec![1]);
        proof {
            let one = seq![1usize];
            crate::views::lemma_shape_view(groupings);
            assert(groupings@[0]@ =~= one);
            assert(groupings.deep_view() =~= seq![one]);
            assert(one.drop_last() =~= Seq::<usize>::empty());
            assert(crate::sizes::run_total(one.drop_last()) == 0);
            assert forall|p: Seq<usize>| groupings.deep_view().contains(p) <==> is_partition(
                p,
                1,
            ) by {
                if is_partition(p, 1) {
                    lemma_total_bounds(p);
                    assert(p[0] == 1);
                    assert(p =~= one);
                    assert(groupings.deep_view()[0] == p);
                }
            }
        }
    } else {
        let ghost list = smaller.deep_view();
        proof {
            lemma_partitions_capped((num - 1) as nat, (num - 1) as nat);
            assert(groupings.deep_view() =~= all_successors(list.take(0)));
        }
        for g in it: smaller
            invariant
                num >= 2,
                it.seq().len() == list.len(),
                forall|i: int| 0 <= i < list.len() ==> (#[trigger] it.seq()[i])@ == list[i],
                forall|i: int|
                    0 <= i < list.len() ==> is_partition(#[trigger] list[i], (num - 1) as nat),
                groupings.deep_view() == all_successors(list.take(it.index() as int)),
        {
            proof {
                let i = it.index() as int;
                assert(list.take(i + 1).drop_last() =~= list.take(i));
                assert(list.take(i + 1).last() == g@);
                assert(is_partition(list[i], (num - 1) as nat));
            }
            push_successors(&mut groupings, g, Ghost((num - 1) as nat));
        }
        proof {
            assert(list.take(list.len() as int) =~= list);
            lemma_successors_of_partitions((num - 1) as nat);
        }
    }
    let ghost made = groupings.deep_view();
    proof {
        crate::views::lemma_runs_model(groupings);
    }
    let sorted = sort_stably::<Vec<usize>, Seq<usize>, _>(
        groupings,
        run_precedes,
        Ghost(crate::views::run_model()),
        Ghost(crate::sizes::descending()),
    );
    proof {
        crate::views::lemma_runs_model(sorted);
    }
    let distinct = drop_repeats::<Vec<usize>, Seq<usize>, _>(
        sorted,
        same_run,
        Ghost(crate::views::run_model()),
    );
    proof {
        crate::views::lemma_runs_model(distinct);
        lemma_sorted_distinct_is_listing(made, num as nat);
    }
    distinct
}

/// Sorting the partitions of `n`, however often and in whatever order `made` holds them,
/// and dropping the repeats gives the list of the partitions of `n`.
proof fn lemma_sorted_distinct_is_listing(made: Seq<Seq<usize>>, n: nat)
    requires
        1 <= n <= usize::MAX,
        forall|p: Seq<usize>| made.contains(p) <==> is_partition(p, n),
    ensures
        crate::sorting::without_repeats(crate::sorting::stable_sort(made, crate::sizes::descending()))
            == tuple_partitions(n),
{
    let ordered = crate::sorting::stable_sort(made, crate::sizes::descending());
    let distinct = crate::sorting::without_repeats(ordered);
    crate::sizes::lemma_descending_is_strict_weak();
    crate::sorting::lemma_stable_sort_in_order(made, crate::sizes::descending());
    crate::sorting::lemma_stable_sort_contains(made, crate::sizes::descending());
    crate::sorting::lemma_without_repeats_members(ordered);
    lemma_without_repeats_descends(ordered);
    lemma_partitions_capped(n, n);
    assert forall|p: Seq<usize>| distinct.contains(p) <==> tuple_partitions(n).contains(p) by {
        if tuple_partitions(n).contains(p) {
            let i = choose|i: int| 0 <= i < tuple_partitions(n).len() && tuple_partitions(n)[i] == p;
            assert(is_partition(tuple_partitions(n)[i], n));
        }
        if distinct.contains(p) {
            assert(ordered.contains(p));
            assert(made.contains(p));
            assert(is_partition(p, n));
            lemma_total_bounds(p);
        }
    }
    lemma_descending_lists_agree(distinct, tuple_partitions(n));
}

/// Dropping the repeats of a list in descending order leaves a strictly descending list.
proof fn lemma_without_repeats_descends(s: Seq<Seq<usize>>)
    requires
        crate::sorting::in_order(s, crate::sizes::descending()),
    ensures
        strictly_descending(crate::sorting::without_repeats(s)),
    decreases s.len(),
{
    if s.len() > 1 {
        let t = s.drop_last();
        let w = crate::sorting::without_repeats(t);
        assert forall|i: int, j: int| 0 <= i < j < t.len() implies !crate::sizes::descending()(
            #[trigger] t[j],
            #[trigger] t[i],
        ) by {
            assert(t[i] == s[i] && t[j] == s[j]);
        }
        lemma_without_repeats_descends(t);
        crate::sorting::lemma_without_repeats_members(t);
        let last = s.last();
        let prev = s[s.len() - 2];
        if prev != last {
            let r = w.push(last);
            assert forall|i: int, j: int| 0 <= i < j < r.len() implies crate::sizes::lex_less(
                #[trigger] r[j],
                #[trigger] r[i],
            ) by {
                if j < w.len() {
                    assert(r[i] == w[i] && r[j] == w[j]);
                } else {
                    // r[j] is the last entry of s; r[i] stands somewhere before it in s
                    assert(r[i] == w[i]);
                    assert(w.contains(w[i]));
                    assert(t.contains(w[i]));
                    let x = choose|x: int| 0 <= x < t.len() && t[x] == w[i];
                    assert(s[x] == w[i]);
                    assert(!crate::sizes::descending()(s[s.len() - 1], s[x]));
                    assert(!crate::sizes::descending()(s[s.len() - 1], s[s.len() - 2]));
                    crate::sizes::lemma_lex_less_total(s[x], last);
                    crate::sizes::lemma_lex_less_total(prev, last);
                    if s[x] == last {
                        // then prev lies between equal runs
                        if x < s.len() - 2 {
                            assert(!crate::sizes::descending()(s[s.len() - 2], s[x]));
                            crate::sizes::lemma_lex_less_asymmetric(last, prev);
                        }
                    }
                }
            }
        }
    }
}

/// The list of the partitions of `n` holds partitions of `n` only, holds every one of
/// them, and holds none twice: it descends strictly.
pub proof fn lemma_tuple_partitions(n: nat)
    requires
        n <= usize::MAX,
    ensures
        forall|i: int|
            0 <= i < tuple_partitions(n).len() ==> is_partition(#[trigger] tuple_partitions(n)[i], n),
        forall|p: Seq<usize>| is_partition(p, n) ==> tuple_partitions(n).contains(p),
        strictly_descending(tuple_partitions(n)),
        tuple_partitions(n).no_duplicates(),
{
    lemma_partitions_capped(n, n);
    let list = tuple_partitions(n);
    assert forall|p: Seq<usize>| is_partition(p, n) implies list.contains(p) by {
        lemma_total_bounds(p);
    }
    assert forall|i: int, j: int| 0 <= i < list.len() && 0 <= j < list.len() && i != j implies list[i]
        != list[j] by {
        crate::sizes::lemma_lex_less_irreflexive(list[i]);
        if i < j {
            assert(crate::sizes::lex_less(list[j], list[i]));
        } else {
            assert(crate::sizes::lex_less(list[i], list[j]));
        }
    }
}

/// Two calls of `find_tuple_partitions` with one number give the same list.
pub proof fn lemma_find_tuple_partitions_is_a_function(
    num: usize,
    first: Vec<AdjacentTupleSizes>,
    second: Vec<AdjacentTupleSizes>,
)
    requires
        call_ensures(find_tuple_partitions, (num,), first),
        call_ensures(find_tuple_partitions, (num,), second),
    ensures
        first.deep_view() == second.deep_view(),
{
}

} // verus!
