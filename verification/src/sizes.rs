use vstd::prelude::*;

verus! {

/// The tuple sizes played at a block of consecutive ranks, in play order.
pub type AdjacentTupleSizes = Vec<usize>;

/// A shape: the runs that a play is made of.
pub type PlayRequirements = Vec<AdjacentTupleSizes>;

/// The number of cards in a run: the sum of its tuple sizes.
pub open spec fn run_total(run: Seq<usize>) -> int
    decreases run.len(),
{
    if run.len() == 0 {
        0
    } else {
        run_total(run.drop_last()) + run.last()
    }
}

/// The number of cards in a shape: the sum over its runs.
pub open spec fn shape_total(shape: Seq<Seq<usize>>) -> int
    decreases shape.len(),
{
    if shape.len() == 0 {
        0
    } else {
        shape_total(shape.drop_last()) + run_total(shape.last())
    }
}

/// `a` stands before `b` in the dictionary: they agree up to some place `k`, where either
/// `a` ends and `b` goes on, or `a` holds the smaller size.
pub open spec fn lex_less(a: Seq<usize>, b: Seq<usize>) -> bool {
    exists|k: int| lex_less_at(a, b, k)
}

/// `k` is the place that shows `a` to stand before `b`.
pub open spec fn lex_less_at(a: Seq<usize>, b: Seq<usize>, k: int) -> bool {
    &&& 0 <= k <= a.len()
    &&& k < b.len()
    &&& forall|i: int| 0 <= i < k ==> a[i] == b[i]
    &&& (k < a.len() ==> a[k] < b[k])
}

/// The order in which runs are listed: the greater run first.
pub open spec fn descending() -> spec_fn(Seq<usize>, Seq<usize>) -> bool {
    |a: Seq<usize>, b: Seq<usize>| lex_less(b, a)
}

/// The order in which the sizes of a canonical run are listed: the greater size first.
pub open spec fn larger_first() -> spec_fn(usize, usize) -> bool {
    |a: usize, b: usize| a > b
}

/// No run stands before itself.
pub proof fn lemma_lex_less_irreflexive(a: Seq<usize>)
    ensures
        !lex_less(a, a),
{
}

/// Of two runs, not each stands before the other.
pub proof fn lemma_lex_less_asymmetric(a: Seq<usize>, b: Seq<usize>)
    requires
        lex_less(a, b),
    ensures
        !lex_less(b, a),
{
    let k = choose|k: int| lex_less_at(a, b, k);
    if lex_less(b, a) {
        let m = choose|m: int| lex_less_at(b, a, m);
        if k < m {
            assert(b[k] == a[k]);
        } else if m < k {
            assert(a[m] == b[m]);
        }
    }
}

/// Standing before is transitive.
pub proof fn lemma_lex_less_transitive(a: Seq<usize>, b: Seq<usize>, c: Seq<usize>)
    requires
        lex_less(a, b),
        lex_less(b, c),
    ensures
        lex_less(a, c),
{
    let k = choose|k: int| lex_less_at(a, b, k);
    let m = choose|m: int| lex_less_at(b, c, m);
    let w = if k <= m { k } else { m };
    assert forall|i: int| 0 <= i < w implies a[i] == c[i] by {
        assert(a[i] == b[i]);
        assert(b[i] == c[i]);
    }
    if k < m {
        assert(b[k] == c[k]);
    }
    assert(lex_less_at(a, c, w));
}

/// Two runs that agree on their first `k` places are equal, or one stands before the other.
proof fn lemma_lex_total_from(a: Seq<usize>, b: Seq<usize>, k: int)
    requires
        0 <= k <= a.len(),
        k <= b.len(),
        forall|i: int| 0 <= i < k ==> a[i] == b[i],
    ensures
        a == b || lex_less(a, b) || lex_less(b, a),
    decreases a.len() - k,
{
    if k == a.len() {
        if k == b.len() {
            assert(a =~= b);
        } else {
            assert(lex_less_at(a, b, k));
        }
    } else if k == b.len() {
        assert(lex_less_at(b, a, k));
    } else if a[k] < b[k] {
        assert(lex_less_at(a, b, k));
    } else if b[k] < a[k] {
        assert(lex_less_at(b, a, k));
    } else {
        lemma_lex_total_from(a, b, k + 1);
    }
}

/// Of two different runs, one stands before the other.
pub proof fn lemma_lex_less_total(a: Seq<usize>, b: Seq<usize>)
    ensures
        a == b || lex_less(a, b) || lex_less(b, a),
{
    lemma_lex_total_from(a, b, 0);
}

/// Listing the greater run first is a strict weak order.
pub proof fn lemma_descending_is_strict_weak()
    ensures
        crate::sorting::is_strict_weak(descending()),
{
    let d = descending();
    assert forall|a: Seq<usize>, b: Seq<usize>| #[trigger] d(a, b) implies !d(b, a) by {
        lemma_lex_less_asymmetric(b, a);
    }
    assert forall|a: Seq<usize>, b: Seq<usize>, c: Seq<usize>|
        !#[trigger] d(a, b) && !#[trigger] d(b, c) implies !d(a, c) by {
        // a <= b and b <= c, so a <= c
        lemma_lex_less_total(a, b);
        lemma_lex_less_total(b, c);
        if lex_less(c, a) {
            if a == b {
            } else if b == c {
            } else {
                lemma_lex_less_transitive(b, c, a);
                lemma_lex_less_asymmetric(a, b);
            }
        }
    }
}

/// A size put behind a run adds to its total.
pub proof fn lemma_run_total_push(run: Seq<usize>, size: usize)
    ensures
        run_total(run.push(size)) == run_total(run) + size,
{
    assert(run.push(size).drop_last() =~= run);
}

/// The total of two runs put together is the sum of their totals.
pub proof fn lemma_run_total_concat(a: Seq<usize>, b: Seq<usize>)
    ensures
        run_total(a + b) == run_total(a) + run_total(b),
    decreases b.len(),
{
    if b.len() == 0 {
        assert(a + b =~= a);
    } else {
        lemma_run_total_concat(a, b.drop_last());
        assert((a + b).drop_last() =~= a + b.drop_last());
    }
}

/// A run put behind a shape adds to its total.
pub proof fn lemma_shape_total_push(shape: Seq<Seq<usize>>, run: Seq<usize>)
    ensures
        shape_total(shape.push(run)) == shape_total(shape) + run_total(run),
{
    assert(shape.push(run).drop_last() =~= shape);
}

/// The total of two shapes put together is the sum of their totals.
pub proof fn lemma_shape_total_concat(a: Seq<Seq<usize>>, b: Seq<Seq<usize>>)
    ensures
        shape_total(a + b) == shape_total(a) + shape_total(b),
    decreases b.len(),
{
    if b.len() == 0 {
        assert(a + b =~= a);
    } else {
        lemma_shape_total_concat(a, b.drop_last());
        assert((a + b).drop_last() =~= a + b.drop_last());
    }
}

/// Whether `a` is listed before `b`, that is whether `a` is the greater run.
pub fn run_precedes(a: &Vec<usize>, b: &Vec<usize>) -> (r: bool)
    ensures
        r == lex_less(b@, a@),
{
    let mut i: usize = 0;
    while i < a.len() && i < b.len()
        invariant
            i <= a.len(),
            i <= b.len(),
            forall|j: int| 0 <= j < i ==> a@[j] == b@[j],
        decreases a.len() - i,
    {
        if a[i] != b[i] {
            let r = a[i] > b[i];
            proof {
                if r {
                    assert(lex_less_at(b@, a@, i as int));
                } else {
                    assert(lex_less_at(a@, b@, i as int));
                    lemma_lex_less_asymmetric(a@, b@);
                }
            }
            return r;
        }
        i = i + 1;
    }
    proof {
        if b.len() < a.len() {
            assert(lex_less_at(b@, a@, i as int));
        } else if a.len() < b.len() {
            assert(lex_less_at(a@, b@, i as int));
            lemma_lex_less_asymmetric(a@, b@);
        } else {
            assert(a@ =~= b@);
            lemma_lex_less_irreflexive(a@);
        }
    }
    b.len() < a.len()
}

/// Whether two runs hold the same sizes in the same order.
pub fn same_run(a: &Vec<usize>, b: &Vec<usize>) -> (r: bool)
    ensures
        r == (a@ == b@),
{
    if a.len() != b.len() {
        return false;
    }
    let mut i: usize = 0;
    while i < a.len()
        invariant
            a.len() == b.len(),
            i <= a.len(),
            forall|j: int| 0 <= j < i ==> a@[j] == b@[j],
        decreases a.len() - i,
    {
        if a[i] != b[i] {
            return false;
        }
        i = i + 1;
    }
    assert(a@ =~= b@);
    true
}

/// Whether two shapes hold the same runs in the same order.
pub fn same_runs(a: &Vec<Vec<usize>>, b: &Vec<Vec<usize>>) -> (r: bool)
    ensures
        r == (a.deep_view() == b.deep_view()),
{
    if a.len() != b.len() {
        assert(a.deep_view().len() != b.deep_view().len());
        return false;
    }
    let mut i: usize = 0;
    while i < a.len()
        invariant
            a.len() == b.len(),
            i <= a.len(),
            forall|j: int| 0 <= j < i ==> a@[j]@ == b@[j]@,
        decreases a.len() - i,
    {
        if !same_run(&a[i], &b[i]) {
            assert(a.deep_view()[i as int] == a@[i as int]@);
            assert(b.deep_view()[i as int] == b@[i as int]@);
            return false;
        }
        i = i + 1;
    }
    assert(a.deep_view() =~= b.deep_view());
    true
}

/// A copy of a run.
pub fn copy_run(run: &Vec<usize>) -> (r: Vec<usize>)
    ensures
        r@ == run@,
{
    let mut out: Vec<usize> = Vec::with_capacity(run.len());
    let mut i: usize = 0;
    while i < run.len()
        invariant
            i <= run.len(),
            out@ == run@.take(i as int),
        decreases run.len() - i,
    {
        out.push(run[i]);
        assert(run@.take(i as int + 1) =~= run@.take(i as int).push(run@[i as int]));
        i = i + 1;
    }
    assert(run@.take(run.len() as int) =~= run@);
    out
}

/// A copy of a shape.
pub fn copy_shape(shape: &Vec<Vec<usize>>) -> (r: Vec<Vec<usize>>)
    ensures
        r.deep_view() == shape.deep_view(),
{
    let mut out: Vec<Vec<usize>> = Vec::with_capacity(shape.len());
    let mut i: usize = 0;
    while i < shape.len()
        invariant
            i <= shape.len(),
            out.len() == i,
            forall|j: int| 0 <= j < i ==> out@[j]@ == shape@[j]@,
        decreases shape.len() - i,
    {
        out.push(copy_run(&shape[i]));
        i = i + 1;
    }
    assert(out.deep_view() =~= shape.deep_view());
    out
}

/// The total of a run is not negative.
pub proof fn lemma_run_total_nonnegative(run: Seq<usize>)
    ensures
        run_total(run) >= 0,
    decreases run.len(),
{
    if run.len() > 0 {
        lemma_run_total_nonnegative(run.drop_last());
    }
}

/// The number of cards in `run`.
pub fn total_of(run: &Vec<usize>) -> (r: usize)
    requires
        run_total(run@) <= usize::MAX,
    ensures
        r == run_total(run@),
{
    let mut sum: usize = 0;
    let mut i: usize = 0;
    while i < run.len()
        invariant
            i <= run.len(),
            run_total(run@) <= usize::MAX,
            sum == run_total(run@.take(i as int)),
        decreases run.len() - i,
    {
        proof {
            let next = run@.take(i as int + 1);
            assert(next.drop_last() =~= run@.take(i as int));
            assert(run@ =~= next + run@.skip(i as int + 1));
            lemma_run_total_concat(next, run@.skip(i as int + 1));
            lemma_run_total_nonnegative(run@.skip(i as int + 1));
        }
        sum = sum + run[i];
        i = i + 1;
    }
    assert(run@.take(run.len() as int) =~= run@);
    sum
}

/// A size put into a run adds to its total.
pub proof fn lemma_run_total_insert(run: Seq<usize>, at: int, size: usize)
    requires
        0 <= at <= run.len(),
    ensures
        run_total(run.insert(at, size)) == run_total(run) + size,
{
    assert(run.insert(at, size) =~= run.take(at).push(size) + run.skip(at));
    assert(run =~= run.take(at) + run.skip(at));
    lemma_run_total_concat(run.take(at).push(size), run.skip(at));
    lemma_run_total_concat(run.take(at), run.skip(at));
    lemma_run_total_push(run.take(at), size);
}

/// A run put into a shape adds to its total.
pub proof fn lemma_shape_total_insert(shape: Seq<Seq<usize>>, at: int, run: Seq<usize>)
    requires
        0 <= at <= shape.len(),
    ensures
        shape_total(shape.insert(at, run)) == shape_total(shape) + run_total(run),
{
    assert(shape.insert(at, run) =~= shape.take(at).push(run) + shape.skip(at));
    assert(shape =~= shape.take(at) + shape.skip(at));
    lemma_shape_total_concat(shape.take(at).push(run), shape.skip(at));
    lemma_shape_total_concat(shape.take(at), shape.skip(at));
    lemma_shape_total_push(shape.take(at), run);
}

/// Sorting the sizes of a run keeps its total.
pub proof fn lemma_sorted_run_total(run: Seq<usize>, precedes: spec_fn(usize, usize) -> bool)
    ensures
        run_total(crate::sorting::stable_sort(run, precedes)) == run_total(run),
    decreases run.len(),
{
    if run.len() > 0 {
        let sorted = crate::sorting::stable_sort(run.drop_last(), precedes);
        lemma_sorted_run_total(run.drop_last(), precedes);
        crate::sorting::lemma_insert_behind_slot(sorted, run.last(), precedes);
        lemma_run_total_insert(
            sorted,
            crate::sorting::slot_of(sorted, run.last(), precedes),
            run.last(),
        );
    }
}

/// Sorting the runs of a shape keeps its total.
pub proof fn lemma_sorted_shape_total(
    shape: Seq<Seq<usize>>,
    precedes: spec_fn(Seq<usize>, Seq<usize>) -> bool,
)
    ensures
        shape_total(crate::sorting::stable_sort(shape, precedes)) == shape_total(shape),
    decreases shape.len(),
{
    if shape.len() > 0 {
        let sorted = crate::sorting::stable_sort(shape.drop_last(), precedes);
        lemma_sorted_shape_total(shape.drop_last(), precedes);
        crate::sorting::lemma_insert_behind_slot(sorted, shape.last(), precedes);
        lemma_shape_total_insert(
            sorted,
            crate::sorting::slot_of(sorted, shape.last(), precedes),
            shape.last(),
        );
    }
}

/// Runs that hold the same sizes equally often have the same total.
pub proof fn lemma_rearranged_run_total(a: Seq<usize>, b: Seq<usize>)
    requires
        a.to_multiset() == b.to_multiset(),
    ensures
        run_total(a) == run_total(b),
    decreases a.len(),
{
    broadcast use vstd::seq_lib::group_to_multiset_ensures;

    if a.len() == 0 {
        assert(b.to_multiset().len() == 0);
        assert(b =~= Seq::<usize>::empty());
    } else {
        let x = a.last();
        assert(a.drop_last().push(x) =~= a);
        assert(b.to_multiset().count(x) > 0);
        assert(b.contains(x));
        let j = choose|j: int| 0 <= j < b.len() && b[j] == x;
        let rest = b.remove(j);
        assert(rest.insert(j, x) =~= b);
        assert(a.drop_last().to_multiset() =~= a.to_multiset().remove(x));
        assert(rest.to_multiset() =~= b.to_multiset().remove(x));
        lemma_rearranged_run_total(a.drop_last(), rest);
        lemma_run_total_insert(rest, j, x);
    }
}

/// Shapes whose runs have the same totals, place by place, have the same total.
pub proof fn lemma_shape_total_by_runs(a: Seq<Seq<usize>>, b: Seq<Seq<usize>>)
    requires
        a.len() == b.len(),
        forall|i: int| 0 <= i < a.len() ==> run_total(#[trigger] a[i]) == run_total(b[i]),
    ensures
        shape_total(a) == shape_total(b),
    decreases a.len(),
{
    if a.len() > 0 {
        assert forall|i: int| 0 <= i < a.drop_last().len() implies run_total(
            #[trigger] a.drop_last()[i],
        ) == run_total(b.drop_last()[i]) by {
            assert(a.drop_last()[i] == a[i]);
            assert(b.drop_last()[i] == b[i]);
        }
        lemma_shape_total_by_runs(a.drop_last(), b.drop_last());
        assert(run_total(a[a.len() - 1]) == run_total(b[a.len() - 1]));
    }
}

/// A size added to a run of a shape adds to the total of the shape.
pub proof fn lemma_shape_total_join(shape: Seq<Seq<usize>>, at: int, size: usize)
    requires
        0 <= at < shape.len(),
    ensures
        shape_total(shape.update(at, shape[at].push(size))) == shape_total(shape) + size,
    decreases shape.len(),
{
    let now = shape.update(at, shape[at].push(size));
    if at == shape.len() - 1 {
        assert(now.drop_last() =~= shape.drop_last());
        lemma_run_total_push(shape[at], size);
    } else {
        lemma_shape_total_join(shape.drop_last(), at, size);
        assert(now.drop_last() =~= shape.drop_last().update(at, shape[at].push(size)));
    }
}

/// A run as it is played: it is not empty, and none of its sizes is 0.
pub open spec fn is_proper_run(run: Seq<usize>) -> bool {
    &&& run.len() >= 1
    &&& forall|i: int| 0 <= i < run.len() ==> #[trigger] run[i] >= 1
}

/// A shape as it is played: each of its runs is a run as it is played.
pub open spec fn is_proper(shape: Seq<Seq<usize>>) -> bool {
    forall|r: int| 0 <= r < shape.len() ==> is_proper_run(#[trigger] shape[r])
}

/// A run that holds the sizes of a proper run, each as often, is proper.
pub proof fn lemma_rearranged_run_is_proper(a: Seq<usize>, b: Seq<usize>)
    requires
        a.to_multiset() == b.to_multiset(),
        is_proper_run(b),
    ensures
        is_proper_run(a),
{
    broadcast use vstd::seq_lib::group_to_multiset_ensures;

    assert(a.len() == b.len()) by {
        assert(a.to_multiset().len() == a.len());
        assert(b.to_multiset().len() == b.len());
    }
    assert forall|i: int| 0 <= i < a.len() implies #[trigger] a[i] >= 1 by {
        assert(a.to_multiset().count(a[i]) > 0);
        assert(b.contains(a[i]));
    }
}

/// Sorting the sizes of a proper run leaves it proper.
pub proof fn lemma_sorted_run_is_proper(run: Seq<usize>, precedes: spec_fn(usize, usize) -> bool)
    requires
        is_proper_run(run),
    ensures
        is_proper_run(crate::sorting::stable_sort(run, precedes)),
{
    crate::sorting::lemma_stable_sort_rearranges(run, precedes);
    lemma_rearranged_run_is_proper(crate::sorting::stable_sort(run, precedes), run);
}

/// Sorting the runs of a proper shape leaves it proper.
pub proof fn lemma_sorted_shape_is_proper(
    shape: Seq<Seq<usize>>,
    precedes: spec_fn(Seq<usize>, Seq<usize>) -> bool,
)
    requires
        is_proper(shape),
    ensures
        is_proper(crate::sorting::stable_sort(shape, precedes)),
{
    let sorted = crate::sorting::stable_sort(shape, precedes);
    crate::sorting::lemma_stable_sort_contains(shape, precedes);
    assert forall|r: int| 0 <= r < sorted.len() implies is_proper_run(#[trigger] sorted[r]) by {
        assert(sorted.contains(sorted[r]));
        assert(shape.contains(sorted[r]));
    }
}

} // verus!
