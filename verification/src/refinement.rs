use crate::memo::Memo;
use crate::sizes::{copy_run, copy_shape, same_run, PlayRequirements};
use crate::sorting::sort_stably;
use vstd::prelude::*;

verus! {

/// Some run of `shape` is empty.
pub open spec fn has_empty_run(shape: Seq<Seq<usize>>) -> bool {
    exists|i: int| 0 <= i < shape.len() && (#[trigger] shape[i]).len() == 0
}

/// The canonical form of a run: its sizes, the greatest first.
pub open spec fn canonical_run(run: Seq<usize>) -> Seq<usize> {
    crate::sorting::stable_sort(run, crate::sizes::larger_first())
}

/// The entries of `list` behind the first one that equals `shape`; none where no entry
/// does.
pub open spec fn after_first(list: Seq<Seq<Seq<usize>>>, shape: Seq<Seq<usize>>) -> Seq<
    Seq<Seq<usize>>,
>
    decreases list.len(),
{
    if list.len() == 0 {
        list
    } else if list[0] == shape {
        list.drop_first()
    } else {
        after_first(list.drop_first(), shape)
    }
}

/// The refinements of `run`: the shapes that the cards of `run` can take and that are
/// less demanding than `run` played as it is, the nearest first.
pub open spec fn refinements(run: Seq<usize>) -> Seq<Seq<Seq<usize>>> {
    after_first(crate::decomposition::full_decompositions(crate::sizes::run_total(run) as nat), seq![run])
}

/// How many refinements the run with index `index` has left.
pub open spec fn queue_length(queues: Seq<Seq<Seq<Seq<usize>>>>, index: usize) -> nat {
    if index < queues.len() {
        queues[index as int].len()
    } else {
        0
    }
}

/// The order in which the runs are refined: the one with more refinements left first.
pub open spec fn longest_queue_first(queues: Seq<Seq<Seq<Seq<usize>>>>) -> spec_fn(
    usize,
    usize,
) -> bool {
    |a: usize, b: usize| queue_length(queues, a) > queue_length(queues, b)
}

/// The number of refinements that are left in all.
pub open spec fn pending(queues: Seq<Seq<Seq<Seq<usize>>>>) -> nat
    decreases queues.len(),
{
    if queues.len() == 0 {
        0
    } else {
        pending(queues.drop_last()) + queues.last().len()
    }
}

/// Whether the state may be given out. A run of several sizes may stand only for an index
/// that is allowed one.
pub open spec fn admissible(
    order: Seq<usize>,
    current: Seq<Seq<Seq<usize>>>,
    allowed: Seq<bool>,
) -> bool {
    forall|p: int, r: int|
        0 <= p < order.len() && 0 <= r < current[order[p] as int].len() ==> (
        #[trigger] current[order[p] as int][r]).len() == 1 || allowed[#[trigger] order[p] as int]
}

/// The runs that stand for the indices of `order`, in that order.
pub open spec fn gathered(order: Seq<usize>, current: Seq<Seq<Seq<usize>>>) -> Seq<Seq<usize>>
    decreases order.len(),
{
    if order.len() == 0 {
        Seq::empty()
    } else {
        gathered(order.drop_last(), current) + current[order.last() as int]
    }
}

/// Taking one refinement from a queue leaves one refinement less.
pub proof fn lemma_pending_after_take(queues: Seq<Seq<Seq<Seq<usize>>>>, index: int)
    requires
        0 <= index < queues.len(),
        queues[index].len() > 0,
    ensures
        pending(queues.update(index, queues[index].drop_first())) == pending(queues) - 1,
    decreases queues.len(),
{
    let next = queues.update(index, queues[index].drop_first());
    if index == queues.len() - 1 {
        assert(next.drop_last() =~= queues.drop_last());
    } else {
        lemma_pending_after_take(queues.drop_last(), index);
        assert(next.drop_last() =~= queues.drop_last().update(
            index,
            queues[index].drop_first(),
        ));
    }
}

/// The shapes given out from a state on. The indices are sorted stably, longest queue
/// first. If the first index has nothing left, the walk is over. Else its next refinement
/// replaces what stood for it; the state is given out if it is admissible, as the canonical
/// form of all the runs that now stand; and the walk goes on.
pub open spec fn walk(
    order: Seq<usize>,
    queues: Seq<Seq<Seq<Seq<usize>>>>,
    current: Seq<Seq<Seq<usize>>>,
    allowed: Seq<bool>,
) -> Seq<Seq<Seq<usize>>>
    decreases pending(queues),
{
    let order = crate::sorting::stable_sort(order, longest_queue_first(queues));
    if order.len() == 0 || queue_length(queues, order[0]) == 0 {
        Seq::empty()
    } else {
        let index = order[0] as int;
        let queues_left = queues.update(index, queues[index].drop_first());
        let current_now = current.update(index, queues[index][0]);
        proof {
            lemma_pending_after_take(queues, index);
        }
        let rest = walk(order, queues_left, current_now, allowed);
        if admissible(order, current_now, allowed) {
            seq![crate::runs::canonical(gathered(order, current_now))] + rest
        } else {
            rest
        }
    }
}

/// The runs of `shape`, each in canonical form.
pub open spec fn canonical_runs_of(shape: Seq<Seq<usize>>) -> Seq<Seq<usize>> {
    Seq::new(shape.len(), |i: int| canonical_run(shape[i]))
}

/// The walk from `runs`, where `lists[i]` lists the shapes that the cards of run `i` can
/// take. At the beginning the indices stand in their order; each run stands as it is, has
/// for refinements what `lists` holds for it behind the run itself, and is allowed a run
/// of several sizes if new adjacency is allowed or it is such a run itself.
pub open spec fn walk_with(
    runs: Seq<Seq<usize>>,
    lists: Seq<Seq<Seq<Seq<usize>>>>,
    allow_new_adjacency: bool,
) -> Seq<Seq<Seq<usize>>> {
    walk(
        Seq::new(runs.len(), |i: int| i as usize),
        Seq::new(runs.len(), |i: int| after_first(lists[i], seq![runs[i]])),
        Seq::new(runs.len(), |i: int| seq![runs[i]]),
        Seq::new(runs.len(), |i: int| allow_new_adjacency || runs[i].len() > 1),
    )
}

/// For each run, the shapes that its cards can take.
pub open spec fn decompositions_of_runs(runs: Seq<Seq<usize>>) -> Seq<Seq<Seq<Seq<usize>>>> {
    Seq::new(
        runs.len(),
        |i: int| crate::decomposition::full_decompositions(crate::sizes::run_total(runs[i]) as nat),
    )
}

/// The walk from `runs`, each run with all its refinements left.
pub open spec fn walk_from(runs: Seq<Seq<usize>>, allow_new_adjacency: bool) -> Seq<
    Seq<Seq<usize>>,
> {
    walk_with(runs, decompositions_of_runs(runs), allow_new_adjacency)
}

/// The shapes that may follow `shape`, in the order in which they are reached by refining
/// one run at a time. A shape with an empty run is followed by nothing.
pub open spec fn subsequent_decompositions(
    shape: Seq<Seq<usize>>,
    allow_new_adjacency: bool,
) -> Seq<Seq<Seq<usize>>> {
    if has_empty_run(shape) {
        Seq::empty()
    } else {
        walk_from(canonical_runs_of(shape), allow_new_adjacency)
    }
}

/// Whether some run of `shape` is empty.
pub fn has_empty(shape: &Vec<Vec<usize>>) -> (r: bool)
    ensures
        r == has_empty_run(shape.deep_view()),
{
    proof {
        crate::views::lemma_shape_view(*shape);
    }
    let mut i: usize = 0;
    while i < shape.len()
        invariant
            i <= shape.len(),
            shape.deep_view().len() == shape@.len(),
            forall|j: int| 0 <= j < shape@.len() ==> #[trigger] shape.deep_view()[j] == shape@[j]@,
            forall|j: int| 0 <= j < i ==> (#[trigger] shape.deep_view()[j]).len() != 0,
        decreases shape.len() - i,
    {
        if shape[i].len() == 0 {
            assert(shape.deep_view()[i as int].len() == 0);
            return true;
        }
        i = i + 1;
    }
    false
}

/// Whether the size `a` is listed before `b` in a canonical run.
fn size_precedes(a: &usize, b: &usize) -> (r: bool)
    ensures
        r == crate::sizes::larger_first()(*a, *b),
{
    *a > *b
}

/// The sizes of `run`, the greatest first.
fn sort_sizes(run: Vec<usize>) -> (r: Vec<usize>)
    ensures
        r@ == canonical_run(run@),
{
    let sorted = sort_stably::<usize, usize, _>(
        run,
        size_precedes,
        Ghost(crate::sorting::itself()),
        Ghost(crate::sizes::larger_first()),
    );
    proof {
        assert(run@.map_values(crate::sorting::itself()) =~= run@);
        assert(sorted@.map_values(crate::sorting::itself()) =~= sorted@);
    }
    sorted
}

/// The runs of `shape`, each with its sizes sorted, the greatest first.
pub fn sort_each_run(shape: Vec<Vec<usize>>) -> (r: Vec<Vec<usize>>)
    ensures
        r.deep_view() == canonical_runs_of(shape.deep_view()),
{
    let ghost given = shape.deep_view();
    let mut out: Vec<Vec<usize>> = Vec::new();
    proof {
        crate::views::lemma_shape_view(shape);
    }
    for run in it: shape
        invariant
            it.seq().len() == given.len(),
            forall|i: int| 0 <= i < given.len() ==> (#[trigger] it.seq()[i])@ == given[i],
            out.len() == it.index(),
            forall|i: int| 0 <= i < it.index() ==> (#[trigger] out@[i])@ == canonical_run(given[i]),
    {
        out.push(sort_sizes(run));
    }
    proof {
        crate::views::lemma_shape_view(out);
        assert(out.deep_view() =~= canonical_runs_of(given));
    }
    out
}

/// The shapes of `shapes`, the last first.
fn reversed(shapes: Vec<Vec<Vec<usize>>>) -> (r: Vec<Vec<Vec<usize>>>)
    ensures
        r.deep_view() == shapes.deep_view().reverse(),
{
    let ghost given = shapes.deep_view();
    let mut left = shapes;
    let mut out: Vec<Vec<Vec<usize>>> = Vec::new();
    while left.len() > 0
        invariant
            left.len() <= given.len(),
            out.len() == given.len() - left.len(),
            left.deep_view() == given.take(left.len() as int),
            forall|i: int|
                0 <= i < out.len() ==> (#[trigger] out@[i]).deep_view() == given[given.len() - 1
                    - i],
        decreases left.len(),
    {
        let ghost before = left;
        let shape = left.pop().unwrap();
        proof {
            crate::views::lemma_deep_view_drop_last(before, left);
            assert(given.take(before.len() as int).drop_last() =~= given.take(left.len() as int));
        }
        out.push(shape);
    }
    assert(out.deep_view() =~= given.reverse());
    out
}

/// What `decomp` lists behind the shape that is `run` alone, the last first, so that the
/// next one can be taken off the end.
fn queue_after(decomp: Vec<Vec<Vec<usize>>>, run: &Vec<usize>) -> (r: Vec<Vec<Vec<usize>>>)
    ensures
        r.deep_view() == after_first(decomp.deep_view(), seq![run@]).reverse(),
{
    let ghost full = decomp.deep_view();
    let mut queue = reversed(decomp);
    let ghost mut taken: int = 0;
    proof {
        assert(full.skip(0) =~= full);
    }
    loop
        invariant_except_break
            0 <= taken <= full.len(),
            queue.deep_view() == full.skip(taken).reverse(),
            after_first(full, seq![run@]) == after_first(full.skip(taken), seq![run@]),
        ensures
            queue.deep_view() == after_first(full, seq![run@]).reverse(),
        decreases full.len() - taken,
    {
        let ghost before = queue;
        match queue.pop() {
            Some(shape) => {
                proof {
                    crate::views::lemma_deep_view_drop_last(before, queue);
                    assert(full.skip(taken).reverse().drop_last() =~= full.skip(
                        taken + 1,
                    ).reverse());
                    assert(shape.deep_view() == full.skip(taken)[0]);
                    assert(full.skip(taken).drop_first() =~= full.skip(taken + 1));
                    crate::views::lemma_shape_view(shape);
                }
                if shape.len() == 1 && same_run(&shape[0], run) {
                    proof {
                        assert(shape.deep_view() =~= seq![run@]);
                    }
                    break ;
                }
                proof {
                    if shape.deep_view() == seq![run@] {
                        assert(shape.deep_view()[0] == run@);
                    }
                    taken = taken + 1;
                }
            },
            None => {
                proof {
                    assert(full.skip(taken).reverse().len() == 0);
                    assert(full.skip(taken) =~= Seq::empty());
                    assert(queue.deep_view() =~= after_first(full, seq![run@]).reverse());
                }
                break ;
            },
        }
    }
    queue
}

/// How many refinements the run with index `index` has left.
fn left_in(queues: &Vec<Vec<Vec<Vec<usize>>>>, index: usize) -> (r: usize)
    ensures
        r == if index < queues@.len() {
            queues@[index as int]@.len()
        } else {
            0
        },
{
    if index < queues.len() {
        queues[index].len()
    } else {
        0
    }
}

/// Whether the state may be given out.
fn is_admissible(order: &Vec<usize>, current: &Vec<Vec<Vec<usize>>>, allowed: &Vec<bool>) -> (r:
    bool)
    requires
        current.len() == allowed.len(),
        forall|p: int| 0 <= p < order.len() ==> #[trigger] order@[p] < current.len(),
    ensures
        r == admissible(order@, current.deep_view(), allowed@),
{
    let ghost cur = current.deep_view();
    let mut p: usize = 0;
    while p < order.len()
        invariant
            p <= order.len(),
            cur == current.deep_view(),
            current.len() == allowed.len(),
            forall|q: int| 0 <= q < order.len() ==> #[trigger] order@[q] < current.len(),
            forall|q: int, r: int|
                0 <= q < p && 0 <= r < cur[order@[q] as int].len() ==> (
                #[trigger] cur[order@[q] as int][r]).len() == 1 || allowed@[#[trigger] order@[q] as int],
        decreases order.len() - p,
    {
        let index = order[p];
        let runs = &current[index];
        proof {
            crate::views::lemma_shape_view(*runs);
            assert(cur[index as int] == runs.deep_view());
        }
        let mut r: usize = 0;
        while r < runs.len()
            invariant
                r <= runs.len(),
                index == order@[p as int],
                index < allowed.len(),
                index < cur.len(),
                p < order.len(),
                cur == current.deep_view(),
                cur[index as int] == runs.deep_view(),
                runs.deep_view().len() == runs@.len(),
                forall|j: int| 0 <= j < runs@.len() ==> #[trigger] runs.deep_view()[j] == runs@[j]@,
                forall|j: int|
                    0 <= j < r ==> (#[trigger] cur[index as int][j]).len() == 1
                        || allowed@[index as int],
            decreases runs.len() - r,
        {
            if !(runs[r].len() == 1 || allowed[index]) {
                proof {
                    assert(cur[order@[p as int] as int][r as int].len() != 1);
                    assert(!allowed@[order@[p as int] as int]);
                }
                return false;
            }
            r = r + 1;
        }
        p = p + 1;
    }
    true
}

/// The runs that stand for the indices of `order`, in that order.
fn gather(order: &Vec<usize>, current: &Vec<Vec<Vec<usize>>>) -> (r: Vec<Vec<usize>>)
    requires
        forall|p: int| 0 <= p < order.len() ==> #[trigger] order@[p] < current.len(),
    ensures
        r.deep_view() == gathered(order@, current.deep_view()),
{
    let ghost cur = current.deep_view();
    let mut out: Vec<Vec<usize>> = Vec::new();
    let mut p: usize = 0;
    assert(out.deep_view() =~= gathered(order@.take(0), cur));
    while p < order.len()
        invariant
            p <= order.len(),
            cur == current.deep_view(),
            forall|q: int| 0 <= q < order.len() ==> #[trigger] order@[q] < current.len(),
            out.deep_view() == gathered(order@.take(p as int), cur),
        decreases order.len() - p,
    {
        let index = order[p];
        let mut runs = copy_shape(&current[index]);
        let ghost held = out;
        let ghost added = runs;
        out.append(&mut runs);
        proof {
            crate::views::lemma_shape_view(held);
            crate::views::lemma_shape_view(added);
            crate::views::lemma_shape_view(out);
            assert(out.deep_view() =~= held.deep_view() + added.deep_view());
            assert(order@.take(p as int + 1).drop_last() =~= order@.take(p as int));
            assert(order@.take(p as int + 1).last() == index);
        }
        p = p + 1;
    }
    assert(order@.take(order.len() as int) =~= order@);
    out
}

/// The shapes that may follow the shape `adj_reqs`, each less demanding than the one
/// before it is refined from, in the order in which a follower may fall back on them.
///
/// Each run is first put in canonical form. Then the run with the most refinements left
/// is refined by one step, again and again, until no run has a refinement left; after
/// each step the runs that now stand are given out as one shape in canonical form. With
/// `include_new_adjacency` unset, a step is passed over in silence where it leaves a run
/// of several sizes standing for what was a run of one size.
pub fn subsequent_decomposition_ordering(
    adj_reqs: PlayRequirements,
    include_new_adjacency: bool,
) -> (r: Vec<PlayRequirements>)
    requires
        has_empty_run(adj_reqs.deep_view()) || forall|i: int|
            0 <= i < adj_reqs.deep_view().len() ==> 1 <= crate::sizes::run_total(
                #[trigger] adj_reqs.deep_view()[i],
            ) <= usize::MAX,
    ensures
        r.deep_view() == subsequent_decompositions(adj_reqs.deep_view(), include_new_adjacency),
        has_empty_run(adj_reqs.deep_view()) ==> r.len() == 0,
{
    let mut memo = Memo::new();
    memo.subsequent_decomposition_ordering(adj_reqs, include_new_adjacency)
}

/// The walk from the runs `adj_reqs`, where `decomps` lists for each run the shapes that
/// its cards can take: the shapes that are given out, in turn.
pub fn follow(
    adj_reqs: Vec<Vec<usize>>,
    decomps: Vec<Vec<Vec<Vec<usize>>>>,
    include_new_adjacency: bool,
) -> (r: Vec<PlayRequirements>)
    requires
        decomps.len() == adj_reqs.len(),
    ensures
        r.deep_view() == walk_with(
            adj_reqs.deep_view(),
            decomps.deep_view(),
            include_new_adjacency,
        ),
{
    let ghost runs = adj_reqs.deep_view();
    let ghost lists = decomps.deep_view();
    let ghost target = walk_with(runs, lists, include_new_adjacency);
    let mut subsequent_decomps: Vec<Vec<Vec<usize>>> = Vec::new();
    let n = adj_reqs.len();
    proof {
        crate::views::lemma_shape_view(adj_reqs);
    }

    let mut decompositions: Vec<Vec<Vec<Vec<usize>>>> = Vec::with_capacity(n);
    let mut current_decomps: Vec<Vec<Vec<usize>>> = Vec::with_capacity(n);
    let mut can_include_new_adjacency: Vec<bool> = Vec::with_capacity(n);
    let mut h: Vec<usize> = Vec::with_capacity(n);
    for decomp in it: decomps
        invariant
            n == adj_reqs.len(),
            n == lists.len(),
            it.seq().len() == lists.len(),
            forall|j: int| 0 <= j < lists.len() ==> (#[trigger] it.seq()[j]).deep_view() == lists[j],
            runs == adj_reqs.deep_view(),
            forall|j: int| 0 <= j < n ==> #[trigger] runs[j] == adj_reqs@[j]@,
            decompositions.len() == it.index(),
            current_decomps.len() == it.index(),
            can_include_new_adjacency.len() == it.index(),
            h.len() == it.index(),
            forall|j: int|
                0 <= j < it.index() ==> (#[trigger] decompositions@[j]).deep_view() == after_first(
                    lists[j],
                    seq![runs[j]],
                ).reverse(),
            forall|j: int|
                0 <= j < it.index() ==> (#[trigger] current_decomps@[j]).deep_view()
                    == seq![runs[j]],
            forall|j: int|
                0 <= j < it.index() ==> #[trigger] can_include_new_adjacency@[j] == (
                include_new_adjacency || runs[j].len() > 1),
            forall|j: int| 0 <= j < it.index() ==> #[trigger] h@[j] == j,
    {
        let i = h.len();
        let run = &adj_reqs[i];
        proof {
            assert(run@ == runs[i as int]);
        }
        decompositions.push(queue_after(decomp, run));
        let mut standing: Vec<Vec<usize>> = Vec::new();
        standing.push(copy_run(run));
        proof {
            crate::views::lemma_shape_view(standing);
            assert(standing.deep_view() =~= seq![runs[i as int]]);
        }
        current_decomps.push(standing);
        can_include_new_adjacency.push(include_new_adjacency || run.len() > 1);
        h.push(i);
    }

    let ghost mut queues: Seq<Seq<Seq<Seq<usize>>>> = Seq::new(
        n as nat,
        |j: int| after_first(lists[j], seq![runs[j]]),
    );
    proof {
        assert(h@ =~= Seq::new(n as nat, |j: int| j as usize));
        assert(current_decomps.deep_view() =~= Seq::new(n as nat, |j: int| seq![runs[j]]));
        assert(can_include_new_adjacency@ =~= Seq::new(
            n as nat,
            |j: int| include_new_adjacency || runs[j].len() > 1,
        ));
        assert(target == walk(
            h@,
            queues,
            current_decomps.deep_view(),
            can_include_new_adjacency@,
        ));
        assert(subsequent_decomps.deep_view() =~= Seq::empty());
    }

    loop
        invariant_except_break
            n == decompositions.len(),
            n == current_decomps.len(),
            n == can_include_new_adjacency.len(),
            n == queues.len(),
            forall|j: int|
                0 <= j < n ==> (#[trigger] decompositions@[j]).deep_view()
                    == queues[j].reverse(),
            forall|p: int| 0 <= p < h.len() ==> #[trigger] h@[p] < n,
            subsequent_decomps.deep_view() + walk(
                h@,
                queues,
                current_decomps.deep_view(),
                can_include_new_adjacency@,
            ) == target,
        ensures
            subsequent_decomps.deep_view() == target,
        decreases pending(queues),
    {
        // Refine the run with the most refinements left.
        let q: Ghost<Seq<Seq<Seq<Seq<usize>>>>> = Ghost(queues);
        let ghost unsorted = h@;
        let most_left_first = |a: &usize, b: &usize| -> (res: bool)
            ensures
                res == longest_queue_first(q@)(*a, *b),
            {
                proof {
                    if *a < n {
                        assert(decompositions@[*a as int].deep_view().len() == q@[*a as int].len());
                    }
                    if *b < n {
                        assert(decompositions@[*b as int].deep_view().len() == q@[*b as int].len());
                    }
                }
                left_in(&decompositions, *a) > left_in(&decompositions, *b)
            };
        h = sort_stably::<usize, usize, _>(
            h,
            most_left_first,
            Ghost(crate::sorting::itself()),
            Ghost(longest_queue_first(q@)),
        );
        proof {
            assert(unsorted.map_values(crate::sorting::itself()) =~= unsorted);
            assert(h@.map_values(crate::sorting::itself()) =~= h@);
            crate::sorting::lemma_stable_sort_contains(unsorted, longest_queue_first(q@));
            assert forall|p: int| 0 <= p < h.len() implies #[trigger] h@[p] < n by {
                assert(h@.contains(h@[p]));
                assert(unsorted.contains(h@[p]));
            }
        }
        if h.len() == 0 {
            proof {
                assert(subsequent_decomps.deep_view() + Seq::<Seq<Seq<usize>>>::empty()
                    =~= subsequent_decomps.deep_view());
            }
            break ;
        }
        let idx = h[0];
        let ghost before = decompositions@[idx as int];
        match decompositions[idx].pop() {
            Some(next) => {
                let ghost standing = current_decomps;
                let ghost given = subsequent_decomps;
                current_decomps[idx] = next;
                proof {
                    crate::views::lemma_deep_view_drop_last(before, decompositions@[idx as int]);
                    assert(q@[idx as int].reverse().drop_last() =~= q@[idx as int].drop_first().reverse());
                    assert(next.deep_view() == q@[idx as int][0]);
                    queues = q@.update(idx as int, q@[idx as int].drop_first());
                    lemma_pending_after_take(q@, idx as int);
                    crate::views::lemma_deep_view_update(standing, current_decomps, idx as int, next);
                }
                // Give the state out, unless it holds a run of several sizes where none
                // is allowed.
                let passes = is_admissible(&h, &current_decomps, &can_include_new_adjacency);
                if passes {
                    let full_decomp = crate::runs::sort_runs(gather(&h, &current_decomps));
                    subsequent_decomps.push(full_decomp);
                    proof {
                        crate::views::lemma_deep_view_push(given, subsequent_decomps, full_decomp);
                        let rest = walk(
                            h@,
                            queues,
                            current_decomps.deep_view(),
                            can_include_new_adjacency@,
                        );
                        assert(given.deep_view().push(full_decomp.deep_view()) + rest
                            =~= given.deep_view() + (seq![full_decomp.deep_view()] + rest));
                    }
                }
            },
            None => {
                proof {
                    assert(q@[idx as int].reverse().len() == 0);
                    assert(subsequent_decomps.deep_view() + Seq::<Seq<Seq<usize>>>::empty()
                        =~= subsequent_decomps.deep_view());
                }
                break ;
            },
        }
    }
    subsequent_decomps
}

/// A single card alone has no refinement.
pub proof fn lemma_single_has_no_refinement()
    ensures
        refinements(seq![1usize]) == Seq::<Seq<Seq<usize>>>::empty(),
{
    let one = seq![1usize];
    assert(one.drop_last() =~= Seq::<usize>::empty());
    assert(crate::sizes::run_total(one.drop_last()) == 0);
    assert(crate::sizes::run_total(one) == 1);
    // the partitions of 1
    let parts = crate::partitions::tuple_partitions(1);
    crate::partitions::lemma_tuple_partitions(1);
    crate::decomposition::lemma_full_decompositions_first(1);
    let full = crate::decomposition::full_decompositions(1);
    assert(parts.len() == 1) by {
        if parts.len() > 1 {
            assert(crate::partitions::is_partition(parts[0], 1));
            assert(crate::partitions::is_partition(parts[1], 1));
            crate::partitions::lemma_total_bounds(parts[0]);
            crate::partitions::lemma_total_bounds(parts[1]);
            assert(parts[0] =~= one);
            assert(parts[1] =~= one);
        }
        assert(crate::partitions::is_partition(one, 1));
        assert(parts.contains(one));
    }
    assert(parts[0] =~= one) by {
        assert(crate::partitions::is_partition(parts[0], 1));
        crate::partitions::lemma_total_bounds(parts[0]);
    }
    assert(parts.drop_last() =~= Seq::<Seq<usize>>::empty());
    assert(crate::decomposition::decompositions_of_all(parts.drop_last())
        =~= Seq::<Seq<Seq<usize>>>::empty());
    assert(crate::decomposition::first_single(one.drop_last()) == 0);
    assert(crate::decomposition::first_single(one) == 0);
    assert(crate::decomposition::decompositions_of(one).len() == 1);
    let found = crate::decomposition::decompositions_of_all(parts);
    assert(found.len() == 1);
    crate::sorting::lemma_first_of_each(found, crate::runs::canonical_form());
    assert(full.len() == 1);
    assert(full[0] == seq![one]);
    assert(full.drop_first() =~= Seq::<Seq<Seq<usize>>>::empty());
}

/// A shape of single cards, each a run of its own, is followed by nothing, whether new
/// adjacency is allowed or not.
pub proof fn lemma_singles_are_followed_by_nothing(shape: Seq<Seq<usize>>, allow_new_adjacency: bool)
    requires
        forall|i: int| 0 <= i < shape.len() ==> #[trigger] shape[i] == seq![1usize],
    ensures
        subsequent_decompositions(shape, allow_new_adjacency) == Seq::<Seq<Seq<usize>>>::empty(),
{
    let one = seq![1usize];
    assert(!has_empty_run(shape)) by {
        if has_empty_run(shape) {
            let i = choose|i: int| 0 <= i < shape.len() && (#[trigger] shape[i]).len() == 0;
            assert(shape[i] == one);
        }
    }
    let runs = canonical_runs_of(shape);
    lemma_single_has_no_refinement();
    assert forall|i: int| 0 <= i < runs.len() implies #[trigger] runs[i] == one by {
        assert(shape[i] == one);
        assert(one.drop_last() =~= Seq::<usize>::empty());
        assert(crate::sorting::stable_sort(one.drop_last(), crate::sizes::larger_first())
            =~= Seq::<usize>::empty());
        assert(Seq::<usize>::empty().push(1usize) =~= one);
    }
    let lists = decompositions_of_runs(runs);
    let queues = Seq::new(runs.len(), |i: int| after_first(lists[i], seq![runs[i]]));
    assert forall|i: int| 0 <= i < runs.len() implies #[trigger] queues[i] == refinements(
        runs[i],
    ) by {}
    let order = Seq::new(runs.len(), |i: int| i as usize);
    let sorted = crate::sorting::stable_sort(order, longest_queue_first(queues));
    if sorted.len() > 0 {
        if sorted[0] < queues.len() {
            assert(queues[sorted[0] as int] == refinements(runs[sorted[0] as int]));
            assert(runs[sorted[0] as int] == one);
        }
        assert(queue_length(queues, sorted[0]) == 0);
    }
}

/// The cards that stand for the indices of `order`, counted index by index.
pub open spec fn standing_total(order: Seq<usize>, current: Seq<Seq<Seq<usize>>>) -> int
    decreases order.len(),
{
    if order.len() == 0 {
        0
    } else {
        standing_total(order.drop_last(), current) + crate::sizes::shape_total(
            current[order.last() as int],
        )
    }
}

/// The runs that stand hold as many cards as what stands for each index holds together.
proof fn lemma_gathered_total(order: Seq<usize>, current: Seq<Seq<Seq<usize>>>)
    ensures
        crate::sizes::shape_total(gathered(order, current)) == standing_total(order, current),
    decreases order.len(),
{
    if order.len() > 0 {
        lemma_gathered_total(order.drop_last(), current);
        crate::sizes::lemma_shape_total_concat(
            gathered(order.drop_last(), current),
            current[order.last() as int],
        );
    }
}

/// An index put into the order adds what stands for it.
proof fn lemma_standing_total_insert(
    order: Seq<usize>,
    at: int,
    index: usize,
    current: Seq<Seq<Seq<usize>>>,
)
    requires
        0 <= at <= order.len(),
    ensures
        standing_total(order.insert(at, index), current) == standing_total(order, current)
            + crate::sizes::shape_total(current[index as int]),
    decreases order.len(),
{
    let now = order.insert(at, index);
    if at == order.len() {
        assert(now.drop_last() =~= order);
    } else {
        lemma_standing_total_insert(order.drop_last(), at, index, current);
        assert(now.drop_last() =~= order.drop_last().insert(at, index));
        assert(now.last() == order.last());
    }
}

/// Sorting the indices keeps the number of cards that stand for them.
proof fn lemma_standing_total_sorted(
    order: Seq<usize>,
    precedes: spec_fn(usize, usize) -> bool,
    current: Seq<Seq<Seq<usize>>>,
)
    ensures
        standing_total(crate::sorting::stable_sort(order, precedes), current) == standing_total(
            order,
            current,
        ),
    decreases order.len(),
{
    if order.len() > 0 {
        let sorted = crate::sorting::stable_sort(order.drop_last(), precedes);
        lemma_standing_total_sorted(order.drop_last(), precedes, current);
        crate::sorting::lemma_insert_behind_slot(sorted, order.last(), precedes);
        lemma_standing_total_insert(
            sorted,
            crate::sorting::slot_of(sorted, order.last(), precedes),
            order.last(),
            current,
        );
    }
}

/// The number of cards that stand depends on the number that stands for each index alone.
proof fn lemma_standing_total_by_index(
    order: Seq<usize>,
    a: Seq<Seq<Seq<usize>>>,
    b: Seq<Seq<Seq<usize>>>,
)
    requires
        forall|p: int|
            0 <= p < order.len() ==> crate::sizes::shape_total(a[#[trigger] order[p] as int])
                == crate::sizes::shape_total(b[order[p] as int]),
    ensures
        standing_total(order, a) == standing_total(order, b),
    decreases order.len(),
{
    if order.len() > 0 {
        assert forall|p: int| 0 <= p < order.drop_last().len() implies crate::sizes::shape_total(
            a[#[trigger] order.drop_last()[p] as int],
        ) == crate::sizes::shape_total(b[order.drop_last()[p] as int]) by {
            assert(order.drop_last()[p] == order[p]);
        }
        lemma_standing_total_by_index(order.drop_last(), a, b);
        assert(order.last() == order[order.len() - 1]);
    }
}

/// Every refinement left for an index holds as many cards as what stands for it.
pub open spec fn queues_keep_totals(
    queues: Seq<Seq<Seq<Seq<usize>>>>,
    current: Seq<Seq<Seq<usize>>>,
) -> bool {
    &&& queues.len() == current.len()
    &&& forall|i: int, q: int|
        0 <= i < queues.len() && 0 <= q < queues[i].len() ==> crate::sizes::shape_total(
            #[trigger] queues[i][q],
        ) == crate::sizes::shape_total(current[i])
}

/// A walk over refinements that keep the number of cards gives out shapes of as many
/// cards as stood at its beginning.
pub proof fn lemma_walk_keeps_total(
    order: Seq<usize>,
    queues: Seq<Seq<Seq<Seq<usize>>>>,
    current: Seq<Seq<Seq<usize>>>,
    allowed: Seq<bool>,
    shape: Seq<Seq<usize>>,
)
    requires
        queues_keep_totals(queues, current),
        forall|p: int| 0 <= p < order.len() ==> #[trigger] order[p] < current.len(),
        walk(order, queues, current, allowed).contains(shape),
    ensures
        crate::sizes::shape_total(shape) == standing_total(order, current),
    decreases pending(queues),
{
    let sorted = crate::sorting::stable_sort(order, longest_queue_first(queues));
    lemma_standing_total_sorted(order, longest_queue_first(queues), current);
    crate::sorting::lemma_stable_sort_contains(order, longest_queue_first(queues));
    if sorted.len() == 0 || queue_length(queues, sorted[0]) == 0 {
        assert(walk(order, queues, current, allowed) =~= Seq::<Seq<Seq<usize>>>::empty());
    } else {
        let index = sorted[0] as int;
        let queues_left = queues.update(index, queues[index].drop_first());
        let current_now = current.update(index, queues[index][0]);
        let rest = walk(sorted, queues_left, current_now, allowed);
        lemma_pending_after_take(queues, index);
        assert forall|p: int| 0 <= p < sorted.len() implies #[trigger] sorted[p]
            < current_now.len() by {
            assert(sorted.contains(sorted[p]));
            assert(order.contains(sorted[p]));
            let x = choose|x: int| 0 <= x < order.len() && order[x] == sorted[p];
            assert(order[x] < current.len());
        }
        assert forall|p: int| 0 <= p < sorted.len() implies crate::sizes::shape_total(
            current_now[#[trigger] sorted[p] as int],
        ) == crate::sizes::shape_total(current[sorted[p] as int]) by {
            assert(sorted[p] < current_now.len());
            if sorted[p] == index {
                assert(crate::sizes::shape_total(queues[index][0]) == crate::sizes::shape_total(
                    current[index],
                ));
            }
        }
        lemma_standing_total_by_index(sorted, current_now, current);
        assert(queues_keep_totals(queues_left, current_now)) by {
            assert forall|i: int, q: int|
                0 <= i < queues_left.len() && 0 <= q
                    < queues_left[i].len() implies crate::sizes::shape_total(
                #[trigger] queues_left[i][q],
            ) == crate::sizes::shape_total(current_now[i]) by {
                if i == index {
                    assert(queues_left[i][q] == queues[i][q + 1]);
                    assert(crate::sizes::shape_total(queues[i][0]) == crate::sizes::shape_total(
                        current[i],
                    ));
                } else {
                    assert(queues_left[i][q] == queues[i][q]);
                }
            }
        }
        let given = crate::runs::canonical(gathered(sorted, current_now));
        if admissible(sorted, current_now, allowed) {
            assert(walk(order, queues, current, allowed) == seq![given] + rest);
            vstd::seq_lib::lemma_seq_concat_contains_all_elements(seq![given], rest, shape);
            if seq![given].contains(shape) {
                assert(shape == given);
                crate::sizes::lemma_sorted_shape_total(
                    gathered(sorted, current_now),
                    crate::sizes::descending(),
                );
                lemma_gathered_total(sorted, current_now);
            } else {
                lemma_walk_keeps_total(sorted, queues_left, current_now, allowed, shape);
            }
        } else {
            lemma_walk_keeps_total(sorted, queues_left, current_now, allowed, shape);
        }
    }
}

/// What `after_first` holds stood in the list.
proof fn lemma_after_first_members(list: Seq<Seq<Seq<usize>>>, shape: Seq<Seq<usize>>, i: int)
    requires
        0 <= i < after_first(list, shape).len(),
    ensures
        list.contains(after_first(list, shape)[i]),
    decreases list.len(),
{
    if list.len() > 0 {
        if list[0] == shape {
            assert(list.drop_first()[i] == list[i + 1]);
        } else {
            lemma_after_first_members(list.drop_first(), shape, i);
            let x = after_first(list, shape)[i];
            let j = choose|j: int| 0 <= j < list.drop_first().len() && list.drop_first()[j] == x;
            assert(list[j + 1] == x);
        }
    }
}

/// At the beginning of a walk the runs stand as they are.
proof fn lemma_initial_standing_total(runs: Seq<Seq<usize>>, upto: int)
    requires
        0 <= upto <= runs.len() <= usize::MAX,
    ensures
        standing_total(
            Seq::new(upto as nat, |i: int| i as usize),
            Seq::new(runs.len(), |i: int| seq![runs[i]]),
        ) == crate::sizes::shape_total(runs.take(upto)),
    decreases upto,
{
    let order = Seq::new(upto as nat, |i: int| i as usize);
    let current = Seq::new(runs.len(), |i: int| seq![runs[i]]);
    if upto > 0 {
        lemma_initial_standing_total(runs, upto - 1);
        assert(order.drop_last() =~= Seq::new((upto - 1) as nat, |i: int| i as usize));
        assert(runs.take(upto).drop_last() =~= runs.take(upto - 1));
        assert(runs.take(upto).last() == runs[upto - 1]);
        let alone = seq![runs[upto - 1]];
        assert(current[order.last() as int] == alone);
        assert(alone.drop_last() =~= Seq::<Seq<usize>>::empty());
        assert(crate::sizes::shape_total(alone.drop_last()) == 0);
    }
}

/// Every shape that may follow `shape` holds as many cards as `shape`.
pub proof fn lemma_subsequent_decompositions_keep_total(
    shape: Seq<Seq<usize>>,
    allow_new_adjacency: bool,
    i: int,
)
    requires
        shape.len() <= usize::MAX,
        forall|j: int|
            0 <= j < shape.len() ==> crate::sizes::run_total(#[trigger] shape[j]) <= usize::MAX,
        0 <= i < subsequent_decompositions(shape, allow_new_adjacency).len(),
    ensures
        crate::sizes::shape_total(subsequent_decompositions(shape, allow_new_adjacency)[i])
            == crate::sizes::shape_total(shape),
{
    let runs = canonical_runs_of(shape);
    let n = runs.len();
    let order = Seq::new(n, |j: int| j as usize);
    let lists = decompositions_of_runs(runs);
    let queues = Seq::new(n, |j: int| after_first(lists[j], seq![runs[j]]));
    let current = Seq::new(n, |j: int| seq![runs[j]]);
    let allowed = Seq::new(n, |j: int| allow_new_adjacency || runs[j].len() > 1);
    let result = subsequent_decompositions(shape, allow_new_adjacency);
    assert(result == walk(order, queues, current, allowed));
    assert(result.contains(result[i]));
    assert forall|j: int, q: int|
        0 <= j < queues.len() && 0 <= q < queues[j].len() implies crate::sizes::shape_total(
        #[trigger] queues[j][q],
    ) == crate::sizes::shape_total(current[j]) by {
        let run = runs[j];
        let total = crate::sizes::run_total(run) as nat;
        crate::sizes::lemma_sorted_run_total(shape[j], crate::sizes::larger_first());
        crate::sizes::lemma_run_total_nonnegative(run);
        let full = crate::decomposition::full_decompositions(total);
        lemma_after_first_members(full, seq![run], q);
        let x = choose|x: int| 0 <= x < full.len() && full[x] == queues[j][q];
        crate::decomposition::lemma_full_decompositions_total(total, x);
        let alone = seq![run];
        assert(alone.drop_last() =~= Seq::<Seq<usize>>::empty());
        assert(crate::sizes::shape_total(alone.drop_last()) == 0);
    }
    lemma_walk_keeps_total(order, queues, current, allowed, result[i]);
    lemma_initial_standing_total(runs, n as int);
    assert(runs.take(n as int) =~= runs);
    assert forall|j: int| 0 <= j < runs.len() implies crate::sizes::run_total(#[trigger] runs[j])
        == crate::sizes::run_total(shape[j]) by {
        crate::sizes::lemma_sorted_run_total(shape[j], crate::sizes::larger_first());
    }
    crate::sizes::lemma_shape_total_by_runs(runs, shape);
}

/// Where proper shapes stand for the indices, the runs that stand are a proper shape.
proof fn lemma_gathered_is_proper(order: Seq<usize>, current: Seq<Seq<Seq<usize>>>)
    requires
        forall|p: int| 0 <= p < order.len() ==> #[trigger] order[p] < current.len(),
        forall|i: int| 0 <= i < current.len() ==> crate::sizes::is_proper(#[trigger] current[i]),
    ensures
        crate::sizes::is_proper(gathered(order, current)),
    decreases order.len(),
{
    if order.len() > 0 {
        assert forall|p: int| 0 <= p < order.drop_last().len() implies #[trigger] order.drop_last()[p]
            < current.len() by {
            assert(order.drop_last()[p] == order[p]);
        }
        lemma_gathered_is_proper(order.drop_last(), current);
        let before = gathered(order.drop_last(), current);
        let last = current[order.last() as int];
        assert(order[order.len() - 1] < current.len());
        assert(crate::sizes::is_proper(last));
        assert forall|r: int| 0 <= r < (before + last).len() implies crate::sizes::is_proper_run(
            #[trigger] (before + last)[r],
        ) by {
            if r < before.len() {
                assert((before + last)[r] == before[r]);
            } else {
                assert((before + last)[r] == last[r - before.len()]);
            }
        }
    }
}

/// Everything that stands and everything that is left is a proper shape.
pub open spec fn all_proper(
    queues: Seq<Seq<Seq<Seq<usize>>>>,
    current: Seq<Seq<Seq<usize>>>,
) -> bool {
    &&& queues.len() == current.len()
    &&& forall|i: int| 0 <= i < current.len() ==> crate::sizes::is_proper(#[trigger] current[i])
    &&& forall|i: int, q: int|
        0 <= i < queues.len() && 0 <= q < queues[i].len() ==> crate::sizes::is_proper(
            #[trigger] queues[i][q],
        )
}

/// A walk over proper shapes gives out proper shapes.
pub proof fn lemma_walk_keeps_proper(
    order: Seq<usize>,
    queues: Seq<Seq<Seq<Seq<usize>>>>,
    current: Seq<Seq<Seq<usize>>>,
    allowed: Seq<bool>,
    shape: Seq<Seq<usize>>,
)
    requires
        all_proper(queues, current),
        forall|p: int| 0 <= p < order.len() ==> #[trigger] order[p] < current.len(),
        walk(order, queues, current, allowed).contains(shape),
    ensures
        crate::sizes::is_proper(shape),
    decreases pending(queues),
{
    let sorted = crate::sorting::stable_sort(order, longest_queue_first(queues));
    crate::sorting::lemma_stable_sort_contains(order, longest_queue_first(queues));
    if sorted.len() == 0 || queue_length(queues, sorted[0]) == 0 {
        assert(walk(order, queues, current, allowed) =~= Seq::<Seq<Seq<usize>>>::empty());
    } else {
        let index = sorted[0] as int;
        let queues_left = queues.update(index, queues[index].drop_first());
        let current_now = current.update(index, queues[index][0]);
        let rest = walk(sorted, queues_left, current_now, allowed);
        lemma_pending_after_take(queues, index);
        assert forall|p: int| 0 <= p < sorted.len() implies #[trigger] sorted[p]
            < current_now.len() by {
            assert(sorted.contains(sorted[p]));
            assert(order.contains(sorted[p]));
            let x = choose|x: int| 0 <= x < order.len() && order[x] == sorted[p];
            assert(order[x] < current.len());
        }
        assert(all_proper(queues_left, current_now)) by {
            assert forall|i: int| 0 <= i < current_now.len() implies crate::sizes::is_proper(
                #[trigger] current_now[i],
            ) by {
                if i == index {
                    assert(crate::sizes::is_proper(queues[index][0]));
                } else {
                    assert(current_now[i] == current[i]);
                }
            }
            assert forall|i: int, q: int|
                0 <= i < queues_left.len() && 0 <= q
                    < queues_left[i].len() implies crate::sizes::is_proper(
                #[trigger] queues_left[i][q],
            ) by {
                if i == index {
                    assert(queues_left[i][q] == queues[i][q + 1]);
                } else {
                    assert(queues_left[i][q] == queues[i][q]);
                }
            }
        }
        let given = crate::runs::canonical(gathered(sorted, current_now));
        if admissible(sorted, current_now, allowed) {
            assert(walk(order, queues, current, allowed) == seq![given] + rest);
            vstd::seq_lib::lemma_seq_concat_contains_all_elements(seq![given], rest, shape);
            if seq![given].contains(shape) {
                assert(shape == given);
                lemma_gathered_is_proper(sorted, current_now);
                crate::sizes::lemma_sorted_shape_is_proper(
                    gathered(sorted, current_now),
                    crate::sizes::descending(),
                );
            } else {
                lemma_walk_keeps_proper(sorted, queues_left, current_now, allowed, shape);
            }
        } else {
            lemma_walk_keeps_proper(sorted, queues_left, current_now, allowed, shape);
        }
    }
}

/// Every shape that may follow a proper shape is a proper shape: none of its runs is
/// empty, and none of its sizes is 0.
pub proof fn lemma_subsequent_decompositions_are_proper(
    shape: Seq<Seq<usize>>,
    allow_new_adjacency: bool,
    i: int,
)
    requires
        crate::sizes::is_proper(shape),
        forall|j: int|
            0 <= j < shape.len() ==> crate::sizes::run_total(#[trigger] shape[j]) <= usize::MAX,
        0 <= i < subsequent_decompositions(shape, allow_new_adjacency).len(),
    ensures
        crate::sizes::is_proper(subsequent_decompositions(shape, allow_new_adjacency)[i]),
{
    let runs = canonical_runs_of(shape);
    let n = runs.len();
    let order = Seq::new(n, |j: int| j as usize);
    let lists = decompositions_of_runs(runs);
    let queues = Seq::new(n, |j: int| after_first(lists[j], seq![runs[j]]));
    let current = Seq::new(n, |j: int| seq![runs[j]]);
    let allowed = Seq::new(n, |j: int| allow_new_adjacency || runs[j].len() > 1);
    let result = subsequent_decompositions(shape, allow_new_adjacency);
    assert(result == walk(order, queues, current, allowed));
    assert(result.contains(result[i]));
    assert forall|j: int| 0 <= j < current.len() implies crate::sizes::is_proper(
        #[trigger] current[j],
    ) by {
        assert(crate::sizes::is_proper_run(shape[j]));
        crate::sizes::lemma_sorted_run_is_proper(shape[j], crate::sizes::larger_first());
    }
    assert forall|j: int, q: int|
        0 <= j < queues.len() && 0 <= q < queues[j].len() implies crate::sizes::is_proper(
        #[trigger] queues[j][q],
    ) by {
        let run = runs[j];
        let total = crate::sizes::run_total(run) as nat;
        crate::sizes::lemma_sorted_run_total(shape[j], crate::sizes::larger_first());
        crate::sizes::lemma_run_total_nonnegative(run);
        let full = crate::decomposition::full_decompositions(total);
        lemma_after_first_members(full, seq![run], q);
        let x = choose|x: int| 0 <= x < full.len() && full[x] == queues[j][q];
        crate::decomposition::lemma_full_decompositions_total(total, x);
    }
    lemma_walk_keeps_proper(order, queues, current, allowed, result[i]);
}

/// Two calls of `subsequent_decomposition_ordering` with one shape and one flag give the
/// same list.
pub proof fn lemma_subsequent_decomposition_ordering_is_a_function(
    adj_reqs: PlayRequirements,
    include_new_adjacency: bool,
    first: Vec<PlayRequirements>,
    second: Vec<PlayRequirements>,
)
    requires
        call_ensures(
            subsequent_decomposition_ordering,
            (adj_reqs, include_new_adjacency),
            first,
        ),
        call_ensures(
            subsequent_decomposition_ordering,
            (adj_reqs, include_new_adjacency),
            second,
        ),
    ensures
        first.deep_view() == second.deep_view(),
{
}

/// Every run of `shape` is a run of one size, unless runs of several sizes are allowed.
pub open spec fn may_stand(shape: Seq<Seq<usize>>, allowed: bool) -> bool {
    forall|r: int| 0 <= r < shape.len() ==> (#[trigger] shape[r]).len() == 1 || allowed
}

/// The shapes of `queue` that may stand, in turn, each in canonical form.
pub open spec fn given_out(queue: Seq<Seq<Seq<usize>>>, allowed: bool) -> Seq<Seq<Seq<usize>>>
    decreases queue.len(),
{
    if queue.len() == 0 {
        Seq::empty()
    } else if may_stand(queue[0], allowed) {
        seq![crate::runs::canonical(queue[0])] + given_out(queue.drop_first(), allowed)
    } else {
        given_out(queue.drop_first(), allowed)
    }
}

/// The walk from one run gives out its refinements in turn, as far as they may stand.
pub proof fn lemma_walk_of_one_run(
    queue: Seq<Seq<Seq<usize>>>,
    current: Seq<Seq<usize>>,
    allowed: bool,
)
    ensures
        walk(seq![0usize], seq![queue], seq![current], seq![allowed]) == given_out(
            queue,
            allowed,
        ),
    decreases queue.len(),
{
    reveal_with_fuel(gathered, 3);
    reveal_with_fuel(pending, 3);
    let order = seq![0usize];
    let queues = seq![queue];
    let precedes = longest_queue_first(queues);
    assert(crate::sorting::in_order(order, precedes));
    crate::sorting::lemma_stable_sort_of_ordered(order, precedes);
    if queue.len() > 0 {
        let left = queues.update(0, queues[0].drop_first());
        let now = seq![current].update(0, queues[0][0]);
        assert(left =~= seq![queue.drop_first()]);
        assert(now =~= seq![queue[0]]);
        lemma_walk_of_one_run(queue.drop_first(), queue[0], allowed);
        assert(gathered(order, now) =~= queue[0]);
        assert(admissible(order, now, seq![allowed]) == may_stand(queue[0], allowed)) by {
            if may_stand(queue[0], allowed) {
                assert forall|p: int, r: int|
                    0 <= p < order.len() && 0 <= r < now[order[p] as int].len() implies (
                #[trigger] now[order[p] as int][r]).len() == 1 || seq![allowed][#[trigger] order[p] as int] by {
                    assert(now[order[p] as int] == queue[0]);
                }
            }
            if admissible(order, now, seq![allowed]) {
                assert forall|r: int| 0 <= r < queue[0].len() implies (#[trigger] queue[0][r]).len() == 1 || allowed by {
                    assert(now[order[0] as int][r] == queue[0][r]);
                }
            }
        }
    }
}

/// A shape of one run is followed by the refinements of the run, in turn, each in
/// canonical form; where the run is one size and new adjacency is not allowed, those that
/// hold a run of several sizes are left out.
pub proof fn lemma_one_run_is_followed_by_its_refinements(run: Seq<usize>, allow: bool)
    requires
        run.len() >= 1,
    ensures
        subsequent_decompositions(seq![run], allow) == given_out(
            refinements(canonical_run(run)),
            allow || run.len() > 1,
        ),
{
    let shape = seq![run];
    assert(!has_empty_run(shape)) by {
        if has_empty_run(shape) {
            let i = choose|i: int| 0 <= i < shape.len() && (#[trigger] shape[i]).len() == 0;
            assert(shape[i] == run);
        }
    }
    let sorted = canonical_run(run);
    crate::sorting::lemma_stable_sort_rearranges(run, crate::sizes::larger_first());
    let runs = canonical_runs_of(shape);
    assert(runs =~= seq![sorted]);
    let lists = decompositions_of_runs(runs);
    let queue = refinements(sorted);
    let allowed = allow || run.len() > 1;
    assert(Seq::new(1, |i: int| i as usize) =~= seq![0usize]);
    assert(Seq::new(1, |i: int| after_first(lists[i], seq![runs[i]])) =~= seq![queue]);
    assert(Seq::new(1, |i: int| seq![runs[i]]) =~= seq![seq![sorted]]);
    assert(Seq::new(1, |i: int| allow || runs[i].len() > 1) =~= seq![allowed]);
    lemma_walk_of_one_run(queue, seq![sorted], allowed);
}

/// A run of one size is in canonical form.
pub proof fn lemma_canonical_run_of_one(size: usize)
    ensures
        canonical_run(seq![size]) == seq![size],
{
    let run = seq![size];
    assert(crate::sorting::in_order(run, crate::sizes::larger_first()));
    crate::sorting::lemma_stable_sort_of_ordered(run, crate::sizes::larger_first());
}

} // verus!
