use vstd::prelude::*;

verus! {

/// The deep view of a run is its view.
pub proof fn lemma_run_view(run: Vec<usize>)
    ensures
        run.deep_view() == run@,
{
    assert(run.deep_view() =~= run@);
}

/// The deep view of a shape lists the views of its runs.
pub proof fn lemma_shape_view(shape: Vec<Vec<usize>>)
    ensures
        shape.deep_view().len() == shape@.len(),
        forall|i: int| 0 <= i < shape@.len() ==> #[trigger] shape.deep_view()[i] == shape@[i]@,
{
    assert forall|i: int| 0 <= i < shape@.len() implies #[trigger] shape.deep_view()[i]
        == shape@[i]@ by {
        lemma_run_view(shape@[i]);
    }
}

/// A run pushed onto a shape is pushed onto its deep view.
pub proof fn lemma_shape_view_push(before: Vec<Vec<usize>>, after: Vec<Vec<usize>>, run: Vec<usize>)
    requires
        after@ == before@.push(run),
    ensures
        after.deep_view() == before.deep_view().push(run@),
{
    lemma_shape_view(before);
    lemma_shape_view(after);
    assert(after.deep_view() =~= before.deep_view().push(run@));
}

/// What a list of runs holds: the view of each run.
pub open spec fn run_model() -> spec_fn(Vec<usize>) -> Seq<usize> {
    |run: Vec<usize>| run@
}

/// What a list of shapes holds: the deep view of each shape.
pub open spec fn shape_model() -> spec_fn(Vec<Vec<usize>>) -> Seq<Seq<usize>> {
    |shape: Vec<Vec<usize>>| shape.deep_view()
}

/// The deep view of a list of runs is the list of the runs' views.
pub proof fn lemma_runs_model(runs: Vec<Vec<usize>>)
    ensures
        runs.deep_view() == runs@.map_values(run_model()),
{
    lemma_shape_view(runs);
    assert(runs.deep_view() =~= runs@.map_values(run_model()));
}

/// The deep view of a list of shapes is the list of the shapes' deep views.
pub proof fn lemma_shapes_model(shapes: Vec<Vec<Vec<usize>>>)
    ensures
        shapes.deep_view() == shapes@.map_values(shape_model()),
{
    assert(shapes.deep_view() =~= shapes@.map_values(shape_model()));
}

/// Pushing an entry onto a vector pushes its deep view onto the vector's deep view.
pub proof fn lemma_deep_view_push<T: DeepView>(before: Vec<T>, after: Vec<T>, entry: T)
    requires
        after@ == before@.push(entry),
    ensures
        after.deep_view() == before.deep_view().push(entry.deep_view()),
{
    assert(after.deep_view() =~= before.deep_view().push(entry.deep_view()));
}

/// Replacing an entry of a vector replaces its deep view in the vector's deep view.
pub proof fn lemma_deep_view_update<T: DeepView>(before: Vec<T>, after: Vec<T>, i: int, entry: T)
    requires
        0 <= i < before@.len(),
        after@ == before@.update(i, entry),
    ensures
        after.deep_view() == before.deep_view().update(i, entry.deep_view()),
{
    assert(after.deep_view() =~= before.deep_view().update(i, entry.deep_view()));
}

/// Dropping the last entry of a vector drops it from the vector's deep view.
pub proof fn lemma_deep_view_drop_last<T: DeepView>(before: Vec<T>, after: Vec<T>)
    requires
        before@.len() > 0,
        after@ == before@.drop_last(),
    ensures
        after.deep_view() == before.deep_view().drop_last(),
        before.deep_view().last() == before@.last().deep_view(),
{
    assert(after.deep_view() =~= before.deep_view().drop_last());
}

} // verus!
