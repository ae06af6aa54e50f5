//! Lemmas about the deep views of vectors.

use vstd::prelude::*;

verus! {

/// Pushing an item onto a vector pushes the item's view onto the vector's
/// deep view.
pub proof fn lemma_deep_view_push<T: DeepView>(before: Seq<T>, after: Vec<T>, item: T)
    requires
        after@ == before.push(item),
    ensures
        after.deep_view() == Seq::new(before.len(), |i: int| before[i].deep_view()).push(
            item.deep_view(),
        ),
{
    assert(after.deep_view() =~= Seq::new(before.len(), |i: int| before[i].deep_view()).push(
        item.deep_view(),
    ));
}

/// Dropping the last item of a vector drops the last item of its deep view.
pub proof fn lemma_deep_view_drop_last<T: DeepView>(before: Vec<T>, after: Vec<T>)
    requires
        before.len() > 0,
        after@ == before@.drop_last(),
    ensures
        after.deep_view() == before.deep_view().drop_last(),
{
    assert(after.deep_view() =~= before.deep_view().drop_last());
}

/// The deep view of two vectors in a row is their deep views in a row.
pub proof fn lemma_deep_view_concat<T: DeepView>(first: Vec<T>, second: Vec<T>, both: Vec<T>)
    requires
        both@ == first@ + second@,
    ensures
        both.deep_view() == first.deep_view() + second.deep_view(),
{
    assert(both.deep_view() =~= first.deep_view() + second.deep_view());
}

/// Inserting an item into a vector inserts its view into the deep view.
pub proof fn lemma_deep_view_insert<T: DeepView>(before: Vec<T>, after: Vec<T>, at: int, item: T)
    requires
        0 <= at <= before.len(),
        after@ == before@.insert(at, item),
    ensures
        after.deep_view() == before.deep_view().insert(at, item.deep_view()),
{
    assert(after.deep_view() =~= before.deep_view().insert(at, item.deep_view()));
}

} // verus!
