//! Facts about sequences and the deep views of vectors.

use vstd::prelude::*;

verus! {

/// Pushing onto a vector pushes the element's deep view onto the vector's deep view.
pub proof fn lemma_push_deep_view<T: DeepView>(before: Vec<T>, after: Vec<T>, x: T)
    requires
        after@ == before@.push(x),
    ensures
        after.deep_view() == before.deep_view().push(x.deep_view()),
{
    assert(after.deep_view() =~= before.deep_view().push(x.deep_view()));
}

pub proof fn lemma_insert_deep_view<T: DeepView>(before: Vec<T>, after: Vec<T>, i: int, x: T)
    requires
        0 <= i <= before@.len(),
        after@ == before@.insert(i, x),
    ensures
        after.deep_view() == before.deep_view().insert(i, x.deep_view()),
{
    before@.insert_ensures(i, x);
    before.deep_view().insert_ensures(i, x.deep_view());
    assert(after.deep_view() =~= before.deep_view().insert(i, x.deep_view()));
}

pub proof fn lemma_update_deep_view<T: DeepView>(before: Vec<T>, after: Vec<T>, i: int, x: T)
    requires
        0 <= i < before@.len(),
        after@ == before@.update(i, x),
    ensures
        after.deep_view() == before.deep_view().update(i, x.deep_view()),
{
    assert(after.deep_view() =~= before.deep_view().update(i, x.deep_view()));
}

pub proof fn lemma_remove_deep_view<T: DeepView>(before: Vec<T>, after: Vec<T>, i: int)
    requires
        0 <= i < before@.len(),
        after@ == before@.remove(i),
    ensures
        after.deep_view() == before.deep_view().remove(i),
{
    before@.remove_ensures(i);
    before.deep_view().remove_ensures(i);
    assert(after.deep_view() =~= before.deep_view().remove(i));
}

pub proof fn lemma_filter_take_step<A>(s: Seq<A>, p: spec_fn(A) -> bool, i: int)
    requires
        0 <= i < s.len(),
    ensures
        s.take(i + 1).filter(p) == (if p(s[i]) {
            s.take(i).filter(p).push(s[i])
        } else {
            s.take(i).filter(p)
        }),
{
    reveal(Seq::filter);
    assert(s.take(i + 1).drop_last() =~= s.take(i));
}

pub proof fn lemma_append_deep_view<T: DeepView>(a: Vec<T>, b: Vec<T>, after: Vec<T>)
    requires
        after@ == a@ + b@,
    ensures
        after.deep_view() == a.deep_view() + b.deep_view(),
{
    assert(after.deep_view() =~= a.deep_view() + b.deep_view());
}

} // verus!
