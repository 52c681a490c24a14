//! Helper lemmas about the deep views of vectors.

use vstd::prelude::*;

verus! {

/// Pushing an element onto a vector pushes its model onto the vector's
/// deep view.
pub proof fn lemma_deep_view_push<T: DeepView>(pre: Vec<T>, post: Vec<T>, t: T)
    requires
        post@ == pre@.push(t),
    ensures
        post.deep_view() == pre.deep_view().push(t.deep_view()),
{
    assert forall|i: int| 0 <= i < post@.len() implies post.deep_view()[i] == pre.deep_view().push(
        t.deep_view(),
    )[i] by {
        if i < pre@.len() {
            assert(post@[i] == pre@[i]);
        } else {
            assert(post@[i] == t);
        }
    }
    assert(post.deep_view() =~= pre.deep_view().push(t.deep_view()));
}

} // verus!
