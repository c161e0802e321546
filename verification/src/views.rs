//! A helper for reasoning about the element-wise model of a vector as it is
//! grown: pushing onto the vector pushes the element's model onto the model.

use vstd::prelude::*;

verus! {

/// Pushing one element onto a vector pushes its model onto the vector's
/// element-wise model.
pub proof fn lemma_deep_view_push<T: DeepView>(pre: Vec<T>, post: Vec<T>)
    requires
        post@.len() == pre@.len() + 1,
        forall|k: int| 0 <= k < pre@.len() ==> post@[k] == pre@[k],
    ensures
        post.deep_view() == pre.deep_view().push(post@.last().deep_view()),
{
    assert(post.deep_view() =~= pre.deep_view().push(post@.last().deep_view())) by {
        assert forall|k: int| 0 <= k < post@.len() implies post.deep_view()[k]
            == pre.deep_view().push(post@.last().deep_view())[k] by {
            if k < pre@.len() {
                assert(post@[k] == pre@[k]);
                assert(pre.deep_view()[k] == pre@[k].deep_view());
            }
        }
    }
}

/// Appending one vector to another concatenates their element-wise models.
pub proof fn lemma_deep_view_concat<T: DeepView>(a: Vec<T>, b: Vec<T>, joined: Vec<T>)
    requires
        joined@ == a@ + b@,
    ensures
        joined.deep_view() == a.deep_view() + b.deep_view(),
{
    assert(joined.deep_view() =~= a.deep_view() + b.deep_view()) by {
        assert forall|k: int| 0 <= k < joined@.len() implies joined.deep_view()[k] == (
        a.deep_view() + b.deep_view())[k] by {
            if k < a@.len() {
                assert(joined@[k] == a@[k]);
            } else {
                assert(joined@[k] == b@[k - a@.len()]);
            }
        }
    }
}

} // verus!
