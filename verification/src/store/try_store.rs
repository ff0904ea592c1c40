use vstd::prelude::*;

use crate::store::try_replay::{lemma_ok_count, ok_count};
use crate::store::StoreError;

verus! {

/// Takes the values of `items` up to the first error: the values before it,
/// in order, and that error as the producer's, if there is one.
pub fn try_collect<V, E>(items: Vec<Result<V, E>>) -> (res: (Vec<V>, Option<StoreError<E>>))
    ensures
        res.0@.len() == ok_count(items@),
        forall|i: int| 0 <= i < res.0@.len() ==> items@[i] == Ok::<V, E>(res.0@[i]),
        res.1 == (if ok_count(items@) < items@.len() {
            Some(StoreError::External(items@[ok_count(items@) as int]->Err_0))
        } else {
            None
        }),
{
    let mut values: Vec<V> = Vec::new();
    let mut error: Option<StoreError<E>> = None;
    let ghost all = items@;
    for item in it: items
        invariant
            it.seq() == all,
            values@.len() <= it.index(),
            forall|i: int| 0 <= i < values@.len() ==> all[i] == Ok::<V, E>(values@[i]),
            error is None ==> values@.len() == it.index(),
            error is Some ==> values@.len() < all.len() && all[values@.len() as int] is Err
                && error == Some(StoreError::External(all[values@.len() as int]->Err_0)),
    {
        if error.is_none() {
            match item {
                Ok(value) => {
                    values.push(value);
                },
                Err(e) => {
                    error = Some(StoreError::External(e));
                },
            }
        }
    }
    proof {
        assert forall|j: int| 0 <= j < values@.len() implies (#[trigger] all[j]) is Ok by {
            assert(all[j] == Ok::<V, E>(values@[j]));
        }
        lemma_ok_count(all, values@.len() as int);
    }
    (values, error)
}

} // verus!
