//! Queries over a sequence of validators.

use crate::validator::Validator;
use vstd::prelude::*;

verus! {

/// Whether `index` is the index of a validator of `validators` that is active at `epoch`.
pub open spec fn is_active_index(validators: Seq<Validator>, epoch: u64, index: int) -> bool {
    0 <= index < validators.len() && validators[index].active_at(epoch)
}

/// Given an indexed sequence of `validators`, return the indices corresponding to validators
/// that are active at `epoch`: each of them once, in ascending order, and no others.
pub fn get_active_validator_indices(validators: &[Validator], epoch: u64) -> (indices: Vec<usize>)
    ensures
        forall|k: int|
            0 <= k < indices@.len() ==> is_active_index(
                validators@,
                epoch,
                #[trigger] indices@[k] as int,
            ),
        forall|j: int, k: int| 0 <= j < k < indices@.len() ==> indices@[j] < indices@[k],
        forall|i: int|
            #[trigger] is_active_index(validators@, epoch, i) ==> indices@.contains(i as usize),
{
    let mut indices: Vec<usize> = Vec::new();
    let mut index: usize = 0;
    while index < validators.len()
        invariant
            index <= validators@.len(),
            forall|k: int|
                0 <= k < indices@.len() ==> (#[trigger] indices@[k]) < index && is_active_index(
                    validators@,
                    epoch,
                    indices@[k] as int,
                ),
            forall|j: int, k: int| 0 <= j < k < indices@.len() ==> indices@[j] < indices@[k],
            forall|i: int|
                i < index && #[trigger] is_active_index(validators@, epoch, i)
                    ==> indices@.contains(i as usize),
        decreases validators@.len() - index,
    {
        if validators[index].is_active_at(epoch) {
            let ghost before = indices@;
            indices.push(index);
            assert(indices@[before.len() as int] == index);
            assert forall|i: int|
                i < index + 1 && #[trigger] is_active_index(
                    validators@,
                    epoch,
                    i,
                ) implies indices@.contains(i as usize) by {
                if i < index {
                    let k = choose|k: int| 0 <= k < before.len() && before[k] == i as usize;
                    assert(indices@[k] == i as usize);
                }
            }
        }
        index = index + 1;
    }
    indices
}

} // verus!
