//! Checks shared by the protocols.

use vstd::prelude::*;
use crate::vss::{VShare, VShareModel, vshare_models};

verus! {

/// Whether all shares of a batch have the same index.
pub open spec fn all_indices_equal(batch: Seq<VShareModel>) -> bool {
    forall|i: int, j: int|
        0 <= i < batch.len() && 0 <= j < batch.len() ==> batch[i].index == batch[j].index
}

/// Checks that all shares of a batch have the same index.
pub fn all_indices_equal_in_vshare_batch(vshares: &[VShare]) -> (r: bool)
    ensures
        r == all_indices_equal(vshare_models(vshares@)),
{
    let ghost batch = vshare_models(vshares@);
    let mut i: usize = 1;
    while i < vshares.len()
        invariant
            1 <= i,
            batch == vshare_models(vshares@),
            forall|j: int| 0 <= j < i && j < batch.len() ==> (#[trigger] batch[j]).index == batch[0].index,
        decreases vshares.len() - i,
    {
        if !vshares[i].share.index.eq(&vshares[0].share.index) {
            assert(batch[i as int].index != batch[0].index);
            return false;
        }
        i += 1;
    }
    true
}

} // verus!
