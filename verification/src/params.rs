//! The parameters that every protocol of one party shares.

use vstd::prelude::*;
use crate::group::Gej;
use crate::scalar::Scalar;
use crate::sss::scalar_values;

verus! {

/// The context of one party: the indices of all parties, the party's own index, and the
/// second generator of the Pedersen commitments.
pub struct Parameters {
    pub indices: Vec<Scalar>,
    pub index: Scalar,
    pub h: Gej,
}

impl Parameters {
    /// The party's own index is one of the indices.
    pub open spec fn wf(&self) -> bool {
        scalar_values(self.indices@).contains(self.index@)
    }

    /// Whether `index` is the index of one of the parties.
    pub fn has_index(&self, index: &Scalar) -> (r: bool)
        ensures
            r == scalar_values(self.indices@).contains(index@),
    {
        let mut i: usize = 0;
        while i < self.indices.len()
            invariant
                i <= self.indices.len(),
                forall|j: int| 0 <= j < i ==> scalar_values(self.indices@)[j] != index@,
            decreases self.indices.len() - i,
        {
            if self.indices[i].eq(index) {
                assert(scalar_values(self.indices@)[i as int] == index@);
                return true;
            }
            i += 1;
        }
        false
    }
}

} // verus!
