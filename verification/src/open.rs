//! Threshold opening of a batch of verifiable sharings.
//!
//! A [`State`] collects, for each sharing of the batch, the verified shares of distinct
//! parties. With the share of the `k`-th party it reconstructs every secret and its
//! decommitment; later shares change nothing.

use vstd::prelude::*;
use crate::params::Parameters;
use crate::scalar::Scalar;
use vstd::arithmetic::div_mod::lemma_small_mod;
use crate::scalar::group_order;
use crate::sss::{
    interpolate_at_zero, invertible_differences, lemma_interpolation_recovers_constant_term,
    lemma_poly_eval_bound, poly_eval, scalar_values,
};
use crate::util::{all_indices_equal, all_indices_equal_in_vshare_batch};
use crate::vss::{
    interpolate_shares_at_zero, vshare_decommitments, vshare_indices, vshare_is_valid,
    vshare_models, vshare_valid, vshare_values, SharingCommitment, VShare, VShareModel,
};

verus! {

/// Why a batch of shares was refused.
#[derive(Clone, Copy, Debug, PartialEq, Eq)]
pub enum OpenError {
    InvalidIndex,
    DuplicateIndex,
    InvalidShare,
    InconsistentIndices,
    InvalidBatchSize,
}

/// The commitments of the sharings that one run opens.
pub struct InstanceParams {
    commitment_batch: Vec<SharingCommitment>,
}

/// Whether all commitment vectors of a batch have the same length.
pub open spec fn equal_lengths<T>(batch: Seq<Seq<T>>) -> bool {
    forall|i: int, j: int|
        0 <= i < batch.len() && 0 <= j < batch.len() ==> batch[i].len() == batch[j].len()
}

/// The commitment vectors of a batch.
pub open spec fn commitment_views(batch: Seq<SharingCommitment>) -> Seq<Seq<Seq<u8>>> {
    Seq::new(batch.len(), |i: int| batch[i]@)
}

impl View for InstanceParams {
    type V = Seq<Seq<Seq<u8>>>;

    closed spec fn view(&self) -> Seq<Seq<Seq<u8>>> {
        commitment_views(self.commitment_batch@)
    }
}

impl InstanceParams {
    /// All commitment vectors have the same length: the threshold.
    pub open spec fn wf(&self) -> bool {
        equal_lengths(self@)
    }

    /// The number of sharings in the batch.
    pub open spec fn batch_size(&self) -> nat {
        self@.len()
    }

    /// The number of shares that reconstruct a secret.
    pub open spec fn spec_threshold(&self) -> nat
        recommends
            self@.len() > 0,
    {
        self@[0].len()
    }

    /// The parameters of a run that opens the sharings with these commitments.
    pub fn new(commitment_batch: Vec<SharingCommitment>) -> (r: InstanceParams)
        requires
            equal_lengths(commitment_views(commitment_batch@)),
        ensures
            r@ == commitment_views(commitment_batch@),
            r.wf(),
    {
        InstanceParams { commitment_batch }
    }

    /// The number of shares that reconstruct a secret.
    pub fn threshold(&self) -> (r: usize)
        requires
            self.batch_size() > 0,
        ensures
            r == self.spec_threshold(),
    {
        self.commitment_batch[0].len()
    }

    /// The number of sharings in the batch.
    pub fn len(&self) -> (r: usize)
        ensures
            r == self.batch_size(),
    {
        self.commitment_batch.len()
    }
}

/// The shares accepted so far, one buffer for each sharing of the batch.
#[derive(Clone)]
pub struct State {
    vshare_bufs: Vec<Vec<VShare>>,
}

/// The models of the buffers of a state.
pub open spec fn buffer_models(bufs: Seq<Vec<VShare>>) -> Seq<Seq<VShareModel>> {
    Seq::new(bufs.len(), |i: int| vshare_models(bufs[i]@))
}

impl View for State {
    type V = Seq<Seq<VShareModel>>;

    closed spec fn view(&self) -> Seq<Seq<VShareModel>> {
        buffer_models(self.vshare_bufs@)
    }
}

/// Whether a buffer holds a share with the given index.
pub open spec fn has_share_with_index(buf: Seq<VShareModel>, index: nat) -> bool {
    exists|j: int| 0 <= j < buf.len() && buf[j].index == index
}

/// Whether every share of the batch opens the commitment of its sharing.
pub open spec fn batch_valid(
    batch: Seq<VShareModel>,
    commitments: Seq<Seq<Seq<u8>>>,
    h: Seq<u8>,
) -> bool {
    forall|j: int|
        0 <= j < batch.len() && j < commitments.len() ==> vshare_valid(
            batch[j],
            commitments[j],
            h,
        )
}

/// The error, if any, with which a batch of shares is refused: the first that applies,
/// in the order of the checks.
pub open spec fn refusal(
    state: Seq<Seq<VShareModel>>,
    commitments: Seq<Seq<Seq<u8>>>,
    indices: Seq<nat>,
    h: Seq<u8>,
    batch: Seq<VShareModel>,
) -> Option<OpenError> {
    if batch.len() != state.len() {
        Some(OpenError::InvalidBatchSize)
    } else if !all_indices_equal(batch) {
        Some(OpenError::InconsistentIndices)
    } else if !indices.contains(batch[0].index) {
        Some(OpenError::InvalidIndex)
    } else if has_share_with_index(state[0], batch[0].index) {
        Some(OpenError::DuplicateIndex)
    } else if !batch_valid(batch, commitments, h) {
        Some(OpenError::InvalidShare)
    } else {
        None
    }
}

/// The buffers with one share of the batch appended to each.
pub open spec fn accepted(state: Seq<Seq<VShareModel>>, batch: Seq<VShareModel>) -> Seq<
    Seq<VShareModel>,
> {
    Seq::new(state.len(), |i: int| state[i].push(batch[i]))
}

/// The indices of a buffer of share models.
pub open spec fn model_indices(buf: Seq<VShareModel>) -> Seq<nat> {
    Seq::new(buf.len(), |i: int| buf[i].index)
}

/// The values of a buffer of share models.
pub open spec fn model_values(buf: Seq<VShareModel>) -> Seq<nat> {
    Seq::new(buf.len(), |i: int| buf[i].value)
}

/// The decommitments of a buffer of share models.
pub open spec fn model_decommitments(buf: Seq<VShareModel>) -> Seq<nat> {
    Seq::new(buf.len(), |i: int| buf[i].decommitment)
}

/// The secret and the decommitment that the shares of each buffer interpolate to.
pub open spec fn reconstruction(state: Seq<Seq<VShareModel>>) -> Seq<(nat, nat)> {
    Seq::new(
        state.len(),
        |i: int|
            (
                interpolate_at_zero(model_indices(state[i]), model_values(state[i])),
                interpolate_at_zero(model_indices(state[i]), model_decommitments(state[i])),
            ),
    )
}

/// The values of a sequence of pairs of scalars.
pub open spec fn pair_values(s: Seq<(Scalar, Scalar)>) -> Seq<(nat, nat)> {
    Seq::new(s.len(), |i: int| (s[i].0@, s[i].1@))
}

/// The values inside the outcome of a step.
pub open spec fn outcome_values(r: Result<Option<Vec<(Scalar, Scalar)>>, OpenError>) -> Result<
    Option<Seq<(nat, nat)>>,
    OpenError,
> {
    match r {
        Ok(Some(v)) => Ok(Some(pair_values(v@))),
        Ok(None) => Ok(None),
        Err(e) => Err(e),
    }
}

/// What a step returns: the refusal if there is one; else the reconstruction, exactly
/// when the batch is the one that brings the buffers to the threshold `k`.
pub open spec fn step_outcome(
    state: Seq<Seq<VShareModel>>,
    commitments: Seq<Seq<Seq<u8>>>,
    indices: Seq<nat>,
    h: Seq<u8>,
    batch: Seq<VShareModel>,
) -> Result<Option<Seq<(nat, nat)>>, OpenError> {
    match refusal(state, commitments, indices, h, batch) {
        Some(e) => Err(e),
        None => if state[0].len() + 1 == commitments[0].len() {
            Ok(Some(reconstruction(accepted(state, batch))))
        } else {
            Ok(None)
        },
    }
}

/// The buffers after a step: unchanged when the batch is refused or the threshold `k`
/// was reached before; else with the batch appended.
pub open spec fn step_state(
    state: Seq<Seq<VShareModel>>,
    commitments: Seq<Seq<Seq<u8>>>,
    indices: Seq<nat>,
    h: Seq<u8>,
    batch: Seq<VShareModel>,
) -> Seq<Seq<VShareModel>> {
    if refusal(state, commitments, indices, h, batch) is Some || state[0].len()
        == commitments[0].len() {
        state
    } else {
        accepted(state, batch)
    }
}

/// Whether every share of every buffer opens the commitment of its sharing.
pub open spec fn buffers_valid(
    state: Seq<Seq<VShareModel>>,
    commitments: Seq<Seq<Seq<u8>>>,
    h: Seq<u8>,
) -> bool {
    forall|i: int, j: int|
        0 <= i < state.len() && 0 <= j < state[i].len() ==> vshare_valid(
            #[trigger] state[i][j],
            commitments[i],
            h,
        )
}

/// Whether no two shares of a buffer have the same index.
pub open spec fn indices_distinct(buf: Seq<VShareModel>) -> bool {
    forall|i: int, j: int| 0 <= i < j < buf.len() ==> buf[i].index != buf[j].index
}

/// Whether the shares at the same position of all buffers have the same index, which
/// is one of `indices`.
pub open spec fn in_lockstep(state: Seq<Seq<VShareModel>>, indices: Seq<nat>) -> bool {
    forall|i: int, j: int|
        0 <= i < state.len() && 0 <= j < state[i].len() ==> (#[trigger] state[i][j]).index
            == state[0][j].index && indices.contains(state[i][j].index)
}

/// What holds of the buffers of every run: they have the same length, at most the
/// threshold; they hold valid shares only, one of each sender, and the same senders in
/// the same order.
pub open spec fn run_invariant(
    state: Seq<Seq<VShareModel>>,
    commitments: Seq<Seq<Seq<u8>>>,
    indices: Seq<nat>,
    h: Seq<u8>,
) -> bool {
    &&& state.len() == commitments.len()
    &&& state.len() > 0
    &&& equal_lengths(state)
    &&& state[0].len() <= commitments[0].len()
    &&& buffers_valid(state, commitments, h)
    &&& indices_distinct(state[0])
    &&& in_lockstep(state, indices)
}

/// The empty buffers of a new run satisfy the invariant of runs.
pub proof fn lemma_new_run_satisfies_invariant(
    commitments: Seq<Seq<Seq<u8>>>,
    indices: Seq<nat>,
    h: Seq<u8>,
)
    requires
        commitments.len() > 0,
    ensures
        run_invariant(
            Seq::new(commitments.len(), |i: int| Seq::<VShareModel>::empty()),
            commitments,
            indices,
            h,
        ),
{
}

/// Every step keeps the invariant of runs, whatever the batch.
pub proof fn lemma_step_keeps_invariant(
    state: Seq<Seq<VShareModel>>,
    commitments: Seq<Seq<Seq<u8>>>,
    indices: Seq<nat>,
    h: Seq<u8>,
    batch: Seq<VShareModel>,
)
    requires
        run_invariant(state, commitments, indices, h),
    ensures
        run_invariant(step_state(state, commitments, indices, h, batch), commitments, indices, h),
{
    let next = step_state(state, commitments, indices, h, batch);
    if next != state {
        assert(next == accepted(state, batch));
        assert(refusal(state, commitments, indices, h, batch) is None);
        assert forall|i: int, j: int| 0 <= i < next.len() && 0 <= j < next.len() implies next[i].len()
            == next[j].len() by {
            assert(state[i].len() == state[j].len());
        }
        assert forall|i: int, j: int| 0 <= i < next.len() && 0 <= j < next[i].len() implies vshare_valid(
            #[trigger] next[i][j],
            commitments[i],
            h,
        ) && next[i][j].index == next[0][j].index && indices.contains(next[i][j].index) by {
            assert(state[i].len() == state[0].len());
            if j < state[i].len() {
                assert(next[i][j] == state[i][j]);
                assert(next[0][j] == state[0][j]);
            } else {
                assert(next[i][j] == batch[i]);
                assert(next[0][j] == batch[0]);
            }
        }
        assert forall|i: int, j: int| 0 <= i < j < next[0].len() implies next[0][i].index
            != next[0][j].index by {
            if j < state[0].len() {
                assert(next[0][i] == state[0][i] && next[0][j] == state[0][j]);
            } else {
                assert(next[0][j] == batch[0]);
                assert(next[0][i] == state[0][i]);
            }
        }
    }
}

/// A batch that is refused is answered with its error and leaves the buffers as they
/// were.
pub proof fn lemma_refused_batch_changes_nothing(
    state: Seq<Seq<VShareModel>>,
    commitments: Seq<Seq<Seq<u8>>>,
    indices: Seq<nat>,
    h: Seq<u8>,
    batch: Seq<VShareModel>,
)
    requires
        refusal(state, commitments, indices, h, batch) is Some,
    ensures
        step_state(state, commitments, indices, h, batch) == state,
        step_outcome(state, commitments, indices, h, batch) is Err,
{
}

/// Once the threshold is reached, a batch that passes the checks is answered with
/// `Ok(None)` and leaves the buffers as they were.
pub proof fn lemma_late_batch_changes_nothing(
    state: Seq<Seq<VShareModel>>,
    commitments: Seq<Seq<Seq<u8>>>,
    indices: Seq<nat>,
    h: Seq<u8>,
    batch: Seq<VShareModel>,
)
    requires
        state.len() > 0,
        commitments.len() > 0,
        state[0].len() == commitments[0].len(),
        refusal(state, commitments, indices, h, batch) is None,
    ensures
        step_state(state, commitments, indices, h, batch) == state,
        step_outcome(state, commitments, indices, h, batch) == Ok::<
            Option<Seq<(nat, nat)>>,
            OpenError,
        >(None),
{
}

/// A batch that passes the checks before the threshold is reached adds exactly one
/// share to every buffer.
pub proof fn lemma_accepted_batch_adds_one_share(
    state: Seq<Seq<VShareModel>>,
    commitments: Seq<Seq<Seq<u8>>>,
    indices: Seq<nat>,
    h: Seq<u8>,
    batch: Seq<VShareModel>,
)
    requires
        state.len() > 0,
        commitments.len() > 0,
        state[0].len() != commitments[0].len(),
        refusal(state, commitments, indices, h, batch) is None,
    ensures
        step_state(state, commitments, indices, h, batch).len() == state.len(),
        forall|i: int|
            0 <= i < state.len() ==> (#[trigger] step_state(
                state,
                commitments,
                indices,
                h,
                batch,
            )[i]) == state[i].push(batch[i]),
{
}

/// Whether the shares of a buffer are points of the sharing polynomial `a` with the
/// decommitment polynomial `b`.
pub open spec fn shares_lie_on(buf: Seq<VShareModel>, a: Seq<nat>, b: Seq<nat>) -> bool {
    forall|i: int|
        0 <= i < buf.len() ==> (#[trigger] buf[i]).value == poly_eval(a, buf[i].index)
            && buf[i].decommitment == poly_eval(b, buf[i].index)
}

/// Whether every buffer holds as many shares as the polynomials `a_polys[j]` and
/// `b_polys[j]` of its sharing have coefficients, all of them points of these
/// polynomials, at indices with invertible differences.
pub open spec fn buffers_lie_on(
    state: Seq<Seq<VShareModel>>,
    a_polys: Seq<Seq<nat>>,
    b_polys: Seq<Seq<nat>>,
) -> bool {
    &&& a_polys.len() == state.len()
    &&& b_polys.len() == state.len()
    &&& forall|j: int|
        0 <= j < state.len() ==> (#[trigger] state[j]).len() >= 1 && a_polys[j].len()
            == state[j].len() && b_polys[j].len() == state[j].len() && shares_lie_on(
            state[j],
            a_polys[j],
            b_polys[j],
        ) && invertible_differences(model_indices(state[j]))
}

/// Buffers of shares that are points of the polynomials of their sharings reconstruct
/// to the constant terms of these polynomials: the secrets and their decommitments.
pub proof fn lemma_reconstruction_recovers_secrets(
    state: Seq<Seq<VShareModel>>,
    a_polys: Seq<Seq<nat>>,
    b_polys: Seq<Seq<nat>>,
)
    requires
        buffers_lie_on(state, a_polys, b_polys),
    ensures
        reconstruction(state).len() == state.len(),
        forall|j: int|
            0 <= j < state.len() ==> (#[trigger] reconstruction(state)[j]) == (
                a_polys[j][0] % group_order(),
                b_polys[j][0] % group_order(),
            ),
{
    assert forall|j: int| 0 <= j < state.len() implies (#[trigger] reconstruction(state)[j]) == (
        a_polys[j][0] % group_order(),
        b_polys[j][0] % group_order(),
    ) by {
        let buf = state[j];
        let xs = model_indices(buf);
        let vs = model_values(buf);
        let ds = model_decommitments(buf);
        assert(buf.len() >= 1 && shares_lie_on(buf, a_polys[j], b_polys[j]));
        assert forall|i: int| 0 <= i < xs.len() implies #[trigger] vs[i] % group_order()
            == poly_eval(a_polys[j], xs[i]) by {
            assert(buf[i].value == poly_eval(a_polys[j], buf[i].index));
            lemma_poly_eval_bound(a_polys[j], xs[i], 0);
            lemma_small_mod(vs[i], group_order());
        }
        assert forall|i: int| 0 <= i < xs.len() implies #[trigger] ds[i] % group_order()
            == poly_eval(b_polys[j], xs[i]) by {
            assert(buf[i].decommitment == poly_eval(b_polys[j], buf[i].index));
            lemma_poly_eval_bound(b_polys[j], xs[i], 0);
            lemma_small_mod(ds[i], group_order());
        }
        lemma_interpolation_recovers_constant_term(xs, vs, a_polys[j]);
        lemma_interpolation_recovers_constant_term(xs, ds, b_polys[j]);
    }
}

/// The batch of the sender that brings the buffers to the threshold, where all shares
/// then in the buffers are points of the polynomials of their sharings, is answered
/// with the secrets and their decommitments.
pub proof fn lemma_opening_returns_secrets(
    state: Seq<Seq<VShareModel>>,
    commitments: Seq<Seq<Seq<u8>>>,
    indices: Seq<nat>,
    h: Seq<u8>,
    batch: Seq<VShareModel>,
    a_polys: Seq<Seq<nat>>,
    b_polys: Seq<Seq<nat>>,
)
    requires
        state.len() > 0,
        commitments.len() > 0,
        refusal(state, commitments, indices, h, batch) is None,
        state[0].len() + 1 == commitments[0].len(),
        buffers_lie_on(accepted(state, batch), a_polys, b_polys),
    ensures
        step_outcome(state, commitments, indices, h, batch) matches Ok(Some(secrets))
            && secrets.len() == state.len() && forall|j: int|
            0 <= j < state.len() ==> (#[trigger] secrets[j]) == (
                a_polys[j][0] % group_order(),
                b_polys[j][0] % group_order(),
            ),
{
    lemma_reconstruction_recovers_secrets(accepted(state, batch), a_polys, b_polys);
}

impl State {
    /// All buffers hold the same number of shares.
    pub open spec fn wf(&self) -> bool {
        equal_lengths(self@)
    }

    /// The state of a run before any share has arrived: one empty buffer for each
    /// sharing.
    pub fn new(inst_params: &InstanceParams) -> (r: State)
        ensures
            r@ == Seq::new(inst_params.batch_size(), |i: int| Seq::<VShareModel>::empty()),
            r.wf(),
    {
        let b = inst_params.len();
        let mut vshare_bufs: Vec<Vec<VShare>> = Vec::with_capacity(b);
        let mut i: usize = 0;
        while i < b
            invariant
                i <= b,
                b == inst_params.batch_size(),
                vshare_bufs.len() == i,
                forall|j: int| 0 <= j < i ==> vshare_bufs@[j]@.len() == 0,
            decreases b - i,
        {
            vshare_bufs.push(Vec::with_capacity(inst_params.threshold()));
            i += 1;
        }
        assert(buffer_models(vshare_bufs@) =~~= Seq::new(
            inst_params.batch_size(),
            |i: int| Seq::<VShareModel>::empty(),
        ));
        State { vshare_bufs }
    }

    /// Whether a share with the given index has been accepted.
    pub fn contains_vshare_with_index(&self, index: &Scalar) -> (r: bool)
        requires
            self@.len() > 0,
        ensures
            r == has_share_with_index(self@[0], index@),
    {
        let mut i: usize = 0;
        while i < self.vshare_bufs[0].len()
            invariant
                self.vshare_bufs@.len() > 0,
                i <= self.vshare_bufs@[0]@.len(),
                forall|j: int| 0 <= j < i ==> self@[0][j].index != index@,
            decreases self.vshare_bufs@[0]@.len() - i,
        {
            if self.vshare_bufs[0][i].share.index.eq(index) {
                assert(self@[0][i as int].index == index@);
                return true;
            }
            i += 1;
        }
        false
    }

    /// The number of parties whose shares have been accepted.
    pub fn shares_received(&self) -> (r: usize)
        requires
            self@.len() > 0,
        ensures
            r == self@[0].len(),
    {
        self.vshare_bufs[0].len()
    }

    fn accept_vshare_batch(&mut self, vshare_batch: &Vec<VShare>)
        requires
            vshare_batch.len() == old(self)@.len(),
        ensures
            final(self)@ == accepted(old(self)@, vshare_models(vshare_batch@)),
    {
        let mut i: usize = 0;
        while i < self.vshare_bufs.len()
            invariant
                i <= self.vshare_bufs.len(),
                self.vshare_bufs.len() == old(self).vshare_bufs.len(),
                vshare_batch.len() == self.vshare_bufs.len(),
                forall|j: int|
                    0 <= j < i ==> self.vshare_bufs@[j]@ == old(self).vshare_bufs@[j]@.push(
                        vshare_batch@[j],
                    ),
                forall|j: int|
                    i <= j < self.vshare_bufs.len() ==> self.vshare_bufs@[j] == old(
                        self,
                    ).vshare_bufs@[j],
            decreases self.vshare_bufs.len() - i,
        {
            self.vshare_bufs[i].push(vshare_batch[i]);
            i += 1;
        }
        assert(self@ =~~= accepted(old(self)@, vshare_models(vshare_batch@)));
    }

    /// Interpolates the shares of every buffer at zero.
    pub fn reconstruct_values(&self) -> (r: Vec<(Scalar, Scalar)>)
        ensures
            pair_values(r@) == reconstruction(self@),
    {
        let mut values: Vec<(Scalar, Scalar)> = Vec::with_capacity(self.vshare_bufs.len());
        let mut i: usize = 0;
        while i < self.vshare_bufs.len()
            invariant
                i <= self.vshare_bufs.len(),
                values.len() == i,
                forall|j: int|
                    0 <= j < i ==> (values@[j].0@, values@[j].1@) == reconstruction(self@)[j],
            decreases self.vshare_bufs.len() - i,
        {
            let pair = interpolate_shares_at_zero(self.vshare_bufs[i].as_slice());
            proof {
                let buf = self.vshare_bufs@[i as int]@;
                assert(vshare_indices(buf) =~= model_indices(self@[i as int]));
                assert(vshare_values(buf) =~= model_values(self@[i as int]));
                assert(vshare_decommitments(buf) =~= model_decommitments(self@[i as int]));
            }
            values.push(pair);
            i += 1;
        }
        assert(pair_values(values@) =~= reconstruction(self@));
        values
    }

    /// Handles the batch of shares of one party: one share for each sharing, all with
    /// the party's index.
    ///
    /// A batch that fails a check is refused and changes nothing. A batch that arrives
    /// after the threshold was reached changes nothing and returns `Ok(None)`. Any other
    /// batch is appended to the buffers; the one that brings them to the threshold
    /// returns the reconstructed secrets and decommitments.
    pub fn handle_vshare_batch(
        &mut self,
        inst_params: &InstanceParams,
        params: &Parameters,
        vshare_batch: Vec<VShare>,
    ) -> (r: Result<Option<Vec<(Scalar, Scalar)>>, OpenError>)
        requires
            old(self).wf(),
            old(self)@.len() == inst_params.batch_size(),
            inst_params.batch_size() > 0,
        ensures
            final(self).wf(),
            final(self)@.len() == old(self)@.len(),
            outcome_values(r) == step_outcome(
                old(self)@,
                inst_params@,
                scalar_values(params.indices@),
                params.h@,
                vshare_models(vshare_batch@),
            ),
            final(self)@ == step_state(
                old(self)@,
                inst_params@,
                scalar_values(params.indices@),
                params.h@,
                vshare_models(vshare_batch@),
            ),
            r is Err ==> final(self)@ == old(self)@,
            old(self)@[0].len() == inst_params.spec_threshold() ==> !(r matches Ok(Some(_)))
                && final(self)@ == old(self)@,
    {
        let ghost batch = vshare_models(vshare_batch@);
        let b = self.vshare_bufs.len();
        if vshare_batch.len() != b {
            return Err(OpenError::InvalidBatchSize);
        }
        if !all_indices_equal_in_vshare_batch(vshare_batch.as_slice()) {
            return Err(OpenError::InconsistentIndices);
        }
        let index = vshare_batch[0].share.index;
        assert(batch[0].index == index@);
        if !params.has_index(&index) {
            return Err(OpenError::InvalidIndex);
        }
        if self.contains_vshare_with_index(&index) {
            return Err(OpenError::DuplicateIndex);
        }
        let mut i: usize = 0;
        while i < b
            invariant
                i <= b,
                b == vshare_batch.len(),
                b == inst_params.commitment_batch.len(),
                b == self@.len(),
                b > 0,
                self@ == old(self)@,
                self.wf(),
                batch == vshare_models(vshare_batch@),
                all_indices_equal(batch),
                scalar_values(params.indices@).contains(batch[0].index),
                !has_share_with_index(self@[0], batch[0].index),
                forall|j: int| 0 <= j < i ==> vshare_valid(batch[j], inst_params@[j], params.h@),
            decreases b - i,
        {
            if !vshare_is_valid(&vshare_batch[i], &inst_params.commitment_batch[i], &params.h) {
                assert(!vshare_valid(batch[i as int], inst_params@[i as int], params.h@));
                return Err(OpenError::InvalidShare);
            }
            i += 1;
        }
        assert(batch_valid(batch, inst_params@, params.h@));
        if self.shares_received() == inst_params.threshold() {
            return Ok(None);
        }
        self.accept_vshare_batch(&vshare_batch);
        assert(self.wf()) by {
            assert forall|i: int, j: int|
                0 <= i < self@.len() && 0 <= j < self@.len() implies self@[i].len()
                == self@[j].len() by {
                assert(old(self)@[i].len() == old(self)@[j].len());
            }
        }
        if self.shares_received() == inst_params.threshold() {
            let res = self.reconstruct_values();
            Ok(Some(res))
        } else {
            Ok(None)
        }
    }
}

} // verus!
