//! Recovery of public keys.
//!
//! For a sharing of a secret `s` with a known commitment, every party publishes the
//! decommitment of its share. The decommitments are points of the decommitment
//! polynomial `q`; once those of enough senders have arrived, Reed–Solomon decoding
//! recovers `q` in spite of missing and wrong ones, and the public key is
//! `C_0 · h^{−q(0)} = g^s`.

use vstd::prelude::*;
use crate::group::{gej_add, gej_mul, Gej};
use crate::open::commitment_views;
use crate::reed_solomon::{
    agreements, decode_with_hint, error_bound, first_places, hinted_interpolant, is_decoding,
    is_hint, lemma_decoding_is_unique, picked, positions_of, Precompute,
};
use vstd::arithmetic::div_mod::lemma_small_mod;
use crate::scalar::{group_order, lemma_order_bounds, scalar_neg, Scalar};
use crate::sss::{
    interpolant, invertible_differences, lemma_eval_congruent, lemma_interpolant_reduced,
    lemma_interpolant_reproduces, lemma_poly_eval_bound, model_values, poly_eval,
    scalar_values, share_models, share_values, Share, ShareModel,
};
use crate::vss::{SharingCommitment, VShare};

verus! {

/// Why a batch of shares was refused, or why no key was recovered.
#[derive(Clone, Copy, Debug, PartialEq, Eq)]
pub enum RKPGError {
    IndexOutOfRange,
    EmptyBatch,
    InconsistentShareIndices,
    IncorrectBatchSize,
    /// Enough shares have arrived, but too many of them are wrong to decode.
    DecodeFailed,
}

/// What a [`State`] stands for.
pub struct StateModel {
    pub indices: Seq<nat>,
    pub bufs: Seq<Seq<ShareModel>>,
    pub received: Seq<bool>,
    pub count: nat,
}

/// The shares received so far: for each slot one share for every index, zero where
/// none has arrived; for every index whether its shares have arrived; and the number
/// of indices whose shares have arrived.
#[derive(Clone)]
pub struct State {
    indices: Vec<Scalar>,
    bufs: Vec<Vec<Share>>,
    received: Vec<bool>,
    count: usize,
}

/// The models of the buffers of a state.
pub open spec fn buffer_models(bufs: Seq<Vec<Share>>) -> Seq<Seq<ShareModel>> {
    Seq::new(bufs.len(), |i: int| share_models(bufs[i]@))
}

impl View for State {
    type V = StateModel;

    closed spec fn view(&self) -> StateModel {
        StateModel {
            indices: scalar_values(self.indices@),
            bufs: buffer_models(self.bufs@),
            received: self.received@,
            count: self.count as nat,
        }
    }
}

/// The number of the first `n` flags that are set.
pub open spec fn trues(flags: Seq<bool>, n: nat) -> nat
    decreases n,
{
    if n == 0 {
        0
    } else {
        trues(flags, (n - 1) as nat) + if flags[n - 1] {
            1nat
        } else {
            0nat
        }
    }
}

/// No more flags are set than there are.
pub proof fn lemma_trues_bound(flags: Seq<bool>, n: nat)
    ensures
        trues(flags, n) <= n,
    decreases n,
{
    if n > 0 {
        lemma_trues_bound(flags, (n - 1) as nat);
    }
}

/// Setting a flag raises the number of set flags by one if it was not set, and leaves
/// it otherwise.
pub proof fn lemma_trues_update(flags: Seq<bool>, i: int, n: nat)
    requires
        0 <= i < flags.len(),
        n <= flags.len(),
    ensures
        trues(flags.update(i, true), n) == trues(flags, n) + if i < n && !flags[i] {
            1nat
        } else {
            0nat
        },
    decreases n,
{
    if n > 0 {
        lemma_trues_update(flags, i, (n - 1) as nat);
    }
}

/// What holds of every state: there is a flag for every index, and the count is the
/// number of set flags; every buffer holds one share for every index, at the position
/// of that index.
pub open spec fn model_wf(state: StateModel) -> bool {
    &&& state.received.len() == state.indices.len()
    &&& state.count == trues(state.received, state.received.len())
    &&& forall|b: int|
        0 <= b < state.bufs.len() ==> (#[trigger] state.bufs[b]).len() == state.indices.len()
            && forall|i: int|
            0 <= i < state.indices.len() ==> (#[trigger] state.bufs[b][i]).index
                == state.indices[i]
}

/// The buffer before any share has arrived: a share with value zero for every index.
pub open spec fn placeholders(indices: Seq<nat>) -> Seq<ShareModel> {
    Seq::new(indices.len(), |i: int| ShareModel { index: indices[i], value: 0 })
}

/// The first position from `from` on at which `indices` holds `x`, or the length of
/// `indices` if there is none.
pub open spec fn first_position(indices: Seq<nat>, x: nat, from: int) -> int
    decreases indices.len() - from,
{
    if from >= indices.len() {
        indices.len() as int
    } else if indices[from] == x {
        from
    } else {
        first_position(indices, x, from + 1)
    }
}

/// Whether all shares of a batch have the index of the first.
pub open spec fn indices_consistent(batch: Seq<ShareModel>) -> bool {
    forall|i: int| 0 <= i < batch.len() ==> (#[trigger] batch[i]).index == batch[0].index
}

/// The error, if any, with which a batch is refused by a state with the given buffers:
/// the first that applies, in the order of the checks.
pub open spec fn insert_refusal(state: StateModel, batch: Seq<ShareModel>) -> Option<RKPGError> {
    if batch.len() != state.bufs.len() {
        Some(RKPGError::IncorrectBatchSize)
    } else if batch.len() == 0 {
        Some(RKPGError::EmptyBatch)
    } else if !indices_consistent(batch) {
        Some(RKPGError::InconsistentShareIndices)
    } else if !state.indices.contains(batch[0].index) {
        Some(RKPGError::IndexOutOfRange)
    } else {
        None
    }
}

/// The error, if any, with which a batch is refused when there are `slots` commitments.
pub open spec fn refusal(state: StateModel, batch: Seq<ShareModel>, slots: nat) -> Option<
    RKPGError,
> {
    if batch.len() != slots {
        Some(RKPGError::IncorrectBatchSize)
    } else {
        insert_refusal(state, batch)
    }
}

/// The state with the shares of the batch written into the buffers at the position of
/// the batch's index, that index marked as received, and counted if it had not been
/// received before.
pub open spec fn inserted(state: StateModel, batch: Seq<ShareModel>) -> StateModel {
    let position = first_position(state.indices, batch[0].index, 0);
    StateModel {
        indices: state.indices,
        bufs: Seq::new(state.bufs.len(), |b: int| state.bufs[b].update(position, batch[b])),
        received: state.received.update(position, true),
        count: if state.received[position] {
            state.count
        } else {
            state.count + 1
        },
    }
}

/// The public key for the decommitment `q0` of the secret and the commitment `c0` to
/// it: `c0 · h^{−q0}`.
pub open spec fn public_key(h: Seq<u8>, q0: nat, c0: Seq<u8>) -> Seq<u8> {
    gej_add(gej_mul(h, scalar_neg(q0)), c0)
}

/// Whether `key` is the public key for the constant term, a scalar, of a polynomial
/// that decodes the values of `buf` at the indices `xs`.
pub open spec fn is_recovered_key(
    key: Seq<u8>,
    xs: Seq<nat>,
    buf: Seq<ShareModel>,
    k: nat,
    commitment: Seq<Seq<u8>>,
    h: Seq<u8>,
) -> bool {
    exists|poly: Seq<nat>| #[trigger]
        is_decoding(poly, xs, model_values(buf), k) && poly[0] < group_order() && key
            == public_key(h, poly[0], commitment[0])
}

/// The positions among the first `n` whose flags are set, in order.
pub open spec fn received_positions(received: Seq<bool>, n: nat) -> Seq<int>
    decreases n,
{
    if n == 0 {
        Seq::empty()
    } else {
        let rest = received_positions(received, (n - 1) as nat);
        if received[n - 1] {
            rest.push(n - 1)
        } else {
            rest
        }
    }
}

/// The places whose points are tried first in decoding: the first `k` of those whose
/// shares have been received or, where fewer have been received, the first `k`.
pub open spec fn trusted_places(received: Seq<bool>, k: nat) -> Seq<int> {
    let all = received_positions(received, received.len());
    if all.len() >= k {
        all.take(k as int)
    } else {
        Seq::new(k, |i: int| i)
    }
}

/// The received positions among the first `n` lie below `n`, and those among the first
/// `i` are the first of them.
pub proof fn lemma_received_positions(received: Seq<bool>, i: nat, n: nat)
    requires
        i <= n,
    ensures
        forall|t: int|
            0 <= t < received_positions(received, n).len() ==> 0 <= (
            #[trigger] received_positions(received, n)[t]) < n,
        received_positions(received, i).len() <= received_positions(received, n).len(),
        received_positions(received, n).take(received_positions(received, i).len() as int)
            == received_positions(received, i),
    decreases n,
{
    if n == 0 {
        assert(received_positions(received, n).take(0) =~= received_positions(received, i));
    } else if i == n {
        lemma_received_positions(received, (n - 1) as nat, (n - 1) as nat);
        assert(received_positions(received, n).take(
            received_positions(received, n).len() as int,
        ) =~= received_positions(received, n));
    } else {
        lemma_received_positions(received, i, (n - 1) as nat);
        let shorter = received_positions(received, (n - 1) as nat);
        let len = received_positions(received, i).len() as int;
        assert(received_positions(received, n).take(len) =~= shorter.take(len));
    }
}

/// Whether the polynomial through the points at the trusted places of a buffer decodes
/// the buffer.
pub open spec fn trusted_points_decode(
    xs: Seq<nat>,
    buf: Seq<ShareModel>,
    received: Seq<bool>,
    k: nat,
) -> bool {
    is_decoding(
        hinted_interpolant(xs, model_values(buf), trusted_places(received, k)),
        xs,
        model_values(buf),
        k,
    )
}

/// Whether `key` is right for a buffer: it is the public key for a polynomial that
/// decodes the buffer, and for the polynomial through the points at the trusted places
/// where that one decodes the buffer.
pub open spec fn key_matches(
    key: Seq<u8>,
    xs: Seq<nat>,
    buf: Seq<ShareModel>,
    received: Seq<bool>,
    k: nat,
    commitment: Seq<Seq<u8>>,
    h: Seq<u8>,
) -> bool {
    &&& is_recovered_key(key, xs, buf, k, commitment, h)
    &&& trusted_points_decode(xs, buf, received, k) ==> key == public_key(
        h,
        hinted_interpolant(xs, model_values(buf), trusted_places(received, k))[0],
        commitment[0],
    )
}

/// Whether the outcome `r` and the state `now` are right for a batch that was not
/// refused, where `before` is the state before the batch and `after` the state with the
/// batch recorded.
///
/// Before the indices of `n − k + 1` senders have been received the batch is recorded
/// and nothing returned. From there on either all buffers are decoded, the batch is
/// recorded and the keys are returned; or decoding fails and the state stays as it was
/// before, which is possible only where the points of some buffer at the trusted places
/// do not decode it.
pub open spec fn outcome_matches(
    r: Result<Option<Vec<Gej>>, RKPGError>,
    before: StateModel,
    now: StateModel,
    after: StateModel,
    commitments: Seq<Seq<Seq<u8>>>,
    h: Seq<u8>,
) -> bool {
    let k = commitments[0].len();
    let xs = before.indices;
    if after.count < after.indices.len() - k + 1 {
        r == Ok::<Option<Vec<Gej>>, RKPGError>(None) && now == after
    } else {
        match r {
            Ok(Some(keys)) => now == after && keys.len() == commitments.len() && forall|j: int|
                0 <= j < keys.len() ==> key_matches(
                    (#[trigger] keys@[j])@,
                    xs,
                    after.bufs[j],
                    after.received,
                    k,
                    commitments[j],
                    h,
                ),
            Ok(None) => false,
            Err(e) => e == RKPGError::DecodeFailed && now == before && exists|j: int|
                0 <= j < commitments.len() && !trusted_points_decode(
                    xs,
                    #[trigger] after.bufs[j],
                    after.received,
                    k,
                ),
        }
    }
}

/// Whether the shares of a buffer at the received positions lie on the polynomial `q`.
pub open spec fn received_lie_on(
    buf: Seq<ShareModel>,
    received: Seq<bool>,
    xs: Seq<nat>,
    q: Seq<nat>,
) -> bool {
    forall|i: int|
        0 <= i < xs.len() && received[i] ==> (#[trigger] buf[i]).value == poly_eval(q, xs[i])
}

/// There are as many received positions as flags are set, and each of them is
/// received.
pub proof fn lemma_received_positions_are_received(received: Seq<bool>, n: nat)
    requires
        n <= received.len(),
    ensures
        received_positions(received, n).len() == trues(received, n),
        forall|t: int|
            0 <= t < received_positions(received, n).len() ==> 0 <= (
            #[trigger] received_positions(received, n)[t]) < n && received[received_positions(
                received,
                n,
            )[t]],
    decreases n,
{
    if n > 0 {
        lemma_received_positions_are_received(received, (n - 1) as nat);
    }
}

/// A polynomial that all received points lie on has at least as many points on it as
/// have been received.
pub proof fn lemma_received_agree(
    f: Seq<nat>,
    xs: Seq<nat>,
    ys: Seq<nat>,
    received: Seq<bool>,
    n: nat,
)
    requires
        n <= xs.len(),
        xs.len() == ys.len(),
        xs.len() == received.len(),
        forall|i: int| 0 <= i < xs.len() && received[i] ==> poly_eval(f, #[trigger] xs[i]) == ys[i],
    ensures
        agreements(f, xs, ys, n) >= trues(received, n),
    decreases n,
{
    if n > 0 {
        lemma_received_agree(f, xs, ys, received, (n - 1) as nat);
        if received[n - 1] {
            assert(poly_eval(f, xs[n - 1]) == ys[n - 1]);
        }
    }
}

/// Where the shares received lie on a polynomial `q` with `k` coefficients, at least
/// `k` have been received and no more are missing than decoding tolerates, the
/// polynomial through the points at the trusted places decodes the buffer, and its
/// constant term is that of `q`.
pub proof fn lemma_honest_buffer_decodes(
    xs: Seq<nat>,
    buf: Seq<ShareModel>,
    received: Seq<bool>,
    q: Seq<nat>,
    k: nat,
)
    requires
        buf.len() == xs.len(),
        received.len() == xs.len(),
        q.len() == k,
        1 <= k <= xs.len(),
        received_lie_on(buf, received, xs, q),
        trues(received, received.len()) >= k,
        trues(received, received.len()) + error_bound(xs.len(), k) >= xs.len(),
        invertible_differences(picked(xs, trusted_places(received, k))),
    ensures
        trusted_points_decode(xs, buf, received, k),
        hinted_interpolant(xs, model_values(buf), trusted_places(received, k))[0] == q[0]
            % group_order(),
{
    let n = xs.len();
    let ys = model_values(buf);
    let places = trusted_places(received, k);
    let pxs = picked(xs, places);
    let pys = picked(ys, places);
    let f = interpolant(pxs, pys);
    lemma_order_bounds();
    lemma_received_positions_are_received(received, n);
    assert(places == received_positions(received, n).take(k as int));
    assert forall|t: int| 0 <= t < pxs.len() implies #[trigger] pys[t] % group_order()
        == poly_eval(q, pxs[t]) by {
        let i = places[t];
        assert(i == received_positions(received, n)[t]);
        assert(received[i]);
        assert(buf[i].value == poly_eval(q, xs[i]));
        lemma_poly_eval_bound(q, xs[i], 0);
        lemma_small_mod(poly_eval(q, xs[i]), group_order());
    }
    lemma_interpolant_reproduces(pxs, pys, q);
    assert forall|i: int| 0 <= i < xs.len() && received[i] implies poly_eval(
        f,
        #[trigger] xs[i],
    ) == ys[i] by {
        lemma_eval_congruent(f, q, xs[i], 0);
        assert(buf[i].value == poly_eval(q, xs[i]));
    }
    lemma_received_agree(f, xs, ys, received, n);
    lemma_interpolant_reduced(pxs, pys, 0);
    lemma_small_mod(f[0], group_order());
}

/// Whatever keys are returned are the keys for the constant terms of the polynomials
/// that decode the buffers: where a polynomial `polys[j]` decodes buffer `j`, and the
/// differences of the indices are invertible, the key of slot `j` is the public key for
/// its constant term, whichever shares were wrong or missing.
pub proof fn lemma_keys_are_determined(
    r: Result<Option<Vec<Gej>>, RKPGError>,
    before: StateModel,
    now: StateModel,
    after: StateModel,
    commitments: Seq<Seq<Seq<u8>>>,
    h: Seq<u8>,
    polys: Seq<Seq<nat>>,
)
    requires
        outcome_matches(r, before, now, after, commitments, h),
        r matches Ok(Some(_)),
        polys.len() == commitments.len(),
        invertible_differences(before.indices),
        forall|j: int|
            0 <= j < polys.len() ==> is_decoding(
                #[trigger] polys[j],
                before.indices,
                model_values(after.bufs[j]),
                commitments[0].len(),
            ),
    ensures
        r matches Ok(Some(keys)) && keys.len() == commitments.len() && forall|j: int|
            0 <= j < keys.len() ==> (#[trigger] keys@[j])@ == public_key(
                h,
                polys[j][0] % group_order(),
                commitments[j][0],
            ),
{
    let k = commitments[0].len();
    let xs = before.indices;
    let keys = r->Ok_0->Some_0;
    assert forall|j: int| 0 <= j < keys.len() implies (#[trigger] keys@[j])@ == public_key(
        h,
        polys[j][0] % group_order(),
        commitments[j][0],
    ) by {
        assert(key_matches(keys@[j]@, xs, after.bufs[j], after.received, k, commitments[j], h));
        let poly = choose|poly: Seq<nat>| #[trigger]
            is_decoding(poly, xs, model_values(after.bufs[j]), k) && poly[0] < group_order()
                && keys@[j]@ == public_key(h, poly[0], commitments[j][0]);
        assert(is_decoding(polys[j], xs, model_values(after.bufs[j]), k));
        lemma_decoding_is_unique(poly, polys[j], xs, model_values(after.bufs[j]), k);
        assert(poly[0] % group_order() == polys[j][0] % group_order());
        lemma_small_mod(poly[0], group_order());
    }
}

/// Where enough senders have been received and the shares received in every buffer lie
/// on a polynomial with `k` coefficients, the outcome is the public keys for the
/// constant terms of those polynomials.
pub proof fn lemma_honest_senders_recover_keys(
    r: Result<Option<Vec<Gej>>, RKPGError>,
    before: StateModel,
    now: StateModel,
    after: StateModel,
    commitments: Seq<Seq<Seq<u8>>>,
    h: Seq<u8>,
    polys: Seq<Seq<nat>>,
)
    requires
        outcome_matches(r, before, now, after, commitments, h),
        model_wf(after),
        after.indices == before.indices,
        commitments.len() > 0,
        after.bufs.len() == commitments.len(),
        polys.len() == commitments.len(),
        1 <= commitments[0].len() <= after.indices.len(),
        after.count >= after.indices.len() - commitments[0].len() + 1,
        after.count >= commitments[0].len(),
        after.count + error_bound(after.indices.len(), commitments[0].len())
            >= after.indices.len(),
        invertible_differences(
            picked(after.indices, trusted_places(after.received, commitments[0].len())),
        ),
        forall|j: int|
            0 <= j < polys.len() ==> (#[trigger] polys[j]).len() == commitments[0].len()
                && received_lie_on(after.bufs[j], after.received, after.indices, polys[j]),
    ensures
        r matches Ok(Some(keys)) && keys.len() == commitments.len() && forall|j: int|
            0 <= j < keys.len() ==> (#[trigger] keys@[j])@ == public_key(
                h,
                polys[j][0] % group_order(),
                commitments[j][0],
            ),
{
    let k = commitments[0].len();
    let xs = before.indices;
    assert forall|j: int| 0 <= j < commitments.len() implies trusted_points_decode(
        xs,
        #[trigger] after.bufs[j],
        after.received,
        k,
    ) && hinted_interpolant(
        xs,
        model_values(after.bufs[j]),
        trusted_places(after.received, k),
    )[0] == polys[j][0] % group_order() by {
        assert(polys[j].len() == k);
        lemma_honest_buffer_decodes(xs, after.bufs[j], after.received, polys[j], k);
    }
}

impl State {
    /// What holds of every state.
    pub open spec fn wf(&self) -> bool {
        model_wf(self@)
    }

    /// The state of a run with `b` slots before any share has arrived.
    pub fn new(indices: &[Scalar], b: usize) -> (r: State)
        ensures
            r@ == (StateModel {
                indices: scalar_values(indices@),
                bufs: Seq::new(b as nat, |i: int| placeholders(scalar_values(indices@))),
                received: Seq::new(indices.len() as nat, |i: int| false),
                count: 0,
            }),
            r.wf(),
    {
        let n = indices.len();
        let mut own: Vec<Scalar> = Vec::with_capacity(n);
        let mut received: Vec<bool> = Vec::with_capacity(n);
        let mut i: usize = 0;
        while i < n
            invariant
                i <= n,
                n == indices.len(),
                own.len() == i,
                received.len() == i,
                forall|j: int| 0 <= j < i ==> own@[j] == indices@[j],
                forall|j: int| 0 <= j < i ==> !received@[j],
                trues(received@, i as nat) == 0,
            decreases n - i,
        {
            own.push(indices[i]);
            let ghost before = received@;
            received.push(false);
            proof {
                lemma_trues_same(before, received@, i as nat);
            }
            i += 1;
        }
        assert(scalar_values(own@) =~= scalar_values(indices@));
        assert(received@ =~= Seq::new(n as nat, |i: int| false));
        let mut bufs: Vec<Vec<Share>> = Vec::with_capacity(b);
        let mut batch: usize = 0;
        while batch < b
            invariant
                batch <= b,
                n == indices.len(),
                bufs.len() == batch,
                forall|l: int|
                    0 <= l < batch ==> share_models((#[trigger] bufs@[l])@) == placeholders(
                        scalar_values(indices@),
                    ),
            decreases b - batch,
        {
            let mut buf: Vec<Share> = Vec::with_capacity(n);
            let mut j: usize = 0;
            while j < n
                invariant
                    j <= n,
                    n == indices.len(),
                    buf.len() == j,
                    forall|l: int|
                        0 <= l < j ==> (#[trigger] buf@[l])@ == (ShareModel {
                            index: indices@[l]@,
                            value: 0,
                        }),
                decreases n - j,
            {
                buf.push(Share { index: indices[j], value: Scalar::zero() });
                j += 1;
            }
            assert(share_models(buf@) =~= placeholders(scalar_values(indices@)));
            bufs.push(buf);
            batch += 1;
        }
        let state = State { indices: own, bufs, received, count: 0 };
        assert(state@.bufs =~= Seq::new(
            b as nat,
            |i: int| placeholders(scalar_values(indices@)),
        ));
        state
    }

    /// A copy of the state.
    fn duplicate(&self) -> (r: State)
        ensures
            r@ == self@,
    {
        let n = self.indices.len();
        let mut indices: Vec<Scalar> = Vec::with_capacity(n);
        let mut i: usize = 0;
        while i < n
            invariant
                i <= n,
                n == self.indices.len(),
                indices.len() == i,
                forall|j: int| 0 <= j < i ==> indices@[j] == self.indices@[j],
            decreases n - i,
        {
            indices.push(self.indices[i]);
            i += 1;
        }
        assert(indices@ =~= self.indices@);
        let mut received: Vec<bool> = Vec::with_capacity(self.received.len());
        i = 0;
        while i < self.received.len()
            invariant
                i <= self.received.len(),
                received.len() == i,
                forall|j: int| 0 <= j < i ==> received@[j] == self.received@[j],
            decreases self.received.len() - i,
        {
            received.push(self.received[i]);
            i += 1;
        }
        assert(received@ =~= self.received@);
        let mut bufs: Vec<Vec<Share>> = Vec::with_capacity(self.bufs.len());
        let mut b: usize = 0;
        while b < self.bufs.len()
            invariant
                b <= self.bufs.len(),
                bufs.len() == b,
                forall|l: int| 0 <= l < b ==> (#[trigger] bufs@[l])@ == self.bufs@[l]@,
            decreases self.bufs.len() - b,
        {
            let mut buf: Vec<Share> = Vec::with_capacity(self.bufs[b].len());
            let mut j: usize = 0;
            while j < self.bufs[b].len()
                invariant
                    b < self.bufs.len(),
                    j <= self.bufs@[b as int].len(),
                    buf.len() == j,
                    forall|l: int| 0 <= l < j ==> buf@[l] == self.bufs@[b as int]@[l],
                decreases self.bufs@[b as int].len() - j,
            {
                buf.push(self.bufs[b][j]);
                j += 1;
            }
            assert(buf@ =~= self.bufs@[b as int]@);
            bufs.push(buf);
            b += 1;
        }
        let copy = State { indices, bufs, received, count: self.count };
        assert(copy@.bufs =~= self@.bufs);
        copy
    }

    fn insert_batch(&mut self, batch: Vec<Share>) -> (r: Result<(), RKPGError>)
        requires
            old(self).wf(),
        ensures
            final(self).wf(),
            match insert_refusal(old(self)@, share_models(batch@)) {
                Some(e) => r == Err::<(), RKPGError>(e) && final(self)@ == old(self)@,
                None => r == Ok::<(), RKPGError>(()) && final(self)@ == inserted(
                    old(self)@,
                    share_models(batch@),
                ),
            },
    {
        let ghost models = share_models(batch@);
        let ghost xs = scalar_values(self.indices@);
        if batch.len() != self.bufs.len() {
            return Err(RKPGError::IncorrectBatchSize);
        }
        if batch.len() == 0 {
            return Err(RKPGError::EmptyBatch);
        }
        let share_index = batch[0].index;
        let mut j: usize = 1;
        while j < batch.len()
            invariant
                1 <= j <= batch.len(),
                models == share_models(batch@),
                share_index == batch@[0].index,
                batch.len() == self.bufs.len(),
                self@ == old(self)@,
                self.wf(),
                forall|l: int| 0 <= l < j ==> (#[trigger] models[l]).index == models[0].index,
            decreases batch.len() - j,
        {
            if !batch[j].index.eq(&share_index) {
                assert(models[j as int].index != models[0].index);
                return Err(RKPGError::InconsistentShareIndices);
            }
            j += 1;
        }
        assert(indices_consistent(models));
        let n = self.indices.len();
        let mut i: usize = 0;
        while i < n && !self.indices[i].eq(&share_index)
            invariant
                i <= n,
                n == self.indices.len(),
                xs == scalar_values(self.indices@),
                models == share_models(batch@),
                share_index == batch@[0].index,
                batch.len() == self.bufs.len(),
                batch.len() > 0,
                indices_consistent(models),
                self@ == old(self)@,
                self.wf(),
                forall|l: int| 0 <= l < i ==> xs[l] != share_index@,
                first_position(xs, share_index@, 0) == first_position(xs, share_index@, i as int),
            decreases n - i,
        {
            i += 1;
        }
        if i == n {
            assert(!xs.contains(share_index@));
            return Err(RKPGError::IndexOutOfRange);
        }
        assert(xs[i as int] == share_index@);
        assert(first_position(xs, share_index@, 0) == i);
        let mut b: usize = 0;
        while b < batch.len()
            invariant
                b <= batch.len(),
                i < n,
                n == self.indices.len(),
                batch.len() == self.bufs.len(),
                self.bufs.len() == old(self).bufs.len(),
                self.indices == old(self).indices,
                self.received == old(self).received,
                self.count == old(self).count,
                old(self).wf(),
                forall|l: int|
                    0 <= l < b ==> (#[trigger] self.bufs@[l])@ == old(self).bufs@[l]@.update(
                        i as int,
                        batch@[l],
                    ),
                forall|l: int| b <= l < self.bufs.len() ==> self.bufs@[l] == old(self).bufs@[l],
            decreases batch.len() - b,
        {
            assert(old(self)@.bufs[b as int].len() == n);
            self.bufs[b][i] = batch[b];
            b += 1;
        }
        proof {
            lemma_trues_update(old(self).received@, i as int, n as nat);
            lemma_trues_bound(old(self).received@.update(i as int, true), n as nat);
        }
        if !self.received[i] {
            self.received[i] = true;
            self.count += 1;
        }
        proof {
            assert(self.received@ =~= old(self).received@.update(i as int, true));
            assert forall|l: int| 0 <= l < self@.bufs.len() implies (#[trigger] self@.bufs[l])
                =~= inserted(old(self)@, models).bufs[l] by {
                assert(old(self)@.bufs[l].len() == n);
            }
            assert(self@.bufs =~= inserted(old(self)@, models).bufs);
            assert forall|l: int| 0 <= l < self@.bufs.len() implies (#[trigger] self@.bufs[l]).len()
                == self@.indices.len() && forall|t: int|
                0 <= t < self@.indices.len() ==> (#[trigger] self@.bufs[l][t]).index
                    == self@.indices[t] by {
                assert(old(self)@.bufs[l].len() == n);
                assert forall|t: int| 0 <= t < self@.indices.len() implies (
                #[trigger] self@.bufs[l][t]).index == self@.indices[t] by {
                    if t == i {
                        assert(self@.bufs[l][t] == models[l]);
                        assert(models[l].index == models[0].index);
                    } else {
                        assert(self@.bufs[l][t] == old(self)@.bufs[l][t]);
                    }
                }
            }
        }
        Ok(())
    }

    /// The places whose points are tried first in decoding.
    fn trusted_places(&self, k: usize) -> (r: Vec<usize>)
        requires
            self.wf(),
            k <= self@.indices.len(),
        ensures
            positions_of(r@) == trusted_places(self@.received, k as nat),
            is_hint(positions_of(r@), self@.indices.len(), k as nat),
    {
        let n = self.received.len();
        let mut places: Vec<usize> = Vec::with_capacity(k);
        let mut i: usize = 0;
        while i < n && places.len() < k
            invariant
                i <= n,
                n == self.received.len(),
                places.len() <= k,
                positions_of(places@) == received_positions(self.received@, i as nat),
            decreases n - i,
        {
            if self.received[i] {
                places.push(i);
                assert(positions_of(places@) =~= received_positions(
                    self.received@,
                    i as nat,
                ).push(i as int));
            }
            i += 1;
        }
        proof {
            lemma_received_positions(self.received@, i as nat, n as nat);
            lemma_received_positions(self.received@, i as nat, i as nat);
        }
        if places.len() < k {
            first_places(k)
        } else {
            places
        }
    }

    fn shares_count(&self) -> (r: usize)
        ensures
            r == self@.count,
    {
        self.count
    }
}

/// Two sequences of flags that agree on the first `n` have as many of them set.
proof fn lemma_trues_same(a: Seq<bool>, b: Seq<bool>, n: nat)
    requires
        forall|i: int| 0 <= i < n ==> a[i] == b[i],
    ensures
        trues(a, n) == trues(b, n),
    decreases n,
{
    if n > 0 {
        lemma_trues_same(a, b, (n - 1) as nat);
    }
}

/// The shares that a party publishes: for each of its verifiable shares, the
/// decommitment at the share's index.
pub fn initial_messages_batch(vshares: &[VShare]) -> (r: Vec<Share>)
    ensures
        r.len() == vshares.len(),
        forall|i: int|
            0 <= i < r.len() ==> (#[trigger] r@[i])@ == (ShareModel {
                index: vshares@[i]@.index,
                value: vshares@[i]@.decommitment,
            }),
{
    let mut messages: Vec<Share> = Vec::with_capacity(vshares.len());
    let mut i: usize = 0;
    while i < vshares.len()
        invariant
            i <= vshares.len(),
            messages.len() == i,
            forall|j: int|
                0 <= j < i ==> (#[trigger] messages@[j])@ == (ShareModel {
                    index: vshares@[j]@.index,
                    value: vshares@[j]@.decommitment,
                }),
        decreases vshares.len() - i,
    {
        messages.push(Share { index: vshares[i].share.index, value: vshares[i].decommitment });
        i += 1;
    }
    messages
}

/// The public key `c0 · h^{−q0}` for the decommitment `q0` of a secret and the first
/// entry `c0` of the commitment of its sharing.
pub fn recover_key(h: &Gej, decommitment: &Scalar, commitment: &SharingCommitment) -> (r: Gej)
    requires
        commitment@.len() >= 1,
    ensures
        r@ == public_key(h@, decommitment@, commitment@[0]),
{
    let decommitment_neg = decommitment.negate();
    h.scalar_mul(&decommitment_neg).add(&commitment.get(0))
}

/// Handles the batch of shares of one party: one share for each slot.
///
/// A batch that fails a check is refused and changes nothing. Any other batch is
/// written into the buffers at the position of its index, and the index is counted if
/// it is new. Once the indices of `n − k + 1` senders have been received, where `k` is
/// the length of the commitments, the buffers are decoded and the public keys returned.
/// Where a buffer cannot be decoded, `DecodeFailed` is returned and the state stays as
/// it was before the batch. Decoding succeeds at least where the first `k` shares
/// received of every buffer lie on a polynomial that all but `(n − k) / 2` of its shares
/// lie on.
pub fn handle_share_batch(
    state: &mut State,
    share_batch: Vec<Share>,
    rs_precompute: &Precompute,
    commitments: &[SharingCommitment],
    h: &Gej,
) -> (r: Result<Option<Vec<Gej>>, RKPGError>)
    requires
        old(state).wf(),
        rs_precompute@ == old(state)@.indices,
        forall|j: int| 0 <= j < commitments.len() ==> (#[trigger] commitments@[j])@.len() >= 1,
        commitments.len() > 0 ==> commitments@[0]@.len() <= old(state)@.indices.len(),
    ensures
        final(state).wf(),
        r is Err ==> final(state)@ == old(state)@,
        match refusal(old(state)@, share_models(share_batch@), commitments.len() as nat) {
            Some(e) => r == Err::<Option<Vec<Gej>>, RKPGError>(e),
            None => outcome_matches(
                r,
                old(state)@,
                final(state)@,
                inserted(old(state)@, share_models(share_batch@)),
                commitment_views(commitments@),
                h@,
            ),
        },
{
    if share_batch.len() != commitments.len() {
        return Err(RKPGError::IncorrectBatchSize);
    }
    let mut candidate = state.duplicate();
    match candidate.insert_batch(share_batch) {
        Err(e) => {
            return Err(e);
        },
        Ok(()) => {},
    }
    let n = candidate.indices.len();
    let k = commitments[0].len();
    proof {
        lemma_trues_bound(candidate@.received, n as nat);
    }
    if candidate.shares_count() < n - k + 1 {
        *state = candidate;
        return Ok(None);
    }
    let b = commitments.len();
    let ghost coms = commitment_views(commitments@);
    let ghost after = candidate@;
    assert(candidate.bufs.len() == after.bufs.len());
    let places = candidate.trusted_places(k);
    let mut pub_keys: Vec<Gej> = Vec::with_capacity(b);
    let mut j: usize = 0;
    while j < b
        invariant
            j <= b,
            b == commitments.len(),
            b == candidate.bufs.len(),
            b > 0,
            candidate@ == after,
            candidate.wf(),
            state@ == old(state)@,
            state.wf(),
            rs_precompute@ == old(state)@.indices,
            after == inserted(old(state)@, share_models(share_batch@)),
            refusal(old(state)@, share_models(share_batch@), commitments.len() as nat) is None,
            after.count >= after.indices.len() - k + 1,
            k == commitments@[0]@.len(),
            coms == commitment_views(commitments@),
            forall|l: int| 0 <= l < commitments.len() ==> (#[trigger] commitments@[l])@.len() >= 1,
            pub_keys.len() == j,
            positions_of(places@) == trusted_places(after.received, k as nat),
            is_hint(positions_of(places@), after.indices.len(), k as nat),
            forall|l: int|
                0 <= l < j ==> key_matches(
                    (#[trigger] pub_keys@[l])@,
                    rs_precompute@,
                    after.bufs[l],
                    after.received,
                    k as nat,
                    coms[l],
                    h@,
                ),
        decreases b - j,
    {
        proof {
            assert(share_values(candidate.bufs@[j as int]@) =~= model_values(
                after.bufs[j as int],
            ));
        }
        match decode_with_hint(
            rs_precompute,
            candidate.bufs[j].as_slice(),
            k,
            places.as_slice(),
        ) {
            None => {
                assert(!trusted_points_decode(
                    rs_precompute@,
                    after.bufs[j as int],
                    after.received,
                    k as nat,
                ));
                return Err(RKPGError::DecodeFailed);
            },
            Some(poly) => {
                let constant = poly[0];
                let pub_key = recover_key(h, &constant, &commitments[j]);
                proof {
                    use_type_invariant(&constant);
                    let p = scalar_values(poly@);
                    assert(is_decoding(
                        p,
                        rs_precompute@,
                        model_values(after.bufs[j as int]),
                        k as nat,
                    ));
                    assert(pub_key@ == public_key(h@, p[0], coms[j as int][0]));
                }
                pub_keys.push(pub_key);
            },
        }
        j += 1;
    }
    *state = candidate;
    Ok(Some(pub_keys))
}

} // verus!
