//! Multiplication with opening.
//!
//! From shares of two secrets `α` and `β` and of a sharing of zero, every party
//! publishes a share of `αβ`, a Pedersen commitment to the product of its own shares
//! and a proof that the commitment is consistent with the commitments of the two
//! factors. The messages of `2k − 1` parties open `αβ`.

pub mod zkp;

use vstd::prelude::*;
use crate::group::{gej_add, Gej};
use crate::scalar::{be_nat, group_order, scalar_add, scalar_mul, Scalar};
use vstd::arithmetic::div_mod::{lemma_mod_twice, lemma_small_mod};
use crate::scalar::{lemma_congruent_product, lemma_congruent_sum, lemma_order_bounds};
use crate::sss::{
    coefficient_at, interpolate_at_zero, interpolate_shares_at_zero, invertible_differences,
    lemma_eval_at_zero, lemma_interpolation_recovers_constant_term, lemma_masked_product_eval,
    lemma_poly_eval_bound, masked_product, model_indices, model_values, poly_eval,
    share_indices, share_models, share_values, Share, ShareModel,
};
use crate::vss::{
    eval_in_exponent, ped, ped_commit, poly_eval_gej_slice_in_exponent, SharingCommitment,
    VShare, VShareModel,
};
use crate::open::{commitment_views, equal_lengths};
use crate::mulopen::zkp::{
    message_bytes, message_for, response_for, response_valid, MessageModel, Nonce, NonceModel,
    Response, ResponseModel, Witness, WitnessModel,
};

verus! {

/// The SHA-256 digest of `data`, as `sha2::Sha256::digest` computes it.
pub uninterp spec fn sha256(data: Seq<u8>) -> Seq<u8>;

/// Calls `sha2::Sha256::digest` (the associated function of the `Digest` trait) on the
/// bytes and returns the 32 bytes of the digest.
#[verifier::external_body]
fn sha256_digest(data: &Vec<u8>) -> (r: [u8; 32])
    ensures
        r@ == sha256(data@),
{
    <sha2::Sha256 as sha2::Digest>::digest(data.as_slice()).into()
}

/// Why a batch of messages was refused.
#[derive(Clone, Copy, Debug, PartialEq, Eq)]
pub enum MulOpenErr {
    InconsistentShares,
    InvalidShares,
    InvalidZKP,
}

/// What a [`Proof`] stands for.
pub struct ProofModel {
    pub message: MessageModel,
    pub response: ResponseModel,
}

/// What a [`Message`] stands for.
pub struct MulOpenMessageModel {
    pub vshare: VShareModel,
    pub commitment: Seq<u8>,
    pub proof: ProofModel,
}

/// A non-interactive proof: the prover's message and its response to the challenge
/// that the transcript determines.
#[derive(Clone, Copy, Debug, PartialEq, Eq)]
pub struct Proof {
    pub message: zkp::Message,
    pub response: Response,
}

/// What a party publishes for one slot: its share of the masked product, the
/// commitment to the product of its shares, and the proof.
#[derive(Clone, Copy, Debug, PartialEq, Eq)]
pub struct Message {
    pub vshare: VShare,
    pub commitment: Gej,
    pub proof: Proof,
}

impl View for Proof {
    type V = ProofModel;

    open spec fn view(&self) -> ProofModel {
        ProofModel { message: self.message@, response: self.response@ }
    }
}

impl View for Message {
    type V = MulOpenMessageModel;

    open spec fn view(&self) -> MulOpenMessageModel {
        MulOpenMessageModel {
            vshare: self.vshare@,
            commitment: self.commitment@,
            proof: self.proof@,
        }
    }
}

/// The 198 bytes that are hashed into the challenge: `a`, `b`, `c`, `m`, `m1` and `m2`,
/// 33 bytes each.
pub open spec fn transcript(message: MessageModel, a: Seq<u8>, b: Seq<u8>, c: Seq<u8>) -> Seq<u8> {
    a + b + c + message_bytes(message)
}

/// The challenge of a non-interactive proof: the digest of the transcript, read as a
/// number and reduced modulo the group order.
pub open spec fn challenge_for(message: MessageModel, a: Seq<u8>, b: Seq<u8>, c: Seq<u8>) -> nat {
    be_nat(sha256(transcript(message, a, b, c))) % group_order()
}

/// The proof that a prover with the given nonce and witness gives.
pub open spec fn proof_for(
    nonce: NonceModel,
    witness: WitnessModel,
    a: Seq<u8>,
    b: Seq<u8>,
    c: Seq<u8>,
    h: Seq<u8>,
) -> ProofModel {
    let message = message_for(nonce, b, h);
    ProofModel {
        message,
        response: response_for(challenge_for(message, a, b, c), nonce, witness),
    }
}

/// Whether a proof verifies for the commitments `a`, `b` and `c`.
pub open spec fn proof_valid(proof: ProofModel, a: Seq<u8>, b: Seq<u8>, c: Seq<u8>, h: Seq<u8>) -> bool {
    response_valid(
        proof.message,
        challenge_for(proof.message, a, b, c),
        proof.response,
        h,
        a,
        b,
        c,
    )
}

/// The message of a party for one slot, from its shares `av` of `α`, `bv` of `β` and
/// `zv` of zero, the decommitment `tau` of the product and the nonce of the proof.
pub open spec fn initial_message(
    av: VShareModel,
    bv: VShareModel,
    zv: VShareModel,
    tau: nat,
    nonce: NonceModel,
    h: Seq<u8>,
) -> MulOpenMessageModel {
    let product = scalar_mul(av.value, bv.value);
    let a = ped(h, av.value, av.decommitment);
    let b = ped(h, bv.value, bv.decommitment);
    let c = ped(h, product, tau);
    MulOpenMessageModel {
        vshare: VShareModel {
            index: av.index,
            value: scalar_add(product, zv.value),
            decommitment: scalar_add(tau, zv.decommitment),
        },
        commitment: c,
        proof: proof_for(
            nonce,
            WitnessModel {
                alpha: av.value,
                beta: bv.value,
                rho: av.decommitment,
                sigma: bv.decommitment,
                tau,
            },
            a,
            b,
            c,
            h,
        ),
    }
}

/// The models of a batch of messages.
pub open spec fn message_models(batch: Seq<Message>) -> Seq<MulOpenMessageModel> {
    Seq::new(batch.len(), |i: int| batch[i]@)
}

/// The models of the buffers of a state.
pub open spec fn share_buffers(state: Seq<Vec<Share>>) -> Seq<Seq<ShareModel>> {
    Seq::new(state.len(), |i: int| share_models(state[i]@))
}

/// Whether all messages of a batch carry shares with the index of the first.
pub open spec fn shares_consistent(batch: Seq<MulOpenMessageModel>) -> bool {
    forall|i: int| 0 <= i < batch.len() ==> (#[trigger] batch[i]).vshare.index == batch[0].vshare.index
}

/// Whether the share of message `i` opens the sum of the zero sharing's commitment at
/// the sender's index and the message's commitment to the product.
pub open spec fn share_matches(
    batch: Seq<MulOpenMessageModel>,
    z_commitments: Seq<Seq<Seq<u8>>>,
    h: Seq<u8>,
    i: int,
) -> bool {
    ped(h, batch[i].vshare.value, batch[i].vshare.decommitment) == gej_add(
        eval_in_exponent(z_commitments[i], batch[0].vshare.index),
        batch[i].commitment,
    )
}

/// Whether the proof of message `i` verifies against the commitments of `α` and `β` at
/// the sender's index and the message's commitment to the product.
pub open spec fn proof_matches(
    batch: Seq<MulOpenMessageModel>,
    a_commitments: Seq<Seq<Seq<u8>>>,
    b_commitments: Seq<Seq<Seq<u8>>>,
    h: Seq<u8>,
    i: int,
) -> bool {
    proof_valid(
        batch[i].proof,
        eval_in_exponent(a_commitments[i], batch[0].vshare.index),
        eval_in_exponent(b_commitments[i], batch[0].vshare.index),
        batch[i].commitment,
        h,
    )
}

/// The error, if any, with which a batch of messages is refused: the first that
/// applies, in the order of the checks.
pub open spec fn refusal(
    batch: Seq<MulOpenMessageModel>,
    a_commitments: Seq<Seq<Seq<u8>>>,
    b_commitments: Seq<Seq<Seq<u8>>>,
    z_commitments: Seq<Seq<Seq<u8>>>,
    h: Seq<u8>,
) -> Option<MulOpenErr> {
    if !shares_consistent(batch) {
        Some(MulOpenErr::InconsistentShares)
    } else if exists|i: int| 0 <= i < batch.len() && !share_matches(batch, z_commitments, h, i) {
        Some(MulOpenErr::InvalidShares)
    } else if exists|i: int|
        0 <= i < batch.len() && !proof_matches(batch, a_commitments, b_commitments, h, i) {
        Some(MulOpenErr::InvalidZKP)
    } else {
        None
    }
}

/// The buffers with the share of each message appended to the buffer of its slot.
pub open spec fn with_shares(
    state: Seq<Seq<ShareModel>>,
    batch: Seq<MulOpenMessageModel>,
) -> Seq<Seq<ShareModel>> {
    Seq::new(
        state.len(),
        |i: int|
            state[i].push(
                ShareModel { index: batch[i].vshare.index, value: batch[i].vshare.value },
            ),
    )
}

/// The secret that the shares of each buffer interpolate to.
pub open spec fn opened(state: Seq<Seq<ShareModel>>) -> Seq<nat> {
    Seq::new(
        state.len(),
        |i: int| interpolate_at_zero(model_indices(state[i]), model_values(state[i])),
    )
}

/// The number of shares that open a product: `2k − 1`, where `k` is the length of the
/// commitments of the factors.
pub open spec fn opening_threshold(a_commitments: Seq<Seq<Seq<u8>>>) -> int {
    2 * a_commitments[0].len() - 1
}

/// Whether some buffer holds at least `threshold` shares.
pub open spec fn some_buffer_holds(state: Seq<Seq<ShareModel>>, threshold: int) -> bool {
    exists|i: int| 0 <= i < state.len() && (#[trigger] state[i]).len() >= threshold
}

/// The buffers after a batch of messages: unchanged if the batch is refused or some
/// buffer held `2k − 1` shares before; else with the shares of the batch appended.
pub open spec fn step_state(
    state: Seq<Seq<ShareModel>>,
    batch: Seq<MulOpenMessageModel>,
    a_commitments: Seq<Seq<Seq<u8>>>,
    b_commitments: Seq<Seq<Seq<u8>>>,
    z_commitments: Seq<Seq<Seq<u8>>>,
    h: Seq<u8>,
) -> Seq<Seq<ShareModel>> {
    if refusal(batch, a_commitments, b_commitments, z_commitments, h) is Some
        || some_buffer_holds(state, opening_threshold(a_commitments)) {
        state
    } else {
        with_shares(state, batch)
    }
}

/// What a batch of messages returns: the refusal if there is one; nothing if some
/// buffer held `2k − 1` shares before; else the opened products, exactly when the batch
/// brings some buffer to `2k − 1` shares.
pub open spec fn step_outcome(
    state: Seq<Seq<ShareModel>>,
    batch: Seq<MulOpenMessageModel>,
    a_commitments: Seq<Seq<Seq<u8>>>,
    b_commitments: Seq<Seq<Seq<u8>>>,
    z_commitments: Seq<Seq<Seq<u8>>>,
    h: Seq<u8>,
) -> Result<Option<Seq<nat>>, MulOpenErr> {
    match refusal(batch, a_commitments, b_commitments, z_commitments, h) {
        Some(e) => Err(e),
        None => if !some_buffer_holds(state, opening_threshold(a_commitments))
            && some_buffer_holds(with_shares(state, batch), opening_threshold(a_commitments)) {
            Ok(Some(opened(with_shares(state, batch))))
        } else {
            Ok(None)
        },
    }
}

/// A batch that is refused is answered with its error and leaves the buffers as they
/// were.
pub proof fn lemma_refused_batch_changes_nothing(
    state: Seq<Seq<ShareModel>>,
    batch: Seq<MulOpenMessageModel>,
    a_commitments: Seq<Seq<Seq<u8>>>,
    b_commitments: Seq<Seq<Seq<u8>>>,
    z_commitments: Seq<Seq<Seq<u8>>>,
    h: Seq<u8>,
)
    requires
        refusal(batch, a_commitments, b_commitments, z_commitments, h) is Some,
    ensures
        step_state(state, batch, a_commitments, b_commitments, z_commitments, h) == state,
        step_outcome(state, batch, a_commitments, b_commitments, z_commitments, h) is Err,
{
}

/// Once some buffer holds `2k − 1` shares, a batch that passes the checks is answered
/// with `Ok(None)` and leaves the buffers as they were.
pub proof fn lemma_late_batch_changes_nothing(
    state: Seq<Seq<ShareModel>>,
    batch: Seq<MulOpenMessageModel>,
    a_commitments: Seq<Seq<Seq<u8>>>,
    b_commitments: Seq<Seq<Seq<u8>>>,
    z_commitments: Seq<Seq<Seq<u8>>>,
    h: Seq<u8>,
)
    requires
        some_buffer_holds(state, opening_threshold(a_commitments)),
        refusal(batch, a_commitments, b_commitments, z_commitments, h) is None,
    ensures
        step_state(state, batch, a_commitments, b_commitments, z_commitments, h) == state,
        step_outcome(state, batch, a_commitments, b_commitments, z_commitments, h) == Ok::<
            Option<Seq<nat>>,
            MulOpenErr,
        >(None),
{
}

/// Buffers of one length stay of one length, and never grow beyond `2k − 1` shares.
pub proof fn lemma_step_keeps_lockstep(
    state: Seq<Seq<ShareModel>>,
    batch: Seq<MulOpenMessageModel>,
    a_commitments: Seq<Seq<Seq<u8>>>,
    b_commitments: Seq<Seq<Seq<u8>>>,
    z_commitments: Seq<Seq<Seq<u8>>>,
    h: Seq<u8>,
)
    requires
        state.len() > 0,
        equal_lengths(state),
        state[0].len() <= opening_threshold(a_commitments),
    ensures
        equal_lengths(step_state(state, batch, a_commitments, b_commitments, z_commitments, h)),
        step_state(state, batch, a_commitments, b_commitments, z_commitments, h)[0].len()
            <= opening_threshold(a_commitments),
{
    let next = step_state(state, batch, a_commitments, b_commitments, z_commitments, h);
    if next != state {
        assert(next == with_shares(state, batch));
        assert(!some_buffer_holds(state, opening_threshold(a_commitments)));
        assert(state[0].len() < opening_threshold(a_commitments));
        assert forall|i: int, j: int| 0 <= i < next.len() && 0 <= j < next.len() implies next[i].len()
            == next[j].len() by {
            assert(state[i].len() == state[j].len());
        }
    }
}

/// Whether every buffer holds `2k − 1` shares, each the product of the values of the
/// polynomials `a_polys[j]` and `b_polys[j]`, with `k` coefficients each, plus the value
/// of the polynomial `z_polys[j]` with no constant term, at indices with invertible
/// differences.
pub open spec fn buffers_hold_masked_products(
    state: Seq<Seq<ShareModel>>,
    a_polys: Seq<Seq<nat>>,
    b_polys: Seq<Seq<nat>>,
    z_polys: Seq<Seq<nat>>,
) -> bool {
    &&& a_polys.len() == state.len()
    &&& b_polys.len() == state.len()
    &&& z_polys.len() == state.len()
    &&& forall|j: int|
        0 <= j < state.len() ==> {
            &&& a_polys[j].len() >= 1
            &&& b_polys[j].len() == a_polys[j].len()
            &&& z_polys[j].len() <= 2 * a_polys[j].len() - 1
            &&& coefficient_at(z_polys[j], 0) % group_order() == 0
            &&& (#[trigger] state[j]).len() == 2 * a_polys[j].len() - 1
            &&& invertible_differences(model_indices(state[j]))
            &&& forall|i: int|
                0 <= i < state[j].len() ==> (#[trigger] state[j][i]).value == scalar_add(
                    scalar_mul(
                        poly_eval(a_polys[j], state[j][i].index),
                        poly_eval(b_polys[j], state[j][i].index),
                    ),
                    poly_eval(z_polys[j], state[j][i].index),
                )
        }
}

/// Buffers of `2k − 1` shares of masked products open to the products of the constant
/// terms of the factors: the products of the secrets.
pub proof fn lemma_opened_is_product(
    state: Seq<Seq<ShareModel>>,
    a_polys: Seq<Seq<nat>>,
    b_polys: Seq<Seq<nat>>,
    z_polys: Seq<Seq<nat>>,
)
    requires
        buffers_hold_masked_products(state, a_polys, b_polys, z_polys),
    ensures
        opened(state).len() == state.len(),
        forall|j: int|
            0 <= j < state.len() ==> (#[trigger] opened(state)[j]) == scalar_mul(
                a_polys[j][0],
                b_polys[j][0],
            ),
{
    let m = group_order() as int;
    lemma_order_bounds();
    assert forall|j: int| 0 <= j < state.len() implies (#[trigger] opened(state)[j])
        == scalar_mul(a_polys[j][0], b_polys[j][0]) by {
        let buf = state[j];
        let a = a_polys[j];
        let b = b_polys[j];
        let z = z_polys[j];
        let c = masked_product(a, b, z);
        let xs = model_indices(buf);
        let vs = model_values(buf);
        assert(buf.len() == 2 * a.len() - 1);
        lemma_masked_product_eval(a, b, z, 0);
        assert forall|i: int| 0 <= i < xs.len() implies #[trigger] vs[i] % group_order()
            == poly_eval(c, xs[i]) by {
            lemma_masked_product_eval(a, b, z, xs[i]);
            lemma_poly_eval_bound(c, xs[i], 0);
            assert(vs[i] == buf[i].value);
            lemma_small_mod(vs[i], group_order());
        }
        lemma_interpolation_recovers_constant_term(xs, vs, c);
        // The constant term of the masked product.
        lemma_eval_at_zero(c, 0);
        lemma_eval_at_zero(a, 0);
        lemma_eval_at_zero(b, 0);
        lemma_eval_at_zero(z, 0);
        let a0 = a[0] as int;
        let b0 = b[0] as int;
        lemma_mod_twice(a0, m);
        lemma_mod_twice(b0, m);
        lemma_congruent_product(a0 % m, a0, b0 % m, b0);
        lemma_mod_twice(a0 * b0, m);
        lemma_small_mod(0, group_order());
        lemma_congruent_sum(((a0 % m) * (b0 % m)) % m, a0 * b0, 0, 0);
    }
}

/// The batch that brings the buffers to `2k − 1` shares, where the shares then in the
/// buffers are shares of masked products, is answered with the products of the secrets.
pub proof fn lemma_opening_returns_products(
    state: Seq<Seq<ShareModel>>,
    batch: Seq<MulOpenMessageModel>,
    a_commitments: Seq<Seq<Seq<u8>>>,
    b_commitments: Seq<Seq<Seq<u8>>>,
    z_commitments: Seq<Seq<Seq<u8>>>,
    h: Seq<u8>,
    a_polys: Seq<Seq<nat>>,
    b_polys: Seq<Seq<nat>>,
    z_polys: Seq<Seq<nat>>,
)
    requires
        state.len() > 0,
        refusal(batch, a_commitments, b_commitments, z_commitments, h) is None,
        !some_buffer_holds(state, opening_threshold(a_commitments)),
        a_polys.len() > 0,
        a_polys[0].len() == a_commitments[0].len(),
        buffers_hold_masked_products(with_shares(state, batch), a_polys, b_polys, z_polys),
    ensures
        step_outcome(state, batch, a_commitments, b_commitments, z_commitments, h) matches Ok(
            Some(products),
        ) && products.len() == state.len() && forall|j: int|
            0 <= j < state.len() ==> (#[trigger] products[j]) == scalar_mul(
                a_polys[j][0],
                b_polys[j][0],
            ),
{
    let next = with_shares(state, batch);
    lemma_opened_is_product(next, a_polys, b_polys, z_polys);
    assert(next[0].len() == 2 * a_polys[0].len() - 1);
    assert(some_buffer_holds(next, opening_threshold(a_commitments)));
}

/// The values inside the outcome of a step.
pub open spec fn outcome_values(r: Result<Option<Vec<Scalar>>, MulOpenErr>) -> Result<
    Option<Seq<nat>>,
    MulOpenErr,
> {
    match r {
        Ok(Some(v)) => Ok(Some(crate::sss::scalar_values(v@))),
        Ok(None) => Ok(None),
        Err(e) => Err(e),
    }
}

/// Whether all commitment vectors of a batch have length `k`.
pub open spec fn all_have_length(batch: Seq<Seq<Seq<u8>>>, k: nat) -> bool {
    forall|i: int| 0 <= i < batch.len() ==> (#[trigger] batch[i]).len() == k
}

fn compute_challenge(message: &zkp::Message, a: &Gej, b: &Gej, c: &Gej) -> (r: Scalar)
    ensures
        r@ == challenge_for(message@, a@, b@, c@),
{
    let mut bs: Vec<u8> = Vec::with_capacity(198);
    let mut i: usize = 0;
    while i < 198
        invariant
            i <= 198,
            bs.len() == i,
        decreases 198 - i,
    {
        bs.push(0u8);
        i += 1;
    }
    let a_bytes = a.to_bytes();
    let b_bytes = b.to_bytes();
    let c_bytes = c.to_bytes();
    let m_bytes = message.m.to_bytes();
    let m1_bytes = message.m1.to_bytes();
    let m2_bytes = message.m2.to_bytes();
    a.put_bytes(&mut bs, 0);
    b.put_bytes(&mut bs, 33);
    c.put_bytes(&mut bs, 66);
    message.put_bytes(&mut bs, 99);
    assert(bs@ =~= transcript(message@, a@, b@, c@));
    let hash = sha256_digest(&bs);
    Scalar::from_b32_reduced(&hash)
}

/// The proof of a prover with a given nonce.
pub fn prove_with_nonce(nonce: &Nonce, witness: &Witness, a: &Gej, b: &Gej, c: &Gej, h: &Gej) -> (r:
    Proof)
    ensures
        r@ == proof_for(nonce@, witness@, a@, b@, c@, h@),
{
    let message = zkp::message_for_nonce(nonce, b, h);
    let challenge = compute_challenge(&message, a, b, c);
    let response = zkp::response_for_challenge(&challenge, nonce, witness);
    Proof { message, response }
}

/// Proves that `a`, `b` and `c` commit to the values of the witness, with a fresh
/// nonce.
pub fn prove(witness: &Witness, a: &Gej, b: &Gej, c: &Gej, h: &Gej) -> (r: Proof)
    ensures
        exists|nonce: NonceModel| r@ == #[trigger] proof_for(nonce, witness@, a@, b@, c@, h@),
{
    let (message, nonce) = zkp::message_and_nonce(b, h);
    let challenge = compute_challenge(&message, a, b, c);
    let response = zkp::response_for_challenge(&challenge, &nonce, witness);
    let proof = Proof { message, response };
    assert(proof@ == proof_for(nonce@, witness@, a@, b@, c@, h@));
    proof
}

/// Verifies a proof against the commitments `a`, `b` and `c`.
pub fn verify(proof: &Proof, a: &Gej, b: &Gej, c: &Gej, h: &Gej) -> (r: bool)
    ensures
        r == proof_valid(proof@, a@, b@, c@, h@),
{
    let challenge = compute_challenge(&proof.message, a, b, c);
    zkp::verify_response(&proof.message, &challenge, &proof.response, h, a, b, c)
}

/// The message of a party for one slot, with a given decommitment of the product and a
/// given nonce.
pub fn initial_message_with(
    a_vshare: &VShare,
    b_vshare: &VShare,
    z_vshare: &VShare,
    tau: &Scalar,
    nonce: &Nonce,
    h: &Gej,
) -> (r: Message)
    ensures
        r@ == initial_message(a_vshare@, b_vshare@, z_vshare@, tau@, nonce@, h@),
{
    let alpha = a_vshare.share.value;
    let rho = a_vshare.decommitment;
    let beta = b_vshare.share.value;
    let sigma = b_vshare.decommitment;
    let product = alpha.mul(&beta);
    let a = ped_commit(h, &alpha, &rho);
    let b = ped_commit(h, &beta, &sigma);
    let c = ped_commit(h, &product, tau);
    let witness = Witness::new(alpha, beta, rho, sigma, *tau);
    let proof = prove_with_nonce(nonce, &witness, &a, &b, &c, h);
    let vshare = VShare {
        share: Share {
            index: a_vshare.share.index,
            value: product.add(&z_vshare.share.value),
        },
        decommitment: tau.add(&z_vshare.decommitment),
    };
    Message { vshare, commitment: c, proof }
}

/// Whether a message is the one that a party gives for one slot from the shares `av`,
/// `bv` and `zv`, for some decommitment of the product and some nonce.
pub open spec fn is_initial_message(
    message: MulOpenMessageModel,
    av: VShareModel,
    bv: VShareModel,
    zv: VShareModel,
    h: Seq<u8>,
) -> bool {
    exists|tau: nat, nonce: NonceModel|
        message == #[trigger] initial_message(av, bv, zv, tau, nonce, h)
}

/// Whether all shares of a batch have the given index.
pub open spec fn all_at_index(batch: Seq<VShare>, index: nat) -> bool {
    forall|i: int| 0 <= i < batch.len() ==> (#[trigger] batch[i])@.index == index
}

/// The messages of a party: one for each slot, from its shares of `α`, of `β` and of
/// zero, each with a fresh decommitment of the product and a fresh nonce.
pub fn initial_message_batch(
    a_vshare_batch: Vec<VShare>,
    b_vshare_batch: Vec<VShare>,
    z_vshare_batch: Vec<VShare>,
    h: &Gej,
) -> (r: Vec<Message>)
    requires
        a_vshare_batch.len() > 0,
        b_vshare_batch.len() == a_vshare_batch.len(),
        z_vshare_batch.len() == a_vshare_batch.len(),
        all_at_index(a_vshare_batch@, a_vshare_batch@[0]@.index),
        all_at_index(b_vshare_batch@, a_vshare_batch@[0]@.index),
        all_at_index(z_vshare_batch@, a_vshare_batch@[0]@.index),
    ensures
        r.len() == a_vshare_batch.len(),
        forall|i: int|
            0 <= i < r.len() ==> is_initial_message(
                (#[trigger] r@[i])@,
                a_vshare_batch@[i]@,
                b_vshare_batch@[i]@,
                z_vshare_batch@[i]@,
                h@,
            ),
{
    let b = a_vshare_batch.len();
    let mut message_batch: Vec<Message> = Vec::with_capacity(b);
    let mut batch: usize = 0;
    while batch < b
        invariant
            batch <= b,
            b == a_vshare_batch.len(),
            b == b_vshare_batch.len(),
            b == z_vshare_batch.len(),
            message_batch.len() == batch,
            forall|i: int|
                0 <= i < batch ==> is_initial_message(
                    (#[trigger] message_batch@[i])@,
                    a_vshare_batch@[i]@,
                    b_vshare_batch@[i]@,
                    z_vshare_batch@[i]@,
                    h@,
                ),
        decreases b - batch,
    {
        let tau = Scalar::new_random();
        let nonce = Nonce {
            d: Scalar::new_random(),
            s: Scalar::new_random(),
            x: Scalar::new_random(),
            s1: Scalar::new_random(),
            s2: Scalar::new_random(),
        };
        let message = initial_message_with(
            &a_vshare_batch[batch],
            &b_vshare_batch[batch],
            &z_vshare_batch[batch],
            &tau,
            &nonce,
            h,
        );
        assert(message@ == initial_message(
            a_vshare_batch@[batch as int]@,
            b_vshare_batch@[batch as int]@,
            z_vshare_batch@[batch as int]@,
            tau@,
            nonce@,
            h@,
        ));
        message_batch.push(message);
        batch += 1;
    }
    message_batch
}

/// Whether some buffer holds at least `threshold` shares.
fn holds_threshold(state: &Vec<Vec<Share>>, threshold: u128) -> (r: bool)
    ensures
        r == some_buffer_holds(share_buffers(state@), threshold as int),
{
    let mut i: usize = 0;
    while i < state.len()
        invariant
            i <= state.len(),
            forall|j: int|
                0 <= j < i ==> (#[trigger] share_buffers(state@)[j]).len() < threshold,
        decreases state.len() - i,
    {
        if state[i].len() as u128 >= threshold {
            assert(share_buffers(state@)[i as int].len() >= threshold);
            return true;
        }
        i += 1;
    }
    false
}

/// Handles the batch of messages of one party: one message for each slot.
///
/// A batch that fails a check is refused and changes nothing. A batch that arrives
/// after some buffer has reached `2k − 1` shares, where `k` is the length of the
/// commitments of the factors, changes nothing and returns `Ok(None)`. Any other batch
/// has its shares appended to the buffers; the one that brings a buffer to `2k − 1`
/// shares returns the opened products.
pub fn handle_message_batch(
    state: &mut Vec<Vec<Share>>,
    message_batch: Vec<Message>,
    a_commitment_batch: &[SharingCommitment],
    b_commitment_batch: &[SharingCommitment],
    z_commitment_batch: &[SharingCommitment],
    h: &Gej,
) -> (r: Result<Option<Vec<Scalar>>, MulOpenErr>)
    requires
        message_batch.len() > 0,
        a_commitment_batch.len() == message_batch.len(),
        b_commitment_batch.len() == message_batch.len(),
        z_commitment_batch.len() == message_batch.len(),
        old(state).len() == message_batch.len(),
        a_commitment_batch@[0]@.len() >= 1,
        all_have_length(commitment_views(a_commitment_batch@), a_commitment_batch@[0]@.len()),
        all_have_length(commitment_views(b_commitment_batch@), a_commitment_batch@[0]@.len()),
    ensures
        final(state).len() == old(state).len(),
        share_buffers(final(state)@) == step_state(
            share_buffers(old(state)@),
            message_models(message_batch@),
            commitment_views(a_commitment_batch@),
            commitment_views(b_commitment_batch@),
            commitment_views(z_commitment_batch@),
            h@,
        ),
        outcome_values(r) == step_outcome(
            share_buffers(old(state)@),
            message_models(message_batch@),
            commitment_views(a_commitment_batch@),
            commitment_views(b_commitment_batch@),
            commitment_views(z_commitment_batch@),
            h@,
        ),
        r is Err ==> share_buffers(final(state)@) == share_buffers(old(state)@),
{
    let ghost batch = message_models(message_batch@);
    let ghost a_coms = commitment_views(a_commitment_batch@);
    let ghost b_coms = commitment_views(b_commitment_batch@);
    let ghost z_coms = commitment_views(z_commitment_batch@);
    let b = message_batch.len();
    let k = a_commitment_batch[0].len();
    let index = message_batch[0].vshare.share.index;
    assert(batch[0].vshare.index == index@);

    let mut i: usize = 0;
    while i < b
        invariant
            i <= b,
            b == message_batch.len(),
            batch == message_models(message_batch@),
            batch[0].vshare.index == index@,
            state@ == old(state)@,
            forall|j: int| 0 <= j < i ==> (#[trigger] batch[j]).vshare.index == index@,
        decreases b - i,
    {
        if !message_batch[i].vshare.share.index.eq(&index) {
            assert(batch[i as int].vshare.index != batch[0].vshare.index);
            return Err(MulOpenErr::InconsistentShares);
        }
        i += 1;
    }
    assert(shares_consistent(batch));

    i = 0;
    while i < b
        invariant
            i <= b,
            b == message_batch.len(),
            b == z_commitment_batch.len(),
            batch == message_models(message_batch@),
            z_coms == commitment_views(z_commitment_batch@),
            batch[0].vshare.index == index@,
            shares_consistent(batch),
            state@ == old(state)@,
            forall|j: int| 0 <= j < i ==> share_matches(batch, z_coms, h@, j),
        decreases b - i,
    {
        let message = &message_batch[i];
        let com = poly_eval_gej_slice_in_exponent(&z_commitment_batch[i], &index).add(
            &message.commitment,
        );
        let check = ped_commit(h, &message.vshare.share.value, &message.vshare.decommitment);
        if !check.eq(&com) {
            assert(!share_matches(batch, z_coms, h@, i as int));
            return Err(MulOpenErr::InvalidShares);
        }
        i += 1;
    }

    i = 0;
    while i < b
        invariant
            i <= b,
            b == message_batch.len(),
            b == a_commitment_batch.len(),
            b == b_commitment_batch.len(),
            batch == message_models(message_batch@),
            a_coms == commitment_views(a_commitment_batch@),
            b_coms == commitment_views(b_commitment_batch@),
            z_coms == commitment_views(z_commitment_batch@),
            batch[0].vshare.index == index@,
            shares_consistent(batch),
            forall|j: int| 0 <= j < b ==> share_matches(batch, z_coms, h@, j),
            state@ == old(state)@,
            forall|j: int| 0 <= j < i ==> proof_matches(batch, a_coms, b_coms, h@, j),
        decreases b - i,
    {
        let message = &message_batch[i];
        let a = poly_eval_gej_slice_in_exponent(&a_commitment_batch[i], &index);
        let b_point = poly_eval_gej_slice_in_exponent(&b_commitment_batch[i], &index);
        if !verify(&message.proof, &a, &b_point, &message.commitment, h) {
            assert(!proof_matches(batch, a_coms, b_coms, h@, i as int));
            return Err(MulOpenErr::InvalidZKP);
        }
        i += 1;
    }
    assert(refusal(batch, a_coms, b_coms, z_coms, h@) is None);

    let threshold: u128 = 2 * (k as u128) - 1;
    assert(threshold == opening_threshold(a_coms));
    if holds_threshold(state, threshold) {
        return Ok(None);
    }
    i = 0;
    while i < b
        invariant
            i <= b,
            b == message_batch.len(),
            b == state.len(),
            state.len() == old(state).len(),
            forall|j: int|
                0 <= j < i ==> (#[trigger] state@[j])@ == old(state)@[j]@.push(
                    message_batch@[j].vshare.share,
                ),
            forall|j: int| i <= j < b ==> state@[j] == old(state)@[j],
        decreases b - i,
    {
        state[i].push(message_batch[i].vshare.share);
        i += 1;
    }
    assert(share_buffers(state@) =~~= with_shares(share_buffers(old(state)@), batch));

    if holds_threshold(state, threshold) {
        let mut secrets: Vec<Scalar> = Vec::with_capacity(b);
        let mut j: usize = 0;
        while j < b
            invariant
                j <= b,
                b == state.len(),
                secrets.len() == j,
                forall|l: int|
                    0 <= l < j ==> (#[trigger] secrets@[l])@ == opened(share_buffers(state@))[l],
            decreases b - j,
        {
            let secret = interpolate_shares_at_zero(state[j].as_slice());
            proof {
                let buf = state@[j as int]@;
                assert(share_indices(buf) =~= model_indices(share_buffers(state@)[j as int]));
                assert(share_values(buf) =~= model_values(share_buffers(state@)[j as int]));
            }
            secrets.push(secret);
            j += 1;
        }
        assert(crate::sss::scalar_values(secrets@) =~= opened(share_buffers(state@)));
        return Ok(Some(secrets));
    }
    Ok(None)
}

} // verus!
