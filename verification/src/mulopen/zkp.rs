//! The proof of knowledge behind a multiplication: a three-move protocol that shows
//! that three Pedersen commitments `a`, `b` and `c` commit to values `α`, `β` and `αβ`.
//!
//! The prover commits to a nonce with a [`Message`], receives a challenge, and answers
//! with a [`Response`]; the verifier checks three equations in the group.

use vstd::prelude::*;
use crate::group::{gej_add, gej_mul, overwritten, Gej};
use crate::scalar::{group_order, scalar_add, scalar_mul, scalar_sub, Scalar};
use crate::vss::{ped, ped_commit};

verus! {

/// What a [`Message`] stands for.
pub struct MessageModel {
    pub m: Seq<u8>,
    pub m1: Seq<u8>,
    pub m2: Seq<u8>,
}

/// What a [`Nonce`] stands for.
pub struct NonceModel {
    pub d: nat,
    pub s: nat,
    pub x: nat,
    pub s1: nat,
    pub s2: nat,
}

/// What a [`Response`] stands for.
pub struct ResponseModel {
    pub y: nat,
    pub w: nat,
    pub z: nat,
    pub w1: nat,
    pub w2: nat,
}

/// What a [`Witness`] stands for.
pub struct WitnessModel {
    pub alpha: nat,
    pub beta: nat,
    pub rho: nat,
    pub sigma: nat,
    pub tau: nat,
}

/// The prover's first move: commitments to the nonce.
#[derive(Clone, Copy, Debug, PartialEq, Eq)]
pub struct Message {
    pub m: Gej,
    pub m1: Gej,
    pub m2: Gej,
}

/// The prover's secret randomness for one proof.
#[derive(Clone, Copy, Debug)]
pub struct Nonce {
    pub d: Scalar,
    pub s: Scalar,
    pub x: Scalar,
    pub s1: Scalar,
    pub s2: Scalar,
}

/// The prover's answer to a challenge.
#[derive(Clone, Copy, Debug, PartialEq, Eq)]
pub struct Response {
    pub y: Scalar,
    pub w: Scalar,
    pub z: Scalar,
    pub w1: Scalar,
    pub w2: Scalar,
}

/// The values behind the three commitments and their decommitments.
#[derive(Clone, Copy, Debug)]
pub struct Witness {
    pub alpha: Scalar,
    pub beta: Scalar,
    pub rho: Scalar,
    pub sigma: Scalar,
    pub tau: Scalar,
}

impl View for Message {
    type V = MessageModel;

    open spec fn view(&self) -> MessageModel {
        MessageModel { m: self.m@, m1: self.m1@, m2: self.m2@ }
    }
}

impl View for Nonce {
    type V = NonceModel;

    open spec fn view(&self) -> NonceModel {
        NonceModel { d: self.d@, s: self.s@, x: self.x@, s1: self.s1@, s2: self.s2@ }
    }
}

impl View for Response {
    type V = ResponseModel;

    open spec fn view(&self) -> ResponseModel {
        ResponseModel { y: self.y@, w: self.w@, z: self.z@, w1: self.w1@, w2: self.w2@ }
    }
}

impl View for Witness {
    type V = WitnessModel;

    open spec fn view(&self) -> WitnessModel {
        WitnessModel {
            alpha: self.alpha@,
            beta: self.beta@,
            rho: self.rho@,
            sigma: self.sigma@,
            tau: self.tau@,
        }
    }
}

/// The bytes of a message: `m`, `m1` and `m2`, 33 bytes each.
pub open spec fn message_bytes(message: MessageModel) -> Seq<u8> {
    message.m + message.m1 + message.m2
}

/// The message that commits to a nonce: `m = g^d h^s`, `m1 = g^x h^s1`,
/// `m2 = b^x h^s2`.
pub open spec fn message_for(nonce: NonceModel, b: Seq<u8>, h: Seq<u8>) -> MessageModel {
    MessageModel {
        m: ped(h, nonce.d, nonce.s),
        m1: ped(h, nonce.x, nonce.s1),
        m2: gej_add(gej_mul(b, nonce.x), gej_mul(h, nonce.s2)),
    }
}

/// The response to the challenge `e`: `y = d + eβ`, `w = s + eσ`, `z = x + eα`,
/// `w1 = s1 + eρ`, `w2 = s2 + e(τ − σα)`.
pub open spec fn response_for(e: nat, nonce: NonceModel, witness: WitnessModel) -> ResponseModel {
    ResponseModel {
        y: scalar_add(nonce.d, scalar_mul(e, witness.beta)),
        w: scalar_add(nonce.s, scalar_mul(e, witness.sigma)),
        z: scalar_add(nonce.x, scalar_mul(e, witness.alpha)),
        w1: scalar_add(nonce.s1, scalar_mul(e, witness.rho)),
        w2: scalar_add(
            nonce.s2,
            scalar_mul(e, scalar_sub(witness.tau, scalar_mul(witness.sigma, witness.alpha))),
        ),
    }
}

/// Whether a response answers the challenge `e` for the message and the commitments:
/// `g^y h^w = b^e m`, `g^z h^w1 = a^e m1` and `b^z h^w2 = c^e m2`.
pub open spec fn response_valid(
    message: MessageModel,
    e: nat,
    response: ResponseModel,
    h: Seq<u8>,
    a: Seq<u8>,
    b: Seq<u8>,
    c: Seq<u8>,
) -> bool {
    &&& ped(h, response.y, response.w) == gej_add(gej_mul(b, e), message.m)
    &&& ped(h, response.z, response.w1) == gej_add(gej_mul(a, e), message.m1)
    &&& gej_add(gej_mul(b, response.z), gej_mul(h, response.w2)) == gej_add(
        gej_mul(c, e),
        message.m2,
    )
}

impl Message {
    /// Writes the 99 bytes of the message into `bs`, from position `offset` on.
    pub fn put_bytes(&self, bs: &mut Vec<u8>, offset: usize)
        requires
            offset + 99 <= old(bs).len(),
        ensures
            final(bs)@ == overwritten(old(bs)@, offset as int, message_bytes(self@)),
    {
        let m = self.m.to_bytes();
        let m1 = self.m1.to_bytes();
        let m2 = self.m2.to_bytes();
        self.m.put_bytes(bs, offset);
        self.m1.put_bytes(bs, offset + 33);
        self.m2.put_bytes(bs, offset + 66);
        assert(bs@ =~= overwritten(old(bs)@, offset as int, message_bytes(self@)));
    }
}

impl Witness {
    /// The witness with the given values.
    pub fn new(alpha: Scalar, beta: Scalar, rho: Scalar, sigma: Scalar, tau: Scalar) -> (r:
        Witness)
        ensures
            r@ == (WitnessModel {
                alpha: alpha@,
                beta: beta@,
                rho: rho@,
                sigma: sigma@,
                tau: tau@,
            }),
    {
        Witness { alpha, beta, rho, sigma, tau }
    }
}

/// The message that commits to a given nonce.
pub fn message_for_nonce(nonce: &Nonce, b: &Gej, h: &Gej) -> (r: Message)
    ensures
        r@ == message_for(nonce@, b@, h@),
{
    let m = ped_commit(h, &nonce.d, &nonce.s);
    let m1 = ped_commit(h, &nonce.x, &nonce.s1);
    let hpow = h.scalar_mul(&nonce.s2);
    let m2 = b.scalar_mul(&nonce.x).add(&hpow);
    Message { m, m1, m2 }
}

/// Draws a nonce at random and commits to it.
pub fn message_and_nonce(b: &Gej, h: &Gej) -> (r: (Message, Nonce))
    ensures
        r.0@ == message_for(r.1@, b@, h@),
{
    let nonce = Nonce {
        d: Scalar::new_random(),
        s: Scalar::new_random(),
        x: Scalar::new_random(),
        s1: Scalar::new_random(),
        s2: Scalar::new_random(),
    };
    let message = message_for_nonce(&nonce, b, h);
    (message, nonce)
}

/// A challenge drawn at random from the whole field, as an interactive verifier would
/// send it: whatever is drawn is below the group order.
pub fn new_challenge() -> (r: Scalar)
    ensures
        r@ < group_order(),
{
    Scalar::new_random()
}

/// The prover's response to a challenge.
pub fn response_for_challenge(challenge: &Scalar, nonce: &Nonce, witness: &Witness) -> (r:
    Response)
    ensures
        r@ == response_for(challenge@, nonce@, witness@),
{
    let e = challenge;
    let product = witness.sigma.mul(&witness.alpha);
    let difference = witness.tau.sub(&product);
    Response {
        y: nonce.d.add(&e.mul(&witness.beta)),
        w: nonce.s.add(&e.mul(&witness.sigma)),
        z: nonce.x.add(&e.mul(&witness.alpha)),
        w1: nonce.s1.add(&e.mul(&witness.rho)),
        w2: nonce.s2.add(&e.mul(&difference)),
    }
}

/// Checks a response against the message, the challenge and the three commitments.
pub fn verify_response(
    message: &Message,
    challenge: &Scalar,
    response: &Response,
    h: &Gej,
    a: &Gej,
    b: &Gej,
    c: &Gej,
) -> (r: bool)
    ensures
        r == response_valid(message@, challenge@, response@, h@, a@, b@, c@),
{
    let e = challenge;
    let check = ped_commit(h, &response.y, &response.w);
    let expected = b.scalar_mul(e).add(&message.m);
    if !check.eq(&expected) {
        return false;
    }
    let check = ped_commit(h, &response.z, &response.w1);
    let expected = a.scalar_mul(e).add(&message.m1);
    if !check.eq(&expected) {
        return false;
    }
    let hpow = h.scalar_mul(&response.w2);
    let check = b.scalar_mul(&response.z).add(&hpow);
    let expected = c.scalar_mul(e).add(&message.m2);
    check.eq(&expected)
}

} // verus!
