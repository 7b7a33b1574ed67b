//! The secp256k1 group.
//!
//! A [`Gej`] keeps a group element in its 33-byte compressed encoding; the identity, which
//! has no such encoding, is kept as 33 zero bytes. Point addition and scalar multiplication
//! are computed by the `secp256k1` crate and appear in contracts under the names
//! [`point_sum`], [`point_product`] and [`base_product`]; this module adds the identity.

use vstd::prelude::*;
use crate::scalar::{be_nat, group_order, Scalar};

verus! {

/// Whether `secp256k1::PublicKey::from_byte_array_compressed` accepts the 33 bytes `p`:
/// whether they encode a point of the curve.
pub uninterp spec fn is_curve_point(p: Seq<u8>) -> bool;

/// What `secp256k1::PublicKey::combine` returns for the points that `a` and `b` encode:
/// the encoding of their sum, or `None` where the sum is the identity or an argument
/// encodes no point.
pub uninterp spec fn point_sum(a: Seq<u8>, b: Seq<u8>) -> Option<Seq<u8>>;

/// What `secp256k1::PublicKey::mul_tweak` returns for the point that `p` encodes and the
/// scalar `s`: the encoding of the multiple, or `None` where the call fails.
pub uninterp spec fn point_product(p: Seq<u8>, s: nat) -> Option<Seq<u8>>;

/// What `secp256k1::PublicKey::from_secret_key` returns for the scalar `s`: the encoding
/// of that multiple of the generator, or `None` where `s` is no secret key.
pub uninterp spec fn base_product(s: nat) -> Option<Seq<u8>>;

/// The bytes that stand for the identity.
pub open spec fn infinity_bytes() -> Seq<u8> {
    Seq::new(33, |i: int| 0u8)
}

/// An encoding, or the identity where there is none.
pub open spec fn or_infinity(p: Option<Seq<u8>>) -> Seq<u8> {
    match p {
        Some(bytes) => bytes,
        None => infinity_bytes(),
    }
}

/// The group operation.
pub open spec fn gej_add(a: Seq<u8>, b: Seq<u8>) -> Seq<u8> {
    if a == infinity_bytes() {
        b
    } else if b == infinity_bytes() {
        a
    } else {
        or_infinity(point_sum(a, b))
    }
}

/// The multiple of a group element by a scalar.
pub open spec fn gej_mul(p: Seq<u8>, s: nat) -> Seq<u8> {
    if p == infinity_bytes() || s == 0 {
        infinity_bytes()
    } else {
        or_infinity(point_product(p, s))
    }
}

/// The multiple of the generator by a scalar.
pub open spec fn gej_base_mul(s: nat) -> Seq<u8> {
    if s == 0 {
        infinity_bytes()
    } else {
        or_infinity(base_product(s))
    }
}

/// The buffer `buf` with `data` written over it from position `offset` on.
pub open spec fn overwritten(buf: Seq<u8>, offset: int, data: Seq<u8>) -> Seq<u8> {
    Seq::new(
        buf.len(),
        |i: int|
            if offset <= i < offset + data.len() {
                data[i - offset]
            } else {
                buf[i]
            },
    )
}

/// The bytes inside an optional array.
pub open spec fn bytes_of(r: Option<[u8; 33]>) -> Option<Seq<u8>> {
    match r {
        Some(bytes) => Some(bytes@),
        None => None,
    }
}

/// Calls `secp256k1::PublicKey::from_byte_array_compressed` and says whether it accepted
/// the bytes.
#[verifier::external_body]
fn parses_as_point(p: &[u8; 33]) -> (r: bool)
    ensures
        r == is_curve_point(p@),
{
    secp256k1::PublicKey::from_byte_array_compressed(*p).is_ok()
}

/// Calls `secp256k1::PublicKey::combine` on the points that `a` and `b` encode and
/// encodes the sum with `PublicKey::serialize`.
#[verifier::external_body]
fn combine_points(a: &[u8; 33], b: &[u8; 33]) -> (r: Option<[u8; 33]>)
    ensures
        bytes_of(r) == point_sum(a@, b@),
{
    let p = secp256k1::PublicKey::from_byte_array_compressed(*a).ok()?;
    let q = secp256k1::PublicKey::from_byte_array_compressed(*b).ok()?;
    Some(p.combine(&q).ok()?.serialize())
}

/// Calls `secp256k1::PublicKey::mul_tweak` on the point that `p` encodes, with the scalar
/// that `s` spells, and encodes the multiple with `PublicKey::serialize`.
#[verifier::external_body]
fn multiply_point(p: &[u8; 33], s: &[u8; 32]) -> (r: Option<[u8; 33]>)
    requires
        be_nat(s@) < group_order(),
    ensures
        bytes_of(r) == point_product(p@, be_nat(s@)),
{
    let point = secp256k1::PublicKey::from_byte_array_compressed(*p).ok()?;
    let tweak = secp256k1::Scalar::from_be_bytes(*s).ok()?;
    Some(point.mul_tweak(&tweak).ok()?.serialize())
}

/// Calls `secp256k1::PublicKey::from_secret_key` on the secret key that `s` spells and
/// encodes the result with `PublicKey::serialize`.
#[verifier::external_body]
fn multiply_generator(s: &[u8; 32]) -> (r: Option<[u8; 33]>)
    requires
        be_nat(s@) < group_order(),
    ensures
        bytes_of(r) == base_product(be_nat(s@)),
{
    let key = secp256k1::SecretKey::from_secret_bytes(*s).ok()?;
    Some(secp256k1::PublicKey::from_secret_key(&key).serialize())
}

/// An element of the secp256k1 group.
#[derive(Clone, Copy, Debug, PartialEq, Eq)]
pub struct Gej {
    bytes: [u8; 33],
}

impl View for Gej {
    type V = Seq<u8>;

    closed spec fn view(&self) -> Seq<u8> {
        self.bytes@
    }
}

impl Gej {
    fn from_option(r: Option<[u8; 33]>) -> (g: Gej)
        ensures
            g@ == or_infinity(bytes_of(r)),
    {
        match r {
            Some(bytes) => Gej { bytes },
            None => Gej::infinity(),
        }
    }

    /// The identity of the group.
    pub fn infinity() -> (r: Gej)
        ensures
            r@ == infinity_bytes(),
    {
        let bytes = [0u8; 33];
        assert(bytes@ =~= infinity_bytes());
        Gej { bytes }
    }

    /// The group element that 33 bytes encode: the identity for 33 zero bytes, else the
    /// point of the curve with that compressed encoding, if there is one.
    pub fn from_bytes(bytes: [u8; 33]) -> (r: Option<Gej>)
        ensures
            r is Some <==> bytes@ == infinity_bytes() || is_curve_point(bytes@),
            r is Some ==> r->0@ == bytes@,
    {
        let candidate = Gej { bytes };
        if candidate.is_infinity() || parses_as_point(&bytes) {
            Some(candidate)
        } else {
            None
        }
    }

    /// The 33 bytes of the element.
    pub fn to_bytes(&self) -> (r: [u8; 33])
        ensures
            r@ == self@,
            self@.len() == 33,
    {
        self.bytes
    }

    /// Writes the 33 bytes of the element into `bs`, from position `offset` on.
    pub fn put_bytes(&self, bs: &mut Vec<u8>, offset: usize)
        requires
            offset + 33 <= old(bs).len(),
        ensures
            final(bs)@ == overwritten(old(bs)@, offset as int, self@),
    {
        let mut i: usize = 0;
        while i < 33
            invariant
                i <= 33,
                offset + 33 <= bs.len(),
                bs.len() == old(bs).len(),
                forall|j: int| offset <= j < offset + i ==> bs@[j] == self.bytes@[j - offset],
                forall|j: int|
                    0 <= j < bs.len() && !(offset <= j < offset + i) ==> bs@[j] == old(bs)@[j],
            decreases 33 - i,
        {
            bs[offset + i] = self.bytes[i];
            i += 1;
        }
        assert(bs@ =~= overwritten(old(bs)@, offset as int, self@));
    }

    /// A random element: the multiple of the generator by a scalar drawn at random from
    /// the whole field.
    pub fn new_random() -> (r: Gej)
        ensures
            exists|s: nat| s < group_order() && r@ == #[trigger] gej_base_mul(s),
    {
        let s = Scalar::new_random();
        let r = Gej::scalar_base_mul(&s);
        assert(s@ < group_order() && r@ == gej_base_mul(s@));
        r
    }

    /// Whether two elements are the same.
    pub fn eq(&self, other: &Gej) -> (r: bool)
        ensures
            r == (self@ == other@),
    {
        let mut i: usize = 0;
        while i < 33
            invariant
                i <= 33,
                forall|j: int| 0 <= j < i ==> self.bytes@[j] == other.bytes@[j],
            decreases 33 - i,
        {
            if self.bytes[i] != other.bytes[i] {
                return false;
            }
            i += 1;
        }
        assert(self.bytes@ =~= other.bytes@);
        true
    }

    /// Whether this is the identity.
    pub fn is_infinity(&self) -> (r: bool)
        ensures
            r == (self@ == infinity_bytes()),
    {
        let identity = Gej::infinity();
        self.eq(&identity)
    }

    /// The sum of two elements.
    pub fn add(&self, other: &Gej) -> (r: Gej)
        ensures
            r@ == gej_add(self@, other@),
    {
        if self.is_infinity() {
            *other
        } else if other.is_infinity() {
            *self
        } else {
            Gej::from_option(combine_points(&self.bytes, &other.bytes))
        }
    }

    /// The multiple of an element by a scalar.
    pub fn scalar_mul(&self, s: &Scalar) -> (r: Gej)
        ensures
            r@ == gej_mul(self@, s@),
    {
        if self.is_infinity() || s.is_zero() {
            Gej::infinity()
        } else {
            let tweak = s.to_be_bytes();
            Gej::from_option(multiply_point(&self.bytes, &tweak))
        }
    }

    /// The multiple of the generator by a scalar.
    pub fn scalar_base_mul(s: &Scalar) -> (r: Gej)
        ensures
            r@ == gej_base_mul(s@),
    {
        if s.is_zero() {
            Gej::infinity()
        } else {
            let key = s.to_be_bytes();
            Gej::from_option(multiply_generator(&key))
        }
    }
}

} // verus!
