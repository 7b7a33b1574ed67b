//! The scalar field of secp256k1: integers modulo the group order.
//!
//! A [`Scalar`] keeps its value as 32 bytes, most significant first, and always below the
//! group order. Sums, products and negations are computed by the `secp256k1` crate; this
//! module states them over the integers and handles zero, which that crate's secret keys
//! cannot hold.

use vstd::prelude::*;
use vstd::arithmetic::div_mod::*;

verus! {

/// Two to the power 128.
pub open spec fn two_pow_128() -> nat {
    0x10000000000000000nat * 0x10000000000000000nat
}

/// The order of the secp256k1 group: the modulus of the scalar field.
pub open spec fn group_order() -> nat {
    0xFFFFFFFFFFFFFFFFFFFFFFFFFFFFFFFEnat * two_pow_128() + 0xBAAEDCE6AF48A03BBFD25E8CD0364141nat
}

/// 256 to the power `n`.
pub open spec fn pow256(n: nat) -> nat
    decreases n,
{
    if n == 0 {
        1
    } else {
        256 * pow256((n - 1) as nat)
    }
}

/// The number that the bytes `s[lo..hi]` spell, most significant byte first.
pub open spec fn be_range(s: Seq<u8>, lo: int, hi: int) -> nat
    decreases hi - lo,
{
    if hi <= lo {
        0
    } else {
        be_range(s, lo, hi - 1) * 256 + s[hi - 1] as nat
    }
}

/// The number that `s` spells, most significant byte first.
pub open spec fn be_nat(s: Seq<u8>) -> nat {
    be_range(s, 0, s.len() as int)
}

/// Sum in the scalar field.
pub open spec fn scalar_add(a: nat, b: nat) -> nat {
    (a + b) % group_order()
}

/// Product in the scalar field.
pub open spec fn scalar_mul(a: nat, b: nat) -> nat {
    (a * b) % group_order()
}

/// Additive inverse in the scalar field.
pub open spec fn scalar_neg(a: nat) -> nat {
    ((group_order() - a % group_order()) % (group_order() as int)) as nat
}

/// Difference in the scalar field.
pub open spec fn scalar_sub(a: nat, b: nat) -> nat {
    scalar_add(a, scalar_neg(b))
}

/// `a` to the power `e` in the scalar field.
pub open spec fn pow_mod(a: nat, e: nat) -> nat
    decreases e,
{
    if e == 0 {
        1
    } else {
        (a * pow_mod(a, (e - 1) as nat)) % group_order()
    }
}

/// The multiplicative inverse in the scalar field, as the power `group_order() - 2`;
/// the inverse of zero is zero.
pub open spec fn scalar_inv(a: nat) -> nat {
    pow_mod(a, (group_order() - 2) as nat)
}

/// The group order exceeds two to the power 128, which is 256 to the power 16.
pub proof fn lemma_order_bounds()
    ensures
        two_pow_128() < group_order(),
        2 < group_order(),
        pow256(16) == two_pow_128(),
{
    reveal_with_fuel(pow256, 17);
}

/// A range of bytes spells a number below 256 to the power of its length.
pub proof fn lemma_be_range_bound(s: Seq<u8>, lo: int, hi: int)
    requires
        lo <= hi,
    ensures
        be_range(s, lo, hi) < pow256((hi - lo) as nat),
    decreases hi - lo,
{
    if hi > lo {
        lemma_be_range_bound(s, lo, hi - 1);
    }
}

/// A range of zero bytes spells zero.
pub proof fn lemma_be_range_zero(s: Seq<u8>, lo: int, hi: int)
    requires
        forall|i: int| lo <= i < hi ==> s[i] == 0,
    ensures
        be_range(s, lo, hi) == 0,
    decreases hi - lo,
{
    if hi > lo {
        lemma_be_range_zero(s, lo, hi - 1);
    }
}

/// Two ranges that hold the same bytes spell the same number.
pub proof fn lemma_be_range_shift(s: Seq<u8>, lo: int, hi: int, t: Seq<u8>, d: int)
    requires
        forall|i: int| lo <= i < hi ==> s[i] == t[i + d],
    ensures
        be_range(s, lo, hi) == be_range(t, lo + d, hi + d),
    decreases hi - lo,
{
    if hi > lo {
        lemma_be_range_shift(s, lo, hi - 1, t, d);
    }
}

/// A range splits at `mid` into a high part, shifted left, and a low part.
pub proof fn lemma_be_range_split(s: Seq<u8>, lo: int, mid: int, hi: int)
    requires
        lo <= mid <= hi,
    ensures
        be_range(s, lo, hi) == be_range(s, lo, mid) * pow256((hi - mid) as nat) + be_range(
            s,
            mid,
            hi,
        ),
    decreases hi - mid,
{
    let a = be_range(s, lo, mid);
    if hi > mid {
        lemma_be_range_split(s, lo, mid, hi - 1);
        let p = pow256((hi - 1 - mid) as nat);
        let m = be_range(s, mid, hi - 1);
        assert(a * (256 * p) + m * 256 == (a * p + m) * 256) by (nonlinear_arith);
    } else {
        assert(a * 1 == a) by (nonlinear_arith);
    }
}

/// Two ranges that spell the same number hold the same bytes.
pub proof fn lemma_be_range_injective(s: Seq<u8>, t: Seq<u8>, lo: int, hi: int)
    requires
        be_range(s, lo, hi) == be_range(t, lo, hi),
    ensures
        forall|i: int| lo <= i < hi ==> s[i] == t[i],
    decreases hi - lo,
{
    if hi > lo {
        lemma_be_range_injective(s, t, lo, hi - 1);
    }
}

/// `pow_mod` stays below the group order.
pub proof fn lemma_pow_mod_bound(a: nat, e: nat)
    ensures
        pow_mod(a, e) < group_order(),
{
    lemma_order_bounds();
}

/// Exponents add: `a^(x+y) = a^x * a^y` in the scalar field.
pub proof fn lemma_pow_mod_add(a: nat, x: nat, y: nat)
    ensures
        pow_mod(a, x + y) == scalar_mul(pow_mod(a, x), pow_mod(a, y)),
    decreases x,
{
    let n = group_order() as int;
    lemma_order_bounds();
    lemma_pow_mod_bound(a, y);
    if x == 0 {
        lemma_small_mod(pow_mod(a, y), group_order());
        assert(1 * pow_mod(a, y) == pow_mod(a, y)) by (nonlinear_arith);
    } else {
        let px = pow_mod(a, (x - 1) as nat) as int;
        let py = pow_mod(a, y) as int;
        let ai = a as int;
        lemma_pow_mod_add(a, (x - 1) as nat, y);
        assert((x - 1) as nat + y == (x + y - 1) as nat);
        assert(pow_mod(a, x + y) == (ai * ((px * py) % n)) % n);
        lemma_mul_mod_noop_right(ai, px * py, n);
        lemma_mul_mod_noop_left(ai * px, py, n);
        assert(ai * (px * py) == (ai * px) * py) by (nonlinear_arith);
    }
}

/// The product of a scalar and its inverse is the scalar to the power of the group
/// order less one: the inverse inverts exactly the scalars for which that power is one.
pub proof fn lemma_inverse_is_fermat_power(a: nat)
    ensures
        scalar_mul(a, scalar_inv(a)) == pow_mod(a, (group_order() - 1) as nat),
{
    lemma_order_bounds();
    assert((group_order() - 1) as nat - 1 == (group_order() - 2) as nat);
}

/// Sums of numbers that are congruent modulo the group order are congruent.
pub proof fn lemma_congruent_sum(a1: int, a2: int, b1: int, b2: int)
    requires
        a1 % (group_order() as int) == a2 % (group_order() as int),
        b1 % (group_order() as int) == b2 % (group_order() as int),
    ensures
        (a1 + b1) % (group_order() as int) == (a2 + b2) % (group_order() as int),
{
    lemma_order_bounds();
    lemma_add_mod_noop(a1, b1, group_order() as int);
    lemma_add_mod_noop(a2, b2, group_order() as int);
}

/// Products of numbers that are congruent modulo the group order are congruent.
pub proof fn lemma_congruent_product(a1: int, a2: int, b1: int, b2: int)
    requires
        a1 % (group_order() as int) == a2 % (group_order() as int),
        b1 % (group_order() as int) == b2 % (group_order() as int),
    ensures
        (a1 * b1) % (group_order() as int) == (a2 * b2) % (group_order() as int),
{
    lemma_order_bounds();
    lemma_mul_mod_noop(a1, b1, group_order() as int);
    lemma_mul_mod_noop(a2, b2, group_order() as int);
}

/// The difference in the scalar field is the difference of the integers modulo the
/// group order.
pub proof fn lemma_scalar_sub_is_difference(a: nat, b: nat)
    ensures
        scalar_sub(a, b) == (a - b) % (group_order() as int),
{
    let m = group_order() as int;
    lemma_order_bounds();
    let r = (b % group_order()) as int;
    lemma_add_mod_noop_right(a as int, m - r, m);
    lemma_mod_add_multiples_vanish(a - r, m);
    lemma_sub_mod_noop_right(a as int, b as int, m);
    assert(m + (a - r) == a + (m - r));
}

/// Powers of congruent numbers are equal.
pub proof fn lemma_pow_mod_congruent(a: nat, b: nat, e: nat)
    requires
        a % group_order() == b % group_order(),
    ensures
        pow_mod(a, e) == pow_mod(b, e),
    decreases e,
{
    if e > 0 {
        lemma_pow_mod_congruent(a, b, (e - 1) as nat);
        let p = pow_mod(a, (e - 1) as nat) as int;
        lemma_congruent_product(a as int, b as int, p, p);
    }
}

/// The power of a product is the product of the powers.
pub proof fn lemma_pow_mod_product(a: nat, b: nat, e: nat)
    ensures
        pow_mod(a * b, e) == scalar_mul(pow_mod(a, e), pow_mod(b, e)),
    decreases e,
{
    let m = group_order() as int;
    lemma_order_bounds();
    if e == 0 {
        lemma_small_mod(1, group_order());
        assert(1 * 1 == 1) by (nonlinear_arith);
    } else {
        lemma_pow_mod_product(a, b, (e - 1) as nat);
        let pa = pow_mod(a, (e - 1) as nat) as int;
        let pb = pow_mod(b, (e - 1) as nat) as int;
        let pab = pow_mod(a * b, (e - 1) as nat) as int;
        let ai = a as int;
        let bi = b as int;
        lemma_mod_twice(pa * pb, m);
        lemma_small_mod(pow_mod(a * b, (e - 1) as nat), group_order());
        lemma_pow_mod_bound(a * b, (e - 1) as nat);
        assert(pab % m == (pa * pb) % m);
        lemma_congruent_product(ai * bi, ai * bi, pab, pa * pb);
        lemma_mod_twice(ai * pa, m);
        lemma_mod_twice(bi * pb, m);
        lemma_congruent_product((ai * pa) % m, ai * pa, (bi * pb) % m, bi * pb);
        assert((ai * bi) * (pa * pb) == (ai * pa) * (bi * pb)) by (nonlinear_arith);
    }
}

/// Every power of one is one.
pub proof fn lemma_pow_mod_of_one(e: nat)
    ensures
        pow_mod(1, e) == 1,
    decreases e,
{
    lemma_order_bounds();
    lemma_small_mod(1, group_order());
    if e > 0 {
        lemma_pow_mod_of_one((e - 1) as nat);
        assert(1 * 1 == 1) by (nonlinear_arith);
    }
}

/// Calls `secp256k1::Scalar::random`, which draws 32 bytes until they spell a number
/// below the group order. Nothing more is known of the result.
#[verifier::external_body]
fn random_bytes() -> (r: [u8; 32])
    ensures
        be_nat(r@) < group_order(),
{
    secp256k1::Scalar::random().to_be_bytes()
}

/// Calls `secp256k1::Scalar::from_be_bytes`, which accepts the bytes exactly when the
/// number they spell is at most the group order less one.
#[verifier::external_body]
fn bytes_in_range(b: &[u8; 32]) -> (r: bool)
    ensures
        r == (be_nat(b@) < group_order()),
{
    secp256k1::Scalar::from_be_bytes(*b).is_ok()
}

/// Calls `secp256k1::SecretKey::add_tweak`: the sum modulo the group order of a nonzero
/// key and a tweak, or an error exactly when that sum is zero.
#[verifier::external_body]
fn key_add(a: &[u8; 32], b: &[u8; 32]) -> (r: Option<[u8; 32]>)
    requires
        0 < be_nat(a@) < group_order(),
        be_nat(b@) < group_order(),
    ensures
        r is Some <==> scalar_add(be_nat(a@), be_nat(b@)) != 0,
        r is Some ==> be_nat(r->0@) == scalar_add(be_nat(a@), be_nat(b@)),
{
    let key = secp256k1::SecretKey::from_secret_bytes(*a).ok()?;
    let tweak = secp256k1::Scalar::from_be_bytes(*b).ok()?;
    let sum = key.add_tweak(&tweak).ok()?;
    Some(sum.to_secret_bytes())
}

/// Calls `secp256k1::SecretKey::mul_tweak`: the product modulo the group order of a
/// nonzero key and a nonzero tweak, which the underlying C function always returns for
/// such arguments.
#[verifier::external_body]
fn key_mul(a: &[u8; 32], b: &[u8; 32]) -> (r: Option<[u8; 32]>)
    requires
        0 < be_nat(a@) < group_order(),
        0 < be_nat(b@) < group_order(),
    ensures
        r is Some,
        be_nat(r->0@) == scalar_mul(be_nat(a@), be_nat(b@)),
{
    let key = secp256k1::SecretKey::from_secret_bytes(*a).ok()?;
    let tweak = secp256k1::Scalar::from_be_bytes(*b).ok()?;
    let product = key.mul_tweak(&tweak).ok()?;
    Some(product.to_secret_bytes())
}

/// Calls `secp256k1::SecretKey::negate`: the group order less the key, for a nonzero
/// key below the group order.
#[verifier::external_body]
fn key_negate(a: &[u8; 32]) -> (r: Option<[u8; 32]>)
    requires
        0 < be_nat(a@) < group_order(),
    ensures
        r is Some,
        be_nat(r->0@) == group_order() - be_nat(a@),
{
    let key = secp256k1::SecretKey::from_secret_bytes(*a).ok()?;
    Some(key.negate().to_secret_bytes())
}

/// An element of the scalar field.
#[derive(Clone, Copy, Debug, PartialEq, Eq)]
pub struct Scalar {
    bytes: [u8; 32],
}

impl View for Scalar {
    type V = nat;

    closed spec fn view(&self) -> nat {
        be_nat(self.bytes@)
    }
}

/// The bytes of the group order less two: the exponent that inverts.
fn inverting_exponent() -> (r: [u8; 32])
    ensures
        be_nat(r@) == group_order() - 2,
{
    let r: [u8; 32] = [
        0xFF, 0xFF, 0xFF, 0xFF, 0xFF, 0xFF, 0xFF, 0xFF, 0xFF, 0xFF, 0xFF, 0xFF, 0xFF, 0xFF, 0xFF,
        0xFE, 0xBA, 0xAE, 0xDC, 0xE6, 0xAF, 0x48, 0xA0, 0x3B, 0xBF, 0xD2, 0x5E, 0x8C, 0xD0, 0x36,
        0x41, 0x3F,
    ];
    proof {
        reveal_with_fuel(be_range, 33);
    }
    r
}

impl Scalar {
    /// Every scalar is below the group order.
    #[verifier::type_invariant]
    pub open spec fn is_reduced(self) -> bool {
        self@ < group_order()
    }

    /// The scalar zero.
    pub fn zero() -> (r: Scalar)
        ensures
            r@ == 0,
    {
        let bytes = [0u8; 32];
        proof {
            lemma_be_range_zero(bytes@, 0, 32);
            lemma_order_bounds();
        }
        Scalar { bytes }
    }

    /// The scalar one.
    pub fn one() -> (r: Scalar)
        ensures
            r@ == 1,
    {
        let mut bytes = [0u8; 32];
        bytes[31] = 1;
        proof {
            lemma_be_range_zero(bytes@, 0, 31);
            lemma_order_bounds();
        }
        Scalar { bytes }
    }

    /// A scalar drawn at random from the whole field: whatever is drawn is below the
    /// group order.
    pub fn new_random() -> (r: Scalar)
        ensures
            r@ < group_order(),
    {
        Scalar { bytes: random_bytes() }
    }

    /// The scalar that 32 bytes spell, most significant first, if it is below the group
    /// order.
    pub fn from_be_bytes(bytes: [u8; 32]) -> (r: Option<Scalar>)
        ensures
            r is Some <==> be_nat(bytes@) < group_order(),
            r is Some ==> r->0@ == be_nat(bytes@),
    {
        if bytes_in_range(&bytes) {
            Some(Scalar { bytes })
        } else {
            None
        }
    }

    /// The 32 bytes of the scalar, most significant first.
    pub fn to_be_bytes(&self) -> (r: [u8; 32])
        ensures
            be_nat(r@) == self@,
            self@ < group_order(),
    {
        proof {
            use_type_invariant(self);
        }
        self.bytes
    }

    /// Whether two scalars are the same element.
    pub fn eq(&self, other: &Scalar) -> (r: bool)
        ensures
            r == (self@ == other@),
    {
        let mut i: usize = 0;
        while i < 32
            invariant
                i <= 32,
                forall|j: int| 0 <= j < i ==> self.bytes@[j] == other.bytes@[j],
            decreases 32 - i,
        {
            if self.bytes[i] != other.bytes[i] {
                proof {
                    if self@ == other@ {
                        lemma_be_range_injective(self.bytes@, other.bytes@, 0, 32);
                    }
                }
                return false;
            }
            i += 1;
        }
        proof {
            lemma_be_range_shift(self.bytes@, 0, 32, other.bytes@, 0);
        }
        true
    }

    /// Whether this is the scalar zero.
    pub fn is_zero(&self) -> (r: bool)
        ensures
            r == (self@ == 0),
    {
        let zero = Scalar::zero();
        self.eq(&zero)
    }

    /// The sum of two scalars.
    pub fn add(&self, other: &Scalar) -> (r: Scalar)
        ensures
            r@ == scalar_add(self@, other@),
    {
        proof {
            use_type_invariant(self);
            use_type_invariant(other);
            lemma_order_bounds();
        }
        if self.is_zero() {
            proof {
                lemma_small_mod(other@, group_order());
            }
            *other
        } else {
            match key_add(&self.bytes, &other.bytes) {
                Some(bytes) => {
                    proof {
                        lemma_mod_bound((self@ + other@) as int, group_order() as int);
                    }
                    Scalar { bytes }
                },
                None => Scalar::zero(),
            }
        }
    }

    /// The product of two scalars.
    pub fn mul(&self, other: &Scalar) -> (r: Scalar)
        ensures
            r@ == scalar_mul(self@, other@),
    {
        proof {
            use_type_invariant(self);
            use_type_invariant(other);
            lemma_order_bounds();
        }
        if self.is_zero() || other.is_zero() {
            proof {
                assert(self@ * other@ == 0) by (nonlinear_arith)
                    requires
                        self@ == 0 || other@ == 0,
                ;
                lemma_small_mod(0, group_order());
            }
            Scalar::zero()
        } else {
            match key_mul(&self.bytes, &other.bytes) {
                Some(bytes) => {
                    proof {
                        lemma_mod_bound((self@ * other@) as int, group_order() as int);
                    }
                    Scalar { bytes }
                },
                None => Scalar::zero(),
            }
        }
    }

    /// The additive inverse of the scalar.
    pub fn negate(&self) -> (r: Scalar)
        ensures
            r@ == scalar_neg(self@),
    {
        proof {
            use_type_invariant(self);
            lemma_order_bounds();
            lemma_small_mod(self@, group_order());
        }
        if self.is_zero() {
            proof {
                lemma_mod_self_0(group_order() as int);
            }
            Scalar::zero()
        } else {
            match key_negate(&self.bytes) {
                Some(bytes) => {
                    proof {
                        lemma_small_mod((group_order() - self@) as nat, group_order());
                    }
                    Scalar { bytes }
                },
                None => Scalar::zero(),
            }
        }
    }

    /// The difference of two scalars.
    pub fn sub(&self, other: &Scalar) -> (r: Scalar)
        ensures
            r@ == scalar_sub(self@, other@),
    {
        let negated = other.negate();
        self.add(&negated)
    }

    /// The scalar to the power that `exponent` spells, most significant byte first.
    pub fn pow(&self, exponent: &[u8; 32]) -> (r: Scalar)
        ensures
            r@ == pow_mod(self@, be_nat(exponent@)),
    {
        let mut acc = Scalar::one();
        let mut i: usize = 0;
        while i < 32
            invariant
                i <= 32,
                acc@ == pow_mod(self@, be_range(exponent@, 0, i as int)),
            decreases 32 - i,
        {
            let byte: u8 = exponent[i];
            let ghost high = be_range(exponent@, 0, i as int);
            let ghost mut e: nat = high;
            let mut rest: u16 = byte as u16;
            let mut weight: u16 = 256;
            while weight > 1
                invariant
                    weight == 256 || weight == 128 || weight == 64 || weight == 32 || weight == 16
                        || weight == 8 || weight == 4 || weight == 2 || weight == 1,
                    rest < weight,
                    e * weight + rest == high * 256 + byte,
                    acc@ == pow_mod(self@, e),
                decreases weight,
            {
                let ghost doubled = weight as int;
                weight = weight / 2;
                acc = acc.mul(&acc);
                proof {
                    lemma_pow_mod_add(self@, e, e);
                    assert(e * doubled == (e + e) * weight) by (nonlinear_arith)
                        requires
                            doubled == 2 * weight,
                    ;
                    assert((e + e + 1) * weight == (e + e) * weight + weight)
                        by (nonlinear_arith);
                }
                if rest >= weight {
                    rest = rest - weight;
                    acc = acc.mul(self);
                    proof {
                        assert(pow_mod(self@, e + e + 1) == scalar_mul(
                            self@,
                            pow_mod(self@, e + e),
                        ));
                        assert(pow_mod(self@, e + e) * self@ == self@ * pow_mod(self@, e + e))
                            by (nonlinear_arith);
                        e = e + e + 1;
                    }
                } else {
                    proof {
                        e = e + e;
                    }
                }
            }
            i += 1;
        }
        acc
    }

    /// The multiplicative inverse of the scalar; the inverse of zero is zero.
    pub fn inverse(&self) -> (r: Scalar)
        ensures
            r@ == scalar_inv(self@),
    {
        let exponent = inverting_exponent();
        self.pow(&exponent)
    }

    /// The scalar that 32 bytes spell, most significant first, reduced modulo the group
    /// order.
    pub fn from_b32_reduced(bytes: &[u8; 32]) -> (r: Scalar)
        ensures
            r@ == be_nat(bytes@) % group_order(),
    {
        let mut high = [0u8; 32];
        let mut low = [0u8; 32];
        let mut shift = [0u8; 32];
        shift[15] = 1;
        let mut i: usize = 0;
        while i < 16
            invariant
                i <= 16,
                forall|j: int| 0 <= j < 16 ==> high@[j] == 0 && low@[j] == 0,
                forall|j: int| 16 <= j < 16 + i ==> #[trigger] high@[j] == bytes@[j - 16],
                forall|j: int| 16 <= j < 16 + i ==> #[trigger] low@[j] == bytes@[j],
            decreases 16 - i,
        {
            high[16 + i] = bytes[i];
            low[16 + i] = bytes[16 + i];
            i += 1;
        }
        proof {
            lemma_order_bounds();
            lemma_be_range_split(high@, 0, 16, 32);
            lemma_be_range_zero(high@, 0, 16);
            assert forall|j: int| 0 <= j < 16 implies bytes@[j] == high@[j + 16] by {
                assert(high@[j + 16] == bytes@[j + 16 - 16]);
            }
            lemma_be_range_shift(bytes@, 0, 16, high@, 16);
            lemma_be_range_bound(bytes@, 0, 16);
            lemma_be_range_split(low@, 0, 16, 32);
            lemma_be_range_zero(low@, 0, 16);
            lemma_be_range_shift(bytes@, 16, 32, low@, 0);
            lemma_be_range_bound(bytes@, 16, 32);
            lemma_be_range_split(shift@, 0, 16, 32);
            lemma_be_range_zero(shift@, 0, 15);
            lemma_be_range_zero(shift@, 16, 32);
            lemma_be_range_split(bytes@, 0, 16, 32);
            assert(be_range(shift@, 0, 16) == 1);
            assert(be_nat(shift@) == two_pow_128());
            assert(be_nat(high@) == be_range(bytes@, 0, 16));
            assert(be_nat(low@) == be_range(bytes@, 16, 32));
        }
        let h = Scalar { bytes: high };
        let l = Scalar { bytes: low };
        let s = Scalar { bytes: shift };
        let r = h.mul(&s).add(&l);
        proof {
            let n = group_order() as int;
            lemma_add_mod_noop((h@ * s@) as int, l@ as int, n);
            lemma_small_mod(l@, group_order());
            assert(scalar_mul(h@, s@) < group_order()) by {
                lemma_mod_bound((h@ * s@) as int, n);
            }
        }
        r
    }
}

} // verus!
