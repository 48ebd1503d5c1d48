//! The scalar field of BN256, as plain limbs, with its arithmetic delegated to
//! `halo2curves`.
use ff::Field;
use ff::PrimeField;
use halo2curves::bn256::Fr;
use halo2curves::ff::WithSmallOrderMulGroup;
use vstd::prelude::*;

verus! {

/// The order of the BN256 scalar field.
pub open spec fn modulus() -> int {
    limbs_value([0x43e1f593f0000001, 0x2833e84879b97091, 0xb85045b68181585d, 0x30644e72e131a029])
}

/// `Fr::ROOT_OF_UNITY`: a primitive `2^28`-th root of unity.
pub open spec fn root_of_unity() -> int {
    limbs_value([0xd34f1ed960c37c9c, 0x3215cf6dd39329c8, 0x98865ea93dd31f74, 0x03ddb9f5166d18b7])
}

/// `Fr::ZETA`: a primitive cube root of unity.
pub open spec fn zeta() -> int {
    limbs_value([0xb8ca0b2d36636f23, 0xcc37a73fec2bc5e9, 0x048b6e193fd84104, 0x30644e72e131a029])
}

/// The two-adicity of the field: `2^28` divides `modulus() - 1`.
pub const TWO_ADICITY: u32 = 28;

pub open spec fn fadd(a: int, b: int) -> int {
    (a + b) % modulus()
}

pub open spec fn fsub(a: int, b: int) -> int {
    (a - b) % modulus()
}

pub open spec fn fmul(a: int, b: int) -> int {
    (a * b) % modulus()
}

/// `x^n` in the field.
pub open spec fn fpow(x: int, n: nat) -> int
    decreases n,
{
    if n == 0 {
        1
    } else {
        fmul(x, fpow(x, (n - 1) as nat))
    }
}

pub open spec fn is_inverse(a: int, r: int) -> bool {
    0 <= r < modulus() && (a * r) % modulus() == 1
}

/// The multiplicative inverse, and zero where there is none.
pub open spec fn finv(a: int) -> int {
    if exists|r: int| is_inverse(a, r) {
        choose|r: int| is_inverse(a, r)
    } else {
        0
    }
}

/// `2^64`, the base of the limbs.
pub open spec fn limb_base() -> int {
    0x1_0000_0000_0000_0000
}

/// The integer that four little-endian limbs spell.
pub open spec fn limbs_value(l: [u64; 4]) -> int {
    l[0] as int + limb_base() * (l[1] as int + limb_base() * (l[2] as int + limb_base()
        * l[3] as int))
}

/// An element of the BN256 scalar field, held as four little-endian 64-bit
/// limbs of a (not necessarily reduced) integer.
#[derive(Clone, Copy, Debug, PartialEq, Eq)]
pub struct Scalar {
    pub limbs: [u64; 4],
}

impl Scalar {
    /// The field element this value stands for.
    pub open spec fn val(&self) -> int {
        limbs_value(self.limbs) % modulus()
    }

    pub fn zero() -> (r: Scalar)
        ensures
            r.val() == 0,
    {
        Scalar::from_u64(0)
    }

    pub fn one() -> (r: Scalar)
        ensures
            r.val() == 1,
    {
        Scalar::from_u64(1)
    }

    pub fn from_u64(v: u64) -> (r: Scalar)
        ensures
            r.val() == v as int,
    {
        proof {
            lemma_modulus_bounds();
            vstd::arithmetic::div_mod::lemma_small_mod(v as nat, modulus() as nat);
        }
        Scalar { limbs: [v, 0, 0, 0] }
    }

    pub fn add(&self, o: &Scalar) -> (r: Scalar)
        ensures
            r.val() == fadd(self.val(), o.val()),
    {
        fr_add(self, o)
    }

    pub fn sub(&self, o: &Scalar) -> (r: Scalar)
        ensures
            r.val() == fsub(self.val(), o.val()),
    {
        fr_sub(self, o)
    }

    pub fn mul(&self, o: &Scalar) -> (r: Scalar)
        ensures
            r.val() == fmul(self.val(), o.val()),
    {
        fr_mul(self, o)
    }

    /// `self^exp`, by repeated multiplication.
    pub fn pow(&self, exp: u64) -> (r: Scalar)
        ensures
            r.val() == fpow(self.val(), exp as nat),
    {
        let mut r = Scalar::one();
        let mut i: u64 = 0;
        while i < exp
            invariant
                i <= exp,
                r.val() == fpow(self.val(), i as nat),
            decreases exp - i,
        {
            r = self.mul(&r);
            i = i + 1;
        }
        r
    }

    /// Whether the two values stand for the same field element.
    pub fn eq_val(&self, o: &Scalar) -> (r: bool)
        ensures
            r == (self.val() == o.val()),
    {
        fr_eq(self, o)
    }

    pub fn is_zero(&self) -> (r: bool)
        ensures
            r == (self.val() == 0),
    {
        let z = Scalar::zero();
        fr_eq(self, &z)
    }

    /// The multiplicative inverse, `None` for zero.
    pub fn invert(&self) -> (r: Option<Scalar>)
        ensures
            r is None <==> self.val() == 0,
            r matches Some(x) ==> x.val() == finv(self.val()) && is_inverse(self.val(), x.val()),
    {
        let r = fr_invert(self);
        if let Some(x) = r {
            proof {
                lemma_inverse_is_finv(self.val(), x.val());
            }
        }
        r
    }
}

/// The field's order exceeds every `u64`.
pub proof fn lemma_modulus_bounds()
    ensures
        modulus() > 0xffff_ffff_ffff_ffff,
{
    let b = limb_base();
    let l2: int = 0xb85045b68181585d;
    let l3: int = 0x30644e72e131a029;
    let inner = 0x2833e84879b97091int + b * (l2 + b * l3);
    assert(b * l3 >= 0) by (nonlinear_arith)
        requires
            b > 0,
            l3 > 0,
    ;
    assert(inner >= 1) by (nonlinear_arith)
        requires
            b > 0,
            l2 >= 0,
            b * l3 >= 0,
            inner == 0x2833e84879b97091int + b * (l2 + b * l3),
    ;
    assert(b * inner >= b) by (nonlinear_arith)
        requires
            b > 0,
            inner >= 1,
    ;
}

/// An inverse modulo the field's order is unique.
pub proof fn lemma_inverse_unique(a: int, r: int, s: int)
    requires
        is_inverse(a, r),
        is_inverse(a, s),
    ensures
        r == s,
{
    let p = modulus();
    lemma_modulus_bounds();
    let x = r * a * s;
    assert(r * a == a * r) by (nonlinear_arith);
    assert(r * a * s == r * (a * s)) by (nonlinear_arith);
    vstd::arithmetic::div_mod::lemma_mul_mod_noop_left(r * a, s, p);
    vstd::arithmetic::div_mod::lemma_mul_mod_noop_right(r, a * s, p);
    assert(x % p == s % p);
    assert(x % p == r % p);
    vstd::arithmetic::div_mod::lemma_small_mod(r as nat, p as nat);
    vstd::arithmetic::div_mod::lemma_small_mod(s as nat, p as nat);
}

pub proof fn lemma_inverse_is_finv(a: int, r: int)
    requires
        is_inverse(a, r),
    ensures
        finv(a) == r,
{
    let c = choose|x: int| is_inverse(a, x);
    lemma_inverse_unique(a, r, c);
}

/// Relies on `Fr`'s addition in halo2curves: the sum modulo the field's order.
#[verifier::external_body]
fn fr_add(a: &Scalar, b: &Scalar) -> (r: Scalar)
    ensures
        r.val() == fadd(a.val(), b.val()),
{
    Scalar { limbs: (Fr::from_raw(a.limbs) + Fr::from_raw(b.limbs)).into() }
}

/// Relies on `Fr`'s subtraction in halo2curves: the difference modulo the
/// field's order.
#[verifier::external_body]
fn fr_sub(a: &Scalar, b: &Scalar) -> (r: Scalar)
    ensures
        r.val() == fsub(a.val(), b.val()),
{
    Scalar { limbs: (Fr::from_raw(a.limbs) - Fr::from_raw(b.limbs)).into() }
}

/// Relies on `Fr`'s multiplication in halo2curves: the product modulo the
/// field's order.
#[verifier::external_body]
fn fr_mul(a: &Scalar, b: &Scalar) -> (r: Scalar)
    ensures
        r.val() == fmul(a.val(), b.val()),
{
    Scalar { limbs: (Fr::from_raw(a.limbs) * Fr::from_raw(b.limbs)).into() }
}

/// Relies on `Fr`'s equality in halo2curves, which compares reduced values.
#[verifier::external_body]
fn fr_eq(a: &Scalar, b: &Scalar) -> (r: bool)
    ensures
        r == (a.val() == b.val()),
{
    Fr::from_raw(a.limbs) == Fr::from_raw(b.limbs)
}

/// Relies on `Fr::invert` in halo2curves: `None` exactly for zero, else the
/// multiplicative inverse.
#[verifier::external_body]
fn fr_invert(a: &Scalar) -> (r: Option<Scalar>)
    ensures
        r is None <==> a.val() == 0,
        r matches Some(x) ==> is_inverse(a.val(), x.val()),
{
    Option::from(Fr::from_raw(a.limbs).invert()).map(|x: Fr| Scalar { limbs: x.into() })
}

/// Relies on `PrimeField::ROOT_OF_UNITY` of `Fr` in halo2curves.
#[verifier::external_body]
pub(crate) fn fr_root_of_unity() -> (r: Scalar)
    ensures
        r.val() == root_of_unity(),
{
    Scalar { limbs: Fr::ROOT_OF_UNITY.into() }
}

/// Relies on `WithSmallOrderMulGroup::ZETA` of `Fr` in halo2curves.
#[verifier::external_body]
pub(crate) fn fr_zeta() -> (r: Scalar)
    ensures
        r.val() == zeta(),
{
    Scalar { limbs: <Fr as WithSmallOrderMulGroup<3>>::ZETA.into() }
}

} // verus!

verus! {

/// The field values of a sequence of scalars.
pub open spec fn vals(s: Seq<Scalar>) -> Seq<int> {
    s.map_values(|x: Scalar| x.val())
}

/// Subtracting the negation of `w` is subtracting `w`: `x + (0 - w) == x - w`.
pub proof fn lemma_add_neg(x: int, w: int)
    ensures
        fadd(x, fsub(0, w)) == fsub(x, w),
{
    lemma_modulus_bounds();
    let p = modulus();
    vstd::arithmetic::div_mod::lemma_add_mod_noop_right(x, 0 - w, p);
}

/// `x == fadd(x, 0)` for a reduced `x`.
pub proof fn lemma_reduced(x: int)
    requires
        0 <= x < modulus(),
    ensures
        x % modulus() == x,
        fadd(x, 0) == x,
        fmul(x, 1) == x,
        fmul(1, x) == x,
{
    lemma_modulus_bounds();
    vstd::arithmetic::div_mod::lemma_small_mod(x as nat, modulus() as nat);
}

/// Every field operation yields a reduced value.
pub proof fn lemma_ops_reduced(a: int, b: int)
    ensures
        0 <= fadd(a, b) < modulus(),
        0 <= fsub(a, b) < modulus(),
        0 <= fmul(a, b) < modulus(),
{
    lemma_modulus_bounds();
    vstd::arithmetic::div_mod::lemma_mod_bound(a + b, modulus());
    vstd::arithmetic::div_mod::lemma_mod_bound(a - b, modulus());
    vstd::arithmetic::div_mod::lemma_mod_bound(a * b, modulus());
}

/// One step of Horner's rule against the sum of powers:
/// `(c0 + x*a) + cn*(x*q) == c0 + x*(a + cn*q)`.
pub proof fn lemma_horner_step(c0: int, x: int, a: int, cn: int, q: int)
    ensures
        fadd(fadd(c0, fmul(x, a)), fmul(cn, fmul(x, q))) == fadd(c0, fmul(x, fadd(a, fmul(cn, q)))),
{
    lemma_modulus_bounds();
    let p = modulus();
    let u = c0 + x * a;
    let v = cn * (x * q);
    vstd::arithmetic::div_mod::lemma_add_mod_noop_right(c0, x * a, p);
    vstd::arithmetic::div_mod::lemma_mul_mod_noop_right(cn, x * q, p);
    vstd::arithmetic::div_mod::lemma_add_mod_noop(u, v, p);
    let w = a + cn * q;
    vstd::arithmetic::div_mod::lemma_add_mod_noop_right(a, cn * q, p);
    vstd::arithmetic::div_mod::lemma_mul_mod_noop_right(x, w, p);
    vstd::arithmetic::div_mod::lemma_add_mod_noop_right(c0, x * w, p);
    assert(x * w == x * a + cn * (x * q)) by (nonlinear_arith)
        requires
            w == a + cn * q,
    ;
    assert(u + v == c0 + x * w);
}

/// `x^(2^k)`, by squaring `k` times.
pub open spec fn pow_2k(x: int, k: nat) -> int
    decreases k,
{
    if k == 0 {
        x
    } else {
        let y = pow_2k(x, (k - 1) as nat);
        fmul(y, y)
    }
}

/// Zero has no inverse.
pub proof fn lemma_finv_zero()
    ensures
        finv(0) == 0,
{
    lemma_modulus_bounds();
    vstd::arithmetic::div_mod::lemma_small_mod(0, modulus() as nat);
    assert forall|r: int| !is_inverse(0, r) by {
        assert(0 * r == 0);
    }
}

/// Field multiplication is associative.
pub proof fn lemma_fmul_assoc(a: int, b: int, c: int)
    ensures
        fmul(a, fmul(b, c)) == fmul(fmul(a, b), c),
{
    lemma_modulus_bounds();
    let p = modulus();
    vstd::arithmetic::div_mod::lemma_mul_mod_noop_right(a, b * c, p);
    vstd::arithmetic::div_mod::lemma_mul_mod_noop_left(a * b, c, p);
    assert(a * (b * c) == (a * b) * c) by (nonlinear_arith);
}

/// Powers are reduced.
pub proof fn lemma_fpow_reduced(x: int, n: nat)
    ensures
        0 <= fpow(x, n) < modulus(),
{
    lemma_modulus_bounds();
    if n > 0 {
        lemma_ops_reduced(x, fpow(x, (n - 1) as nat));
    }
}

/// `x^(a+b) == x^a · x^b`.
pub proof fn lemma_fpow_add(x: int, a: nat, b: nat)
    ensures
        fpow(x, a + b) == fmul(fpow(x, a), fpow(x, b)),
    decreases a,
{
    if a == 0 {
        lemma_fpow_reduced(x, b);
        lemma_reduced(fpow(x, b));
    } else {
        lemma_fpow_add(x, (a - 1) as nat, b);
        assert(fpow(x, a + b) == fmul(x, fpow(x, (a - 1 + b) as nat)));
        lemma_fmul_assoc(x, fpow(x, (a - 1) as nat), fpow(x, b));
    }
}

/// `x^(a·b) == (x^a)^b`.
pub proof fn lemma_fpow_mul(x: int, a: nat, b: nat)
    ensures
        fpow(x, a * b) == fpow(fpow(x, a), b),
    decreases b,
{
    if b == 0 {
        assert(a * b == 0) by (nonlinear_arith)
            requires
                b == 0,
        ;
    } else {
        lemma_fpow_mul(x, a, (b - 1) as nat);
        let c = (a * (b - 1)) as nat;
        assert(a * b == c + a) by (nonlinear_arith)
            requires
                b > 0,
                c == a * (b - 1),
        ;
        lemma_fpow_add(x, c, a);
        let u = fpow(x, c);
        let v = fpow(x, a);
        assert(fpow(x, a * b) == fmul(u, v));
        assert(fmul(u, v) == fmul(v, u)) by {
            assert(u * v == v * u) by (nonlinear_arith);
        }
        assert(fpow(v, b) == fmul(v, fpow(v, (b - 1) as nat)));
    }
}

/// `1^n == 1`.
pub proof fn lemma_fpow_one(n: nat)
    ensures
        fpow(1, n) == 1,
    decreases n,
{
    if n > 0 {
        lemma_fpow_one((n - 1) as nat);
        lemma_reduced(1);
    }
}

/// Squaring `a` times and then `b` times is squaring `a + b` times.
pub proof fn lemma_pow_2k_add(x: int, a: nat, b: nat)
    ensures
        pow_2k(pow_2k(x, a), b) == pow_2k(x, a + b),
    decreases b,
{
    if b > 0 {
        lemma_pow_2k_add(x, a, (b - 1) as nat);
    }
}

/// `x^(2^k)` by exponent equals `k` squarings, for a reduced `x`.
pub proof fn lemma_pow_2k_is_fpow(x: int, k: nat)
    requires
        0 <= x < modulus(),
    ensures
        fpow(x, vstd::arithmetic::power2::pow2(k)) == pow_2k(x, k),
    decreases k,
{
    vstd::arithmetic::power2::lemma2_to64();
    if k == 0 {
        lemma_reduced(x);
        assert(fpow(x, 0) == 1);
        assert(fpow(x, 1) == fmul(x, 1));
    } else {
        lemma_pow_2k_is_fpow(x, (k - 1) as nat);
        let h = vstd::arithmetic::power2::pow2((k - 1) as nat);
        vstd::arithmetic::power2::lemma_pow2_unfold(k);
        assert(h + h == vstd::arithmetic::power2::pow2(k));
        lemma_fpow_add(x, h, h);
    }
}

} // verus!
