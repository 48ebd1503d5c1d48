//! Dense univariate polynomials: evaluation, and the inverse Fourier
//! transforms that recover coefficients from values on a cyclic subgroup or
//! on its coset.
use crate::field::{
    fadd, finv, fmul, fpow, fr_zeta, lemma_horner_step, lemma_modulus_bounds, lemma_reduced,
    modulus, vals, zeta, Scalar, TWO_ADICITY,
};
use crate::lagrange::{get_omega, invert_small, omega, pow2_usize};
use halo2curves::bn256::Fr;
use halo2curves::fft::best_fft;
use vstd::arithmetic::power2::pow2;
use vstd::prelude::*;

verus! {

/// `Σ c_i · x^i`, unrolled the way Horner's rule reads it.
pub open spec fn poly_eval(c: Seq<int>, x: int) -> int
    decreases c.len(),
{
    if c.len() == 0 {
        0
    } else {
        fadd(c[0], fmul(x, poly_eval(c.drop_first(), x)))
    }
}

/// `Σ_{i < n} c_i · x^i`, summed from the lowest power upwards.
pub open spec fn power_sum(c: Seq<int>, x: int, n: nat) -> int
    decreases n,
{
    if n == 0 {
        0
    } else {
        fadd(power_sum(c, x, (n - 1) as nat), fmul(c[n - 1], fpow(x, (n - 1) as nat)))
    }
}

proof fn lemma_power_sum_split(c: Seq<int>, x: int, n: nat)
    requires
        1 <= n <= c.len(),
        forall|i: int| 0 <= i < c.len() ==> 0 <= #[trigger] c[i] < modulus(),
    ensures
        power_sum(c, x, n) == fadd(c[0], fmul(x, power_sum(c.drop_first(), x, (n - 1) as nat))),
    decreases n,
{
    lemma_modulus_bounds();
    let t = c.drop_first();
    if n == 1 {
        lemma_reduced(c[0]);
        vstd::arithmetic::div_mod::lemma_small_mod(0, modulus() as nat);
        assert(x * 0 == 0);
        assert(fmul(x, 0) == 0);
        assert(power_sum(c, x, 0) == 0);
        assert(fpow(x, 0) == 1);
        assert(power_sum(c, x, 1) == fadd(0, fmul(c[0], 1)));
    } else {
        lemma_power_sum_split(c, x, (n - 1) as nat);
        let a = power_sum(t, x, (n - 2) as nat);
        let q = fpow(x, (n - 2) as nat);
        assert(t[n - 2] == c[n - 1]);
        lemma_horner_step(c[0], x, a, c[n - 1], q);
    }
}

/// Horner's rule and the sum of powers agree: the two ways of evaluating a
/// polynomial give the same value.
pub proof fn lemma_horner_is_power_sum(c: Seq<int>, x: int)
    requires
        forall|i: int| 0 <= i < c.len() ==> 0 <= #[trigger] c[i] < modulus(),
    ensures
        poly_eval(c, x) == power_sum(c, x, c.len()),
    decreases c.len(),
{
    if c.len() > 0 {
        lemma_horner_is_power_sum(c.drop_first(), x);
        lemma_power_sum_split(c, x, c.len());
    }
}

/// The values of scalars are reduced.
pub proof fn lemma_vals_reduced(s: Seq<Scalar>)
    ensures
        forall|i: int| 0 <= i < s.len() ==> 0 <= #[trigger] vals(s)[i] < modulus(),
{
    lemma_modulus_bounds();
    assert forall|i: int| 0 <= i < s.len() implies 0 <= #[trigger] vals(s)[i] < modulus() by {
        vstd::arithmetic::div_mod::lemma_mod_bound(crate::field::limbs_value(s[i].limbs), modulus());
    }
}

/// A polynomial in dense coefficient form: index `i` holds the coefficient of
/// `X^i`. Leading zeros are kept.
#[derive(Clone, Debug, PartialEq, Eq)]
pub struct UnivariatePoly(pub Vec<Scalar>);

impl UnivariatePoly {
    /// The coefficients as field values.
    pub open spec fn coeffs(&self) -> Seq<int> {
        vals(self.0@)
    }

    pub fn new_zeroed(len: usize) -> (r: UnivariatePoly)
        ensures
            r.0@.len() == len,
            forall|i: int| 0 <= i < len ==> (#[trigger] r.0@[i]).val() == 0,
    {
        let mut v: Vec<Scalar> = Vec::new();
        let mut i: usize = 0;
        while i < len
            invariant
                i <= len,
                v@.len() == i,
                forall|j: int| 0 <= j < i ==> (#[trigger] v@[j]).val() == 0,
            decreases len - i,
        {
            v.push(Scalar::zero());
            i = i + 1;
        }
        UnivariatePoly(v)
    }

    pub fn len(&self) -> (r: usize)
        ensures
            r == self.0@.len(),
    {
        self.0.len()
    }

    /// The value of the polynomial at `x`, by Horner's rule from the highest
    /// coefficient down.
    pub fn eval(&self, x: &Scalar) -> (r: Scalar)
        ensures
            r.val() == poly_eval(self.coeffs(), x.val()),
    {
        let n = self.0.len();
        let mut res = Scalar::zero();
        let mut i: usize = n;
        while i > 0
            invariant
                i <= n,
                n == self.0@.len(),
                res.val() == poly_eval(self.coeffs().subrange(i as int, n as int), x.val()),
            decreases i,
        {
            let ghost tail = self.coeffs().subrange(i as int, n as int);
            i = i - 1;
            let ghost cur = self.coeffs().subrange(i as int, n as int);
            assert(cur.drop_first() =~= tail);
            let m = res.mul(x);
            res = m.add(&self.0[i]);
            assert(res.val() == fadd(fmul(x.val(), poly_eval(tail, x.val())), self.0@[i as int].val()));
        }
        assert(self.coeffs().subrange(0, n as int) =~= self.coeffs());
        res
    }
}

/// The inverse discrete Fourier transform over the subgroup of order
/// `n = 2^log_n`: coefficient `i` is `n⁻¹ · Σ_j v_j · ω^(−i·j)`.
pub open spec fn inverse_dft(v: Seq<int>, log_n: nat) -> Seq<int> {
    let w_inv = finv(omega(log_n));
    let n_inv = finv(pow2(log_n) as int);
    Seq::new(v.len(), |i: int| fmul(n_inv, poly_eval(v, fpow(w_inv, i as nat))))
}

/// The inverse transform over the coset `ζ·⟨ω⟩`: coefficient `i` of
/// `inverse_dft` times `ζ^(−i)`.
pub open spec fn coset_inverse_dft(v: Seq<int>, log_n: nat) -> Seq<int> {
    let z_inv = finv(zeta());
    Seq::new(v.len(), |i: int| fmul(inverse_dft(v, log_n)[i], fpow(z_inv, i as nat)))
}

/// Relies on `halo2curves::fft::best_fft`, the radix-2 transform: for an
/// `omega` of multiplicative order `n = 2^log_n`, entry `i` becomes the value
/// at `omega^i` of the polynomial whose coefficients were given. The
/// generator of the subgroup of order `n`, and its inverse, have that order.
#[verifier::external_body]
fn fft(a: &Vec<Scalar>, omega: &Scalar, log_n: u32) -> (r: Vec<Scalar>)
    requires
        log_n <= TWO_ADICITY,
        a@.len() == pow2(log_n as nat),
        omega.val() == crate::lagrange::omega(log_n as nat) || omega.val() == finv(
            crate::lagrange::omega(log_n as nat),
        ),
    ensures
        r@.len() == a@.len(),
        forall|i: int|
            0 <= i < r@.len() ==> (#[trigger] r@[i]).val() == poly_eval(
                vals(a@),
                fpow(omega.val(), i as nat),
            ),
{
    let mut v: Vec<Fr> = a.iter().map(|s| Fr::from_raw(s.limbs)).collect();
    best_fft(&mut v, Fr::from_raw(omega.limbs), log_n);
    v.into_iter().map(|x| Scalar { limbs: x.into() }).collect()
}

/// Coefficients from values on the subgroup of order `values.len()`, which
/// must be a power of two, by the radix-2 transform at `ω⁻¹`: the polynomial
/// takes `values[k]` at `ω^k`.
pub fn ifft(values: &Vec<Scalar>, log_n: u32) -> (r: UnivariatePoly)
    requires
        log_n <= TWO_ADICITY,
        values@.len() == pow2(log_n as nat),
    ensures
        r.coeffs() == inverse_dft(vals(values@), log_n as nat),
        forall|k: int|
            0 <= k < values@.len() ==> #[trigger] poly_eval(
                r.coeffs(),
                fpow(omega(log_n as nat), k as nat),
            ) == values@[k].val(),
{
    let n = pow2_usize(log_n);
    let w = get_omega(log_n);
    let w_inv = match w.invert() {
        Some(v) => v,
        None => {
            proof {
                crate::field::lemma_finv_zero();
            }
            Scalar::zero()
        },
    };
    let n_inv = invert_small(n as u64);
    let evals = fft(values, &w_inv, log_n);
    let mut out: Vec<Scalar> = Vec::new();
    let mut i: usize = 0;
    while i < n
        invariant
            i <= n,
            n == values@.len(),
            evals@.len() == n,
            forall|j: int|
                0 <= j < n ==> (#[trigger] evals@[j]).val() == poly_eval(
                    vals(values@),
                    fpow(w_inv.val(), j as nat),
                ),
            w_inv.val() == finv(omega(log_n as nat)),
            n_inv.val() == finv(pow2(log_n as nat) as int),
            out@.len() == i,
            forall|j: int|
                0 <= j < i ==> (#[trigger] out@[j]).val() == inverse_dft(
                    vals(values@),
                    log_n as nat,
                )[j],
        decreases n - i,
    {
        out.push(n_inv.mul(&evals[i]));
        i = i + 1;
    }
    let r = UnivariatePoly(out);
    assert(r.coeffs() =~= inverse_dft(vals(values@), log_n as nat));
    proof {
        lemma_vals_reduced(values@);
        assert forall|k: int| 0 <= k < values@.len() implies #[trigger] poly_eval(
            r.coeffs(),
            fpow(omega(log_n as nat), k as nat),
        ) == values@[k].val() by {
            crate::fourier::lemma_inverse_dft_interpolates(vals(values@), log_n as nat, k as nat);
        }
    }
    r
}

/// Coefficients from values on the coset `ζ·⟨ω⟩` of the subgroup of order
/// `values.len()`, a power of two: the polynomial takes `values[k]` at
/// `ζ·ω^k`.
pub fn coset_ifft(values: &Vec<Scalar>, log_n: u32) -> (r: UnivariatePoly)
    requires
        log_n <= TWO_ADICITY,
        values@.len() == pow2(log_n as nat),
    ensures
        r.coeffs() == coset_inverse_dft(vals(values@), log_n as nat),
        forall|k: int|
            0 <= k < values@.len() ==> #[trigger] poly_eval(
                r.coeffs(),
                fmul(zeta(), fpow(omega(log_n as nat), k as nat)),
            ) == values@[k].val(),
{
    let base = ifft(values, log_n);
    let z = fr_zeta();
    let z_inv = match z.invert() {
        Some(v) => v,
        None => {
            proof {
                crate::field::lemma_finv_zero();
            }
            Scalar::zero()
        },
    };
    let n = base.0.len();
    assert(base.0@.len() == base.coeffs().len());
    let mut out: Vec<Scalar> = Vec::new();
    let mut factor = Scalar::one();
    let mut i: usize = 0;
    while i < n
        invariant
            i <= n,
            n == base.0@.len(),
            n == values@.len(),
            base.coeffs() == inverse_dft(vals(values@), log_n as nat),
            z_inv.val() == finv(zeta()),
            factor.val() == fpow(z_inv.val(), i as nat),
            out@.len() == i,
            forall|j: int|
                0 <= j < i ==> (#[trigger] out@[j]).val() == coset_inverse_dft(
                    vals(values@),
                    log_n as nat,
                )[j],
        decreases n - i,
    {
        out.push(base.0[i].mul(&factor));
        factor = z_inv.mul(&factor);
        i = i + 1;
    }
    let r = UnivariatePoly(out);
    assert(r.coeffs() =~= coset_inverse_dft(vals(values@), log_n as nat));
    proof {
        lemma_vals_reduced(values@);
        assert forall|k: int| 0 <= k < values@.len() implies #[trigger] poly_eval(
            r.coeffs(),
            fmul(zeta(), fpow(omega(log_n as nat), k as nat)),
        ) == values@[k].val() by {
            crate::fourier::lemma_coset_inverse_dft_interpolates(vals(values@), log_n as nat, k as nat);
        }
    }
    r
}

} // verus!
