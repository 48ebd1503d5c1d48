//! Sums over the field, and the orthogonality of the powers of a root of
//! unity, on which the inverse transform recovers a polynomial from its values.
use crate::field::{
    fadd, finv, fmul, fpow, lemma_fmul_assoc, lemma_fpow_add, lemma_fpow_mul, lemma_fpow_one,
    lemma_fpow_reduced, lemma_modulus_bounds, lemma_ops_reduced, lemma_pow_2k_is_fpow,
    lemma_reduced, modulus, pow_2k,
};
use crate::lagrange::{lemma_omega_order, lemma_root_of_unity_order, omega};
use crate::poly::{
    coset_inverse_dft, inverse_dft, lemma_horner_is_power_sum, poly_eval, power_sum,
};
use vstd::arithmetic::power2::pow2;
use vstd::prelude::*;

verus! {

/// `Σ_{i < n} f(i)` in the field.
pub open spec fn fsum(n: nat, f: spec_fn(nat) -> int) -> int
    decreases n,
{
    if n == 0 {
        0
    } else {
        fadd(fsum((n - 1) as nat, f), f((n - 1) as nat))
    }
}

pub proof fn lemma_fsum_reduced(n: nat, f: spec_fn(nat) -> int)
    ensures
        0 <= fsum(n, f) < modulus(),
{
    lemma_modulus_bounds();
    if n > 0 {
        lemma_ops_reduced(fsum((n - 1) as nat, f), f((n - 1) as nat));
    }
}

/// Sums of terms equal modulo the field's order are equal.
pub proof fn lemma_fsum_ext(n: nat, f: spec_fn(nat) -> int, g: spec_fn(nat) -> int)
    requires
        forall|i: nat| i < n ==> #[trigger] f(i) % modulus() == g(i) % modulus(),
    ensures
        fsum(n, f) == fsum(n, g),
    decreases n,
{
    if n > 0 {
        lemma_fsum_ext((n - 1) as nat, f, g);
        lemma_modulus_bounds();
        let s = fsum((n - 1) as nat, f);
        let a = f((n - 1) as nat);
        let b = g((n - 1) as nat);
        assert(a % modulus() == b % modulus());
        vstd::arithmetic::div_mod::lemma_add_mod_noop_right(s, a, modulus());
        vstd::arithmetic::div_mod::lemma_add_mod_noop_right(s, b, modulus());
    }
}

/// `c · Σ f == Σ c · f`.
pub proof fn lemma_fsum_scale(n: nat, c: int, f: spec_fn(nat) -> int)
    ensures
        fmul(c, fsum(n, f)) == fsum(n, |i: nat| fmul(c, f(i))),
    decreases n,
{
    lemma_modulus_bounds();
    let p = modulus();
    if n == 0 {
        assert(c * 0 == 0);
        vstd::arithmetic::div_mod::lemma_small_mod(0, p as nat);
    } else {
        lemma_fsum_scale((n - 1) as nat, c, f);
        let s = fsum((n - 1) as nat, f);
        let a = f((n - 1) as nat);
        // c·((s + a) % p) == (c·s % p + c·a % p) % p
        vstd::arithmetic::div_mod::lemma_mul_mod_noop_right(c, s + a, p);
        vstd::arithmetic::div_mod::lemma_add_mod_noop(c * s, c * a, p);
        assert(c * (s + a) == c * s + c * a) by (nonlinear_arith);
    }
}

/// `Σ f + Σ g == Σ (f + g)`.
pub proof fn lemma_fsum_add(n: nat, f: spec_fn(nat) -> int, g: spec_fn(nat) -> int)
    ensures
        fadd(fsum(n, f), fsum(n, g)) == fsum(n, |i: nat| fadd(f(i), g(i))),
    decreases n,
{
    lemma_modulus_bounds();
    let p = modulus();
    if n == 0 {
        vstd::arithmetic::div_mod::lemma_small_mod(0, p as nat);
    } else {
        lemma_fsum_add((n - 1) as nat, f, g);
        let s = fsum((n - 1) as nat, f);
        let t = fsum((n - 1) as nat, g);
        let a = f((n - 1) as nat);
        let b = g((n - 1) as nat);
        vstd::arithmetic::div_mod::lemma_add_mod_noop(s + a, t + b, p);
        vstd::arithmetic::div_mod::lemma_add_mod_noop(s + t, a + b, p);
        assert(s + a + (t + b) == s + t + (a + b));
    }
}

/// `Σ_{i < a + b} f(i) == Σ_{i < a} f(i) + Σ_{i < b} f(a + i)`.
pub proof fn lemma_fsum_split(a: nat, b: nat, f: spec_fn(nat) -> int)
    ensures
        fsum(a + b, f) == fadd(fsum(a, f), fsum(b, |i: nat| f(a + i))),
    decreases b,
{
    lemma_modulus_bounds();
    let p = modulus();
    if b == 0 {
        lemma_fsum_reduced(a, f);
        lemma_reduced(fsum(a, f));
    } else {
        lemma_fsum_split(a, (b - 1) as nat, f);
        let s = fsum(a, f);
        let t = fsum((b - 1) as nat, |i: nat| f(a + i));
        let x = f((a + b - 1) as nat);
        assert(fsum(a + b, f) == fadd(fsum((a + b - 1) as nat, f), x));
        vstd::arithmetic::div_mod::lemma_add_mod_noop_right(s, t + x, p);
        vstd::arithmetic::div_mod::lemma_add_mod_noop_right(s, t, p);
        vstd::arithmetic::div_mod::lemma_add_mod_noop(s + t, x, p);
        lemma_fsum_reduced(a, f);
        lemma_reduced(s);
        vstd::arithmetic::div_mod::lemma_add_mod_noop(s, t, p);
        assert((s + t) + x == s + (t + x));
        vstd::arithmetic::div_mod::lemma_add_mod_noop((s + t), x, p);
        lemma_ops_reduced(s, t);
        vstd::arithmetic::div_mod::lemma_add_mod_noop(s + t, x, p);
        assert(fadd(fadd(s, t), x) == fadd(s, fadd(t, x))) by {
            vstd::arithmetic::div_mod::lemma_add_mod_noop_right(s, t + x, p);
            vstd::arithmetic::div_mod::lemma_add_mod_noop(s + t, x, p);
            vstd::arithmetic::div_mod::lemma_mod_mod(s + t, p, 1);
            vstd::arithmetic::div_mod::lemma_add_mod_noop((s + t) % p, x, p);
            vstd::arithmetic::div_mod::lemma_add_mod_noop(s + t, x, p);
            vstd::arithmetic::div_mod::lemma_mod_twice(s + t, p);
        }
    }
}

/// The sum over a double index can be taken in either order.
pub proof fn lemma_fsum_swap(n: nat, m: nat, f: spec_fn(nat, nat) -> int)
    ensures
        fsum(n, |i: nat| fsum(m, |j: nat| f(i, j))) == fsum(m, |j: nat| fsum(n, |i: nat| f(i, j))),
    decreases n,
{
    if n > 0 {
        lemma_fsum_swap((n - 1) as nat, m, f);
        let g = |j: nat| fsum((n - 1) as nat, |i: nat| f(i, j));
        let h = |j: nat| f((n - 1) as nat, j);
        lemma_fsum_add(m, g, h);
        assert forall|j: nat| j < m implies #[trigger] fadd(g(j), h(j)) % modulus() == fsum(
            n,
            |i: nat| f(i, j),
        ) % modulus() by {
            assert(fsum(n, |i: nat| f(i, j)) == fadd(
                fsum((n - 1) as nat, |i: nat| f(i, j)),
                f((n - 1) as nat, j),
            ));
        }
        lemma_fsum_ext(
            m,
            |j: nat| fadd(g(j), h(j)),
            |j: nat| fsum(n, |i: nat| f(i, j)),
        );
        let outer = |i: nat| fsum(m, |j: nat| f(i, j));
        assert(fsum(n, outer) == fadd(fsum((n - 1) as nat, outer), outer((n - 1) as nat)));
        assert(fsum((n - 1) as nat, outer) == fsum(m, g));
        assert(outer((n - 1) as nat) == fsum(m, h));
        assert(fadd(fsum(m, g), fsum(m, h)) == fsum(m, |j: nat| fadd(g(j), h(j))));
    } else {
        lemma_modulus_bounds();
        vstd::arithmetic::div_mod::lemma_small_mod(0, modulus() as nat);
        lemma_fsum_zero(m, |j: nat| fsum(n, |i: nat| f(i, j)));
    }
}

/// A sum whose terms vanish but at `k` is its `k`-th term.
pub proof fn lemma_fsum_single(n: nat, k: nat, f: spec_fn(nat) -> int)
    requires
        k < n,
        forall|i: nat| i < n && i != k ==> #[trigger] f(i) % modulus() == 0,
    ensures
        fsum(n, f) == f(k) % modulus(),
    decreases n,
{
    lemma_modulus_bounds();
    let p = modulus();
    if n - 1 == k {
        lemma_fsum_zero(k, f);
        vstd::arithmetic::div_mod::lemma_small_mod(0, p as nat);
    } else {
        lemma_fsum_single((n - 1) as nat, k, f);
        let s = fsum((n - 1) as nat, f);
        let x = f((n - 1) as nat);
        vstd::arithmetic::div_mod::lemma_add_mod_noop_right(s, x, p);
        vstd::arithmetic::div_mod::lemma_mod_bound(f(k), p);
        vstd::arithmetic::div_mod::lemma_small_mod(s as nat, p as nat);
    }
}

/// A sum of terms that vanish is zero.
pub proof fn lemma_fsum_zero(n: nat, f: spec_fn(nat) -> int)
    requires
        forall|i: nat| i < n ==> #[trigger] f(i) % modulus() == 0,
    ensures
        fsum(n, f) == 0,
    decreases n,
{
    lemma_modulus_bounds();
    if n > 0 {
        lemma_fsum_zero((n - 1) as nat, f);
        vstd::arithmetic::div_mod::lemma_add_mod_noop_right(0, f((n - 1) as nat), modulus());
        vstd::arithmetic::div_mod::lemma_small_mod(0, modulus() as nat);
    }
}

/// `(−1)^m` is one for even `m` and `−1` for odd `m`.
pub proof fn lemma_fpow_minus_one(m: nat)
    ensures
        fpow(modulus() - 1, m) == if m % 2 == 0 {
            1
        } else {
            modulus() - 1
        },
    decreases m,
{
    lemma_modulus_bounds();
    let p = modulus();
    if m > 0 {
        lemma_fpow_minus_one((m - 1) as nat);
        if (m - 1) % 2 == 0 {
            lemma_reduced(p - 1);
        } else {
            assert((p - 1) * (p - 1) == (p - 2) * p + 1) by (nonlinear_arith);
            vstd::arithmetic::div_mod::lemma_mod_multiples_vanish(p - 2, 1, p);
            vstd::arithmetic::div_mod::lemma_small_mod(1, p as nat);
        }
    }
}

/// `Σ_{i < n} 1 == n`.
pub proof fn lemma_fsum_ones(n: nat)
    ensures
        fsum(n, |i: nat| 1int) == (n as int) % modulus(),
    decreases n,
{
    lemma_modulus_bounds();
    if n > 0 {
        lemma_fsum_ones((n - 1) as nat);
        vstd::arithmetic::div_mod::lemma_add_mod_noop((n - 1) as int, 1, modulus());
        vstd::arithmetic::div_mod::lemma_small_mod(1, modulus() as nat);
        vstd::arithmetic::div_mod::lemma_mod_twice((n - 1) as int, modulus());
    } else {
        vstd::arithmetic::div_mod::lemma_small_mod(0, modulus() as nat);
    }
}

/// The powers of a primitive `2^l`-th root of unity `w` are orthogonal: for
/// `m` not a multiple of `2^l`, `Σ_{i < 2^l} w^(i·m) == 0`.
pub proof fn lemma_roots_orthogonal(w: int, l: nat, m: nat)
    requires
        0 <= w < modulus(),
        l >= 1,
        pow_2k(w, (l - 1) as nat) == modulus() - 1,
        m % pow2(l) != 0,
    ensures
        fsum(pow2(l), |i: nat| fpow(w, i * m)) == 0,
    decreases l,
{
    lemma_modulus_bounds();
    let p = modulus();
    let h = pow2((l - 1) as nat);
    vstd::arithmetic::power2::lemma_pow2_unfold(l);
    vstd::arithmetic::power2::lemma_pow2_pos((l - 1) as nat);
    let f = |i: nat| fpow(w, i * m);
    let s = fsum(h, f);
    lemma_fsum_split(h, h, f);
    assert(h + h == pow2(l));
    lemma_pow_2k_is_fpow(w, (l - 1) as nat);
    lemma_fpow_mul(w, h, m);
    lemma_fpow_minus_one(m);
    let sign = fpow(p - 1, m);
    assert forall|i: nat| #[trigger] f(h + i) % p == fmul(sign, f(i)) % p by {
        assert((h + i) * m == h * m + i * m) by (nonlinear_arith);
        lemma_fpow_add(w, h * m, i * m);
        assert(fpow(w, h * m) == sign);
        lemma_ops_reduced(sign, f(i));
        vstd::arithmetic::div_mod::lemma_small_mod(fmul(sign, f(i)) as nat, p as nat);
        lemma_ops_reduced(fpow(w, h * m), f(i));
        vstd::arithmetic::div_mod::lemma_small_mod(f(h + i) as nat, p as nat);
    }
    lemma_fsum_ext(h, |i: nat| f(h + i), |i: nat| fmul(sign, f(i)));
    lemma_fsum_scale(h, sign, f);
    lemma_fsum_reduced(h, f);
    if m % 2 == 1 {
        // s + (−1)·s
        vstd::arithmetic::div_mod::lemma_add_mod_noop_right(s, (p - 1) * s, p);
        assert(s + (p - 1) * s == p * s) by (nonlinear_arith);
        vstd::arithmetic::div_mod::lemma_mod_multiples_basic(s, p);
        assert(p * s == s * p) by (nonlinear_arith);
    } else {
        // m = 2·m', and the sum halves onto the square of w.
        let m2 = (m / 2) as nat;
        assert(m == 2 * m2);
        if l == 1 {
            assert(pow2(1) == 2) by {
                vstd::arithmetic::power2::lemma2_to64();
            }
            assert(false);
        }
        let w2 = fmul(w, w);
        lemma_ops_reduced(w, w);
        assert(fpow(w, 0) == 1);
        assert(fpow(w, 1) == fmul(w, 1));
        lemma_reduced(w);
        assert forall|i: nat| #[trigger] f(i) % p == fpow(w2, i * m2) % p by {
            assert(i * m == 2 * (i * m2)) by (nonlinear_arith)
                requires
                    m == 2 * m2,
            ;
            lemma_fpow_mul(w, 2, i * m2);
            assert(fpow(w, 2) == fmul(w, fpow(w, 1)));
        }
        lemma_fsum_ext(h, f, |i: nat| fpow(w2, i * m2));
        crate::field::lemma_pow_2k_add(w, 1, (l - 2) as nat);
        assert(pow_2k(w, 0) == w);
        assert(pow_2k(w, 1) == w2);
        if m2 % h == 0 {
            let q = m2 / h;
            vstd::arithmetic::div_mod::lemma_fundamental_div_mod(m2 as int, h as int);
            assert(m == q * pow2(l)) by (nonlinear_arith)
                requires
                    m == 2 * m2,
                    m2 == h * q,
                    pow2(l) == 2 * h,
            ;
            vstd::arithmetic::div_mod::lemma_mod_multiples_basic(q as int, pow2(l) as int);
        }
        lemma_roots_orthogonal(w2, (l - 1) as nat, m2);
        vstd::arithmetic::div_mod::lemma_small_mod(0, p as nat);
        assert(fmul(1, s) == s) by {
            lemma_reduced(s);
        }
    }
}

/// `a · (b · c) == b · (a · c)`.
proof fn lemma_fmul_rotate(a: int, b: int, c: int)
    ensures
        fmul(a, fmul(b, c)) == fmul(b, fmul(a, c)),
{
    lemma_fmul_assoc(a, b, c);
    lemma_fmul_assoc(b, a, c);
    assert(a * b == b * a) by (nonlinear_arith);
}

/// Where `w^n == 1`, exponents count modulo `n`.
pub proof fn lemma_fpow_mod_order(w: int, n: nat, a: nat)
    requires
        n > 0,
        fpow(w, n) == 1,
    ensures
        fpow(w, a) == fpow(w, a % n),
{
    let q = a / n;
    let r = a % n;
    vstd::arithmetic::div_mod::lemma_fundamental_div_mod(a as int, n as int);
    assert(a == n * q + r);
    lemma_fpow_add(w, n * q, r);
    lemma_fpow_mul(w, n, q);
    lemma_fpow_one(q);
    lemma_fpow_reduced(w, r);
    lemma_reduced(fpow(w, r));
}

/// The powers of two are invertible in the field.
proof fn lemma_pow2_invertible(l: nat)
    requires
        l <= 28,
    ensures
        crate::field::is_inverse(pow2(l) as int, finv(pow2(l) as int)),
    decreases l,
{
    lemma_modulus_bounds();
    let p = modulus();
    let t = (p + 1) / 2;
    assert(p % 2 == 1);
    assert(2 * t == p + 1);
    let ghost inv = fpow(t, l);
    lemma_pow2_times_inverse(l, t);
    lemma_fpow_reduced(t, l);
    crate::field::lemma_inverse_is_finv(pow2(l) as int, inv);
}

proof fn lemma_pow2_times_inverse(l: nat, t: int)
    requires
        2 * t == modulus() + 1,
    ensures
        (pow2(l) * fpow(t, l)) % modulus() == 1,
    decreases l,
{
    lemma_modulus_bounds();
    let p = modulus();
    vstd::arithmetic::power2::lemma2_to64();
    if l == 0 {
        vstd::arithmetic::div_mod::lemma_small_mod(1, p as nat);
    } else {
        lemma_pow2_times_inverse((l - 1) as nat, t);
        vstd::arithmetic::power2::lemma_pow2_unfold(l);
        let a = pow2((l - 1) as nat) as int;
        let f = fpow(t, (l - 1) as nat);
        // 2a · ((t·f) % p) ≡ (2t) · (a·f)
        vstd::arithmetic::div_mod::lemma_mul_mod_noop_right(2 * a, t * f, p);
        assert((2 * a) * (t * f) == (2 * t) * (a * f)) by (nonlinear_arith);
        vstd::arithmetic::div_mod::lemma_mul_mod_noop((2 * t), (a * f), p);
        vstd::arithmetic::div_mod::lemma_mod_multiples_vanish(1, 1, p);
        assert((2 * t) % p == 1) by {
            vstd::arithmetic::div_mod::lemma_mod_multiples_vanish(1, 1, p);
            vstd::arithmetic::div_mod::lemma_small_mod(1, p as nat);
        }
        vstd::arithmetic::div_mod::lemma_small_mod(1, p as nat);
    }
}

/// The sum of powers is a field sum of its terms.
pub proof fn lemma_power_sum_is_fsum(c: Seq<int>, x: int, n: nat)
    requires
        n <= c.len(),
    ensures
        power_sum(c, x, n) == fsum(n, |i: nat| fmul(c[i as int], fpow(x, i))),
    decreases n,
{
    if n > 0 {
        lemma_power_sum_is_fsum(c, x, (n - 1) as nat);
    }
}

/// The exponent `(n − 1)·j + k`, congruent to `k − j` modulo `n`.
pub open spec fn shifted(n: nat, k: nat, j: nat) -> nat {
    ((n - 1) * j + k) as nat
}

/// `Σ_{i < n} ω^(i·((n−1)·j + k))` is `n` where `j == k` and zero elsewhere.
proof fn lemma_kernel_sum(l: nat, k: nat, j: nat)
    requires
        l <= 28,
        k < pow2(l),
        j < pow2(l),
    ensures
        fsum(pow2(l), |i: nat| fpow(omega(l), i * shifted(pow2(l), k, j))) == if j == k {
            pow2(l) as int
        } else {
            0
        },
{
    let n = pow2(l);
    let w = omega(l);
    let m = shifted(n, k, j);
    lemma_modulus_bounds();
    let p = modulus();
    vstd::arithmetic::power2::lemma_pow2_pos(l);
    vstd::arithmetic::power2::lemma2_to64();
    lemma_omega_order(l);
    if j == k {
        assert(m == n * k) by (nonlinear_arith)
            requires
                m == (n - 1) * j + k,
                j == k,
                n >= 1,
        ;
        assert forall|i: nat| i < n implies #[trigger] fpow(w, i * m) % p == 1int % p by {
            assert(i * m == n * (i * k)) by (nonlinear_arith)
                requires
                    m == n * k,
            ;
            lemma_fpow_mul(w, n, i * k);
            lemma_fpow_one(i * k);
        }
        lemma_fsum_ext(n, |i: nat| fpow(w, i * m), |i: nat| 1int);
        lemma_fsum_ones(n);
        if l < 28 {
            vstd::arithmetic::power2::lemma_pow2_strictly_increases(l, 28);
        }
        vstd::arithmetic::div_mod::lemma_small_mod(n, p as nat);
    } else {
        // m ≡ k − j (mod n), which is not zero
        if l == 0 {
            assert(n == 1);
            assert(false);
        }
        if k > j {
            assert(m == n * j + (k - j)) by (nonlinear_arith)
                requires
                    m == (n - 1) * j + k,
                    k > j,
            ;
            vstd::arithmetic::div_mod::lemma_mod_multiples_vanish(j as int, (k - j) as int, n as int);
            vstd::arithmetic::div_mod::lemma_small_mod((k - j) as nat, n);
        } else {
            assert(m == n * (j - 1) + (n + k - j)) by (nonlinear_arith)
                requires
                    m == (n - 1) * j + k,
                    j > k,
            ;
            vstd::arithmetic::div_mod::lemma_mod_multiples_vanish(
                (j - 1) as int,
                (n + k - j) as int,
                n as int,
            );
            vstd::arithmetic::div_mod::lemma_small_mod((n + k - j) as nat, n);
        }
        // ω is a primitive root: squaring it l − 1 times gives −1.
        lemma_root_of_unity_order();
        crate::field::lemma_pow_2k_add(crate::field::root_of_unity(), (28 - l) as nat, (l - 1) as nat);
        lemma_omega_reduced(l);
        lemma_roots_orthogonal(w, l, m);
    }
}

proof fn lemma_omega_reduced(l: nat)
    requires
        l <= 28,
    ensures
        0 <= omega(l) < modulus(),
{
    lemma_modulus_bounds();
    assert(crate::field::root_of_unity() < modulus());
    let k = (28 - l) as nat;
    if k > 0 {
        let y = pow_2k(crate::field::root_of_unity(), (k - 1) as nat);
        lemma_ops_reduced(y, y);
    }
}

/// The inverse transform recovers a polynomial from its values: the
/// polynomial whose coefficients are `inverse_dft(v)` takes the value `v[k]`
/// at `ω^k`, for each point of the subgroup of order `2^l`.
pub proof fn lemma_inverse_dft_interpolates(v: Seq<int>, l: nat, k: nat)
    requires
        l <= 28,
        v.len() == pow2(l),
        k < pow2(l),
        forall|i: int| 0 <= i < v.len() ==> 0 <= #[trigger] v[i] < modulus(),
    ensures
        poly_eval(inverse_dft(v, l), fpow(omega(l), k)) == v[k as int],
{
    lemma_modulus_bounds();
    let p = modulus();
    let n = pow2(l);
    let w = omega(l);
    vstd::arithmetic::power2::lemma_pow2_pos(l);
    lemma_omega_order(l);
    lemma_omega_reduced(l);
    // ω⁻¹ = ω^(n−1)
    let winv = finv(w);
    assert(fpow(w, n) == fmul(w, fpow(w, (n - 1) as nat)));
    lemma_fpow_reduced(w, (n - 1) as nat);
    crate::field::lemma_inverse_is_finv(w, fpow(w, (n - 1) as nat));
    assert(winv == fpow(w, (n - 1) as nat));
    let ninv = finv(n as int);
    lemma_pow2_invertible(l);
    let x = fpow(w, k);
    let c = inverse_dft(v, l);
    assert forall|i: int| 0 <= i < c.len() implies 0 <= #[trigger] c[i] < modulus() by {
        lemma_ops_reduced(ninv, poly_eval(v, fpow(winv, i as nat)));
    }
    lemma_horner_is_power_sum(c, x);
    lemma_power_sum_is_fsum(c, x, n);
    let t = |i: nat| fmul(c[i as int], fpow(x, i));
    let b = |i: nat| fsum(n, |j: nat| fmul(v[j as int], fpow(w, i * shifted(n, k, j))));
    assert forall|i: nat| i < n implies #[trigger] t(i) % p == fmul(ninv, b(i)) % p by {
        let y = fpow(winv, i);
        lemma_horner_is_power_sum(v, y);
        lemma_power_sum_is_fsum(v, y, n);
        let a = fsum(n, |j: nat| fmul(v[j as int], fpow(y, j)));
        let xi = fpow(x, i);
        lemma_fpow_mul(w, k, i);
        assert(c[i as int] == fmul(ninv, a));
        lemma_fmul_assoc(ninv, a, xi);
        assert(fmul(a, xi) == fmul(xi, a)) by {
            assert(a * xi == xi * a) by (nonlinear_arith);
        }
        let fa = |j: nat| fmul(v[j as int], fpow(y, j));
        lemma_fsum_scale(n, xi, fa);
        assert forall|j: nat| j < n implies #[trigger] fmul(xi, fa(j)) % p == fmul(
            v[j as int],
            fpow(w, i * shifted(n, k, j)),
        ) % p by {
            lemma_fmul_rotate(xi, v[j as int], fpow(y, j));
            lemma_fpow_mul(winv, i, j);
            lemma_fpow_mul(w, (n - 1) as nat, i * j);
            lemma_fpow_add(w, k * i, ((n - 1) * (i * j)) as nat);
            assert(k * i + (n - 1) * (i * j) == i * shifted(n, k, j)) by (nonlinear_arith)
                requires
                    shifted(n, k, j) == (n - 1) * j + k,
                    n >= 1,
            ;
        }
        lemma_fsum_ext(
            n,
            |j: nat| fmul(xi, fa(j)),
            |j: nat| fmul(v[j as int], fpow(w, i * shifted(n, k, j))),
        );
        assert(poly_eval(v, y) == a);
        assert(xi == fpow(x, i));
        assert(t(i) == fmul(fmul(ninv, a), xi));
        assert(fmul(xi, a) == b(i));
        assert(t(i) == fmul(ninv, b(i)));
    }
    lemma_fsum_ext(n, t, |i: nat| fmul(ninv, b(i)));
    lemma_fsum_scale(n, ninv, b);
    let f2 = |i: nat, j: nat| fmul(v[j as int], fpow(w, i * shifted(n, k, j)));
    lemma_fsum_swap(n, n, f2);
    assert forall|i: nat| i < n implies #[trigger] b(i) % p == fsum(n, |j: nat| f2(i, j)) % p by {
        lemma_fsum_ext(n, |j: nat| fmul(v[j as int], fpow(w, i * shifted(n, k, j))), |j: nat| f2(i, j));
    }
    lemma_fsum_ext(n, b, |i: nat| fsum(n, |j: nat| f2(i, j)));
    let col = |j: nat| fsum(n, |i: nat| f2(i, j));
    assert forall|j: nat| j < n && j != k implies #[trigger] col(j) % p == 0 by {
        let g = |i: nat| fpow(w, i * shifted(n, k, j));
        lemma_fsum_scale(n, v[j as int], g);
        lemma_kernel_sum(l, k, j);
        lemma_fsum_ext(n, |i: nat| f2(i, j), |i: nat| fmul(v[j as int], g(i)));
        assert(v[j as int] * 0 == 0);
        vstd::arithmetic::div_mod::lemma_small_mod(0, p as nat);
    }
    lemma_fsum_single(n, k, col);
    let gk = |i: nat| fpow(w, i * shifted(n, k, k));
    lemma_fsum_scale(n, v[k as int], gk);
    lemma_kernel_sum(l, k, k);
    lemma_fsum_ext(n, |i: nat| f2(i, k), |i: nat| fmul(v[k as int], gk(i)));
    // n⁻¹ · (v_k · n) == v_k
    let vk = v[k as int];
    lemma_fsum_reduced(n, |i: nat| f2(i, k));
    vstd::arithmetic::div_mod::lemma_small_mod(col(k) as nat, p as nat);
    lemma_fmul_rotate(ninv, vk, n as int);
    lemma_fmul_assoc(vk, ninv, n as int);
    assert(ninv * n == n * ninv) by (nonlinear_arith);
    lemma_reduced(vk);
}

/// `(a·b)^i == a^i · b^i`.
pub proof fn lemma_fpow_distrib(a: int, b: int, i: nat)
    ensures
        fpow(fmul(a, b), i) == fmul(fpow(a, i), fpow(b, i)),
    decreases i,
{
    lemma_modulus_bounds();
    let p = modulus();
    if i == 0 {
        vstd::arithmetic::div_mod::lemma_small_mod(1, p as nat);
    } else {
        lemma_fpow_distrib(a, b, (i - 1) as nat);
        let x = fpow(a, (i - 1) as nat);
        let y = fpow(b, (i - 1) as nat);
        // (a·b)·(x·y) == (a·x)·(b·y)
        vstd::arithmetic::div_mod::lemma_mul_mod_noop(a * b, x * y, p);
        vstd::arithmetic::div_mod::lemma_mul_mod_noop(a * x, b * y, p);
        vstd::arithmetic::div_mod::lemma_mod_twice(a * b, p);
        vstd::arithmetic::div_mod::lemma_mod_twice(x * y, p);
        vstd::arithmetic::div_mod::lemma_mod_twice(a * x, p);
        vstd::arithmetic::div_mod::lemma_mod_twice(b * y, p);
        assert((a * b) * (x * y) == (a * x) * (b * y)) by (nonlinear_arith);
    }
}

/// `ζ³ == 1`, so `ζ⁻¹ == ζ²`.
proof fn lemma_zeta_inverse()
    ensures
        finv(crate::field::zeta()) == fmul(crate::field::zeta(), crate::field::zeta()),
        crate::field::is_inverse(crate::field::zeta(), finv(crate::field::zeta())),
{
    let z = crate::field::zeta();
    let z2 = fmul(z, z);
    assert(z2 == crate::field::limbs_value([0x8b17ea66b99c90dd, 0x5bfc41088d8daaa7, 0xb3c4d79d41a91758, 0x0])) by (nonlinear_arith)
        requires
            z == crate::field::zeta(),
            z2 == fmul(z, z),
    ;
    assert((z * z2) % modulus() == 1) by (nonlinear_arith)
        requires
            z == crate::field::zeta(),
            z2 == crate::field::limbs_value([0x8b17ea66b99c90dd, 0x5bfc41088d8daaa7, 0xb3c4d79d41a91758, 0x0]),
    ;
    lemma_ops_reduced(z, z);
    crate::field::lemma_inverse_is_finv(z, z2);
}

/// The coset transform recovers a polynomial from its values on the coset:
/// the polynomial whose coefficients are `coset_inverse_dft(v)` takes the
/// value `v[k]` at `ζ·ω^k`.
pub proof fn lemma_coset_inverse_dft_interpolates(v: Seq<int>, l: nat, k: nat)
    requires
        l <= 28,
        v.len() == pow2(l),
        k < pow2(l),
        forall|i: int| 0 <= i < v.len() ==> 0 <= #[trigger] v[i] < modulus(),
    ensures
        poly_eval(
            coset_inverse_dft(v, l),
            fmul(crate::field::zeta(), fpow(omega(l), k)),
        ) == v[k as int],
{
    lemma_modulus_bounds();
    let p = modulus();
    let n = pow2(l);
    let z = crate::field::zeta();
    let zinv = finv(z);
    lemma_zeta_inverse();
    let y = fpow(omega(l), k);
    let x = fmul(z, y);
    let c = inverse_dft(v, l);
    let d = coset_inverse_dft(v, l);
    assert forall|i: int| 0 <= i < d.len() implies 0 <= #[trigger] d[i] < modulus() by {
        lemma_ops_reduced(c[i], fpow(zinv, i as nat));
    }
    assert forall|i: int| 0 <= i < c.len() implies 0 <= #[trigger] c[i] < modulus() by {
        lemma_ops_reduced(finv(n as int), poly_eval(v, fpow(finv(omega(l)), i as nat)));
    }
    lemma_horner_is_power_sum(d, x);
    lemma_power_sum_is_fsum(d, x, n);
    lemma_horner_is_power_sum(c, y);
    lemma_power_sum_is_fsum(c, y, n);
    assert forall|i: nat| i < n implies #[trigger] fmul(d[i as int], fpow(x, i)) % p == fmul(
        c[i as int],
        fpow(y, i),
    ) % p by {
        let zi = fpow(zinv, i);
        let zz = fpow(z, i);
        let yi = fpow(y, i);
        lemma_fpow_distrib(z, y, i);
        lemma_fpow_distrib(zinv, z, i);
        assert(fmul(zinv, z) == 1) by {
            assert(zinv * z == z * zinv) by (nonlinear_arith);
        }
        lemma_fpow_one(i);
        // (c·zi)·(zz·yi) == c·((zi·zz)·yi)
        lemma_fmul_assoc(c[i as int], zi, fmul(zz, yi));
        lemma_fmul_assoc(zi, zz, yi);
        lemma_fpow_reduced(y, i);
        lemma_reduced(yi);
    }
    lemma_fsum_ext(n, |i: nat| fmul(d[i as int], fpow(x, i)), |i: nat| fmul(c[i as int], fpow(y, i)));
    lemma_inverse_dft_interpolates(v, l, k);
}

/// No power of two is a multiple of three.
proof fn lemma_pow2_mod_3(m: nat)
    ensures
        pow2(m) % 3 == 1 || pow2(m) % 3 == 2,
    decreases m,
{
    vstd::arithmetic::power2::lemma2_to64();
    if m > 0 {
        lemma_pow2_mod_3((m - 1) as nat);
        vstd::arithmetic::power2::lemma_pow2_unfold(m);
    }
}

/// The vanishing polynomial of a subgroup of order `2^log_l` has no root on
/// the coset `ζ·⟨ω⟩` of any domain: `(ζ·ω^i)^(2^log_l) != 1`.
pub proof fn lemma_vanishing_nonzero_on_coset(log_k: nat, log_l: nat, i: nat)
    requires
        log_k <= 28,
    ensures
        crate::lagrange::vanishing_eval(
            pow2(log_l),
            fmul(crate::field::zeta(), fpow(omega(log_k), i)),
        ) != 0,
{
    lemma_modulus_bounds();
    let p = modulus();
    let z = crate::field::zeta();
    let w = omega(log_k);
    let y = fpow(w, i);
    let x = fmul(z, y);
    let n = pow2(log_l);
    let big = pow2(28);
    lemma_fpow_reduced(x, n);
    if fpow(x, n) == 1 {
        // x^(n·2^28) is one, but it is a power of ζ that is not one.
        lemma_fpow_mul(x, n, big);
        lemma_fpow_one(big);
        lemma_fpow_distrib(z, y, n * big);
        lemma_fpow_mul(w, i, n * big);
        lemma_omega_order(log_k);
        vstd::arithmetic::power2::lemma_pow2_pos(log_k);
        vstd::arithmetic::power2::lemma_pow2_adds(log_k, (28 - log_k) as nat);
        let q = pow2((28 - log_k) as nat);
        assert(i * (n * big) == pow2(log_k) * (i * n * q)) by (nonlinear_arith)
            requires
                big == pow2(log_k) * q,
        ;
        vstd::arithmetic::div_mod::lemma_mod_multiples_basic((i * n * q) as int, pow2(log_k) as int);
        assert((pow2(log_k) * (i * n * q)) % pow2(log_k) == 0) by (nonlinear_arith)
            requires
                ((i * n * q) as int * pow2(log_k) as int) % pow2(log_k) as int == 0,
        ;
        lemma_fpow_mod_order(w, pow2(log_k), i * (n * big));
        assert(fpow(w, 0) == 1);
        // ζ³ == 1
        lemma_zeta_inverse();
        assert(z < p);
        lemma_reduced(z);
        assert(fpow(z, 0) == 1);
        assert(fpow(z, 1) == fmul(z, 1));
        assert(fpow(z, 2) == fmul(z, fpow(z, 1)));
        assert(fpow(z, 3) == fmul(z, fpow(z, 2)));
        assert(fmul(z, fmul(z, z)) == 1) by {
            assert(z * fmul(z, z) == fmul(z, z) * z) by (nonlinear_arith);
        }
        vstd::arithmetic::power2::lemma_pow2_adds(log_l, 28);
        lemma_pow2_mod_3(log_l + 28);
        lemma_fpow_mod_order(z, 3, n * big);
        let zz = fpow(z, (n * big) % 3);
        lemma_fpow_reduced(z, (n * big) % 3);
        lemma_fpow_reduced(y, n * big);
        lemma_reduced(zz);
        assert(fmul(zz, 1) == zz);
        assert(fmul(z, z) == crate::field::limbs_value([0x8b17ea66b99c90dd, 0x5bfc41088d8daaa7, 0xb3c4d79d41a91758, 0x0])) by (nonlinear_arith)
            requires
                z == crate::field::zeta(),
        ;
        assert(false);
    }
    if fpow(x, n) >= 1 {
        vstd::arithmetic::div_mod::lemma_small_mod((fpow(x, n) - 1) as nat, p as nat);
    } else {
        vstd::arithmetic::div_mod::lemma_mod_multiples_vanish(-1, p - 1, p);
        vstd::arithmetic::div_mod::lemma_small_mod((p - 1) as nat, p as nat);
    }
}

} // verus!
