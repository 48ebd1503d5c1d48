//! The cyclic evaluation domains of the field, and the closed forms of the
//! Lagrange basis and the vanishing polynomial over them.
use crate::field::{
    finv, fmul, fpow, fr_root_of_unity, fsub, lemma_finv_zero, lemma_fpow_mul, lemma_fpow_one,
    lemma_modulus_bounds, lemma_ops_reduced, lemma_pow_2k_add, lemma_pow_2k_is_fpow, limbs_value,
    modulus, pow_2k, root_of_unity, Scalar, TWO_ADICITY,
};
use vstd::arithmetic::power2::pow2;
use vstd::prelude::*;

verus! {

/// The generator of the cyclic subgroup of order `2^log_n`.
pub open spec fn omega(log_n: nat) -> int {
    pow_2k(root_of_unity(), (28 - log_n) as nat)
}

/// `L_i(x) = (ω^i / n) · (x^n − 1) / (x − ω^i)` over the subgroup of order
/// `n = 2^log_n`, and `1` where numerator and denominator both vanish.
pub open spec fn lagrange_eval(log_n: nat, i: nat, x: int) -> int {
    let n = pow2(log_n) as int;
    let w = fpow(omega(log_n), i);
    let num = fsub(fpow(x, n as nat), 1);
    let den = fsub(x, w);
    if num == 0 && den == 0 {
        1
    } else {
        fmul(fmul(num, finv(den)), fmul(w, finv(n)))
    }
}

/// `Z(x) = x^n − 1`.
pub open spec fn vanishing_eval(n: nat, x: int) -> int {
    fsub(fpow(x, n), 1)
}

/// `2^log_n` as a machine integer.
pub fn pow2_usize(log_n: u32) -> (r: usize)
    requires
        log_n <= 28,
    ensures
        r == pow2(log_n as nat),
        1 <= r <= 0x1000_0000,
{
    proof {
        vstd::arithmetic::power2::lemma2_to64();
    }
    let mut r: usize = 1;
    let mut i: u32 = 0;
    while i < log_n
        invariant
            i <= log_n <= 28,
            r == pow2(i as nat),
            1 <= r,
            pow2(28) == 0x1000_0000,
        decreases log_n - i,
    {
        proof {
            vstd::arithmetic::power2::lemma_pow2_unfold((i + 1) as nat);
            if i + 1 < 28 {
                vstd::arithmetic::power2::lemma_pow2_strictly_increases((i + 1) as nat, 28);
            }
        }
        r = r * 2;
        i = i + 1;
    }
    proof {
        if log_n < 28 {
            vstd::arithmetic::power2::lemma_pow2_strictly_increases(log_n as nat, 28);
        }
    }
    r
}

/// The generator `ω` of the subgroup of order `2^log_n`: the field's
/// `2^28`-th root of unity squared `28 − log_n` times.
pub fn get_omega(log_n: u32) -> (r: Scalar)
    requires
        log_n <= TWO_ADICITY,
    ensures
        r.val() == omega(log_n as nat),
{
    let steps: u32 = TWO_ADICITY - log_n;
    let mut r = fr_root_of_unity();
    let mut k: u32 = 0;
    while k < steps
        invariant
            k <= steps,
            steps == 28 - log_n,
            r.val() == pow_2k(root_of_unity(), k as nat),
        decreases steps - k,
    {
        r = r.mul(&r);
        k = k + 1;
    }
    r
}

/// The elements `ω^0, ω^1, …, ω^(n−1)` of the subgroup of order `n = 2^log_n`.
pub fn iter_cyclic_subgroup(log_n: u32) -> (r: Vec<Scalar>)
    requires
        log_n <= TWO_ADICITY,
    ensures
        r@.len() == pow2(log_n as nat),
        forall|i: int|
            0 <= i < r@.len() ==> (#[trigger] r@[i]).val() == fpow(omega(log_n as nat), i as nat),
{
    let n = pow2_usize(log_n);
    let w = get_omega(log_n);
    let mut r: Vec<Scalar> = Vec::new();
    let mut cur = Scalar::one();
    let mut i: usize = 0;
    while i < n
        invariant
            i <= n,
            r@.len() == i,
            cur.val() == fpow(w.val(), i as nat),
            forall|j: int| 0 <= j < i ==> (#[trigger] r@[j]).val() == fpow(w.val(), j as nat),
        decreases n - i,
    {
        r.push(cur);
        cur = w.mul(&cur);
        i = i + 1;
    }
    r
}

/// The inverse of a nonzero value below every `u64`.
pub fn invert_small(n: u64) -> (r: Scalar)
    requires
        n > 0,
    ensures
        r.val() == finv(n as int),
{
    proof {
        lemma_modulus_bounds();
    }
    let s = Scalar::from_u64(n);
    match s.invert() {
        Some(v) => v,
        None => Scalar::zero(),
    }
}

/// `L_i(x)` for every `i` of the subgroup of order `2^log_n`, in order.
pub fn iter_eval_lagrange_poly_for_cyclic_group(x: &Scalar, log_n: u32) -> (r: Vec<Scalar>)
    requires
        log_n <= TWO_ADICITY,
    ensures
        r@.len() == pow2(log_n as nat),
        forall|i: int|
            0 <= i < r@.len() ==> (#[trigger] r@[i]).val() == lagrange_eval(
                log_n as nat,
                i as nat,
                x.val(),
            ),
{
    let n = pow2_usize(log_n);
    let points = iter_cyclic_subgroup(log_n);
    let inv_n = invert_small(n as u64);
    let x_pow_n = x.pow(n as u64);
    let num = x_pow_n.sub(&Scalar::one());
    let mut r: Vec<Scalar> = Vec::new();
    let mut i: usize = 0;
    while i < n
        invariant
            i <= n,
            n == pow2(log_n as nat),
            points@.len() == n,
            forall|j: int|
                0 <= j < points@.len() ==> (#[trigger] points@[j]).val() == fpow(
                    omega(log_n as nat),
                    j as nat,
                ),
            inv_n.val() == finv(n as int),
            num.val() == fsub(fpow(x.val(), n as nat), 1),
            r@.len() == i,
            forall|j: int|
                0 <= j < i ==> (#[trigger] r@[j]).val() == lagrange_eval(
                    log_n as nat,
                    j as nat,
                    x.val(),
                ),
        decreases n - i,
    {
        let w = points[i];
        let den = x.sub(&w);
        let v = if num.is_zero() && den.is_zero() {
            Scalar::one()
        } else {
            let den_inv = match den.invert() {
                Some(d) => d,
                None => {
                    proof {
                        lemma_finv_zero();
                    }
                    Scalar::zero()
                },
            };
            let lhs = num.mul(&den_inv);
            let c = w.mul(&inv_n);
            lhs.mul(&c)
        };
        r.push(v);
        i = i + 1;
    }
    r
}

/// `Z(x) = x^degree − 1`.
pub fn eval_vanish_polynomial(degree: u64, x: &Scalar) -> (r: Scalar)
    ensures
        r.val() == vanishing_eval(degree as nat, x.val()),
{
    let p = x.pow(degree);
    p.sub(&Scalar::one())
}

/// The field's root of unity has order `2^28`: squaring it 28 times gives one.
#[verifier::rlimit(50)]
pub proof fn lemma_root_of_unity_order()
    ensures
        pow_2k(root_of_unity(), 27) == modulus() - 1,
        pow_2k(root_of_unity(), 28) == 1,
{
    let r0 = root_of_unity();
    assert(pow_2k(root_of_unity(), 0) == r0);
    let r1 = limbs_value([0x998550aa8f948006, 0x8d6377ca2f0e806, 0x5258ffea8d1604d4, 0x148e611dd90e580c]);
    assert(fmul(r0, r0) == r1) by (nonlinear_arith)
        requires
            r0 == root_of_unity(),
            r1 == limbs_value([0x998550aa8f948006, 0x8d6377ca2f0e806, 0x5258ffea8d1604d4, 0x148e611dd90e580c]),
    ;
    assert(pow_2k(root_of_unity(), 1) == r1);
    let r2 = limbs_value([0xc75090cc6cc7ec97, 0x24395c43b9227b96, 0xe29a9039aca3c0e5, 0x1dba8b5bdd64ef6c]);
    assert(fmul(r1, r1) == r2) by (nonlinear_arith)
        requires
            r1 == limbs_value([0x998550aa8f948006, 0x8d6377ca2f0e806, 0x5258ffea8d1604d4, 0x148e611dd90e580c]),
            r2 == limbs_value([0xc75090cc6cc7ec97, 0x24395c43b9227b96, 0xe29a9039aca3c0e5, 0x1dba8b5bdd64ef6c]),
    ;
    assert(pow_2k(root_of_unity(), 2) == r2);
    let r3 = limbs_value([0x3f94c217303dd160, 0x262b9af83acb9e00, 0xa8ed16c17adaae39, 0xd94d63997367c97]);
    assert(fmul(r2, r2) == r3) by (nonlinear_arith)
        requires
            r2 == limbs_value([0xc75090cc6cc7ec97, 0x24395c43b9227b96, 0xe29a9039aca3c0e5, 0x1dba8b5bdd64ef6c]),
            r3 == limbs_value([0x3f94c217303dd160, 0x262b9af83acb9e00, 0xa8ed16c17adaae39, 0xd94d63997367c97]),
    ;
    assert(pow_2k(root_of_unity(), 3) == r3);
    let r4 = limbs_value([0x821df86636c0facb, 0x36f5ba978c050f2, 0x6e47a6075066a50a, 0x1951441010b2b95a]);
    assert(fmul(r3, r3) == r4) by (nonlinear_arith)
        requires
            r3 == limbs_value([0x3f94c217303dd160, 0x262b9af83acb9e00, 0xa8ed16c17adaae39, 0xd94d63997367c97]),
            r4 == limbs_value([0x821df86636c0facb, 0x36f5ba978c050f2, 0x6e47a6075066a50a, 0x1951441010b2b95a]),
    ;
    assert(pow_2k(root_of_unity(), 4) == r4);
    let r5 = limbs_value([0x1c223be65bc60863, 0xa4adb9269cbfd7c4, 0xba2008fe823128be, 0x1283ba6f4b7b1a76]);
    assert(fmul(r4, r4) == r5) by (nonlinear_arith)
        requires
            r4 == limbs_value([0x821df86636c0facb, 0x36f5ba978c050f2, 0x6e47a6075066a50a, 0x1951441010b2b95a]),
            r5 == limbs_value([0x1c223be65bc60863, 0xa4adb9269cbfd7c4, 0xba2008fe823128be, 0x1283ba6f4b7b1a76]),
    ;
    assert(pow_2k(root_of_unity(), 5) == r5);
    let r6 = limbs_value([0x4dd654168326bede, 0xffcec5347f16e91b, 0xa1b30fd7923947c5, 0x18c95f1ae6514e11]);
    assert(fmul(r5, r5) == r6) by (nonlinear_arith)
        requires
            r5 == limbs_value([0x1c223be65bc60863, 0xa4adb9269cbfd7c4, 0xba2008fe823128be, 0x1283ba6f4b7b1a76]),
            r6 == limbs_value([0x4dd654168326bede, 0xffcec5347f16e91b, 0xa1b30fd7923947c5, 0x18c95f1ae6514e11]),
    ;
    assert(pow_2k(root_of_unity(), 6) == r6);
    let r7 = limbs_value([0x747b5c96639659bb, 0xbdcaa463f4442a52, 0x828c7285d0258e1, 0x32750f8f3c2493d]);
    assert(fmul(r6, r6) == r7) by (nonlinear_arith)
        requires
            r6 == limbs_value([0x4dd654168326bede, 0xffcec5347f16e91b, 0xa1b30fd7923947c5, 0x18c95f1ae6514e11]),
            r7 == limbs_value([0x747b5c96639659bb, 0xbdcaa463f4442a52, 0x828c7285d0258e1, 0x32750f8f3c2493d]),
    ;
    assert(pow_2k(root_of_unity(), 7) == r7);
    let r8 = limbs_value([0x2f0e1e3182673378, 0x745e39fada049d5b, 0x856402b62520e670, 0x2a14464f1ff42de3]);
    assert(fmul(r7, r7) == r8) by (nonlinear_arith)
        requires
            r7 == limbs_value([0x747b5c96639659bb, 0xbdcaa463f4442a52, 0x828c7285d0258e1, 0x32750f8f3c2493d]),
            r8 == limbs_value([0x2f0e1e3182673378, 0x745e39fada049d5b, 0x856402b62520e670, 0x2a14464f1ff42de3]),
    ;
    assert(pow_2k(root_of_unity(), 8) == r8);
    let r9 = limbs_value([0x14cc0193568fc082, 0xb123f767e4b0883d, 0xcbb67d11a4077806, 0xcf1526aaafac6ba]);
    assert(fmul(r8, r8) == r9) by (nonlinear_arith)
        requires
            r8 == limbs_value([0x2f0e1e3182673378, 0x745e39fada049d5b, 0x856402b62520e670, 0x2a14464f1ff42de3]),
            r9 == limbs_value([0x14cc0193568fc082, 0xb123f767e4b0883d, 0xcbb67d11a4077806, 0xcf1526aaafac6ba]),
    ;
    assert(pow_2k(root_of_unity(), 9) == r9);
    let r10 = limbs_value([0x26a9fcf88ddbfebe, 0xd60d06a05216231b, 0x79b2d39267945f6b, 0xf60c8fe0414cb93]);
    assert(fmul(r9, r9) == r10) by (nonlinear_arith)
        requires
            r9 == limbs_value([0x14cc0193568fc082, 0xb123f767e4b0883d, 0xcbb67d11a4077806, 0xcf1526aaafac6ba]),
            r10 == limbs_value([0x26a9fcf88ddbfebe, 0xd60d06a05216231b, 0x79b2d39267945f6b, 0xf60c8fe0414cb93]),
    ;
    assert(pow_2k(root_of_unity(), 10) == r10);
    let r11 = limbs_value([0x8db819c179c2c3ea, 0xe7ea6b06a7f266ef, 0x54e981a27ed7706, 0x304cd1e79cfa5b0f]);
    assert(fmul(r10, r10) == r11) by (nonlinear_arith)
        requires
            r10 == limbs_value([0x26a9fcf88ddbfebe, 0xd60d06a05216231b, 0x79b2d39267945f6b, 0xf60c8fe0414cb93]),
            r11 == limbs_value([0x8db819c179c2c3ea, 0xe7ea6b06a7f266ef, 0x54e981a27ed7706, 0x304cd1e79cfa5b0f]),
    ;
    assert(pow_2k(root_of_unity(), 11) == r11);
    let r12 = limbs_value([0xbabd582133584b29, 0xa5f5d8fb89091c3a, 0x23e49ace3f647643, 0x9d2cc4b5782fbe9]);
    assert(fmul(r11, r11) == r12) by (nonlinear_arith)
        requires
            r11 == limbs_value([0x8db819c179c2c3ea, 0xe7ea6b06a7f266ef, 0x54e981a27ed7706, 0x304cd1e79cfa5b0f]),
            r12 == limbs_value([0xbabd582133584b29, 0xa5f5d8fb89091c3a, 0x23e49ace3f647643, 0x9d2cc4b5782fbe9]),
    ;
    assert(pow_2k(root_of_unity(), 12) == r12);
    let r13 = limbs_value([0xf0acd0b96a8a942e, 0xcb511871e4d44a65, 0x6530b94d3120ce6f, 0x2b7ddfe4383c8d80]);
    assert(fmul(r12, r12) == r13) by (nonlinear_arith)
        requires
            r12 == limbs_value([0xbabd582133584b29, 0xa5f5d8fb89091c3a, 0x23e49ace3f647643, 0x9d2cc4b5782fbe9]),
            r13 == limbs_value([0xf0acd0b96a8a942e, 0xcb511871e4d44a65, 0x6530b94d3120ce6f, 0x2b7ddfe4383c8d80]),
    ;
    assert(pow_2k(root_of_unity(), 13) == r13);
    let r14 = limbs_value([0x9119dbe6eaab3cac, 0xd626d9ca335d73a0, 0x2aa212849e9a0c07, 0x2337acd19f40bf2b]);
    assert(fmul(r13, r13) == r14) by (nonlinear_arith)
        requires
            r13 == limbs_value([0xf0acd0b96a8a942e, 0xcb511871e4d44a65, 0x6530b94d3120ce6f, 0x2b7ddfe4383c8d80]),
            r14 == limbs_value([0x9119dbe6eaab3cac, 0xd626d9ca335d73a0, 0x2aa212849e9a0c07, 0x2337acd19f40bf2b]),
    ;
    assert(pow_2k(root_of_unity(), 14) == r14);
    let r15 = limbs_value([0x12b179af67f67ae1, 0x3bd0ed25881f9ed, 0x35a1bb49f23d81aa, 0x10e3d295c1599ff5]);
    assert(fmul(r14, r14) == r15) by (nonlinear_arith)
        requires
            r14 == limbs_value([0x9119dbe6eaab3cac, 0xd626d9ca335d73a0, 0x2aa212849e9a0c07, 0x2337acd19f40bf2b]),
            r15 == limbs_value([0x12b179af67f67ae1, 0x3bd0ed25881f9ed, 0x35a1bb49f23d81aa, 0x10e3d295c1599ff5]),
    ;
    assert(pow_2k(root_of_unity(), 15) == r15);
    let r16 = limbs_value([0x251aa6161f2e6ee6, 0x38aa810773efee2a, 0xa9953f60087a4232, 0x2f6122bbf1d35fda]);
    assert(fmul(r15, r15) == r16) by (nonlinear_arith)
        requires
            r15 == limbs_value([0x12b179af67f67ae1, 0x3bd0ed25881f9ed, 0x35a1bb49f23d81aa, 0x10e3d295c1599ff5]),
            r16 == limbs_value([0x251aa6161f2e6ee6, 0x38aa810773efee2a, 0xa9953f60087a4232, 0x2f6122bbf1d35fda]),
    ;
    assert(pow_2k(root_of_unity(), 16) == r16);
    let r17 = limbs_value([0x60bc04a4172705f, 0xfa6c01aa0f53557b, 0x74db4b3f7d4a5694, 0x14c60185e75885d6]);
    assert(fmul(r16, r16) == r17) by (nonlinear_arith)
        requires
            r16 == limbs_value([0x251aa6161f2e6ee6, 0x38aa810773efee2a, 0xa9953f60087a4232, 0x2f6122bbf1d35fda]),
            r17 == limbs_value([0x60bc04a4172705f, 0xfa6c01aa0f53557b, 0x74db4b3f7d4a5694, 0x14c60185e75885d6]),
    ;
    assert(pow_2k(root_of_unity(), 17) == r17);
    let r18 = limbs_value([0xbd08d99309c4bb7d, 0xb135ea330f1b1573, 0x19f77c5cf2cbd2de, 0x2ad9021ed07c42ab]);
    assert(fmul(r17, r17) == r18) by (nonlinear_arith)
        requires
            r17 == limbs_value([0x60bc04a4172705f, 0xfa6c01aa0f53557b, 0x74db4b3f7d4a5694, 0x14c60185e75885d6]),
            r18 == limbs_value([0xbd08d99309c4bb7d, 0xb135ea330f1b1573, 0x19f77c5cf2cbd2de, 0x2ad9021ed07c42ab]),
    ;
    assert(pow_2k(root_of_unity(), 18) == r18);
    let r19 = limbs_value([0x73af7ff4e4fc88fc, 0x165b61281e9054a1, 0x5d2a33029bc807ac, 0xdd30b9ad8c17355]);
    assert(fmul(r18, r18) == r19) by (nonlinear_arith)
        requires
            r18 == limbs_value([0xbd08d99309c4bb7d, 0xb135ea330f1b1573, 0x19f77c5cf2cbd2de, 0x2ad9021ed07c42ab]),
            r19 == limbs_value([0x73af7ff4e4fc88fc, 0x165b61281e9054a1, 0x5d2a33029bc807ac, 0xdd30b9ad8c17355]),
    ;
    assert(pow_2k(root_of_unity(), 19) == r19);
    let r20 = limbs_value([0x6692cc1e5a526c81, 0xd8675a9e5dd2336a, 0x820b96ff0a13f2db, 0x1058a83d529be585]);
    assert(fmul(r19, r19) == r20) by (nonlinear_arith)
        requires
            r19 == limbs_value([0x73af7ff4e4fc88fc, 0x165b61281e9054a1, 0x5d2a33029bc807ac, 0xdd30b9ad8c17355]),
            r20 == limbs_value([0x6692cc1e5a526c81, 0xd8675a9e5dd2336a, 0x820b96ff0a13f2db, 0x1058a83d529be585]),
    ;
    assert(pow_2k(root_of_unity(), 20) == r20);
    let r21 = limbs_value([0x8c9e954b942e6d6b, 0x3df9cff80535c8d0, 0x49f7a010aeec0dae, 0x2822ef9d2d155c2b]);
    assert(fmul(r20, r20) == r21) by (nonlinear_arith)
        requires
            r20 == limbs_value([0x6692cc1e5a526c81, 0xd8675a9e5dd2336a, 0x820b96ff0a13f2db, 0x1058a83d529be585]),
            r21 == limbs_value([0x8c9e954b942e6d6b, 0x3df9cff80535c8d0, 0x49f7a010aeec0dae, 0x2822ef9d2d155c2b]),
    ;
    assert(pow_2k(root_of_unity(), 21) == r21);
    let r22 = limbs_value([0x684cfa8ede70fdc7, 0xe18d1d2452d64bd2, 0xf6036a4037c3aa6a, 0x1c4c3a258629905e]);
    assert(fmul(r21, r21) == r22) by (nonlinear_arith)
        requires
            r21 == limbs_value([0x8c9e954b942e6d6b, 0x3df9cff80535c8d0, 0x49f7a010aeec0dae, 0x2822ef9d2d155c2b]),
            r22 == limbs_value([0x684cfa8ede70fdc7, 0xe18d1d2452d64bd2, 0xf6036a4037c3aa6a, 0x1c4c3a258629905e]),
    ;
    assert(pow_2k(root_of_unity(), 22) == r22);
    let r23 = limbs_value([0x3eed4c533bb512d0, 0x9c18d51b838eeb1d, 0x9678200d47c0b2a9, 0x9c532c6306b93d2]);
    assert(fmul(r22, r22) == r23) by (nonlinear_arith)
        requires
            r22 == limbs_value([0x684cfa8ede70fdc7, 0xe18d1d2452d64bd2, 0xf6036a4037c3aa6a, 0x1c4c3a258629905e]),
            r23 == limbs_value([0x3eed4c533bb512d0, 0x9c18d51b838eeb1d, 0x9678200d47c0b2a9, 0x9c532c6306b93d2]),
    ;
    assert(pow_2k(root_of_unity(), 23) == r23);
    let r24 = limbs_value([0xb11509c6e306460b, 0x996dfbe1174efb98, 0x1c6e4f4594dd508c, 0x21082ca216cbbf4e]);
    assert(fmul(r23, r23) == r24) by (nonlinear_arith)
        requires
            r23 == limbs_value([0x3eed4c533bb512d0, 0x9c18d51b838eeb1d, 0x9678200d47c0b2a9, 0x9c532c6306b93d2]),
            r24 == limbs_value([0xb11509c6e306460b, 0x996dfbe1174efb98, 0x1c6e4f4594dd508c, 0x21082ca216cbbf4e]),
    ;
    assert(pow_2k(root_of_unity(), 24) == r24);
    let r25 = limbs_value([0x948dad4ac1bd5e80, 0x52627366f8170a0a, 0xec9b9e2f96afef36, 0x2b337de1c8c14f22]);
    assert(fmul(r24, r24) == r25) by (nonlinear_arith)
        requires
            r24 == limbs_value([0xb11509c6e306460b, 0x996dfbe1174efb98, 0x1c6e4f4594dd508c, 0x21082ca216cbbf4e]),
            r25 == limbs_value([0x948dad4ac1bd5e80, 0x52627366f8170a0a, 0xec9b9e2f96afef36, 0x2b337de1c8c14f22]),
    ;
    assert(pow_2k(root_of_unity(), 25) == r25);
    let r26 = limbs_value([0x231204708f703636, 0x5cea24f6fd736bec, 0x48b6e193fd84104, 0x30644e72e131a029]);
    assert(fmul(r25, r25) == r26) by (nonlinear_arith)
        requires
            r25 == limbs_value([0x948dad4ac1bd5e80, 0x52627366f8170a0a, 0xec9b9e2f96afef36, 0x2b337de1c8c14f22]),
            r26 == limbs_value([0x231204708f703636, 0x5cea24f6fd736bec, 0x48b6e193fd84104, 0x30644e72e131a029]),
    ;
    assert(pow_2k(root_of_unity(), 26) == r26);
    let r27 = limbs_value([0x43e1f593f0000000, 0x2833e84879b97091, 0xb85045b68181585d, 0x30644e72e131a029]);
    assert(fmul(r26, r26) == r27) by (nonlinear_arith)
        requires
            r26 == limbs_value([0x231204708f703636, 0x5cea24f6fd736bec, 0x48b6e193fd84104, 0x30644e72e131a029]),
            r27 == limbs_value([0x43e1f593f0000000, 0x2833e84879b97091, 0xb85045b68181585d, 0x30644e72e131a029]),
    ;
    assert(pow_2k(root_of_unity(), 27) == r27);
    let r28 = 1int;
    assert(fmul(r27, r27) == r28) by (nonlinear_arith)
        requires
            r27 == limbs_value([0x43e1f593f0000000, 0x2833e84879b97091, 0xb85045b68181585d, 0x30644e72e131a029]),
            r28 == 1int,
    ;
    assert(pow_2k(root_of_unity(), 28) == r28);
}

/// `ω^(2^log_n) == 1`: the generator of a domain has the domain's order.
pub proof fn lemma_omega_order(log_n: nat)
    requires
        log_n <= 28,
    ensures
        fpow(omega(log_n), pow2(log_n)) == 1,
{
    lemma_root_of_unity_order();
    lemma_modulus_bounds();
    assert(root_of_unity() < modulus());
    let k = (28 - log_n) as nat;
    if k > 0 {
        lemma_ops_reduced(pow_2k(root_of_unity(), (k - 1) as nat), pow_2k(root_of_unity(), (k - 1) as nat));
    }
    lemma_pow_2k_is_fpow(omega(log_n), log_n);
    lemma_pow_2k_add(root_of_unity(), k, log_n);
}

/// At its own point `ω^i`, where both numerator and denominator vanish,
/// `L_i` is one.
pub proof fn lemma_lagrange_at_own_point(log_n: nat, i: nat)
    requires
        log_n <= 28,
    ensures
        lagrange_eval(log_n, i, fpow(omega(log_n), i)) == 1,
{
    let w = omega(log_n);
    let n = pow2(log_n);
    let x = fpow(w, i);
    lemma_omega_order(log_n);
    lemma_fpow_mul(w, i, n);
    lemma_fpow_mul(w, n, i);
    assert(i * n == n * i) by (nonlinear_arith);
    lemma_fpow_one(i);
    lemma_modulus_bounds();
    vstd::arithmetic::div_mod::lemma_small_mod(0, modulus() as nat);
    assert(fsub(fpow(x, n), 1) == 0);
    assert(fsub(x, x) == 0);
}

} // verus!
