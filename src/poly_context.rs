//! Size parameters of the folding polynomials, and the engines that compute
//! `F(X)`, `G(X)` and `K(X)` from gate evaluations.
use crate::field::{
    fadd, finv, fmul, fpow, fr_zeta, fsub, is_inverse, lemma_modulus_bounds, modulus, pow_2k, vals,
    zeta, Scalar,
};
use crate::lagrange::{
    eval_vanish_polynomial, iter_cyclic_subgroup, iter_eval_lagrange_poly_for_cyclic_group,
    lagrange_eval, omega, vanishing_eval,
};
use crate::plonk::nested_vals;
use crate::poly::{
    coset_ifft, coset_inverse_dft, ifft, inverse_dft, lemma_vals_reduced, poly_eval, UnivariatePoly,
};
use vstd::arithmetic::power2::pow2;
use vstd::prelude::*;

verus! {

/// `2^k` is the least power of two that is at least `n`.
pub open spec fn is_ceil_log2(n: nat, k: nat) -> bool {
    pow2(k) >= n && (k == 0 || pow2((k - 1) as nat) < n)
}

/// `n` is `2^k` for some `k` within the field's two-adicity.
pub open spec fn is_domain_size(n: nat) -> bool {
    exists|k: nat| k <= 28 && #[trigger] pow2(k) == n
}

/// The least `k` with `2^k >= n`.
pub fn ceil_log2(n: u64) -> (k: u32)
    requires
        1 <= n <= 0x8000_0000_0000_0000,
    ensures
        k <= 63,
        is_ceil_log2(n as nat, k as nat),
{
    proof {
        vstd::arithmetic::power2::lemma2_to64();
        vstd::arithmetic::power2::lemma2_to64_rest();
    }
    let mut p: u64 = 1;
    let mut k: u32 = 0;
    while p < n
        invariant
            1 <= n <= 0x8000_0000_0000_0000,
            p == pow2(k as nat),
            k <= 63,
            k == 0 || pow2((k - 1) as nat) < n,
            pow2(63) == 0x8000_0000_0000_0000,
        decreases 64 - k,
    {
        proof {
            assert(k < 63);
            vstd::arithmetic::power2::lemma_pow2_unfold((k + 1) as nat);
            lemma_pow2_le((k + 1) as nat, 63);
        }
        p = p * 2;
        k = k + 1;
    }
    k
}

proof fn lemma_pow2_le(a: nat, b: nat)
    requires
        a <= b,
    ensures
        pow2(a) <= pow2(b),
{
    if a < b {
        vstd::arithmetic::power2::lemma_pow2_strictly_increases(a, b);
    }
}

proof fn lemma_pow2_injective(a: nat, b: nat)
    requires
        pow2(a) == pow2(b),
    ensures
        a == b,
{
    if a < b {
        vstd::arithmetic::power2::lemma_pow2_strictly_increases(a, b);
    } else if b < a {
        vstd::arithmetic::power2::lemma_pow2_strictly_increases(b, a);
    }
}

/// The `k` with `2^k == n`, for a power of two `n`.
pub fn exact_log2(n: usize) -> (k: u32)
    requires
        is_domain_size(n as nat),
    ensures
        k <= 28,
        pow2(k as nat) == n,
{
    let ghost j = choose|j: nat| j <= 28 && #[trigger] pow2(j) == n;
    proof {
        vstd::arithmetic::power2::lemma2_to64();
        vstd::arithmetic::power2::lemma2_to64_rest();
        if j < 28 {
            vstd::arithmetic::power2::lemma_pow2_strictly_increases(j, 28);
        }
        vstd::arithmetic::power2::lemma_pow2_pos(j);
    }
    let k = ceil_log2(n as u64);
    proof {
        if k as nat > j {
            lemma_pow2_le(j, (k - 1) as nat);
        } else if (k as nat) < j {
            vstd::arithmetic::power2::lemma_pow2_strictly_increases(k as nat, j);
        }
    }
    k
}

/// The exponent of a power of two.
pub open spec fn log2_spec(n: nat) -> nat {
    choose|k: nat| pow2(k) == n
}

/// The least `k` with `2^k >= n`.
pub open spec fn ceil_log2_spec(n: nat) -> nat {
    choose|k: nat| is_ceil_log2(n, k)
}

pub proof fn lemma_log2_spec(n: nat, k: nat)
    requires
        pow2(k) == n,
    ensures
        log2_spec(n) == k,
{
    let c = choose|j: nat| pow2(j) == n;
    lemma_pow2_injective(c, k);
}

proof fn lemma_ceil_log2_spec(n: nat, k: nat)
    requires
        is_ceil_log2(n, k),
    ensures
        ceil_log2_spec(n) == k,
{
    let c = choose|j: nat| is_ceil_log2(n, j);
    if c < k {
        lemma_pow2_le(c, (k - 1) as nat);
    } else if k < c {
        lemma_pow2_le(k, (c - 1) as nat);
    }
}

/// The sizes of every domain of one folding step.
pub struct PolyContext {
    /// The incoming traces plus the accumulator; a power of two.
    pub instances_to_fold: usize,
    /// The points of the domain of `G(X)`: `(traces · max_gate_degree + 1)`
    /// rounded up to a power of two.
    pub fft_points_count_G: usize,
    /// All gate evaluations of a trace (rows times gates), rounded up to a
    /// power of two.
    pub count_of_evaluation_with_padding: usize,
}

impl PolyContext {
    pub open spec fn wf(&self) -> bool {
        is_domain_size(self.instances_to_fold as nat) && is_domain_size(
            self.fft_points_count_G as nat,
        ) && exists|h: nat| h <= 31 && #[trigger] pow2(h) == self.count_of_evaluation_with_padding
    }

    /// The context of folding `traces_len` traces of a structure with
    /// `2^k_table_size` rows and `num_gates` gates of degree at most
    /// `max_gate_degree`. The evaluations, rounded up to a power of two, are
    /// counted in a `usize` on every target, 32-bit ones included: hence at
    /// most `2^31` of them. The domains of `G`, and of the Lagrange basis, are
    /// subgroups of the field, whose two-adicity is 28.
    pub fn new(k_table_size: u32, num_gates: usize, max_gate_degree: usize, traces_len: usize) -> (r:
        PolyContext)
        requires
            k_table_size <= 31,
            num_gates >= 1,
            pow2(k_table_size as nat) * num_gates <= 0x8000_0000,
            is_domain_size((traces_len + 1) as nat),
            traces_len * max_gate_degree + 1 <= 0x1000_0000,
        ensures
            r.wf(),
            r.instances_to_fold == traces_len + 1,
            exists|k: nat|
                is_ceil_log2((traces_len * max_gate_degree + 1) as nat, k) && #[trigger] pow2(k)
                    == r.fft_points_count_G,
            exists|k: nat|
                is_ceil_log2((pow2(k_table_size as nat) * num_gates) as nat, k) && #[trigger] pow2(k)
                    == r.count_of_evaluation_with_padding,
    {
        proof {
            vstd::arithmetic::power2::lemma2_to64();
        vstd::arithmetic::power2::lemma2_to64_rest();
            vstd::arithmetic::power2::lemma_pow2_pos(k_table_size as nat);
        }
        let rows = pow2_u64(k_table_size);
        assert(rows as int * num_gates as int >= 1) by (nonlinear_arith)
            requires
                rows >= 1,
                num_gates >= 1,
        ;
        let count = rows * (num_gates as u64);
        let h = ceil_log2(count);
        let padded = pow2_u64(h);
        let points = (traces_len * max_gate_degree + 1) as u64;
        let g = ceil_log2(points);
        proof {
            if g > 28 {
                lemma_pow2_le(28, (g - 1) as nat);
            }
        }
        proof {
            if h > 31 {
                lemma_pow2_le(31, (h - 1) as nat);
            }
        }
        let g_points = pow2_u64(g);
        assert(pow2(g as nat) == g_points);
        PolyContext {
            instances_to_fold: traces_len + 1,
            fft_points_count_G: g_points as usize,
            count_of_evaluation_with_padding: padded as usize,
        }
    }
}

impl PolyContext {
    /// The number of `β`: the height of the tree over the padded evaluations.
    pub open spec fn betas_count_spec(&self) -> nat {
        log2_spec(self.count_of_evaluation_with_padding as nat)
    }

    /// `log2` of the domain of `F(X)`, of size `next_pow2(β_count + 1)`.
    pub open spec fn log_f(&self) -> nat {
        ceil_log2_spec(self.betas_count_spec() + 1)
    }

    pub open spec fn log_g(&self) -> nat {
        log2_spec(self.fft_points_count_G as nat)
    }

    /// `log2` of the Lagrange domain, whose size is `instances_to_fold`.
    pub open spec fn log_l(&self) -> nat {
        log2_spec(self.instances_to_fold as nat)
    }

    /// `log2` of the domain of `K(X)`, of size
    /// `next_pow2(G-domain + 1 − instances_to_fold)` (and at least one).
    pub open spec fn log_k(&self) -> nat {
        let d = self.fft_points_count_G + 1 - self.instances_to_fold;
        ceil_log2_spec(if d >= 1 {
            d as nat
        } else {
            1
        })
    }

    pub fn betas_count(&self) -> (r: usize)
        requires
            self.wf(),
        ensures
            r == self.betas_count_spec(),
            r <= 31,
            pow2(r as nat) == self.count_of_evaluation_with_padding,
    {
        let ghost h = choose|h: nat| h <= 31 && #[trigger] pow2(h)
            == self.count_of_evaluation_with_padding;
        proof {
            vstd::arithmetic::power2::lemma2_to64();
            vstd::arithmetic::power2::lemma_pow2_pos(h);
            lemma_pow2_le(h, 31);
        }
        let k = ceil_log2(self.count_of_evaluation_with_padding as u64);
        proof {
            vstd::arithmetic::power2::lemma_pow2_pos(h);
            if k as nat > h {
                lemma_pow2_le(h, (k - 1) as nat);
            } else if (k as nat) < h {
                vstd::arithmetic::power2::lemma_pow2_strictly_increases(k as nat, h);
            }
            lemma_log2_spec(self.count_of_evaluation_with_padding as nat, k as nat);
        }
        k as usize
    }

    /// `log2` of the number of points of the domain of `F(X)`.
    pub fn fft_log_domain_size_F(&self) -> (r: u32)
        requires
            self.wf(),
        ensures
            r == self.log_f(),
            r <= 5,
    {
        let b = self.betas_count();
        let k = ceil_log2((b + 1) as u64);
        proof {
            vstd::arithmetic::power2::lemma2_to64();
            if k > 5 {
                lemma_pow2_le(5, (k - 1) as nat);
            }
            lemma_ceil_log2_spec((b + 1) as nat, k as nat);
        }
        k
    }

    /// The number of points of the domain of `F(X)`.
    pub fn fft_points_count_F(&self) -> (r: usize)
        requires
            self.wf(),
        ensures
            r == pow2(self.log_f()),
            self.log_f() <= 5,
    {
        let k = self.fft_log_domain_size_F();
        proof {
            vstd::arithmetic::power2::lemma2_to64();
            lemma_pow2_le(k as nat, 5);
        }
        pow2_u64(k) as usize
    }

    pub fn fft_log_domain_size_G(&self) -> (r: u32)
        requires
            self.wf(),
        ensures
            r == self.log_g(),
            r <= 28,
            pow2(r as nat) == self.fft_points_count_G,
    {
        let k = exact_log2(self.fft_points_count_G);
        proof {
            lemma_log2_spec(self.fft_points_count_G as nat, k as nat);
        }
        k
    }

    pub fn lagrange_domain(&self) -> (r: u32)
        requires
            self.wf(),
        ensures
            r == self.log_l(),
            r <= 28,
            pow2(r as nat) == self.instances_to_fold,
    {
        let k = exact_log2(self.instances_to_fold);
        proof {
            lemma_log2_spec(self.instances_to_fold as nat, k as nat);
        }
        k
    }

    /// `log2(traces_len + 1)`, where `traces_len + 1` is a power of two.
    pub fn get_lagrange_domain(traces_len: usize) -> (r: u32)
        requires
            is_domain_size((traces_len + 1) as nat),
        ensures
            r <= 28,
            pow2(r as nat) == traces_len + 1,
    {
        proof {
            let j = choose|j: nat| j <= 28 && #[trigger] pow2(j) == (traces_len + 1) as nat;
            vstd::arithmetic::power2::lemma2_to64();
            lemma_pow2_le(j, 28);
        }
        exact_log2(traces_len + 1)
    }

    pub fn fft_log_domain_size_K(&self) -> (r: u32)
        requires
            self.wf(),
        ensures
            r == self.log_k(),
            r <= 28,
    {
        let g = self.fft_points_count_G;
        let l = self.instances_to_fold;
        proof {
            let j = choose|j: nat| j <= 28 && #[trigger] pow2(j) == g as nat;
            vstd::arithmetic::power2::lemma2_to64();
            lemma_pow2_le(j, 28);
        }
        let d: usize = if g + 1 > l {
            g + 1 - l
        } else {
            1
        };
        let k = ceil_log2(d as u64);
        proof {
            if k > 28 {
                lemma_pow2_le(28, (k - 1) as nat);
            }
            lemma_ceil_log2_spec(d as nat, k as nat);
        }
        k
    }
}

/// The count of gate evaluations of a trace: rows times gates, `None` when
/// there are none.
pub fn get_count_of_valuation(k_table_size: u32, num_gates: usize) -> (r: Option<usize>)
    requires
        k_table_size <= 31,
        pow2(k_table_size as nat) * num_gates <= 0x8000_0000,
    ensures
        r matches Some(n) ==> n == pow2(k_table_size as nat) * num_gates && n > 0,
        r is None <==> num_gates == 0,
{
    let rows = pow2_u64(k_table_size);
    proof {
        vstd::arithmetic::power2::lemma_pow2_pos(k_table_size as nat);
    }
    if num_gates == 0 {
        None
    } else {
        assert(rows as int * num_gates as int >= 1) by (nonlinear_arith)
            requires
                rows >= 1,
                num_gates >= 1,
        ;
        Some((rows * (num_gates as u64)) as usize)
    }
}

/// The number of points of the domain of `G(X)`: `traces_len ·
/// max_gate_degree + 1`, rounded up to a power of two.
pub fn get_points_count(max_gate_degree: usize, traces_len: usize) -> (r: usize)
    requires
        traces_len * max_gate_degree + 1 <= 0x1000_0000,
    ensures
        exists|k: nat|
            is_ceil_log2((traces_len * max_gate_degree + 1) as nat, k) && #[trigger] pow2(k) == r,
{
    let k = ceil_log2((traces_len * max_gate_degree + 1) as u64);
    proof {
        vstd::arithmetic::power2::lemma2_to64();
        if k > 28 {
            lemma_pow2_le(28, (k - 1) as nat);
        }
    }
    pow2_u64(k) as usize
}

/// `β*_i = β_i + α · δ^(2^i)` for every `β`.
pub open spec fn beta_stroke_seq(betas: Seq<int>, alpha: int, delta: int) -> Seq<int> {
    Seq::new(betas.len(), |i: int| fadd(betas[i], fmul(alpha, pow_2k(delta, i as nat))))
}

/// The challenges of one folding step that the `β` update needs.
#[derive(Clone, Debug)]
pub struct PolyChallenges {
    pub betas: Vec<Scalar>,
    pub alpha: Scalar,
    pub delta: Scalar,
}

/// Streams `β*_i`, squaring `δ` after each step.
#[derive(Clone, Debug)]
pub struct BetaStrokeIter {
    pub cha: PolyChallenges,
    pub beta_index: usize,
}

impl PolyChallenges {
    pub fn iter_beta_stroke(self) -> (r: BetaStrokeIter)
        ensures
            r.cha.betas@ == self.betas@,
            r.cha.alpha == self.alpha,
            r.cha.delta == self.delta,
            r.beta_index == 0,
    {
        BetaStrokeIter { cha: self, beta_index: 0 }
    }

    /// Every `β*_i`, in order.
    pub fn betas_stroke(&self) -> (r: Vec<Scalar>)
        ensures
            vals(r@) == beta_stroke_seq(vals(self.betas@), self.alpha.val(), self.delta.val()),
    {
        let mut it = BetaStrokeIter {
            cha: PolyChallenges { betas: self.betas.clone(), alpha: self.alpha, delta: self.delta },
            beta_index: 0,
        };
        let ghost target = beta_stroke_seq(vals(self.betas@), self.alpha.val(), self.delta.val());
        let mut out: Vec<Scalar> = Vec::new();
        while it.beta_index < it.cha.betas.len()
            invariant
                it.cha.betas@ == self.betas@,
                it.cha.alpha == self.alpha,
                it.cha.delta.val() == pow_2k(self.delta.val(), it.beta_index as nat),
                it.beta_index <= self.betas@.len(),
                target == beta_stroke_seq(vals(self.betas@), self.alpha.val(), self.delta.val()),
                out@.len() == it.beta_index,
                forall|j: int| 0 <= j < out@.len() ==> (#[trigger] out@[j]).val() == target[j],
            decreases self.betas@.len() - it.beta_index,
        {
            let ghost i = it.beta_index;
            assert(vals(self.betas@)[i as int] == self.betas@[i as int].val());
            match it.next() {
                Some(v) => {
                    out.push(v);
                },
                None => {},
            }
            assert(out@.len() == i + 1);
        }
        assert(vals(out@) =~= target);
        out
    }
}

impl BetaStrokeIter {
    /// `β_i + α · δ`, where `δ` has been squared once per earlier step; then
    /// squares `δ`. `None` once every `β` is used.
    pub fn next(&mut self) -> (r: Option<Scalar>)
        ensures
            final(self).cha.betas@ == old(self).cha.betas@,
            final(self).cha.alpha == old(self).cha.alpha,
            old(self).beta_index < old(self).cha.betas@.len() ==> {
                &&& r matches Some(v) && v.val() == fadd(
                    old(self).cha.betas@[old(self).beta_index as int].val(),
                    fmul(old(self).cha.alpha.val(), old(self).cha.delta.val()),
                )
                &&& final(self).beta_index == old(self).beta_index + 1
                &&& final(self).cha.delta.val() == fmul(
                    old(self).cha.delta.val(),
                    old(self).cha.delta.val(),
                )
            },
            old(self).beta_index >= old(self).cha.betas@.len() ==> r is None && final(self).beta_index
                == old(self).beta_index && final(self).cha.delta == old(self).cha.delta,
    {
        if self.beta_index >= self.cha.betas.len() {
            return None;
        }
        let next = self.cha.betas[self.beta_index].add(&self.cha.alpha.mul(&self.cha.delta));
        self.beta_index = self.beta_index + 1;
        self.cha.delta = self.cha.delta.mul(&self.cha.delta);
        Some(next)
    }
}

/// One level of a balanced binary tree over `s`: at height `h`, the node over
/// a pair of children is `left + right · w[h − 1]`.
pub open spec fn tree_level(s: Seq<int>, w: Seq<int>, h: nat) -> Seq<int>
    decreases h,
{
    if h == 0 {
        s
    } else {
        let prev = tree_level(s, w, (h - 1) as nat);
        Seq::new(
            prev.len() / 2,
            |k: int| fadd(prev[2 * k], fmul(prev[2 * k + 1], w[h - 1])),
        )
    }
}

/// `s` cut or padded with zeros to length `n`.
pub open spec fn padded(s: Seq<int>, n: nat) -> Seq<int> {
    Seq::new(
        n,
        |i: int|
            if i < s.len() {
                s[i]
            } else {
                0
            },
    )
}

/// The root of the tree of height `height` over `2^height` leaves.
pub fn tree_root(leaves: &Vec<Scalar>, weights: &Vec<Scalar>, height: usize) -> (r: Scalar)
    requires
        height <= 31,
        leaves@.len() == pow2(height as nat),
        weights@.len() >= height,
    ensures
        r.val() == tree_level(vals(leaves@), vals(weights@), height as nat)[0],
{
    let ghost s = vals(leaves@);
    let ghost w = vals(weights@);
    let mut cur: Vec<Scalar> = leaves.clone();
    assert(vals(cur@) =~= s);
    proof {
        vstd::arithmetic::power2::lemma2_to64();
        lemma_pow2_le(height as nat, 31);
    }
    let mut h: usize = 0;
    while h < height
        invariant
            h <= height <= 31,
            weights@.len() >= height,
            w == vals(weights@),
            cur@.len() == pow2((height - h) as nat),
            cur@.len() <= 0x8000_0000,
            vals(cur@) == tree_level(s, w, h as nat),
        decreases height - h,
    {
        proof {
            vstd::arithmetic::power2::lemma_pow2_unfold((height - h) as nat);
        }
        let half = cur.len() / 2;
        let ghost target = tree_level(s, w, (h + 1) as nat);
        let mut next: Vec<Scalar> = Vec::new();
        let mut k: usize = 0;
        while k < half
            invariant
                k <= half,
                half * 2 == cur@.len(),
                cur@.len() <= 0x8000_0000,
                h < height,
                weights@.len() >= height,
                w == vals(weights@),
                vals(cur@) == tree_level(s, w, h as nat),
                target == tree_level(s, w, (h + 1) as nat),
                target.len() == half,
                next@.len() == k,
                forall|j: int| 0 <= j < k ==> (#[trigger] next@[j]).val() == target[j],
            decreases half - k,
        {
            let l = cur[2 * k];
            let rt = cur[2 * k + 1];
            next.push(l.add(&rt.mul(&weights[h])));
            k = k + 1;
        }
        assert(vals(next@) =~= target);
        cur = next;
        h = h + 1;
        proof {
            vstd::arithmetic::power2::lemma2_to64();
            lemma_pow2_le((height - h) as nat, 31);
        }
    }
    proof {
        vstd::arithmetic::power2::lemma2_to64();
    }
    cur[0]
}

/// The values of `F` on its domain: at each point `X`, the tree over the
/// padded evaluations with weights `β_h + X · δ^(2^h)`.
pub open spec fn f_point_values(
    betas: Seq<int>,
    delta: int,
    leaves: Seq<int>,
    height: nat,
    log_points: nat,
) -> Seq<int> {
    Seq::new(
        pow2(log_points),
        |j: int|
            tree_level(
                leaves,
                Seq::new(
                    height,
                    |h: int|
                        fadd(betas[h], fmul(fpow(omega(log_points), j as nat), pow_2k(delta, h as nat))),
                ),
                height,
            )[0],
    )
}

/// `F(X) = Σ_i pow_i(β + X·δ) · f_i` in coefficient form, where `evals` are
/// each gate evaluation `f_i` of a trace in order (padded with zeros to the
/// padded count), and `pow_i` multiplies the `β + X·δ^(2^h)` of the bits of
/// `i`.
#[allow(non_snake_case)]
pub fn compute_F(ctx: &PolyContext, betas: &Vec<Scalar>, delta: &Scalar, evals: &Vec<Scalar>) -> (r:
    UnivariatePoly)
    requires
        ctx.wf(),
        betas@.len() >= ctx.betas_count_spec(),
    ensures
        r.coeffs() == inverse_dft(
            f_point_values(
                vals(betas@),
                delta.val(),
                padded(vals(evals@), ctx.count_of_evaluation_with_padding as nat),
                ctx.betas_count_spec(),
                ctx.log_f(),
            ),
            ctx.log_f(),
        ),
        r.coeffs() == inverse_dft(
            f_direct_values(
                vals(betas@),
                delta.val(),
                vals(evals@),
                ctx.betas_count_spec(),
                ctx.log_f(),
            ),
            ctx.log_f(),
        ),
        forall|j: int|
            0 <= j < pow2(ctx.log_f()) ==> #[trigger] poly_eval(
                r.coeffs(),
                fpow(omega(ctx.log_f()), j as nat),
            ) == f_direct_values(
                vals(betas@),
                delta.val(),
                vals(evals@),
                ctx.betas_count_spec(),
                ctx.log_f(),
            )[j],
{
    let height = ctx.betas_count();
    let n_points = ctx.fft_points_count_F();
    let leaves = padded_leaves(evals, ctx.count_of_evaluation_with_padding);
    let log_points = ctx.fft_log_domain_size_F();
    let points = iter_cyclic_subgroup(log_points);
    let mut deltas: Vec<Scalar> = Vec::new();
    let mut d = *delta;
    let mut h: usize = 0;
    while h < height
        invariant
            h <= height,
            d.val() == pow_2k(delta.val(), h as nat),
            deltas@.len() == h,
            forall|j: int| 0 <= j < h ==> (#[trigger] deltas@[j]).val() == pow_2k(delta.val(), j as nat),
        decreases height - h,
    {
        deltas.push(d);
        d = d.mul(&d);
        h = h + 1;
    }
    let ghost target = f_point_values(vals(betas@), delta.val(), vals(leaves@), height as nat, log_points as nat);
    let mut values: Vec<Scalar> = Vec::new();
    let mut j: usize = 0;
    while j < n_points
        invariant
            j <= n_points,
            n_points == pow2(log_points as nat),
            log_points as nat == ctx.log_f(),
            log_points <= 5,
            points@.len() == n_points,
            forall|i: int| 0 <= i < n_points ==> (#[trigger] points@[i]).val() == fpow(omega(log_points as nat), i as nat),
            deltas@.len() == height,
            forall|i: int| 0 <= i < height ==> (#[trigger] deltas@[i]).val() == pow_2k(delta.val(), i as nat),
            height <= 31,
            betas@.len() >= height,
            leaves@.len() == pow2(height as nat),
            target == f_point_values(vals(betas@), delta.val(), vals(leaves@), height as nat, log_points as nat),
            values@.len() == j,
            forall|i: int| 0 <= i < j ==> (#[trigger] values@[i]).val() == target[i],
        decreases n_points - j,
    {
        let x = points[j];
        let mut weights: Vec<Scalar> = Vec::new();
        let mut h: usize = 0;
        let ghost wseq = Seq::new(
            height as nat,
            |h: int| fadd(vals(betas@)[h], fmul(fpow(omega(log_points as nat), j as nat), pow_2k(delta.val(), h as nat))),
        );
        while h < height
            invariant
                h <= height,
                x.val() == fpow(omega(log_points as nat), j as nat),
                deltas@.len() == height,
                forall|i: int| 0 <= i < height ==> (#[trigger] deltas@[i]).val() == pow_2k(delta.val(), i as nat),
                betas@.len() >= height,
                wseq.len() == height,
                forall|i: int| 0 <= i < height ==> #[trigger] wseq[i] == fadd(vals(betas@)[i], fmul(fpow(omega(log_points as nat), j as nat), pow_2k(delta.val(), i as nat))),
                weights@.len() == h,
                forall|i: int| 0 <= i < h ==> (#[trigger] weights@[i]).val() == wseq[i],
            decreases height - h,
        {
            weights.push(betas[h].add(&x.mul(&deltas[h])));
            h = h + 1;
        }
        assert(vals(weights@) =~= wseq);
        values.push(tree_root(&leaves, &weights, height));
        j = j + 1;
    }
    assert(vals(values@) =~= target);
    proof {
        vstd::arithmetic::power2::lemma2_to64();
        lemma_vals_reduced(evals@);
        lemma_f_values_are_direct_sums(vals(betas@), delta.val(), vals(evals@), height as nat, log_points as nat);
        let dv = f_direct_values(vals(betas@), delta.val(), vals(evals@), height as nat, log_points as nat);
        assert forall|j: int| 0 <= j < pow2(log_points as nat) implies #[trigger] poly_eval(
            inverse_dft(dv, log_points as nat),
            fpow(omega(log_points as nat), j as nat),
        ) == dv[j] by {
            assert forall|i: int| 0 <= i < dv.len() implies 0 <= #[trigger] dv[i] < modulus() by {
                let w = Seq::new(
                    height as nat,
                    |h: int| fadd(vals(betas@)[h], fmul(fpow(omega(log_points as nat), i as nat), pow_2k(delta.val(), h as nat))),
                );
                lemma_direct_sum_reduced(padded(vals(evals@), pow2(height as nat)), w, height as nat, 0, pow2(height as nat));
            }
            crate::fourier::lemma_inverse_dft_interpolates(dv, log_points as nat, j as nat);
        }
    }
    ifft(&values, log_points)
}

/// The evaluations cut or padded with zeros to length `n`.
pub fn padded_leaves(evals: &Vec<Scalar>, n: usize) -> (r: Vec<Scalar>)
    ensures
        r@.len() == n,
        vals(r@) == padded(vals(evals@), n as nat),
{
    let mut out: Vec<Scalar> = Vec::new();
    let mut i: usize = 0;
    while i < n
        invariant
            i <= n,
            out@.len() == i,
            forall|j: int| 0 <= j < i ==> (#[trigger] out@[j]).val() == padded(vals(evals@), n as nat)[j],
        decreases n - i,
    {
        if i < evals.len() {
            out.push(evals[i]);
        } else {
            out.push(Scalar::zero());
        }
        i = i + 1;
    }
    assert(vals(out@) =~= padded(vals(evals@), n as nat));
    out
}

#[derive(Clone, Copy, Debug, PartialEq, Eq)]
pub enum Error {
    /// `G(X)` folds at least one incoming trace.
    EmptyTracesNotAllowed,
}

/// The values of `G` on its domain: at each point, the tree over that point's
/// padded gate evaluations of the folded witness, with weights `β*`.
pub open spec fn g_point_values(
    betas_stroke: Seq<int>,
    folded: Seq<Seq<int>>,
    n: nat,
    height: nat,
) -> Seq<int> {
    Seq::new(folded.len(), |j: int| tree_level(padded(folded[j], n), betas_stroke, height)[0])
}

/// `G(X) = Σ_i pow_i(β*) · f_i(Σ_j L_j(X) w_j)` in coefficient form.
/// `folded_evals[j]` holds every gate evaluation, in order, of the folded
/// witness at the `j`-th point of the domain of `G`.
#[allow(non_snake_case)]
pub fn compute_G(
    ctx: &PolyContext,
    betas_stroke: &Vec<Scalar>,
    folded_evals: &Vec<Vec<Scalar>>,
) -> (r: Result<UnivariatePoly, Error>)
    requires
        ctx.wf(),
        ctx.instances_to_fold != 1 ==> betas_stroke@.len() >= ctx.betas_count_spec(),
        ctx.instances_to_fold != 1 ==> folded_evals@.len() == ctx.fft_points_count_G,
    ensures
        r is Err <==> ctx.instances_to_fold == 1,
        r matches Err(e) ==> e == Error::EmptyTracesNotAllowed,
        r matches Ok(p) ==> p.coeffs() == inverse_dft(
            g_point_values(
                vals(betas_stroke@),
                nested_vals(folded_evals@),
                ctx.count_of_evaluation_with_padding as nat,
                ctx.betas_count_spec(),
            ),
            ctx.log_g(),
        ),
        r matches Ok(p) ==> p.coeffs() == inverse_dft(
            g_direct_values(
                vals(betas_stroke@),
                nested_vals(folded_evals@),
                ctx.betas_count_spec(),
            ),
            ctx.log_g(),
        ),
        r matches Ok(p) ==> forall|j: int|
            0 <= j < ctx.fft_points_count_G ==> #[trigger] poly_eval(
                p.coeffs(),
                fpow(omega(ctx.log_g()), j as nat),
            ) == g_direct_values(
                vals(betas_stroke@),
                nested_vals(folded_evals@),
                ctx.betas_count_spec(),
            )[j],
{
    if ctx.instances_to_fold == 1 {
        return Err(Error::EmptyTracesNotAllowed);
    }
    let height = ctx.betas_count();
    let log_points = ctx.fft_log_domain_size_G();
    let n_points = ctx.fft_points_count_G;
    let n = ctx.count_of_evaluation_with_padding;
    let ghost target = g_point_values(
        vals(betas_stroke@),
        nested_vals(folded_evals@),
        n as nat,
        height as nat,
    );
    let mut values: Vec<Scalar> = Vec::new();
    let mut j: usize = 0;
    while j < n_points
        invariant
            j <= n_points,
            n_points == folded_evals@.len(),
            n == pow2(height as nat),
            height <= 31,
            betas_stroke@.len() >= height,
            target == g_point_values(
                vals(betas_stroke@),
                nested_vals(folded_evals@),
                n as nat,
                height as nat,
            ),
            values@.len() == j,
            forall|i: int| 0 <= i < j ==> (#[trigger] values@[i]).val() == target[i],
        decreases n_points - j,
    {
        let leaves = padded_leaves(&folded_evals[j], n);
        values.push(tree_root(&leaves, betas_stroke, height));
        j = j + 1;
    }
    assert(vals(values@) =~= target);
    proof {
        let folded = nested_vals(folded_evals@);
        assert forall|j: int, i: int|
            0 <= j < folded.len() && 0 <= i < folded[j].len() implies 0 <= #[trigger] folded[j][i]
                < modulus() by {
            lemma_vals_reduced(folded_evals@[j]@);
        }
        lemma_g_values_are_direct_sums(vals(betas_stroke@), folded, height as nat);
        let dv = g_direct_values(vals(betas_stroke@), folded, height as nat);
        assert forall|j: int| 0 <= j < n_points implies #[trigger] poly_eval(
            inverse_dft(dv, log_points as nat),
            fpow(omega(log_points as nat), j as nat),
        ) == dv[j] by {
            assert forall|i: int| 0 <= i < dv.len() implies 0 <= #[trigger] dv[i] < modulus() by {
                lemma_direct_sum_reduced(
                    padded(folded[i], pow2(height as nat)),
                    vals(betas_stroke@),
                    height as nat,
                    0,
                    pow2(height as nat),
                );
            }
            crate::fourier::lemma_inverse_dft_interpolates(dv, log_points as nat, j as nat);
        }
    }
    Ok(ifft(&values, log_points))
}

/// The `i`-th point of the coset `ζ·⟨ω⟩` of the subgroup of order `2^log_n`.
pub open spec fn coset_point(log_n: nat, i: nat) -> int {
    fmul(zeta(), fpow(omega(log_n), i))
}

/// `K(X) = (G(X) − F(α) · L_0(X)) / Z(X)` at a point `x`.
pub open spec fn k_sample(g: Seq<int>, f_alpha: int, x: int, log_l: nat) -> int {
    fmul(
        fsub(poly_eval(g, x), fmul(f_alpha, lagrange_eval(log_l, 0, x))),
        finv(vanishing_eval(pow2(log_l), x)),
    )
}

/// The samples of `K` on the coset of its domain.
pub open spec fn k_samples(g: Seq<int>, f_alpha: int, log_k: nat, log_l: nat) -> Seq<int> {
    Seq::new(pow2(log_k), |i: int| k_sample(g, f_alpha, coset_point(log_k, i as nat), log_l))
}

/// `K(X)` in coefficient form, from its values on the coset `ζ·⟨ω⟩` of its
/// domain, on which `Z` never vanishes. At every point `X` of the coset,
/// `F(α)·L_0(X) + Z(X)·K(X) == G(X)`.
#[allow(non_snake_case)]
pub fn compute_K_from_G(ctx: &PolyContext, poly_G: &UnivariatePoly, poly_F_in_alpha: &Scalar) -> (r:
    UnivariatePoly)
    requires
        ctx.wf(),
    ensures
        r.coeffs() == coset_inverse_dft(
            k_samples(poly_G.coeffs(), poly_F_in_alpha.val(), ctx.log_k(), ctx.log_l()),
            ctx.log_k(),
        ),
        forall|i: int|
            0 <= i < pow2(ctx.log_k()) ==> {
                let x = coset_point(ctx.log_k(), i as nat);
                fadd(
                    fmul(poly_F_in_alpha.val(), lagrange_eval(ctx.log_l(), 0, x)),
                    fmul(
                        vanishing_eval(ctx.instances_to_fold as nat, x),
                        #[trigger] poly_eval(r.coeffs(), coset_point(ctx.log_k(), i as nat)),
                    ),
                ) == poly_eval(poly_G.coeffs(), x)
            },
        forall|i: int|
            0 <= i < pow2(ctx.log_k()) ==> {
                let x = coset_point(ctx.log_k(), i as nat);
                fadd(
                    fmul(poly_F_in_alpha.val(), lagrange_eval(ctx.log_l(), 0, x)),
                    fmul(
                        vanishing_eval(ctx.instances_to_fold as nat, x),
                        #[trigger] k_samples(
                            poly_G.coeffs(),
                            poly_F_in_alpha.val(),
                            ctx.log_k(),
                            ctx.log_l(),
                        )[i],
                    ),
                ) == poly_eval(poly_G.coeffs(), x)
            },
{
    let log_k = ctx.fft_log_domain_size_K();
    let log_l = ctx.lagrange_domain();
    let itf = ctx.instances_to_fold;
    let points = iter_cyclic_subgroup(log_k);
    let z = fr_zeta();
    let ghost target = k_samples(poly_G.coeffs(), poly_F_in_alpha.val(), log_k as nat, log_l as nat);
    let mut values: Vec<Scalar> = Vec::new();
    let mut i: usize = 0;
    while i < points.len()
        invariant
            i <= points@.len(),
            points@.len() == pow2(log_k as nat),
            forall|j: int| 0 <= j < points@.len() ==> (#[trigger] points@[j]).val() == fpow(omega(log_k as nat), j as nat),
            z.val() == zeta(),
            log_k as nat == ctx.log_k(),
            log_l as nat == ctx.log_l(),
            itf == ctx.instances_to_fold,
            log_k <= 28,
            log_l <= 28,
            pow2(log_l as nat) == itf,
            target == k_samples(poly_G.coeffs(), poly_F_in_alpha.val(), log_k as nat, log_l as nat),
            values@.len() == i,
            forall|j: int| 0 <= j < i ==> (#[trigger] values@[j]).val() == target[j],
            forall|j: int| 0 <= j < i ==> {
                let x = coset_point(log_k as nat, j as nat);
                fadd(
                    fmul(poly_F_in_alpha.val(), lagrange_eval(log_l as nat, 0, x)),
                    fmul(vanishing_eval(itf as nat, x), #[trigger] target[j]),
                ) == poly_eval(poly_G.coeffs(), x)
            },
        decreases points@.len() - i,
    {
        let x = z.mul(&points[i]);
        assert(x.val() == coset_point(log_k as nat, i as nat));
        let g = poly_G.eval(&x);
        let ls = iter_eval_lagrange_poly_for_cyclic_group(&x, log_l);
        proof {
            vstd::arithmetic::power2::lemma_pow2_pos(log_l as nat);
        }
        let l0 = ls[0];
        let zx = eval_vanish_polynomial(itf as u64, &x);
        let zx_inv = match zx.invert() {
            Some(v) => v,
            None => {
                proof {
                    crate::fourier::lemma_vanishing_nonzero_on_coset(log_k as nat, log_l as nat, i as nat);
                    assert(false);
                }
                Scalar::zero()
            },
        };
        let fl = poly_F_in_alpha.mul(&l0);
        let k = g.sub(&fl).mul(&zx_inv);
        proof {
            lemma_k_identity(g.val(), fl.val(), zx.val(), zx_inv.val());
        }
        values.push(k);
        i = i + 1;
    }
    assert(vals(values@) =~= target);
    proof {
        assert forall|i: int| 0 <= i < pow2(log_k as nat) implies #[trigger] poly_eval(
            coset_inverse_dft(target, log_k as nat),
            coset_point(log_k as nat, i as nat),
        ) == target[i] by {
            assert forall|j: int| 0 <= j < target.len() implies 0 <= #[trigger] target[j] < modulus() by {
                let x = coset_point(log_k as nat, j as nat);
                crate::field::lemma_ops_reduced(
                    fsub(poly_eval(poly_G.coeffs(), x), fmul(poly_F_in_alpha.val(), lagrange_eval(log_l as nat, 0, x))),
                    finv(vanishing_eval(pow2(log_l as nat), x)),
                );
            }
            crate::fourier::lemma_coset_inverse_dft_interpolates(target, log_k as nat, i as nat);
        }
    }
    coset_ifft(&values, log_k)
}

/// `F(α)·L_0 + Z·((G − F(α)·L_0)·Z⁻¹) == G` for an invertible `Z`.
proof fn lemma_k_identity(g: int, fl: int, z: int, z_inv: int)
    requires
        0 <= g < modulus(),
        0 <= fl < modulus(),
        is_inverse(z, z_inv),
    ensures
        fadd(fl, fmul(z, fmul(fsub(g, fl), z_inv))) == g,
{
    lemma_modulus_bounds();
    let p = modulus();
    let d = g - fl;
    vstd::arithmetic::div_mod::lemma_mul_mod_noop_left(d, z_inv, p);
    vstd::arithmetic::div_mod::lemma_mul_mod_noop_right(z, d * z_inv, p);
    assert(z * (d * z_inv) == d * (z * z_inv)) by (nonlinear_arith);
    vstd::arithmetic::div_mod::lemma_mul_mod_noop_right(d, z * z_inv, p);
    assert(d * 1 == d);
    vstd::arithmetic::div_mod::lemma_add_mod_noop_right(fl, d, p);
    vstd::arithmetic::div_mod::lemma_small_mod(g as nat, p as nat);
}

/// `K(X)` from the incoming folded gate evaluations: `G(X)` first, then the
/// quotient by the vanishing polynomial.
#[allow(non_snake_case)]
pub fn compute_K(
    ctx: &PolyContext,
    poly_F_in_alpha: &Scalar,
    betas_stroke: &Vec<Scalar>,
    folded_evals: &Vec<Vec<Scalar>>,
) -> (r: Result<UnivariatePoly, Error>)
    requires
        ctx.wf(),
        ctx.instances_to_fold != 1 ==> betas_stroke@.len() >= ctx.betas_count_spec(),
        ctx.instances_to_fold != 1 ==> folded_evals@.len() == ctx.fft_points_count_G,
    ensures
        r is Err <==> ctx.instances_to_fold == 1,
        r matches Err(e) ==> e == Error::EmptyTracesNotAllowed,
        r matches Ok(p) ==> exists|g: UnivariatePoly|
            g.coeffs() == inverse_dft(
                g_point_values(
                    vals(betas_stroke@),
                    nested_vals(folded_evals@),
                    ctx.count_of_evaluation_with_padding as nat,
                    ctx.betas_count_spec(),
                ),
                ctx.log_g(),
            ) && #[trigger] p.coeffs() == coset_inverse_dft(
                k_samples(g.coeffs(), poly_F_in_alpha.val(), ctx.log_k(), ctx.log_l()),
                ctx.log_k(),
            ),
{
    let poly_G = compute_G(ctx, betas_stroke, folded_evals)?;
    Ok(compute_K_from_G(ctx, &poly_G, poly_F_in_alpha))
}

proof fn lemma_zero_sum_terms(w: int)
    ensures
        fadd(0, fmul(0, w)) == 0,
        fmul(w, 0) == 0,
{
    lemma_modulus_bounds();
    assert(0 * w == 0);
    assert(w * 0 == 0);
    vstd::arithmetic::div_mod::lemma_small_mod(0, modulus() as nat);
}

/// Every node of a tree over zero leaves is zero.
pub proof fn lemma_tree_of_zeros(s: Seq<int>, w: Seq<int>, h: nat)
    requires
        forall|i: int| 0 <= i < s.len() ==> #[trigger] s[i] == 0,
    ensures
        forall|k: int| 0 <= k < tree_level(s, w, h).len() ==> #[trigger] tree_level(s, w, h)[k] == 0,
    decreases h,
{
    if h > 0 {
        lemma_tree_of_zeros(s, w, (h - 1) as nat);
        let prev = tree_level(s, w, (h - 1) as nat);
        assert forall|k: int| 0 <= k < tree_level(s, w, h).len() implies #[trigger] tree_level(
            s,
            w,
            h,
        )[k] == 0 by {
            assert(prev[2 * k] == 0);
            assert(prev[2 * k + 1] == 0);
            lemma_zero_sum_terms(w[h - 1]);
        }
    }
}

/// A polynomial with zero coefficients is zero everywhere.
pub proof fn lemma_poly_eval_of_zeros(c: Seq<int>, x: int)
    requires
        forall|i: int| 0 <= i < c.len() ==> #[trigger] c[i] == 0,
    ensures
        poly_eval(c, x) == 0,
    decreases c.len(),
{
    if c.len() > 0 {
        lemma_poly_eval_of_zeros(c.drop_first(), x);
        lemma_zero_sum_terms(x);
        assert(c[0] == 0);
    }
}

proof fn lemma_inverse_dft_of_zeros(v: Seq<int>, log_n: nat)
    requires
        forall|i: int| 0 <= i < v.len() ==> #[trigger] v[i] == 0,
    ensures
        forall|i: int| 0 <= i < v.len() ==> #[trigger] inverse_dft(v, log_n)[i] == 0,
{
    assert forall|i: int| 0 <= i < v.len() implies #[trigger] inverse_dft(v, log_n)[i] == 0 by {
        let x = fpow(finv(omega(log_n)), i as nat);
        lemma_poly_eval_of_zeros(v, x);
        lemma_zero_sum_terms(finv(pow2(log_n) as int));
    }
}

/// `F` vanishes on a satisfied trace: where every gate evaluation is zero,
/// every coefficient of `F` is zero, whatever `β` and `δ`. `n` is the padded
/// count, `2^height`.
pub proof fn lemma_zero_evaluations_give_zero_f(
    betas: Seq<int>,
    delta: int,
    evals: Seq<int>,
    n: nat,
    height: nat,
    log_points: nat,
)
    requires
        n == pow2(height),
        forall|i: int| 0 <= i < evals.len() ==> #[trigger] evals[i] == 0,
    ensures
        forall|i: int|
            0 <= i < pow2(log_points) ==> #[trigger] inverse_dft(
                f_point_values(betas, delta, padded(evals, n), height, log_points),
                log_points,
            )[i] == 0,
{
    let leaves = padded(evals, n);
    let values = f_point_values(betas, delta, leaves, height, log_points);
    assert forall|i: int| 0 <= i < leaves.len() implies #[trigger] leaves[i] == 0 by {}
    lemma_tree_root_of_zeros(leaves, height);
    lemma_inverse_dft_of_zeros(values, log_points);
}

/// `G` vanishes where the folded witness satisfies every gate: where every
/// evaluation at every point is zero, every coefficient of `G` is zero.
pub proof fn lemma_zero_evaluations_give_zero_g(
    betas_stroke: Seq<int>,
    folded: Seq<Seq<int>>,
    n: nat,
    height: nat,
    log_points: nat,
)
    requires
        n == pow2(height),
        forall|j: int, i: int|
            0 <= j < folded.len() && 0 <= i < folded[j].len() ==> #[trigger] folded[j][i] == 0,
    ensures
        forall|i: int|
            0 <= i < folded.len() ==> #[trigger] inverse_dft(
                g_point_values(betas_stroke, folded, n, height),
                log_points,
            )[i] == 0,
{
    let values = g_point_values(betas_stroke, folded, n, height);
    assert forall|j: int| 0 <= j < values.len() implies #[trigger] values[j] == 0 by {
        let leaves = padded(folded[j], n);
        assert forall|i: int| 0 <= i < leaves.len() implies #[trigger] leaves[i] == 0 by {
            if i < folded[j].len() {
                assert(folded[j][i] == 0);
            }
        }
        lemma_tree_root_of_zeros(leaves, height);
    }
    lemma_inverse_dft_of_zeros(values, log_points);
}

/// The root of a tree over `2^height` zero leaves is zero, whatever the
/// weights.
pub proof fn lemma_tree_root_of_zeros(s: Seq<int>, height: nat)
    requires
        s.len() == pow2(height),
        forall|i: int| 0 <= i < s.len() ==> #[trigger] s[i] == 0,
    ensures
        forall|w: Seq<int>| #[trigger] tree_level(s, w, height)[0] == 0,
{
    assert forall|w: Seq<int>| #[trigger] tree_level(s, w, height)[0] == 0 by {
        lemma_tree_of_zeros(s, w, height);
        lemma_tree_level_len(s, w, height, height);
        vstd::arithmetic::power2::lemma2_to64();
    }
}

/// Over `2^height` leaves, level `h` of the tree has `2^(height − h)` nodes.
pub proof fn lemma_tree_level_len(s: Seq<int>, w: Seq<int>, height: nat, h: nat)
    requires
        s.len() == pow2(height),
        h <= height,
    ensures
        tree_level(s, w, h).len() == pow2((height - h) as nat),
    decreases h,
{
    if h > 0 {
        lemma_tree_level_len(s, w, height, (h - 1) as nat);
        vstd::arithmetic::power2::lemma_pow2_unfold((height - h + 1) as nat);
    }
}

/// `pow_i(β)`: the product of `w[b]` over the bits `b < h` set in `i`
/// (for `i < 2^h`), taken from the highest bit down.
pub open spec fn pow_i(i: nat, w: Seq<int>, h: nat) -> int
    decreases h,
{
    if h == 0 {
        1
    } else {
        let half = pow2((h - 1) as nat);
        if i >= half {
            fmul(pow_i((i - half) as nat, w, (h - 1) as nat), w[h - 1])
        } else {
            pow_i(i, w, (h - 1) as nat)
        }
    }
}

/// `Σ_{i < len} pow_i(w) · s[start + i]`.
pub open spec fn direct_sum(s: Seq<int>, w: Seq<int>, h: nat, start: int, len: nat) -> int
    decreases len,
{
    if len == 0 {
        0
    } else {
        fadd(
            direct_sum(s, w, h, start, (len - 1) as nat),
            fmul(pow_i((len - 1) as nat, w, h), s[start + len - 1]),
        )
    }
}

proof fn lemma_direct_sum_reduced(s: Seq<int>, w: Seq<int>, h: nat, start: int, len: nat)
    ensures
        0 <= direct_sum(s, w, h, start, len) < modulus(),
{
    lemma_modulus_bounds();
    if len > 0 {
        crate::field::lemma_ops_reduced(
            direct_sum(s, w, h, start, (len - 1) as nat),
            fmul(pow_i((len - 1) as nat, w, h), s[start + len - 1]),
        );
    }
}

/// The low half of a sum one level up weighs each term as the level below.
proof fn lemma_direct_sum_low_half(s: Seq<int>, w: Seq<int>, h: nat, start: int, j: nat)
    requires
        j <= pow2(h),
    ensures
        direct_sum(s, w, h + 1, start, j) == direct_sum(s, w, h, start, j),
    decreases j,
{
    if j > 0 {
        lemma_direct_sum_low_half(s, w, h, start, (j - 1) as nat);
        assert(pow_i((j - 1) as nat, w, h + 1) == pow_i((j - 1) as nat, w, h));
    }
}

/// `(d + e·w) + (q·w)·t == d + (e + q·t)·w`.
proof fn lemma_high_half_step(d: int, e: int, q: int, t: int, w: int)
    ensures
        fadd(fadd(d, fmul(e, w)), fmul(fmul(q, w), t)) == fadd(d, fmul(fadd(e, fmul(q, t)), w)),
{
    lemma_modulus_bounds();
    let p = modulus();
    vstd::arithmetic::div_mod::lemma_add_mod_noop_right(d, e * w, p);
    vstd::arithmetic::div_mod::lemma_mul_mod_noop_left(q * w, t, p);
    vstd::arithmetic::div_mod::lemma_add_mod_noop(d + e * w, (q * w) * t, p);
    vstd::arithmetic::div_mod::lemma_add_mod_noop_right(e, q * t, p);
    vstd::arithmetic::div_mod::lemma_mul_mod_noop_left(e + q * t, w, p);
    vstd::arithmetic::div_mod::lemma_add_mod_noop_right(d, (e + q * t) * w, p);
    assert((e + q * t) * w == e * w + (q * w) * t) by (nonlinear_arith);
}

/// A sum one level up splits into its low half plus `w[h]` times the high
/// half one level down.
proof fn lemma_direct_sum_high_half(s: Seq<int>, w: Seq<int>, h: nat, start: int, j: nat)
    requires
        j <= pow2(h),
    ensures
        direct_sum(s, w, h + 1, start, pow2(h) + j) == fadd(
            direct_sum(s, w, h, start, pow2(h)),
            fmul(direct_sum(s, w, h, start + pow2(h), j), w[h as int]),
        ),
    decreases j,
{
    let m = pow2(h);
    let d = direct_sum(s, w, h, start, m);
    if j == 0 {
        lemma_direct_sum_low_half(s, w, h, start, m);
        lemma_direct_sum_reduced(s, w, h, start, m);
        lemma_zero_sum_terms(w[h as int]);
        lemma_modulus_bounds();
        assert(0 * w[h as int] == 0);
        vstd::arithmetic::div_mod::lemma_small_mod(0, modulus() as nat);
        crate::field::lemma_reduced(d);
    } else {
        lemma_direct_sum_high_half(s, w, h, start, (j - 1) as nat);
        let i = (m + j - 1) as nat;
        assert(pow_i(i, w, h + 1) == fmul(pow_i((j - 1) as nat, w, h), w[h as int]));
        lemma_high_half_step(
            d,
            direct_sum(s, w, h, start + m, (j - 1) as nat),
            pow_i((j - 1) as nat, w, h),
            s[start + m + j - 1],
            w[h as int],
        );
    }
}

/// Each node of the tree is the direct sum over its leaves: node `k` of level
/// `h` is `Σ_{i < 2^h} pow_i(w) · s[k·2^h + i]`.
pub proof fn lemma_tree_is_direct_sum(s: Seq<int>, w: Seq<int>, height: nat, h: nat, k: int)
    requires
        s.len() == pow2(height),
        h <= height,
        0 <= k < pow2((height - h) as nat),
        forall|i: int| 0 <= i < s.len() ==> 0 <= #[trigger] s[i] < modulus(),
    ensures
        tree_level(s, w, h)[k] == direct_sum(s, w, h, k * pow2(h), pow2(h)),
    decreases h,
{
    lemma_modulus_bounds();
    vstd::arithmetic::power2::lemma2_to64();
    if h == 0 {
        assert(k * 1 == k);
        crate::field::lemma_reduced(s[k]);
        assert(direct_sum(s, w, 0, k, 0) == 0);
        assert(pow_i(0, w, 0) == 1);
    } else {
        let m = pow2((h - 1) as nat);
        vstd::arithmetic::power2::lemma_pow2_unfold(h);
        vstd::arithmetic::power2::lemma_pow2_unfold((height - h + 1) as nat);
        lemma_tree_level_len(s, w, height, (h - 1) as nat);
        lemma_tree_is_direct_sum(s, w, height, (h - 1) as nat, 2 * k);
        lemma_tree_is_direct_sum(s, w, height, (h - 1) as nat, 2 * k + 1);
        assert(k * pow2(h) == (2 * k) * m) by (nonlinear_arith)
            requires
                pow2(h) == 2 * m,
        ;
        assert((2 * k + 1) * m == k * pow2(h) + m) by (nonlinear_arith)
            requires
                pow2(h) == 2 * m,
        ;
        lemma_direct_sum_high_half(s, w, (h - 1) as nat, k * pow2(h), m);
        assert(m + m == pow2(h));
    }
}

/// The values of `F` on its domain by its definition: at each point `X`,
/// `Σ_i pow_i(β + X·δ) · f_i` over the evaluations padded to `2^height`.
pub open spec fn f_direct_values(
    betas: Seq<int>,
    delta: int,
    evals: Seq<int>,
    height: nat,
    log_points: nat,
) -> Seq<int> {
    Seq::new(
        pow2(log_points),
        |j: int|
            direct_sum(
                padded(evals, pow2(height)),
                Seq::new(
                    height,
                    |h: int|
                        fadd(betas[h], fmul(fpow(omega(log_points), j as nat), pow_2k(delta, h as nat))),
                ),
                height,
                0,
                pow2(height),
            ),
    )
}

/// The tree computes `F` by its definition: at each point of the domain, the
/// root of the tree is the direct sum `Σ_i pow_i(β + X·δ) · f_i`.
pub proof fn lemma_f_values_are_direct_sums(
    betas: Seq<int>,
    delta: int,
    evals: Seq<int>,
    height: nat,
    log_points: nat,
)
    requires
        forall|i: int| 0 <= i < evals.len() ==> 0 <= #[trigger] evals[i] < modulus(),
    ensures
        f_point_values(betas, delta, padded(evals, pow2(height)), height, log_points)
            == f_direct_values(betas, delta, evals, height, log_points),
{
    let leaves = padded(evals, pow2(height));
    lemma_modulus_bounds();
    assert forall|i: int| 0 <= i < leaves.len() implies 0 <= #[trigger] leaves[i] < modulus() by {}
    assert forall|j: int| 0 <= j < pow2(log_points) implies #[trigger] f_point_values(
        betas,
        delta,
        leaves,
        height,
        log_points,
    )[j] == f_direct_values(betas, delta, evals, height, log_points)[j] by {
        let w = Seq::new(
            height,
            |h: int| fadd(betas[h], fmul(fpow(omega(log_points), j as nat), pow_2k(delta, h as nat))),
        );
        vstd::arithmetic::power2::lemma2_to64();
        lemma_tree_is_direct_sum(leaves, w, height, height, 0);
        assert(0 * pow2(height) == 0);
    }
    assert(f_point_values(betas, delta, leaves, height, log_points) =~= f_direct_values(
        betas,
        delta,
        evals,
        height,
        log_points,
    ));
}

/// The values of `G` on its domain by its definition: at each point,
/// `Σ_i pow_i(β*) · f_i` over that point's padded evaluations.
pub open spec fn g_direct_values(betas_stroke: Seq<int>, folded: Seq<Seq<int>>, height: nat) -> Seq<
    int,
> {
    Seq::new(
        folded.len(),
        |j: int| direct_sum(padded(folded[j], pow2(height)), betas_stroke, height, 0, pow2(height)),
    )
}

/// The tree computes `G` by its definition.
pub proof fn lemma_g_values_are_direct_sums(betas_stroke: Seq<int>, folded: Seq<Seq<int>>, height: nat)
    requires
        forall|j: int, i: int|
            0 <= j < folded.len() && 0 <= i < folded[j].len() ==> 0 <= #[trigger] folded[j][i]
                < modulus(),
    ensures
        g_point_values(betas_stroke, folded, pow2(height), height) == g_direct_values(
            betas_stroke,
            folded,
            height,
        ),
{
    lemma_modulus_bounds();
    assert forall|j: int| 0 <= j < folded.len() implies #[trigger] g_point_values(
        betas_stroke,
        folded,
        pow2(height),
        height,
    )[j] == g_direct_values(betas_stroke, folded, height)[j] by {
        let leaves = padded(folded[j], pow2(height));
        assert forall|i: int| 0 <= i < leaves.len() implies 0 <= #[trigger] leaves[i] < modulus() by {
            if i < folded[j].len() {
                assert(0 <= folded[j][i] < modulus());
            }
        }
        vstd::arithmetic::power2::lemma2_to64();
        lemma_tree_is_direct_sum(leaves, betas_stroke, height, height, 0);
        assert(0 * pow2(height) == 0);
    }
    assert(g_point_values(betas_stroke, folded, pow2(height), height) =~= g_direct_values(
        betas_stroke,
        folded,
        height,
    ));
}

/// `2^k` as a 64-bit integer.
pub fn pow2_u64(k: u32) -> (r: u64)
    requires
        k <= 63,
    ensures
        r == pow2(k as nat),
{
    proof {
        vstd::arithmetic::power2::lemma2_to64();
        vstd::arithmetic::power2::lemma2_to64_rest();
    }
    let mut r: u64 = 1;
    let mut i: u32 = 0;
    while i < k
        invariant
            i <= k <= 63,
            r == pow2(i as nat),
            pow2(63) == 0x8000_0000_0000_0000,
        decreases k - i,
    {
        proof {
            vstd::arithmetic::power2::lemma_pow2_unfold((i + 1) as nat);
            lemma_pow2_le((i + 1) as nat, 63);
        }
        r = r * 2;
        i = i + 1;
    }
    r
}

} // verus!
