//! The off-circuit ProtoGalaxy verifier: challenge generation, the `β`
//! update, the error term `e`, and folding of the instances' scalar parts.
use crate::accumulator::AccumulatorInstance;
use crate::field::{fadd, fmul, vals, Scalar};
use crate::lagrange::{
    eval_vanish_polynomial, iter_eval_lagrange_poly_for_cyclic_group, lagrange_eval, vanishing_eval,
};
use crate::plonk::{
    absorb_all, absorbs, flatten, nested_vals, push_all, Point, PlonkInstance, ROTrait, RoOp,
    Transcript,
};
use crate::poly::{poly_eval, UnivariatePoly};
use crate::poly_context::{
    beta_stroke_seq, is_domain_size, lemma_log2_spec, log2_spec, PolyChallenges, PolyContext,
};
use vstd::arithmetic::power2::pow2;
use vstd::prelude::*;

verus! {

/// The digest binding every public parameter of the scheme.
#[derive(Clone, Copy, Debug, PartialEq, Eq)]
pub struct VerifierParam {
    pub pp_digest: Point,
}

/// A folding proof: `F(X)` and `K(X)` in coefficient form.
#[allow(non_snake_case)]
#[derive(Clone, Debug, PartialEq, Eq)]
pub struct Proof {
    pub poly_F: UnivariatePoly,
    pub poly_K: UnivariatePoly,
}

/// The three challenges of one folding step.
#[derive(Clone, Copy, Debug, PartialEq, Eq)]
pub struct Challenges {
    pub delta: Scalar,
    pub alpha: Scalar,
    pub gamma: Scalar,
}

/// What the transcript absorbs before `δ` is squeezed: the parameter digest,
/// the accumulator, then every incoming instance in order.
pub open spec fn delta_absorb_seq(pp: (int, int), acc: Seq<int>, incoming: Seq<Seq<int>>) -> Seq<
    int,
> {
    seq![pp.0, pp.1] + acc + flatten(incoming)
}

pub open spec fn incoming_absorb_seqs(incoming: Seq<PlonkInstance>) -> Seq<Seq<int>> {
    incoming.map_values(|p: PlonkInstance| p.absorb_seq())
}

/// `e = F(α) · L_0(γ) + Z(γ) · K(γ)` over the Lagrange domain of order
/// `2^log_n`.
pub open spec fn e_value(f: Seq<int>, k: Seq<int>, gamma: int, alpha: int, log_n: nat) -> int {
    fadd(
        fmul(poly_eval(f, alpha), lagrange_eval(log_n, 0, gamma)),
        fmul(vanishing_eval(pow2(log_n), gamma), poly_eval(k, gamma)),
    )
}

/// `acc · L_0 + inc_0 · L_1 + … + inc_(j−1) · L_j`, summed left to right.
pub open spec fn fold_value(acc: int, inc: Seq<int>, ls: Seq<int>, j: nat) -> int
    decreases j,
{
    if j == 0 {
        fmul(acc, ls[0])
    } else {
        fadd(fold_value(acc, inc, ls, (j - 1) as nat), fmul(inc[j - 1], ls[j as int]))
    }
}

/// Each value of `acc` folded with the values at the same place in `incs`.
pub open spec fn fold_seq(acc: Seq<int>, incs: Seq<Seq<int>>, ls: Seq<int>) -> Seq<int> {
    Seq::new(
        acc.len(),
        |c: int| fold_value(acc[c], Seq::new(incs.len(), |j: int| incs[j][c]), ls, incs.len()),
    )
}

/// `fold_seq` for every public-input vector.
pub open spec fn fold_nested(acc: Seq<Seq<int>>, incs: Seq<Seq<Seq<int>>>, ls: Seq<int>) -> Seq<
    Seq<int>,
> {
    Seq::new(acc.len(), |k: int| fold_seq(acc[k], Seq::new(incs.len(), |j: int| incs[j][k]), ls))
}

/// `L_0(γ), …, L_(n−1)(γ)` over the subgroup of order `n = 2^log_n`.
pub open spec fn lagrange_values(log_n: nat, gamma: int) -> Seq<int> {
    Seq::new(pow2(log_n), |i: int| lagrange_eval(log_n, i as nat, gamma))
}

/// Every incoming instance has the accumulator's shape: as many public-input
/// vectors, each as long, and as many challenges.
pub open spec fn same_shape(acc: Seq<Seq<int>>, acc_ch: Seq<int>, inc: Seq<Seq<Seq<int>>>, inc_ch: Seq<Seq<int>>) -> bool {
    inc.len() == inc_ch.len() && forall|j: int|
        0 <= j < inc.len() ==> {
            &&& (#[trigger] inc[j]).len() == acc.len()
            &&& forall|k: int| 0 <= k < acc.len() ==> (#[trigger] inc[j][k]).len() == acc[k].len()
            &&& inc_ch[j].len() == acc_ch.len()
        }
}

pub open spec fn incoming_instances(incoming: Seq<PlonkInstance>) -> Seq<Seq<Seq<int>>> {
    incoming.map_values(|p: PlonkInstance| p.instances_view())
}

pub open spec fn incoming_challenges(incoming: Seq<PlonkInstance>) -> Seq<Seq<int>> {
    incoming.map_values(|p: PlonkInstance| p.challenges_view())
}

/// The calls that generate the challenges: absorb `first`, squeeze `δ`,
/// absorb `f`, squeeze `α`, absorb `k`, squeeze `γ`.
pub open spec fn challenge_ops(
    first: Seq<int>,
    f: Seq<int>,
    k: Seq<int>,
    delta: int,
    alpha: int,
    gamma: int,
) -> Seq<RoOp> {
    absorbs(first).push(RoOp::Squeeze(delta)) + absorbs(f).push(RoOp::Squeeze(alpha)) + absorbs(
        k,
    ).push(RoOp::Squeeze(gamma))
}

/// The calls determine the challenges: two runs of challenge generation whose
/// logs agree squeezed the same `δ`, `α` and `γ`.
pub proof fn lemma_challenge_ops_determine_challenges(
    first: Seq<int>,
    f: Seq<int>,
    k: Seq<int>,
    d1: int,
    a1: int,
    g1: int,
    d2: int,
    a2: int,
    g2: int,
)
    requires
        challenge_ops(first, f, k, d1, a1, g1) == challenge_ops(first, f, k, d2, a2, g2),
    ensures
        d1 == d2,
        a1 == a2,
        g1 == g2,
{
    let s1 = challenge_ops(first, f, k, d1, a1, g1);
    let s2 = challenge_ops(first, f, k, d2, a2, g2);
    let i = first.len() as int;
    let j = i + 1 + f.len();
    let l = j + 1 + k.len();
    assert(s1[i] == RoOp::Squeeze(d1));
    assert(s2[i] == RoOp::Squeeze(d2));
    assert(s1[j] == RoOp::Squeeze(a1));
    assert(s2[j] == RoOp::Squeeze(a2));
    assert(s1[l] == RoOp::Squeeze(g1));
    assert(s2[l] == RoOp::Squeeze(g2));
}

impl Challenges {
    /// The values absorbed before each challenge is squeezed: before `δ`,
    /// the digest, accumulator and incoming instances; before `α`, the
    /// coefficients of `F`; before `γ`, those of `K`.
    pub fn absorb_segments(
        vp: &VerifierParam,
        accumulator: &AccumulatorInstance,
        incoming: &Vec<PlonkInstance>,
        proof: &Proof,
    ) -> (r: (Vec<Scalar>, Vec<Scalar>, Vec<Scalar>))
        ensures
            vals(r.0@) == delta_absorb_seq(
                vp.pp_digest.view(),
                accumulator.absorb_seq(),
                incoming_absorb_seqs(incoming@),
            ),
            vals(r.1@) == proof.poly_F.coeffs(),
            vals(r.2@) == proof.poly_K.coeffs(),
    {
        let mut first: Vec<Scalar> = Vec::new();
        first.push(vp.pp_digest.x);
        first.push(vp.pp_digest.y);
        assert(vals(first@) =~= seq![vp.pp_digest.x.val(), vp.pp_digest.y.val()]);
        let acc_values = accumulator.absorb_values();
        push_all(&mut first, &acc_values);
        let ghost prefix = vals(first@);
        let mut j: usize = 0;
        while j < incoming.len()
            invariant
                j <= incoming@.len(),
                vals(first@) == prefix + flatten(incoming_absorb_seqs(incoming@).take(j as int)),
            decreases incoming@.len() - j,
        {
            let v = incoming[j].absorb_values();
            push_all(&mut first, &v);
            proof {
                let t = incoming_absorb_seqs(incoming@).take(j + 1);
                assert(t.drop_last() =~= incoming_absorb_seqs(incoming@).take(j as int));
                assert(vals(first@) =~= prefix + flatten(t));
            }
            j = j + 1;
        }
        assert(incoming_absorb_seqs(incoming@).take(j as int) =~= incoming_absorb_seqs(incoming@));
        let mut second: Vec<Scalar> = Vec::new();
        push_all(&mut second, &proof.poly_F.0);
        let mut third: Vec<Scalar> = Vec::new();
        push_all(&mut third, &proof.poly_K.0);
        assert(vals(second@) =~= proof.poly_F.coeffs());
        assert(vals(third@) =~= proof.poly_K.coeffs());
        (first, second, third)
    }

    /// Squeezes `δ`, `α` and `γ`, each after absorbing its segment of
    /// `absorb_segments` into `ro`.
    pub fn generate<R: ROTrait>(
        vp: &VerifierParam,
        ro: &mut Transcript<R>,
        accumulator: &AccumulatorInstance,
        incoming: &Vec<PlonkInstance>,
        proof: &Proof,
    ) -> (r: Challenges)
        ensures
            final(ro).ops() == old(ro).ops() + challenge_ops(
                delta_absorb_seq(
                    vp.pp_digest.view(),
                    accumulator.absorb_seq(),
                    incoming_absorb_seqs(incoming@),
                ),
                proof.poly_F.coeffs(),
                proof.poly_K.coeffs(),
                r.delta.val(),
                r.alpha.val(),
                r.gamma.val(),
            ),
    {
        let (first, second, third) = Challenges::absorb_segments(vp, accumulator, incoming, proof);
        absorb_all(ro, &first);
        let delta = ro.squeeze();
        absorb_all(ro, &second);
        let alpha = ro.squeeze();
        absorb_all(ro, &third);
        let gamma = ro.squeeze();
        let r = Challenges { delta, alpha, gamma };
        assert(ro.ops() =~= old(ro).ops() + challenge_ops(
            vals(first@),
            vals(second@),
            vals(third@),
            r.delta.val(),
            r.alpha.val(),
            r.gamma.val(),
        ));
        r
    }
}

/// `e = F(α) · L_0(γ) + Z(γ) · K(γ)` over the Lagrange domain of order
/// `2^log_n`.
#[allow(non_snake_case)]
pub fn calculate_e(
    poly_F: &UnivariatePoly,
    poly_K: &UnivariatePoly,
    gamma: &Scalar,
    alpha: &Scalar,
    log_n: u32,
) -> (r: Scalar)
    requires
        log_n <= 28,
    ensures
        r.val() == e_value(poly_F.coeffs(), poly_K.coeffs(), gamma.val(), alpha.val(), log_n as nat),
{
    let ls = iter_eval_lagrange_poly_for_cyclic_group(gamma, log_n);
    proof {
        vstd::arithmetic::power2::lemma_pow2_pos(log_n as nat);
    }
    let l0 = ls[0];
    let n = crate::lagrange::pow2_usize(log_n);
    let f_alpha = poly_F.eval(alpha);
    let z_gamma = eval_vanish_polynomial(n as u64, gamma);
    let k_gamma = poly_K.eval(gamma);
    f_alpha.mul(&l0).add(&z_gamma.mul(&k_gamma))
}

/// Folds one value with the values at the same place of the incoming
/// instances, weighted by the Lagrange values `ls`.
pub fn fold_one(acc: &Scalar, incs: &Vec<Scalar>, ls: &Vec<Scalar>) -> (r: Scalar)
    requires
        ls@.len() == incs@.len() + 1,
    ensures
        r.val() == fold_value(acc.val(), vals(incs@), vals(ls@), incs@.len()),
{
    let mut v = acc.mul(&ls[0]);
    let mut j: usize = 0;
    while j < incs.len()
        invariant
            j <= incs@.len(),
            ls@.len() == incs@.len() + 1,
            v.val() == fold_value(acc.val(), vals(incs@), vals(ls@), j as nat),
        decreases incs@.len() - j,
    {
        v = v.add(&incs[j].mul(&ls[j + 1]));
        j = j + 1;
    }
    v
}

/// The values at place `c` of each vector of `incs`.
fn column(incs: &Vec<Vec<Scalar>>, c: usize) -> (r: Vec<Scalar>)
    requires
        forall|j: int| 0 <= j < incs@.len() ==> c < (#[trigger] incs@[j])@.len(),
    ensures
        r@.len() == incs@.len(),
        vals(r@) == Seq::new(incs@.len(), |j: int| nested_vals(incs@)[j][c as int]),
{
    let mut out: Vec<Scalar> = Vec::new();
    let mut j: usize = 0;
    while j < incs.len()
        invariant
            j <= incs@.len(),
            out@.len() == j,
            forall|i: int| 0 <= i < incs@.len() ==> c < (#[trigger] incs@[i])@.len(),
            forall|i: int| 0 <= i < j ==> (#[trigger] out@[i]).val() == incs@[i]@[c as int].val(),
        decreases incs@.len() - j,
    {
        out.push(incs[j][c]);
        j = j + 1;
    }
    assert(vals(out@) =~= Seq::new(incs@.len(), |j: int| nested_vals(incs@)[j][c as int]));
    out
}

/// Folds each value of `acc` with the values at the same place of `incs`.
fn fold_vec(acc: &Vec<Scalar>, incs: &Vec<Vec<Scalar>>, ls: &Vec<Scalar>) -> (r: Vec<Scalar>)
    requires
        ls@.len() == incs@.len() + 1,
        forall|j: int| 0 <= j < incs@.len() ==> (#[trigger] incs@[j])@.len() == acc@.len(),
    ensures
        vals(r@) == fold_seq(vals(acc@), nested_vals(incs@), vals(ls@)),
{
    let ghost target = fold_seq(vals(acc@), nested_vals(incs@), vals(ls@));
    let mut out: Vec<Scalar> = Vec::new();
    let mut c: usize = 0;
    while c < acc.len()
        invariant
            c <= acc@.len(),
            ls@.len() == incs@.len() + 1,
            forall|j: int| 0 <= j < incs@.len() ==> (#[trigger] incs@[j])@.len() == acc@.len(),
            target == fold_seq(vals(acc@), nested_vals(incs@), vals(ls@)),
            out@.len() == c,
            forall|i: int| 0 <= i < c ==> (#[trigger] out@[i]).val() == target[i],
        decreases acc@.len() - c,
    {
        let col = column(incs, c);
        let v = fold_one(&acc[c], &col, ls);
        assert(vals(acc@)[c as int] == acc@[c as int].val());
        assert(target[c as int] == fold_value(
            vals(acc@)[c as int],
            Seq::new(incs@.len(), |j: int| nested_vals(incs@)[j][c as int]),
            vals(ls@),
            incs@.len(),
        ));
        out.push(v);
        c = c + 1;
    }
    assert(vals(out@) =~= target);
    out
}

/// Folds the scalar parts of the instances: each public input and challenge
/// becomes `acc · L_0(γ) + Σ_j inc_j · L_(j+1)(γ)`. The commitments are the
/// accumulator's, unchanged: folding them is left to the companion curve.
pub fn fold_instance(
    acc: &PlonkInstance,
    incoming: &Vec<PlonkInstance>,
    gamma: &Scalar,
    log_n: u32,
) -> (r: PlonkInstance)
    requires
        log_n <= 28,
        pow2(log_n as nat) == incoming@.len() + 1,
        same_shape(
            acc.instances_view(),
            acc.challenges_view(),
            incoming_instances(incoming@),
            incoming_challenges(incoming@),
        ),
    ensures
        r.W_commitments@ == acc.W_commitments@,
        r.instances_view() == fold_nested(
            acc.instances_view(),
            incoming_instances(incoming@),
            lagrange_values(log_n as nat, gamma.val()),
        ),
        r.challenges_view() == fold_seq(
            acc.challenges_view(),
            incoming_challenges(incoming@),
            lagrange_values(log_n as nat, gamma.val()),
        ),
{
    let ls = iter_eval_lagrange_poly_for_cyclic_group(gamma, log_n);
    assert(vals(ls@) =~= lagrange_values(log_n as nat, gamma.val()));
    let ghost incs = incoming_instances(incoming@);
    let ghost chs = incoming_challenges(incoming@);
    let mut ch_cols: Vec<Vec<Scalar>> = Vec::new();
    let mut j: usize = 0;
    while j < incoming.len()
        invariant
            j <= incoming@.len(),
            chs == incoming_challenges(incoming@),
            incs == incoming_instances(incoming@),
            same_shape(acc.instances_view(), acc.challenges_view(), incs, chs),
            ch_cols@.len() == j,
            forall|i: int| 0 <= i < j ==> vals((#[trigger] ch_cols@[i])@) == chs[i],
            forall|i: int| 0 <= i < j ==> (#[trigger] ch_cols@[i])@.len() == acc.challenges@.len(),
        decreases incoming@.len() - j,
    {
        let v = incoming[j].challenges.clone();
        assert(v@ == incoming@[j as int].challenges@);
        assert(incs[j as int].len() == acc.instances_view().len());
        ch_cols.push(v);
        j = j + 1;
    }
    assert(nested_vals(ch_cols@) =~= chs);
    let challenges = fold_vec(&acc.challenges, &ch_cols, &ls);
    let ghost target = fold_nested(acc.instances_view(), incs, vals(ls@));
    let mut instances: Vec<Vec<Scalar>> = Vec::new();
    let mut k: usize = 0;
    while k < acc.instances.len()
        invariant
            k <= acc.instances@.len(),
            ls@.len() == incoming@.len() + 1,
            incs == incoming_instances(incoming@),
            chs == incoming_challenges(incoming@),
            same_shape(acc.instances_view(), acc.challenges_view(), incs, chs),
            target == fold_nested(acc.instances_view(), incs, vals(ls@)),
            instances@.len() == k,
            forall|i: int| 0 <= i < k ==> vals((#[trigger] instances@[i])@) == target[i],
        decreases acc.instances@.len() - k,
    {
        let ghost col_spec = Seq::new(incoming@.len() as nat, |j: int| incs[j][k as int]);
        let mut cols: Vec<Vec<Scalar>> = Vec::new();
        let mut j: usize = 0;
        while j < incoming.len()
            invariant
                j <= incoming@.len(),
                k < acc.instances@.len(),
                incs == incoming_instances(incoming@),
                same_shape(acc.instances_view(), acc.challenges_view(), incs, chs),
                col_spec == Seq::new(incoming@.len() as nat, |j: int| incs[j][k as int]),
                cols@.len() == j,
                forall|i: int| 0 <= i < j ==> vals((#[trigger] cols@[i])@) == col_spec[i],
                forall|i: int| 0 <= i < j ==> (#[trigger] cols@[i])@.len() == acc.instances@[k as int]@.len(),
            decreases incoming@.len() - j,
        {
            assert(incs[j as int] == nested_vals(incoming@[j as int].instances@));
            assert(incs[j as int].len() == acc.instances_view().len());
            assert(incs[j as int][k as int].len() == acc.instances_view()[k as int].len());
            assert(acc.instances_view()[k as int] == vals(acc.instances@[k as int]@));
            assert(incs[j as int][k as int] == vals(incoming@[j as int].instances@[k as int]@));
            let v = incoming[j].instances[k].clone();
            cols.push(v);
            j = j + 1;
        }
        assert(nested_vals(cols@) =~= col_spec);
        let v = fold_vec(&acc.instances[k], &cols, &ls);
        assert(acc.instances_view()[k as int] == vals(acc.instances@[k as int]@));
        instances.push(v);
        k = k + 1;
    }
    let r = PlonkInstance { W_commitments: acc.W_commitments.clone(), instances, challenges };
    assert(r.instances_view() =~= target);
    r
}

/// The accumulator and the incoming instances can be folded together.
pub open spec fn can_fold(accumulator: AccumulatorInstance, incoming: Seq<PlonkInstance>) -> bool {
    is_domain_size((incoming.len() + 1) as nat) && same_shape(
        accumulator.ins.instances_view(),
        accumulator.ins.challenges_view(),
        incoming_instances(incoming),
        incoming_challenges(incoming),
    )
}

/// `r` is the accumulator that one verify step yields for the given
/// challenges: `β*` for `β`, `e` from the proof, the scalar parts folded at
/// `γ`, and the accumulator's commitments unchanged.
pub open spec fn is_folded(
    r: AccumulatorInstance,
    accumulator: AccumulatorInstance,
    incoming: Seq<PlonkInstance>,
    proof: Proof,
    delta: int,
    alpha: int,
    gamma: int,
) -> bool {
    let log_n = log2_spec((incoming.len() + 1) as nat);
    &&& vals(r.betas@) == beta_stroke_seq(vals(accumulator.betas@), alpha, delta)
    &&& r.e.val() == e_value(proof.poly_F.coeffs(), proof.poly_K.coeffs(), gamma, alpha, log_n)
    &&& r.ins.W_commitments@ == accumulator.ins.W_commitments@
    &&& r.ins.instances_view() == fold_nested(
        accumulator.ins.instances_view(),
        incoming_instances(incoming),
        lagrange_values(log_n, gamma),
    )
    &&& r.ins.challenges_view() == fold_seq(
        accumulator.ins.challenges_view(),
        incoming_challenges(incoming),
        lagrange_values(log_n, gamma),
    )
}

/// One verify step for given challenges.
pub fn verify_with_challenges(
    accumulator: &AccumulatorInstance,
    incoming: &Vec<PlonkInstance>,
    proof: &Proof,
    cha: &Challenges,
) -> (r: AccumulatorInstance)
    requires
        can_fold(*accumulator, incoming@),
    ensures
        is_folded(
            r,
            *accumulator,
            incoming@,
            *proof,
            cha.delta.val(),
            cha.alpha.val(),
            cha.gamma.val(),
        ),
{
    let log_n = PolyContext::get_lagrange_domain(incoming.len());
    proof {
        lemma_log2_spec((incoming@.len() + 1) as nat, log_n as nat);
    }
    let poly_cha = PolyChallenges {
        betas: accumulator.betas.clone(),
        alpha: cha.alpha,
        delta: cha.delta,
    };
    let betas = poly_cha.betas_stroke();
    let e = calculate_e(&proof.poly_F, &proof.poly_K, &cha.gamma, &cha.alpha, log_n);
    let ins = fold_instance(&accumulator.ins, incoming, &cha.gamma, log_n);
    AccumulatorInstance { ins, betas, e }
}

/// One verify step: the challenges squeezed from `ro` (see
/// `Challenges::generate`), then `verify_with_challenges` with them.
pub fn verify<R: ROTrait>(
    vp: &VerifierParam,
    ro: &mut Transcript<R>,
    accumulator: &AccumulatorInstance,
    incoming: &Vec<PlonkInstance>,
    proof: &Proof,
) -> (r: AccumulatorInstance)
    requires
        can_fold(*accumulator, incoming@),
    ensures
        exists|delta: int, alpha: int, gamma: int|
            {
                &&& final(ro).ops() == old(ro).ops() + challenge_ops(
                    delta_absorb_seq(
                        vp.pp_digest.view(),
                        accumulator.absorb_seq(),
                        incoming_absorb_seqs(incoming@),
                    ),
                    proof.poly_F.coeffs(),
                    proof.poly_K.coeffs(),
                    delta,
                    alpha,
                    gamma,
                )
                &&& is_folded(r, *accumulator, incoming@, *proof, delta, alpha, gamma)
            },
{
    let cha = Challenges::generate(vp, ro, accumulator, incoming, proof);
    verify_with_challenges(accumulator, incoming, proof, &cha)
}

} // verus!
