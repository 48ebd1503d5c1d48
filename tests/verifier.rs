use protogalaxy_verifier::accumulator::{
    Accumulator, AccumulatorArgs, AccumulatorInstance, PlonkTrace, PlonkWitness,
};
use protogalaxy_verifier::folded_witness::FoldedWitness;
use protogalaxy_verifier::field::Scalar;
use protogalaxy_verifier::lagrange::{
    eval_vanish_polynomial, get_omega, iter_cyclic_subgroup,
    iter_eval_lagrange_poly_for_cyclic_group,
};
use protogalaxy_verifier::main_gate::{MainGate, RegionCtx};
use protogalaxy_verifier::plonk::{PlonkInstance, Point, ROTrait, Transcript};
use protogalaxy_verifier::poly::UnivariatePoly;
use protogalaxy_verifier::poly_context::{
    compute_F, compute_G, compute_K, compute_K_from_G, get_count_of_valuation, PolyChallenges,
    PolyContext,
};
use protogalaxy_verifier::protogalaxy::{
    calculate_e, verify_with_challenges, Challenges, Proof, VerifierParam,
};
use protogalaxy_verifier::sps::{Error as SpsError, NUM_CHALLENGE_BITS};
use protogalaxy_verifier::verify_chip::{
    self, AssignedAccumulatorInstance, AssignedChallanges, AssignedPlonkInstance,
    AssignedPolyChallenges, AssignedProof, AssignedUnivariatePoly, AssignedVerifierParam,
    ValuePowers,
};

fn fe(v: u64) -> Scalar {
    Scalar::from_u64(v)
}

/// A small deterministic sponge over the field, standing in for Poseidon.
#[derive(Clone)]
struct TestRo {
    state: Scalar,
}

impl TestRo {
    fn new() -> Self {
        TestRo { state: fe(0) }
    }
}

impl ROTrait for TestRo {
    fn absorb_field(&mut self, value: &Scalar) {
        self.state = self.state.mul(&fe(7)).add(value).add(&fe(1));
    }

    fn squeeze(&mut self) -> Scalar {
        self.state = self.state.mul(&self.state).add(&fe(3));
        self.state
    }

    fn squeeze_bits(&mut self, num_bits: usize) -> Scalar {
        assert_eq!(num_bits, 128);
        let s = self.squeeze();
        Scalar { limbs: [s.limbs[0], s.limbs[1], 0, 0] }
    }
}

fn seq_values(start: u64, len: usize) -> Vec<Scalar> {
    (0..len as u64).map(|i| fe(start + i)).collect()
}

/// Pseudo-random values from a linear congruence, reduced into the field.
fn pseudo_random(seed: u64, len: usize) -> Vec<Scalar> {
    let mut x = seed;
    (0..len)
        .map(|_| {
            x = x.wrapping_mul(6364136223846793005).wrapping_add(1442695040888963407);
            fe(x).mul(&fe(x ^ 0x9e3779b97f4a7c15)).add(&fe(x >> 7))
        })
        .collect()
}

fn mock_accumulator() -> Accumulator {
    let args = AccumulatorArgs {
        num_io: vec![],
        num_challenges: 0,
        num_witness: 0,
        k_table_size: 14,
        round_sizes: vec![],
    };
    Accumulator::new(&args, 10)
}

fn mock_proof() -> Proof {
    Proof {
        poly_F: UnivariatePoly(seq_values(0, 10)),
        poly_K: UnivariatePoly(seq_values(10, 10)),
    }
}

fn new_powers(region: &mut RegionCtx, x: Scalar) -> ValuePowers {
    let cha = region.assign_advice(x);
    let one = region.assign_advice(Scalar::one());
    region.next();
    ValuePowers::new(one, cha)
}

#[test]
fn challanges() {
    let params = VerifierParam { pp_digest: Point::identity() };
    let acc: AccumulatorInstance = AccumulatorInstance::from(mock_accumulator());
    let proof = mock_proof();

    let off_circuit = Challenges::generate(&params, &mut Transcript::new(TestRo::new()), &acc, &vec![], &proof);

    let mut region = RegionCtx::new();
    let a_params = AssignedVerifierParam::assign(&mut region, &params);
    let a_acc = AssignedAccumulatorInstance::assign(&mut region, acc.clone());
    let a_proof = AssignedProof::assign(&mut region, proof.clone());
    let on_circuit = AssignedChallanges::generate(
        &mut region,
        &mut Transcript::new(TestRo::new()),
        &a_params,
        &a_acc,
        &vec![],
        &a_proof,
    );

    assert_eq!(on_circuit.delta.value(), off_circuit.delta, "delta(1) on-circuit vs off-circuit");
    assert_eq!(on_circuit.alpha.value(), off_circuit.alpha, "alpha(2) on-circuit vs off-circuit");
    assert_eq!(on_circuit.gamma.value(), off_circuit.gamma, "gamma(3) on-circuit vs off-circuit");
}

#[test]
fn betas_stroke() {
    let rnd = pseudo_random(1, 12);
    let cha = PolyChallenges { alpha: rnd[0], delta: rnd[1], betas: rnd[2..12].to_vec() };
    let off_circuit = cha.clone().betas_stroke();

    let mut region = RegionCtx::new();
    let main_gate = MainGate::new();
    let a_cha = AssignedPolyChallenges {
        betas: cha.betas.iter().map(|b| region.assign_advice(*b)).collect(),
        alpha: region.assign_advice(cha.alpha),
        delta: region.assign_advice(cha.delta),
    };
    let on_circuit: Vec<Scalar> = verify_chip::calculate_betas_stroke(&mut region, &main_gate, &a_cha)
        .iter()
        .map(|c| c.value())
        .collect();

    assert_eq!(off_circuit, on_circuit);
    assert_eq!(off_circuit.len(), 10);
    // β*_0 = β_0 + α·δ
    assert_eq!(off_circuit[0], cha.betas[0].add(&cha.alpha.mul(&cha.delta)));
}

#[test]
fn poly_eval() {
    let cha = fe(123);
    let poly = UnivariatePoly(seq_values(0, 10));
    let off_circuit = poly.eval(&cha);

    let mut region = RegionCtx::new();
    let mut powers = new_powers(&mut region, cha);
    let a_poly = AssignedUnivariatePoly::assign(&mut region, &poly);
    let main_gate = MainGate::new();
    let on_circuit = a_poly.eval(&mut region, &main_gate, &mut powers).unwrap();

    assert_eq!(off_circuit, on_circuit.value());
    assert_eq!(off_circuit, Scalar { limbs: [0x2ab250ede9b1f667, 0x3, 0, 0] });
}

#[test]
fn lagrange() {
    const L: usize = 3;
    let cha = fe(123);
    let lagrange_domain = PolyContext::get_lagrange_domain(L);
    assert_eq!(lagrange_domain, 2);
    let off_circuit = iter_eval_lagrange_poly_for_cyclic_group(&cha, lagrange_domain);

    let mut region = RegionCtx::new();
    let main_gate = MainGate::new();
    let mut values = new_powers(&mut region, cha);
    let on_l0 = verify_chip::eval_lagrange_poly(&mut region, &main_gate, L, 0, &mut values);
    let on_l1 = verify_chip::eval_lagrange_poly(&mut region, &main_gate, L, 1, &mut values);

    assert_eq!(off_circuit[0], on_l0.value());
    assert_eq!(off_circuit[1], on_l1.value());
    assert_eq!(off_circuit[0], fe(0x72826));
    assert_eq!(
        off_circuit[1],
        Scalar {
            limbs: [0x1bfd6848da55145, 0x9d1a9c690174ccbf, 0xb9d07bcaa25703b3, 0x30644e72e12ca421]
        }
    );
}

#[test]
fn vanishing() {
    const DEGREE: usize = 10;
    let cha = fe(123);
    let off_circuit = eval_vanish_polynomial(DEGREE as u64, &cha);

    let mut region = RegionCtx::new();
    let main_gate = MainGate::new();
    let mut powers = new_powers(&mut region, cha);
    let on_circuit = verify_chip::eval_vanish_polynomial(&mut region, &main_gate, DEGREE, &mut powers);

    assert_eq!(off_circuit, on_circuit.value());
    assert_eq!(off_circuit, Scalar { limbs: [0xf775b616f6b549f8, 0x2a, 0, 0] });
}

#[test]
fn test_e() {
    const L: usize = 3;
    let proof = mock_proof();
    let gamma = fe(20);
    let alpha = fe(21);
    let log_n = PolyContext::get_lagrange_domain(L);
    let off_circuit = calculate_e(&proof.poly_F, &proof.poly_K, &gamma, &alpha, log_n);

    let mut region = RegionCtx::new();
    let main_gate = MainGate::new();
    let a_proof = AssignedProof::assign(&mut region, proof.clone());
    let one = region.assign_advice(Scalar::one());
    let a_gamma = region.assign_advice(gamma);
    let a_alpha = region.assign_advice(alpha);
    let mut gamma_powers = ValuePowers::new(one, a_gamma);
    let mut alpha_powers = ValuePowers::new(one, a_alpha);
    region.next();
    let on_circuit = verify_chip::calculate_e(
        &mut region,
        &main_gate,
        L,
        &a_proof,
        &mut gamma_powers,
        &mut alpha_powers,
    )
    .unwrap();

    assert_eq!(off_circuit, on_circuit.value());
    assert_eq!(
        off_circuit,
        Scalar {
            limbs: [0x9cde72a602b9df8, 0xde26ee365b4b146d, 0x4a3c3448e1210245, 0x244b3ad628e5381f]
        }
    );
}

/// `Π_{bits b of i} w[b]`
fn pow_i(i: usize, w: &[Scalar]) -> Scalar {
    let mut r = Scalar::one();
    for (b, wb) in w.iter().enumerate() {
        if (i >> b) & 1 == 1 {
            r = r.mul(wb);
        }
    }
    r
}

fn direct_sum(evals: &[Scalar], n: usize, w: &[Scalar]) -> Scalar {
    let mut s = Scalar::zero();
    for i in 0..n {
        let f = if i < evals.len() { evals[i] } else { Scalar::zero() };
        s = s.add(&pow_i(i, w).mul(&f));
    }
    s
}

fn delta_powers(delta: Scalar, n: usize) -> Vec<Scalar> {
    let mut out = vec![];
    let mut d = delta;
    for _ in 0..n {
        out.push(d);
        d = d.mul(&d);
    }
    out
}

#[test]
#[allow(non_snake_case)]
fn cmp_with_direct_eval_of_F() {
    // 2^5 rows, 3 gates: 96 evaluations padded to 128, seven betas.
    let ctx = PolyContext::new(5, 3, 2, 1);
    let evals = pseudo_random(7, 96);
    let delta = pseudo_random(8, 1)[0];
    let betas = pseudo_random(9, ctx.betas_count());
    assert_eq!(ctx.betas_count(), 7);
    let poly_F = compute_F(&ctx, &betas, &delta, &evals);
    assert_eq!(poly_F.len(), 8);

    let deltas = delta_powers(delta, ctx.betas_count());
    let points = iter_cyclic_subgroup(ctx.fft_log_domain_size_F());
    for X in points.iter().copied().chain(pseudo_random(10, 10)) {
        let w: Vec<Scalar> = betas.iter().zip(deltas.iter()).map(|(b, d)| b.add(&X.mul(d))).collect();
        let direct = direct_sum(&evals, ctx.count_of_evaluation_with_padding, &w);
        assert_eq!(poly_F.eval(&X), direct, "not match for {X:?}");
    }
}

#[test]
#[allow(non_snake_case)]
fn cmp_with_direct_eval_of_G() {
    // three incoming traces: four instances to fold.
    let ctx = PolyContext::new(4, 2, 2, 3);
    assert_eq!(ctx.fft_points_count_G, 8);
    let beta_stroke = pseudo_random(11, ctx.betas_count());
    let folded: Vec<Vec<Scalar>> =
        (0..ctx.fft_points_count_G).map(|j| pseudo_random(100 + j as u64, 32)).collect();
    let poly_G = compute_G(&ctx, &beta_stroke, &folded).unwrap();

    let points = iter_cyclic_subgroup(ctx.fft_log_domain_size_G());
    for (j, X) in points.iter().enumerate() {
        let direct = direct_sum(&folded[j], ctx.count_of_evaluation_with_padding, &beta_stroke);
        assert_eq!(poly_G.eval(X), direct, "for {X:?}");
    }
}

#[test]
fn zero_f() {
    let ctx = PolyContext::new(13, 4, 5, 1);
    let delta = pseudo_random(3, 1)[0];
    let betas = pseudo_random(4, ctx.betas_count());
    let evals = vec![Scalar::zero(); 1 << 15];
    let poly_F = compute_F(&ctx, &betas, &delta, &evals);
    assert!(poly_F.0.iter().all(|f| f.is_zero()));
}

#[test]
fn non_zero_f() {
    let ctx = PolyContext::new(13, 2, 5, 1);
    let delta = pseudo_random(5, 1)[0];
    let betas = pseudo_random(6, ctx.betas_count());
    let evals = pseudo_random(12, 1 << 14);
    let poly_F = compute_F(&ctx, &betas, &delta, &evals);
    assert_eq!(poly_F.len(), 16);
    assert_ne!(poly_F, UnivariatePoly(vec![Scalar::zero(); 16]));
}

#[test]
fn zero_g() {
    let ctx = PolyContext::new(6, 2, 5, 1);
    let betas_stroke = pseudo_random(13, ctx.betas_count());
    let folded = vec![vec![Scalar::zero(); 128]; ctx.fft_points_count_G];
    let poly_G = compute_G(&ctx, &betas_stroke, &folded).unwrap();
    assert!(poly_G.0.iter().all(|g| g.is_zero()));
}

#[test]
fn non_zero_g() {
    let ctx = PolyContext::new(6, 2, 15, 1);
    assert_eq!(ctx.fft_points_count_G, 16);
    let betas_stroke = pseudo_random(14, ctx.betas_count());
    let folded: Vec<Vec<Scalar>> =
        (0..ctx.fft_points_count_G).map(|j| pseudo_random(200 + j as u64, 128)).collect();
    let poly_G = compute_G(&ctx, &betas_stroke, &folded).unwrap();
    assert_ne!(poly_G, UnivariatePoly(vec![Scalar::zero(); 16]));
}

#[test]
fn field_arithmetic_exact() {
    let p_minus_one = Scalar {
        limbs: [0x43e1f593f0000000, 0x2833e84879b97091, 0xb85045b68181585d, 0x30644e72e131a029],
    };
    assert_eq!(p_minus_one.add(&fe(1)), fe(0));
    assert_eq!(fe(0).sub(&fe(1)), p_minus_one);
    assert_eq!(fe(6).mul(&fe(7)), fe(42));
    assert_eq!(fe(3).pow(5), fe(243));
    let inv = fe(2).invert().unwrap();
    assert_eq!(inv.mul(&fe(2)), fe(1));
    assert!(fe(0).invert().is_none());
    assert!(p_minus_one.add(&fe(1)).is_zero());
    // An unreduced value stands for its residue.
    let p = Scalar {
        limbs: [0x43e1f593f0000001, 0x2833e84879b97091, 0xb85045b68181585d, 0x30644e72e131a029],
    };
    assert!(p.eq_val(&fe(0)));
}

#[test]
fn omega_has_order_of_its_domain() {
    let w = get_omega(2);
    assert_eq!(
        w,
        Scalar {
            limbs: [0x231204708f703636, 0x5cea24f6fd736bec, 0x048b6e193fd84104, 0x30644e72e131a029]
        }
    );
    assert_eq!(w.pow(4), fe(1));
    assert_ne!(w.pow(2), fe(1));
    let points = iter_cyclic_subgroup(3);
    assert_eq!(points.len(), 8);
    assert_eq!(points[0], fe(1));
    assert_eq!(points[1], get_omega(3));
}

#[test]
fn lagrange_at_own_point_is_one() {
    let points = iter_cyclic_subgroup(2);
    for (i, w) in points.iter().enumerate() {
        let ls = iter_eval_lagrange_poly_for_cyclic_group(w, 2);
        for (j, l) in ls.iter().enumerate() {
            assert_eq!(*l, if i == j { fe(1) } else { fe(0) });
        }
        let mut region = RegionCtx::new();
        let main_gate = MainGate::new();
        let mut powers = new_powers(&mut region, *w);
        let on = verify_chip::eval_lagrange_poly(&mut region, &main_gate, 3, i, &mut powers);
        assert_eq!(on.value(), fe(1));
    }
}

#[test]
fn ifft_interpolates_values() {
    let values = pseudo_random(21, 8);
    let poly = protogalaxy_verifier::poly::ifft(&values, 3);
    let points = iter_cyclic_subgroup(3);
    for (x, v) in points.iter().zip(values.iter()) {
        assert_eq!(poly.eval(x), *v);
    }
    let coset = protogalaxy_verifier::poly::coset_ifft(&values, 3);
    let zeta = Scalar {
        limbs: [0xb8ca0b2d36636f23, 0xcc37a73fec2bc5e9, 0x048b6e193fd84104, 0x30644e72e131a029],
    };
    assert_eq!(zeta.pow(3), fe(1));
    for (x, v) in points.iter().zip(values.iter()) {
        assert_eq!(coset.eval(&zeta.mul(x)), *v);
    }
}

#[test]
fn poly_context_sizes() {
    // 2^2 rows, one gate of degree 2, one incoming trace.
    let ctx = PolyContext::new(2, 1, 2, 1);
    assert_eq!(ctx.instances_to_fold, 2);
    assert_eq!(ctx.count_of_evaluation_with_padding, 4);
    assert_eq!(ctx.betas_count(), 2);
    assert_eq!(ctx.fft_points_count_F(), 4);
    assert_eq!(ctx.fft_points_count_G, 4);
    assert_eq!(ctx.fft_log_domain_size_G(), 2);
    assert_eq!(ctx.lagrange_domain(), 1);
    // next_pow2(4 + 1 - 2) = 4
    assert_eq!(ctx.fft_log_domain_size_K(), 2);
    // 3 rows x gates = 24 evaluations, padded to 32; 3 traces of degree 5: 16 points.
    let ctx = PolyContext::new(3, 3, 5, 3);
    assert_eq!(ctx.count_of_evaluation_with_padding, 32);
    assert_eq!(ctx.fft_points_count_G, 16);
    assert_eq!(ctx.betas_count(), 5);
    assert_eq!(ctx.fft_points_count_F(), 8);
    assert_eq!(ctx.fft_log_domain_size_K(), 4);
    assert_eq!(get_count_of_valuation(3, 3), Some(24));
    assert_eq!(get_count_of_valuation(3, 0), None);
}

#[test]
fn compute_g_needs_traces() {
    let ctx = PolyContext::new(2, 1, 2, 0);
    let folded = vec![vec![]; ctx.fft_points_count_G];
    assert_eq!(
        compute_G(&ctx, &pseudo_random(1, ctx.betas_count()), &folded),
        Err(protogalaxy_verifier::poly_context::Error::EmptyTracesNotAllowed)
    );
}

#[test]
fn k_identity_on_coset() {
    let ctx = PolyContext::new(3, 2, 3, 3);
    let poly_g = UnivariatePoly(pseudo_random(31, ctx.fft_points_count_G));
    let f_alpha = pseudo_random(32, 1)[0];
    let poly_k = compute_K_from_G(&ctx, &poly_g, &f_alpha);
    let log_k = ctx.fft_log_domain_size_K();
    assert_eq!(poly_k.len(), 1 << log_k);
    let zeta = Scalar {
        limbs: [0xb8ca0b2d36636f23, 0xcc37a73fec2bc5e9, 0x048b6e193fd84104, 0x30644e72e131a029],
    };
    for x in iter_cyclic_subgroup(log_k) {
        let x = zeta.mul(&x);
        let l0 = iter_eval_lagrange_poly_for_cyclic_group(&x, ctx.lagrange_domain())[0];
        let z = eval_vanish_polynomial(ctx.instances_to_fold as u64, &x);
        assert_eq!(f_alpha.mul(&l0).add(&z.mul(&poly_k.eval(&x))), poly_g.eval(&x));
    }
    // From folded evaluations in one call.
    let betas_stroke = pseudo_random(33, ctx.betas_count());
    let folded: Vec<Vec<Scalar>> =
        (0..ctx.fft_points_count_G).map(|j| pseudo_random(300 + j as u64, 48)).collect();
    let via_g = compute_G(&ctx, &betas_stroke, &folded).unwrap();
    assert_eq!(
        compute_K(&ctx, &f_alpha, &betas_stroke, &folded),
        Ok(compute_K_from_G(&ctx, &via_g, &f_alpha))
    );
}

fn instance_with(challenges: usize, seed: u64) -> PlonkInstance {
    let points: Vec<Point> = (0..challenges)
        .map(|i| {
            let c = pseudo_random(seed + i as u64, 2);
            Point { x: c[0], y: c[1] }
        })
        .collect();
    PlonkInstance {
        W_commitments: points,
        instances: vec![pseudo_random(seed + 50, 3), pseudo_random(seed + 60, 2)],
        challenges: vec![],
    }
}

/// Fills the challenges the way a conforming prover does.
fn run_prover(mut pi: PlonkInstance, rounds: usize) -> PlonkInstance {
    let mut ro = TestRo::new();
    for v in pi.instances.iter().flatten() {
        ro.absorb_field(v);
    }
    for i in 0..rounds {
        ro.absorb_field(&pi.W_commitments[i].x);
        ro.absorb_field(&pi.W_commitments[i].y);
        let c = ro.squeeze_bits(NUM_CHALLENGE_BITS);
        pi.challenges.push(c);
    }
    pi
}

#[test]
fn sps_round_trip() {
    let pi = run_prover(instance_with(3, 40), 3);
    assert_eq!(pi.sps_verify(&mut Transcript::new(TestRo::new())), Ok(()));
    for i in 0..3 {
        let mut bad = pi.clone();
        bad.W_commitments[i].x.limbs[0] ^= 1;
        assert_eq!(
            bad.sps_verify(&mut Transcript::new(TestRo::new())),
            Err(SpsError::ChallengeNotMatch { challenge_index: i })
        );
    }
    let empty = instance_with(0, 41);
    assert_eq!(empty.sps_verify(&mut Transcript::new(TestRo::new())), Ok(()));
}

#[test]
fn sps_mismatch() {
    let mut pi = run_prover(instance_with(2, 70), 2);
    pi.challenges[1] = pi.challenges[1].add(&fe(1));
    assert_eq!(
        pi.sps_verify(&mut Transcript::new(TestRo::new())),
        Err(SpsError::ChallengeNotMatch { challenge_index: 1 })
    );
    let mut region = RegionCtx::new();
    let assigned = AssignedPlonkInstance::assign(&mut region, pi);
    assert_eq!(
        verify_chip::verify_sps(&mut region, &mut Transcript::new(TestRo::new()), &vec![assigned]),
        Err(verify_chip::Error::SPS { challenge_index: 1 })
    );
    let good = run_prover(instance_with(2, 70), 2);
    let assigned = AssignedPlonkInstance::assign(&mut region, good);
    assert_eq!(verify_chip::verify_sps(&mut region, &mut Transcript::new(TestRo::new()), &vec![assigned]), Ok(()));
}

#[test]
fn identity_fold() {
    // One gate, k = 2, one incoming trace whose witness is all zero.
    let ctx = PolyContext::new(2, 1, 2, 1);
    let args = AccumulatorArgs {
        num_io: vec![2],
        num_challenges: 1,
        num_witness: 1,
        k_table_size: 2,
        round_sizes: vec![1],
    };
    let acc = AccumulatorInstance::from(Accumulator::new(&args, ctx.betas_count()));
    let incoming = vec![acc.ins.clone()];
    let zero_evals = vec![Scalar::zero(); ctx.count_of_evaluation_with_padding];

    let delta = fe(5);
    let poly_f = compute_F(&ctx, &acc.betas, &delta, &zero_evals);
    assert!(poly_f.0.iter().all(|c| c.is_zero()));
    let alpha = fe(9);
    let betas_stroke = PolyChallenges { betas: acc.betas.clone(), alpha, delta }.betas_stroke();
    let folded = vec![zero_evals.clone(); ctx.fft_points_count_G];
    let poly_g = compute_G(&ctx, &betas_stroke, &folded).unwrap();
    assert!(poly_g.0.iter().all(|c| c.is_zero()));
    let f_alpha = poly_f.eval(&alpha);
    let poly_k = compute_K_from_G(&ctx, &poly_g, &f_alpha);
    assert!(poly_k.0.iter().all(|c| c.is_zero()));

    let proof = Proof { poly_F: poly_f, poly_K: poly_k };
    let cha = Challenges { delta, alpha, gamma: fe(11) };
    let new_acc = verify_with_challenges(&acc, &incoming, &proof, &cha);
    assert!(new_acc.e.is_zero());
    assert_eq!(new_acc.ins, acc.ins);
    // β* = 0 + α·δ^(2^i)
    assert_eq!(new_acc.betas, vec![alpha.mul(&delta), alpha.mul(&delta.mul(&delta))]);
}

#[test]
fn in_circuit_verify_equivalence() {
    let args = AccumulatorArgs {
        num_io: vec![3, 1],
        num_challenges: 2,
        num_witness: 2,
        k_table_size: 14,
        round_sizes: vec![],
    };
    let mut acc = AccumulatorInstance::from(Accumulator::new(&args, 10));
    acc.betas = pseudo_random(50, 10);
    acc.e = fe(77);
    acc.ins.instances = vec![pseudo_random(51, 3), pseudo_random(52, 1)];
    acc.ins.challenges = pseudo_random(53, 2);
    let incoming = vec![PlonkInstance {
        W_commitments: vec![Point::identity(), Point::identity()],
        instances: vec![pseudo_random(54, 3), pseudo_random(55, 1)],
        challenges: pseudo_random(56, 2),
    }];
    let vp = VerifierParam { pp_digest: Point::identity() };
    let proof = mock_proof();

    let cha = Challenges::generate(&vp, &mut Transcript::new(TestRo::new()), &acc, &incoming, &proof);
    let off = verify_with_challenges(&acc, &incoming, &proof, &cha);

    let mut region = RegionCtx::new();
    let a_vp = AssignedVerifierParam::assign(&mut region, &vp);
    let a_acc = AssignedAccumulatorInstance::assign(&mut region, acc.clone());
    let a_incoming: Vec<AssignedPlonkInstance> = incoming
        .iter()
        .map(|pi| AssignedPlonkInstance::assign(&mut region, pi.clone()))
        .collect();
    let a_proof = AssignedProof::assign(&mut region, proof.clone());
    let on = verify_chip::verify(&mut region, &mut Transcript::new(TestRo::new()), &a_vp, &a_acc, &a_incoming, &a_proof)
        .unwrap();

    assert_eq!(on.e.value(), off.e);
    assert_eq!(on.betas.iter().map(|c| c.value()).collect::<Vec<_>>(), off.betas);
    let on_instances: Vec<Vec<Scalar>> =
        on.ins.instances.iter().map(|v| v.iter().map(|c| c.value()).collect()).collect();
    assert_eq!(on_instances, off.ins.instances);
    assert_eq!(on.ins.challenges.iter().map(|c| c.value()).collect::<Vec<_>>(), off.ins.challenges);
    let on_points: Vec<Point> =
        on.ins.W_commitments.iter().map(|p| Point { x: p.x.value(), y: p.y.value() }).collect();
    assert_eq!(on_points, acc.ins.W_commitments);
    // e = F(α)·L0(γ) + Z(γ)·K(γ) with the regenerated challenges.
    assert_eq!(off.e, calculate_e(&proof.poly_F, &proof.poly_K, &cha.gamma, &cha.alpha, 1));
}

#[test]
fn empty_proof_polynomial_fails_in_circuit() {
    let mut region = RegionCtx::new();
    let main_gate = MainGate::new();
    let mut powers = new_powers(&mut region, fe(3));
    let empty = AssignedUnivariatePoly::assign(&mut region, &UnivariatePoly(vec![]));
    assert!(empty.eval(&mut region, &main_gate, &mut powers).is_err());
    let acc = AccumulatorInstance::from(mock_accumulator());
    let a_acc = AssignedAccumulatorInstance::assign(&mut region, acc);
    let a_vp = AssignedVerifierParam::assign(&mut region, &VerifierParam { pp_digest: Point::identity() });
    let proof = Proof { poly_F: UnivariatePoly(vec![]), poly_K: UnivariatePoly(seq_values(1, 4)) };
    let a_proof = AssignedProof::assign(&mut region, proof);
    let incoming: Vec<AssignedPlonkInstance> = vec![AssignedPlonkInstance::assign(
        &mut region,
        PlonkInstance { W_commitments: vec![], instances: vec![], challenges: vec![] },
    )];
    assert!(matches!(
        verify_chip::verify(&mut region, &mut Transcript::new(TestRo::new()), &a_vp, &a_acc, &incoming, &a_proof),
        Err(verify_chip::Error::WhileE)
    ));
}

#[test]
fn absorption_order_is_fixed() {
    let acc = AccumulatorInstance {
        ins: PlonkInstance {
            W_commitments: vec![Point { x: fe(1), y: fe(2) }],
            instances: vec![vec![fe(3), fe(4)], vec![fe(5)]],
            challenges: vec![fe(6)],
        },
        betas: vec![fe(7), fe(8)],
        e: fe(9),
    };
    assert_eq!(acc.absorb_values(), seq_values(1, 9));
    let vp = VerifierParam { pp_digest: Point { x: fe(20), y: fe(21) } };
    let incoming = vec![PlonkInstance {
        W_commitments: vec![Point { x: fe(30), y: fe(31) }],
        instances: vec![vec![fe(32)]],
        challenges: vec![fe(33)],
    }];
    let proof = mock_proof();
    let (first, second, third) = Challenges::absorb_segments(&vp, &acc, &incoming, &proof);
    let mut expected = vec![fe(20), fe(21)];
    expected.extend(seq_values(1, 9));
    expected.extend(seq_values(30, 4));
    assert_eq!(first, expected);
    assert_eq!(second, proof.poly_F.0);
    assert_eq!(third, proof.poly_K.0);
    let mut region = RegionCtx::new();
    let a_vp = AssignedVerifierParam::assign(&mut region, &vp);
    let a_acc = AssignedAccumulatorInstance::assign(&mut region, acc);
    let a_inc: Vec<AssignedPlonkInstance> =
        incoming.into_iter().map(|pi| AssignedPlonkInstance::assign(&mut region, pi)).collect();
    let a_proof = AssignedProof::assign(&mut region, proof);
    let (a_first, _, _) = AssignedChallanges::absorb_segments(&a_vp, &a_acc, &a_inc, &a_proof);
    assert_eq!(a_first.iter().map(|c| c.value()).collect::<Vec<_>>(), expected);
}

#[test]
fn trivial_accumulator() {
    let args = AccumulatorArgs {
        num_io: vec![2, 3],
        num_challenges: 2,
        num_witness: 2,
        k_table_size: 3,
        round_sizes: vec![2],
    };
    let acc = Accumulator::new(&args, 4);
    assert_eq!(acc.betas, vec![Scalar::zero(); 4]);
    assert!(acc.e.is_zero());
    assert_eq!(acc.trace.u.W_commitments, vec![Point::identity(); 2]);
    assert_eq!(acc.trace.u.instances, vec![vec![Scalar::zero(); 2], vec![Scalar::zero(); 3]]);
    assert_eq!(acc.trace.u.challenges, vec![Scalar::zero(); 2]);
    assert_eq!(acc.trace.w.W, vec![vec![Scalar::zero(); 16]]);
}

#[test]
fn beta_stroke_iterator_steps() {
    let cha = PolyChallenges { betas: vec![fe(1), fe(2)], alpha: fe(3), delta: fe(5) };
    let mut it = cha.iter_beta_stroke();
    assert_eq!(it.next(), Some(fe(1 + 3 * 5)));
    assert_eq!(it.next(), Some(fe(2 + 3 * 25)));
    assert_eq!(it.next(), None);
    assert_eq!(it.next(), None);
}

#[test]
fn value_powers_cache() {
    let mut region = RegionCtx::new();
    let main_gate = MainGate::new();
    let mut powers = new_powers(&mut region, fe(3));
    assert_eq!(powers.value().value(), fe(3));
    let before = region.cells.len();
    assert_eq!(powers.get_or_eval(&mut region, &main_gate, 4).value(), fe(81));
    assert_eq!(region.cells.len(), before + 3);
    assert_eq!(powers.iter().len(), 5);
    assert_eq!(powers.get_or_eval(&mut region, &main_gate, 2).value(), fe(9));
    assert_eq!(region.cells.len(), before + 3);
}

#[test]
fn folded_witness_at_domain_points() {
    let trace = |seed: u64| PlonkTrace {
        u: PlonkInstance {
            W_commitments: vec![],
            instances: vec![],
            challenges: pseudo_random(seed, 2),
        },
        w: PlonkWitness { W: vec![pseudo_random(seed + 1, 4), pseudo_random(seed + 2, 3)] },
    };
    let acc = trace(400);
    let incoming = trace(500);
    let mut points = iter_cyclic_subgroup(1);
    points.push(fe(123));
    let fw = FoldedWitness::new(&points, 1, acc.clone(), vec![incoming.clone()]);
    // At ω^0 the folded trace is the accumulator, at ω^1 the incoming trace.
    assert_eq!(fw.witness(0, 1, 2), acc.w.W[1][2]);
    assert_eq!(fw.witness(1, 0, 3), incoming.w.W[0][3]);
    assert_eq!(fw.challenge(1, 1), incoming.u.challenges[1]);
    let ls = iter_eval_lagrange_poly_for_cyclic_group(&fe(123), 1);
    assert_eq!(
        fw.witness(2, 0, 1),
        ls[0].mul(&acc.w.W[0][1]).add(&ls[1].mul(&incoming.w.W[0][1]))
    );
    assert_eq!(
        fw.challenge(2, 0),
        ls[0].mul(&acc.u.challenges[0]).add(&ls[1].mul(&incoming.u.challenges[0]))
    );
}

#[test]
fn sps_without_challenges_leaves_transcript() {
    let empty = instance_with(0, 41);
    let mut t = Transcript::new(TestRo::new());
    assert_eq!(empty.sps_verify(&mut t), Ok(()));
    assert_eq!(t.into_inner().state, fe(0));
    let mut region = RegionCtx::new();
    let assigned = AssignedPlonkInstance::assign(&mut region, empty);
    let mut t = Transcript::new(TestRo::new());
    assert_eq!(verify_chip::verify_sps(&mut region, &mut t, &vec![assigned]), Ok(()));
    assert_eq!(t.into_inner().state, fe(0));
}

#[test]
fn compute_k_needs_traces() {
    let ctx = PolyContext::new(2, 1, 2, 0);
    assert_eq!(
        compute_K(&ctx, &fe(1), &vec![], &vec![]),
        Err(protogalaxy_verifier::poly_context::Error::EmptyTracesNotAllowed)
    );
}
