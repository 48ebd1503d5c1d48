//! The in-circuit ProtoGalaxy verifier: every value is a cell of a main-gate
//! region, and each assigned result is proved equal to its off-circuit
//! counterpart.
use crate::accumulator::AccumulatorInstance;
use crate::field::{fmul, fpow, lemma_modulus_bounds, modulus, pow_2k, vals, Scalar};
use crate::lagrange::{invert_small, iter_cyclic_subgroup, lagrange_eval, vanishing_eval};
use crate::main_gate::{cell_vals, extends, AssignedValue, MainGate, RegionCtx};
use crate::plonk::{
    absorbs, flatten, flatten_points, instance_absorb_seq, Point, PlonkInstance, ROTrait, RoOp,
    Transcript,
};
use crate::poly::{lemma_horner_is_power_sum, poly_eval, power_sum, UnivariatePoly};
use crate::poly_context::{beta_stroke_seq, is_domain_size, lemma_log2_spec, log2_spec, PolyContext};
use crate::protogalaxy::{
    challenge_ops, delta_absorb_seq, e_value, fold_nested, fold_seq, fold_value, incoming_absorb_seqs,
    incoming_challenges, incoming_instances, is_folded, lagrange_values, same_shape, Proof,
    VerifierParam,
};
use crate::sps::{sps_ops, sps_rounds, NUM_CHALLENGE_BITS};
use vstd::arithmetic::power2::pow2;
use vstd::prelude::*;

verus! {

#[derive(Clone, Copy, Debug, PartialEq, Eq)]
pub enum Error {
    /// `e` cannot be computed: the proof holds an empty polynomial.
    WhileE,
    /// The challenge of a round differs from the one the transcript yields.
    SPS { challenge_index: usize },
}

/// A commitment point whose coordinates are assigned cells.
#[derive(Clone, Copy, Debug, PartialEq, Eq)]
pub struct AssignedPoint {
    pub x: AssignedValue,
    pub y: AssignedValue,
}

impl AssignedPoint {
    pub open spec fn view(&self) -> (int, int) {
        (self.x.value.val(), self.y.value.val())
    }

    pub open spec fn held_in(&self, region: RegionCtx) -> bool {
        region.holds(self.x) && region.holds(self.y)
    }
}

pub open spec fn assigned_points_view(ps: Seq<AssignedPoint>) -> Seq<(int, int)> {
    ps.map_values(|p: AssignedPoint| p.view())
}

pub open spec fn nested_cell_vals(vv: Seq<Vec<AssignedValue>>) -> Seq<Seq<int>> {
    vv.map_values(|v: Vec<AssignedValue>| cell_vals(v@))
}

/// Assigns every value of `v`, in order.
pub fn assign_all(region: &mut RegionCtx, v: &Vec<Scalar>) -> (r: Vec<AssignedValue>)
    ensures
        cell_vals(r@) == vals(v@),
        final(region).holds_all(r@),
        extends(final(region).cells@, old(region).cells@),
        final(region).offset == old(region).offset,
{
    let mut out: Vec<AssignedValue> = Vec::new();
    let mut i: usize = 0;
    while i < v.len()
        invariant
            i <= v@.len(),
            out@.len() == i,
            region.holds_all(out@),
            forall|j: int| 0 <= j < i ==> (#[trigger] out@[j]).value == v@[j],
            extends(region.cells@, old(region).cells@),
            region.offset == old(region).offset,
        decreases v@.len() - i,
    {
        let c = region.assign_advice(v[i]);
        out.push(c);
        i = i + 1;
    }
    assert(cell_vals(out@) =~= vals(v@));
    out
}

/// Assigns both coordinates of a point.
pub fn assign_point(region: &mut RegionCtx, p: &Point) -> (r: AssignedPoint)
    ensures
        r.view() == p.view(),
        r.held_in(*final(region)),
        extends(final(region).cells@, old(region).cells@),
        final(region).offset == old(region).offset,
{
    let x = region.assign_advice(p.x);
    let y = region.assign_advice(p.y);
    AssignedPoint { x, y }
}

/// Appends every cell of `v`.
fn push_cells(out: &mut Vec<AssignedValue>, v: &Vec<AssignedValue>)
    ensures
        cell_vals(final(out)@) == cell_vals(old(out)@) + cell_vals(v@),
{
    let ghost start = cell_vals(out@);
    let mut i: usize = 0;
    while i < v.len()
        invariant
            i <= v@.len(),
            cell_vals(out@) == start + cell_vals(v@).take(i as int),
        decreases v@.len() - i,
    {
        proof {
            assert(cell_vals(out@.push(v@[i as int])) =~= cell_vals(out@).push(v@[i as int].value.val()));
            assert(cell_vals(v@).take(i + 1) =~= cell_vals(v@).take(i as int).push(v@[i as int].value.val()));
        }
        out.push(v[i]);
        i = i + 1;
    }
    assert(cell_vals(v@).take(i as int) =~= cell_vals(v@));
}

/// Assigned version of `PlonkInstance`.
#[allow(non_snake_case)]
pub struct AssignedPlonkInstance {
    pub W_commitments: Vec<AssignedPoint>,
    pub instances: Vec<Vec<AssignedValue>>,
    pub challenges: Vec<AssignedValue>,
}

impl AssignedPlonkInstance {
    pub open spec fn points(&self) -> Seq<(int, int)> {
        assigned_points_view(self.W_commitments@)
    }

    pub open spec fn instances_view(&self) -> Seq<Seq<int>> {
        nested_cell_vals(self.instances@)
    }

    pub open spec fn challenges_view(&self) -> Seq<int> {
        cell_vals(self.challenges@)
    }

    pub open spec fn absorb_seq(&self) -> Seq<int> {
        instance_absorb_seq(self.points(), self.instances_view(), self.challenges_view())
    }

    /// Every cell of the instance is a cell of `region`, holding its value.
    pub open spec fn held_in(&self, region: RegionCtx) -> bool {
        &&& forall|i: int|
            0 <= i < self.W_commitments@.len() ==> (#[trigger] self.W_commitments@[i]).held_in(
                region,
            )
        &&& forall|k: int|
            0 <= k < self.instances@.len() ==> region.holds_all((#[trigger] self.instances@[k])@)
        &&& region.holds_all(self.challenges@)
    }

    /// Assigns every commitment, public input and challenge of `pi`.
    pub fn assign(region: &mut RegionCtx, pi: PlonkInstance) -> (r: AssignedPlonkInstance)
        ensures
            r.points() == pi.points(),
            r.instances_view() == pi.instances_view(),
            r.challenges_view() == pi.challenges_view(),
            r.held_in(*final(region)),
            extends(final(region).cells@, old(region).cells@),
            final(region).offset == old(region).offset,
    {
        let mut points: Vec<AssignedPoint> = Vec::new();
        let mut i: usize = 0;
        while i < pi.W_commitments.len()
            invariant
                i <= pi.W_commitments@.len(),
                points@.len() == i,
                forall|j: int| 0 <= j < i ==> (#[trigger] points@[j]).view() == pi.W_commitments@[j].view(),
                forall|j: int| 0 <= j < i ==> (#[trigger] points@[j]).held_in(*region),
                extends(region.cells@, old(region).cells@),
                region.offset == old(region).offset,
            decreases pi.W_commitments@.len() - i,
        {
            let p = assign_point(region, &pi.W_commitments[i]);
            points.push(p);
            i = i + 1;
        }
        let mut instances: Vec<Vec<AssignedValue>> = Vec::new();
        let mut i: usize = 0;
        while i < pi.instances.len()
            invariant
                i <= pi.instances@.len(),
                instances@.len() == i,
                forall|j: int| 0 <= j < i ==> cell_vals((#[trigger] instances@[j])@) == vals(pi.instances@[j]@),
                forall|j: int| 0 <= j < i ==> region.holds_all((#[trigger] instances@[j])@),
                forall|j: int| 0 <= j < points@.len() ==> (#[trigger] points@[j]).held_in(*region),
                extends(region.cells@, old(region).cells@),
                region.offset == old(region).offset,
            decreases pi.instances@.len() - i,
        {
            let v = assign_all(region, &pi.instances[i]);
            instances.push(v);
            i = i + 1;
        }
        let challenges = assign_all(region, &pi.challenges);
        let r = AssignedPlonkInstance { W_commitments: points, instances, challenges };
        assert(r.points() =~= pi.points());
        assert(r.instances_view() =~= pi.instances_view());
        r
    }

    /// The cells this instance contributes to a transcript, in order: the
    /// commitments' coordinates, every public input, then the challenges.
    pub fn iter_wrap_value(&self) -> (r: Vec<AssignedValue>)
        ensures
            cell_vals(r@) == self.absorb_seq(),
    {
        let mut out: Vec<AssignedValue> = Vec::new();
        let mut i: usize = 0;
        while i < self.W_commitments.len()
            invariant
                i <= self.W_commitments@.len(),
                cell_vals(out@) == flatten_points(self.points().take(i as int)),
            decreases self.W_commitments@.len() - i,
        {
            let p = self.W_commitments[i];
            let ghost before = out@;
            out.push(p.x);
            out.push(p.y);
            proof {
                let t = self.points().take(i + 1);
                assert(t.drop_last() =~= self.points().take(i as int));
                assert(cell_vals(out@) =~= cell_vals(before) + seq![p.x.value.val(), p.y.value.val()]);
                assert(cell_vals(out@) =~= flatten_points(t));
            }
            i = i + 1;
        }
        assert(self.points().take(i as int) =~= self.points());
        let ghost prefix = cell_vals(out@);
        let mut i: usize = 0;
        while i < self.instances.len()
            invariant
                i <= self.instances@.len(),
                cell_vals(out@) == prefix + flatten(self.instances_view().take(i as int)),
            decreases self.instances@.len() - i,
        {
            push_cells(&mut out, &self.instances[i]);
            proof {
                let t = self.instances_view().take(i + 1);
                assert(t.drop_last() =~= self.instances_view().take(i as int));
                assert(cell_vals(out@) =~= prefix + flatten(t));
            }
            i = i + 1;
        }
        assert(self.instances_view().take(i as int) =~= self.instances_view());
        push_cells(&mut out, &self.challenges);
        assert(cell_vals(out@) =~= self.absorb_seq());
        out
    }
}

/// Assigned version of `AccumulatorInstance`.
pub struct AssignedAccumulatorInstance {
    pub ins: AssignedPlonkInstance,
    pub betas: Vec<AssignedValue>,
    pub e: AssignedValue,
}

impl AssignedAccumulatorInstance {
    pub open spec fn absorb_seq(&self) -> Seq<int> {
        self.ins.absorb_seq() + cell_vals(self.betas@) + seq![self.e.value.val()]
    }

    /// Assigns the instance, then every `β`, then `e`.
    pub fn assign(region: &mut RegionCtx, acc: AccumulatorInstance) -> (r:
        AssignedAccumulatorInstance)
        ensures
            r.ins.points() == acc.ins.points(),
            r.ins.instances_view() == acc.ins.instances_view(),
            r.ins.challenges_view() == acc.ins.challenges_view(),
            cell_vals(r.betas@) == vals(acc.betas@),
            r.e.value.val() == acc.e.val(),
            r.ins.held_in(*final(region)),
            final(region).holds_all(r.betas@),
            final(region).holds(r.e),
            extends(final(region).cells@, old(region).cells@),
            final(region).offset == old(region).offset,
    {
        let AccumulatorInstance { ins, betas, e } = acc;
        let ins = AssignedPlonkInstance::assign(region, ins);
        let betas = assign_all(region, &betas);
        let e = region.assign_advice(e);
        AssignedAccumulatorInstance { ins, betas, e }
    }

    /// The cells this accumulator contributes to a transcript, in order.
    pub fn iter_wrap_value(&self) -> (r: Vec<AssignedValue>)
        ensures
            cell_vals(r@) == self.absorb_seq(),
    {
        let mut out = self.ins.iter_wrap_value();
        push_cells(&mut out, &self.betas);
        let ghost before = out@;
        out.push(self.e);
        assert(cell_vals(out@) =~= cell_vals(before).push(self.e.value.val()));
        assert(cell_vals(out@) =~= self.absorb_seq());
        out
    }
}

/// The cached powers `x^0 = 1, x^1, x^2, …` of one assigned value.
pub struct ValuePowers {
    pub powers: Vec<AssignedValue>,
}

impl ValuePowers {
    /// The value whose powers are cached.
    pub open spec fn base(&self) -> int {
        self.powers@[1].value.val()
    }

    pub open spec fn wf(&self) -> bool {
        &&& self.powers@.len() >= 2
        &&& forall|i: int|
            0 <= i < self.powers@.len() ==> (#[trigger] self.powers@[i]).value.val() == fpow(
                self.base(),
                i as nat,
            )
    }

    /// Starts the cache from a cell holding one and the value itself.
    pub fn new(one: AssignedValue, value: AssignedValue) -> (r: ValuePowers)
        requires
            one.value.val() == 1,
        ensures
            r.wf(),
            r.base() == value.value.val(),
            r.powers@ == seq![one, value],
    {
        let mut powers: Vec<AssignedValue> = Vec::new();
        powers.push(one);
        powers.push(value);
        proof {
            lemma_reduced_val(value.value);
            assert(fpow(value.value.val(), 0) == 1);
            assert(fpow(value.value.val(), 1) == fmul(value.value.val(), 1));
        }
        ValuePowers { powers }
    }

    /// The cached cells, lowest power first.
    pub fn iter(&self) -> (r: &Vec<AssignedValue>)
        ensures
            r@ == self.powers@,
    {
        &self.powers
    }

    /// The cell of `x^1`.
    pub fn value(&self) -> (r: AssignedValue)
        requires
            self.wf(),
        ensures
            r == self.powers@[1],
    {
        self.powers[1]
    }

    /// The cell of `x^exp`, from the cache, else extending the cache by one
    /// multiplication per missing power.
    pub fn get_or_eval(&mut self, region: &mut RegionCtx, main_gate: &MainGate, exp: usize) -> (r:
        AssignedValue)
        requires
            old(self).wf(),
            exp < usize::MAX,
        ensures
            final(self).wf(),
            final(self).base() == old(self).base(),
            final(self).powers@.len() == cache_len(old(self).powers@.len(), (exp + 1) as nat),
            old(self).powers@.is_prefix_of(final(self).powers@),
            exp < old(self).powers@.len() ==> final(self).powers@ == old(self).powers@
                && final(region).cells@ == old(region).cells@,
            r == final(self).powers@[exp as int],
            r.value.val() == fpow(old(self).base(), exp as nat),
            extends(final(region).cells@, old(region).cells@),
            final(region).offset == old(region).offset,
    {
        if exp < self.powers.len() {
            assert(old(self).powers@.is_prefix_of(self.powers@)) by {
                assert(self.powers@.subrange(0, self.powers@.len() as int) =~= self.powers@);
            }
            return self.powers[exp];
        }
        let ghost start = self.powers@;
        while self.powers.len() <= exp
            invariant
                self.wf(),
                self.base() == old(self).base(),
                start == old(self).powers@,
                start.is_prefix_of(self.powers@),
                self.powers@.len() <= exp + 1,
                extends(region.cells@, old(region).cells@),
                region.offset == old(region).offset,
            decreases exp + 1 - self.powers@.len(),
        {
            let value = self.value();
            let last = self.powers[self.powers.len() - 1];
            let new = main_gate.mul(region, &value, &last);
            let ghost before = self.powers@;
            self.powers.push(new);
            proof {
                assert(self.powers@[1] == before[1]);
                assert(start.is_prefix_of(self.powers@)) by {
                    assert(self.powers@.subrange(0, start.len() as int) =~= before.subrange(0, start.len() as int));
                }
            }
        }
        self.powers[exp]
    }
}

/// The length of a cache of powers after asking for `needed` of them.
pub open spec fn cache_len(old_len: nat, needed: nat) -> nat {
    if needed <= old_len {
        old_len
    } else {
        needed
    }
}

proof fn lemma_prefix_trans(a: Seq<AssignedValue>, b: Seq<AssignedValue>, c: Seq<AssignedValue>)
    requires
        a.is_prefix_of(b),
        b.is_prefix_of(c),
    ensures
        a.is_prefix_of(c),
{
    assert(c.subrange(0, a.len() as int) =~= b.subrange(0, a.len() as int));
}

/// The values of cells are reduced.
proof fn lemma_reduced_val(x: Scalar)
    ensures
        0 <= x.val() < modulus(),
        fmul(x.val(), 1) == x.val(),
{
    lemma_modulus_bounds();
    vstd::arithmetic::div_mod::lemma_mod_bound(crate::field::limbs_value(x.limbs), modulus());
    crate::field::lemma_reduced(x.val());
}

proof fn lemma_cell_vals_reduced(s: Seq<AssignedValue>)
    ensures
        forall|i: int| 0 <= i < s.len() ==> 0 <= #[trigger] cell_vals(s)[i] < modulus(),
{
    assert forall|i: int| 0 <= i < s.len() implies 0 <= #[trigger] cell_vals(s)[i] < modulus() by {
        lemma_reduced_val(s[i].value);
    }
}

/// Assigned version of `UnivariatePoly`: a cell per coefficient.
pub struct AssignedUnivariatePoly(pub Vec<AssignedValue>);

impl AssignedUnivariatePoly {
    pub open spec fn coeffs(&self) -> Seq<int> {
        cell_vals(self.0@)
    }

    /// Assigns every coefficient of `poly`, then moves to the next row.
    pub fn assign(region: &mut RegionCtx, poly: &UnivariatePoly) -> (r: AssignedUnivariatePoly)
        ensures
            r.coeffs() == poly.coeffs(),
            final(region).holds_all(r.0@),
            extends(final(region).cells@, old(region).cells@),
    {
        let cells = assign_all(region, &poly.0);
        region.next();
        AssignedUnivariatePoly(cells)
    }

    /// The coefficient cells, in order.
    pub fn iter_wrap_value(&self) -> (r: Vec<AssignedValue>)
        ensures
            r@ == self.0@,
            cell_vals(r@) == self.coeffs(),
    {
        let mut out: Vec<AssignedValue> = Vec::new();
        let mut i: usize = 0;
        while i < self.0.len()
            invariant
                i <= self.0@.len(),
                out@ == self.0@.take(i as int),
            decreases self.0@.len() - i,
        {
            out.push(self.0[i]);
            i = i + 1;
            assert(out@ =~= self.0@.take(i as int));
        }
        assert(self.0@.take(i as int) =~= self.0@);
        out
    }

    /// The number of coefficients.
    pub fn degree(&self) -> (r: usize)
        ensures
            r == self.0@.len(),
    {
        self.0.len()
    }

    pub fn len(&self) -> (r: usize)
        ensures
            r == self.0@.len(),
    {
        self.0.len()
    }

    /// `Σ c_i · x^i`, where `x` is the base of `challenge_powers`: one gate row
    /// per pair of coefficients, `out = prev + c_2k · x^2k + c_(2k+1) ·
    /// x^(2k+1)`. Fails on a polynomial without coefficients.
    pub fn eval(
        &self,
        region: &mut RegionCtx,
        main_gate: &MainGate,
        challenge_powers: &mut ValuePowers,
    ) -> (r: Result<AssignedValue, crate::main_gate::SynthesisError>)
        requires
            old(challenge_powers).wf(),
            self.0@.len() < usize::MAX,
        ensures
            final(challenge_powers).wf(),
            final(challenge_powers).base() == old(challenge_powers).base(),
            old(challenge_powers).powers@.is_prefix_of(final(challenge_powers).powers@),
            self.0@.len() == 0 ==> final(challenge_powers).powers@ == old(challenge_powers).powers@,
            self.0@.len() > 0 ==> final(challenge_powers).powers@.len() == cache_len(
                old(challenge_powers).powers@.len(),
                self.0@.len(),
            ),
            r is Err <==> self.0@.len() == 0,
            r matches Ok(v) ==> v.value.val() == poly_eval(self.coeffs(), old(challenge_powers).base()),
            extends(final(region).cells@, old(region).cells@),
    {
        let n = self.0.len();
        if n == 0 {
            assert(old(challenge_powers).powers@.is_prefix_of(challenge_powers.powers@)) by {
                assert(challenge_powers.powers@.subrange(0, challenge_powers.powers@.len() as int)
                    =~= challenge_powers.powers@);
            }
            return Err(crate::main_gate::SynthesisError);
        }
        challenge_powers.get_or_eval(region, main_gate, n - 1);
        let ghost cached = challenge_powers.powers@;
        let ghost x = challenge_powers.base();
        let ghost c = self.coeffs();
        let mut prev = region.assign_advice(Scalar::zero());
        let mut i: usize = 0;
        while i < n
            invariant
                i <= n,
                n == self.0@.len(),
                c == self.coeffs(),
                challenge_powers.wf(),
                challenge_powers.base() == x,
                challenge_powers.powers@.len() >= n,
                challenge_powers.powers@ == cached,
                x == old(challenge_powers).base(),
                i < n ==> i % 2 == 0,
                prev.value.val() == power_sum(c, x, i as nat),
                extends(region.cells@, old(region).cells@),
            decreases n - i,
        {
            let c0 = self.0[i];
            let pow0 = challenge_powers.powers[i];
            region.assign_advice(prev.value);
            region.assign_advice(c0.value);
            region.assign_advice(pow0.value);
            let t0 = c0.value.mul(&pow0.value);
            let mut out = prev.value.add(&t0);
            assert(out.val() == power_sum(c, x, (i + 1) as nat));
            if i + 1 < n {
                let c1 = self.0[i + 1];
                let pow1 = challenge_powers.powers[i + 1];
                region.assign_advice(c1.value);
                region.assign_advice(pow1.value);
                let t1 = c1.value.mul(&pow1.value);
                out = out.add(&t1);
                assert(out.val() == power_sum(c, x, (i + 2) as nat));
                i = i + 2;
            } else {
                i = i + 1;
            }
            prev = region.assign_advice(out);
            region.next();
        }
        proof {
            lemma_cell_vals_reduced(self.0@);
            lemma_horner_is_power_sum(c, x);
        }
        Ok(prev)
    }
}

/// Assigned version of `Proof`.
#[allow(non_snake_case)]
pub struct AssignedProof {
    pub poly_F: AssignedUnivariatePoly,
    pub poly_K: AssignedUnivariatePoly,
}

impl AssignedProof {
    pub fn assign(region: &mut RegionCtx, proof: crate::protogalaxy::Proof) -> (r: AssignedProof)
        ensures
            r.poly_F.coeffs() == proof.poly_F.coeffs(),
            r.poly_K.coeffs() == proof.poly_K.coeffs(),
            final(region).holds_all(r.poly_F.0@),
            final(region).holds_all(r.poly_K.0@),
            extends(final(region).cells@, old(region).cells@),
    {
        let poly_F = AssignedUnivariatePoly::assign(region, &proof.poly_F);
        let poly_K = AssignedUnivariatePoly::assign(region, &proof.poly_K);
        AssignedProof { poly_F, poly_K }
    }
}

/// Assigned version of `VerifierParam`.
pub struct AssignedVerifierParam {
    pub pp_digest: AssignedPoint,
}

impl AssignedVerifierParam {
    pub fn assign(region: &mut RegionCtx, vp: &crate::protogalaxy::VerifierParam) -> (r:
        AssignedVerifierParam)
        ensures
            r.pp_digest.view() == vp.pp_digest.view(),
            r.pp_digest.held_in(*final(region)),
            extends(final(region).cells@, old(region).cells@),
            final(region).offset == old(region).offset,
    {
        AssignedVerifierParam { pp_digest: assign_point(region, &vp.pp_digest) }
    }
}

pub open spec fn assigned_absorb_seqs(incoming: Seq<AssignedPlonkInstance>) -> Seq<Seq<int>> {
    incoming.map_values(|p: AssignedPlonkInstance| p.absorb_seq())
}

/// Assigned version of `Challenges`.
pub struct AssignedChallanges {
    pub delta: AssignedValue,
    pub alpha: AssignedValue,
    pub gamma: AssignedValue,
}

impl AssignedChallanges {
    /// The cells absorbed before each challenge is squeezed, in the order of
    /// `Challenges::absorb_segments`.
    pub fn absorb_segments(
        vp: &AssignedVerifierParam,
        accumulator: &AssignedAccumulatorInstance,
        incoming: &Vec<AssignedPlonkInstance>,
        proof: &AssignedProof,
    ) -> (r: (Vec<AssignedValue>, Vec<AssignedValue>, Vec<AssignedValue>))
        ensures
            cell_vals(r.0@) == delta_absorb_seq(
                vp.pp_digest.view(),
                accumulator.absorb_seq(),
                assigned_absorb_seqs(incoming@),
            ),
            cell_vals(r.1@) == proof.poly_F.coeffs(),
            cell_vals(r.2@) == proof.poly_K.coeffs(),
    {
        let mut first: Vec<AssignedValue> = Vec::new();
        first.push(vp.pp_digest.x);
        first.push(vp.pp_digest.y);
        assert(cell_vals(first@) =~= seq![vp.pp_digest.x.value.val(), vp.pp_digest.y.value.val()]);
        let acc_values = accumulator.iter_wrap_value();
        push_cells(&mut first, &acc_values);
        let ghost prefix = cell_vals(first@);
        let mut j: usize = 0;
        while j < incoming.len()
            invariant
                j <= incoming@.len(),
                cell_vals(first@) == prefix + flatten(assigned_absorb_seqs(incoming@).take(j as int)),
            decreases incoming@.len() - j,
        {
            let v = incoming[j].iter_wrap_value();
            push_cells(&mut first, &v);
            proof {
                let t = assigned_absorb_seqs(incoming@).take(j + 1);
                assert(t.drop_last() =~= assigned_absorb_seqs(incoming@).take(j as int));
                assert(cell_vals(first@) =~= prefix + flatten(t));
            }
            j = j + 1;
        }
        assert(assigned_absorb_seqs(incoming@).take(j as int) =~= assigned_absorb_seqs(incoming@));
        (first, proof.poly_F.iter_wrap_value(), proof.poly_K.iter_wrap_value())
    }

    /// Squeezes `δ`, `α` and `γ` from `ro_circuit`, each after absorbing the
    /// values of its segment of `absorb_segments`, and assigns them.
    pub fn generate<R: ROTrait>(
        region: &mut RegionCtx,
        ro_circuit: &mut Transcript<R>,
        vp: &AssignedVerifierParam,
        accumulator: &AssignedAccumulatorInstance,
        incoming: &Vec<AssignedPlonkInstance>,
        proof: &AssignedProof,
    ) -> (r: AssignedChallanges)
        ensures
            final(ro_circuit).ops() == old(ro_circuit).ops() + challenge_ops(
                delta_absorb_seq(
                    vp.pp_digest.view(),
                    accumulator.absorb_seq(),
                    assigned_absorb_seqs(incoming@),
                ),
                proof.poly_F.coeffs(),
                proof.poly_K.coeffs(),
                r.delta.value.val(),
                r.alpha.value.val(),
                r.gamma.value.val(),
            ),
            final(region).cells@ == old(region).cells@.push(r.delta.value).push(r.alpha.value).push(
                r.gamma.value,
            ),
            final(region).offset == old(region).offset,
            final(region).holds(r.delta),
            final(region).holds(r.alpha),
            final(region).holds(r.gamma),
    {
        let (first, second, third) = AssignedChallanges::absorb_segments(
            vp,
            accumulator,
            incoming,
            proof,
        );
        absorb_cells(ro_circuit, &first);
        let delta = region.assign_advice(ro_circuit.squeeze());
        absorb_cells(ro_circuit, &second);
        let alpha = region.assign_advice(ro_circuit.squeeze());
        absorb_cells(ro_circuit, &third);
        let gamma = region.assign_advice(ro_circuit.squeeze());
        let r = AssignedChallanges { delta, alpha, gamma };
        assert(ro_circuit.ops() =~= old(ro_circuit).ops() + challenge_ops(
            cell_vals(first@),
            cell_vals(second@),
            cell_vals(third@),
            r.delta.value.val(),
            r.alpha.value.val(),
            r.gamma.value.val(),
        ));
        r
    }
}

/// Absorbs the value of every cell, in order.
pub fn absorb_cells<R: ROTrait>(ro: &mut Transcript<R>, cells: &Vec<AssignedValue>)
    ensures
        final(ro).ops() == old(ro).ops() + absorbs(cell_vals(cells@)),
{
    let mut i: usize = 0;
    while i < cells.len()
        invariant
            i <= cells@.len(),
            ro.ops() == old(ro).ops() + absorbs(cell_vals(cells@).take(i as int)),
        decreases cells@.len() - i,
    {
        ro.absorb_field(&cells[i].value);
        proof {
            assert(absorbs(cell_vals(cells@).take(i + 1)) =~= absorbs(
                cell_vals(cells@).take(i as int),
            ).push(RoOp::Absorb(cells@[i as int].value.val())));
        }
        i = i + 1;
        assert(ro.ops() =~= old(ro).ops() + absorbs(cell_vals(cells@).take(i as int)));
    }
    assert(cell_vals(cells@).take(i as int) =~= cell_vals(cells@));
}

/// `v, v^2, v^4, …`: `len` cells, each the square of the one before.
pub fn calculate_exponentiation_sequence(
    region: &mut RegionCtx,
    main_gate: &MainGate,
    value: AssignedValue,
    len: usize,
) -> (r: Vec<AssignedValue>)
    ensures
        r@.len() == len,
        len > 0 ==> r@[0] == value,
        forall|i: int| 0 <= i < len ==> (#[trigger] r@[i]).value.val() == pow_2k(value.value.val(), i as nat),
        extends(final(region).cells@, old(region).cells@),
        final(region).offset == old(region).offset,
{
    let mut out: Vec<AssignedValue> = Vec::new();
    if len == 0 {
        return out;
    }
    out.push(value);
    let mut cur = value;
    while out.len() < len
        invariant
            1 <= out@.len() <= len,
            out@[0] == value,
            cur == out@[out@.len() - 1],
            forall|i: int| 0 <= i < out@.len() ==> (#[trigger] out@[i]).value.val() == pow_2k(value.value.val(), i as nat),
            extends(region.cells@, old(region).cells@),
            region.offset == old(region).offset,
        decreases len - out@.len(),
    {
        cur = main_gate.mul(region, &cur, &cur);
        out.push(cur);
    }
    out
}

/// Assigned version of `PolyChallenges`.
pub struct AssignedPolyChallenges {
    pub betas: Vec<AssignedValue>,
    pub alpha: AssignedValue,
    pub delta: AssignedValue,
}

/// `β*_i = β_i + α · δ^(2^i)` for every `β`: one multiplication and one
/// addition per `β`.
pub fn calculate_betas_stroke(
    region: &mut RegionCtx,
    main_gate: &MainGate,
    cha: &AssignedPolyChallenges,
) -> (r: Vec<AssignedValue>)
    ensures
        cell_vals(r@) == beta_stroke_seq(cell_vals(cha.betas@), cha.alpha.value.val(), cha.delta.value.val()),
        extends(final(region).cells@, old(region).cells@),
        final(region).offset == old(region).offset,
{
    let n = cha.betas.len();
    let deltas = calculate_exponentiation_sequence(region, main_gate, cha.delta, n);
    let ghost target = beta_stroke_seq(cell_vals(cha.betas@), cha.alpha.value.val(), cha.delta.value.val());
    let mut out: Vec<AssignedValue> = Vec::new();
    let mut i: usize = 0;
    while i < n
        invariant
            i <= n,
            n == cha.betas@.len(),
            deltas@.len() == n,
            forall|j: int| 0 <= j < n ==> (#[trigger] deltas@[j]).value.val() == pow_2k(cha.delta.value.val(), j as nat),
            target == beta_stroke_seq(cell_vals(cha.betas@), cha.alpha.value.val(), cha.delta.value.val()),
            out@.len() == i,
            forall|j: int| 0 <= j < i ==> (#[trigger] out@[j]).value.val() == target[j],
            extends(region.cells@, old(region).cells@),
            region.offset == old(region).offset,
        decreases n - i,
    {
        let alpha_mul_delta = main_gate.mul(region, &cha.alpha, &deltas[i]);
        let v = main_gate.add(region, &cha.betas[i], &alpha_mul_delta);
        out.push(v);
        i = i + 1;
    }
    assert(cell_vals(out@) =~= target);
    out
}

/// `L_i(x)` over the subgroup of order `traces_len + 1`, where `x` is the
/// base of `cha`. Where numerator and denominator both vanish the result is
/// selected as one instead of a division by zero.
pub fn eval_lagrange_poly(
    region: &mut RegionCtx,
    main_gate: &MainGate,
    traces_len: usize,
    lagrange_index: usize,
    cha: &mut ValuePowers,
) -> (r: AssignedValue)
    requires
        old(cha).wf(),
        is_domain_size((traces_len + 1) as nat),
        lagrange_index < traces_len + 1,
    ensures
        r.value.val() == lagrange_eval(
            log2_spec((traces_len + 1) as nat),
            lagrange_index as nat,
            old(cha).base(),
        ),
        final(cha).wf(),
        final(cha).base() == old(cha).base(),
        old(cha).powers@.is_prefix_of(final(cha).powers@),
        final(cha).powers@.len() == cache_len(old(cha).powers@.len(), (traces_len + 2) as nat),
        extends(final(region).cells@, old(region).cells@),
        final(region).offset == old(region).offset,
{
    let log_n = PolyContext::get_lagrange_domain(traces_len);
    proof {
        lemma_log2_spec((traces_len + 1) as nat, log_n as nat);
    }
    let points_count = crate::lagrange::pow2_usize(log_n);
    let inverted_n = invert_small(points_count as u64);
    let points = iter_cyclic_subgroup(log_n);
    let value = points[lagrange_index];
    let x = cha.value();
    let neg_value = Scalar::zero().sub(&value);
    let x_sub_value = main_gate.add_with_const(region, &x, &neg_value);
    proof {
        crate::field::lemma_add_neg(x.value.val(), value.val());
    }
    let (is_zero_x_sub_value, x_sub_value_inverted) = main_gate.invert_with_flag(
        region,
        &x_sub_value,
    );
    let x_pow_n = cha.get_or_eval(region, main_gate, points_count);
    let neg_one = Scalar::zero().sub(&Scalar::one());
    let x_pow_n_sub_1 = main_gate.add_with_const(region, &x_pow_n, &neg_one);
    proof {
        crate::field::lemma_add_neg(x_pow_n.value.val(), 1);
    }
    let is_zero_x_pow_n_sub_1 = main_gate.is_zero_term(region, &x_pow_n_sub_1);
    let both_zero = main_gate.mul(region, &is_zero_x_sub_value, &is_zero_x_pow_n_sub_1);
    proof {
        lemma_modulus_bounds();
        vstd::arithmetic::div_mod::lemma_small_mod(0, modulus() as nat);
        vstd::arithmetic::div_mod::lemma_small_mod(1, modulus() as nat);
    }
    let lhs = main_gate.mul(region, &x_pow_n_sub_1, &x_sub_value_inverted);
    let factor = value.mul(&inverted_n);
    let fractional = main_gate.mul_by_const(region, &lhs, &factor);
    let ghost mid = cha.powers@;
    let one = cha.get_or_eval(region, main_gate, 0);
    proof {
        lemma_prefix_trans(old(cha).powers@, mid, cha.powers@);
    }
    main_gate.conditional_select(region, &one, &fractional, &both_zero)
}

/// `Z(x) = x^degree − 1`, where `x` is the base of `cha`.
pub fn eval_vanish_polynomial(
    region: &mut RegionCtx,
    main_gate: &MainGate,
    degree: usize,
    cha: &mut ValuePowers,
) -> (r: AssignedValue)
    requires
        old(cha).wf(),
        degree < usize::MAX,
    ensures
        r.value.val() == vanishing_eval(degree as nat, old(cha).base()),
        final(cha).wf(),
        final(cha).base() == old(cha).base(),
        old(cha).powers@.is_prefix_of(final(cha).powers@),
        final(cha).powers@.len() == cache_len(old(cha).powers@.len(), (degree + 1) as nat),
        extends(final(region).cells@, old(region).cells@),
        final(region).offset == old(region).offset,
{
    let cha_in_degree = cha.get_or_eval(region, main_gate, degree);
    let neg_one = Scalar::zero().sub(&Scalar::one());
    proof {
        crate::field::lemma_add_neg(cha_in_degree.value.val(), 1);
    }
    main_gate.add_with_const(region, &cha_in_degree, &neg_one)
}

/// `e = F(α) · L_0(γ) + Z(γ) · K(γ)` over the subgroup of order
/// `traces_len + 1`. Fails when either polynomial of the proof is empty.
pub fn calculate_e(
    region: &mut RegionCtx,
    main_gate: &MainGate,
    traces_len: usize,
    proof: &AssignedProof,
    gamma_cha: &mut ValuePowers,
    alpha_cha: &mut ValuePowers,
) -> (r: Result<AssignedValue, Error>)
    requires
        old(gamma_cha).wf(),
        old(alpha_cha).wf(),
        is_domain_size((traces_len + 1) as nat),
        proof.poly_F.0@.len() < usize::MAX,
        proof.poly_K.0@.len() < usize::MAX,
    ensures
        r is Err <==> proof.poly_F.0@.len() == 0 || proof.poly_K.0@.len() == 0,
        r matches Err(e) ==> e == Error::WhileE,
        r matches Ok(v) ==> v.value.val() == e_value(
            proof.poly_F.coeffs(),
            proof.poly_K.coeffs(),
            old(gamma_cha).base(),
            old(alpha_cha).base(),
            log2_spec((traces_len + 1) as nat),
        ),
        final(gamma_cha).wf(),
        final(gamma_cha).base() == old(gamma_cha).base(),
        final(alpha_cha).wf(),
        final(alpha_cha).base() == old(alpha_cha).base(),
        extends(final(region).cells@, old(region).cells@),
{
    let log_n = PolyContext::get_lagrange_domain(traces_len);
    proof {
        lemma_log2_spec((traces_len + 1) as nat, log_n as nat);
    }
    let poly_l0_gamma = eval_lagrange_poly(region, main_gate, traces_len, 0, gamma_cha);
    let poly_f_alpha = match proof.poly_F.eval(region, main_gate, alpha_cha) {
        Ok(v) => v,
        Err(_) => {
            return Err(Error::WhileE);
        },
    };
    let points_count = crate::lagrange::pow2_usize(log_n);
    let poly_z_gamma = eval_vanish_polynomial(region, main_gate, points_count, gamma_cha);
    let poly_k_gamma = match proof.poly_K.eval(region, main_gate, gamma_cha) {
        Ok(v) => v,
        Err(_) => {
            return Err(Error::WhileE);
        },
    };
    let lhs = main_gate.mul(region, &poly_f_alpha, &poly_l0_gamma);
    let rhs = main_gate.mul(region, &poly_z_gamma, &poly_k_gamma);
    Ok(main_gate.add(region, &lhs, &rhs))
}

pub open spec fn assigned_incoming_instances(incoming: Seq<AssignedPlonkInstance>) -> Seq<
    Seq<Seq<int>>,
> {
    incoming.map_values(|p: AssignedPlonkInstance| p.instances_view())
}

pub open spec fn assigned_incoming_challenges(incoming: Seq<AssignedPlonkInstance>) -> Seq<Seq<int>> {
    incoming.map_values(|p: AssignedPlonkInstance| p.challenges_view())
}

/// The cells at place `c` of each vector of `incs`.
fn column_cells(incs: &Vec<Vec<AssignedValue>>, c: usize) -> (r: Vec<AssignedValue>)
    requires
        forall|j: int| 0 <= j < incs@.len() ==> c < (#[trigger] incs@[j])@.len(),
    ensures
        r@.len() == incs@.len(),
        cell_vals(r@) == Seq::new(incs@.len(), |j: int| nested_cell_vals(incs@)[j][c as int]),
{
    let mut out: Vec<AssignedValue> = Vec::new();
    let mut j: usize = 0;
    while j < incs.len()
        invariant
            j <= incs@.len(),
            out@.len() == j,
            forall|i: int| 0 <= i < incs@.len() ==> c < (#[trigger] incs@[i])@.len(),
            forall|i: int| 0 <= i < j ==> (#[trigger] out@[i]) == incs@[i]@[c as int],
        decreases incs@.len() - j,
    {
        out.push(incs[j][c]);
        j = j + 1;
    }
    assert(cell_vals(out@) =~= Seq::new(incs@.len(), |j: int| nested_cell_vals(incs@)[j][c as int]));
    out
}

/// `acc · L_0 + inc_0 · L_1 + …`, one multiplication and one addition per
/// incoming value.
fn fold_one_cells(
    region: &mut RegionCtx,
    main_gate: &MainGate,
    acc: &AssignedValue,
    incs: &Vec<AssignedValue>,
    ls: &Vec<AssignedValue>,
) -> (r: AssignedValue)
    requires
        ls@.len() == incs@.len() + 1,
    ensures
        r.value.val() == fold_value(acc.value.val(), cell_vals(incs@), cell_vals(ls@), incs@.len()),
        extends(final(region).cells@, old(region).cells@),
        final(region).offset == old(region).offset,
{
    let mut v = main_gate.mul(region, acc, &ls[0]);
    let mut j: usize = 0;
    while j < incs.len()
        invariant
            j <= incs@.len(),
            ls@.len() == incs@.len() + 1,
            v.value.val() == fold_value(acc.value.val(), cell_vals(incs@), cell_vals(ls@), j as nat),
            extends(region.cells@, old(region).cells@),
            region.offset == old(region).offset,
        decreases incs@.len() - j,
    {
        let rhs = main_gate.mul(region, &incs[j], &ls[j + 1]);
        v = main_gate.add(region, &v, &rhs);
        j = j + 1;
    }
    v
}

/// Folds each cell of `acc` with the cells at the same place of `incs`.
fn fold_vec_cells(
    region: &mut RegionCtx,
    main_gate: &MainGate,
    acc: &Vec<AssignedValue>,
    incs: &Vec<Vec<AssignedValue>>,
    ls: &Vec<AssignedValue>,
) -> (r: Vec<AssignedValue>)
    requires
        ls@.len() == incs@.len() + 1,
        forall|j: int| 0 <= j < incs@.len() ==> (#[trigger] incs@[j])@.len() == acc@.len(),
    ensures
        cell_vals(r@) == fold_seq(cell_vals(acc@), nested_cell_vals(incs@), cell_vals(ls@)),
        extends(final(region).cells@, old(region).cells@),
        final(region).offset == old(region).offset,
{
    let ghost target = fold_seq(cell_vals(acc@), nested_cell_vals(incs@), cell_vals(ls@));
    let mut out: Vec<AssignedValue> = Vec::new();
    let mut c: usize = 0;
    while c < acc.len()
        invariant
            c <= acc@.len(),
            ls@.len() == incs@.len() + 1,
            forall|j: int| 0 <= j < incs@.len() ==> (#[trigger] incs@[j])@.len() == acc@.len(),
            target == fold_seq(cell_vals(acc@), nested_cell_vals(incs@), cell_vals(ls@)),
            out@.len() == c,
            forall|i: int| 0 <= i < c ==> (#[trigger] out@[i]).value.val() == target[i],
            extends(region.cells@, old(region).cells@),
            region.offset == old(region).offset,
        decreases acc@.len() - c,
    {
        let col = column_cells(incs, c);
        let v = fold_one_cells(region, main_gate, &acc[c], &col, ls);
        assert(cell_vals(acc@)[c as int] == acc@[c as int].value.val());
        assert(target[c as int] == fold_value(
            cell_vals(acc@)[c as int],
            Seq::new(incs@.len(), |j: int| nested_cell_vals(incs@)[j][c as int]),
            cell_vals(ls@),
            incs@.len(),
        ));
        out.push(v);
        c = c + 1;
    }
    assert(cell_vals(out@) =~= target);
    out
}

/// Folds the scalar parts of the instances at `γ`, the base of `gamma_cha`:
/// each public input and challenge becomes `acc · L_0(γ) + Σ_j inc_j ·
/// L_(j+1)(γ)`. The commitments are the accumulator's cells, unchanged: their
/// folding is deferred to the circuit on the companion curve.
pub fn fold_instances(
    region: &mut RegionCtx,
    main_gate: &MainGate,
    acc: &AssignedPlonkInstance,
    incoming: &Vec<AssignedPlonkInstance>,
    gamma_cha: &mut ValuePowers,
) -> (r: AssignedPlonkInstance)
    requires
        old(gamma_cha).wf(),
        is_domain_size((incoming@.len() + 1) as nat),
        same_shape(
            acc.instances_view(),
            acc.challenges_view(),
            assigned_incoming_instances(incoming@),
            assigned_incoming_challenges(incoming@),
        ),
    ensures
        r.W_commitments@ == acc.W_commitments@,
        r.instances_view() == fold_nested(
            acc.instances_view(),
            assigned_incoming_instances(incoming@),
            lagrange_values(log2_spec((incoming@.len() + 1) as nat), old(gamma_cha).base()),
        ),
        r.challenges_view() == fold_seq(
            acc.challenges_view(),
            assigned_incoming_challenges(incoming@),
            lagrange_values(log2_spec((incoming@.len() + 1) as nat), old(gamma_cha).base()),
        ),
        final(gamma_cha).wf(),
        final(gamma_cha).base() == old(gamma_cha).base(),
        extends(final(region).cells@, old(region).cells@),
        final(region).offset == old(region).offset,
{
    let traces_len = incoming.len();
    let log_n = PolyContext::get_lagrange_domain(traces_len);
    proof {
        lemma_log2_spec((traces_len + 1) as nat, log_n as nat);
    }
    let ghost gamma = gamma_cha.base();
    let ghost lv = lagrange_values(log_n as nat, gamma);
    let n = crate::lagrange::pow2_usize(log_n);
    let mut ls: Vec<AssignedValue> = Vec::new();
    let mut i: usize = 0;
    while i < n
        invariant
            i <= n,
            n == traces_len + 1,
            traces_len == incoming@.len(),
            is_domain_size((traces_len + 1) as nat),
            log_n as nat == log2_spec((traces_len + 1) as nat),
            lv == lagrange_values(log_n as nat, gamma),
            n == pow2(log_n as nat),
            gamma_cha.wf(),
            gamma_cha.base() == gamma,
            ls@.len() == i,
            forall|j: int| 0 <= j < i ==> (#[trigger] ls@[j]).value.val() == lv[j],
            extends(region.cells@, old(region).cells@),
            region.offset == old(region).offset,
        decreases n - i,
    {
        let l = eval_lagrange_poly(region, main_gate, traces_len, i, gamma_cha);
        ls.push(l);
        i = i + 1;
    }
    assert(cell_vals(ls@) =~= lv);
    let ghost incs = assigned_incoming_instances(incoming@);
    let ghost chs = assigned_incoming_challenges(incoming@);
    let mut ch_cols: Vec<Vec<AssignedValue>> = Vec::new();
    let mut j: usize = 0;
    while j < incoming.len()
        invariant
            j <= incoming@.len(),
            chs == assigned_incoming_challenges(incoming@),
            incs == assigned_incoming_instances(incoming@),
            same_shape(acc.instances_view(), acc.challenges_view(), incs, chs),
            ch_cols@.len() == j,
            forall|i: int| 0 <= i < j ==> cell_vals((#[trigger] ch_cols@[i])@) == chs[i],
            forall|i: int| 0 <= i < j ==> (#[trigger] ch_cols@[i])@.len() == acc.challenges@.len(),
        decreases incoming@.len() - j,
    {
        let v = incoming[j].challenges.clone();
        assert(v@ == incoming@[j as int].challenges@);
        assert(incs[j as int].len() == acc.instances_view().len());
        ch_cols.push(v);
        j = j + 1;
    }
    assert(nested_cell_vals(ch_cols@) =~= chs);
    let challenges = fold_vec_cells(region, main_gate, &acc.challenges, &ch_cols, &ls);
    let ghost target = fold_nested(acc.instances_view(), incs, cell_vals(ls@));
    let mut instances: Vec<Vec<AssignedValue>> = Vec::new();
    let mut k: usize = 0;
    while k < acc.instances.len()
        invariant
            k <= acc.instances@.len(),
            ls@.len() == incoming@.len() + 1,
            incs == assigned_incoming_instances(incoming@),
            chs == assigned_incoming_challenges(incoming@),
            same_shape(acc.instances_view(), acc.challenges_view(), incs, chs),
            target == fold_nested(acc.instances_view(), incs, cell_vals(ls@)),
            instances@.len() == k,
            forall|i: int| 0 <= i < k ==> cell_vals((#[trigger] instances@[i])@) == target[i],
            extends(region.cells@, old(region).cells@),
            region.offset == old(region).offset,
        decreases acc.instances@.len() - k,
    {
        let ghost col_spec = Seq::new(incoming@.len() as nat, |j: int| incs[j][k as int]);
        let mut cols: Vec<Vec<AssignedValue>> = Vec::new();
        let mut j: usize = 0;
        while j < incoming.len()
            invariant
                j <= incoming@.len(),
                k < acc.instances@.len(),
                incs == assigned_incoming_instances(incoming@),
                same_shape(acc.instances_view(), acc.challenges_view(), incs, chs),
                col_spec == Seq::new(incoming@.len() as nat, |j: int| incs[j][k as int]),
                cols@.len() == j,
                forall|i: int| 0 <= i < j ==> cell_vals((#[trigger] cols@[i])@) == col_spec[i],
                forall|i: int| 0 <= i < j ==> (#[trigger] cols@[i])@.len() == acc.instances@[k as int]@.len(),
            decreases incoming@.len() - j,
        {
            assert(incs[j as int] == nested_cell_vals(incoming@[j as int].instances@));
            assert(incs[j as int].len() == acc.instances_view().len());
            assert(incs[j as int][k as int].len() == acc.instances_view()[k as int].len());
            assert(acc.instances_view()[k as int] == cell_vals(acc.instances@[k as int]@));
            assert(incs[j as int][k as int] == cell_vals(incoming@[j as int].instances@[k as int]@));
            let v = incoming[j].instances[k].clone();
            cols.push(v);
            j = j + 1;
        }
        assert(nested_cell_vals(cols@) =~= col_spec);
        let v = fold_vec_cells(region, main_gate, &acc.instances[k], &cols, &ls);
        assert(acc.instances_view()[k as int] == cell_vals(acc.instances@[k as int]@));
        instances.push(v);
        k = k + 1;
    }
    let r = AssignedPlonkInstance {
        W_commitments: acc.W_commitments.clone(),
        instances,
        challenges,
    };
    assert(r.instances_view() =~= target);
    r
}

/// The result agrees with the challenges squeezed: `Ok` where every round
/// squeezed its recorded challenge, else the error of the first round that
/// did not, which is the last round replayed.
pub open spec fn sps_outcome_assigned(expected: Seq<int>, challenges: Seq<int>, r: Result<(), Error>) -> bool {
    match r {
        Ok(()) => expected == challenges,
        Err(Error::SPS { challenge_index: i }) => {
            &&& expected.len() == i + 1
            &&& i < challenges.len()
            &&& expected[i as int] != challenges[i as int]
            &&& forall|j: int| 0 <= j < i ==> expected[j] == challenges[j]
        },
        Err(Error::WhileE) => false,
    }
}

/// The calls the check makes for one instance that passes: none without
/// challenges, else its public inputs and each round with its recorded
/// challenge squeezed.
pub open spec fn instance_sps_ops(pi: AssignedPlonkInstance) -> Seq<RoOp> {
    if pi.challenges@.len() == 0 {
        Seq::empty()
    } else {
        sps_ops(pi.points(), pi.instances_view(), pi.challenges_view())
    }
}

/// The calls for the first `j` instances, all passing.
pub open spec fn passing_sps_ops(incoming: Seq<AssignedPlonkInstance>, j: nat) -> Seq<RoOp>
    decreases j,
{
    if j == 0 {
        Seq::empty()
    } else {
        passing_sps_ops(incoming, (j - 1) as nat) + instance_sps_ops(incoming[j - 1])
    }
}

/// Absorbs the value of every cell of every vector, in order.
pub fn absorb_nested_cells<R: ROTrait>(ro: &mut Transcript<R>, vv: &Vec<Vec<AssignedValue>>)
    ensures
        final(ro).ops() == old(ro).ops() + absorbs(flatten(nested_cell_vals(vv@))),
{
    let mut i: usize = 0;
    while i < vv.len()
        invariant
            i <= vv@.len(),
            ro.ops() == old(ro).ops() + absorbs(flatten(nested_cell_vals(vv@).take(i as int))),
        decreases vv@.len() - i,
    {
        absorb_cells(ro, &vv[i]);
        proof {
            let t = nested_cell_vals(vv@).take(i + 1);
            assert(t.drop_last() =~= nested_cell_vals(vv@).take(i as int));
            assert(absorbs(flatten(t)) =~= absorbs(flatten(t.drop_last())) + absorbs(t.last()));
        }
        i = i + 1;
        assert(ro.ops() =~= old(ro).ops() + absorbs(flatten(nested_cell_vals(vv@).take(i as int))));
    }
    assert(nested_cell_vals(vv@).take(i as int) =~= nested_cell_vals(vv@));
}

/// The check of one instance with challenges: absorbs its public inputs,
/// then per round its commitment, squeezes a challenge of
/// `NUM_CHALLENGE_BITS` bits, assigns it, and requires it to equal the
/// round's challenge cell; stops at the first round that differs.
pub fn verify_sps_instance<R: ROTrait>(
    region: &mut RegionCtx,
    ro_circuit: &mut Transcript<R>,
    pi: &AssignedPlonkInstance,
) -> (r: Result<(), Error>)
    requires
        pi.challenges@.len() <= pi.W_commitments@.len(),
    ensures
        exists|expected: Seq<int>|
            {
                &&& final(ro_circuit).ops() == old(ro_circuit).ops() + sps_ops(
                    pi.points(),
                    pi.instances_view(),
                    expected,
                )
                &&& sps_outcome_assigned(expected, pi.challenges_view(), r)
            },
        extends(final(region).cells@, old(region).cells@),
        final(region).offset == old(region).offset,
{
    absorb_nested_cells(ro_circuit, &pi.instances);
    let ghost start = ro_circuit.ops();
    let ghost mut expected: Seq<int> = Seq::empty();
    let n = pi.challenges.len();
    let mut i: usize = 0;
    while i < n
        invariant
            i <= n,
            n == pi.challenges@.len(),
            n <= pi.W_commitments@.len(),
            start == old(ro_circuit).ops() + absorbs(flatten(pi.instances_view())),
            expected.len() == i,
            expected == pi.challenges_view().take(i as int),
            ro_circuit.ops() == start + sps_rounds(pi.points(), expected),
            extends(region.cells@, old(region).cells@),
            region.offset == old(region).offset,
        decreases n - i,
    {
        let point = pi.W_commitments[i];
        ro_circuit.absorb_field(&point.x.value);
        ro_circuit.absorb_field(&point.y.value);
        let squeezed = region.assign_advice(ro_circuit.squeeze_bits(NUM_CHALLENGE_BITS));
        let ghost prev = expected;
        proof {
            expected = expected.push(squeezed.value.val());
            assert(expected.drop_last() =~= prev);
            assert(pi.points()[i as int] == point.view());
            assert(ro_circuit.ops() =~= start + sps_rounds(pi.points(), expected));
        }
        if !squeezed.value.eq_val(&pi.challenges[i].value) {
            proof {
                assert forall|j: int| 0 <= j < i implies expected[j] == pi.challenges_view()[j] by {
                    assert(prev[j] == pi.challenges_view().take(i as int)[j]);
                }
                assert(ro_circuit.ops() =~= old(ro_circuit).ops() + sps_ops(
                    pi.points(),
                    pi.instances_view(),
                    expected,
                ));
            }
            let r = Err(Error::SPS { challenge_index: i });
            assert(sps_outcome_assigned(expected, pi.challenges_view(), r));
            return r;
        }
        proof {
            assert(expected =~= pi.challenges_view().take(i + 1));
        }
        i = i + 1;
    }
    assert(expected =~= pi.challenges_view());
    assert(ro_circuit.ops() =~= old(ro_circuit).ops() + sps_ops(
        pi.points(),
        pi.instances_view(),
        expected,
    ));
    assert(sps_outcome_assigned(expected, pi.challenges_view(), Ok(())));
    Ok(())
}

/// The check of every incoming instance that has challenges, in order,
/// stopping at the first that fails. Instances without challenges make no
/// call on the transcript.
pub fn verify_sps<R: ROTrait>(
    region: &mut RegionCtx,
    ro_circuit: &mut Transcript<R>,
    incoming: &Vec<AssignedPlonkInstance>,
) -> (r: Result<(), Error>)
    requires
        forall|j: int|
            0 <= j < incoming@.len() ==> (#[trigger] incoming@[j]).challenges@.len()
                <= incoming@[j].W_commitments@.len(),
    ensures
        r is Ok ==> final(ro_circuit).ops() == old(ro_circuit).ops() + passing_sps_ops(
            incoming@,
            incoming@.len(),
        ),
        r is Err ==> exists|j: int, expected: Seq<int>|
            {
                &&& 0 <= j < incoming@.len()
                &&& incoming@[j].challenges@.len() > 0
                &&& final(ro_circuit).ops() == old(ro_circuit).ops() + passing_sps_ops(
                    incoming@,
                    j as nat,
                ) + sps_ops(incoming@[j].points(), incoming@[j].instances_view(), expected)
                &&& sps_outcome_assigned(expected, incoming@[j].challenges_view(), r)
            },
        extends(final(region).cells@, old(region).cells@),
        final(region).offset == old(region).offset,
{
    let mut j: usize = 0;
    while j < incoming.len()
        invariant
            j <= incoming@.len(),
            forall|i: int|
                0 <= i < incoming@.len() ==> (#[trigger] incoming@[i]).challenges@.len()
                    <= incoming@[i].W_commitments@.len(),
            ro_circuit.ops() == old(ro_circuit).ops() + passing_sps_ops(incoming@, j as nat),
            extends(region.cells@, old(region).cells@),
            region.offset == old(region).offset,
        decreases incoming@.len() - j,
    {
        let pi = &incoming[j];
        let ghost before = ro_circuit.ops();
        if pi.challenges.len() != 0 {
            let res = verify_sps_instance(region, ro_circuit, pi);
            if res.is_err() {
                proof {
                    let expected = choose|expected: Seq<int>|
                        {
                            &&& ro_circuit.ops() == before + sps_ops(
                                pi.points(),
                                pi.instances_view(),
                                expected,
                            )
                            &&& sps_outcome_assigned(expected, pi.challenges_view(), res)
                        };
                    assert(ro_circuit.ops() =~= old(ro_circuit).ops() + passing_sps_ops(
                        incoming@,
                        j as nat,
                    ) + sps_ops(incoming@[j as int].points(), incoming@[j as int].instances_view(), expected));
                }
                return res;
            }
            proof {
                let expected = choose|expected: Seq<int>|
                    {
                        &&& ro_circuit.ops() == before + sps_ops(
                            pi.points(),
                            pi.instances_view(),
                            expected,
                        )
                        &&& sps_outcome_assigned(expected, pi.challenges_view(), res)
                    };
                assert(expected == pi.challenges_view());
            }
        }
        proof {
            assert(ro_circuit.ops() =~= old(ro_circuit).ops() + passing_sps_ops(incoming@, (j + 1) as nat));
        }
        j = j + 1;
    }
    Ok(())
}

/// The assigned inputs of a verify step can be folded together.
pub open spec fn can_fold_assigned(
    accumulator: AssignedAccumulatorInstance,
    incoming: Seq<AssignedPlonkInstance>,
) -> bool {
    is_domain_size((incoming.len() + 1) as nat) && same_shape(
        accumulator.ins.instances_view(),
        accumulator.ins.challenges_view(),
        assigned_incoming_instances(incoming),
        assigned_incoming_challenges(incoming),
    )
}

/// `r` is what an in-circuit verify step yields for the given challenges and
/// proof polynomials `f`, `k`.
pub open spec fn is_folded_assigned(
    r: AssignedAccumulatorInstance,
    accumulator: AssignedAccumulatorInstance,
    incoming: Seq<AssignedPlonkInstance>,
    f: Seq<int>,
    k: Seq<int>,
    delta: int,
    alpha: int,
    gamma: int,
) -> bool {
    let log_n = log2_spec((incoming.len() + 1) as nat);
    &&& cell_vals(r.betas@) == beta_stroke_seq(cell_vals(accumulator.betas@), alpha, delta)
    &&& r.e.value.val() == e_value(f, k, gamma, alpha, log_n)
    &&& r.ins.W_commitments@ == accumulator.ins.W_commitments@
    &&& r.ins.instances_view() == fold_nested(
        accumulator.ins.instances_view(),
        assigned_incoming_instances(incoming),
        lagrange_values(log_n, gamma),
    )
    &&& r.ins.challenges_view() == fold_seq(
        accumulator.ins.challenges_view(),
        assigned_incoming_challenges(incoming),
        lagrange_values(log_n, gamma),
    )
}

/// A verify step in the circuit for assigned challenges: `β*`, then a cell
/// holding one, then `e`, then the folded instance. Fails when a polynomial of
/// the proof is empty.
pub fn fold_with_challenges(
    region: &mut RegionCtx,
    main_gate: &MainGate,
    accumulator: &AssignedAccumulatorInstance,
    incoming: &Vec<AssignedPlonkInstance>,
    proof: &AssignedProof,
    cha: &AssignedChallanges,
) -> (r: Result<AssignedAccumulatorInstance, Error>)
    requires
        can_fold_assigned(*accumulator, incoming@),
        proof.poly_F.0@.len() < usize::MAX,
        proof.poly_K.0@.len() < usize::MAX,
    ensures
        r is Err <==> proof.poly_F.0@.len() == 0 || proof.poly_K.0@.len() == 0,
        r matches Err(e) ==> e == Error::WhileE,
        r matches Ok(v) ==> is_folded_assigned(
            v,
            *accumulator,
            incoming@,
            proof.poly_F.coeffs(),
            proof.poly_K.coeffs(),
            cha.delta.value.val(),
            cha.alpha.value.val(),
            cha.gamma.value.val(),
        ),
        extends(final(region).cells@, old(region).cells@),
{
    let poly_cha = AssignedPolyChallenges {
        betas: accumulator.betas.clone(),
        alpha: cha.alpha,
        delta: cha.delta,
    };
    let betas = calculate_betas_stroke(region, main_gate, &poly_cha);
    let one = region.assign_advice(Scalar::one());
    region.next();
    let mut gamma_powers = ValuePowers::new(one, cha.gamma);
    let mut alpha_powers = ValuePowers::new(one, cha.alpha);
    let e = calculate_e(
        region,
        main_gate,
        incoming.len(),
        proof,
        &mut gamma_powers,
        &mut alpha_powers,
    )?;
    let ins = fold_instances(region, main_gate, &accumulator.ins, incoming, &mut gamma_powers);
    Ok(AssignedAccumulatorInstance { ins, betas, e })
}

/// Assigned version of the verify step: the challenges are regenerated from
/// `ro_circuit` with the absorption order of the off-circuit verifier, then
/// `fold_with_challenges`.
pub fn verify<R: ROTrait>(
    region: &mut RegionCtx,
    ro_circuit: &mut Transcript<R>,
    vp: &AssignedVerifierParam,
    accumulator: &AssignedAccumulatorInstance,
    incoming: &Vec<AssignedPlonkInstance>,
    proof: &AssignedProof,
) -> (r: Result<AssignedAccumulatorInstance, Error>)
    requires
        can_fold_assigned(*accumulator, incoming@),
        proof.poly_F.0@.len() < usize::MAX,
        proof.poly_K.0@.len() < usize::MAX,
    ensures
        r is Err <==> proof.poly_F.0@.len() == 0 || proof.poly_K.0@.len() == 0,
        r matches Err(e) ==> e == Error::WhileE,
        exists|delta: int, alpha: int, gamma: int|
            {
                &&& final(ro_circuit).ops() == old(ro_circuit).ops() + challenge_ops(
                    delta_absorb_seq(
                        vp.pp_digest.view(),
                        accumulator.absorb_seq(),
                        assigned_absorb_seqs(incoming@),
                    ),
                    proof.poly_F.coeffs(),
                    proof.poly_K.coeffs(),
                    delta,
                    alpha,
                    gamma,
                )
                &&& r matches Ok(v) ==> is_folded_assigned(
                    v,
                    *accumulator,
                    incoming@,
                    proof.poly_F.coeffs(),
                    proof.poly_K.coeffs(),
                    delta,
                    alpha,
                    gamma,
                )
            },
        extends(final(region).cells@, old(region).cells@),
{
    let cha = AssignedChallanges::generate(region, ro_circuit, vp, accumulator, incoming, proof);
    let main_gate = MainGate::new();
    fold_with_challenges(region, &main_gate, accumulator, incoming, proof, &cha)
}

/// Off-circuit and in-circuit transcripts agree: from assigned inputs that
/// hold the values of the off-circuit ones, challenge generation makes the
/// same calls on the transcript in the same order, so a transcript that
/// answers the same calls alike gives the same `δ`, `α` and `γ`.
pub proof fn lemma_transcript_equivalence(
    vp: VerifierParam,
    avp: AssignedVerifierParam,
    acc: AccumulatorInstance,
    aacc: AssignedAccumulatorInstance,
    incoming: Seq<PlonkInstance>,
    aincoming: Seq<AssignedPlonkInstance>,
    proof: Proof,
    aproof: AssignedProof,
)
    requires
        aproof.poly_F.coeffs() == proof.poly_F.coeffs(),
        aproof.poly_K.coeffs() == proof.poly_K.coeffs(),
        avp.pp_digest.view() == vp.pp_digest.view(),
        aacc.ins.points() == acc.ins.points(),
        aacc.ins.instances_view() == acc.ins.instances_view(),
        aacc.ins.challenges_view() == acc.ins.challenges_view(),
        cell_vals(aacc.betas@) == vals(acc.betas@),
        aacc.e.value.val() == acc.e.val(),
        aincoming.len() == incoming.len(),
        forall|j: int|
            0 <= j < incoming.len() ==> {
                &&& (#[trigger] aincoming[j]).points() == incoming[j].points()
                &&& aincoming[j].instances_view() == incoming[j].instances_view()
                &&& aincoming[j].challenges_view() == incoming[j].challenges_view()
            },
    ensures
        delta_absorb_seq(avp.pp_digest.view(), aacc.absorb_seq(), assigned_absorb_seqs(aincoming))
            == delta_absorb_seq(vp.pp_digest.view(), acc.absorb_seq(), incoming_absorb_seqs(incoming)),
        forall|delta: int, alpha: int, gamma: int|
            #[trigger] challenge_ops(
                delta_absorb_seq(
                    avp.pp_digest.view(),
                    aacc.absorb_seq(),
                    assigned_absorb_seqs(aincoming),
                ),
                aproof.poly_F.coeffs(),
                aproof.poly_K.coeffs(),
                delta,
                alpha,
                gamma,
            ) == challenge_ops(
                delta_absorb_seq(vp.pp_digest.view(), acc.absorb_seq(), incoming_absorb_seqs(incoming)),
                proof.poly_F.coeffs(),
                proof.poly_K.coeffs(),
                delta,
                alpha,
                gamma,
            ),
{
    assert(assigned_absorb_seqs(aincoming) =~= incoming_absorb_seqs(incoming)) by {
        assert forall|j: int| 0 <= j < incoming.len() implies assigned_absorb_seqs(aincoming)[j]
            == incoming_absorb_seqs(incoming)[j] by {
            assert(aincoming[j].points() == incoming[j].points());
        }
    }
}

/// Off-circuit and in-circuit verification agree: from inputs with the same
/// values and the same challenges, the folded accumulators hold the same `β*`,
/// `e`, public inputs and challenges, and keep the accumulator's commitments.
pub proof fn lemma_verify_equivalence(
    off: AccumulatorInstance,
    on: AssignedAccumulatorInstance,
    acc: AccumulatorInstance,
    aacc: AssignedAccumulatorInstance,
    incoming: Seq<PlonkInstance>,
    aincoming: Seq<AssignedPlonkInstance>,
    proof: Proof,
    delta: int,
    alpha: int,
    gamma: int,
)
    requires
        is_folded(off, acc, incoming, proof, delta, alpha, gamma),
        is_folded_assigned(
            on,
            aacc,
            aincoming,
            proof.poly_F.coeffs(),
            proof.poly_K.coeffs(),
            delta,
            alpha,
            gamma,
        ),
        aacc.ins.points() == acc.ins.points(),
        aacc.ins.instances_view() == acc.ins.instances_view(),
        aacc.ins.challenges_view() == acc.ins.challenges_view(),
        cell_vals(aacc.betas@) == vals(acc.betas@),
        aincoming.len() == incoming.len(),
        forall|j: int|
            0 <= j < incoming.len() ==> {
                &&& (#[trigger] aincoming[j]).instances_view() == incoming[j].instances_view()
                &&& aincoming[j].challenges_view() == incoming[j].challenges_view()
            },
    ensures
        cell_vals(on.betas@) == vals(off.betas@),
        on.e.value.val() == off.e.val(),
        on.ins.points() == off.ins.points(),
        on.ins.instances_view() == off.ins.instances_view(),
        on.ins.challenges_view() == off.ins.challenges_view(),
{
    assert(assigned_incoming_instances(aincoming) =~= incoming_instances(incoming)) by {
        assert forall|j: int| 0 <= j < incoming.len() implies assigned_incoming_instances(aincoming)[j]
            == incoming_instances(incoming)[j] by {
            assert(aincoming[j].instances_view() == incoming[j].instances_view());
        }
    }
    assert(assigned_incoming_challenges(aincoming) =~= incoming_challenges(incoming)) by {
        assert forall|j: int| 0 <= j < incoming.len() implies assigned_incoming_challenges(aincoming)[j]
            == incoming_challenges(incoming)[j] by {
            assert(aincoming[j].challenges_view() == incoming[j].challenges_view());
        }
    }
    assert(on.ins.points() == aacc.ins.points());
    assert(off.ins.points() == acc.ins.points());
}

} // verus!
