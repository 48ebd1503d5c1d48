//! The running accumulator of the folding scheme: a PLONK instance with its
//! `β` vector and error term `e`.
use crate::field::{vals, Scalar};
use crate::lagrange::pow2_usize;
use crate::plonk::{absorb_all, absorbs, push_all, Point, PlonkInstance, ROTrait, Transcript};
use vstd::arithmetic::power2::pow2;
use vstd::prelude::*;

verus! {

/// The shape of a trace: the length of each public-input vector, the number of
/// challenges and of witness commitments, `k` of the table (`2^k` rows), and
/// the number of columns committed in each round.
#[derive(Clone, Debug)]
pub struct PlonkTraceArgs {
    pub num_io: Vec<usize>,
    pub num_challenges: usize,
    pub num_witness: usize,
    pub k_table_size: u32,
    pub round_sizes: Vec<usize>,
}

pub type AccumulatorArgs = PlonkTraceArgs;

impl PlonkTraceArgs {
    /// The witness of every round fits in memory.
    pub open spec fn fits(&self) -> bool {
        self.k_table_size <= 28 && forall|i: int|
            0 <= i < self.round_sizes@.len() ==> #[trigger] self.round_sizes@[i] * pow2(
                self.k_table_size as nat,
            ) <= usize::MAX
    }
}

/// The witness columns committed in each round, row after row.
#[allow(non_snake_case)]
#[derive(Clone, Debug, PartialEq, Eq)]
pub struct PlonkWitness {
    pub W: Vec<Vec<Scalar>>,
}

/// An instance together with its witness.
#[derive(Clone, Debug, PartialEq, Eq)]
pub struct PlonkTrace {
    pub u: PlonkInstance,
    pub w: PlonkWitness,
}

/// A vector of `n` zeros.
pub fn zeros(n: usize) -> (r: Vec<Scalar>)
    ensures
        r@.len() == n,
        forall|i: int| 0 <= i < n ==> (#[trigger] r@[i]).val() == 0,
{
    let mut v: Vec<Scalar> = Vec::new();
    let mut i: usize = 0;
    while i < n
        invariant
            i <= n,
            v@.len() == i,
            forall|j: int| 0 <= j < i ==> (#[trigger] v@[j]).val() == 0,
        decreases n - i,
    {
        v.push(Scalar::zero());
        i = i + 1;
    }
    v
}

impl PlonkTrace {
    /// The trivial trace: identity commitments, zero public inputs, zero
    /// challenges and an all-zero witness.
    pub fn new(args: &PlonkTraceArgs) -> (r: PlonkTrace)
        requires
            args.fits(),
        ensures
            r.u.W_commitments@.len() == args.num_witness,
            forall|i: int|
                0 <= i < args.num_witness ==> (#[trigger] r.u.W_commitments@[i]).view() == (
                    0int,
                    0int,
                ),
            r.u.instances@.len() == args.num_io@.len(),
            forall|i: int|
                0 <= i < args.num_io@.len() ==> (#[trigger] r.u.instances@[i])@.len()
                    == args.num_io@[i] && forall|j: int|
                    0 <= j < args.num_io@[i] ==> r.u.instances@[i]@[j].val() == 0,
            r.u.challenges@.len() == args.num_challenges,
            forall|i: int| 0 <= i < args.num_challenges ==> (#[trigger] r.u.challenges@[i]).val() == 0,
            r.w.W@.len() == args.round_sizes@.len(),
            forall|i: int|
                0 <= i < args.round_sizes@.len() ==> (#[trigger] r.w.W@[i])@.len()
                    == args.round_sizes@[i] * pow2(args.k_table_size as nat) && forall|j: int|
                    0 <= j < r.w.W@[i]@.len() ==> r.w.W@[i]@[j].val() == 0,
    {
        let mut points: Vec<Point> = Vec::new();
        let mut i: usize = 0;
        while i < args.num_witness
            invariant
                i <= args.num_witness,
                points@.len() == i,
                forall|j: int| 0 <= j < i ==> (#[trigger] points@[j]).view() == (0int, 0int),
            decreases args.num_witness - i,
        {
            points.push(Point::identity());
            i = i + 1;
        }
        let mut instances: Vec<Vec<Scalar>> = Vec::new();
        let mut i: usize = 0;
        while i < args.num_io.len()
            invariant
                i <= args.num_io@.len(),
                instances@.len() == i,
                forall|a: int|
                    0 <= a < i ==> (#[trigger] instances@[a])@.len() == args.num_io@[a]
                        && forall|j: int| 0 <= j < args.num_io@[a] ==> instances@[a]@[j].val() == 0,
            decreases args.num_io@.len() - i,
        {
            instances.push(zeros(args.num_io[i]));
            i = i + 1;
        }
        let rows = pow2_usize(args.k_table_size);
        let mut witness: Vec<Vec<Scalar>> = Vec::new();
        let mut i: usize = 0;
        while i < args.round_sizes.len()
            invariant
                args.fits(),
                rows == pow2(args.k_table_size as nat),
                i <= args.round_sizes@.len(),
                witness@.len() == i,
                forall|a: int|
                    0 <= a < i ==> (#[trigger] witness@[a])@.len() == args.round_sizes@[a] * rows
                        && forall|j: int| 0 <= j < witness@[a]@.len() ==> witness@[a]@[j].val() == 0,
            decreases args.round_sizes@.len() - i,
        {
            assert(args.round_sizes@[i as int] * pow2(args.k_table_size as nat) <= usize::MAX);
            witness.push(zeros(args.round_sizes[i] * rows));
            i = i + 1;
        }
        PlonkTrace {
            u: PlonkInstance {
                W_commitments: points,
                instances,
                challenges: zeros(args.num_challenges),
            },
            w: PlonkWitness { W: witness },
        }
    }
}

/// The values an accumulator contributes to a transcript: its instance, then
/// every `β`, then `e`.
pub open spec fn accumulator_absorb_seq(ins: PlonkInstance, betas: Seq<int>, e: int) -> Seq<int> {
    ins.absorb_seq() + betas + seq![e]
}

/// A running accumulator: a trace, the `β` vector and the error term `e`.
pub struct Accumulator {
    pub trace: PlonkTrace,
    pub betas: Vec<Scalar>,
    pub e: Scalar,
}

impl Accumulator {
    /// The trivial accumulator: a trivial trace, `count_of_evaluation` zero
    /// betas, and `e = 0`.
    pub fn new(args: &AccumulatorArgs, count_of_evaluation: usize) -> (r: Accumulator)
        requires
            args.fits(),
        ensures
            r.betas@.len() == count_of_evaluation,
            forall|i: int| 0 <= i < count_of_evaluation ==> (#[trigger] r.betas@[i]).val() == 0,
            r.e.val() == 0,
            r.trace.u.W_commitments@.len() == args.num_witness,
            forall|i: int|
                0 <= i < args.num_witness ==> (#[trigger] r.trace.u.W_commitments@[i]).view() == (
                    0int,
                    0int,
                ),
            r.trace.u.instances@.len() == args.num_io@.len(),
            forall|i: int|
                0 <= i < args.num_io@.len() ==> (#[trigger] r.trace.u.instances@[i])@.len()
                    == args.num_io@[i] && forall|j: int|
                    0 <= j < args.num_io@[i] ==> r.trace.u.instances@[i]@[j].val() == 0,
            r.trace.u.challenges@.len() == args.num_challenges,
            forall|i: int| 0 <= i < args.num_challenges ==> (#[trigger] r.trace.u.challenges@[i]).val() == 0,
            r.trace.w.W@.len() == args.round_sizes@.len(),
            forall|i: int|
                0 <= i < args.round_sizes@.len() ==> (#[trigger] r.trace.w.W@[i])@.len()
                    == args.round_sizes@[i] * pow2(args.k_table_size as nat) && forall|j: int|
                    0 <= j < r.trace.w.W@[i]@.len() ==> r.trace.w.W@[i]@[j].val() == 0,
    {
        Accumulator {
            betas: zeros(count_of_evaluation),
            e: Scalar::zero(),
            trace: PlonkTrace::new(args),
        }
    }

    pub open spec fn absorb_seq(&self) -> Seq<int> {
        accumulator_absorb_seq(self.trace.u, vals(self.betas@), self.e.val())
    }

    /// The values this accumulator contributes to a transcript, in order.
    pub fn absorb_values(&self) -> (r: Vec<Scalar>)
        ensures
            vals(r@) == self.absorb_seq(),
    {
        accumulator_values(&self.trace.u, &self.betas, &self.e)
    }

    /// Absorbs the accumulator's instance, every `β`, then `e`.
    pub fn absorb_into<R: ROTrait>(&self, ro: &mut Transcript<R>)
        ensures
            final(ro).ops() == old(ro).ops() + absorbs(self.absorb_seq()),
    {
        let v = self.absorb_values();
        absorb_all(ro, &v);
    }
}

fn accumulator_values(ins: &PlonkInstance, betas: &Vec<Scalar>, e: &Scalar) -> (r: Vec<Scalar>)
    ensures
        vals(r@) == accumulator_absorb_seq(*ins, vals(betas@), e.val()),
{
    let mut out = ins.absorb_values();
    push_all(&mut out, betas);
    let ghost before = vals(out@);
    out.push(*e);
    proof {
        assert(vals(out@) =~= before.push(e.val()));
        assert(vals(out@) =~= accumulator_absorb_seq(*ins, vals(betas@), e.val()));
    }
    out
}

/// What the verifier sees of an accumulator: its instance, `β` and `e`.
#[derive(Clone, Debug, PartialEq, Eq)]
pub struct AccumulatorInstance {
    pub ins: PlonkInstance,
    pub betas: Vec<Scalar>,
    pub e: Scalar,
}

impl AccumulatorInstance {
    /// Drops the witness of an accumulator.
    pub fn from(value: Accumulator) -> (r: AccumulatorInstance)
        ensures
            r.ins == value.trace.u,
            r.betas == value.betas,
            r.e == value.e,
    {
        let Accumulator { trace, betas, e } = value;
        AccumulatorInstance { ins: trace.u, betas, e }
    }

    pub open spec fn absorb_seq(&self) -> Seq<int> {
        accumulator_absorb_seq(self.ins, vals(self.betas@), self.e.val())
    }

    /// The values this accumulator contributes to a transcript, in order.
    pub fn absorb_values(&self) -> (r: Vec<Scalar>)
        ensures
            vals(r@) == self.absorb_seq(),
    {
        accumulator_values(&self.ins, &self.betas, &self.e)
    }

    /// Absorbs the instance, every `β`, then `e`.
    pub fn absorb_into<R: ROTrait>(&self, ro: &mut Transcript<R>)
        ensures
            final(ro).ops() == old(ro).ops() + absorbs(self.absorb_seq()),
    {
        let v = self.absorb_values();
        absorb_all(ro, &v);
    }
}

} // verus!
