//! The folded witness: at each point `X` of the domain of `G`, the virtual
//! trace `Σ_j L_j(X) · w_j` of the accumulator (`j = 0`) and the incoming
//! traces, read cell by cell without building it.
use crate::accumulator::PlonkTrace;
use crate::field::{vals, Scalar};
use crate::lagrange::iter_eval_lagrange_poly_for_cyclic_group;
use crate::plonk::nested_vals;
use crate::protogalaxy::{fold_one, fold_value, lagrange_values};
use vstd::arithmetic::power2::pow2;
use vstd::prelude::*;

verus! {

/// Every incoming trace has the accumulator's witness and challenge shape.
pub open spec fn same_trace_shape(accumulator: PlonkTrace, traces: Seq<PlonkTrace>) -> bool {
    forall|j: int|
        0 <= j < traces.len() ==> {
            &&& (#[trigger] traces[j]).w.W@.len() == accumulator.w.W@.len()
            &&& forall|r: int|
                0 <= r < accumulator.w.W@.len() ==> (#[trigger] traces[j].w.W@[r])@.len()
                    == accumulator.w.W@[r]@.len()
            &&& traces[j].u.challenges@.len() == accumulator.u.challenges@.len()
        }
}

/// The folded witness over a set of points.
pub struct FoldedWitness {
    /// `L_0(X), …, L_L(X)` for each point `X`.
    pub lagrange: Vec<Vec<Scalar>>,
    pub accumulator: PlonkTrace,
    pub traces: Vec<PlonkTrace>,
}

impl FoldedWitness {
    pub open spec fn wf(&self) -> bool {
        &&& same_trace_shape(self.accumulator, self.traces@)
        &&& forall|p: int|
            0 <= p < self.lagrange@.len() ==> (#[trigger] self.lagrange@[p])@.len()
                == self.traces@.len() + 1
    }

    /// Takes the accumulator and the traces, and precomputes the Lagrange
    /// values of every point over the domain of order `2^lagrange_domain`,
    /// one element for the accumulator and one for each trace.
    pub fn new(
        points: &Vec<Scalar>,
        lagrange_domain: u32,
        accumulator: PlonkTrace,
        traces: Vec<PlonkTrace>,
    ) -> (r: FoldedWitness)
        requires
            lagrange_domain <= 28,
            pow2(lagrange_domain as nat) == traces@.len() + 1,
            same_trace_shape(accumulator, traces@),
        ensures
            r.wf(),
            r.accumulator == accumulator,
            r.traces@ == traces@,
            r.lagrange@.len() == points@.len(),
            forall|p: int|
                0 <= p < points@.len() ==> vals((#[trigger] r.lagrange@[p])@) == lagrange_values(
                    lagrange_domain as nat,
                    points@[p].val(),
                ),
    {
        let mut lagrange: Vec<Vec<Scalar>> = Vec::new();
        let mut p: usize = 0;
        while p < points.len()
            invariant
                p <= points@.len(),
                lagrange_domain <= 28,
                pow2(lagrange_domain as nat) == traces@.len() + 1,
                lagrange@.len() == p,
                forall|i: int| 0 <= i < p ==> (#[trigger] lagrange@[i])@.len() == traces@.len() + 1,
                forall|i: int|
                    0 <= i < p ==> vals((#[trigger] lagrange@[i])@) == lagrange_values(
                        lagrange_domain as nat,
                        points@[i].val(),
                    ),
            decreases points@.len() - p,
        {
            let ls = iter_eval_lagrange_poly_for_cyclic_group(&points[p], lagrange_domain);
            assert(vals(ls@) =~= lagrange_values(lagrange_domain as nat, points@[p as int].val()));
            lagrange.push(ls);
            p = p + 1;
        }
        FoldedWitness { lagrange, accumulator, traces }
    }

    /// Cell `index` of round `round` of the folded witness at point `point`:
    /// `L_0(X) · w_0 + Σ_j L_(j+1)(X) · w_(j+1)`.
    pub fn witness(&self, point: usize, round: usize, index: usize) -> (r: Scalar)
        requires
            self.wf(),
            point < self.lagrange@.len(),
            round < self.accumulator.w.W@.len(),
            index < self.accumulator.w.W@[round as int]@.len(),
        ensures
            r.val() == fold_value(
                self.accumulator.w.W@[round as int]@[index as int].val(),
                Seq::new(
                    self.traces@.len(),
                    |j: int| nested_vals(self.traces@[j].w.W@)[round as int][index as int],
                ),
                vals(self.lagrange@[point as int]@),
                self.traces@.len(),
            ),
    {
        let mut column: Vec<Scalar> = Vec::new();
        let mut j: usize = 0;
        while j < self.traces.len()
            invariant
                self.wf(),
                j <= self.traces@.len(),
                round < self.accumulator.w.W@.len(),
                index < self.accumulator.w.W@[round as int]@.len(),
                column@.len() == j,
                forall|i: int|
                    0 <= i < j ==> (#[trigger] column@[i]).val() == nested_vals(
                        self.traces@[i].w.W@,
                    )[round as int][index as int],
            decreases self.traces@.len() - j,
        {
            let t = &self.traces[j];
            assert(t.w.W@[round as int]@.len() == self.accumulator.w.W@[round as int]@.len());
            column.push(t.w.W[round][index]);
            j = j + 1;
        }
        assert(vals(column@) =~= Seq::new(
            self.traces@.len(),
            |j: int| nested_vals(self.traces@[j].w.W@)[round as int][index as int],
        ));
        fold_one(&self.accumulator.w.W[round][index], &column, &self.lagrange[point])
    }

    /// Challenge `i` of the folded trace at point `point`, folded as the
    /// witness is.
    pub fn challenge(&self, point: usize, i: usize) -> (r: Scalar)
        requires
            self.wf(),
            point < self.lagrange@.len(),
            i < self.accumulator.u.challenges@.len(),
        ensures
            r.val() == fold_value(
                self.accumulator.u.challenges@[i as int].val(),
                Seq::new(self.traces@.len(), |j: int| vals(self.traces@[j].u.challenges@)[i as int]),
                vals(self.lagrange@[point as int]@),
                self.traces@.len(),
            ),
    {
        let mut column: Vec<Scalar> = Vec::new();
        let mut j: usize = 0;
        while j < self.traces.len()
            invariant
                self.wf(),
                j <= self.traces@.len(),
                i < self.accumulator.u.challenges@.len(),
                column@.len() == j,
                forall|k: int|
                    0 <= k < j ==> (#[trigger] column@[k]).val() == vals(
                        self.traces@[k].u.challenges@,
                    )[i as int],
            decreases self.traces@.len() - j,
        {
            let t = &self.traces[j];
            assert(t.u.challenges@.len() == self.accumulator.u.challenges@.len());
            column.push(t.u.challenges[i]);
            j = j + 1;
        }
        assert(vals(column@) =~= Seq::new(
            self.traces@.len(),
            |j: int| vals(self.traces@[j].u.challenges@)[i as int],
        ));
        fold_one(&self.accumulator.u.challenges[i], &column, &self.lagrange[point])
    }
}

} // verus!
