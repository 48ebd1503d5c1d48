//! A region of a PLONK main gate, modelled as an append-only log of assigned
//! cells, and the main-gate operations that the in-circuit verifier builds on.
use crate::field::{fadd, finv, fmul, lemma_finv_zero, Scalar};
use vstd::prelude::*;

verus! {

/// `new` holds every cell of `old`, in place, and possibly more after them.
pub open spec fn extends(new: Seq<Scalar>, old: Seq<Scalar>) -> bool {
    old.len() <= new.len() && forall|i: int| 0 <= i < old.len() ==> new[i] == old[i]
}

/// A gate could not be laid out, such as the result row of a polynomial
/// without coefficients.
#[derive(Clone, Copy, Debug, PartialEq, Eq)]
pub struct SynthesisError;

/// A cell assigned in a region, with the value it holds.
#[derive(Clone, Copy, Debug, PartialEq, Eq)]
pub struct AssignedValue {
    pub cell: usize,
    pub value: Scalar,
}

impl AssignedValue {
    pub fn value(&self) -> (r: Scalar)
        ensures
            r == self.value,
    {
        self.value
    }
}

/// The values held by a sequence of cells.
pub open spec fn cell_vals(s: Seq<AssignedValue>) -> Seq<int> {
    s.map_values(|c: AssignedValue| c.value.val())
}

/// An exclusive cursor into a region: the cells assigned so far, in order of
/// assignment, and the current row.
pub struct RegionCtx {
    pub cells: Vec<Scalar>,
    pub offset: usize,
}

impl RegionCtx {
    /// `a` is a cell of this region, holding its value.
    pub open spec fn holds(&self, a: AssignedValue) -> bool {
        a.cell < self.cells@.len() && self.cells@[a.cell as int] == a.value
    }

    /// Every cell of `s` is a cell of this region, holding its value.
    pub open spec fn holds_all(&self, s: Seq<AssignedValue>) -> bool {
        forall|i: int| 0 <= i < s.len() ==> self.holds(#[trigger] s[i])
    }

    pub fn new() -> (r: RegionCtx)
        ensures
            r.cells@.len() == 0,
            r.offset == 0,
    {
        RegionCtx { cells: Vec::new(), offset: 0 }
    }

    /// Moves the cursor to the next row.
    pub fn next(&mut self)
        ensures
            final(self).cells@ == old(self).cells@,
            final(self).offset == if old(self).offset < usize::MAX {
                old(self).offset + 1
            } else {
                old(self).offset as int
            },
    {
        if self.offset < usize::MAX {
            self.offset = self.offset + 1;
        }
    }

    /// Assigns a fresh advice cell holding `value`.
    pub fn assign_advice(&mut self, value: Scalar) -> (r: AssignedValue)
        ensures
            final(self).cells@ == old(self).cells@.push(value),
            final(self).offset == old(self).offset,
            r.cell == old(self).cells@.len(),
            r.value == value,
            final(self).holds(r),
    {
        let cell = self.cells.len();
        self.cells.push(value);
        AssignedValue { cell, value }
    }
}

/// The main gate: each operation assigns its result in a fresh cell.
pub struct MainGate;

impl MainGate {
    pub fn new() -> (r: MainGate) {
        MainGate
    }

    /// `a · b`
    pub fn mul(&self, region: &mut RegionCtx, a: &AssignedValue, b: &AssignedValue) -> (r:
        AssignedValue)
        ensures
            r.value.val() == fmul(a.value.val(), b.value.val()),
            final(region).cells@ == old(region).cells@.push(r.value),
            final(region).offset == old(region).offset,
            final(region).holds(r),
    {
        region.assign_advice(a.value.mul(&b.value))
    }

    /// `a + b`
    pub fn add(&self, region: &mut RegionCtx, a: &AssignedValue, b: &AssignedValue) -> (r:
        AssignedValue)
        ensures
            r.value.val() == fadd(a.value.val(), b.value.val()),
            final(region).cells@ == old(region).cells@.push(r.value),
            final(region).offset == old(region).offset,
            final(region).holds(r),
    {
        region.assign_advice(a.value.add(&b.value))
    }

    /// `a + c` for a constant `c`.
    pub fn add_with_const(&self, region: &mut RegionCtx, a: &AssignedValue, c: &Scalar) -> (r:
        AssignedValue)
        ensures
            r.value.val() == fadd(a.value.val(), c.val()),
            final(region).cells@ == old(region).cells@.push(r.value),
            final(region).offset == old(region).offset,
            final(region).holds(r),
    {
        region.assign_advice(a.value.add(c))
    }

    /// `a · c` for a constant `c`.
    pub fn mul_by_const(&self, region: &mut RegionCtx, a: &AssignedValue, c: &Scalar) -> (r:
        AssignedValue)
        ensures
            r.value.val() == fmul(a.value.val(), c.val()),
            final(region).cells@ == old(region).cells@.push(r.value),
            final(region).offset == old(region).offset,
            final(region).holds(r),
    {
        region.assign_advice(a.value.mul(c))
    }

    /// `1` where `a` is zero, else `0`.
    pub fn is_zero_term(&self, region: &mut RegionCtx, a: &AssignedValue) -> (r: AssignedValue)
        ensures
            r.value.val() == if a.value.val() == 0 {
                1int
            } else {
                0
            },
            final(region).cells@ == old(region).cells@.push(r.value),
            final(region).offset == old(region).offset,
            final(region).holds(r),
    {
        let flag = if a.value.is_zero() {
            Scalar::one()
        } else {
            Scalar::zero()
        };
        region.assign_advice(flag)
    }

    /// The flag of `is_zero_term` and the inverse of `a`, zero where `a` is.
    pub fn invert_with_flag(&self, region: &mut RegionCtx, a: &AssignedValue) -> (r: (
        AssignedValue,
        AssignedValue,
    ))
        ensures
            r.0.value.val() == if a.value.val() == 0 {
                1int
            } else {
                0
            },
            r.1.value.val() == finv(a.value.val()),
            final(region).cells@ == old(region).cells@.push(r.0.value).push(r.1.value),
            final(region).offset == old(region).offset,
            final(region).holds(r.0),
            final(region).holds(r.1),
    {
        let inv = match a.value.invert() {
            Some(v) => v,
            None => {
                proof {
                    lemma_finv_zero();
                }
                Scalar::zero()
            },
        };
        let flag = self.is_zero_term(region, a);
        let inv_cell = region.assign_advice(inv);
        (flag, inv_cell)
    }

    /// `a` where `cond` is one, `b` where it is zero.
    pub fn conditional_select(
        &self,
        region: &mut RegionCtx,
        a: &AssignedValue,
        b: &AssignedValue,
        cond: &AssignedValue,
    ) -> (r: AssignedValue)
        requires
            cond.value.val() == 0 || cond.value.val() == 1,
        ensures
            r.value == if cond.value.val() == 1 {
                a.value
            } else {
                b.value
            },
            final(region).cells@ == old(region).cells@.push(r.value),
            final(region).offset == old(region).offset,
            final(region).holds(r),
    {
        let v = if cond.value.is_zero() {
            b.value
        } else {
            a.value
        };
        region.assign_advice(v)
    }
}

} // verus!
