//! PLONK instances, their absorption into a random-oracle transcript, and the
//! transcript interface the verifier drives.
use crate::field::{vals, Scalar};
use vstd::prelude::*;

verus! {

/// A commitment point, by its affine coordinates in the circuit's field; the
/// point at infinity is `(0, 0)`.
#[derive(Clone, Copy, Debug, PartialEq, Eq)]
pub struct Point {
    pub x: Scalar,
    pub y: Scalar,
}

impl Point {
    pub open spec fn view(&self) -> (int, int) {
        (self.x.val(), self.y.val())
    }

    /// The point at infinity.
    pub fn identity() -> (r: Point)
        ensures
            r.view() == (0int, 0int),
    {
        Point { x: Scalar::zero(), y: Scalar::zero() }
    }
}

/// The coordinates of points, `x` before `y`, point after point.
pub open spec fn flatten_points(ps: Seq<(int, int)>) -> Seq<int>
    decreases ps.len(),
{
    if ps.len() == 0 {
        Seq::empty()
    } else {
        flatten_points(ps.drop_last()) + seq![ps.last().0, ps.last().1]
    }
}

/// The concatenation of a sequence of sequences.
pub open spec fn flatten(s: Seq<Seq<int>>) -> Seq<int>
    decreases s.len(),
{
    if s.len() == 0 {
        Seq::empty()
    } else {
        flatten(s.drop_last()) + s.last()
    }
}

/// The values of an instance in the order they enter the transcript: the
/// commitments, then every public input, then the per-round challenges.
pub open spec fn instance_absorb_seq(
    points: Seq<(int, int)>,
    instances: Seq<Seq<int>>,
    challenges: Seq<int>,
) -> Seq<int> {
    flatten_points(points) + flatten(instances) + challenges
}

pub open spec fn points_view(ps: Seq<Point>) -> Seq<(int, int)> {
    ps.map_values(|p: Point| p.view())
}

pub open spec fn nested_vals(vv: Seq<Vec<Scalar>>) -> Seq<Seq<int>> {
    vv.map_values(|v: Vec<Scalar>| vals(v@))
}

/// The public part of a PLONK trace: one commitment and one challenge per
/// round, and the public inputs.
#[allow(non_snake_case)]
#[derive(Clone, Debug, PartialEq, Eq)]
pub struct PlonkInstance {
    pub W_commitments: Vec<Point>,
    pub instances: Vec<Vec<Scalar>>,
    pub challenges: Vec<Scalar>,
}

impl PlonkInstance {
    pub open spec fn points(&self) -> Seq<(int, int)> {
        points_view(self.W_commitments@)
    }

    pub open spec fn instances_view(&self) -> Seq<Seq<int>> {
        nested_vals(self.instances@)
    }

    pub open spec fn challenges_view(&self) -> Seq<int> {
        vals(self.challenges@)
    }

    pub open spec fn absorb_seq(&self) -> Seq<int> {
        instance_absorb_seq(self.points(), self.instances_view(), self.challenges_view())
    }

    /// The values this instance contributes to a transcript, in order.
    pub fn absorb_values(&self) -> (r: Vec<Scalar>)
        ensures
            vals(r@) == self.absorb_seq(),
    {
        let mut out: Vec<Scalar> = Vec::new();
        push_points(&mut out, &self.W_commitments);
        push_nested(&mut out, &self.instances);
        push_all(&mut out, &self.challenges);
        assert(vals(out@) =~= self.absorb_seq());
        out
    }
}

pub proof fn lemma_vals_push(s: Seq<Scalar>, x: Scalar)
    ensures
        vals(s.push(x)) == vals(s).push(x.val()),
{
    assert(vals(s.push(x)) =~= vals(s).push(x.val()));
}

/// Appends every value of `v`.
pub fn push_all(out: &mut Vec<Scalar>, v: &Vec<Scalar>)
    ensures
        vals(final(out)@) == vals(old(out)@) + vals(v@),
{
    let ghost start = vals(out@);
    let mut i: usize = 0;
    while i < v.len()
        invariant
            i <= v@.len(),
            vals(out@) == start + vals(v@).take(i as int),
        decreases v@.len() - i,
    {
        proof {
            lemma_vals_push(out@, v@[i as int]);
            assert(vals(v@).take(i + 1) =~= vals(v@).take(i as int).push(v@[i as int].val()));
        }
        out.push(v[i]);
        i = i + 1;
    }
    assert(vals(v@).take(i as int) =~= vals(v@));
}

/// Appends every value of every vector of `vv`, in order.
pub fn push_nested(out: &mut Vec<Scalar>, vv: &Vec<Vec<Scalar>>)
    ensures
        vals(final(out)@) == vals(old(out)@) + flatten(nested_vals(vv@)),
{
    let ghost start = vals(out@);
    let mut i: usize = 0;
    while i < vv.len()
        invariant
            i <= vv@.len(),
            vals(out@) == start + flatten(nested_vals(vv@).take(i as int)),
        decreases vv@.len() - i,
    {
        push_all(out, &vv[i]);
        proof {
            let t = nested_vals(vv@).take(i + 1);
            assert(t.drop_last() =~= nested_vals(vv@).take(i as int));
            assert(vals(out@) =~= start + flatten(t));
        }
        i = i + 1;
    }
    assert(nested_vals(vv@).take(i as int) =~= nested_vals(vv@));
}

/// Appends the coordinates of every point, in order.
pub fn push_points(out: &mut Vec<Scalar>, ps: &Vec<Point>)
    ensures
        vals(final(out)@) == vals(old(out)@) + flatten_points(points_view(ps@)),
{
    let ghost start = vals(out@);
    let mut i: usize = 0;
    while i < ps.len()
        invariant
            i <= ps@.len(),
            vals(out@) == start + flatten_points(points_view(ps@).take(i as int)),
        decreases ps@.len() - i,
    {
        let p = ps[i];
        proof {
            lemma_vals_push(out@, p.x);
            lemma_vals_push(out@.push(p.x), p.y);
        }
        out.push(p.x);
        out.push(p.y);
        proof {
            let t = points_view(ps@).take(i + 1);
            assert(t.drop_last() =~= points_view(ps@).take(i as int));
            assert(vals(out@) =~= start + flatten_points(t));
        }
        i = i + 1;
    }
    assert(points_view(ps@).take(i as int) =~= points_view(ps@));
}

/// A random-oracle transcript: values are absorbed in order, and challenges
/// are squeezed from everything absorbed so far. Implemented by the users of
/// the library (a Poseidon sponge, off or in circuit).
pub trait ROTrait {
    fn absorb_field(&mut self, value: &Scalar);

    /// A full field element.
    fn squeeze(&mut self) -> Scalar;

    /// A challenge truncated to its lowest `num_bits` bits.
    fn squeeze_bits(&mut self, num_bits: usize) -> Scalar;
}

/// One call made on a transcript, with the value it took or gave.
pub enum RoOp {
    Absorb(int),
    Squeeze(int),
    SqueezeBits(nat, int),
}

/// Absorbing each value of `s`, in order.
pub open spec fn absorbs(s: Seq<int>) -> Seq<RoOp> {
    s.map_values(|v: int| RoOp::Absorb(v))
}

/// A transcript together with the log of every call made on it through the
/// library, in order.
pub struct Transcript<R: ROTrait> {
    pub ro: R,
    pub log: Ghost<Seq<RoOp>>,
}

impl<R: ROTrait> Transcript<R> {
    pub open spec fn ops(&self) -> Seq<RoOp> {
        self.log@
    }

    /// Starts a log on `ro`.
    pub fn new(ro: R) -> (r: Transcript<R>)
        ensures
            r.ops() == Seq::<RoOp>::empty(),
    {
        Transcript { ro, log: Ghost(Seq::empty()) }
    }

    /// The transcript itself, to hand back to its owner.
    pub fn into_inner(self) -> R {
        self.ro
    }

    pub fn absorb_field(&mut self, value: &Scalar)
        ensures
            final(self).ops() == old(self).ops().push(RoOp::Absorb(value.val())),
    {
        self.ro.absorb_field(value);
        self.log = Ghost(self.log@.push(RoOp::Absorb(value.val())));
    }

    pub fn squeeze(&mut self) -> (r: Scalar)
        ensures
            final(self).ops() == old(self).ops().push(RoOp::Squeeze(r.val())),
    {
        let r = self.ro.squeeze();
        self.log = Ghost(self.log@.push(RoOp::Squeeze(r.val())));
        r
    }

    pub fn squeeze_bits(&mut self, num_bits: usize) -> (r: Scalar)
        ensures
            final(self).ops() == old(self).ops().push(RoOp::SqueezeBits(num_bits as nat, r.val())),
    {
        let r = self.ro.squeeze_bits(num_bits);
        self.log = Ghost(self.log@.push(RoOp::SqueezeBits(num_bits as nat, r.val())));
        r
    }
}

/// Absorbs every value of `values`, in order.
pub fn absorb_all<R: ROTrait>(ro: &mut Transcript<R>, values: &Vec<Scalar>)
    ensures
        final(ro).ops() == old(ro).ops() + absorbs(vals(values@)),
{
    let mut i: usize = 0;
    while i < values.len()
        invariant
            i <= values@.len(),
            ro.ops() == old(ro).ops() + absorbs(vals(values@).take(i as int)),
        decreases values@.len() - i,
    {
        ro.absorb_field(&values[i]);
        proof {
            assert(absorbs(vals(values@).take(i + 1)) =~= absorbs(vals(values@).take(i as int)).push(
                RoOp::Absorb(values@[i as int].val()),
            ));
        }
        i = i + 1;
        assert(ro.ops() =~= old(ro).ops() + absorbs(vals(values@).take(i as int)));
    }
    assert(vals(values@).take(i as int) =~= vals(values@));
}

} // verus!
