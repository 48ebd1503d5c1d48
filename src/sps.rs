//! Special-soundness check of an incoming instance: each per-round challenge
//! must be the one the transcript yields after that round's commitment.
use crate::field::Scalar;
use crate::plonk::{
    absorb_all, absorbs, flatten, nested_vals, PlonkInstance, ROTrait, RoOp, Transcript,
};
use vstd::prelude::*;

verus! {

/// The width, in bits, of a per-round challenge.
pub const NUM_CHALLENGE_BITS: usize = 128;

#[derive(Clone, Copy, Debug, PartialEq, Eq)]
pub enum Error {
    ChallengeNotMatch { challenge_index: usize },
}

/// Each round replayed: absorb its commitment's coordinates, then squeeze a
/// challenge of `NUM_CHALLENGE_BITS` bits, which came out as `expected[i]`.
pub open spec fn sps_rounds(points: Seq<(int, int)>, expected: Seq<int>) -> Seq<RoOp>
    decreases expected.len(),
{
    if expected.len() == 0 {
        Seq::empty()
    } else {
        let i = expected.len() - 1;
        sps_rounds(points, expected.drop_last()) + seq![
            RoOp::Absorb(points[i].0),
            RoOp::Absorb(points[i].1),
            RoOp::SqueezeBits(NUM_CHALLENGE_BITS as nat, expected[i]),
        ]
    }
}

/// The calls of the check of one instance: every public input, then the
/// rounds replayed.
pub open spec fn sps_ops(points: Seq<(int, int)>, instances: Seq<Seq<int>>, expected: Seq<int>) -> Seq<
    RoOp,
> {
    absorbs(flatten(instances)) + sps_rounds(points, expected)
}

/// The result agrees with the challenges squeezed: `Ok` where every round
/// squeezed its recorded challenge, else the error of the first round that
/// did not, which is the last round replayed.
pub open spec fn sps_outcome(expected: Seq<int>, challenges: Seq<int>, r: Result<(), Error>) -> bool {
    match r {
        Ok(()) => expected == challenges,
        Err(Error::ChallengeNotMatch { challenge_index: i }) => {
            &&& expected.len() == i + 1
            &&& i < challenges.len()
            &&& expected[i as int] != challenges[i as int]
            &&& forall|j: int| 0 <= j < i ==> expected[j] == challenges[j]
        },
    }
}

/// Absorbs every public input of `instances`, vector after vector.
pub fn absorb_nested<R: ROTrait>(ro: &mut Transcript<R>, instances: &Vec<Vec<Scalar>>)
    ensures
        final(ro).ops() == old(ro).ops() + absorbs(flatten(nested_vals(instances@))),
{
    let mut i: usize = 0;
    while i < instances.len()
        invariant
            i <= instances@.len(),
            ro.ops() == old(ro).ops() + absorbs(flatten(nested_vals(instances@).take(i as int))),
        decreases instances@.len() - i,
    {
        absorb_all(ro, &instances[i]);
        proof {
            let t = nested_vals(instances@).take(i + 1);
            assert(t.drop_last() =~= nested_vals(instances@).take(i as int));
            assert(absorbs(flatten(t)) =~= absorbs(flatten(t.drop_last())) + absorbs(t.last()));
        }
        i = i + 1;
        assert(ro.ops() =~= old(ro).ops() + absorbs(flatten(nested_vals(instances@).take(i as int))));
    }
    assert(nested_vals(instances@).take(i as int) =~= nested_vals(instances@));
}

impl PlonkInstance {
    /// Replays the rounds of the protocol: absorbs the public inputs, then for
    /// each round absorbs its commitment and squeezes a challenge of
    /// `NUM_CHALLENGE_BITS` bits, which must equal the recorded one. Stops at
    /// the first round that differs. Without challenges, the transcript is
    /// left untouched.
    pub fn sps_verify<R: ROTrait>(&self, ro_nark: &mut Transcript<R>) -> (r: Result<(), Error>)
        requires
            self.challenges@.len() <= self.W_commitments@.len(),
        ensures
            self.challenges@.len() == 0 ==> r is Ok && final(ro_nark).ops() == old(ro_nark).ops(),
            self.challenges@.len() > 0 ==> exists|expected: Seq<int>|
                {
                    &&& final(ro_nark).ops() == old(ro_nark).ops() + sps_ops(
                        self.points(),
                        self.instances_view(),
                        expected,
                    )
                    &&& sps_outcome(expected, self.challenges_view(), r)
                },
    {
        let num_challenges = self.challenges.len();
        if num_challenges == 0 {
            return Ok(());
        }
        absorb_nested(ro_nark, &self.instances);
        let ghost start = ro_nark.ops();
        let ghost mut expected: Seq<int> = Seq::empty();
        let mut i: usize = 0;
        while i < num_challenges
            invariant
                i <= num_challenges,
                num_challenges == self.challenges@.len(),
                num_challenges <= self.W_commitments@.len(),
                start == old(ro_nark).ops() + absorbs(flatten(self.instances_view())),
                expected.len() == i,
                expected == self.challenges_view().take(i as int),
                ro_nark.ops() == start + sps_rounds(self.points(), expected),
            decreases num_challenges - i,
        {
            let point = self.W_commitments[i];
            ro_nark.absorb_field(&point.x);
            ro_nark.absorb_field(&point.y);
            let squeezed = ro_nark.squeeze_bits(NUM_CHALLENGE_BITS);
            let ghost prev = expected;
            proof {
                expected = expected.push(squeezed.val());
                assert(expected.drop_last() =~= prev);
                assert(self.points()[i as int] == point.view());
                assert(ro_nark.ops() =~= start + sps_rounds(self.points(), expected));
            }
            if !squeezed.eq_val(&self.challenges[i]) {
                proof {
                    assert forall|j: int| 0 <= j < i implies expected[j] == self.challenges_view()[j] by {
                        assert(prev[j] == self.challenges_view().take(i as int)[j]);
                    }
                    assert(ro_nark.ops() =~= old(ro_nark).ops() + sps_ops(
                        self.points(),
                        self.instances_view(),
                        expected,
                    ));
                }
                let r = Err(Error::ChallengeNotMatch { challenge_index: i });
            assert(sps_outcome(expected, self.challenges_view(), r));
            return r;
            }
            proof {
                assert(expected =~= self.challenges_view().take(i + 1));
            }
            i = i + 1;
        }
        assert(expected =~= self.challenges_view());
        assert(ro_nark.ops() =~= old(ro_nark).ops() + sps_ops(
            self.points(),
            self.instances_view(),
            expected,
        ));
        assert(sps_outcome(expected, self.challenges_view(), Ok(())));
        Ok(())
    }
}

} // verus!
