//! A planar chain of rigid segments anchored at the origin.
use vstd::prelude::*;
use crate::ieee::{less_than, lt, ZERO};
use crate::ccd::{decide, step_for, Reading, Step, MAX_ITERATIONS};

verus! {

/// A 2D point, each coordinate as binary32 bits.
pub type Point = (u32, u32);

/// Running state of forward kinematics: cumulative angle, x, y (binary32 bits).
pub type Pose = (u32, u32, u32);

/// A joint angle relative to the previous segment, and a segment length
/// (binary32 bits, radians and length units).
pub type Segment = (u32, u32);

#[derive(Clone, Copy, PartialEq, Eq, Debug, Structural)]
pub enum ArmError {
    /// A segment length below zero was supplied.
    NegativeLength,
}

/// An ordered chain of segments from the base (fixed at the origin) to the tip.
pub struct Arm {
    segments: Vec<Segment>,
}

pub open spec fn negative(length: u32) -> bool {
    lt(length, ZERO)
}

pub open spec fn any_negative(lengths: Seq<u32>) -> bool {
    exists|i: int| 0 <= i < lengths.len() && negative(#[trigger] lengths[i])
}

pub open spec fn lengths_of(s: Seq<Segment>) -> Seq<u32> {
    s.map_values(|g: Segment| g.1)
}

/// The chain that `new` builds: every angle zero.
pub open spec fn rest_pose(lengths: Seq<u32>) -> Seq<Segment> {
    lengths.map_values(|l: u32| (0u32, l))
}

/// The same chain with every angle set back to zero.
pub open spec fn at_rest(s: Seq<Segment>) -> Seq<Segment> {
    s.map_values(|g: Segment| (0u32, g.1))
}

/// `poses` is a run of forward kinematics over `segments`: it starts at the
/// origin with angle zero, and each pose is an outcome of `advance` on the
/// one before and the next segment.
pub open spec fn traced<F: Fn(Pose, Segment) -> Pose>(
    advance: F,
    segments: Seq<Segment>,
    poses: Seq<Pose>,
) -> bool {
    &&& poses.len() == segments.len() + 1
    &&& poses[0] == (0u32, 0u32, 0u32)
    &&& forall|k: int|
        0 <= k < segments.len() ==> advance.ensures((poses[k], segments[k]), #[trigger] poses[k + 1])
}

pub open spec fn positions_of(poses: Seq<Pose>) -> Seq<Point> {
    poses.map_values(|p: Pose| (p.1, p.2))
}

/// `after` is `before` once `step` has been carried out at joint `i`: a turn
/// replaces the joint's angle by an outcome of `rotate` on the old angle and
/// the turn; stopping or holding leaves the chain as it was.
pub open spec fn applied<A: Fn(u32, u32) -> u32>(
    rotate: A,
    before: Seq<Segment>,
    i: int,
    step: Step,
    after: Seq<Segment>,
) -> bool {
    match step {
        Step::Turn(d) => exists|a: u32|
            rotate.ensures((before[i].0, d), a) && after == #[trigger] before.update(i, (a, before[i].1)),
        _ => after == before,
    }
}

/// `after` is what one sub-step at joint `i` may make of `before`: some run
/// of forward kinematics gives the positions, `measure` reads the pivot
/// (position `i`), the end effector and the target, and the step that
/// `decide` makes of the reading is carried out. `reached` says whether that
/// step was to stop.
pub open spec fn relaxed<F, M, A>(
    advance: F,
    measure: M,
    rotate: A,
    target: Point,
    before: Seq<Segment>,
    i: int,
    after: Seq<Segment>,
    reached: bool,
) -> bool where
    F: Fn(Pose, Segment) -> Pose,
    M: Fn(Point, Point, Point) -> Reading,
    A: Fn(u32, u32) -> u32,
{
    exists|poses: Seq<Pose>, r: Reading|
        #[trigger] traced(advance, before, poses)
        && measure.ensures(
            (positions_of(poses)[i], positions_of(poses)[before.len() as int], target),
            r,
        )
        && reached == (step_for(r) == Step::Reached)
        && applied(rotate, before, i, #[trigger] step_for(r), after)
}

/// `states` records `states.len() - 1` sub-steps on a chain of `n` joints:
/// sub-step `k` works on joint `k % n` and leads from `states[k]` to
/// `states[k + 1]`; none of them stopped, except the last one when
/// `reached` holds, in which case there is at least one.
pub open spec fn solve_run<F, M, A>(
    advance: F,
    measure: M,
    rotate: A,
    target: Point,
    n: int,
    states: Seq<Seq<Segment>>,
    reached: bool,
) -> bool where
    F: Fn(Pose, Segment) -> Pose,
    M: Fn(Point, Point, Point) -> Reading,
    A: Fn(u32, u32) -> u32,
{
    &&& states.len() >= 1
    &&& reached ==> states.len() >= 2
    &&& forall|k: int|
        0 <= k < states.len() - 1 ==> relaxed(
            advance,
            measure,
            rotate,
            target,
            states[k],
            k % n,
            #[trigger] states[k + 1],
            reached && k == states.len() - 2,
        )
}

impl View for Arm {
    type V = Seq<Segment>;

    closed spec fn view(&self) -> Seq<Segment> {
        self.segments@
    }
}

impl Arm {
    /// No segment has a negative length.
    pub open spec fn wf(&self) -> bool {
        !any_negative(lengths_of(self@))
    }

    /// A chain with the given lengths, base first, every angle zero.
    pub fn new(lengths: Vec<u32>) -> (r: Result<Arm, ArmError>)
        ensures
            r is Err <==> any_negative(lengths@),
            r matches Err(e) ==> e == ArmError::NegativeLength,
            r matches Ok(arm) ==> arm@ == rest_pose(lengths@) && arm.wf(),
    {
        let mut segments: Vec<Segment> = Vec::new();
        let mut i: usize = 0;
        while i < lengths.len()
            invariant
                i <= lengths.len(),
                segments@ == rest_pose(lengths@.take(i as int)),
                !any_negative(lengths@.take(i as int)),
            decreases lengths.len() - i,
        {
            if less_than(lengths[i], ZERO) {
                assert(negative(lengths@[i as int]));
                return Err(ArmError::NegativeLength);
            }
            segments.push((0, lengths[i]));
            i += 1;
            assert(lengths@.take(i as int) == lengths@.take(i - 1).push(lengths@[i - 1]));
            assert(segments@ =~= rest_pose(lengths@.take(i as int)));
        }
        assert(lengths@.take(i as int) == lengths@);
        let arm = Arm { segments };
        assert(lengths_of(arm@) =~= lengths@);
        Ok(arm)
    }

    /// Set every angle back to zero; lengths stay.
    pub fn reset(&mut self)
        ensures
            final(self)@ == at_rest(old(self)@),
    {
        let n = self.segments.len();
        let mut i: usize = 0;
        while i < n
            invariant
                n == old(self)@.len(),
                self@.len() == n,
                i <= n,
                forall|k: int| 0 <= k < i ==> self@[k] == (0u32, old(self)@[k].1),
                forall|k: int| i <= k < n ==> self@[k] == old(self)@[k],
            decreases n - i,
        {
            let length = self.segments[i].1;
            self.segments.set(i, (0, length));
            i += 1;
        }
        assert(self@ =~= at_rest(old(self)@));
    }

    /// The segments in order, base first.
    pub fn segments(&self) -> (r: &Vec<Segment>)
        ensures
            r@ == self@,
    {
        &self.segments
    }

    /// Append a segment at the tip with angle zero; a negative length is
    /// refused and leaves the chain as it was.
    pub fn push_segment(&mut self, length: u32) -> (r: Result<(), ArmError>)
        ensures
            r is Err <==> negative(length),
            r matches Err(e) ==> e == ArmError::NegativeLength && final(self)@ == old(self)@,
            r is Ok ==> final(self)@ == old(self)@.push((0u32, length)),
            old(self).wf() ==> final(self).wf(),
    {
        if less_than(length, ZERO) {
            return Err(ArmError::NegativeLength);
        }
        self.segments.push((0, length));
        proof {
            let before = lengths_of(old(self)@);
            let after = lengths_of(self@);
            assert(after =~= before.push(length));
            if any_negative(after) {
                let i = choose|i: int| 0 <= i < after.len() && negative(#[trigger] after[i]);
                assert(i < before.len() ==> before[i] == after[i]);
            }
        }
        Ok(())
    }

    /// Remove the segment at the tip; on an empty chain nothing happens.
    pub fn pop_segment(&mut self)
        ensures
            old(self)@.len() == 0 ==> final(self)@ == old(self)@,
            old(self)@.len() > 0 ==> final(self)@ == old(self)@.drop_last(),
            old(self).wf() ==> final(self).wf(),
    {
        self.segments.pop();
        proof {
            let before = lengths_of(old(self)@);
            let after = lengths_of(self@);
            if any_negative(after) {
                let i = choose|i: int| 0 <= i < after.len() && negative(#[trigger] after[i]);
                assert(before[i] == after[i]);
            }
        }
    }

    /// Joint positions from the base to the end effector. Each step of the
    /// running pose (add the joint angle to the cumulative angle, then move
    /// by the segment length along it) is `advance`.
    pub fn forward_kinematics<F: Fn(Pose, Segment) -> Pose>(&self, advance: &F) -> (r: Vec<Point>)
        requires
            forall|p: Pose, g: Segment| advance.requires((p, g)),
        ensures
            r@.len() == self@.len() + 1,
            r@[0] == (0u32, 0u32),
            exists|poses: Seq<Pose>| traced(*advance, self@, poses) && r@ == positions_of(poses),
    {
        let n = self.segments.len();
        let mut positions: Vec<Point> = Vec::new();
        positions.push((0, 0));
        let mut pose: Pose = (0, 0, 0);
        let ghost mut poses: Seq<Pose> = seq![(0u32, 0u32, 0u32)];
        let mut i: usize = 0;
        assert(positions@ =~= positions_of(poses));
        while i < n
            invariant
                n == self@.len(),
                i <= n,
                forall|p: Pose, g: Segment| advance.requires((p, g)),
                poses.len() == i + 1,
                poses[0] == (0u32, 0u32, 0u32),
                poses[i as int] == pose,
                forall|k: int|
                    0 <= k < i ==> advance.ensures((poses[k], self@[k]), #[trigger] poses[k + 1]),
                positions@ == positions_of(poses),
            decreases n - i,
        {
            pose = advance(pose, self.segments[i]);
            proof {
                poses = poses.push(pose);
            }
            positions.push((pose.1, pose.2));
            i += 1;
            assert(positions@ =~= positions_of(poses));
        }
        assert(traced(*advance, self@, poses));
        positions
    }

    /// One sub-step of cyclic coordinate descent at joint `i`: recompute the
    /// positions, let `measure` read the pivot (position `i`), the end
    /// effector and the target, and carry out what `decide` makes of the
    /// reading. Returns whether the end effector was found on target.
    pub fn relax_joint<F, M, A>(&mut self, i: usize, target: Point, advance: &F, measure: &M, rotate: &A) -> (reached: bool)
        where
            F: Fn(Pose, Segment) -> Pose,
            M: Fn(Point, Point, Point) -> Reading,
            A: Fn(u32, u32) -> u32,
        requires
            i < old(self)@.len(),
            forall|p: Pose, g: Segment| advance.requires((p, g)),
            forall|a: Point, b: Point, c: Point| measure.requires((a, b, c)),
            forall|a: u32, d: u32| rotate.requires((a, d)),
        ensures
            relaxed(*advance, *measure, *rotate, target, old(self)@, i as int, final(self)@, reached),
            final(self)@.len() == old(self)@.len(),
            forall|k: int| 0 <= k < old(self)@.len() ==> (#[trigger] final(self)@[k]).1 == old(self)@[k].1,
            forall|k: int| 0 <= k < old(self)@.len() && k != i ==> final(self)@[k] == old(self)@[k],
    {
        let n = self.segments.len();
        let positions = self.forward_kinematics(advance);
        let ghost poses = choose|poses: Seq<Pose>| traced(*advance, self@, poses) && positions@ == positions_of(poses);
        let reading = measure(positions[i], positions[n], target);
        let step = decide(reading);
        match step {
            Step::Turn(d) => {
                let (angle, length) = self.segments[i];
                let turned = rotate(angle, d);
                self.segments.set(i, (turned, length));
                assert(self@ == old(self)@.update(i as int, (turned, old(self)@[i as int].1)));
            },
            _ => {},
        }
        assert(applied(*rotate, old(self)@, i as int, step_for(reading), self@));
        assert(traced(*advance, old(self)@, poses));
        match step {
            Step::Reached => true,
            _ => false,
        }
    }

    /// Cyclic coordinate descent toward `target`: up to `MAX_ITERATIONS`
    /// passes, each visiting the joints from base to tip with `relax_joint`,
    /// and the whole solve stops at the first sub-step that finds the end
    /// effector on target. Only angles change; lengths and the number of
    /// segments never do, and an empty chain is left as it is.
    pub fn inverse_kinematics<F, M, A>(&mut self, target: Point, advance: &F, measure: &M, rotate: &A)
        where
            F: Fn(Pose, Segment) -> Pose,
            M: Fn(Point, Point, Point) -> Reading,
            A: Fn(u32, u32) -> u32,
        requires
            forall|p: Pose, g: Segment| advance.requires((p, g)),
            forall|a: Point, b: Point, c: Point| measure.requires((a, b, c)),
            forall|a: u32, d: u32| rotate.requires((a, d)),
        ensures
            exists|states: Seq<Seq<Segment>>, reached: bool|
                #[trigger] solve_run(*advance, *measure, *rotate, target, old(self)@.len() as int, states, reached)
                && states[0] == old(self)@
                && states.last() == final(self)@
                && states.len() - 1 <= MAX_ITERATIONS * old(self)@.len()
                && (!reached ==> states.len() - 1 == MAX_ITERATIONS * old(self)@.len()),
            final(self)@.len() == old(self)@.len(),
            lengths_of(final(self)@) == lengths_of(old(self)@),
            old(self)@.len() == 0 ==> final(self)@ == old(self)@,
            old(self).wf() ==> final(self).wf(),
    {
        let n = self.segments.len();
        let ghost mut states: Seq<Seq<Segment>> = seq![self@];
        let mut pass: usize = 0;
        while pass < MAX_ITERATIONS
            invariant
                n == old(self)@.len(),
                self@.len() == n,
                pass <= MAX_ITERATIONS,
                forall|k: int| 0 <= k < n ==> (#[trigger] self@[k]).1 == old(self)@[k].1,
                n == 0 ==> self@ == old(self)@,
                solve_run(*advance, *measure, *rotate, target, n as int, states, false),
                states[0] == old(self)@,
                states.last() == self@,
                states.len() - 1 == pass * n,
                forall|p: Pose, g: Segment| advance.requires((p, g)),
                forall|a: Point, b: Point, c: Point| measure.requires((a, b, c)),
                forall|a: u32, d: u32| rotate.requires((a, d)),
            decreases MAX_ITERATIONS - pass,
        {
            let mut i: usize = 0;
            while i < n
                invariant
                    n == old(self)@.len(),
                    self@.len() == n,
                    i <= n,
                    pass < MAX_ITERATIONS,
                    forall|k: int| 0 <= k < n ==> (#[trigger] self@[k]).1 == old(self)@[k].1,
                    solve_run(*advance, *measure, *rotate, target, n as int, states, false),
                    states[0] == old(self)@,
                    states.last() == self@,
                    states.len() - 1 == pass * n + i,
                    forall|p: Pose, g: Segment| advance.requires((p, g)),
                    forall|a: Point, b: Point, c: Point| measure.requires((a, b, c)),
                    forall|a: u32, d: u32| rotate.requires((a, d)),
                decreases n - i,
            {
                let ghost before = states;
                let reached = self.relax_joint(i, target, advance, measure, rotate);
                proof {
                    let k = before.len() - 1;
                    vstd::arithmetic::div_mod::lemma_fundamental_div_mod_converse(
                        k,
                        n as int,
                        pass as int,
                        i as int,
                    );
                    states = before.push(self@);
                    assert forall|j: int| 0 <= j < states.len() - 1 implies relaxed(
                        *advance,
                        *measure,
                        *rotate,
                        target,
                        states[j],
                        j % (n as int),
                        #[trigger] states[j + 1],
                        reached && j == states.len() - 2,
                    ) by {
                        if j < k {
                            assert(states[j] == before[j] && states[j + 1] == before[j + 1]);
                        } else {
                            assert(states[j] == before[k] && states[j + 1] == self@);
                        }
                    }
                    assert(solve_run(*advance, *measure, *rotate, target, n as int, states, reached));
                    assert(pass * n + i + 1 <= MAX_ITERATIONS * n) by (nonlinear_arith)
                        requires
                            pass < MAX_ITERATIONS,
                            i < n,
                    ;
                }
                if reached {
                    proof {
                        self.lemma_same_lengths(old(self)@);
                    }
                    return;
                }
                i += 1;
            }
            assert(pass * n + n == (pass + 1) * n) by (nonlinear_arith);
            pass += 1;
        }
        proof {
            self.lemma_same_lengths(old(self)@);
        }
    }

    proof fn lemma_same_lengths(&self, before: Seq<Segment>)
        requires
            self@.len() == before.len(),
            forall|k: int| 0 <= k < before.len() ==> (#[trigger] self@[k]).1 == before[k].1,
        ensures
            lengths_of(self@) == lengths_of(before),
            !any_negative(lengths_of(before)) ==> self.wf(),
    {
        assert(lengths_of(self@) =~= lengths_of(before));
    }
}

/// Resetting a chain leaves it exactly as `new` builds it from the same
/// lengths: every angle is zero and every length is kept, so forward
/// kinematics admits the same runs as on a freshly built chain, whatever
/// the chain went through before.
pub proof fn reset_gives_rest_pose<F: Fn(Pose, Segment) -> Pose>(advance: F, s: Seq<Segment>)
    ensures
        at_rest(s) == rest_pose(lengths_of(s)),
        lengths_of(at_rest(s)) == lengths_of(s),
        forall|k: int| 0 <= k < s.len() ==> (#[trigger] at_rest(s)[k]).0 == 0,
        forall|poses: Seq<Pose>|
            traced(advance, at_rest(s), poses) <==> traced(advance, rest_pose(lengths_of(s)), poses),
{
    assert(at_rest(s) =~= rest_pose(lengths_of(s)));
    assert(lengths_of(at_rest(s)) =~= lengths_of(s));
}

/// `advance` gives one outcome for each input.
pub open spec fn deterministic<F: Fn(Pose, Segment) -> Pose>(advance: F) -> bool {
    forall|p: Pose, g: Segment, a: Pose, b: Pose|
        advance.ensures((p, g), a) && advance.ensures((p, g), b) ==> a == b
}

/// With a deterministic step, forward kinematics on a given chain has one
/// outcome: every run over the same segments is the same run.
pub proof fn traced_is_unique<F: Fn(Pose, Segment) -> Pose>(
    advance: F,
    segments: Seq<Segment>,
    p: Seq<Pose>,
    q: Seq<Pose>,
)
    requires
        deterministic(advance),
        traced(advance, segments, p),
        traced(advance, segments, q),
    ensures
        p == q,
{
    assert forall|k: int| 0 <= k < p.len() implies p[k] == q[k] by {
        lemma_traced_prefix(advance, segments, p, q, k);
    }
    assert(p =~= q);
}

proof fn lemma_traced_prefix<F: Fn(Pose, Segment) -> Pose>(
    advance: F,
    segments: Seq<Segment>,
    p: Seq<Pose>,
    q: Seq<Pose>,
    k: int,
)
    requires
        deterministic(advance),
        traced(advance, segments, p),
        traced(advance, segments, q),
        0 <= k < p.len(),
    ensures
        p[k] == q[k],
    decreases k,
{
    if k > 0 {
        lemma_traced_prefix(advance, segments, p, q, k - 1);
        assert(advance.ensures((p[k - 1], segments[k - 1]), p[k - 1 + 1]));
        assert(advance.ensures((q[k - 1], segments[k - 1]), q[k - 1 + 1]));
    }
}

/// After a reset, and with a deterministic step, forward kinematics gives
/// exactly the positions it gives on a chain freshly built from the same
/// lengths, whatever the chain went through before.
pub proof fn reset_positions_match_fresh<F: Fn(Pose, Segment) -> Pose>(
    advance: F,
    before: Seq<Segment>,
    after_reset: Seq<Pose>,
    fresh: Seq<Pose>,
)
    requires
        deterministic(advance),
        traced(advance, at_rest(before), after_reset),
        traced(advance, rest_pose(lengths_of(before)), fresh),
    ensures
        positions_of(after_reset) == positions_of(fresh),
{
    reset_gives_rest_pose(advance, before);
    traced_is_unique(advance, rest_pose(lengths_of(before)), after_reset, fresh);
}

/// Over any number of solves, each keeping the lengths of the chain it
/// started from, every length stays what it was at the start.
pub proof fn lengths_kept_over_solves(states: Seq<Seq<Segment>>)
    requires
        forall|k: int| 0 <= k < states.len() - 1 ==> lengths_of(#[trigger] states[k + 1]) == lengths_of(states[k]),
    ensures
        forall|k: int| 0 <= k < states.len() ==> lengths_of(#[trigger] states[k]) == lengths_of(states[0]),
{
    assert forall|k: int| 0 <= k < states.len() implies lengths_of(#[trigger] states[k]) == lengths_of(states[0]) by {
        lemma_lengths_prefix(states, k);
    }
}

proof fn lemma_lengths_prefix(states: Seq<Seq<Segment>>, k: int)
    requires
        forall|j: int| 0 <= j < states.len() - 1 ==> lengths_of(#[trigger] states[j + 1]) == lengths_of(states[j]),
        0 <= k < states.len(),
    ensures
        lengths_of(states[k]) == lengths_of(states[0]),
    decreases k,
{
    if k > 0 {
        lemma_lengths_prefix(states, k - 1);
        assert(lengths_of(states[k - 1 + 1]) == lengths_of(states[k - 1]));
    }
}

/// A chain with no segments has the base alone as its positions.
pub proof fn empty_chain_positions(segments: Seq<Segment>, positions: Seq<Point>)
    requires
        segments.len() == 0,
        positions.len() == segments.len() + 1,
        positions[0] == (0u32, 0u32),
    ensures
        positions == seq![(0u32, 0u32)],
{
    assert(positions =~= seq![(0u32, 0u32)]);
}

} // verus!
