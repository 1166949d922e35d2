//! Explicit central-difference solver: what is recorded, and the order of the
//! steps.

use crate::indices::copy_of;
use crate::model::{Accelerometer, Contact, LocalFrame, Settings};
use crate::number::Real;
use crate::number::Single;
use vstd::prelude::*;

verus! {

/// Deformed-mesh snapshot.
#[derive(Clone, Debug)]
pub struct Frame {
    pub time: Real,
    /// Nodal displacement, 3 per node.
    pub displacement: Vec<Single>,
    /// Equivalent plastic strain or compaction per element.
    pub plastic_strain: Vec<Single>,
    /// Cauchy stress (Voigt) per element.
    pub stress: Vec<[Single; 6]>,
    pub eroded: Vec<bool>,
}

/// Mass-weighted state of one part at one time.
#[derive(Clone, Copy, Debug)]
pub struct PartState {
    pub part: usize,
    pub mass: Real,
    pub velocity: [Real; 3],
    pub displacement: [Real; 3],
    /// Net force per mass.
    pub acceleration: [Real; 3],
    pub kinetic_energy: Real,
}

/// One accelerometer sample: a node's motion in global axes and, if the
/// accelerometer has a frame, in that body-fixed frame (otherwise the local
/// columns repeat the global ones). One column per quantity.
#[derive(Clone, Debug)]
pub struct NodeHistory {
    pub time: Vec<Real>,
    pub step: Vec<usize>,
    /// Index into the model's accelerometers.
    pub accelerometer: Vec<usize>,
    pub node: Vec<usize>,
    pub position: Vec<[Real; 3]>,
    pub displacement: Vec<[Real; 3]>,
    pub velocity: Vec<[Real; 3]>,
    pub acceleration: Vec<[Real; 3]>,
    pub local_displacement: Vec<[Real; 3]>,
    pub local_velocity: Vec<[Real; 3]>,
    pub local_acceleration: Vec<[Real; 3]>,
}

/// Body-fixed frame of an accelerometer at one time. One column per quantity.
#[derive(Clone, Debug)]
pub struct FrameHistory {
    pub time: Vec<Real>,
    pub step: Vec<usize>,
    pub accelerometer: Vec<usize>,
    pub origin: Vec<[Real; 3]>,
    /// Local unit axes (rows) in global components.
    pub axes: Vec<[[Real; 3]; 3]>,
}

/// What a run leaves behind.
#[derive(Clone, Debug)]
pub struct Results {
    pub time: Real,
    pub steps: usize,
    pub displacement: Vec<[Real; 3]>,
    pub velocity: Vec<[Real; 3]>,
    pub masses: Vec<Real>,
    pub frames: Vec<Frame>,
    /// Time and per-part states every `history_steps`.
    pub history: Vec<(Real, Vec<PartState>)>,
    /// Accelerometer samples every `history_steps`.
    pub node_history: NodeHistory,
    pub frame_history: FrameHistory,
    pub eroded_elements: usize,
}

/// Motion of a node at one time, in global axes.
#[derive(Clone, Copy, Debug)]
pub struct Motion {
    pub position: [Real; 3],
    pub displacement: [Real; 3],
    pub velocity: [Real; 3],
    pub acceleration: [Real; 3],
}

/// Origin and unit axes of a body-fixed frame at one time.
#[derive(Clone, Copy, Debug)]
pub struct FrameAxes {
    pub origin: [Real; 3],
    pub axes: [[Real; 3]; 3],
}

impl NodeHistory {
    /// Every column has a value in every row.
    pub open spec fn wf(self) -> bool {
        let n = self.time@.len();
        &&& self.step@.len() == n
        &&& self.accelerometer@.len() == n
        &&& self.node@.len() == n
        &&& self.position@.len() == n
        &&& self.displacement@.len() == n
        &&& self.velocity@.len() == n
        &&& self.acceleration@.len() == n
        &&& self.local_displacement@.len() == n
        &&& self.local_velocity@.len() == n
        &&& self.local_acceleration@.len() == n
    }

    pub fn new() -> (h: NodeHistory)
        ensures
            h.wf(),
            h.time@.len() == 0,
    {
        NodeHistory {
            time: Vec::new(),
            step: Vec::new(),
            accelerometer: Vec::new(),
            node: Vec::new(),
            position: Vec::new(),
            displacement: Vec::new(),
            velocity: Vec::new(),
            acceleration: Vec::new(),
            local_displacement: Vec::new(),
            local_velocity: Vec::new(),
            local_acceleration: Vec::new(),
        }
    }

    /// Whether the rows before `n` are those of another history.
    pub open spec fn extends(self, other: NodeHistory) -> bool {
        let n = other.time@.len() as int;
        &&& n <= self.time@.len()
        &&& self.time@.take(n) == other.time@
        &&& self.step@.take(n) == other.step@
        &&& self.accelerometer@.take(n) == other.accelerometer@
        &&& self.node@.take(n) == other.node@
        &&& self.position@.take(n) == other.position@
        &&& self.displacement@.take(n) == other.displacement@
        &&& self.velocity@.take(n) == other.velocity@
        &&& self.acceleration@.take(n) == other.acceleration@
        &&& self.local_displacement@.take(n) == other.local_displacement@
        &&& self.local_velocity@.take(n) == other.local_velocity@
        &&& self.local_acceleration@.take(n) == other.local_acceleration@
    }

    /// Row `i` is a sample of a node of an accelerometer: its motion, and that
    /// motion turned into the frame's axes, or repeated where there is none.
    pub open spec fn is_sample<F: Fn(usize) -> Motion, H: Fn([[Real; 3]; 3], [Real; 3]) -> [Real;
        3]>(
        self,
        i: int,
        t: Real,
        step: usize,
        accelerometer: usize,
        node: usize,
        frame: Option<FrameAxes>,
        motion: F,
        turn: H,
    ) -> bool {
        &&& self.time@[i] == t
        &&& self.step@[i] == step
        &&& self.accelerometer@[i] == accelerometer
        &&& self.node@[i] == node
        &&& call_ensures(
            motion,
            (node,),
            Motion {
                position: self.position@[i],
                displacement: self.displacement@[i],
                velocity: self.velocity@[i],
                acceleration: self.acceleration@[i],
            },
        )
        &&& match frame {
            Some(f) => {
                &&& call_ensures(
                    turn,
                    (f.axes, self.displacement@[i]),
                    self.local_displacement@[i],
                )
                &&& call_ensures(turn, (f.axes, self.velocity@[i]), self.local_velocity@[i])
                &&& call_ensures(
                    turn,
                    (f.axes, self.acceleration@[i]),
                    self.local_acceleration@[i],
                )
            },
            None => {
                &&& self.local_displacement@[i] == self.displacement@[i]
                &&& self.local_velocity@[i] == self.velocity@[i]
                &&& self.local_acceleration@[i] == self.acceleration@[i]
            },
        }
    }

    /// Appends a sample of one node.
    fn push_sample<F: Fn(usize) -> Motion, H: Fn([[Real; 3]; 3], [Real; 3]) -> [Real; 3]>(
        &mut self,
        t: Real,
        step: usize,
        accelerometer: usize,
        node: usize,
        frame: Option<FrameAxes>,
        motion: &F,
        turn: &H,
    )
        requires
            old(self).wf(),
            call_requires(*motion, (node,)),
            forall|a: [[Real; 3]; 3], v: [Real; 3]| #[trigger] call_requires(*turn, (a, v)),
        ensures
            final(self).wf(),
            final(self).time@.len() == old(self).time@.len() + 1,
            final(self).extends(*old(self)),
            final(self).is_sample(
                old(self).time@.len() as int,
                t,
                step,
                accelerometer,
                node,
                frame,
                *motion,
                *turn,
            ),
    {
        let m: Motion = motion(node);
        self.time.push(t);
        self.step.push(step);
        self.accelerometer.push(accelerometer);
        self.node.push(node);
        self.position.push(m.position);
        self.displacement.push(m.displacement);
        self.velocity.push(m.velocity);
        self.acceleration.push(m.acceleration);
        match frame {
            Some(f) => {
                self.local_displacement.push(turn(f.axes, m.displacement));
                self.local_velocity.push(turn(f.axes, m.velocity));
                self.local_acceleration.push(turn(f.axes, m.acceleration));
            },
            None => {
                self.local_displacement.push(m.displacement);
                self.local_velocity.push(m.velocity);
                self.local_acceleration.push(m.acceleration);
            },
        }
        proof {
            let n = old(self).time@.len() as int;
            assert(self.time@.take(n) =~= old(self).time@);
            assert(self.step@.take(n) =~= old(self).step@);
            assert(self.accelerometer@.take(n) =~= old(self).accelerometer@);
            assert(self.node@.take(n) =~= old(self).node@);
            assert(self.position@.take(n) =~= old(self).position@);
            assert(self.displacement@.take(n) =~= old(self).displacement@);
            assert(self.velocity@.take(n) =~= old(self).velocity@);
            assert(self.acceleration@.take(n) =~= old(self).acceleration@);
            assert(self.local_displacement@.take(n) =~= old(self).local_displacement@);
            assert(self.local_velocity@.take(n) =~= old(self).local_velocity@);
            assert(self.local_acceleration@.take(n) =~= old(self).local_acceleration@);
        }
    }

    /// Rows of a history stay what they were in one that extends it.
    proof fn lemma_extends(self, other: NodeHistory, i: int)
        requires
            self.wf(),
            other.wf(),
            self.extends(other),
            0 <= i < other.time@.len(),
        ensures
            self.time@[i] == other.time@[i],
            self.step@[i] == other.step@[i],
            self.accelerometer@[i] == other.accelerometer@[i],
            self.node@[i] == other.node@[i],
            self.position@[i] == other.position@[i],
            self.displacement@[i] == other.displacement@[i],
            self.velocity@[i] == other.velocity@[i],
            self.acceleration@[i] == other.acceleration@[i],
            self.local_displacement@[i] == other.local_displacement@[i],
            self.local_velocity@[i] == other.local_velocity@[i],
            self.local_acceleration@[i] == other.local_acceleration@[i],
    {
        let n = other.time@.len() as int;
        assert(self.time@.take(n)[i] == self.time@[i]);
        assert(self.step@.take(n)[i] == self.step@[i]);
        assert(self.accelerometer@.take(n)[i] == self.accelerometer@[i]);
        assert(self.node@.take(n)[i] == self.node@[i]);
        assert(self.position@.take(n)[i] == self.position@[i]);
        assert(self.displacement@.take(n)[i] == self.displacement@[i]);
        assert(self.velocity@.take(n)[i] == self.velocity@[i]);
        assert(self.acceleration@.take(n)[i] == self.acceleration@[i]);
        assert(self.local_displacement@.take(n)[i] == self.local_displacement@[i]);
        assert(self.local_velocity@.take(n)[i] == self.local_velocity@[i]);
        assert(self.local_acceleration@.take(n)[i] == self.local_acceleration@[i]);
    }

    proof fn lemma_extends_itself(self)
        requires
            self.wf(),
        ensures
            self.extends(self),
    {
        let n = self.time@.len() as int;
        assert(self.time@.take(n) =~= self.time@);
        assert(self.step@.take(n) =~= self.step@);
        assert(self.accelerometer@.take(n) =~= self.accelerometer@);
        assert(self.node@.take(n) =~= self.node@);
        assert(self.position@.take(n) =~= self.position@);
        assert(self.displacement@.take(n) =~= self.displacement@);
        assert(self.velocity@.take(n) =~= self.velocity@);
        assert(self.acceleration@.take(n) =~= self.acceleration@);
        assert(self.local_displacement@.take(n) =~= self.local_displacement@);
        assert(self.local_velocity@.take(n) =~= self.local_velocity@);
        assert(self.local_acceleration@.take(n) =~= self.local_acceleration@);
    }

    proof fn lemma_extends_trans(a: NodeHistory, b: NodeHistory, c: NodeHistory)
        requires
            a.extends(b),
            b.extends(c),
            a.wf(),
            b.wf(),
            c.wf(),
        ensures
            a.extends(c),
    {
        let n = c.time@.len() as int;
        let m = b.time@.len() as int;
        assert(a.time@.take(m).take(n) =~= a.time@.take(n));
        assert(a.step@.take(m).take(n) =~= a.step@.take(n));
        assert(a.accelerometer@.take(m).take(n) =~= a.accelerometer@.take(n));
        assert(a.node@.take(m).take(n) =~= a.node@.take(n));
        assert(a.position@.take(m).take(n) =~= a.position@.take(n));
        assert(a.displacement@.take(m).take(n) =~= a.displacement@.take(n));
        assert(a.velocity@.take(m).take(n) =~= a.velocity@.take(n));
        assert(a.acceleration@.take(m).take(n) =~= a.acceleration@.take(n));
        assert(a.local_displacement@.take(m).take(n) =~= a.local_displacement@.take(n));
        assert(a.local_velocity@.take(m).take(n) =~= a.local_velocity@.take(n));
        assert(a.local_acceleration@.take(m).take(n) =~= a.local_acceleration@.take(n));
    }
}

impl FrameHistory {
    /// Every column has a value in every row.
    pub open spec fn wf(self) -> bool {
        let n = self.time@.len();
        &&& self.step@.len() == n
        &&& self.accelerometer@.len() == n
        &&& self.origin@.len() == n
        &&& self.axes@.len() == n
    }

    pub fn new() -> (h: FrameHistory)
        ensures
            h.wf(),
            h.time@.len() == 0,
    {
        FrameHistory {
            time: Vec::new(),
            step: Vec::new(),
            accelerometer: Vec::new(),
            origin: Vec::new(),
            axes: Vec::new(),
        }
    }
}

/// Number of samples that the first `k` accelerometers give.
pub open spec fn samples_before(accelerometers: Seq<Accelerometer>, k: int) -> int
    decreases k,
{
    if k <= 0 {
        0
    } else {
        samples_before(accelerometers, k - 1) + accelerometers[k - 1].nodes@.len()
    }
}

/// Number of frames among the first `k` accelerometers.
pub open spec fn frames_before(accelerometers: Seq<Accelerometer>, k: int) -> int
    decreases k,
{
    if k <= 0 {
        0
    } else {
        frames_before(accelerometers, k - 1) + (if accelerometers[k - 1].frame is Some {
            1int
        } else {
            0
        })
    }
}

/// The frame of accelerometer `k` as recorded, the rows starting at `row0`.
pub open spec fn recorded_frame(
    frames: FrameHistory,
    row0: int,
    accelerometers: Seq<Accelerometer>,
    k: int,
) -> Option<FrameAxes> {
    if accelerometers[k].frame is Some {
        let row = row0 + frames_before(accelerometers, k);
        Some(FrameAxes { origin: frames.origin@[row], axes: frames.axes@[row] })
    } else {
        None
    }
}

/// The rows from `row0` on are the frames of the first `k` accelerometers that
/// have one.
pub open spec fn frames_sampled<G: Fn(LocalFrame) -> FrameAxes>(
    frames: FrameHistory,
    row0: int,
    accelerometers: Seq<Accelerometer>,
    k: int,
    t: Real,
    step: usize,
    axes: G,
) -> bool {
    forall|a: int|
        0 <= a < k && (#[trigger] accelerometers[a]).frame is Some ==> {
            let row = row0 + frames_before(accelerometers, a);
            &&& frames.time@[row] == t
            &&& frames.step@[row] == step
            &&& frames.accelerometer@[row] == a
            &&& call_ensures(
                axes,
                (accelerometers[a].frame->0,),
                FrameAxes { origin: frames.origin@[row], axes: frames.axes@[row] },
            )
        }
}

/// The rows from `row0` on are the samples of the first `k` accelerometers,
/// node by node.
pub open spec fn nodes_sampled<
    F: Fn(usize) -> Motion,
    H: Fn([[Real; 3]; 3], [Real; 3]) -> [Real; 3],
>(
    nodes: NodeHistory,
    row0: int,
    frames: FrameHistory,
    frame_row0: int,
    accelerometers: Seq<Accelerometer>,
    k: int,
    t: Real,
    step: usize,
    motion: F,
    turn: H,
) -> bool {
    forall|a: int, i: int|
        0 <= a < k && 0 <= i < accelerometers[a].nodes@.len() ==> nodes.is_sample(
            row0 + samples_before(accelerometers, a) + i,
            t,
            step,
            a as usize,
            #[trigger] accelerometers[a].nodes@[i],
            recorded_frame(frames, frame_row0, accelerometers, a),
            motion,
            turn,
        )
}

proof fn lemma_counts(accelerometers: Seq<Accelerometer>, a: int, k: int)
    requires
        0 <= a <= k <= accelerometers.len(),
    ensures
        0 <= samples_before(accelerometers, a) <= samples_before(accelerometers, k),
        0 <= frames_before(accelerometers, a) <= frames_before(accelerometers, k),
    decreases k,
{
    if k > 0 {
        if a < k {
            lemma_counts(accelerometers, a, k - 1);
        } else {
            lemma_counts(accelerometers, k - 1, k - 1);
        }
    }
}


/// Records one sample of every accelerometer: its frame, where it has one, and
/// then each of its nodes. `motion` gives the motion of a node, `axes` a frame
/// in the deformed configuration, and `turn` a vector in the axes of a frame.
pub fn sample_accelerometers<
    F: Fn(usize) -> Motion,
    G: Fn(LocalFrame) -> FrameAxes,
    H: Fn([[Real; 3]; 3], [Real; 3]) -> [Real; 3],
>(
    accelerometers: &Vec<Accelerometer>,
    t: Real,
    step: usize,
    motion: F,
    axes: G,
    turn: H,
    nodes: &mut NodeHistory,
    frames: &mut FrameHistory,
)
    requires
        old(nodes).wf(),
        old(frames).wf(),
        forall|n: usize| #[trigger] call_requires(motion, (n,)),
        forall|f: LocalFrame| #[trigger] call_requires(axes, (f,)),
        forall|a: [[Real; 3]; 3], v: [Real; 3]| #[trigger] call_requires(turn, (a, v)),
    ensures
        final(nodes).wf(),
        final(frames).wf(),
        final(nodes).extends(*old(nodes)),
        final(nodes).time@.len() == old(nodes).time@.len() + samples_before(
            accelerometers@,
            accelerometers@.len() as int,
        ),
        final(frames).time@.len() == old(frames).time@.len() + frames_before(
            accelerometers@,
            accelerometers@.len() as int,
        ),
        final(frames).time@.take(old(frames).time@.len() as int) == old(frames).time@,
        final(frames).step@.take(old(frames).time@.len() as int) == old(frames).step@,
        final(frames).accelerometer@.take(old(frames).time@.len() as int) == old(
            frames,
        ).accelerometer@,
        final(frames).origin@.take(old(frames).time@.len() as int) == old(frames).origin@,
        final(frames).axes@.take(old(frames).time@.len() as int) == old(frames).axes@,
        frames_sampled(
            *final(frames),
            old(frames).time@.len() as int,
            accelerometers@,
            accelerometers@.len() as int,
            t,
            step,
            axes,
        ),
        nodes_sampled(
            *final(nodes),
            old(nodes).time@.len() as int,
            *final(frames),
            old(frames).time@.len() as int,
            accelerometers@,
            accelerometers@.len() as int,
            t,
            step,
            motion,
            turn,
        ),
{
    let ghost all = accelerometers@;
    let ghost nodes0 = *nodes;
    let ghost frames0 = *frames;
    let ghost row0 = nodes.time@.len() as int;
    let ghost frame_row0 = frames.time@.len() as int;
    let mut k: usize = 0;
    proof {
        assert(frames.time@.take(frame_row0) =~= frames0.time@);
        assert(frames.step@.take(frame_row0) =~= frames0.step@);
        assert(frames.accelerometer@.take(frame_row0) =~= frames0.accelerometer@);
        assert(frames.origin@.take(frame_row0) =~= frames0.origin@);
        assert(frames.axes@.take(frame_row0) =~= frames0.axes@);
        nodes.lemma_extends_itself();
    }
    while k < accelerometers.len()
        invariant
            k <= all.len(),
            all == accelerometers@,
            nodes0 == *old(nodes),
            frames0 == *old(frames),
            nodes0.wf(),
            frames0.wf(),
            row0 == nodes0.time@.len(),
            frame_row0 == frames0.time@.len(),
            forall|n: usize| #[trigger] call_requires(motion, (n,)),
            forall|f: LocalFrame| #[trigger] call_requires(axes, (f,)),
            forall|a: [[Real; 3]; 3], v: [Real; 3]| #[trigger] call_requires(turn, (a, v)),
            nodes.wf(),
            frames.wf(),
            nodes.extends(nodes0),
            nodes.time@.len() == row0 + samples_before(all, k as int),
            frames.time@.len() == frame_row0 + frames_before(all, k as int),
            frames.time@.take(frame_row0) == frames0.time@,
            frames.step@.take(frame_row0) == frames0.step@,
            frames.accelerometer@.take(frame_row0) == frames0.accelerometer@,
            frames.origin@.take(frame_row0) == frames0.origin@,
            frames.axes@.take(frame_row0) == frames0.axes@,
            frames_sampled(*frames, frame_row0, all, k as int, t, step, axes),
            nodes_sampled(
                *nodes,
                row0,
                *frames,
                frame_row0,
                all,
                k as int,
                t,
                step,
                motion,
                turn,
            ),
        decreases accelerometers.len() - k,
    {
        let ghost frames1 = *frames;
        let ghost nodes1 = *nodes;
        let acc: &Accelerometer = &accelerometers[k];
        let mut frame: Option<FrameAxes> = None;
        proof {
            lemma_counts(all, 0, k as int);
        }
        if let Some(f) = acc.frame {
            let fa: FrameAxes = axes(f);
            frames.time.push(t);
            frames.step.push(step);
            frames.accelerometer.push(k);
            frames.origin.push(fa.origin);
            frames.axes.push(fa.axes);
            frame = Some(fa);
            assert(frames.time@.take(frame_row0) =~= frames1.time@.take(frame_row0));
            assert(frames.step@.take(frame_row0) =~= frames1.step@.take(frame_row0));
            assert(frames.accelerometer@.take(frame_row0) =~= frames1.accelerometer@.take(
                frame_row0,
            ));
            assert(frames.origin@.take(frame_row0) =~= frames1.origin@.take(frame_row0));
            assert(frames.axes@.take(frame_row0) =~= frames1.axes@.take(frame_row0));
        }
        let ghost frames2 = *frames;
        proof {
            lemma_counts(all, 0, k as int);
            assert forall|a: int|
                0 <= a < k + 1 && (#[trigger] all[a]).frame is Some implies {
                let row = frame_row0 + frames_before(all, a);
                &&& frames2.time@[row] == t
                &&& frames2.step@[row] == step
                &&& frames2.accelerometer@[row] == a
                &&& call_ensures(
                    axes,
                    (all[a].frame->0,),
                    FrameAxes { origin: frames2.origin@[row], axes: frames2.axes@[row] },
                )
            } by {
                if a < k {
                    lemma_counts(all, a + 1, k as int);
                    lemma_counts(all, 0, a);
                }
            }
            assert forall|a: int| 0 <= a < k implies #[trigger] recorded_frame(
                frames2,
                frame_row0,
                all,
                a,
            ) == recorded_frame(frames1, frame_row0, all, a) by {
                if all[a].frame is Some {
                    lemma_counts(all, a + 1, k as int);
                    lemma_counts(all, 0, a);
                }
            }
            assert(frame == recorded_frame(frames2, frame_row0, all, k as int));
            nodes1.lemma_extends_itself();
        }
        let mut i: usize = 0;
        while i < acc.nodes.len()
            invariant
                k < all.len(),
                all == accelerometers@,
                *acc == all[k as int],
                i <= acc.nodes@.len(),
                nodes0.wf(),
                nodes1.wf(),
                nodes1.extends(nodes0),
                row0 == nodes0.time@.len(),
                nodes1.time@.len() == row0 + samples_before(all, k as int),
                forall|n: usize| #[trigger] call_requires(motion, (n,)),
                forall|a: [[Real; 3]; 3], v: [Real; 3]| #[trigger] call_requires(turn, (a, v)),
                nodes.wf(),
                nodes.extends(nodes1),
                nodes.time@.len() == row0 + samples_before(all, k as int) + i,
                forall|j: int|
                    0 <= j < i ==> nodes.is_sample(
                        row0 + samples_before(all, k as int) + j,
                        t,
                        step,
                        k,
                        #[trigger] acc.nodes@[j],
                        frame,
                        motion,
                        turn,
                    ),
            decreases acc.nodes.len() - i,
        {
            let ghost was = *nodes;
            nodes.push_sample(t, step, k, acc.nodes[i], frame, &motion, &turn);
            proof {
                lemma_counts(all, 0, k as int);
                NodeHistory::lemma_extends_trans(*nodes, was, nodes1);
                assert forall|j: int| 0 <= j < i + 1 implies nodes.is_sample(
                    row0 + samples_before(all, k as int) + j,
                    t,
                    step,
                    k,
                    #[trigger] acc.nodes@[j],
                    frame,
                    motion,
                    turn,
                ) by {
                    if j < i {
                        nodes.lemma_extends(was, row0 + samples_before(all, k as int) + j);
                    }
                }
            }
            i += 1;
        }
        proof {
            NodeHistory::lemma_extends_trans(*nodes, nodes1, nodes0);
            assert forall|a: int, j: int|
                0 <= a < k + 1 && 0 <= j < all[a].nodes@.len() implies nodes.is_sample(
                row0 + samples_before(all, a) + j,
                t,
                step,
                a as usize,
                #[trigger] all[a].nodes@[j],
                recorded_frame(*frames, frame_row0, all, a),
                motion,
                turn,
            ) by {
                if a < k {
                    lemma_counts(all, a + 1, k as int);
                    lemma_counts(all, 0, a);
                    assert(recorded_frame(frames2, frame_row0, all, a) == recorded_frame(
                        frames1,
                        frame_row0,
                        all,
                        a,
                    ));
                    assert(nodes1.is_sample(
                        row0 + samples_before(all, a) + j,
                        t,
                        step,
                        a as usize,
                        all[a].nodes@[j],
                        recorded_frame(frames1, frame_row0, all, a),
                        motion,
                        turn,
                    ));
                    nodes.lemma_extends(nodes1, row0 + samples_before(all, a) + j);
                } else {
                    assert(acc.nodes@[j] == all[a].nodes@[j]);
                }
            }
        }
        k += 1;
    }
}

/// The nodes that an accelerometer refers to: its own, then those of its frame.
pub open spec fn referred(a: Accelerometer) -> Seq<usize> {
    match a.frame {
        Some(f) => a.nodes@ + seq![f.origin, f.x_axis, f.plane],
        None => a.nodes@,
    }
}

/// Whether an accelerometer refers to a node that does not exist.
pub open spec fn refers_beyond(a: Accelerometer, n_nodes: int) -> bool {
    exists|j: int| 0 <= j < referred(a).len() && #[trigger] referred(a)[j] >= n_nodes
}

/// Whether `m` is the first node referred to that does not exist, at place `j`.
pub open spec fn is_first_stray(a: Accelerometer, n_nodes: int, j: int, m: usize) -> bool {
    &&& 0 <= j < referred(a).len()
    &&& referred(a)[j] == m
    &&& m >= n_nodes
    &&& forall|i: int| 0 <= i < j ==> #[trigger] referred(a)[i] < n_nodes
}

fn referred_nodes(a: &Accelerometer) -> (r: Vec<usize>)
    ensures
        r@ == referred(*a),
{
    let mut r: Vec<usize> = copy_of(&a.nodes);
    if let Some(f) = a.frame {
        r.push(f.origin);
        r.push(f.x_axis);
        r.push(f.plane);
    }
    assert(r@ =~= referred(*a));
    r
}

/// The first accelerometer that refers to a node that does not exist, and the
/// first such node.
pub fn stray_node(accelerometers: &Vec<Accelerometer>, n_nodes: usize) -> (r: Option<
    (usize, usize),
>)
    ensures
        match r {
            None => forall|k: int|
                0 <= k < accelerometers@.len() ==> !refers_beyond(
                    #[trigger] accelerometers@[k],
                    n_nodes as int,
                ),
            Some((k, m)) => {
                &&& k < accelerometers@.len()
                &&& forall|i: int|
                    0 <= i < k ==> !refers_beyond(#[trigger] accelerometers@[i], n_nodes as int)
                &&& m >= n_nodes
                &&& exists|j: int| #[trigger]
                    is_first_stray(accelerometers@[k as int], n_nodes as int, j, m)
            },
        },
{
    let mut k: usize = 0;
    while k < accelerometers.len()
        invariant
            k <= accelerometers@.len(),
            forall|i: int|
                0 <= i < k ==> !refers_beyond(#[trigger] accelerometers@[i], n_nodes as int),
        decreases accelerometers.len() - k,
    {
        let list: Vec<usize> = referred_nodes(&accelerometers[k]);
        let mut i: usize = 0;
        while i < list.len()
            invariant
                k < accelerometers@.len(),
                list@ == referred(accelerometers@[k as int]),
                forall|j: int|
                    0 <= j < k ==> !refers_beyond(#[trigger] accelerometers@[j], n_nodes as int),
                i <= list@.len(),
                forall|j: int| 0 <= j < i ==> #[trigger] list@[j] < n_nodes,
            decreases list.len() - i,
        {
            if list[i] >= n_nodes {
                assert(is_first_stray(
                    accelerometers@[k as int],
                    n_nodes as int,
                    i as int,
                    list@[i as int],
                ));
                return Some((k, list[i]));
            }
            i += 1;
        }
        k += 1;
    }
    None
}

/// The degrees of freedom of the listed nodes, three each.
pub fn fixed_dofs(nodes: &Vec<usize>) -> (r: Vec<usize>)
    requires
        forall|i: int| 0 <= i < nodes@.len() ==> 3 * (#[trigger] nodes@[i]) + 2 <= usize::MAX,
    ensures
        r@.len() == 3 * nodes@.len(),
        forall|i: int, d: int|
            0 <= i < nodes@.len() && 0 <= d < 3 ==> #[trigger] r@[3 * i + d] == 3 * nodes@[i] + d,
{
    let mut r: Vec<usize> = Vec::new();
    let mut i: usize = 0;
    while i < nodes.len()
        invariant
            i <= nodes@.len(),
            forall|k: int| 0 <= k < nodes@.len() ==> 3 * (#[trigger] nodes@[k]) + 2 <= usize::MAX,
            r@.len() == 3 * i,
            forall|k: int, d: int|
                0 <= k < i && 0 <= d < 3 ==> #[trigger] r@[3 * k + d] == 3 * nodes@[k] + d,
        decreases nodes.len() - i,
    {
        let n: usize = nodes[i];
        assert(3 * nodes@[i as int] + 2 <= usize::MAX);
        r.push(3 * n);
        r.push(3 * n + 1);
        r.push(3 * n + 2);
        i += 1;
    }
    r
}

/// Vectors laid out one component after the other.
pub fn flat_vectors(v: &Vec<[Real; 3]>) -> (r: Vec<Real>)
    ensures
        r@.len() == 3 * v@.len(),
        forall|i: int, d: int|
            0 <= i < v@.len() && 0 <= d < 3 ==> #[trigger] r@[3 * i + d] == v@[i]@[d],
{
    let mut r: Vec<Real> = Vec::new();
    let mut i: usize = 0;
    while i < v.len()
        invariant
            i <= v@.len(),
            r@.len() == 3 * i,
            forall|k: int, d: int|
                0 <= k < i && 0 <= d < 3 ==> #[trigger] r@[3 * k + d] == v@[k]@[d],
        decreases v.len() - i,
    {
        r.push(v[i][0]);
        r.push(v[i][1]);
        r.push(v[i][2]);
        i += 1;
    }
    r
}

/// Vectors of three components each, from components laid out one after the
/// other.
pub fn vectors(u: &Vec<Real>, n: usize) -> (r: Vec<[Real; 3]>)
    requires
        3 * n <= u@.len(),
    ensures
        r@.len() == n,
        forall|i: int, d: int|
            0 <= i < n && 0 <= d < 3 ==> #[trigger] r@[i]@[d] == u@[3 * i + d],
{
    let total: usize = u.len();
    let mut r: Vec<[Real; 3]> = Vec::new();
    let mut i: usize = 0;
    while i < n
        invariant
            i <= n,
            3 * n <= total,
            total == u@.len(),
            r@.len() == i,
            forall|k: int, d: int|
                0 <= k < i && 0 <= d < 3 ==> #[trigger] r@[k]@[d] == u@[3 * k + d],
        decreases n - i,
    {
        r.push([u[3 * i], u[3 * i + 1], u[3 * i + 2]]);
        i += 1;
    }
    r
}

/// Laying vectors out and gathering them again gives the vectors.
pub proof fn law_vectors_round_trip(v: Seq<[Real; 3]>, flat: Seq<Real>, back: Seq<[Real; 3]>)
    requires
        flat.len() == 3 * v.len(),
        forall|i: int, d: int|
            0 <= i < v.len() && 0 <= d < 3 ==> #[trigger] flat[3 * i + d] == v[i]@[d],
        back.len() == v.len(),
        forall|i: int, d: int|
            0 <= i < v.len() && 0 <= d < 3 ==> #[trigger] back[i]@[d] == flat[3 * i + d],
    ensures
        forall|i: int| 0 <= i < v.len() ==> (#[trigger] back[i])@ == v[i]@,
{
    assert forall|i: int| 0 <= i < v.len() implies (#[trigger] back[i])@ == v[i]@ by {
        assert forall|d: int| 0 <= d < 3 implies #[trigger] back[i]@[d] == v[i]@[d] by {
            assert(flat[3 * i + d] == v[i]@[d]);
        }
        assert(back[i]@ =~= v[i]@);
    }
}

// ---- a step ----

/// Sets the listed degrees of freedom to zero.
fn hold<T: Copy>(x: &mut Vec<T>, fixed: &Vec<usize>, zero: T)
    requires
        forall|i: int| 0 <= i < fixed@.len() ==> #[trigger] fixed@[i] < old(x)@.len(),
    ensures
        final(x)@.len() == old(x)@.len(),
        forall|k: int|
            0 <= k < old(x)@.len() ==> #[trigger] final(x)@[k] == if fixed@.contains(k as usize) {
                zero
            } else {
                old(x)@[k]
            },
{
    let ghost start = x@;
    let n: usize = x.len();
    let mut i: usize = 0;
    while i < fixed.len()
        invariant
            i <= fixed@.len(),
            x@.len() == n,
            start.len() == n,
            forall|i: int| 0 <= i < fixed@.len() ==> #[trigger] fixed@[i] < n,
            forall|k: int|
                0 <= k < start.len() ==> #[trigger] x@[k] == if fixed@.take(i as int).contains(
                    k as usize,
                ) {
                    zero
                } else {
                    start[k]
                },
        decreases fixed.len() - i,
    {
        let ghost was = x@;
        let at: usize = fixed[i];
        assert(fixed@[i as int] < start.len());
        x.set(at, zero);
        assert forall|k: int| 0 <= k < start.len() implies #[trigger] x@[k] == if fixed@.take(
            i + 1,
        ).contains(k as usize) {
            zero
        } else {
            start[k]
        } by {
            let (before, now) = (fixed@.take(i as int), fixed@.take(i + 1));
            assert(now =~= before.push(at));
            assert(was[k] == if before.contains(k as usize) {
                zero
            } else {
                start[k]
            });
            if k == at {
                assert(now[i as int] == at);
            } else if before.contains(k as usize) {
                let j = choose|j: int| 0 <= j < before.len() && before[j] == k as usize;
                assert(now[j] == k as usize);
            } else if now.contains(k as usize) {
                let j = choose|j: int| 0 <= j < now.len() && now[j] == k as usize;
                assert(before[j] == k as usize);
            }
        }
        i += 1;
    }
    assert(fixed@.take(i as int) =~= fixed@);
}

/// First half of a step: every degree of freedom moves with its velocity half a
/// step on. `half` gives displacement and half-step velocity from place,
/// displacement and velocity. Fixed degrees of freedom stay where they are.
pub fn half_step<T: Copy, F: Fn(usize, T, T) -> (T, T)>(
    u: &mut Vec<T>,
    v: &mut Vec<T>,
    v_half: &mut Vec<T>,
    fixed: &Vec<usize>,
    zero: T,
    half: F,
)
    requires
        old(u)@.len() == old(v)@.len(),
        old(v_half)@.len() == old(v)@.len(),
        forall|i: int| 0 <= i < fixed@.len() ==> #[trigger] fixed@[i] < old(v)@.len(),
        forall|k: usize, a: T, b: T| #[trigger] call_requires(half, (k, a, b)),
    ensures
        final(u)@.len() == old(u)@.len(),
        final(v)@.len() == old(v)@.len(),
        final(v_half)@.len() == old(v_half)@.len(),
        forall|k: int|
            0 <= k < old(v)@.len() ==> if #[trigger] fixed@.contains(k as usize) {
                final(u)@[k] == zero && final(v)@[k] == zero && final(v_half)@[k] == zero
            } else {
                final(v)@[k] == old(v)@[k] && call_ensures(
                    half,
                    (k as usize, old(u)@[k], old(v)@[k]),
                    (final(u)@[k], final(v_half)@[k]),
                )
            },
{
    let n: usize = v.len();
    let ghost (u0, v0) = (u@, v@);
    let mut k: usize = 0;
    while k < n
        invariant
            k <= n,
            n == v0.len(),
            v@ == v0,
            u@.len() == n,
            u0.len() == n,
            v_half@.len() == n,
            forall|k: usize, a: T, b: T| #[trigger] call_requires(half, (k, a, b)),
            forall|j: int| k <= j < n ==> #[trigger] u@[j] == u0[j],
            forall|j: int|
                0 <= j < k ==> call_ensures(
                    half,
                    (j as usize, u0[j], v0[j]),
                    (#[trigger] u@[j], v_half@[j]),
                ),
        decreases n - k,
    {
        let (moved, speed): (T, T) = half(k, u[k], v[k]);
        u.set(k, moved);
        v_half.set(k, speed);
        k += 1;
    }
    let ghost (u1, h1) = (u@, v_half@);
    hold(u, fixed, zero);
    hold(v, fixed, zero);
    hold(v_half, fixed, zero);
    assert forall|k: int| 0 <= k < n implies if #[trigger] fixed@.contains(k as usize) {
        u@[k] == zero && v@[k] == zero && v_half@[k] == zero
    } else {
        v@[k] == v0[k] && call_ensures(half, (k as usize, u0[k], v0[k]), (u@[k], v_half@[k]))
    } by {
        assert(u@[k] == if fixed@.contains(k as usize) {
            zero
        } else {
            u1[k]
        });
        assert(v_half@[k] == if fixed@.contains(k as usize) {
            zero
        } else {
            h1[k]
        });
    }
}

/// Second half of a step: the velocity at its end and the acceleration, which
/// `half` gives from place and half-step velocity. Fixed degrees of freedom
/// have neither.
pub fn full_step<T: Copy, F: Fn(usize, T) -> (T, T)>(
    v_half: &Vec<T>,
    v: &mut Vec<T>,
    acc: &mut Vec<T>,
    fixed: &Vec<usize>,
    zero: T,
    half: F,
)
    requires
        v_half@.len() == old(v)@.len(),
        old(acc)@.len() == old(v)@.len(),
        forall|i: int| 0 <= i < fixed@.len() ==> #[trigger] fixed@[i] < old(v)@.len(),
        forall|k: usize, a: T| #[trigger] call_requires(half, (k, a)),
    ensures
        final(v)@.len() == old(v)@.len(),
        final(acc)@.len() == old(acc)@.len(),
        forall|k: int|
            0 <= k < old(v)@.len() ==> if #[trigger] fixed@.contains(k as usize) {
                final(v)@[k] == zero && final(acc)@[k] == zero
            } else {
                call_ensures(half, (k as usize, v_half@[k]), (final(v)@[k], final(acc)@[k]))
            },
{
    let n: usize = v_half.len();
    let mut k: usize = 0;
    while k < n
        invariant
            k <= n,
            n == v_half@.len(),
            v@.len() == n,
            acc@.len() == n,
            forall|k: usize, a: T| #[trigger] call_requires(half, (k, a)),
            forall|j: int|
                0 <= j < k ==> call_ensures(
                    half,
                    (j as usize, v_half@[j]),
                    (#[trigger] v@[j], acc@[j]),
                ),
        decreases n - k,
    {
        let (speed, a): (T, T) = half(k, v_half[k]);
        v.set(k, speed);
        acc.set(k, a);
        k += 1;
    }
    let ghost (v1, a1) = (v@, acc@);
    hold(v, fixed, zero);
    hold(acc, fixed, zero);
    assert forall|k: int| 0 <= k < n implies if #[trigger] fixed@.contains(k as usize) {
        v@[k] == zero && acc@[k] == zero
    } else {
        call_ensures(half, (k as usize, v_half@[k]), (v@[k], acc@[k]))
    } by {
        assert(v@[k] == if fixed@.contains(k as usize) {
            zero
        } else {
            v1[k]
        });
        assert(acc@[k] == if fixed@.contains(k as usize) {
            zero
        } else {
            a1[k]
        });
    }
}

/// The three degrees of freedom of a fixed node are held: every list that
/// [`fixed_dofs`] makes of nodes holds them.
pub proof fn law_fixed_nodes_are_held(nodes: Seq<usize>, fixed: Seq<usize>, i: int, d: int)
    requires
        0 <= i < nodes.len(),
        0 <= d < 3,
        3 * nodes[i] + d <= usize::MAX,
        fixed.len() == 3 * nodes.len(),
        forall|i: int, d: int|
            0 <= i < nodes.len() && 0 <= d < 3 ==> #[trigger] fixed[3 * i + d] == 3 * nodes[i] + d,
    ensures
        fixed.contains((3 * nodes[i] + d) as usize),
{
    assert(fixed[3 * i + d] == 3 * nodes[i] + d);
}

// ---- the order of the steps ----

/// Encoding of the smallest time step, 1e-15 s.
pub const SMALLEST_STEP: u64 = 0x3cd2_03af_9ee7_5616;

/// Steps between two checks that the displacements are finite.
pub const FINITE_CHECK_STEPS: usize = 20;

/// What a run waits for.
#[derive(Clone, Copy, Debug, PartialEq, Eq, Structural)]
pub enum Stage {
    /// To be started.
    Opening,
    /// For a snapshot or record to be taken, to go on after it.
    Saving,
    /// For the last snapshot or record.
    Closing,
    /// For the stable step of the elements as they are.
    Stability,
    /// For a step scaled by the safety factor.
    Scaling,
    /// For the time that is left.
    Choosing,
    /// For the state after the step.
    Advancing,
    Done,
}

/// What is done between two decisions of a run.
#[derive(Clone, Copy, Debug, PartialEq, Eq, Structural)]
pub enum Action {
    /// Take a deformed-mesh frame, record the history, or both.
    Save { frame: bool, history: bool },
    /// Evaluate the stable step of the elements as they are.
    MeasureStability,
    /// Multiply `base` by the safety factor; first add mass to the elements
    /// that ask for less than the floor, if so told.
    ScaleStep { add_mass: bool, base: Real },
    /// Subtract the time reached from the end time.
    MeasureRemaining,
    /// Advance the state by `dt`; first check that the displacements are
    /// finite, if so told.
    Advance { dt: Real, check_finite: bool },
    /// The run is over.
    Finish,
}

/// What came of an action.
#[derive(Clone, Copy, Debug, PartialEq, Eq, Structural)]
pub enum Event {
    Started,
    Saved,
    /// The stable step, where an element is left to give one.
    Stable(Option<Real>),
    Scaled(Real),
    Remaining(Real),
    /// The time reached, and how many elements were eroded on the way.
    Advanced { time: Real, eroded: usize },
}

/// Where a run stands.
#[derive(Clone, Copy, Debug, PartialEq, Eq, Structural)]
pub struct Stepper {
    pub end_time: Real,
    pub adaptive: bool,
    pub check_steps: usize,
    pub frame_steps: usize,
    pub history_steps: usize,
    /// Smallest step kept by adding mass; 0 where none is.
    pub dt_floor: Real,
    /// Largest step that the contact springs allow.
    pub contact_dt: Real,
    pub t: Real,
    pub step: usize,
    /// The step that the elements and contacts allow.
    pub dt_cfl: Real,
    pub eroded: usize,
    pub stage: Stage,
}

/// Whether something done every `every` steps (0 = never) is due.
pub open spec fn due(every: usize, step: usize) -> bool {
    every > 0 && step % every == 0
}

/// Whether something done every `every` steps (0 = never) was not due at the
/// last step.
pub open spec fn missed(every: usize, step: usize) -> bool {
    every > 0 && step % every != 0
}

impl Stepper {
    pub open spec fn at(self, stage: Stage) -> Stepper {
        Stepper { stage, ..self }
    }

    /// A run whose settings are in order.
    pub open spec fn wf(self) -> bool {
        self.adaptive ==> self.check_steps > 0
    }

    /// Whether an event is what the run waits for.
    pub open spec fn expects(self, e: Event) -> bool {
        match e {
            Event::Started => self.stage is Opening,
            Event::Saved => self.stage is Saving || self.stage is Closing,
            Event::Stable(_) => self.stage is Stability,
            Event::Scaled(_) => self.stage is Scaling,
            Event::Remaining(_) => self.stage is Choosing,
            Event::Advanced { time, eroded } => self.stage is Advancing && self.step < usize::MAX
                && self.eroded + eroded <= usize::MAX,
        }
    }

    /// The start of a step: go on while the end is not reached; evaluate the
    /// stable step when its turn comes; at the end save what the last step did
    /// not.
    pub open spec fn top(self) -> (Stepper, Action) {
        if !self.t.below(self.end_time) {
            if missed(self.frame_steps, self.step) || missed(self.history_steps, self.step) {
                (
                    self.at(Stage::Closing),
                    Action::Save {
                        frame: missed(self.frame_steps, self.step),
                        history: missed(self.history_steps, self.step),
                    },
                )
            } else {
                (self.at(Stage::Done), Action::Finish)
            }
        } else if self.adaptive && self.step % self.check_steps == 0 {
            (self.at(Stage::Stability), Action::MeasureStability)
        } else {
            (self.at(Stage::Choosing), Action::MeasureRemaining)
        }
    }

    /// A step has been reached: save what is due at it.
    pub open spec fn reached(self) -> (Stepper, Action) {
        if due(self.frame_steps, self.step) || due(self.history_steps, self.step) {
            (
                self.at(Stage::Saving),
                Action::Save {
                    frame: due(self.frame_steps, self.step),
                    history: due(self.history_steps, self.step),
                },
            )
        } else {
            self.top()
        }
    }

    /// Whether mass is added at a stable step: it is below the floor.
    pub open spec fn adds_mass(self, stable: Real) -> bool {
        Real::spec_zero().below(self.dt_floor) && stable.below(self.dt_floor)
    }

    /// What to do after an event.
    pub open spec fn after(self, e: Event) -> (Stepper, Action) {
        match e {
            Event::Started => self.reached(),
            Event::Saved => if self.stage is Closing {
                (self.at(Stage::Done), Action::Finish)
            } else {
                self.top()
            },
            Event::Stable(stable) => match stable {
                None => (self.at(Stage::Choosing), Action::MeasureRemaining),
                Some(d) => (
                    self.at(Stage::Scaling),
                    Action::ScaleStep {
                        add_mass: self.adds_mass(d),
                        base: (if self.adds_mass(d) {
                            self.dt_floor
                        } else {
                            d
                        }).lesser(self.contact_dt),
                    },
                ),
            },
            Event::Scaled(dt) => (
                Stepper { dt_cfl: dt, stage: Stage::Choosing, ..self },
                Action::MeasureRemaining,
            ),
            Event::Remaining(r) => (
                self.at(Stage::Advancing),
                Action::Advance {
                    dt: self.dt_cfl.lesser(r).greater(Real { bits: SMALLEST_STEP }),
                    check_finite: self.step % FINITE_CHECK_STEPS == 0,
                },
            ),
            Event::Advanced { time, eroded } => (Stepper {
                t: time,
                step: (self.step + 1) as usize,
                eroded: (self.eroded + eroded) as usize,
                ..self
            }).reached(),
        }
    }

    /// A run to be started, with the first step given.
    pub fn new(s: &Settings, dt_floor: Real, contact_dt: Real, dt: Real) -> (r: Stepper)
        ensures
            r.wf(),
            r == (Stepper {
                end_time: s.end_time,
                adaptive: s.time_step is None && s.adaptive_check_steps > 0,
                check_steps: s.adaptive_check_steps,
                frame_steps: s.frame_steps,
                history_steps: s.history_steps,
                dt_floor,
                contact_dt,
                t: Real::spec_zero(),
                step: 0,
                dt_cfl: dt,
                eroded: 0,
                stage: Stage::Opening,
            }),
    {
        Stepper {
            end_time: s.end_time,
            adaptive: s.time_step.is_none() && s.adaptive_check_steps > 0,
            check_steps: s.adaptive_check_steps,
            frame_steps: s.frame_steps,
            history_steps: s.history_steps,
            dt_floor,
            contact_dt,
            t: Real::zero(),
            step: 0,
            dt_cfl: dt,
            eroded: 0,
            stage: Stage::Opening,
        }
    }

    fn start_step(&mut self) -> (a: Action)
        requires
            old(self).wf(),
        ensures
            (*final(self), a) == old(self).top(),
    {
        if !self.t.lt(self.end_time) {
            let frame: bool = self.frame_steps > 0 && self.step % self.frame_steps != 0;
            let history: bool = self.history_steps > 0 && self.step % self.history_steps != 0;
            if frame || history {
                self.stage = Stage::Closing;
                Action::Save { frame, history }
            } else {
                self.stage = Stage::Done;
                Action::Finish
            }
        } else if self.adaptive && self.step % self.check_steps == 0 {
            self.stage = Stage::Stability;
            Action::MeasureStability
        } else {
            self.stage = Stage::Choosing;
            Action::MeasureRemaining
        }
    }

    fn reach(&mut self) -> (a: Action)
        requires
            old(self).wf(),
        ensures
            (*final(self), a) == old(self).reached(),
    {
        let frame: bool = self.frame_steps > 0 && self.step % self.frame_steps == 0;
        let history: bool = self.history_steps > 0 && self.step % self.history_steps == 0;
        if frame || history {
            self.stage = Stage::Saving;
            Action::Save { frame, history }
        } else {
            self.start_step()
        }
    }

    /// Takes what came of the last action and decides on the next.
    pub fn next(&mut self, e: Event) -> (a: Action)
        requires
            old(self).wf(),
            old(self).expects(e),
        ensures
            (*final(self), a) == old(self).after(e),
            final(self).wf(),
    {
        match e {
            Event::Started => self.reach(),
            Event::Saved => if self.stage == Stage::Closing {
                self.stage = Stage::Done;
                Action::Finish
            } else {
                self.start_step()
            },
            Event::Stable(stable) => match stable {
                None => {
                    self.stage = Stage::Choosing;
                    Action::MeasureRemaining
                },
                Some(d) => {
                    self.stage = Stage::Scaling;
                    let add_mass: bool = Real::zero().lt(self.dt_floor) && d.lt(self.dt_floor);
                    let wanted: Real = if add_mass {
                        self.dt_floor
                    } else {
                        d
                    };
                    Action::ScaleStep { add_mass, base: wanted.min(self.contact_dt) }
                },
            },
            Event::Scaled(dt) => {
                self.dt_cfl = dt;
                self.stage = Stage::Choosing;
                Action::MeasureRemaining
            },
            Event::Remaining(r) => {
                self.stage = Stage::Advancing;
                Action::Advance {
                    dt: self.dt_cfl.min(r).max(Real { bits: SMALLEST_STEP }),
                    check_finite: self.step % FINITE_CHECK_STEPS == 0,
                }
            },
            Event::Advanced { time, eroded } => {
                self.t = time;
                self.step += 1;
                self.eroded += eroded;
                self.reach()
            },
        }
    }
}

/// Every step that a run takes is at least the smallest step, and within the
/// time left where that is no less than the smallest step.
pub proof fn law_steps_stay_within_the_run(s: Stepper, r: Real)
    requires
        s.expects(Event::Remaining(r)),
        !s.dt_cfl.nan(),
        !r.nan(),
    ensures
        s.after(Event::Remaining(r)).1 matches Action::Advance { dt, .. } && {
            let least = Real { bits: SMALLEST_STEP };
            &&& !dt.nan()
            &&& least.order() <= dt.order()
            &&& least.at_most(r) ==> dt.at_most(r)
            &&& dt.order() <= s.dt_cfl.order() || dt == least
        },
{
}

/// The stable step is evaluated at the start of exactly those steps whose
/// number is a multiple of the check interval, where it is evaluated at all.
pub proof fn law_stability_is_checked_in_turn(s: Stepper)
    requires
        s.t.below(s.end_time),
    ensures
        s.top().1 is MeasureStability <==> s.adaptive && s.step % s.check_steps == 0,
        s.top().1 is MeasureStability || s.top().1 is MeasureRemaining,
{
}

/// The number of threads to use: as set, or all there are.
pub fn thread_count(set: usize, available: usize) -> (n: usize)
    ensures
        n == if set == 0 {
            available
        } else {
            set
        },
{
    if set == 0 {
        available
    } else {
        set
    }
}

/// Whether a contact spring at a node limits the time step: both its mass and
/// its stiffness are positive.
pub open spec fn limits(mass: Real, stiffness: Real) -> bool {
    Real::spec_zero().below(mass) && Real::spec_zero().below(stiffness)
}

/// The springs that the first `k` nodes of a contact add to those that limit
/// the time step, as mass and stiffness.
pub open spec fn contact_springs(c: Contact, masses: Seq<Real>, k: int) -> Seq<(Real, Real)>
    decreases k,
{
    if k <= 0 {
        Seq::empty()
    } else {
        let before = contact_springs(c, masses, k - 1);
        let m = masses[c.nodes@[k - 1] as int];
        if limits(m, c.stiffness) {
            before.push((m, c.stiffness))
        } else {
            before
        }
    }
}

/// The springs of the first `k` contacts that limit the time step.
pub open spec fn all_springs(contacts: Seq<Contact>, masses: Seq<Real>, k: int) -> Seq<
    (Real, Real),
>
    decreases k,
{
    if k <= 0 {
        Seq::empty()
    } else {
        all_springs(contacts, masses, k - 1) + contact_springs(
            contacts[k - 1],
            masses,
            contacts[k - 1].nodes@.len() as int,
        )
    }
}

/// The contact springs that limit the time step, as mass and stiffness.
pub fn limiting_springs(contacts: &Vec<Contact>, masses: &Vec<Real>) -> (r: Vec<(Real, Real)>)
    requires
        forall|k: int, i: int|
            0 <= k < contacts@.len() && 0 <= i < contacts@[k].nodes@.len() ==> (
            #[trigger] contacts@[k].nodes@[i]) < masses@.len(),
    ensures
        r@ == all_springs(contacts@, masses@, contacts@.len() as int),
{
    let mut r: Vec<(Real, Real)> = Vec::new();
    let mut k: usize = 0;
    while k < contacts.len()
        invariant
            k <= contacts@.len(),
            forall|k: int, i: int|
                0 <= k < contacts@.len() && 0 <= i < contacts@[k].nodes@.len() ==> (
                #[trigger] contacts@[k].nodes@[i]) < masses@.len(),
            r@ == all_springs(contacts@, masses@, k as int),
        decreases contacts.len() - k,
    {
        let c: &Contact = &contacts[k];
        let ghost before = r@;
        let mut i: usize = 0;
        assert(before + contact_springs(*c, masses@, 0) =~= before);
        while i < c.nodes.len()
            invariant
                k < contacts@.len(),
                *c == contacts@[k as int],
                i <= c.nodes@.len(),
                forall|k: int, i: int|
                    0 <= k < contacts@.len() && 0 <= i < contacts@[k].nodes@.len() ==> (
                    #[trigger] contacts@[k].nodes@[i]) < masses@.len(),
                r@ == before + contact_springs(*c, masses@, i as int),
            decreases c.nodes.len() - i,
        {
            assert(contacts@[k as int].nodes@[i as int] < masses@.len());
            let m: Real = masses[c.nodes[i]];
            if Real::zero().lt(m) && Real::zero().lt(c.stiffness) {
                r.push((m, c.stiffness));
            }
            assert(r@ =~= before + contact_springs(*c, masses@, i + 1));
            i += 1;
        }
        k += 1;
    }
    r
}


// ---- whole runs ----

/// Whether the events of a run were each what it waited for.
pub open spec fn is_run(s: Stepper, events: Seq<Event>) -> bool
    decreases events.len(),
{
    events.len() > 0 ==> is_run(s, events.drop_last()) && run_to(s, events.drop_last()).expects(
        events.last(),
    )
}

/// Where a run stands after events.
pub open spec fn run_to(s: Stepper, events: Seq<Event>) -> Stepper
    decreases events.len(),
{
    if events.len() == 0 {
        s
    } else {
        run_to(s, events.drop_last()).after(events.last()).0
    }
}

/// How many times a run asked for a frame, or for the history to be recorded.
pub open spec fn saves(s: Stepper, events: Seq<Event>, history: bool) -> int
    decreases events.len(),
{
    if events.len() == 0 {
        0
    } else {
        let more = match run_to(s, events.drop_last()).after(events.last()).1 {
            Action::Save { frame: f, history: h } => if history {
                h
            } else {
                f
            },
            _ => false,
        };
        saves(s, events.drop_last(), history) + (if more {
            1int
        } else {
            0
        })
    }
}

/// How often something is saved every `every` steps (0 = never) by the time
/// step `step` is done with: at the start and at each multiple.
pub open spec fn turns(every: usize, step: usize) -> int {
    if every == 0 {
        0
    } else {
        step / every + 1
    }
}

proof fn lemma_turns(every: usize, step: usize)
    requires
        step < usize::MAX,
    ensures
        turns(every, (step + 1) as usize) == turns(every, step) + (if due(
            every,
            (step + 1) as usize,
        ) {
            1int
        } else {
            0
        }),
{
    if every > 0 {
        let e = every as int;
        let q = step as int / e;
        let r = step as int % e;
        assert((step + 1) / e == q + (if r + 1 == e {
            1int
        } else {
            0
        }) && ((step + 1) % e == 0 <==> r + 1 == e)) by (nonlinear_arith)
            requires
                e > 0,
                step >= 0,
                q == step as int / e,
                r == step as int % e,
        ;
    }
}

proof fn lemma_saves(s: Stepper, events: Seq<Event>, history: bool)
    requires
        s.stage is Opening,
        s.step == 0,
        is_run(s, events),
    ensures
        ({
            let now = run_to(s, events);
            let every = if history {
                s.history_steps
            } else {
                s.frame_steps
            };
            let last = if missed(every, now.step) {
                1int
            } else {
                0
            };
            &&& now.frame_steps == s.frame_steps
            &&& now.history_steps == s.history_steps
            &&& events.len() > 0 <==> !(now.stage is Opening)
            &&& now.stage is Opening ==> saves(s, events, history) == 0 && now.step == 0
            &&& now.stage is Closing || now.stage is Done ==> saves(s, events, history) == turns(
                every,
                now.step,
            ) + last
            &&& !(now.stage is Opening || now.stage is Closing || now.stage is Done) ==> saves(
                s,
                events,
                history,
            ) == turns(every, now.step)
        }),
    decreases events.len(),
{
    if events.len() > 0 {
        let before = events.drop_last();
        lemma_saves(s, before, history);
        let was = run_to(s, before);
        let every = if history {
            s.history_steps
        } else {
            s.frame_steps
        };
        match events.last() {
            Event::Advanced { time, eroded } => {
                lemma_turns(every, was.step);
            },
            Event::Started => {
                assert(turns(every, 0) == if due(every, 0) {
                    1int
                } else {
                    0
                });
            },
            _ => {},
        }
    }
}

/// A finished run of `n` steps has taken a frame at the start, at every
/// multiple of the frame interval, and at the end where that is no multiple;
/// and it has recorded its history likewise.
pub proof fn law_saves_of_a_run(s: Stepper, events: Seq<Event>)
    requires
        s.stage is Opening,
        s.step == 0,
        is_run(s, events),
        run_to(s, events).stage is Done,
    ensures
        ({
            let n = run_to(s, events).step;
            &&& saves(s, events, false) == turns(s.frame_steps, n) + (if missed(
                s.frame_steps,
                n,
            ) {
                1int
            } else {
                0
            })
            &&& saves(s, events, true) == turns(s.history_steps, n) + (if missed(
                s.history_steps,
                n,
            ) {
                1int
            } else {
                0
            })
        }),
{
    lemma_saves(s, events, false);
    lemma_saves(s, events, true);
}

/// The time reached by a run that is over, or about to be, is not before its
/// end.
pub proof fn law_runs_reach_their_end(s: Stepper, events: Seq<Event>)
    requires
        s.stage is Opening,
        is_run(s, events),
    ensures
        run_to(s, events).end_time == s.end_time,
        run_to(s, events).stage is Done || run_to(s, events).stage is Closing ==> !run_to(
            s,
            events,
        ).t.below(s.end_time),
    decreases events.len(),
{
    if events.len() > 0 {
        law_runs_reach_their_end(s, events.drop_last());
    }
}

// ---- what the events of a run come to ----

/// The last scaled step that the events of a run hold; `first` before there is
/// one.
pub open spec fn last_scaled(events: Seq<Event>, first: Real) -> Real
    decreases events.len(),
{
    if events.len() == 0 {
        first
    } else {
        match events.last() {
            Event::Scaled(x) => x,
            _ => last_scaled(events.drop_last(), first),
        }
    }
}

/// The last time that the events of a run reach; `first` before there is one.
pub open spec fn last_time(events: Seq<Event>, first: Real) -> Real
    decreases events.len(),
{
    if events.len() == 0 {
        first
    } else {
        match events.last() {
            Event::Advanced { time, .. } => time,
            _ => last_time(events.drop_last(), first),
        }
    }
}

/// How many steps the events of a run take.
pub open spec fn steps_taken(events: Seq<Event>) -> int
    decreases events.len(),
{
    if events.len() == 0 {
        0
    } else {
        steps_taken(events.drop_last()) + (if events.last() is Advanced {
            1int
        } else {
            0
        })
    }
}

/// How many elements the events of a run erode.
pub open spec fn elements_lost(events: Seq<Event>) -> int
    decreases events.len(),
{
    if events.len() == 0 {
        0
    } else {
        elements_lost(events.drop_last()) + match events.last() {
            Event::Advanced { eroded, .. } => eroded as int,
            _ => 0,
        }
    }
}

/// A run keeps its settings, and what it holds of its course is what the events
/// say: the step allowed is the last scaled one, the time that of the last step,
/// and steps and eroded elements are counted, none twice.
pub proof fn law_runs_follow_their_events(s: Stepper, events: Seq<Event>)
    requires
        is_run(s, events),
    ensures
        ({
            let now = run_to(s, events);
            &&& now.dt_cfl == last_scaled(events, s.dt_cfl)
            &&& now.t == last_time(events, s.t)
            &&& now.step == s.step + steps_taken(events)
            &&& now.eroded == s.eroded + elements_lost(events)
            &&& now.end_time == s.end_time
            &&& now.adaptive == s.adaptive
            &&& now.check_steps == s.check_steps
            &&& now.frame_steps == s.frame_steps
            &&& now.history_steps == s.history_steps
            &&& now.dt_floor == s.dt_floor
            &&& now.contact_dt == s.contact_dt
        }),
    decreases events.len(),
{
    if events.len() > 0 {
        law_runs_follow_their_events(s, events.drop_last());
    }
}

/// Every step of a run is the last scaled step that it was given, or the time
/// left where that is less, and never less than 1e-15 s; the displacements are
/// checked at every twentieth step.
pub proof fn law_steps_are_as_long_as_allowed(s: Stepper, events: Seq<Event>, r: Real)
    requires
        s.step == 0,
        is_run(s, events.push(Event::Remaining(r))),
        !last_scaled(events, s.dt_cfl).nan(),
        !r.nan(),
    ensures
        run_to(s, events).after(Event::Remaining(r)).1 matches Action::Advance {
            dt,
            check_finite,
        } && {
            let allowed = last_scaled(events, s.dt_cfl);
            let least = Real { bits: 0x3cd2_03af_9ee7_5616 };
            &&& !dt.nan()
            &&& dt.order() >= least.order()
            &&& dt.order() <= allowed.order() || dt == least
            &&& dt.order() <= r.order() || dt == least
            &&& allowed.order() <= r.order() && allowed.order() >= least.order() ==> dt.order()
                == allowed.order()
            &&& r.order() <= allowed.order() && r.order() >= least.order() ==> dt.order()
                == r.order()
            &&& check_finite <==> steps_taken(events) % 20 == 0
        },
{
    assert(events.push(Event::Remaining(r)).drop_last() =~= events);
    law_runs_follow_their_events(s, events);
}

/// After the stable step of the elements was measured, the step that is scaled
/// is that one, but no more than the contact springs allow; where mass may be
/// added, elements that ask for less than the floor get mass, and the floor is
/// scaled. Where no element is left to measure, the step stays.
pub proof fn law_measured_steps_are_scaled(s: Stepper, events: Seq<Event>, stable: Option<Real>)
    requires
        is_run(s, events.push(Event::Stable(stable))),
        !s.dt_floor.nan(),
        !s.contact_dt.nan(),
        stable matches Some(d) ==> !d.nan(),
    ensures
        match stable {
            None => run_to(s, events).after(Event::Stable(stable)).1 is MeasureRemaining,
            Some(d) => run_to(s, events).after(Event::Stable(stable)).1 matches Action::ScaleStep {
                add_mass,
                base,
            } && {
                &&& add_mass <==> 0 < s.dt_floor.order() && d.order() < s.dt_floor.order()
                &&& base == s.contact_dt || base == d || base == s.dt_floor
                &&& base.order() <= s.contact_dt.order()
                &&& !add_mass ==> base.order() <= d.order() && (d.order() <= s.contact_dt.order()
                    ==> base.order() == d.order())
                &&& add_mass ==> base.order() <= s.dt_floor.order() && (s.dt_floor.order()
                    <= s.contact_dt.order() ==> base.order() == s.dt_floor.order())
                &&& d.order() > s.contact_dt.order() && !add_mass ==> base.order()
                    == s.contact_dt.order()
            },
        },
{
    assert(events.push(Event::Stable(stable)).drop_last() =~= events);
    law_runs_follow_their_events(s, events);
}

/// How many times a run asked for a frame, or for the history to be recorded, at
/// step `n`.
pub open spec fn saves_at(s: Stepper, events: Seq<Event>, history: bool, n: int) -> int
    decreases events.len(),
{
    if events.len() == 0 {
        0
    } else {
        let (now, action) = run_to(s, events.drop_last()).after(events.last());
        let more = match action {
            Action::Save { frame: f, history: h } => now.step == n && (if history {
                h
            } else {
                f
            }),
            _ => false,
        };
        saves_at(s, events.drop_last(), history, n) + (if more {
            1int
        } else {
            0
        })
    }
}

/// How many times a run asked for the stable step of the elements at step `n`.
pub open spec fn measures_at(s: Stepper, events: Seq<Event>, n: int) -> int
    decreases events.len(),
{
    if events.len() == 0 {
        0
    } else {
        let (now, action) = run_to(s, events.drop_last()).after(events.last());
        measures_at(s, events.drop_last(), n) + (if action is MeasureStability && now.step == n {
            1int
        } else {
            0
        })
    }
}

/// The interval at which a run saves frames, or records its history.
pub open spec fn save_interval(s: Stepper, history: bool) -> int {
    if history {
        s.history_steps as int
    } else {
        s.frame_steps as int
    }
}

proof fn lemma_saves_at(s: Stepper, events: Seq<Event>, history: bool, n: int)
    requires
        s.stage is Opening,
        s.step == 0,
        s.wf(),
        is_run(s, events),
    ensures
        ({
            let now = run_to(s, events);
            let every = save_interval(s, history);
            let over = now.stage is Closing || now.stage is Done;
            &&& now.wf()
            &&& now.frame_steps == s.frame_steps && now.history_steps == s.history_steps
            &&& events.len() > 0 <==> !(now.stage is Opening)
            &&& now.stage is Opening ==> now.step == 0
            &&& saves_at(s, events, history, n) == if now.stage is Opening || n < 0 || n > now.step
                || every == 0 {
                0int
            } else if n % every == 0 || (over && n == now.step) {
                1
            } else {
                0
            }
        }),
    decreases events.len(),
{
    if events.len() > 0 {
        lemma_saves_at(s, events.drop_last(), history, n);
    }
}

/// In a finished run a frame is taken once at every step whose number is a
/// multiple of the frame interval and once at the last step, and at no other;
/// the history is recorded likewise. Without an interval there is none.
pub proof fn law_saves_come_in_turn(s: Stepper, events: Seq<Event>, history: bool, n: int)
    requires
        s.stage is Opening,
        s.step == 0,
        s.wf(),
        is_run(s, events),
        run_to(s, events).stage is Done,
        0 <= n <= steps_taken(events),
    ensures
        saves_at(s, events, history, n) == if save_interval(s, history) > 0 && (n % save_interval(
            s,
            history,
        ) == 0 || n == steps_taken(events)) {
            1int
        } else {
            0
        },
{
    lemma_saves_at(s, events, history, n);
    law_runs_follow_their_events(s, events);
}

/// A step is taken only before the end, and after the stable step was measured
/// once for it where its turn has come: at every multiple of the check interval
/// of an adaptive run, and at no other step.
pub proof fn law_stability_is_measured_in_turn(s: Stepper, events: Seq<Event>, n: int)
    requires
        s.stage is Opening,
        s.step == 0,
        s.wf(),
        is_run(s, events),
    ensures
        ({
            let now = run_to(s, events);
            let turn = s.adaptive && n % (s.check_steps as int) == 0;
            &&& now.wf()
            &&& now.adaptive == s.adaptive && now.check_steps == s.check_steps && now.end_time
                == s.end_time
            &&& events.len() > 0 <==> !(now.stage is Opening)
            &&& now.stage is Opening ==> now.step == 0
            &&& now.stage is Stability || now.stage is Scaling || now.stage is Choosing
                || now.stage is Advancing ==> now.t.below(s.end_time)
            &&& now.stage is Closing || now.stage is Done ==> !now.t.below(s.end_time)
            &&& now.stage is Stability || now.stage is Scaling ==> s.adaptive && now.step % (
            s.check_steps) == 0
            &&& 0 <= n < now.step ==> measures_at(s, events, n) == if turn {
                1int
            } else {
                0
            }
            &&& n == now.step && (now.stage is Opening || now.stage is Saving || now.stage is Closing
                || now.stage is Done) ==> measures_at(s, events, n) == 0
            &&& n == now.step && (now.stage is Stability || now.stage is Scaling
                || now.stage is Choosing || now.stage is Advancing) ==> measures_at(s, events, n)
                == if turn {
                1int
            } else {
                0
            }
            &&& n > now.step ==> measures_at(s, events, n) == 0
        }),
    decreases events.len(),
{
    if events.len() > 0 {
        law_stability_is_measured_in_turn(s, events.drop_last(), n);
    }
}

// ---- what is recorded ----

/// A recorded sample is the motion of its node, and in the local columns each
/// quantity of that motion turned into the frame: displacement, velocity and
/// acceleration, each in its own column.
pub proof fn law_samples_are_the_motion<
    F: Fn(usize) -> Motion,
    H: Fn([[Real; 3]; 3], [Real; 3]) -> [Real; 3],
>(
    h: NodeHistory,
    i: int,
    t: Real,
    step: usize,
    accelerometer: usize,
    node: usize,
    frame: Option<FrameAxes>,
    motion: F,
    turn: H,
) -> (m: Motion)
    requires
        h.is_sample(i, t, step, accelerometer, node, frame, motion, turn),
    ensures
        call_ensures(motion, (node,), m),
        h.time@[i] == t,
        h.step@[i] == step,
        h.accelerometer@[i] == accelerometer,
        h.node@[i] == node,
        h.position@[i] == m.position,
        h.displacement@[i] == m.displacement,
        h.velocity@[i] == m.velocity,
        h.acceleration@[i] == m.acceleration,
        frame matches Some(f) ==> call_ensures(
            turn,
            (f.axes, m.displacement),
            h.local_displacement@[i],
        ) && call_ensures(turn, (f.axes, m.velocity), h.local_velocity@[i]) && call_ensures(
            turn,
            (f.axes, m.acceleration),
            h.local_acceleration@[i],
        ),
        frame is None ==> h.local_displacement@[i] == m.displacement && h.local_velocity@[i]
            == m.velocity && h.local_acceleration@[i] == m.acceleration,
{
    Motion {
        position: h.position@[i],
        displacement: h.displacement@[i],
        velocity: h.velocity@[i],
        acceleration: h.acceleration@[i],
    }
}

/// The row of a recording that node `i` of accelerometer `a` has.
pub open spec fn row_of(accelerometers: Seq<Accelerometer>, a: int, i: int) -> int {
    samples_before(accelerometers, a) + i
}

/// The rows of one recording are filled, each once: every row belongs to one
/// node of one accelerometer, in their order.
pub proof fn law_every_row_has_its_node(accelerometers: Seq<Accelerometer>, k: int, row: int) -> (r:
    (int, int))
    requires
        0 <= k <= accelerometers.len(),
        0 <= row < samples_before(accelerometers, k),
    ensures
        0 <= r.0 < k,
        0 <= r.1 < accelerometers[r.0].nodes@.len(),
        row == row_of(accelerometers, r.0, r.1),
        forall|a: int, i: int|
            0 <= a < k && 0 <= i < accelerometers[a].nodes@.len() && row == #[trigger] row_of(
                accelerometers,
                a,
                i,
            ) ==> a == r.0 && i == r.1,
    decreases k,
{
    let before = samples_before(accelerometers, k - 1);
    let found = if row < before {
        law_every_row_has_its_node(accelerometers, k - 1, row)
    } else {
        (k - 1, row - before)
    };
    assert forall|a: int, i: int|
        0 <= a < k && 0 <= i < accelerometers[a].nodes@.len() && row == #[trigger] row_of(
            accelerometers,
            a,
            i,
        ) implies a == found.0 && i == found.1 by {
        lemma_counts(accelerometers, 0, k - 1);
        if a < k - 1 {
            lemma_counts(accelerometers, a + 1, k - 1);
            assert(samples_before(accelerometers, a + 1) == samples_before(accelerometers, a)
                + accelerometers[a].nodes@.len());
            assert(row < before);
        } else {
            assert(row >= before);
        }
    }
    found
}

/// One accelerometer after the other has as many rows as nodes, and a row of
/// axes if it has a frame.
pub proof fn law_rows_by_accelerometer(accelerometers: Seq<Accelerometer>, a: int)
    requires
        0 <= a < accelerometers.len(),
    ensures
        samples_before(accelerometers, 0) == 0,
        frames_before(accelerometers, 0) == 0,
        samples_before(accelerometers, a + 1) - samples_before(accelerometers, a)
            == accelerometers[a].nodes@.len(),
        frames_before(accelerometers, a + 1) - frames_before(accelerometers, a) == (
        if accelerometers[a].frame is Some {
            1int
        } else {
            0
        }),
{
}

/// The springs that limit the time step are those of all contact nodes whose
/// mass and stiffness are both above zero, and no others.
pub proof fn law_limiting_springs(contacts: Seq<Contact>, masses: Seq<Real>, k: int)
    requires
        0 <= k <= contacts.len(),
    ensures
        forall|c: int, i: int|
            0 <= c < k && 0 <= i < contacts[c].nodes@.len() && !contacts[c].stiffness.nan()
                && contacts[c].stiffness.order() > 0 && !masses[contacts[c].nodes@[i] as int].nan()
                && masses[contacts[c].nodes@[i] as int].order() > 0 ==> all_springs(
                contacts,
                masses,
                k,
            ).contains(
                (masses[(#[trigger] contacts[c].nodes@[i]) as int], contacts[c].stiffness),
            ),
        forall|j: int|
            0 <= j < all_springs(contacts, masses, k).len() ==> is_spring(
                contacts,
                masses,
                k,
                #[trigger] all_springs(contacts, masses, k)[j],
            ),
    decreases k,
{
    if k > 0 {
        law_limiting_springs(contacts, masses, k - 1);
        let c = contacts[k - 1];
        let n = c.nodes@.len() as int;
        let before = all_springs(contacts, masses, k - 1);
        let more = contact_springs(c, masses, n);
        let all = all_springs(contacts, masses, k);
        assert(all == before + more);
        lemma_contact_springs(contacts, masses, k, n);
        assert forall|c: int, i: int|
            0 <= c < k && 0 <= i < contacts[c].nodes@.len() && !contacts[c].stiffness.nan()
                && contacts[c].stiffness.order() > 0 && !masses[contacts[c].nodes@[i] as int].nan()
                && masses[contacts[c].nodes@[i] as int].order() > 0 implies all.contains(
            (masses[(#[trigger] contacts[c].nodes@[i]) as int], contacts[c].stiffness),
        ) by {
            let x = (masses[contacts[c].nodes@[i] as int], contacts[c].stiffness);
            if c < k - 1 {
                assert(before.contains(x));
                let j = choose|j: int| 0 <= j < before.len() && before[j] == x;
                assert(all[j] == x);
            } else {
                assert(more.contains(x));
                let j = choose|j: int| 0 <= j < more.len() && more[j] == x;
                assert(all[before.len() + j] == x);
            }
        }
        assert forall|j: int| 0 <= j < all.len() implies is_spring(
            contacts,
            masses,
            k,
            #[trigger] all[j],
        ) by {
            if j < before.len() {
                assert(is_spring(contacts, masses, k - 1, before[j]));
                let (c, i) = choose|c: int, i: int|
                    #![trigger contacts[c].nodes@[i]]
                    0 <= c < k - 1 && 0 <= i < contacts[c].nodes@.len() && before[j] == (
                        masses[contacts[c].nodes@[i] as int],
                        contacts[c].stiffness,
                    );
                assert(contacts[c].nodes@[i] == contacts[c].nodes@[i]);
            } else {
                assert(is_spring(contacts, masses, k, more[j - before.len()]));
            }
        }
    }
}

/// Whether a mass and a stiffness, both above zero, are those of a node of one of
/// the first `k` contacts.
pub open spec fn is_spring(
    contacts: Seq<Contact>,
    masses: Seq<Real>,
    k: int,
    spring: (Real, Real),
) -> bool {
    &&& spring.0.order() > 0
    &&& spring.1.order() > 0
    &&& exists|c: int, i: int|
        #![trigger contacts[c].nodes@[i]]
        0 <= c < k && 0 <= i < contacts[c].nodes@.len() && spring == (
            masses[contacts[c].nodes@[i] as int],
            contacts[c].stiffness,
        )
}

proof fn lemma_contact_springs(contacts: Seq<Contact>, masses: Seq<Real>, k: int, n: int)
    requires
        0 < k <= contacts.len(),
        0 <= n <= contacts[k - 1].nodes@.len(),
    ensures
        ({
            let c = contacts[k - 1];
            let s = contact_springs(c, masses, n);
            &&& forall|i: int|
                0 <= i < n && !c.stiffness.nan() && c.stiffness.order() > 0
                    && !masses[c.nodes@[i] as int].nan() && masses[c.nodes@[i] as int].order() > 0
                    ==> s.contains((masses[(#[trigger] c.nodes@[i]) as int], c.stiffness))
            &&& forall|j: int|
                0 <= j < s.len() ==> is_spring(contacts, masses, k, #[trigger] s[j])
        }),
    decreases n,
{
    if n > 0 {
        lemma_contact_springs(contacts, masses, k, n - 1);
        let c = contacts[k - 1];
        let before = contact_springs(c, masses, n - 1);
        let s = contact_springs(c, masses, n);
        let last = (masses[c.nodes@[n - 1] as int], c.stiffness);
        assert forall|i: int|
            0 <= i < n && !c.stiffness.nan() && c.stiffness.order() > 0
                && !masses[c.nodes@[i] as int].nan() && masses[c.nodes@[i] as int].order()
                > 0 implies s.contains(
            (masses[(#[trigger] c.nodes@[i]) as int], c.stiffness),
        ) by {
            let x = (masses[c.nodes@[i] as int], c.stiffness);
            if i == n - 1 {
                assert(s.last() == x);
            } else {
                assert(before.contains(x));
                let j = choose|j: int| 0 <= j < before.len() && before[j] == x;
                assert(s[j] == x);
            }
        }
        assert forall|j: int| 0 <= j < s.len() implies is_spring(
            contacts,
            masses,
            k,
            #[trigger] s[j],
        ) by {
            if j < before.len() {
                assert(is_spring(contacts, masses, k, before[j]));
            } else {
                assert(s[j] == last);
                assert(contacts[k - 1].nodes@[n - 1] == c.nodes@[n - 1]);
            }
        }
    }
}

// ---- frames and what refers to nodes ----

/// Frames are recorded for the accelerometers that have one, in their order and
/// none left out.
pub proof fn law_frames_are_those_of_the_accelerometers(
    accelerometers: Seq<Accelerometer>,
    k: int,
)
    requires
        0 <= k <= accelerometers.len(),
    ensures
        frames_before(accelerometers, k) == crate::indices::places_where(
            k,
            |a: int| accelerometers[a].frame is Some,
        ).len(),
    decreases k,
{
    if k > 0 {
        law_frames_are_those_of_the_accelerometers(accelerometers, k - 1);
    }
}

/// A recorded sample of an accelerometer's node is turned into that
/// accelerometer's own frame, as its nodes give it at the time: the frame that
/// stands in the row of the accelerometer. An accelerometer without a frame
/// records the motion as it is.
pub proof fn law_samples_are_turned_into_their_own_frame<
    F: Fn(usize) -> Motion,
    G: Fn(LocalFrame) -> FrameAxes,
    H: Fn([[Real; 3]; 3], [Real; 3]) -> [Real; 3],
>(
    nodes: NodeHistory,
    row0: int,
    frames: FrameHistory,
    frame_row0: int,
    accelerometers: Seq<Accelerometer>,
    k: int,
    t: Real,
    step: usize,
    motion: F,
    axes: G,
    turn: H,
    a: int,
    i: int,
) -> (r: (Motion, FrameAxes))
    requires
        nodes_sampled(
            nodes,
            row0,
            frames,
            frame_row0,
            accelerometers,
            k,
            t,
            step,
            motion,
            turn,
        ),
        frames_sampled(frames, frame_row0, accelerometers, k, t, step, axes),
        0 <= a < k <= accelerometers.len() <= usize::MAX,
        0 <= i < accelerometers[a].nodes@.len(),
    ensures
        ({
            let n = row0 + samples_before(accelerometers, a) + i;
            let (m, f) = r;
            &&& nodes.time@[n] == t
            &&& nodes.step@[n] == step
            &&& nodes.accelerometer@[n] == a
            &&& nodes.node@[n] == accelerometers[a].nodes@[i]
            &&& call_ensures(motion, (accelerometers[a].nodes@[i],), m)
            &&& nodes.position@[n] == m.position
            &&& nodes.displacement@[n] == m.displacement
            &&& nodes.velocity@[n] == m.velocity
            &&& nodes.acceleration@[n] == m.acceleration
            &&& accelerometers[a].frame is None ==> nodes.local_displacement@[n] == m.displacement
                && nodes.local_velocity@[n] == m.velocity && nodes.local_acceleration@[n]
                == m.acceleration
            &&& accelerometers[a].frame matches Some(local) ==> {
                let at = frame_row0 + crate::indices::places_where(
                    a,
                    |b: int| accelerometers[b].frame is Some,
                ).len();
                &&& call_ensures(axes, (local,), f)
                &&& frames.time@[at] == t
                &&& frames.step@[at] == step
                &&& frames.accelerometer@[at] == a
                &&& frames.origin@[at] == f.origin
                &&& frames.axes@[at] == f.axes
                &&& call_ensures(turn, (f.axes, m.displacement), nodes.local_displacement@[n])
                &&& call_ensures(turn, (f.axes, m.velocity), nodes.local_velocity@[n])
                &&& call_ensures(turn, (f.axes, m.acceleration), nodes.local_acceleration@[n])
            }
        }),
{
    let n = row0 + samples_before(accelerometers, a) + i;
    let node = accelerometers[a].nodes@[i];
    let frame = recorded_frame(frames, frame_row0, accelerometers, a);
    assert(nodes.is_sample(n, t, step, a as usize, node, frame, motion, turn));
    law_frames_are_those_of_the_accelerometers(accelerometers, a);
    let m = law_samples_are_the_motion(nodes, n, t, step, a as usize, node, frame, motion, turn);
    let at = frame_row0 + frames_before(accelerometers, a);
    assert(accelerometers[a].frame is Some ==> frames.accelerometer@[at] == a);
    (m, FrameAxes { origin: frames.origin@[at], axes: frames.axes@[at] })
}

/// An accelerometer refers to its nodes and, where it has a frame, to the three
/// nodes of that; it is refused for the first of them that does not exist.
pub proof fn law_strays(a: Accelerometer, n_nodes: int)
    ensures
        refers_beyond(a, n_nodes) <==> {
            ||| exists|i: int| 0 <= i < a.nodes@.len() && #[trigger] a.nodes@[i] >= n_nodes
            ||| a.frame matches Some(f) && (f.origin >= n_nodes || f.x_axis >= n_nodes || f.plane
                >= n_nodes)
        },
{
    let all = referred(a);
    let n = a.nodes@.len() as int;
    if refers_beyond(a, n_nodes) {
        let j = choose|j: int| 0 <= j < all.len() && #[trigger] all[j] >= n_nodes;
        if j < n {
            assert(a.nodes@[j] >= n_nodes);
        }
    }
    if exists|i: int| 0 <= i < n && #[trigger] a.nodes@[i] >= n_nodes {
        let i = choose|i: int| 0 <= i < n && #[trigger] a.nodes@[i] >= n_nodes;
        assert(all[i] >= n_nodes);
    }
    if a.frame is Some {
        let f = a.frame->0;
        assert(all[n] == f.origin && all[n + 1] == f.x_axis && all[n + 2] == f.plane);
    }
}

/// Something done every so many steps is due at the multiples of that number, and
/// never where the number is zero; at the end of a run it was missed at any other
/// step.
pub proof fn law_dues(every: usize, step: usize, k: int)
    requires
        0 <= k,
    ensures
        every == 0 ==> !due(every, step) && !missed(every, step),
        every > 0 ==> (due(every, step) <==> !missed(every, step)),
        every > 0 && step == k * every ==> due(every, step),
        due(every, step) ==> step == (step as int / every as int) * every,
{
    if every > 0 {
        vstd::arithmetic::div_mod::lemma_fundamental_div_mod(step as int, every as int);
        assert((step as int / every as int) * every == every * (step as int / every as int))
            by (nonlinear_arith);
        if step == k * every {
            vstd::arithmetic::div_mod::lemma_mod_multiples_basic(k, every as int);
        }
    }
}

/// A run that has reached its end time takes no more steps: it saves what is still
/// to be saved, or is finished. One that has not goes on.
pub proof fn law_runs_stop_at_their_end_time(s: Stepper)
    requires
        !s.t.nan(),
        !s.end_time.nan(),
    ensures
        s.t.order() >= s.end_time.order() ==> s.top().0.stage is Done || s.top().0.stage is Closing,
        s.t.order() < s.end_time.order() ==> s.top().1 is MeasureStability
            || s.top().1 is MeasureRemaining,
        s.top().1 is Finish <==> s.top().0.stage is Done,
        s.top().0.t == s.t,
        s.top().0.dt_cfl == s.dt_cfl,
        s.top().0.step == s.step,
        s.top().0.eroded == s.eroded,
{
}

} // verus!
