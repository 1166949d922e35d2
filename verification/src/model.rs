//! The simulation model: mesh, materials, initial conditions, contact and
//! solver settings.

use crate::indices::copy_of;
use crate::material::Material;
use crate::mesh::Mesh;
use crate::number::Real;
use vstd::prelude::*;

verus! {

/// One-way node-to-face penalty contact of nodes against faces. Use
/// [`Model::add_contact_pair`] for the usual two-way pairing.
#[derive(Clone, Debug)]
pub struct Contact {
    pub nodes: Vec<usize>,
    pub faces: Vec<usize>,
    /// Penalty stiffness per contacting node (N/m).
    pub stiffness: Real,
    /// Search distance (m): nodes further than this from the faces' bounding
    /// box at start are ignored, and penetrations deeper than this are treated
    /// as spurious (the far side of a thin body).
    pub max_distance: Real,
}

/// A body-fixed coordinate system defined by three nodes: local x runs from
/// `origin` towards `x_axis`, local z is normal to the plane of the three
/// nodes, local y completes the right-handed triad.
#[derive(Clone, Copy, Debug, PartialEq, Eq, Structural)]
pub struct LocalFrame {
    pub origin: usize,
    pub x_axis: usize,
    /// A node in the local x-y plane (on the +y side).
    pub plane: usize,
}

/// High-frequency nodal history request: displacement, velocity and
/// acceleration of `nodes` every `Settings::history_steps`, in global axes
/// and, if `frame` is set, in that body-fixed frame too.
#[derive(Clone, Debug)]
pub struct Accelerometer {
    pub name: String,
    pub nodes: Vec<usize>,
    pub frame: Option<LocalFrame>,
}

/// Solver settings.
#[derive(Clone, Debug)]
pub struct Settings {
    /// Simulated duration (s).
    pub end_time: Real,
    /// Safety factor on the stability limit.
    pub dt_scale: Real,
    /// Fixed time step (s); overrides the stability estimate if set.
    pub time_step: Option<Real>,
    /// Re-evaluate the stable step from the current element sizes every N
    /// steps (0 = never).
    pub adaptive_check_steps: usize,
    /// Hourglass stabilisation stiffness as a fraction of E.
    pub hourglass: Real,
    /// Per-step velocity scale factor (1 = conserve momentum).
    pub velocity_damping: Real,
    /// Capture a deformed-mesh frame every N steps (0 = never).
    pub frame_steps: usize,
    /// Record per-part mean motion every N steps (0 = never).
    pub history_steps: usize,
    /// Lane-parallel single-precision kernel for honeycomb elements.
    pub simd: bool,
    /// Worker threads (0 = all available).
    pub threads: usize,
    /// Smallest step kept, as a fraction of the first stable step, by adding
    /// mass to elements that would ask for less (0 = no mass is added).
    pub mass_scaling: Real,
}

/// Steps between two evaluations of the stable step, unless set otherwise.
pub fn default_adaptive() -> (n: usize)
    ensures
        n == 5,
{
    5
}

/// The lane kernel is used, unless set otherwise.
pub fn default_true() -> (b: bool)
    ensures
        b,
{
    true
}

/// Encoding of 0.15.
pub const DEFAULT_END_TIME: u64 = 0x3fc3_3333_3333_3333;

/// Encoding of 0.85.
pub const DEFAULT_DT_SCALE: u64 = 0x3feb_3333_3333_3333;

/// Encoding of 0.1.
pub const DEFAULT_HOURGLASS: u64 = 0x3fb9_9999_9999_999a;

/// Encoding of 0.5.
pub const HALF: u64 = 0x3fe0_0000_0000_0000;

impl Settings {
    pub open spec fn spec_default() -> Settings {
        Settings {
            end_time: Real { bits: DEFAULT_END_TIME },
            dt_scale: Real { bits: DEFAULT_DT_SCALE },
            time_step: None,
            adaptive_check_steps: 5,
            hourglass: Real { bits: DEFAULT_HOURGLASS },
            velocity_damping: Real::spec_one(),
            frame_steps: 0,
            history_steps: 0,
            simd: true,
            threads: 0,
            mass_scaling: Real::spec_zero(),
        }
    }
}

impl Default for Settings {
    fn default() -> (s: Settings)
        ensures
            s == Settings::spec_default(),
    {
        Settings {
            end_time: Real { bits: DEFAULT_END_TIME },
            dt_scale: Real { bits: DEFAULT_DT_SCALE },
            time_step: None,
            adaptive_check_steps: default_adaptive(),
            hourglass: Real { bits: DEFAULT_HOURGLASS },
            velocity_damping: Real::one(),
            frame_steps: 0,
            history_steps: 0,
            simd: default_true(),
            threads: 0,
            mass_scaling: Real::zero(),
        }
    }
}

/// Nodal velocities after those of the listed nodes were set.
pub open spec fn with_velocity(before: Seq<[Real; 3]>, list: Seq<usize>, v: [Real; 3]) -> Seq<
    [Real; 3],
> {
    Seq::new(
        before.len(),
        |n: int|
            if list.contains(n as usize) {
                v
            } else {
                before[n]
            },
    )
}

/// Mesh, materials, initial conditions, contact and settings.
#[derive(Clone, Debug)]
pub struct Model {
    pub mesh: Mesh<[Real; 3]>,
    /// Material per part.
    pub materials: Vec<Material>,
    /// Initial velocity per node.
    pub initial_velocity: Vec<[Real; 3]>,
    /// Nodes held fixed.
    pub fixed_nodes: Vec<usize>,
    pub contacts: Vec<Contact>,
    pub accelerometers: Vec<Accelerometer>,
    pub settings: Settings,
}

impl Model {
    /// There is a material for each part and a velocity for each node, and
    /// what is listed exists.
    pub open spec fn wf(self) -> bool {
        &&& self.mesh.wf()
        &&& self.materials@.len() == self.mesh.parts@.len()
        &&& self.initial_velocity@.len() == self.mesh.nodes@.len()
        &&& forall|i: int|
            0 <= i < self.fixed_nodes@.len() ==> #[trigger] self.fixed_nodes@[i]
                < self.mesh.nodes@.len()
        &&& forall|k: int, i: int|
            0 <= k < self.contacts@.len() && 0 <= i < self.contacts@[k].nodes@.len() ==> (
            #[trigger] self.contacts@[k].nodes@[i]) < self.mesh.nodes@.len()
        &&& forall|k: int, i: int|
            0 <= k < self.contacts@.len() && 0 <= i < self.contacts@[k].faces@.len() ==> (
            #[trigger] self.contacts@[k].faces@[i]) < self.mesh.faces@.len()
    }

    pub fn new(mesh: Mesh<[Real; 3]>) -> (m: Model)
        ensures
            m.mesh == mesh,
            m.materials@.len() == mesh.parts@.len(),
            forall|p: int|
                0 <= p < m.materials@.len() ==> #[trigger] m.materials@[p]
                    == Material::spec_elastic(
                    Real::spec_one(),
                    Real::spec_zero(),
                    Real::spec_one(),
                ),
            m.initial_velocity@.len() == mesh.nodes@.len(),
            forall|n: int|
                0 <= n < m.initial_velocity@.len() ==> (#[trigger] m.initial_velocity@[n])@
                    == seq![Real::spec_zero(), Real::spec_zero(), Real::spec_zero()],
            m.fixed_nodes@ == Seq::<usize>::empty(),
            m.contacts@ == Seq::<Contact>::empty(),
            m.accelerometers@ == Seq::<Accelerometer>::empty(),
            m.settings == Settings::spec_default(),
            mesh.wf() ==> m.wf(),
    {
        let mut materials: Vec<Material> = Vec::new();
        let mut p: usize = 0;
        while p < mesh.parts.len()
            invariant
                p <= mesh.parts@.len(),
                materials@.len() == p,
                forall|k: int|
                    0 <= k < p ==> #[trigger] materials@[k] == Material::spec_elastic(
                        Real::spec_one(),
                        Real::spec_zero(),
                        Real::spec_one(),
                    ),
            decreases mesh.parts.len() - p,
        {
            materials.push(Material::elastic(Real::one(), Real::zero(), Real::one()));
            p += 1;
        }
        let still: [Real; 3] = [Real::zero(), Real::zero(), Real::zero()];
        assert(still@ =~= seq![Real::spec_zero(), Real::spec_zero(), Real::spec_zero()]);
        let mut initial_velocity: Vec<[Real; 3]> = Vec::new();
        let mut n: usize = 0;
        while n < mesh.nodes.len()
            invariant
                n <= mesh.nodes@.len(),
                still@ == seq![Real::spec_zero(), Real::spec_zero(), Real::spec_zero()],
                initial_velocity@.len() == n,
                forall|k: int| 0 <= k < n ==> #[trigger] initial_velocity@[k] == still,
            decreases mesh.nodes.len() - n,
        {
            initial_velocity.push(still);
            n += 1;
        }
        Model {
            mesh,
            materials,
            initial_velocity,
            fixed_nodes: Vec::new(),
            contacts: Vec::new(),
            accelerometers: Vec::new(),
            settings: Settings::default(),
        }
    }

    /// Records the motion of `nodes` (global axes, plus `frame` axes if given).
    pub fn add_accelerometer(
        &mut self,
        name: &str,
        nodes: Vec<usize>,
        frame: Option<LocalFrame>,
    ) -> (r: &mut Self)
        ensures
            r.accelerometers@.len() == old(self).accelerometers@.len() + 1,
            r.accelerometers@.drop_last() == old(self).accelerometers@,
            r.accelerometers@.last().name@ == name@,
            r.accelerometers@.last().nodes == nodes,
            r.accelerometers@.last().frame == frame,
            r.mesh == old(self).mesh,
            r.materials == old(self).materials,
            r.initial_velocity == old(self).initial_velocity,
            r.fixed_nodes == old(self).fixed_nodes,
            r.contacts == old(self).contacts,
            r.settings == old(self).settings,
            old(self).wf() ==> r.wf(),
            *final(self) == *final(r),
    {
        self.accelerometers.push(Accelerometer { name: name.to_string(), nodes, frame });
        assert(self.accelerometers@.drop_last() =~= old(self).accelerometers@);
        self
    }

    /// Sets the material of the first part of a name.
    pub fn set_material(&mut self, part: &str, material: Material) -> (r: &mut Self)
        requires
            old(self).mesh.has_part(part@),
            old(self).mesh.parts@.len() <= old(self).materials@.len(),
        ensures
            r.materials@ == old(self).materials@.update(
                old(self).mesh.first_part(part@),
                material,
            ),
            r.mesh == old(self).mesh,
            r.initial_velocity == old(self).initial_velocity,
            r.fixed_nodes == old(self).fixed_nodes,
            r.contacts == old(self).contacts,
            r.accelerometers == old(self).accelerometers,
            r.settings == old(self).settings,
            old(self).wf() ==> r.wf(),
            *final(self) == *final(r),
    {
        match self.mesh.part_index(part) {
            Some(p) => {
                self.materials.set(p, material);
            },
            None => {},
        }
        self
    }

    /// Sets the initial velocity of a node set or part.
    pub fn set_initial_velocity(&mut self, set: &str, v: [Real; 3]) -> (r: &mut Self)
        requires
            old(self).mesh.wf(),
            old(self).mesh.named_nodes(set@) matches Some(list) && forall|i: int|
                0 <= i < list.len() ==> #[trigger] list[i] < old(self).initial_velocity@.len(),
        ensures
            r.initial_velocity@ == with_velocity(
                old(self).initial_velocity@,
                old(self).mesh.named_nodes(set@)->0,
                v,
            ),
            r.mesh == old(self).mesh,
            r.materials == old(self).materials,
            r.fixed_nodes == old(self).fixed_nodes,
            r.contacts == old(self).contacts,
            r.accelerometers == old(self).accelerometers,
            r.settings == old(self).settings,
            old(self).wf() ==> r.wf(),
            *final(self) == *final(r),
    {
        let nodes: Vec<usize> = match self.mesh.nodes_of(set) {
            Some(nodes) => nodes,
            None => Vec::new(),
        };
        let ghost before = self.initial_velocity@;
        let total: usize = self.initial_velocity.len();
        proof {
            let list = self.mesh.named_nodes(set@)->0;
            assert(nodes@ == list);
            assert forall|k: int| 0 <= k < nodes@.len() implies #[trigger] nodes@[k]
                < before.len() by {
                assert(list[k] < before.len());
            }
        }
        let mut velocity: Vec<[Real; 3]> = Vec::new();
        core::mem::swap(&mut velocity, &mut self.initial_velocity);
        let mut i: usize = 0;
        while i < nodes.len()
            invariant
                i <= nodes@.len(),
                velocity@.len() == before.len(),
                before.len() == total,
                forall|k: int| 0 <= k < nodes@.len() ==> #[trigger] nodes@[k] < before.len(),
                forall|n: int|
                    0 <= n < before.len() ==> #[trigger] velocity@[n] == if nodes@.take(
                        i as int,
                    ).contains(n as usize) {
                        v
                    } else {
                        before[n]
                    },
            decreases nodes.len() - i,
        {
            assert(nodes@[i as int] < before.len());
            let ghost held = velocity@;
            velocity.set(nodes[i], v);
            assert forall|n: int| 0 <= n < before.len() implies #[trigger] velocity@[n]
                == if nodes@.take(i + 1).contains(n as usize) {
                v
            } else {
                before[n]
            } by {
                let earlier = nodes@.take(i as int);
                let later = nodes@.take(i + 1);
                if earlier.contains(n as usize) {
                    let k = choose|k: int| 0 <= k < earlier.len() && earlier[k] == n as usize;
                    assert(later[k] == n as usize);
                }
                assert(later[i as int] == nodes@[i as int]);
                if later.contains(n as usize) && n != nodes@[i as int] {
                    let k = choose|k: int| 0 <= k < later.len() && later[k] == n as usize;
                    assert(earlier[k] == n as usize);
                }
                assert(held[n] == if earlier.contains(n as usize) {
                    v
                } else {
                    before[n]
                });
            }
            i += 1;
        }
        assert(nodes@.take(i as int) =~= nodes@);
        assert(velocity@ =~= with_velocity(before, nodes@, v));
        self.initial_velocity = velocity;
        self
    }

    /// Holds a node set or part fixed.
    pub fn fix(&mut self, set: &str) -> (r: &mut Self)
        requires
            old(self).mesh.wf(),
            old(self).mesh.named_nodes(set@) is Some,
        ensures
            r.fixed_nodes@ == old(self).fixed_nodes@ + old(self).mesh.named_nodes(set@)->0,
            r.mesh == old(self).mesh,
            r.materials == old(self).materials,
            r.initial_velocity == old(self).initial_velocity,
            r.contacts == old(self).contacts,
            r.accelerometers == old(self).accelerometers,
            r.settings == old(self).settings,
            old(self).wf() ==> r.wf(),
            *final(self) == *final(r),
    {
        let mut nodes: Vec<usize> = match self.mesh.nodes_of(set) {
            Some(nodes) => nodes,
            None => Vec::new(),
        };
        let ghost listed = nodes@;
        self.fixed_nodes.append(&mut nodes);
        proof {
            let before = old(self).fixed_nodes@;
            assert forall|i: int|
                old(self).wf() && 0 <= i
                    < self.fixed_nodes@.len() implies #[trigger] self.fixed_nodes@[i]
                < self.mesh.nodes@.len() by {
                if i < before.len() {
                    assert(before[i] < self.mesh.nodes@.len());
                } else {
                    assert(listed[i - before.len()] < self.mesh.nodes@.len());
                }
            }
        }
        self
    }

    /// The contact of the nodes of one face set against the faces of another.
    pub open spec fn is_contact(
        self,
        c: Contact,
        nodes_of: Seq<char>,
        faces_of: Seq<char>,
        stiffness: Real,
        max_distance: Real,
    ) -> bool {
        &&& self.mesh.lists_corners(c.nodes@, self.mesh.face_sets@[nodes_of])
        &&& c.faces@ == self.mesh.face_sets@[faces_of]
        &&& c.stiffness == stiffness
        &&& c.max_distance == max_distance
    }

    fn contact(
        &self,
        nodes_of: &str,
        faces_of: &str,
        stiffness: Real,
        max_distance: Real,
    ) -> (c: Contact)
        requires
            self.mesh.wf(),
            self.mesh.face_sets@.dom().contains(nodes_of@),
            self.mesh.face_sets@.dom().contains(faces_of@),
        ensures
            self.is_contact(c, nodes_of@, faces_of@, stiffness, max_distance),
            self.mesh.nodes_exist(c.nodes@),
            forall|i: int| 0 <= i < c.faces@.len() ==> #[trigger] c.faces@[i]
                < self.mesh.faces@.len(),
    {
        assert forall|k: int|
            0 <= k < self.mesh.face_sets@[nodes_of@].len() implies #[trigger] self.mesh.face_sets@[nodes_of@][k]
            < self.mesh.faces.len() by {}
        let nodes: Vec<usize> = match self.mesh.face_set_nodes(nodes_of) {
            Some(nodes) => nodes,
            None => Vec::new(),
        };
        let faces: Vec<usize> = match self.mesh.face_set(faces_of) {
            Some(faces) => copy_of(faces),
            None => Vec::new(),
        };
        proof {
            self.mesh.lemma_corners_exist(nodes@, self.mesh.face_sets@[nodes_of@]);
            assert forall|i: int| 0 <= i < faces@.len() implies #[trigger] faces@[i]
                < self.mesh.faces@.len() by {
                assert(self.mesh.face_sets@[faces_of@][i] < self.mesh.faces.len());
            }
        }
        Contact { nodes, faces, stiffness, max_distance }
    }

    /// Two-way contact between two face sets: the nodes of each against the
    /// faces of the other. Each side carries half the pair's stiffness.
    pub fn add_contact_pair(
        &mut self,
        a: &str,
        b: &str,
        stiffness: Real,
        max_distance: Real,
    ) -> (r: &mut Self)
        requires
            old(self).mesh.wf(),
            old(self).mesh.face_sets@.dom().contains(a@),
            old(self).mesh.face_sets@.dom().contains(b@),
        ensures
            r.contacts@.len() == old(self).contacts@.len() + 2,
            r.contacts@.take(old(self).contacts@.len() as int) == old(self).contacts@,
            old(self).is_contact(
                r.contacts@[old(self).contacts@.len() as int],
                a@,
                b@,
                stiffness.halved(),
                max_distance,
            ),
            old(self).is_contact(
                r.contacts@[old(self).contacts@.len() as int + 1],
                b@,
                a@,
                stiffness.halved(),
                max_distance,
            ),
            r.mesh == old(self).mesh,
            r.materials == old(self).materials,
            r.initial_velocity == old(self).initial_velocity,
            r.fixed_nodes == old(self).fixed_nodes,
            r.accelerometers == old(self).accelerometers,
            r.settings == old(self).settings,
            old(self).wf() ==> r.wf(),
            *final(self) == *final(r),
    {
        let side: Real = stiffness.half();
        let first: Contact = self.contact(a, b, side, max_distance);
        let second: Contact = self.contact(b, a, side, max_distance);
        self.contacts.push(first);
        self.contacts.push(second);
        proof {
            let before = old(self).contacts@;
            assert(self.contacts@.take(before.len() as int) =~= before);
            assert forall|k: int, i: int|
                old(self).wf() && 0 <= k < self.contacts@.len() && 0 <= i
                    < self.contacts@[k].nodes@.len() implies (
            #[trigger] self.contacts@[k].nodes@[i]) < self.mesh.nodes@.len() by {
                if k < before.len() {
                    assert(before[k].nodes@[i] < self.mesh.nodes@.len());
                } else if k == before.len() {
                    assert(first.nodes@[i] < self.mesh.nodes@.len());
                } else {
                    assert(second.nodes@[i] < self.mesh.nodes@.len());
                }
            }
            assert forall|k: int, i: int|
                old(self).wf() && 0 <= k < self.contacts@.len() && 0 <= i
                    < self.contacts@[k].faces@.len() implies (
            #[trigger] self.contacts@[k].faces@[i]) < self.mesh.faces@.len() by {
                if k < before.len() {
                    assert(before[k].faces@[i] < self.mesh.faces@.len());
                } else if k == before.len() {
                    assert(first.faces@[i] < self.mesh.faces@.len());
                } else {
                    assert(second.faces@[i] < self.mesh.faces@.len());
                }
            }
        }
        self
    }

    /// Adds an accelerometer at a node with a body-fixed frame of it and its
    /// neighbours, whose axes start parallel to the global ones: local x along
    /// +X, local y along +Y. `neighbour` gives the neighbour of a node that is
    /// best aligned with a direction, one node left out where so told, with the
    /// cosine of the alignment. Nothing is added where no frame can be made.
    pub fn add_accelerometer_at<F: Fn(usize, Way, Option<usize>) -> Option<(usize, Real)>>(
        &mut self,
        name: &str,
        node: usize,
        neighbour: &F,
    ) -> (r: Result<(), FrameError>)
        requires
            forall|n: usize, w: Way, x: Option<usize>| #[trigger]
                call_requires(*neighbour, (n, w, x)),
        ensures
            exists|a: Answers|
                {
                    &&& #[trigger] are_answers(old(self).mesh.nodes@, node, *neighbour, a)
                    &&& match frame_of(old(self).mesh.nodes@, node, a) {
                        Err(e) => r == Err::<(), _>(e) && *final(self) == *old(self),
                        Ok(f) => r is Ok && final(self).has_added(*old(self), name@, node, f),
                    }
                },
            r is Ok ==> final(self).accelerometers@.len() > 0
                && final(self).accelerometers@.last().frame is Some && is_upright(
                old(self).mesh.nodes@,
                final(self).accelerometers@.last().frame->0,
            ),
            old(self).wf() ==> final(self).wf(),
    {
        match find_frame(&self.mesh.nodes, node, neighbour) {
            Err(e) => Err(e),
            Ok(f) => {
                let mut nodes: Vec<usize> = Vec::new();
                nodes.push(node);
                assert(nodes@ =~= seq![node]);
                self.add_accelerometer(name, nodes, Some(f));
                Ok(())
            },
        }
    }

    /// Whether a model is another with one accelerometer more, at one node and
    /// with a frame.
    pub open spec fn has_added(
        self,
        before: Model,
        name: Seq<char>,
        node: usize,
        f: LocalFrame,
    ) -> bool {
        &&& self.accelerometers@.len() == before.accelerometers@.len() + 1
        &&& self.accelerometers@.drop_last() == before.accelerometers@
        &&& self.accelerometers@.last().name@ == name
        &&& self.accelerometers@.last().nodes@ == seq![node]
        &&& self.accelerometers@.last().frame == Some(f)
        &&& self.mesh == before.mesh
        &&& self.materials == before.materials
        &&& self.initial_velocity == before.initial_velocity
        &&& self.fixed_nodes == before.fixed_nodes
        &&& self.contacts == before.contacts
        &&& self.settings == before.settings
    }
}

/// Why no body-fixed frame can be made at a node.
#[derive(Clone, Copy, Debug, PartialEq, Eq, Structural)]
pub enum FrameError {
    NoNeighbour,
    NoXNeighbour,
}

impl FrameError {
    pub open spec fn text(self, name: Seq<char>, part: Seq<char>) -> Seq<char> {
        "accelerometer '"@ + name + "': part '"@ + part + match self {
            FrameError::NoNeighbour => "' has no neighbouring nodes to define a frame"@,
            FrameError::NoXNeighbour => "' has no neighbouring nodes along X to define a frame"@,
        }
    }

    /// The message shown to the user.
    pub fn message(&self, name: &str, part: &str) -> (r: String)
        ensures
            r@ == self.text(name@, part@),
    {
        let mut r: String = "accelerometer '".to_string();
        r.append(name);
        r.append("': part '");
        r.append(part);
        match self {
            FrameError::NoNeighbour => {
                r.append("' has no neighbouring nodes to define a frame");
            },
            FrameError::NoXNeighbour => {
                r.append("' has no neighbouring nodes along X to define a frame");
            },
        }
        r
    }
}

/// A direction along a global axis.
#[derive(Clone, Copy, Debug, PartialEq, Eq, Structural)]
pub enum Way {
    PlusX,
    MinusX,
    PlusY,
    MinusY,
}

/// Whether a node lies on the positive side of another along axis `d`.
pub open spec fn beyond(nodes: Seq<[Real; 3]>, from: usize, n: usize, d: int) -> bool {
    &&& from < nodes.len()
    &&& n < nodes.len()
    &&& nodes[from as int]@[d].below(nodes[n as int]@[d])
}

fn is_beyond(nodes: &Vec<[Real; 3]>, from: usize, n: usize, d: usize) -> (b: bool)
    requires
        d < 3,
    ensures
        b == beyond(nodes@, from, n, d as int),
{
    from < nodes.len() && n < nodes.len() && nodes[from][d].lt(nodes[n][d])
}

/// Whether the axes of a frame point the way of the global ones: the node on
/// its x axis lies on the +X side of its origin, and the node in its x-y plane
/// on the +Y side.
pub open spec fn is_upright(nodes: Seq<[Real; 3]>, f: LocalFrame) -> bool {
    beyond(nodes, f.origin, f.x_axis, 0) && beyond(nodes, f.origin, f.plane, 1)
}

/// The node that an axis at a node runs through, and whether the axis runs from
/// there to the node: the neighbour best aligned with the axis if it is within
/// 60 degrees; else that best aligned against it, if it lies before the node;
/// else the first, if it lies beyond the node.
pub open spec fn axis_end(
    nodes: Seq<[Real; 3]>,
    from: usize,
    d: int,
    towards: Option<(usize, Real)>,
    against: Option<(usize, Real)>,
) -> Option<(usize, bool)> {
    let ahead = towards is Some && beyond(nodes, from, (towards->0).0, d);
    if ahead && (Real { bits: HALF }).below((towards->0).1) {
        Some(((towards->0).0, false))
    } else if against is Some && beyond(nodes, (against->0).0, from, d) {
        Some(((against->0).0, true))
    } else if ahead {
        Some(((towards->0).0, false))
    } else {
        None
    }
}

fn find_axis_end(
    nodes: &Vec<[Real; 3]>,
    from: usize,
    d: usize,
    towards: Option<(usize, Real)>,
    against: Option<(usize, Real)>,
) -> (r: Option<(usize, bool)>)
    requires
        d < 3,
    ensures
        r == axis_end(nodes@, from, d as int, towards, against),
{
    let mut ahead: Option<usize> = None;
    if let Some((n, c)) = towards {
        if is_beyond(nodes, from, n, d) {
            let half: Real = Real { bits: HALF };
            if half.lt(c) {
                return Some((n, false));
            }
            ahead = Some(n);
        }
    }
    if let Some((n, _)) = against {
        if is_beyond(nodes, n, from, d) {
            return Some((n, true));
        }
    }
    match ahead {
        Some(n) => Some((n, false)),
        None => None,
    }
}

/// The two nodes that the local x axis runs through.
#[derive(Clone, Copy, Debug, PartialEq, Eq, Structural)]
pub struct FrameEnds {
    pub origin: usize,
    pub x_axis: usize,
}

/// The local x axis at a node, along +X: from the node to the neighbour ahead,
/// or to the node from the neighbour behind. `ahead` and `behind` are the
/// neighbours best aligned with +X and -X, with the cosines of their alignment.
pub open spec fn ends_at(
    nodes: Seq<[Real; 3]>,
    node: usize,
    ahead: Option<(usize, Real)>,
    behind: Option<(usize, Real)>,
) -> Option<FrameEnds> {
    match axis_end(nodes, node, 0, ahead, behind) {
        Some((n, false)) => Some(FrameEnds { origin: node, x_axis: n }),
        Some((n, true)) => Some(FrameEnds { origin: n, x_axis: node }),
        None => None,
    }
}

/// The local x axis at a node.
pub fn frame_ends(
    nodes: &Vec<[Real; 3]>,
    node: usize,
    ahead: Option<(usize, Real)>,
    behind: Option<(usize, Real)>,
) -> (r: Option<FrameEnds>)
    ensures
        r == ends_at(nodes@, node, ahead, behind),
        r matches Some(e) ==> beyond(nodes@, e.origin, e.x_axis, 0),
{
    match find_axis_end(nodes, node, 0, ahead, behind) {
        Some((n, back)) => if back {
            Some(FrameEnds { origin: n, x_axis: node })
        } else {
            Some(FrameEnds { origin: node, x_axis: n })
        },
        None => None,
    }
}

/// The neighbours that a frame is made from, each best aligned with a direction
/// and with the cosine of its alignment: those of the node along X, those of
/// the origin along Y, and those along X of the neighbour of the origin towards
/// -Y.
pub struct Answers {
    pub ahead: Option<(usize, Real)>,
    pub behind: Option<(usize, Real)>,
    pub left: Option<(usize, Real)>,
    pub right: Option<(usize, Real)>,
    pub right_ahead: Option<(usize, Real)>,
    pub right_behind: Option<(usize, Real)>,
}

/// Where neighbours along Y are looked for: at the origin of the x axis, or at
/// the node itself where there is none.
pub open spec fn first_ends(nodes: Seq<[Real; 3]>, node: usize, a: Answers) -> FrameEnds {
    match ends_at(nodes, node, a.ahead, a.behind) {
        Some(e) => e,
        None => FrameEnds { origin: node, x_axis: node },
    }
}

/// Whether the neighbours are those that a search gives.
pub open spec fn are_answers<F: Fn(usize, Way, Option<usize>) -> Option<(usize, Real)>>(
    nodes: Seq<[Real; 3]>,
    node: usize,
    neighbour: F,
    a: Answers,
) -> bool {
    let e = first_ends(nodes, node, a);
    &&& call_ensures(neighbour, (node, Way::PlusX, None), a.ahead)
    &&& call_ensures(neighbour, (node, Way::MinusX, None), a.behind)
    &&& call_ensures(neighbour, (e.origin, Way::PlusY, Some(e.x_axis)), a.left)
    &&& call_ensures(neighbour, (e.origin, Way::MinusY, Some(e.x_axis)), a.right)
    &&& axis_end(nodes, e.origin, 1, a.left, a.right) matches Some((m, true)) ==> {
        &&& call_ensures(neighbour, (m, Way::PlusX, Some(e.origin)), a.right_ahead)
        &&& call_ensures(neighbour, (m, Way::MinusX, Some(e.origin)), a.right_behind)
    }
}

/// The frame at a node. Where the origin has a neighbour towards +Y, that is the
/// node in the x-y plane. Else its neighbour towards -Y takes its place, with an
/// x axis of its own, and the origin is the node in the plane.
pub open spec fn frame_of(nodes: Seq<[Real; 3]>, node: usize, a: Answers) -> Result<
    LocalFrame,
    FrameError,
> {
    let e = first_ends(nodes, node, a);
    match axis_end(nodes, e.origin, 1, a.left, a.right) {
        None => Err(FrameError::NoNeighbour),
        Some((n, back)) => if ends_at(nodes, node, a.ahead, a.behind) is None {
            Err(FrameError::NoXNeighbour)
        } else if !back {
            Ok(LocalFrame { origin: e.origin, x_axis: e.x_axis, plane: n })
        } else {
            match ends_at(nodes, n, a.right_ahead, a.right_behind) {
                None => Err(FrameError::NoXNeighbour),
                Some(f) => if beyond(nodes, f.origin, e.origin, 1) {
                    Ok(LocalFrame { origin: f.origin, x_axis: f.x_axis, plane: e.origin })
                } else {
                    Err(FrameError::NoNeighbour)
                },
            }
        },
    }
}

/// The frame at a node.
fn find_frame<F: Fn(usize, Way, Option<usize>) -> Option<(usize, Real)>>(
    nodes: &Vec<[Real; 3]>,
    node: usize,
    neighbour: &F,
) -> (r: Result<LocalFrame, FrameError>)
    requires
        forall|n: usize, w: Way, x: Option<usize>| #[trigger] call_requires(*neighbour, (n, w, x)),
    ensures
        exists|a: Answers| #[trigger]
            are_answers(nodes@, node, *neighbour, a) && r == frame_of(nodes@, node, a),
        r matches Ok(f) ==> is_upright(nodes@, f),
{
    let ahead: Option<(usize, Real)> = neighbour(node, Way::PlusX, None);
    let behind: Option<(usize, Real)> = neighbour(node, Way::MinusX, None);
    let first: Option<FrameEnds> = frame_ends(nodes, node, ahead, behind);
    let e: FrameEnds = match first {
        Some(e) => e,
        None => FrameEnds { origin: node, x_axis: node },
    };
    let left: Option<(usize, Real)> = neighbour(e.origin, Way::PlusY, Some(e.x_axis));
    let right: Option<(usize, Real)> = neighbour(e.origin, Way::MinusY, Some(e.x_axis));
    let mut a: Answers = Answers {
        ahead,
        behind,
        left,
        right,
        right_ahead: None,
        right_behind: None,
    };
    match find_axis_end(nodes, e.origin, 1, left, right) {
        None => {
            assert(are_answers(nodes@, node, *neighbour, a));
            Err(FrameError::NoNeighbour)
        },
        Some((n, back)) => {
            if back {
                a.right_ahead = neighbour(n, Way::PlusX, Some(e.origin));
                a.right_behind = neighbour(n, Way::MinusX, Some(e.origin));
            }
            assert(are_answers(nodes@, node, *neighbour, a));
            if first.is_none() {
                Err(FrameError::NoXNeighbour)
            } else if !back {
                Ok(LocalFrame { origin: e.origin, x_axis: e.x_axis, plane: n })
            } else {
                match frame_ends(nodes, n, a.right_ahead, a.right_behind) {
                    None => Err(FrameError::NoXNeighbour),
                    Some(f) => if is_beyond(nodes, f.origin, e.origin, 1) {
                        Ok(LocalFrame { origin: f.origin, x_axis: f.x_axis, plane: e.origin })
                    } else {
                        Err(FrameError::NoNeighbour)
                    },
                }
            }
        },
    }
}

/// Every frame made at a node starts with its axes the way of the global ones.
pub proof fn law_frames_start_upright(nodes: Seq<[Real; 3]>, node: usize, a: Answers)
    requires
        frame_of(nodes, node, a) is Ok,
    ensures
        is_upright(nodes, frame_of(nodes, node, a)->Ok_0),
{
}

// ---- what velocities and frames are for ----

/// Setting a velocity sets that of every listed node and of no other.
pub proof fn law_velocity_is_set_on_the_listed_nodes(
    before: Seq<[Real; 3]>,
    list: Seq<usize>,
    v: [Real; 3],
    n: usize,
)
    requires
        n < before.len(),
    ensures
        with_velocity(before, list, v).len() == before.len(),
        (exists|i: int| 0 <= i < list.len() && #[trigger] list[i] == n) ==> with_velocity(
            before,
            list,
            v,
        )[n as int] == v,
        (forall|i: int| 0 <= i < list.len() ==> #[trigger] list[i] != n) ==> with_velocity(
            before,
            list,
            v,
        )[n as int] == before[n as int],
{
}

/// Whether a node exists and stands at a greater coordinate than another.
pub open spec fn stands_beyond(nodes: Seq<[Real; 3]>, from: usize, n: usize, d: int) -> bool {
    &&& from < nodes.len() && n < nodes.len()
    &&& !nodes[from as int]@[d].nan() && !nodes[n as int]@[d].nan()
    &&& nodes[from as int]@[d].order() < nodes[n as int]@[d].order()
}

/// An axis runs to the neighbour best aligned with it where that stands beyond the
/// node and within 60 degrees, else from the neighbour best aligned against it
/// where the node stands beyond that one, else to the first again; there is no
/// axis only where neither stands on its side.
pub proof fn law_axes_run_through_a_neighbour(
    nodes: Seq<[Real; 3]>,
    from: usize,
    d: int,
    towards: Option<(usize, Real)>,
    against: Option<(usize, Real)>,
)
    ensures
        ({
            let ahead = towards is Some && stands_beyond(nodes, from, (towards->0).0, d);
            let behind = against is Some && stands_beyond(nodes, (against->0).0, from, d);
            let close = towards is Some && !(towards->0).1.nan() && (towards->0).1.order()
                > 0x3fe0_0000_0000_0000;
            let r = axis_end(nodes, from, d, towards, against);
            &&& r is None <==> !ahead && !behind
            &&& ahead && (close || !behind) ==> r == Some(((towards->0).0, false))
            &&& behind && !(ahead && close) ==> r == Some(((against->0).0, true))
        }),
{
}

/// The x axis at a node has the node at one of its ends: it starts there where it
/// runs to a neighbour, and ends there where it comes from one.
pub proof fn law_x_axes_pass_the_node(
    nodes: Seq<[Real; 3]>,
    node: usize,
    ahead: Option<(usize, Real)>,
    behind: Option<(usize, Real)>,
)
    ensures
        ends_at(nodes, node, ahead, behind) matches Some(e) ==> {
            &&& stands_beyond(nodes, e.origin, e.x_axis, 0)
            &&& (e.origin == node && ahead is Some && e.x_axis == (ahead->0).0) || (e.x_axis == node
                && behind is Some && e.origin == (behind->0).0)
        },
        ends_at(nodes, node, ahead, behind) is None <==> !(ahead is Some && stands_beyond(
            nodes,
            node,
            (ahead->0).0,
            0,
        )) && !(behind is Some && stands_beyond(nodes, (behind->0).0, node, 0)),
{
}

/// A frame at a node has an x axis along +X, and its plane towards +Y: its plane
/// node is the neighbour to the left of its origin, or its origin is what the
/// neighbour to the right gives and its plane node the origin of the node's own
/// axis.
pub proof fn law_frames_are_made_of_neighbours(nodes: Seq<[Real; 3]>, node: usize, a: Answers)
    ensures
        frame_of(nodes, node, a) matches Ok(f) ==> {
            &&& stands_beyond(nodes, f.origin, f.x_axis, 0)
            &&& stands_beyond(nodes, f.origin, f.plane, 1)
            &&& ends_at(nodes, node, a.ahead, a.behind) matches Some(e) && {
                ||| f.origin == e.origin && f.x_axis == e.x_axis && a.left is Some && f.plane == (
                a.left->0).0
                ||| a.right is Some && f.plane == e.origin && Some(
                    FrameEnds { origin: f.origin, x_axis: f.x_axis },
                ) == ends_at(nodes, (a.right->0).0, a.right_ahead, a.right_behind)
            }
        },
        ends_at(nodes, node, a.ahead, a.behind) matches Some(e) ==> a.left is Some && stands_beyond(
            nodes,
            e.origin,
            (a.left->0).0,
            1,
        ) && !(a.left->0).1.nan() && (a.left->0).1.order() > 0x3fe0_0000_0000_0000 ==> frame_of(
            nodes,
            node,
            a,
        ) == Ok::<LocalFrame, FrameError>(
            LocalFrame { origin: e.origin, x_axis: e.x_axis, plane: (a.left->0).0 },
        ),
        ends_at(nodes, node, a.ahead, a.behind) is None ==> frame_of(nodes, node, a) is Err,
{
}

/// The message of a frame that cannot be made names the accelerometer and the
/// part.
pub proof fn law_frame_messages_name_the_part(name: Seq<char>, part: Seq<char>)
    ensures
        FrameError::NoNeighbour.text(name, part) == "accelerometer '"@ + name + "': part '"@ + part
            + "' has no neighbouring nodes to define a frame"@,
        FrameError::NoXNeighbour.text(name, part) == "accelerometer '"@ + name + "': part '"@ + part
            + "' has no neighbouring nodes along X to define a frame"@,
{
}

} // verus!
