//! Homogenised crushable-vehicle models for impact simulation, calibrated to
//! rigid-barrier test measures.
//!
//! A vehicle is a block of hexahedra that crushes at its front: its force grows
//! with the crush by a bilinear curve.

use crate::contact::Bounds;
use crate::indices::{is_picked, lemma_picked_grows};
use crate::material::Material;
use crate::mesh::{grid_points, labelled, BlockFace, Mesh};
use crate::model::{
    are_answers, frame_of, is_upright, with_velocity, Answers, FrameError, Model, Settings, Way,
};
use crate::number::{is_last_max, last_max, no_nan, Real};
use crate::output::history::with_suffix;
use crate::solver::PartState;
use vstd::prelude::*;

verus! {

/// Bilinear frontal force-crush model: the force at first yield (N) and the
/// stiffness from there on (N/m).
#[derive(Clone, Copy, Debug, PartialEq, Eq, Structural)]
pub struct CrushCurve {
    pub yield_force: Real,
    pub stiffness: Real,
}

/// A homogenised vehicle.
#[derive(Clone, Debug)]
pub struct Vehicle {
    pub name: String,
    /// Test mass (kg).
    pub mass: Real,
    /// Length (x), width (y), height (z) of the block (m).
    pub size: [Real; 3],
    /// Length of the crush zone at the front (m).
    pub crush_zone_length: Real,
    pub curve: CrushCurve,
    /// Young's modulus of the crush zone (Pa).
    pub modulus: Real,
    /// Young's modulus of the body behind the crush zone (Pa).
    pub body_modulus: Real,
    /// Side force-crush curve (whole side, per the full vehicle length).
    /// `None`: the frontal curve.
    pub side_curve: Option<CrushCurve>,
    /// Modulus of the side profile (Pa). `None`: that of the crush zone.
    pub side_modulus: Option<Real>,
}

impl Vehicle {
    /// The vehicle turned by a quarter: a block whose x axis is the lateral
    /// direction, carrying the side crush curve.
    pub fn side_profile(&self) -> (r: Vehicle)
        ensures
            r.name@ == self.name@ + "_side"@,
            r.mass == self.mass,
            r.size@ == seq![self.size@[1], self.size@[0], self.size@[2]],
            r.crush_zone_length == self.size@[1],
            r.curve == match self.side_curve {
                Some(c) => c,
                None => self.curve,
            },
            r.modulus == match self.side_modulus {
                Some(m) => m,
                None => self.modulus,
            },
            r.body_modulus == r.modulus,
            r.side_curve is None,
            r.side_modulus is None,
    {
        let curve: CrushCurve = match self.side_curve {
            Some(c) => c,
            None => self.curve,
        };
        let modulus: Real = match self.side_modulus {
            Some(m) => m,
            None => self.modulus,
        };
        let size: [Real; 3] = [self.size[1], self.size[0], self.size[2]];
        assert(size@ =~= seq![self.size@[1], self.size@[0], self.size@[2]]);
        Vehicle {
            name: with_suffix(&self.name, "_side"),
            mass: self.mass,
            size,
            crush_zone_length: self.size[1],
            curve,
            modulus,
            body_modulus: modulus,
            side_curve: None,
            side_modulus: None,
        }
    }
}

/// Which way the vehicle faces along x.
#[derive(Clone, Copy, Debug, PartialEq, Eq, Structural)]
pub enum Heading {
    /// Front face at the far end, travelling towards +x.
    PlusX,
    /// Front face at the near end, travelling towards -x.
    MinusX,
}

impl Heading {
    /// The block face that leads.
    pub open spec fn leading(self) -> BlockFace {
        match self {
            Heading::PlusX => BlockFace::XMax,
            Heading::MinusX => BlockFace::XMin,
        }
    }

    pub fn front(self) -> (f: BlockFace)
        ensures
            f == self.leading(),
    {
        match self {
            Heading::PlusX => BlockFace::XMax,
            Heading::MinusX => BlockFace::XMin,
        }
    }

    /// The velocity of a body that travels at a speed.
    pub open spec fn travelling(self, speed: Real) -> Seq<Real> {
        seq![
            match self {
                Heading::PlusX => speed,
                Heading::MinusX => speed.negated(),
            },
            Real::spec_zero(),
            Real::spec_zero(),
        ]
    }

    pub fn velocity(self, speed: Real) -> (v: [Real; 3])
        ensures
            v@ == self.travelling(speed),
    {
        let vx: Real = match self {
            Heading::PlusX => speed,
            Heading::MinusX => speed.neg(),
        };
        let v: [Real; 3] = [vx, Real::zero(), Real::zero()];
        assert(v@ =~= self.travelling(speed));
        v
    }
}

/// The grid has an element along each axis and the mesh has room for its nodes.
pub open spec fn grid_fits(mesh: Mesh<[Real; 3]>, grid: [Vec<Real>; 3]) -> bool {
    &&& grid@[0]@.len() > 1
    &&& grid@[1]@.len() > 1
    &&& grid@[2]@.len() > 1
    &&& mesh.nodes.len() + grid_points(grid) <= usize::MAX
}

/// Adds a block with one named face.
fn add_faced_block(
    mesh: &mut Mesh<[Real; 3]>,
    name: &str,
    grid: &[Vec<Real>; 3],
    face: BlockFace,
    set: &str,
) -> (part: usize)
    requires
        old(mesh).wf(),
        grid_fits(*old(mesh), *grid),
    ensures
        final(mesh).wf(),
        final(mesh).grid_joined(*old(mesh), part, name@, *grid, seq![(face, set@)]),
{
    let surfaces: [(BlockFace, &str); 1] = [(face, set)];
    let part: usize = mesh.add_grid_block(name, grid, &surfaces);
    assert(labelled(surfaces@) =~= seq![(face, set@)]);
    part
}

/// Adds a vehicle block on a grid. Creates the part `<name>` (also a node set)
/// and the face set `<name>_front` on the face that leads.
pub fn add_vehicle(
    mesh: &mut Mesh<[Real; 3]>,
    v: &Vehicle,
    grid: &[Vec<Real>; 3],
    heading: Heading,
) -> (part: usize)
    requires
        old(mesh).wf(),
        grid_fits(*old(mesh), *grid),
    ensures
        final(mesh).wf(),
        final(mesh).grid_joined(
            *old(mesh),
            part,
            v.name@,
            *grid,
            seq![(heading.leading(), v.name@ + "_front"@)],
        ),
{
    let front: String = with_suffix(&v.name, "_front");
    add_faced_block(mesh, &v.name, grid, heading.front(), &front)
}

/// Adds a rigid barrier on a grid. Creates the part `<name>` and the face set
/// `<name>_face` on the face that meets what comes.
pub fn add_rigid_wall(
    mesh: &mut Mesh<[Real; 3]>,
    name: &str,
    grid: &[Vec<Real>; 3],
    facing: Heading,
) -> (part: usize)
    requires
        old(mesh).wf(),
        grid_fits(*old(mesh), *grid),
    ensures
        final(mesh).wf(),
        final(mesh).grid_joined(
            *old(mesh),
            part,
            name@,
            *grid,
            seq![(facing.leading(), name@ + "_face"@)],
        ),
{
    let face: String = with_suffix(name, "_face");
    add_faced_block(mesh, name, grid, facing.front(), &face)
}

/// Assigns the vehicle's crush material and initial velocity in the model.
pub fn assign_vehicle(
    model: &mut Model,
    v: &Vehicle,
    material: Material,
    heading: Heading,
    speed: Real,
)
    requires
        old(model).wf(),
        old(model).mesh.has_part(v.name@),
        old(model).mesh.node_sets@.dom().contains(v.name@),
    ensures
        final(model).wf(),
        final(model).materials@ == old(model).materials@.update(
            old(model).mesh.first_part(v.name@),
            material,
        ),
        exists|velocity: [Real; 3]|
            #![trigger with_velocity(
                old(model).initial_velocity@,
                old(model).mesh.node_sets@[v.name@],
                velocity,
            )]
            velocity@ == heading.travelling(speed) && final(model).initial_velocity@
                == with_velocity(
                old(model).initial_velocity@,
                old(model).mesh.node_sets@[v.name@],
                velocity,
            ),
        final(model).mesh == old(model).mesh,
        final(model).fixed_nodes == old(model).fixed_nodes,
        final(model).contacts == old(model).contacts,
        final(model).accelerometers == old(model).accelerometers,
        final(model).settings == old(model).settings,
{
    model.set_material(&v.name, material);
    let velocity: [Real; 3] = heading.velocity(speed);
    proof {
        let list = model.mesh.node_sets@[v.name@];
        assert forall|i: int| 0 <= i < list.len() implies #[trigger] list[i]
            < model.initial_velocity@.len() by {
            assert(model.mesh.node_sets@[v.name@][i] < model.mesh.nodes.len());
        }
    }
    model.set_initial_velocity(&v.name, velocity);
}

// ---- barrier tests ----

/// What a barrier model asks of a mesh.
pub open spec fn barrier_ready(mesh: Mesh<[Real; 3]>, name: Seq<char>) -> bool {
    &&& mesh.wf()
    &&& mesh.has_part(name)
    &&& mesh.node_sets@.dom().contains(name)
    &&& mesh.has_part("wall"@)
    &&& mesh.node_sets@.dom().contains("wall"@)
    &&& mesh.face_sets@.dom().contains(name + "_front"@)
    &&& mesh.face_sets@.dom().contains("wall_face"@)
}

/// A mesh of nothing.
pub open spec fn is_empty(mesh: Mesh<[Real; 3]>) -> bool {
    &&& mesh.nodes@.len() == 0
    &&& mesh.hexes@.len() == 0
    &&& mesh.parts@.len() == 0
    &&& mesh.faces@.len() == 0
    &&& mesh.node_sets@ == Map::<Seq<char>, Seq<usize>>::empty()
    &&& mesh.face_sets@ == Map::<Seq<char>, Seq<usize>>::empty()
}

/// A vehicle's block alone.
pub open spec fn is_lone_vehicle(
    mesh: Mesh<[Real; 3]>,
    empty: Mesh<[Real; 3]>,
    v: Vehicle,
    grid: [Vec<Real>; 3],
) -> bool {
    &&& is_empty(empty)
    &&& mesh.grid_joined(empty, 0, v.name@, grid, seq![(BlockFace::XMax, v.name@ + "_front"@)])
}

/// The mesh of a barrier test: the vehicle heading for the wall, then the wall
/// facing it.
pub fn barrier_mesh(v: &Vehicle, grid: &[Vec<Real>; 3], wall: &[Vec<Real>; 3]) -> (mesh: Mesh<
    [Real; 3],
>)
    requires
        grid@[0]@.len() > 1,
        grid@[1]@.len() > 1,
        grid@[2]@.len() > 1,
        wall@[0]@.len() > 1,
        wall@[1]@.len() > 1,
        wall@[2]@.len() > 1,
        grid_points(*grid) + grid_points(*wall) <= usize::MAX,
    ensures
        barrier_ready(mesh, v.name@),
        exists|empty: Mesh<[Real; 3]>, lone: Mesh<[Real; 3]>|
            #![trigger is_lone_vehicle(lone, empty, *v, *grid)]
            is_lone_vehicle(lone, empty, *v, *grid) && mesh.grid_joined(
                lone,
                1,
                "wall"@,
                *wall,
                seq![(BlockFace::XMin, "wall_face"@)],
            ),
{
    let mut mesh: Mesh<[Real; 3]> = Mesh::new();
    let ghost empty = mesh;
    proof {
        let (a, b, c) = (wall@[0]@.len() as int, wall@[1]@.len() as int, wall@[2]@.len() as int);
        assert(a * b * c >= 0) by (nonlinear_arith)
            requires
                a >= 0,
                b >= 0,
                c >= 0,
        ;
        reveal_strlit("wall");
        reveal_strlit("_face");
        reveal_strlit("wall_face");
        assert("wall"@ + "_face"@ =~= "wall_face"@);
    }
    add_vehicle(&mut mesh, v, grid, Heading::PlusX);
    let ghost lone = mesh;
    assert(is_lone_vehicle(lone, empty, *v, *grid));
    proof {
        assert(grid@[0].len() == grid@[0]@.len());
        assert(grid@[1].len() == grid@[1]@.len());
        assert(grid@[2].len() == grid@[2]@.len());
        lemma_grid_room(*grid);
    }
    add_rigid_wall(&mut mesh, "wall", wall, Heading::MinusX);
    proof {
        lemma_joined_names(empty, lone, 0, v.name@, *grid, BlockFace::XMax, v.name@ + "_front"@);
        lemma_joined_names(lone, mesh, 1, "wall"@, *wall, BlockFace::XMin, "wall_face"@);
        assert(lone.parts[0].name@ == v.name@);
        assert(mesh.parts@.take(1)[0] == lone.parts@[0]);
        assert(mesh.parts[0].name@ == v.name@);
        assert(mesh.parts[1].name@ == "wall"@);
    }
    mesh
}

/// A grid's lattice points are those of its block.
pub proof fn lemma_grid_room(grid: [Vec<Real>; 3])
    requires
        grid@[0]@.len() > 1,
        grid@[1]@.len() > 1,
        grid@[2]@.len() > 1,
        grid@[0]@.len() <= usize::MAX,
        grid@[1]@.len() <= usize::MAX,
        grid@[2]@.len() <= usize::MAX,
    ensures
        crate::mesh::block_nodes(crate::mesh::grid_cells(grid)) == grid_points(grid),
{
}

/// A block adds its names to those that there were.
pub proof fn lemma_joined_names(
    before: Mesh<[Real; 3]>,
    after: Mesh<[Real; 3]>,
    part: usize,
    name: Seq<char>,
    grid: [Vec<Real>; 3],
    face: BlockFace,
    set: Seq<char>,
)
    requires
        after.grid_joined(before, part, name, grid, seq![(face, set)]),
    ensures
        after.node_sets@.dom() == before.node_sets@.dom().insert(name),
        after.face_sets@.dom() == before.face_sets@.dom().insert(set),
{
    reveal_with_fuel(crate::mesh::sets_with, 2);
}

/// The materials of a mesh to whose parts none was given yet.
pub open spec fn unset_materials(mesh: Mesh<[Real; 3]>) -> Seq<Material> {
    Seq::new(
        mesh.parts@.len(),
        |p: int|
            Material::spec_elastic(Real::spec_one(), Real::spec_zero(), Real::spec_one()),
    )
}

/// Builds the rigid-barrier model of a vehicle at a speed: `material` crushes
/// at the front, `wall` is the material of the barrier, `stiffness` the contact
/// penalty of a pair of nodes.
pub fn barrier_model(
    mesh: Mesh<[Real; 3]>,
    v: &Vehicle,
    material: Material,
    wall: Material,
    speed: Real,
    stiffness: Real,
    max_distance: Real,
    end_time: Real,
    frame_steps: usize,
) -> (m: Model)
    requires
        barrier_ready(mesh, v.name@),
    ensures
        m.wf(),
        m.mesh == mesh,
        m.materials@ == unset_materials(mesh).update(mesh.first_part(v.name@), material).update(
            mesh.first_part("wall"@),
            wall,
        ),
        m.initial_velocity@.len() == mesh.nodes@.len(),
        forall|n: int|
            0 <= n < mesh.nodes@.len() ==> (#[trigger] m.initial_velocity@[n])@
                == if mesh.node_sets@[v.name@].contains(n as usize) {
                Heading::PlusX.travelling(speed)
            } else {
                seq![Real::spec_zero(), Real::spec_zero(), Real::spec_zero()]
            },
        m.fixed_nodes@ == mesh.node_sets@["wall"@],
        m.contacts@.len() == 2,
        m.is_contact(
            m.contacts@[0],
            v.name@ + "_front"@,
            "wall_face"@,
            stiffness.halved(),
            max_distance,
        ),
        m.is_contact(
            m.contacts@[1],
            "wall_face"@,
            v.name@ + "_front"@,
            stiffness.halved(),
            max_distance,
        ),
        m.accelerometers@.len() == 0,
        m.settings == (Settings {
            end_time,
            history_steps: 2,
            frame_steps,
            ..Settings::spec_default()
        }),
{
    let front: String = with_suffix(&v.name, "_front");
    let mut m: Model = Model::new(mesh);
    assert(m.materials@ =~= unset_materials(mesh));
    assign_vehicle(&mut m, v, material, Heading::PlusX, speed);
    let ghost assigned = m;
    m.set_material("wall", wall);
    m.fix("wall");
    proof {
        let p = mesh.first_part("wall"@);
        let q = mesh.first_part(v.name@);
        assert(mesh.is_part("wall"@, p)) by {
            lemma_has_first(mesh, "wall"@);
        }
        assert(mesh.is_part(v.name@, q)) by {
            lemma_has_first(mesh, v.name@);
        }
        assert(m.fixed_nodes@ =~= mesh.node_sets@["wall"@]);
    }
    m.add_contact_pair(&front, "wall_face", stiffness, max_distance);
    m.settings.end_time = end_time;
    m.settings.history_steps = 2;
    m.settings.frame_steps = frame_steps;
    m
}

/// A name that a part has is that of a first part.
pub proof fn lemma_has_first(mesh: Mesh<[Real; 3]>, name: Seq<char>)
    requires
        mesh.has_part(name),
    ensures
        mesh.is_part(name, mesh.first_part(name)),
{
    let i = choose|i: int| 0 <= i < mesh.parts.len() && (#[trigger] mesh.parts[i]).name@ == name;
    let p = lemma_least_part(mesh, name, i);
    mesh.lemma_first_part(name, p);
}

proof fn lemma_least_part(mesh: Mesh<[Real; 3]>, name: Seq<char>, i: int) -> (p: int)
    requires
        0 <= i < mesh.parts.len(),
        mesh.parts[i].name@ == name,
    ensures
        mesh.is_part(name, p),
    decreases i,
{
    if mesh.is_part(name, i) {
        i
    } else {
        let k = choose|k: int| 0 <= k < i && (#[trigger] mesh.parts[k]).name@ == name;
        lemma_least_part(mesh, name, k)
    }
}

// ---- accelerometer ----

/// Encoding of the greatest finite number.
pub const GREATEST: u64 = 0x7fef_ffff_ffff_ffff;

/// Encoding of the least finite number.
pub const LEAST: u64 = 0xffef_ffff_ffff_ffff;

/// A box that any point of finite coordinates widens.
pub open spec fn inside_out() -> Bounds {
    Bounds {
        lo: [Real { bits: GREATEST }, Real { bits: GREATEST }, Real { bits: GREATEST }],
        hi: [Real { bits: LEAST }, Real { bits: LEAST }, Real { bits: LEAST }],
    }
}

/// The box of the first `k` listed nodes.
pub open spec fn box_of_nodes(nodes: Seq<[Real; 3]>, list: Seq<usize>, k: int) -> Bounds
    decreases k,
{
    if k <= 0 {
        inside_out()
    } else {
        box_of_nodes(nodes, list, k - 1).widened(nodes[list[k - 1] as int])
    }
}

/// The box of the nodes of a part.
pub fn part_bounds(mesh: &Mesh<[Real; 3]>, part: usize) -> (b: Bounds)
    requires
        mesh.wf(),
    ensures
        b == box_of_nodes(
            mesh.nodes@,
            mesh.node_list(part),
            mesh.node_list(part).len() as int,
        ),
{
    let list: Vec<usize> = mesh.part_nodes(part);
    proof {
        mesh.lemma_part_nodes_exist(list@, part);
    }
    let mut b: Bounds = Bounds {
        lo: [Real { bits: GREATEST }, Real { bits: GREATEST }, Real { bits: GREATEST }],
        hi: [Real { bits: LEAST }, Real { bits: LEAST }, Real { bits: LEAST }],
    };
    assert(b.lo@ =~= inside_out().lo@);
    assert(b.hi@ =~= inside_out().hi@);
    let mut k: usize = 0;
    while k < list.len()
        invariant
            k <= list@.len(),
            mesh.nodes_exist(list@),
            b == box_of_nodes(mesh.nodes@, list@, k as int),
        decreases list.len() - k,
    {
        assert(list@[k as int] < mesh.nodes.len());
        b.widen(&mesh.nodes[list[k]]);
        k += 1;
    }
    b
}

/// Where along an axis an accelerometer sits that stays clear of the front.
#[derive(Clone, Copy, Debug, PartialEq, Eq, Structural)]
pub enum Seat {
    /// Half way: the front is at neither end.
    Middle,
    /// A quarter from the far end: the front is at the near one.
    TowardsFar,
    /// A quarter from the near end: the front is at the far one.
    TowardsNear,
}

/// Where an accelerometer sits along an axis, from how far the front is from
/// the near and the far end of the part.
pub fn seat(to_near: Real, to_far: Real, tolerance: Real) -> (s: Seat)
    ensures
        s == if to_near.below(tolerance) {
            Seat::TowardsFar
        } else if to_far.below(tolerance) {
            Seat::TowardsNear
        } else {
            Seat::Middle
        },
{
    if to_near.lt(tolerance) {
        Seat::TowardsFar
    } else if to_far.lt(tolerance) {
        Seat::TowardsNear
    } else {
        Seat::Middle
    }
}

/// Adds a rear-seat-style accelerometer named `<part>_rear` at a node of a
/// vehicle, with a body-fixed frame. Gives its name. `neighbour` is as for
/// [`Model::add_accelerometer_at`].
pub fn add_vehicle_accelerometer<F: Fn(usize, Way, Option<usize>) -> Option<(usize, Real)>>(
    model: &mut Model,
    part: &str,
    node: usize,
    neighbour: &F,
) -> (r: Result<String, FrameError>)
    requires
        forall|n: usize, w: Way, x: Option<usize>| #[trigger] call_requires(*neighbour, (n, w, x)),
    ensures
        exists|a: Answers|
            {
                &&& #[trigger] are_answers(old(model).mesh.nodes@, node, *neighbour, a)
                &&& match frame_of(old(model).mesh.nodes@, node, a) {
                    Err(e) => r == Err::<String, _>(e) && *final(model) == *old(model),
                    Ok(f) => {
                        &&& r is Ok
                        &&& r->Ok_0@ == part@ + "_rear"@
                        &&& final(model).has_added(*old(model), part@ + "_rear"@, node, f)
                        &&& is_upright(old(model).mesh.nodes@, f)
                    },
                }
            },
        old(model).wf() ==> final(model).wf(),
{
    let name: String = with_suffix(part, "_rear");
    match model.add_accelerometer_at(&name, node, neighbour) {
        Ok(()) => Ok(name),
        Err(e) => Err(e),
    }
}

// ---- barrier measures ----

/// The motion of a part along one axis at one time.
#[derive(Clone, Copy, Debug, PartialEq, Eq, Structural)]
pub struct Sample {
    pub time: Real,
    pub mass: Real,
    pub velocity: Real,
    pub displacement: Real,
}

pub open spec fn sample_of(entry: (Real, Vec<PartState>), p: int, axis: int) -> Sample {
    Sample {
        time: entry.0,
        mass: entry.1@[p].mass,
        velocity: entry.1@[p].velocity@[axis],
        displacement: entry.1@[p].displacement@[axis],
    }
}

/// The recorded motion of a part along one axis.
pub fn series(history: &Vec<(Real, Vec<PartState>)>, p: usize, axis: usize) -> (r: Vec<Sample>)
    requires
        axis < 3,
        forall|i: int| 0 <= i < history@.len() ==> p < (#[trigger] history@[i]).1@.len(),
    ensures
        r@ == Seq::new(
            history@.len(),
            |i: int| sample_of(history@[i], p as int, axis as int),
        ),
{
    let mut r: Vec<Sample> = Vec::new();
    let mut i: usize = 0;
    while i < history.len()
        invariant
            i <= history@.len(),
            axis < 3,
            forall|i: int| 0 <= i < history@.len() ==> p < (#[trigger] history@[i]).1@.len(),
            r@ =~= Seq::new(i as nat, |k: int| sample_of(history@[k], p as int, axis as int)),
        decreases history.len() - i,
    {
        assert(p < history@[i as int].1@.len());
        let s: PartState = history[i].1[p];
        r.push(
            Sample {
                time: history[i].0,
                mass: s.mass,
                velocity: s.velocity[axis],
                displacement: s.displacement[axis],
            },
        );
        i += 1;
    }
    r
}

/// Whether the force first rises above a threshold at `k`.
pub open spec fn is_onset(force: Seq<Real>, threshold: Real, k: int) -> bool {
    &&& 0 <= k < force.len()
    &&& threshold.below(force[k])
    &&& forall|i: int| 0 <= i < k ==> !threshold.below(#[trigger] force[i])
}

/// The sample of first contact: the first whose force is above a threshold,
/// else the first of all.
pub fn contact_sample(force: &Vec<Real>, threshold: Real) -> (k: usize)
    ensures
        is_onset(force@, threshold, k as int) || (k == 0 && forall|i: int|
            0 <= i < force@.len() ==> !threshold.below(#[trigger] force@[i])),
{
    let mut k: usize = 0;
    while k < force.len()
        invariant
            k <= force@.len(),
            forall|i: int| 0 <= i < k ==> !threshold.below(#[trigger] force@[i]),
        decreases force.len() - k,
    {
        if threshold.lt(force[k]) {
            return k;
        }
        k += 1;
    }
    0
}

/// The loading phase of a barrier test: from first contact to the last sample
/// of greatest crush.
#[derive(Clone, Debug)]
pub struct Loading {
    pub peak: usize,
    pub crush: Vec<Real>,
    pub force: Vec<Real>,
}

pub fn loading(crush: &Vec<Real>, force: &Vec<Real>, contact: usize) -> (r: Loading)
    requires
        crush@.len() > 0,
        crush@.len() == force@.len(),
        no_nan(crush@),
    ensures
        is_last_max(crush@, r.peak as int),
        contact <= r.peak ==> r.crush@ == crush@.subrange(contact as int, r.peak + 1),
        contact <= r.peak ==> r.force@ == force@.subrange(contact as int, r.peak + 1),
        contact > r.peak ==> r.crush@.len() == 0 && r.force@.len() == 0,
{
    let peak: usize = last_max(crush);
    let mut c: Vec<Real> = Vec::new();
    let mut f: Vec<Real> = Vec::new();
    let mut i: usize = contact;
    while i <= peak
        invariant
            contact <= i,
            contact <= peak ==> i <= peak + 1,
            contact > peak ==> i == contact,
            peak < crush@.len(),
            crush@.len() == force@.len(),
            contact <= peak ==> c@ =~= crush@.subrange(contact as int, i as int),
            contact <= peak ==> f@ =~= force@.subrange(contact as int, i as int),
            contact > peak ==> c@.len() == 0 && f@.len() == 0,
        decreases peak + 1 - i,
    {
        assert(peak < crush.len());
        c.push(crush[i]);
        f.push(force[i]);
        i += 1;
    }
    Loading { peak, crush: c, force: f }
}

// ---- calibration ----

/// Encoding of 0.02: how close stiffness and crush have to come.
pub const CLOSE: u64 = 0x3f94_7ae1_47ae_147b;

/// Encoding of 0.1: how close the restitution has to come.
pub const CLOSE_RESTITUTION: u64 = 0x3fb9_9999_9999_999a;

/// Encoding of 0.15: how close stiffness and crush are before the modulus is
/// touched.
pub const NEAR: u64 = 0x3fc3_3333_3333_3333;

/// How far the ratios of target to measure are from one.
#[derive(Clone, Copy, Debug, PartialEq, Eq, Structural)]
pub struct Misfit {
    pub stiffness: Real,
    pub crush: Real,
    pub restitution: Real,
}

impl Misfit {
    pub open spec fn close(self) -> bool {
        &&& self.stiffness.below(Real { bits: CLOSE })
        &&& self.crush.below(Real { bits: CLOSE })
        &&& self.restitution.below(Real { bits: CLOSE_RESTITUTION })
    }

    pub open spec fn near(self) -> bool {
        self.stiffness.below(Real { bits: NEAR }) && self.crush.below(Real { bits: NEAR })
    }
}

/// What is changed after a run.
#[derive(Clone, Copy, Debug, PartialEq, Eq, Structural)]
pub enum Adjustment {
    /// Nothing: the targets are met.
    Nothing,
    /// Stiffness and yield force.
    Curve,
    /// Stiffness, yield force and modulus.
    CurveAndModulus,
}

/// A calibration: barrier runs until the targets are met, and no more than
/// asked for.
#[derive(Clone, Copy, Debug, PartialEq, Eq, Structural)]
pub struct Calibration {
    pub iterations: usize,
    pub runs: usize,
    pub met: bool,
}

impl Calibration {
    pub open spec fn wf(self) -> bool {
        self.runs <= self.iterations && (self.met ==> self.runs > 0)
    }

    pub fn new(iterations: usize) -> (c: Calibration)
        ensures
            c == (Calibration { iterations, runs: 0, met: false }),
            c.wf(),
    {
        Calibration { iterations, runs: 0, met: false }
    }

    /// Whether another run is wanted.
    pub fn wants_run(&self) -> (b: bool)
        ensures
            b == (!self.met && self.runs < self.iterations),
    {
        !self.met && self.runs < self.iterations
    }

    /// Takes the misfit of a run and gives what to change.
    pub fn record(&mut self, misfit: Misfit) -> (a: Adjustment)
        requires
            old(self).wf(),
            !old(self).met,
            old(self).runs < old(self).iterations,
        ensures
            final(self).wf(),
            final(self).iterations == old(self).iterations,
            final(self).runs == old(self).runs + 1,
            final(self).met == misfit.close(),
            final(self).met <==> misfit.stiffness.below(Real { bits: 0x3f94_7ae1_47ae_147b })
                && misfit.crush.below(Real { bits: 0x3f94_7ae1_47ae_147b })
                && misfit.restitution.below(Real { bits: 0x3fb9_9999_9999_999a }),
            a is Nothing <==> final(self).met,
            a is CurveAndModulus <==> !final(self).met && misfit.stiffness.below(
                Real { bits: 0x3fc3_3333_3333_3333 },
            ) && misfit.crush.below(Real { bits: 0x3fc3_3333_3333_3333 }),
            a == if misfit.close() {
                Adjustment::Nothing
            } else if misfit.near() {
                Adjustment::CurveAndModulus
            } else {
                Adjustment::Curve
            },
    {
        self.runs = self.runs + 1;
        let close: Real = Real { bits: CLOSE };
        let near: Real = Real { bits: NEAR };
        if misfit.stiffness.lt(close) && misfit.crush.lt(close) && misfit.restitution.lt(
            Real { bits: CLOSE_RESTITUTION },
        ) {
            self.met = true;
            Adjustment::Nothing
        } else if misfit.stiffness.lt(near) && misfit.crush.lt(near) {
            Adjustment::CurveAndModulus
        } else {
            Adjustment::Curve
        }
    }
}

/// Whether a test crushed far enough for its stiffness over the window to be
/// compared; else the crush alone says how the stiffness is off.
pub fn reaches_window(max_crush: Real, window_end: Real) -> (b: bool)
    ensures
        b == window_end.at_most(max_crush),
{
    window_end.le(max_crush)
}

// ---- series and node lists ----

/// A series with the given ends, and `inner` between them.
pub fn between_ends<T: Copy, F: Fn(usize) -> T>(ends: &Vec<T>, inner: F) -> (r: Vec<T>)
    requires
        forall|i: usize| #[trigger] call_requires(inner, (i,)),
    ensures
        r@.len() == ends@.len(),
        forall|i: int|
            0 <= i < ends@.len() ==> if i == 0 || i == ends@.len() - 1 {
                #[trigger] r@[i] == ends@[i]
            } else {
                call_ensures(inner, (i as usize,), r@[i])
            },
{
    let n: usize = ends.len();
    let mut r: Vec<T> = Vec::new();
    let mut i: usize = 0;
    while i < n
        invariant
            i <= n,
            n == ends@.len(),
            forall|i: usize| #[trigger] call_requires(inner, (i,)),
            r@.len() == i,
            forall|k: int|
                0 <= k < i ==> if k == 0 || k == n - 1 {
                    #[trigger] r@[k] == ends@[k]
                } else {
                    call_ensures(inner, (k as usize,), r@[k])
                },
        decreases n - i,
    {
        if i == 0 || i == n - 1 {
            r.push(ends[i]);
        } else {
            let x: T = inner(i);
            r.push(x);
        }
        i += 1;
    }
    r
}

/// Those of a list that are chosen, in their order.
pub open spec fn chosen(nodes: Seq<usize>, choice: Seq<bool>, k: int) -> Seq<usize>
    decreases k,
{
    if k <= 0 {
        Seq::empty()
    } else if choice[k - 1] {
        chosen(nodes, choice, k - 1).push(nodes[k - 1])
    } else {
        chosen(nodes, choice, k - 1)
    }
}

/// The nodes of a list for which `choose_it` holds, in their order.
pub fn select_nodes<F: Fn(usize) -> bool>(nodes: &Vec<usize>, choose_it: F) -> (r: Vec<usize>)
    requires
        forall|n: usize| #[trigger] call_requires(choose_it, (n,)),
    ensures
        exists|c: Seq<bool>|
            {
                &&& r@ == #[trigger] chosen(nodes@, c, nodes@.len() as int)
                &&& forall|i: int|
                    0 <= i < nodes@.len() ==> call_ensures(
                        choose_it,
                        (nodes@[i],),
                        #[trigger] c[i],
                    )
            },
{
    let mut c: Ghost<Seq<bool>> = Ghost(Seq::new(nodes@.len(), |i: int| false));
    let mut r: Vec<usize> = Vec::new();
    let mut i: usize = 0;
    while i < nodes.len()
        invariant
            i <= nodes@.len(),
            forall|n: usize| #[trigger] call_requires(choose_it, (n,)),
            c@.len() == nodes@.len(),
            r@ == chosen(nodes@, c@, i as int),
            forall|k: int|
                0 <= k < i ==> call_ensures(choose_it, (nodes@[k],), #[trigger] c@[k]),
        decreases nodes.len() - i,
    {
        let b: bool = choose_it(nodes[i]);
        let ghost was = c@;
        proof {
            c@ = c@.update(i as int, b);
            lemma_chosen(nodes@, was, c@, i as int);
        }
        if b {
            r.push(nodes[i]);
        }
        i += 1;
    }
    r
}

proof fn lemma_chosen(nodes: Seq<usize>, a: Seq<bool>, b: Seq<bool>, k: int)
    requires
        forall|i: int| 0 <= i < k ==> #[trigger] a[i] == b[i],
    ensures
        chosen(nodes, a, k) == chosen(nodes, b, k),
    decreases k,
{
    if k > 0 {
        lemma_chosen(nodes, a, b, k - 1);
        assert(a[k - 1] == b[k - 1]);
    }
}

/// Whether the answers to comparisons with the far nodes, made one after the
/// other up to the first that holds, give the far node level with a node.
pub open spec fn is_opposite<F: Fn(usize, usize) -> bool>(
    node: usize,
    far: Seq<usize>,
    level: F,
    answers: Seq<bool>,
    at: Option<usize>,
) -> bool {
    &&& answers.len() <= far.len()
    &&& forall|i: int|
        0 <= i < answers.len() ==> call_ensures(level, (node, far[i]), #[trigger] answers[i])
    &&& match at {
        None => answers.len() == far.len() && forall|i: int|
            0 <= i < answers.len() ==> !#[trigger] answers[i],
        Some(m) => answers.len() > 0 && answers.last() && far[answers.len() - 1] == m && forall|
            i: int,
        |
            0 <= i < answers.len() - 1 ==> !#[trigger] answers[i],
    }
}

/// Whether `at` is the first of the far nodes that is level with a node, or
/// `None` where there is none.
pub open spec fn has_opposite<F: Fn(usize, usize) -> bool>(
    node: usize,
    far: Seq<usize>,
    level: F,
    at: Option<usize>,
) -> bool {
    exists|answers: Seq<bool>| #[trigger] is_opposite(node, far, level, answers, at)
}

fn opposite_of<F: Fn(usize, usize) -> bool>(node: usize, far: &Vec<usize>, level: &F) -> (r: Option<
    usize,
>)
    requires
        forall|a: usize, b: usize| #[trigger] call_requires(*level, (a, b)),
    ensures
        has_opposite(node, far@, *level, r),
{
    let mut answers: Ghost<Seq<bool>> = Ghost(Seq::empty());
    let mut i: usize = 0;
    while i < far.len()
        invariant
            i <= far@.len(),
            forall|a: usize, b: usize| #[trigger] call_requires(*level, (a, b)),
            answers@.len() == i,
            forall|k: int|
                0 <= k < i ==> call_ensures(*level, (node, far@[k]), #[trigger] answers@[k]),
            forall|k: int| 0 <= k < i ==> !#[trigger] answers@[k],
        decreases far.len() - i,
    {
        let b: bool = level(node, far[i]);
        proof {
            answers@ = answers@.push(b);
        }
        if b {
            assert(is_opposite(node, far@, *level, answers@, Some(far@[i as int])));
            return Some(far[i]);
        }
        i += 1;
    }
    assert(is_opposite(node, far@, *level, answers@, None));
    None
}

/// For each node of the struck side the node behind it on the far side: the
/// first that is level with it, where there is one.
pub fn opposite_nodes<F: Fn(usize, usize) -> bool>(
    struck: &Vec<usize>,
    far: &Vec<usize>,
    level: F,
) -> (r: Vec<Option<usize>>)
    requires
        forall|a: usize, b: usize| #[trigger] call_requires(level, (a, b)),
    ensures
        r@.len() == struck@.len(),
        forall|i: int|
            0 <= i < struck@.len() ==> has_opposite(struck@[i], far@, level, #[trigger] r@[i]),
{
    let mut r: Vec<Option<usize>> = Vec::new();
    let mut i: usize = 0;
    while i < struck.len()
        invariant
            i <= struck@.len(),
            forall|a: usize, b: usize| #[trigger] call_requires(level, (a, b)),
            r@.len() == i,
            forall|k: int|
                0 <= k < i ==> has_opposite(struck@[k], far@, level, #[trigger] r@[k]),
        decreases struck.len() - i,
    {
        let m: Option<usize> = opposite_of(struck[i], far, &level);
        r.push(m);
        i += 1;
    }
    r
}

// ---- what the measures and the calibration are for ----

/// A calibration is met only where each of the three misfits is a number below
/// its own bound: 0.02 for stiffness and crush, 0.1 for restitution. Any one that
/// is at or above its bound, or a NaN, keeps it from being met, whatever the
/// others are.
pub proof fn law_targets_are_met_each_by_itself(m: Misfit)
    ensures
        m.stiffness.nan() || m.stiffness.order() >= 0x3f94_7ae1_47ae_147b ==> !m.close(),
        m.crush.nan() || m.crush.order() >= 0x3f94_7ae1_47ae_147b ==> !m.close(),
        m.restitution.nan() || m.restitution.order() >= 0x3fb9_9999_9999_999a ==> !m.close(),
        !m.stiffness.nan() && m.stiffness.order() < 0x3f94_7ae1_47ae_147b && !m.crush.nan()
            && m.crush.order() < 0x3f94_7ae1_47ae_147b && !m.restitution.nan()
            && m.restitution.order() < 0x3fb9_9999_9999_999a ==> m.close(),
{
}

/// The modulus is touched only where stiffness and crush each are a number below
/// 0.15, whatever the restitution is; and what is met is near.
pub proof fn law_modulus_waits_for_stiffness_and_crush(m: Misfit)
    ensures
        m.stiffness.nan() || m.stiffness.order() >= 0x3fc3_3333_3333_3333 ==> !m.near(),
        m.crush.nan() || m.crush.order() >= 0x3fc3_3333_3333_3333 ==> !m.near(),
        !m.stiffness.nan() && m.stiffness.order() < 0x3fc3_3333_3333_3333 && !m.crush.nan()
            && m.crush.order() < 0x3fc3_3333_3333_3333 ==> m.near(),
        m.close() ==> m.near(),
{
}

/// A body that travels at a speed moves along x alone, at that speed the way it
/// faces; and the face that leads lies at the end towards which it moves.
pub proof fn law_headings_are_opposite(speed: Real)
    ensures
        Heading::PlusX.travelling(speed).len() == 3,
        Heading::MinusX.travelling(speed).len() == 3,
        Heading::PlusX.travelling(speed)[0] == speed,
        Heading::MinusX.travelling(speed)[0].order() == -speed.order(),
        Heading::MinusX.travelling(speed)[0] != speed,
        forall|d: int|
            1 <= d < 3 ==> (#[trigger] Heading::PlusX.travelling(speed)[d]).bits == 0
                && Heading::MinusX.travelling(speed)[d].bits == 0,
        Heading::PlusX.leading() is XMax,
        Heading::MinusX.leading() is XMin,
{
}

/// A sample of a series is the motion of the part along the axis at the time of
/// its entry: time, mass, velocity and displacement each in its place.
pub proof fn law_series_follow_the_history(
    history: Seq<(Real, Vec<PartState>)>,
    p: int,
    axis: int,
    i: int,
)
    requires
        0 <= i < history.len(),
    ensures
        ({
            let s = Seq::new(history.len(), |k: int| sample_of(history[k], p, axis))[i];
            &&& s.time == history[i].0
            &&& s.mass == history[i].1@[p].mass
            &&& s.velocity == history[i].1@[p].velocity@[axis]
            &&& s.displacement == history[i].1@[p].displacement@[axis]
        }),
{
}

/// First contact is the first sample whose force is above the threshold.
pub proof fn law_contact_is_the_first_above(force: Seq<Real>, threshold: Real, k: int)
    requires
        !threshold.nan(),
        no_nan(force),
        is_onset(force, threshold, k),
    ensures
        0 <= k < force.len(),
        force[k].order() > threshold.order(),
        forall|i: int| 0 <= i < k ==> (#[trigger] force[i]).order() <= threshold.order(),
{
    assert forall|i: int| 0 <= i < k implies (#[trigger] force[i]).order()
        <= threshold.order() by {
        assert(!threshold.below(force[i]));
    }
}

/// The places of a list that are chosen.
pub open spec fn chosen_places(choice: Seq<bool>) -> spec_fn(int) -> bool {
    |i: int| choice[i]
}

/// The chosen nodes of a list are those at the places chosen, in their order and
/// none left out.
pub proof fn law_chosen_nodes(nodes: Seq<usize>, choice: Seq<bool>, k: int)
    requires
        0 <= k <= nodes.len(),
        k <= choice.len(),
    ensures
        is_picked(chosen(nodes, choice, k), k, chosen_places(choice), |i: int| nodes[i]),
    decreases k,
{
    if k > 0 {
        law_chosen_nodes(nodes, choice, k - 1);
        lemma_picked_grows(
            chosen(nodes, choice, k - 1),
            k - 1,
            chosen_places(choice),
            |i: int| nodes[i],
        );
    }
}

/// The node opposite another is level with it, and none before it on the far
/// side is; where there is no such node, none of the far side is level. Here
/// `flat` says which are.
pub proof fn law_opposite_is_the_first_level<F: Fn(usize, usize) -> bool>(
    node: usize,
    far: Seq<usize>,
    level: F,
    at: Option<usize>,
    flat: spec_fn(usize) -> bool,
)
    requires
        has_opposite(node, far, level, at),
        forall|m: usize, b: bool| #[trigger] call_ensures(level, (node, m), b) ==> b == flat(m),
    ensures
        match at {
            None => forall|i: int| 0 <= i < far.len() ==> !flat(#[trigger] far[i]),
            Some(m) => flat(m) && exists|j: int|
                0 <= j < far.len() && #[trigger] far[j] == m && forall|i: int|
                    0 <= i < j ==> !flat(#[trigger] far[i]),
        },
{
    let answers = choose|answers: Seq<bool>| #[trigger]
        is_opposite(node, far, level, answers, at);
    assert forall|i: int| 0 <= i < answers.len() implies answers[i] == flat(
        #[trigger] far[i],
    ) by {
        assert(call_ensures(level, (node, far[i]), answers[i]));
    }
    match at {
        None => {
            assert forall|i: int| 0 <= i < far.len() implies !flat(#[trigger] far[i]) by {
                assert(!answers[i]);
            }
        },
        Some(m) => {
            let j = answers.len() - 1;
            assert(far[j] == m);
            assert forall|i: int| 0 <= i < j implies !flat(#[trigger] far[i]) by {
                assert(!answers[i]);
            }
        },
    }
}

/// The box of listed nodes holds each of them, and each of its sides is that of
/// one of them.
pub proof fn law_box_of_nodes_is_the_least(
    nodes: Seq<[Real; 3]>,
    list: Seq<usize>,
    k: int,
    d: int,
)
    requires
        0 <= k <= list.len(),
        0 <= d < 3,
        forall|i: int| 0 <= i < list.len() ==> (#[trigger] nodes[list[i] as int]@[d]).finite(),
    ensures
        ({
            let b = box_of_nodes(nodes, list, k);
            &&& !b.lo@[d].nan() && !b.hi@[d].nan()
            &&& forall|i: int|
                0 <= i < k ==> b.lo@[d].order() <= (#[trigger] nodes[list[i] as int]@[d]).order()
                    <= b.hi@[d].order()
            &&& k > 0 ==> exists|i: int|
                0 <= i < k && #[trigger] nodes[list[i] as int]@[d] == b.lo@[d]
            &&& k > 0 ==> exists|i: int|
                0 <= i < k && #[trigger] nodes[list[i] as int]@[d] == b.hi@[d]
            &&& k == 0 ==> b.lo@[d].bits == 0x7fef_ffff_ffff_ffff && b.hi@[d].bits
                == 0xffef_ffff_ffff_ffff
        }),
    decreases k,
{
    assert(d == 0 || d == 1 || d == 2);
    if k > 0 {
        law_box_of_nodes_is_the_least(nodes, list, k - 1, d);
        let a = box_of_nodes(nodes, list, k - 1);
        let b = box_of_nodes(nodes, list, k);
        let x = nodes[list[k - 1] as int]@[d];
        assert(x.finite());
        assert(b.lo@[d] == a.lo@[d] || b.lo@[d] == x);
        assert(b.hi@[d] == a.hi@[d] || b.hi@[d] == x);
        if k == 1 {
            if b.lo@[d] == a.lo@[d] {
                assert(x == a.lo@[d]);
            }
            if b.hi@[d] == a.hi@[d] {
                assert(x == a.hi@[d]);
            }
        }
    }
}

} // verus!
