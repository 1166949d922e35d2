//! Setup file to [`Model`]: the mesh, the materials of its parts, initial
//! velocities, fixed sets and contact pairs, all by name.

use crate::material::{Material, Plasticity};
use crate::mesh::{grid_points, labelled, BlockFace, Mesh};
use crate::model::{with_velocity, Model, Settings};
use crate::number::Real;
use crate::text::{lower, lower_of, same_text};
use crate::vehicle::{lemma_grid_room, unset_materials};
use vstd::prelude::*;

verus! {

/// A face of a block and the face set it becomes.
#[derive(Clone, Debug)]
pub struct FaceConfig {
    pub face: String,
    pub set: String,
}

/// A block of hexahedra: the part it becomes, its grid planes along each axis
/// and its faces.
#[derive(Clone, Debug)]
pub struct BlockConfig {
    pub part: String,
    pub grid: [Vec<Real>; 3],
    pub faces: Vec<FaceConfig>,
}

/// A mesh file, blocks, or both.
#[derive(Clone, Debug)]
pub struct MeshConfig {
    pub file: Option<String>,
    pub block: Vec<BlockConfig>,
}

#[derive(Clone, Debug)]
pub struct MaterialConfig {
    pub part: String,
    pub material: Material,
}

#[derive(Clone, Debug)]
pub struct InitialVelocity {
    /// Node set or part.
    pub set: String,
    pub velocity: [Real; 3],
}

/// A node set or part by name.
#[derive(Clone, Debug)]
pub struct SetRef {
    pub set: String,
}

/// A two-way pair of face sets.
#[derive(Clone, Debug)]
pub struct ContactConfig {
    pub a: String,
    pub b: String,
    pub stiffness: Real,
    pub max_distance: Real,
}

/// Where to write what a run gives.
#[derive(Clone, Debug)]
pub struct Output {
    pub gif: Option<String>,
    pub vtk: Option<String>,
    pub history: Option<String>,
}

impl Default for Output {
    fn default() -> (o: Output)
        ensures
            o.gif is None,
            o.vtk is None,
            o.history is None,
    {
        Output { gif: None, vtk: None, history: None }
    }
}

/// Encoding of 0.3.
pub const MAX_DISTANCE: u64 = 0x3fd3_3333_3333_3333;

/// Search distance of a contact (m), unless set otherwise.
pub fn default_max_distance() -> (r: Real)
    ensures
        r == (Real { bits: MAX_DISTANCE }),
{
    Real { bits: MAX_DISTANCE }
}

#[derive(Clone, Debug)]
pub struct Config {
    pub mesh: MeshConfig,
    pub material: Vec<MaterialConfig>,
    pub initial_velocity: Vec<InitialVelocity>,
    pub fixed: Vec<SetRef>,
    pub contact: Vec<ContactConfig>,
    pub solver: Settings,
    pub output: Output,
}

/// What is wrong with a setup.
#[derive(Clone, Debug)]
pub enum ConfigError {
    UnknownFace(String),
    NoExtension,
    Format(String),
    NoHexahedra,
    UnknownPart(String),
    VelocitySet(String),
    FixedSet(String),
    FaceSet(String),
}

/// What is wrong with a setup, by names.
pub enum Fault {
    UnknownFace(Seq<char>),
    NoExtension,
    Format(Seq<char>),
    NoHexahedra,
    UnknownPart(Seq<char>),
    VelocitySet(Seq<char>),
    FixedSet(Seq<char>),
    FaceSet(Seq<char>),
}

impl View for ConfigError {
    type V = Fault;

    open spec fn view(&self) -> Fault {
        match *self {
            ConfigError::UnknownFace(s) => Fault::UnknownFace(s@),
            ConfigError::NoExtension => Fault::NoExtension,
            ConfigError::Format(s) => Fault::Format(s@),
            ConfigError::NoHexahedra => Fault::NoHexahedra,
            ConfigError::UnknownPart(s) => Fault::UnknownPart(s@),
            ConfigError::VelocitySet(s) => Fault::VelocitySet(s@),
            ConfigError::FixedSet(s) => Fault::FixedSet(s@),
            ConfigError::FaceSet(s) => Fault::FaceSet(s@),
        }
    }
}

/// A name between quotes after what is said of it.
pub open spec fn quoted(said: Seq<char>, name: Seq<char>) -> Seq<char> {
    said + name + "'"@
}

fn quote(said: &str, name: &str) -> (s: String)
    ensures
        s@ == quoted(said@, name@),
{
    let mut s: String = said.to_string();
    s.append(name);
    s.append("'");
    s
}

impl Fault {
    pub open spec fn text(self) -> Seq<char> {
        match self {
            Fault::UnknownFace(s) => quoted("unknown block face '"@, s),
            Fault::NoExtension => "mesh file has no extension"@,
            Fault::Format(s) => quoted("unsupported mesh format '."@, s),
            Fault::NoHexahedra => "mesh has no hexahedra"@,
            Fault::UnknownPart(s) => quoted("material for unknown part '"@, s),
            Fault::VelocitySet(s) => quoted("initial velocity for unknown set '"@, s),
            Fault::FixedSet(s) => quoted("fixed: unknown set '"@, s),
            Fault::FaceSet(s) => quoted("contact: unknown face set '"@, s),
        }
    }
}

impl ConfigError {
    /// The message shown to the user.
    pub fn message(&self) -> (s: String)
        ensures
            s@ == self@.text(),
    {
        match self {
            ConfigError::UnknownFace(s) => quote("unknown block face '", s),
            ConfigError::NoExtension => "mesh file has no extension".to_string(),
            ConfigError::Format(s) => quote("unsupported mesh format '.", s),
            ConfigError::NoHexahedra => "mesh has no hexahedra".to_string(),
            ConfigError::UnknownPart(s) => quote("material for unknown part '", s),
            ConfigError::VelocitySet(s) => quote("initial velocity for unknown set '", s),
            ConfigError::FixedSet(s) => quote("fixed: unknown set '", s),
            ConfigError::FaceSet(s) => quote("contact: unknown face set '", s),
        }
    }
}

// ---- names ----

/// The block face of a name in lower case.
pub open spec fn face_named(s: Seq<char>) -> Option<BlockFace> {
    if s == "x_min"@ || s == "xmin"@ || s == "-x"@ {
        Some(BlockFace::XMin)
    } else if s == "x_max"@ || s == "xmax"@ || s == "+x"@ {
        Some(BlockFace::XMax)
    } else if s == "y_min"@ || s == "ymin"@ || s == "-y"@ {
        Some(BlockFace::YMin)
    } else if s == "y_max"@ || s == "ymax"@ || s == "+y"@ {
        Some(BlockFace::YMax)
    } else if s == "z_min"@ || s == "zmin"@ || s == "-z"@ {
        Some(BlockFace::ZMin)
    } else if s == "z_max"@ || s == "zmax"@ || s == "+z"@ {
        Some(BlockFace::ZMax)
    } else {
        None
    }
}

/// The block face of a name in lower case.
pub fn face_of(s: &str) -> (r: Option<BlockFace>)
    ensures
        r == face_named(s@),
{
    if same_text(s, "x_min") || same_text(s, "xmin") || same_text(s, "-x") {
        Some(BlockFace::XMin)
    } else if same_text(s, "x_max") || same_text(s, "xmax") || same_text(s, "+x") {
        Some(BlockFace::XMax)
    } else if same_text(s, "y_min") || same_text(s, "ymin") || same_text(s, "-y") {
        Some(BlockFace::YMin)
    } else if same_text(s, "y_max") || same_text(s, "ymax") || same_text(s, "+y") {
        Some(BlockFace::YMax)
    } else if same_text(s, "z_min") || same_text(s, "zmin") || same_text(s, "-z") {
        Some(BlockFace::ZMin)
    } else if same_text(s, "z_max") || same_text(s, "zmax") || same_text(s, "+z") {
        Some(BlockFace::ZMax)
    } else {
        None
    }
}

/// The block face of a name, in capitals or not.
pub fn parse_face(s: &str) -> (r: Result<BlockFace, ConfigError>)
    ensures
        match face_named(lower(s@)) {
            Some(f) => r == Ok::<_, ConfigError>(f),
            None => r is Err && r->Err_0@ == Fault::UnknownFace(lower(s@)),
        },
{
    let name: String = lower_of(s);
    match face_of(&name) {
        Some(f) => Ok(f),
        None => Err(ConfigError::UnknownFace(name)),
    }
}

/// What is wrong with a mesh file's extension in lower case.
pub open spec fn format_fault(extension: Option<Seq<char>>) -> Option<Fault> {
    match extension {
        None => Some(Fault::NoExtension),
        Some(s) => if s == "inp"@ {
            None
        } else {
            Some(Fault::Format(s))
        },
    }
}

/// Whether a mesh file can be read, by its extension in lower case.
pub fn format_of(extension: Option<String>) -> (r: Result<(), ConfigError>)
    ensures
        match format_fault(
            match extension {
                Some(s) => Some(s@),
                None => None,
            },
        ) {
            None => r is Ok,
            Some(e) => r is Err && r->Err_0@ == e,
        },
{
    match extension {
        None => Err(ConfigError::NoExtension),
        Some(s) => if same_text(&s, "inp") {
            Ok(())
        } else {
            Err(ConfigError::Format(s))
        },
    }
}

/// Whether a mesh file can be read, by its extension: `.inp`, in capitals or
/// not.
pub fn mesh_format(extension: Option<&str>) -> (r: Result<(), ConfigError>)
    ensures
        match format_fault(
            match extension {
                Some(s) => Some(lower(s@)),
                None => None,
            },
        ) {
            None => r is Ok,
            Some(e) => r is Err && r->Err_0@ == e,
        },
{
    match extension {
        None => format_of(None),
        Some(s) => format_of(Some(lower_of(s))),
    }
}

// ---- blocks ----

/// The first of the faces from `k` on whose name is none.
pub open spec fn faces_fault(faces: Seq<FaceConfig>, k: int) -> Option<Fault>
    decreases faces.len() - k,
{
    if k >= faces.len() {
        None
    } else {
        let s = lower(faces[k].face@);
        if face_named(s) is None {
            Some(Fault::UnknownFace(s))
        } else {
            faces_fault(faces, k + 1)
        }
    }
}

/// The first fault of the blocks from `k` on.
pub open spec fn blocks_fault(blocks: Seq<BlockConfig>, k: int) -> Option<Fault>
    decreases blocks.len() - k,
{
    if k >= blocks.len() {
        None
    } else {
        match faces_fault(blocks[k].faces@, 0) {
            Some(e) => Some(e),
            None => blocks_fault(blocks, k + 1),
        }
    }
}

/// The faces of a block with the names of their sets.
pub open spec fn surfaces_of(faces: Seq<FaceConfig>) -> Seq<(BlockFace, Seq<char>)> {
    faces.map_values(|f: FaceConfig| (face_named(lower(f.face@))->0, f.set@))
}

/// Lattice points of the first `k` blocks.
pub open spec fn points_before(blocks: Seq<BlockConfig>, k: int) -> int
    decreases k,
{
    if k <= 0 {
        0
    } else {
        points_before(blocks, k - 1) + grid_points(blocks[k - 1].grid)
    }
}

/// Every block has an element along each axis.
pub open spec fn have_elements(blocks: Seq<BlockConfig>) -> bool {
    forall|k: int|
        0 <= k < blocks.len() ==> {
            let g = (#[trigger] blocks[k]).grid@;
            g[0]@.len() > 1 && g[1]@.len() > 1 && g[2]@.len() > 1
        }
}

/// The meshes that the blocks make one after the other, from `start` on.
pub open spec fn is_growth(
    meshes: Seq<Mesh<[Real; 3]>>,
    start: Mesh<[Real; 3]>,
    blocks: Seq<BlockConfig>,
) -> bool {
    &&& meshes.len() == blocks.len() + 1
    &&& meshes[0] == start
    &&& forall|k: int|
        0 <= k < blocks.len() ==> grown(#[trigger] meshes[k], meshes[k + 1], blocks[k])
}

/// One mesh is another with a block appended.
pub open spec fn grown(
    before: Mesh<[Real; 3]>,
    after: Mesh<[Real; 3]>,
    block: BlockConfig,
) -> bool {
    after.grid_joined(
        before,
        before.parts.len(),
        block.part@,
        block.grid,
        surfaces_of(block.faces@),
    )
}

proof fn lemma_points(blocks: Seq<BlockConfig>, j: int, k: int)
    requires
        0 <= j <= k <= blocks.len(),
    ensures
        0 <= points_before(blocks, j) <= points_before(blocks, k),
    decreases k,
{
    if k > 0 {
        let g = blocks[k - 1].grid@;
        let (a, b, c) = (g[0]@.len() as int, g[1]@.len() as int, g[2]@.len() as int);
        assert(a * b * c >= 0) by (nonlinear_arith)
            requires
                a >= 0,
                b >= 0,
                c >= 0,
        ;
        if j < k {
            lemma_points(blocks, j, k - 1);
        } else {
            lemma_points(blocks, k - 1, k - 1);
        }
    }
}

/// The faces of a block, each parsed.
fn parse_faces(faces: &Vec<FaceConfig>) -> (r: Result<Vec<(BlockFace, &str)>, ConfigError>)
    ensures
        match faces_fault(faces@, 0) {
            None => r is Ok && labelled(r->Ok_0@) == surfaces_of(faces@),
            Some(e) => r is Err && r->Err_0@ == e,
        },
{
    let mut v: Vec<(BlockFace, &str)> = Vec::new();
    let mut i: usize = 0;
    while i < faces.len()
        invariant
            i <= faces@.len(),
            faces_fault(faces@, 0) == faces_fault(faces@, i as int),
            v@.len() == i,
            forall|k: int|
                0 <= k < i ==> (#[trigger] v@[k]).0 == face_named(
                    lower(faces@[k].face@),
                )->0 && v@[k].1@ == faces@[k].set@,
        decreases faces.len() - i,
    {
        match parse_face(&faces[i].face) {
            Ok(f) => {
                v.push((f, faces[i].set.as_str()));
            },
            Err(e) => {
                return Err(e);
            },
        }
        i += 1;
    }
    assert(labelled(v@) =~= surfaces_of(faces@));
    Ok(v)
}

/// Appends the blocks in turn.
fn add_blocks(mesh: Mesh<[Real; 3]>, blocks: &Vec<BlockConfig>) -> (r: Result<
    Mesh<[Real; 3]>,
    ConfigError,
>)
    requires
        mesh.wf(),
        have_elements(blocks@),
        mesh.nodes.len() + points_before(blocks@, blocks@.len() as int) <= usize::MAX,
    ensures
        match blocks_fault(blocks@, 0) {
            None => r is Ok && r->Ok_0.wf() && exists|meshes: Seq<Mesh<[Real; 3]>>|
                #[trigger] is_growth(meshes, mesh, blocks@) && meshes.last() == r->Ok_0,
            Some(e) => r is Err && r->Err_0@ == e,
        },
{
    let ghost start = mesh;
    let mut mesh: Mesh<[Real; 3]> = mesh;
    let ghost mut meshes: Seq<Mesh<[Real; 3]>> = seq![mesh];
    let mut b: usize = 0;
    while b < blocks.len()
        invariant
            b <= blocks@.len(),
            mesh.wf(),
            have_elements(blocks@),
            start.nodes.len() + points_before(blocks@, blocks@.len() as int) <= usize::MAX,
            mesh.nodes.len() == start.nodes.len() + points_before(blocks@, b as int),
            blocks_fault(blocks@, 0) == blocks_fault(blocks@, b as int),
            meshes.len() == b + 1,
            meshes[0] == start,
            meshes.last() == mesh,
            forall|k: int|
                0 <= k < b ==> grown(#[trigger] meshes[k], meshes[k + 1], blocks@[k]),
        decreases blocks.len() - b,
    {
        let block: &BlockConfig = &blocks[b];
        match parse_faces(&block.faces) {
            Err(e) => {
                return Err(e);
            },
            Ok(surfaces) => {
                let ghost before = mesh;
                proof {
                    lemma_points(blocks@, b + 1, blocks@.len() as int);
                    assert(have_elements(blocks@));
                    let g = blocks@[b as int].grid@;
                    assert(g[0].len() == g[0]@.len());
                    assert(g[1].len() == g[1]@.len());
                    assert(g[2].len() == g[2]@.len());
                    lemma_grid_room(blocks@[b as int].grid);
                }
                mesh.add_grid_block(&block.part, &block.grid, surfaces.as_slice());
                proof {
                    let was = meshes;
                    meshes = was.push(mesh);
                    assert(grown(before, mesh, blocks@[b as int]));
                    assert forall|k: int| 0 <= k < b + 1 implies grown(
                        #[trigger] meshes[k],
                        meshes[k + 1],
                        blocks@[k],
                    ) by {
                        if k < b {
                            assert(grown(was[k], was[k + 1], blocks@[k]));
                        }
                    }
                }
            },
        }
        b += 1;
    }
    assert(is_growth(meshes, start, blocks@));
    Ok(mesh)
}

// ---- materials ----

/// The material `m` with what its curve implies: the first yield stress and
/// hardening of a valid tabulated curve. Any other material stays as it is.
pub open spec fn is_normal_of<F: Fn([Real; 2], [Real; 2]) -> Real>(
    m: Material,
    r: Material,
    slope: F,
) -> bool {
    &&& r.youngs_modulus == m.youngs_modulus
    &&& r.poisson_ratio == m.poisson_ratio
    &&& r.density == m.density
    &&& match (m.plasticity, r.plasticity) {
        (None, None) => true,
        (Some(p), Some(q)) => {
            &&& q.model == p.model
            &&& q.curve == p.curve
            &&& q.densification == p.densification
            &&& q.transverse_factor == p.transverse_factor
            &&& if p.fault() is None && p.curve@.len() >= 2 {
                q.yield_stress == p.stress(0) && call_ensures(
                    slope,
                    (p.curve@[0], p.curve@[1]),
                    q.hardening,
                )
            } else {
                q.yield_stress == p.yield_stress && q.hardening == p.hardening
            }
        },
        _ => false,
    }
}

/// The first material from `k` on of a part that there is not.
pub open spec fn materials_fault(
    mesh: Mesh<[Real; 3]>,
    materials: Seq<MaterialConfig>,
    k: int,
) -> Option<Fault>
    decreases materials.len() - k,
{
    if k >= materials.len() {
        None
    } else if !mesh.has_part(materials[k].part@) {
        Some(Fault::UnknownPart(materials[k].part@))
    } else {
        materials_fault(mesh, materials, k + 1)
    }
}

/// The materials of the parts after the first `k` were assigned, each made
/// ready as `ready` has it.
pub open spec fn materials_after(
    mesh: Mesh<[Real; 3]>,
    materials: Seq<MaterialConfig>,
    ready: Seq<Material>,
    k: int,
) -> Seq<Material>
    decreases k,
{
    if k <= 0 {
        unset_materials(mesh)
    } else {
        materials_after(mesh, materials, ready, k - 1).update(
            mesh.first_part(materials[k - 1].part@),
            ready[k - 1],
        )
    }
}

/// The material of each part is what the setup assigns to it.
pub open spec fn materials_built<F: Fn([Real; 2], [Real; 2]) -> Real>(
    mesh: Mesh<[Real; 3]>,
    materials: Seq<MaterialConfig>,
    ready: Seq<Material>,
    slope: F,
    built: Seq<Material>,
) -> bool {
    &&& ready.len() == materials.len()
    &&& forall|k: int|
        0 <= k < ready.len() ==> is_normal_of(materials[k].material, #[trigger] ready[k], slope)
    &&& built == materials_after(mesh, materials, ready, materials.len() as int)
}

proof fn lemma_materials_alike(
    mesh: Mesh<[Real; 3]>,
    materials: Seq<MaterialConfig>,
    ready: Seq<Material>,
    more: Seq<Material>,
    k: int,
)
    requires
        0 <= k <= ready.len(),
        more.len() >= ready.len(),
        forall|i: int| 0 <= i < k ==> #[trigger] more[i] == ready[i],
    ensures
        materials_after(mesh, materials, more, k) == materials_after(mesh, materials, ready, k),
    decreases k,
{
    if k > 0 {
        lemma_materials_alike(mesh, materials, ready, more, k - 1);
    }
}

/// A material with what a valid curve implies filled in.
fn normal<F: Fn([Real; 2], [Real; 2]) -> Real>(m: Material, slope: &F) -> (r: Material)
    requires
        forall|a: [Real; 2], b: [Real; 2]| #[trigger] call_requires(*slope, (a, b)),
    ensures
        is_normal_of(m, r, *slope),
{
    let Material { youngs_modulus, poisson_ratio, density, plasticity } = m;
    let plasticity: Option<Plasticity> = match plasticity {
        None => None,
        Some(p) => {
            let mut p: Plasticity = p;
            let _ = p.normalise(slope);
            Some(p)
        },
    };
    Material { youngs_modulus, poisson_ratio, density, plasticity }
}

/// Assigns the materials in turn.
#[verifier::loop_isolation(false)]
fn assign_materials<F: Fn([Real; 2], [Real; 2]) -> Real>(
    model: &mut Model,
    materials: Vec<MaterialConfig>,
    slope: &F,
) -> (r: Result<(), ConfigError>)
    requires
        old(model).wf(),
        old(model).materials@ == unset_materials(old(model).mesh),
        forall|a: [Real; 2], b: [Real; 2]| #[trigger] call_requires(*slope, (a, b)),
    ensures
        match materials_fault(old(model).mesh, materials@, 0) {
            None => r is Ok && final(model).wf() && exists|ready: Seq<Material>|
                #[trigger] materials_built(
                    old(model).mesh,
                    materials@,
                    ready,
                    *slope,
                    final(model).materials@,
                ),
            Some(e) => r is Err && r->Err_0@ == e,
        },
        final(model).mesh == old(model).mesh,
        final(model).initial_velocity == old(model).initial_velocity,
        final(model).fixed_nodes == old(model).fixed_nodes,
        final(model).contacts == old(model).contacts,
        final(model).accelerometers == old(model).accelerometers,
        final(model).settings == old(model).settings,
{
    let ghost all = materials@;
    let ghost mesh = model.mesh;
    let mut rest: Vec<MaterialConfig> = materials;
    let ghost mut ready: Seq<Material> = Seq::empty();
    assert(rest@ =~= all.skip(0));
    while rest.len() > 0
        invariant
            ready.len() <= all.len(),
            rest@ == all.skip(ready.len() as int),
            model.wf(),
            model.mesh == mesh,
            mesh == old(model).mesh,
            model.initial_velocity == old(model).initial_velocity,
            model.fixed_nodes == old(model).fixed_nodes,
            model.contacts == old(model).contacts,
            model.accelerometers == old(model).accelerometers,
            model.settings == old(model).settings,
            model.materials@ == materials_after(mesh, all, ready, ready.len() as int),
            materials_fault(mesh, all, 0) == materials_fault(mesh, all, ready.len() as int),
            forall|k: int|
                0 <= k < ready.len() ==> is_normal_of(
                    all[k].material,
                    #[trigger] ready[k],
                    *slope,
                ),
            forall|a: [Real; 2], b: [Real; 2]| #[trigger] call_requires(*slope, (a, b)),
        decreases rest@.len(),
    {
        let ghost k = ready.len() as int;
        assert(rest@[0] == all[k]);
        let ghost later = rest@;
        let next: MaterialConfig = rest.remove(0);
        assert(rest@ =~= all.skip(k + 1)) by {
            assert(rest@ == later.remove(0));
        }
        let MaterialConfig { part, material } = next;
        if model.mesh.part_index(&part).is_none() {
            return Err(ConfigError::UnknownPart(part));
        }
        let m: Material = normal(material, slope);
        model.set_material(&part, m);
        proof {
            let was = ready;
            ready = was.push(m);
            lemma_materials_alike(mesh, all, was, ready, k);
            assert(model.materials@ =~= materials_after(mesh, all, ready, k + 1));
        }
    }
    proof {
        assert(materials_built(mesh, all, ready, *slope, model.materials@));
    }
    Ok(())
}

// ---- sets ----

/// The first initial velocity from `k` on of a set that there is not.
pub open spec fn velocities_fault(
    mesh: Mesh<[Real; 3]>,
    velocities: Seq<InitialVelocity>,
    k: int,
) -> Option<Fault>
    decreases velocities.len() - k,
{
    if k >= velocities.len() {
        None
    } else if mesh.named_nodes(velocities[k].set@) is None {
        Some(Fault::VelocitySet(velocities[k].set@))
    } else {
        velocities_fault(mesh, velocities, k + 1)
    }
}

/// The nodal velocities after the first `k` were set.
pub open spec fn velocities_after(
    mesh: Mesh<[Real; 3]>,
    start: Seq<[Real; 3]>,
    velocities: Seq<InitialVelocity>,
    k: int,
) -> Seq<[Real; 3]>
    decreases k,
{
    if k <= 0 {
        start
    } else {
        with_velocity(
            velocities_after(mesh, start, velocities, k - 1),
            mesh.named_nodes(velocities[k - 1].set@)->0,
            velocities[k - 1].velocity,
        )
    }
}

/// The first fixed set from `k` on that there is not.
pub open spec fn fixed_fault(mesh: Mesh<[Real; 3]>, fixed: Seq<SetRef>, k: int) -> Option<Fault>
    decreases fixed.len() - k,
{
    if k >= fixed.len() {
        None
    } else if mesh.named_nodes(fixed[k].set@) is None {
        Some(Fault::FixedSet(fixed[k].set@))
    } else {
        fixed_fault(mesh, fixed, k + 1)
    }
}

/// The fixed nodes after the first `k` sets.
pub open spec fn fixed_after(mesh: Mesh<[Real; 3]>, fixed: Seq<SetRef>, k: int) -> Seq<usize>
    decreases k,
{
    if k <= 0 {
        Seq::empty()
    } else {
        fixed_after(mesh, fixed, k - 1) + mesh.named_nodes(fixed[k - 1].set@)->0
    }
}

/// The first face set from `k` on that there is not.
pub open spec fn contacts_fault(
    mesh: Mesh<[Real; 3]>,
    contacts: Seq<ContactConfig>,
    k: int,
) -> Option<Fault>
    decreases contacts.len() - k,
{
    if k >= contacts.len() {
        None
    } else if !mesh.face_sets@.dom().contains(contacts[k].a@) {
        Some(Fault::FaceSet(contacts[k].a@))
    } else if !mesh.face_sets@.dom().contains(contacts[k].b@) {
        Some(Fault::FaceSet(contacts[k].b@))
    } else {
        contacts_fault(mesh, contacts, k + 1)
    }
}

/// The contacts are those of the first `n` pairs, two of each.
pub open spec fn contacts_built(
    model: Model,
    contacts: Seq<ContactConfig>,
    n: int,
) -> bool {
    &&& model.contacts@.len() == 2 * n
    &&& forall|k: int|
        0 <= k < n ==> pair_built(model, #[trigger] contacts[k], k)
}

/// The two contacts of pair `k`.
pub open spec fn pair_built(model: Model, c: ContactConfig, k: int) -> bool {
    &&& model.is_contact(
        model.contacts@[2 * k],
        c.a@,
        c.b@,
        c.stiffness.halved(),
        c.max_distance,
    )
    &&& model.is_contact(
        model.contacts@[2 * k + 1],
        c.b@,
        c.a@,
        c.stiffness.halved(),
        c.max_distance,
    )
}

/// Sets the initial velocities in turn.
fn assign_velocities(model: &mut Model, velocities: &Vec<InitialVelocity>) -> (r: Result<
    (),
    ConfigError,
>)
    requires
        old(model).wf(),
    ensures
        match velocities_fault(old(model).mesh, velocities@, 0) {
            None => r is Ok && final(model).wf() && final(model).initial_velocity@
                == velocities_after(
                old(model).mesh,
                old(model).initial_velocity@,
                velocities@,
                velocities@.len() as int,
            ),
            Some(e) => r is Err && r->Err_0@ == e,
        },
        final(model).mesh == old(model).mesh,
        final(model).materials == old(model).materials,
        final(model).fixed_nodes == old(model).fixed_nodes,
        final(model).contacts == old(model).contacts,
        final(model).accelerometers == old(model).accelerometers,
        final(model).settings == old(model).settings,
{
    let mut k: usize = 0;
    while k < velocities.len()
        invariant
            k <= velocities@.len(),
            model.wf(),
            model.mesh == old(model).mesh,
            model.materials == old(model).materials,
            model.fixed_nodes == old(model).fixed_nodes,
            model.contacts == old(model).contacts,
            model.accelerometers == old(model).accelerometers,
            model.settings == old(model).settings,
            model.initial_velocity@ == velocities_after(
                old(model).mesh,
                old(model).initial_velocity@,
                velocities@,
                k as int,
            ),
            velocities_fault(old(model).mesh, velocities@, 0) == velocities_fault(
                old(model).mesh,
                velocities@,
                k as int,
            ),
        decreases velocities.len() - k,
    {
        let set: &String = &velocities[k].set;
        match model.mesh.nodes_of(set) {
            None => {
                return Err(ConfigError::VelocitySet(set.as_str().to_string()));
            },
            Some(nodes) => {
                proof {
                    let list = model.mesh.named_nodes(set@)->0;
                    assert forall|i: int| 0 <= i < list.len() implies #[trigger] list[i]
                        < model.initial_velocity@.len() by {
                        assert(nodes@[i] < model.mesh.nodes.len());
                    }
                }
                model.set_initial_velocity(set, velocities[k].velocity);
            },
        }
        k += 1;
    }
    Ok(())
}

/// Holds the fixed sets in turn.
fn hold_sets(model: &mut Model, fixed: &Vec<SetRef>) -> (r: Result<(), ConfigError>)
    requires
        old(model).wf(),
        old(model).fixed_nodes@.len() == 0,
    ensures
        match fixed_fault(old(model).mesh, fixed@, 0) {
            None => r is Ok && final(model).wf() && final(model).fixed_nodes@ == fixed_after(
                old(model).mesh,
                fixed@,
                fixed@.len() as int,
            ),
            Some(e) => r is Err && r->Err_0@ == e,
        },
        final(model).mesh == old(model).mesh,
        final(model).materials == old(model).materials,
        final(model).initial_velocity == old(model).initial_velocity,
        final(model).contacts == old(model).contacts,
        final(model).accelerometers == old(model).accelerometers,
        final(model).settings == old(model).settings,
{
    let mut k: usize = 0;
    assert(model.fixed_nodes@ =~= Seq::<usize>::empty());
    while k < fixed.len()
        invariant
            k <= fixed@.len(),
            model.wf(),
            model.mesh == old(model).mesh,
            model.materials == old(model).materials,
            model.initial_velocity == old(model).initial_velocity,
            model.contacts == old(model).contacts,
            model.accelerometers == old(model).accelerometers,
            model.settings == old(model).settings,
            model.fixed_nodes@ == fixed_after(old(model).mesh, fixed@, k as int),
            fixed_fault(old(model).mesh, fixed@, 0) == fixed_fault(
                old(model).mesh,
                fixed@,
                k as int,
            ),
        decreases fixed.len() - k,
    {
        let set: &String = &fixed[k].set;
        if model.mesh.nodes_of(set).is_none() {
            return Err(ConfigError::FixedSet(set.as_str().to_string()));
        }
        model.fix(set);
        k += 1;
    }
    Ok(())
}

/// Adds the contact pairs in turn.
fn pair_contacts(model: &mut Model, contacts: &Vec<ContactConfig>) -> (r: Result<(), ConfigError>)
    requires
        old(model).wf(),
        old(model).contacts@.len() == 0,
    ensures
        match contacts_fault(old(model).mesh, contacts@, 0) {
            None => r is Ok && final(model).wf() && contacts_built(
                *final(model),
                contacts@,
                contacts@.len() as int,
            ),
            Some(e) => r is Err && r->Err_0@ == e,
        },
        final(model).mesh == old(model).mesh,
        final(model).materials == old(model).materials,
        final(model).initial_velocity == old(model).initial_velocity,
        final(model).fixed_nodes == old(model).fixed_nodes,
        final(model).accelerometers == old(model).accelerometers,
        final(model).settings == old(model).settings,
{
    let mut k: usize = 0;
    while k < contacts.len()
        invariant
            k <= contacts@.len(),
            model.wf(),
            model.mesh == old(model).mesh,
            model.materials == old(model).materials,
            model.initial_velocity == old(model).initial_velocity,
            model.fixed_nodes == old(model).fixed_nodes,
            model.accelerometers == old(model).accelerometers,
            model.settings == old(model).settings,
            contacts_built(*model, contacts@, k as int),
            contacts_fault(old(model).mesh, contacts@, 0) == contacts_fault(
                old(model).mesh,
                contacts@,
                k as int,
            ),
        decreases contacts.len() - k,
    {
        let c: &ContactConfig = &contacts[k];
        if model.mesh.face_set(&c.a).is_none() {
            return Err(ConfigError::FaceSet(c.a.as_str().to_string()));
        }
        if model.mesh.face_set(&c.b).is_none() {
            return Err(ConfigError::FaceSet(c.b.as_str().to_string()));
        }
        let ghost before = *model;
        model.add_contact_pair(&c.a, &c.b, c.stiffness, c.max_distance);
        proof {
            let kept = before.contacts@;
            assert forall|i: int| 0 <= i < kept.len() implies #[trigger] model.contacts@[i]
                == kept[i] by {
                assert(model.contacts@.take(kept.len() as int)[i] == kept[i]);
            }
            assert forall|j: int| 0 <= j < k + 1 implies pair_built(
                *model,
                #[trigger] contacts@[j],
                j,
            ) by {
                if j < k {
                    assert(pair_built(before, contacts@[j], j));
                }
            }
        }
        k += 1;
    }
    Ok(())
}

// ---- the model ----

/// The first thing wrong with a setup, once its mesh is there.
pub open spec fn model_fault(config: Config, mesh: Mesh<[Real; 3]>) -> Option<Fault> {
    if mesh.hexes@.len() == 0 {
        Some(Fault::NoHexahedra)
    } else {
        match materials_fault(mesh, config.material@, 0) {
            Some(e) => Some(e),
            None => match velocities_fault(mesh, config.initial_velocity@, 0) {
                Some(e) => Some(e),
                None => match fixed_fault(mesh, config.fixed@, 0) {
                    Some(e) => Some(e),
                    None => contacts_fault(mesh, config.contact@, 0),
                },
            },
        }
    }
}

/// Every node at rest.
pub open spec fn is_rest(v: Seq<[Real; 3]>, nodes: nat) -> bool {
    &&& v.len() == nodes
    &&& forall|n: int|
        0 <= n < v.len() ==> (#[trigger] v[n])@ == seq![
            Real::spec_zero(),
            Real::spec_zero(),
            Real::spec_zero(),
        ]
}

/// A model is what a setup says on a mesh.
pub open spec fn is_model<F: Fn([Real; 2], [Real; 2]) -> Real>(
    m: Model,
    config: Config,
    mesh: Mesh<[Real; 3]>,
    slope: F,
) -> bool {
    &&& m.wf()
    &&& m.mesh == mesh
    &&& exists|ready: Seq<Material>|
        #[trigger] materials_built(mesh, config.material@, ready, slope, m.materials@)
    &&& exists|rest: Seq<[Real; 3]>|
        #[trigger] is_rest(rest, mesh.nodes@.len()) && m.initial_velocity@ == velocities_after(
            mesh,
            rest,
            config.initial_velocity@,
            config.initial_velocity@.len() as int,
        )
    &&& m.fixed_nodes@ == fixed_after(mesh, config.fixed@, config.fixed@.len() as int)
    &&& contacts_built(m, config.contact@, config.contact@.len() as int)
    &&& m.accelerometers@.len() == 0
    &&& m.settings == config.solver
}

impl Config {
    /// Builds the model on what was read from the mesh file, an empty mesh if
    /// there is none. `slope` is the slope of the line through two knots of a
    /// yield curve.
    pub fn build<F: Fn([Real; 2], [Real; 2]) -> Real>(
        self,
        file: Mesh<[Real; 3]>,
        slope: &F,
    ) -> (r: Result<Model, ConfigError>)
        requires
            file.wf(),
            have_elements(self.mesh.block@),
            file.nodes.len() + points_before(self.mesh.block@, self.mesh.block@.len() as int)
                <= usize::MAX,
            forall|a: [Real; 2], b: [Real; 2]| #[trigger] call_requires(*slope, (a, b)),
        ensures
            match blocks_fault(self.mesh.block@, 0) {
                Some(e) => r is Err && r->Err_0@ == e,
                None => exists|meshes: Seq<Mesh<[Real; 3]>>|
                    {
                        &&& #[trigger] is_growth(meshes, file, self.mesh.block@)
                        &&& match model_fault(self, meshes.last()) {
                            Some(e) => r is Err && r->Err_0@ == e,
                            None => r is Ok && is_model(r->Ok_0, self, meshes.last(), *slope),
                        }
                    },
            },
    {
        let ghost config = self;
        let mesh: Mesh<[Real; 3]> = match add_blocks(file, &self.mesh.block) {
            Ok(mesh) => mesh,
            Err(e) => {
                return Err(e);
            },
        };
        let ghost meshes = choose|meshes: Seq<Mesh<[Real; 3]>>|
            #[trigger] is_growth(meshes, file, config.mesh.block@) && meshes.last() == mesh;
        if mesh.hexes.len() == 0 {
            return Err(ConfigError::NoHexahedra);
        }
        let mut model: Model = Model::new(mesh);
        assert(model.materials@ =~= unset_materials(mesh));
        let ghost rest = model.initial_velocity@;
        assert(is_rest(rest, mesh.nodes@.len()));
        let Config { mesh: _, material, initial_velocity, fixed, contact, solver, output: _ } = self;
        model.settings = solver;
        if let Err(e) = assign_materials(&mut model, material, slope) {
            return Err(e);
        }
        if let Err(e) = assign_velocities(&mut model, &initial_velocity) {
            return Err(e);
        }
        if let Err(e) = hold_sets(&mut model, &fixed) {
            return Err(e);
        }
        if let Err(e) = pair_contacts(&mut model, &contact) {
            return Err(e);
        }
        assert(is_model(model, config, mesh, *slope));
        Ok(model)
    }
}

/// Of the materials assigned to a part the last one is kept.
pub proof fn law_last_material_wins(
    mesh: Mesh<[Real; 3]>,
    materials: Seq<MaterialConfig>,
    ready: Seq<Material>,
    k: int,
)
    requires
        0 <= k < materials.len(),
        forall|i: int|
            0 <= i < materials.len() ==> mesh.is_part(
                (#[trigger] materials[i]).part@,
                mesh.first_part(materials[i].part@),
            ),
        forall|i: int|
            k < i < materials.len() ==> mesh.first_part((#[trigger] materials[i]).part@)
                != mesh.first_part(materials[k].part@),
    ensures
        materials_after(mesh, materials, ready, materials.len() as int)[mesh.first_part(
            materials[k].part@,
        )] == ready[k],
{
    lemma_last_wins(mesh, materials, ready, k, materials.len() as int);
}

proof fn lemma_last_wins(
    mesh: Mesh<[Real; 3]>,
    materials: Seq<MaterialConfig>,
    ready: Seq<Material>,
    k: int,
    n: int,
)
    requires
        -1 <= k < n <= materials.len() || (n == 0 && k == -1),
        forall|i: int|
            0 <= i < materials.len() ==> mesh.is_part(
                (#[trigger] materials[i]).part@,
                mesh.first_part(materials[i].part@),
            ),
        forall|i: int|
            0 <= k < i < materials.len() ==> mesh.first_part((#[trigger] materials[i]).part@)
                != mesh.first_part(materials[k].part@),
    ensures
        materials_after(mesh, materials, ready, n).len() == mesh.parts@.len(),
        k >= 0 ==> materials_after(mesh, materials, ready, n)[mesh.first_part(
            materials[k].part@,
        )] == ready[k],
    decreases n,
{
    if n > 0 {
        assert(mesh.is_part(materials[n - 1].part@, mesh.first_part(materials[n - 1].part@)));
        if k == n - 1 {
            lemma_last_wins(mesh, materials, ready, -1, n - 1);
        } else {
            lemma_last_wins(mesh, materials, ready, k, n - 1);
        }
        if k >= 0 {
            assert(mesh.is_part(materials[k].part@, mesh.first_part(materials[k].part@)));
        }
    }
}

// ---- what a setup says ----

/// A block face is named by its axis, and by its side: a name that ends in `n` or
/// starts with a minus is that of the near one.
pub proof fn law_face_names(s: Seq<char>)
    ensures
        face_named(s) matches Some(f) ==> {
            let signed = s.len() == 2;
            let letter = if signed {
                s[1]
            } else {
                s[0]
            };
            let near = (signed && s[0] == '-') || (!signed && s.last() == 'n');
            &&& letter == 'x' && near ==> f is XMin
            &&& letter == 'x' && !near ==> f is XMax
            &&& letter == 'y' && near ==> f is YMin
            &&& letter == 'y' && !near ==> f is YMax
            &&& letter == 'z' && near ==> f is ZMin
            &&& letter == 'z' && !near ==> f is ZMax
            &&& letter == 'x' || letter == 'y' || letter == 'z'
        },
        s.len() == 2 && (s[0] == '-' || s[0] == '+') && (s[1] == 'x' || s[1] == 'y' || s[1] == 'z')
            ==> face_named(s) is Some,
{
    reveal_strlit("x_min");
    reveal_strlit("xmin");
    reveal_strlit("-x");
    reveal_strlit("x_max");
    reveal_strlit("xmax");
    reveal_strlit("+x");
    reveal_strlit("y_min");
    reveal_strlit("ymin");
    reveal_strlit("-y");
    reveal_strlit("y_max");
    reveal_strlit("ymax");
    reveal_strlit("+y");
    reveal_strlit("z_min");
    reveal_strlit("zmin");
    reveal_strlit("-z");
    reveal_strlit("z_max");
    reveal_strlit("zmax");
    reveal_strlit("+z");
    if s.len() == 2 && (s[0] == '-' || s[0] == '+') && (s[1] == 'x' || s[1] == 'y' || s[1]
        == 'z') {
        assert(s =~= "-x"@ || s =~= "+x"@ || s =~= "-y"@ || s =~= "+y"@ || s =~= "-z"@ || s
            =~= "+z"@);
    }
}

/// Mesh files are read with the extension `inp` alone.
pub proof fn law_one_mesh_format(extension: Option<Seq<char>>)
    ensures
        format_fault(extension) is None <==> extension == Some("inp"@),
        extension is None ==> format_fault(extension) == Some(Fault::NoExtension),
        extension matches Some(s) ==> s != "inp"@ ==> format_fault(extension) == Some(
            Fault::Format(s),
        ),
{
}

/// Whether face `i` is the first from `k` on whose name is none.
pub open spec fn is_first_unnamed(faces: Seq<FaceConfig>, k: int, i: int) -> bool {
    &&& k <= i < faces.len()
    &&& face_named(lower(faces[i].face@)) is None
    &&& forall|j: int| k <= j < i ==> face_named(lower((#[trigger] faces[j]).face@)) is Some
}

/// The faces of a block are refused for the first whose name is none, and for no
/// other reason.
pub proof fn law_faces_are_refused_for_the_first(faces: Seq<FaceConfig>, k: int)
    requires
        0 <= k <= faces.len(),
    ensures
        match faces_fault(faces, k) {
            None => forall|i: int|
                k <= i < faces.len() ==> face_named(lower((#[trigger] faces[i]).face@)) is Some,
            Some(e) => exists|i: int| #[trigger]
                is_first_unnamed(faces, k, i) && e == Fault::UnknownFace(lower(faces[i].face@)),
        },
    decreases faces.len() - k,
{
    if k < faces.len() {
        law_faces_are_refused_for_the_first(faces, k + 1);
        if face_named(lower(faces[k].face@)) is None {
            assert(is_first_unnamed(faces, k, k));
        } else {
            match faces_fault(faces, k + 1) {
                None => {},
                Some(e) => {
                    let i = choose|i: int| #[trigger]
                        is_first_unnamed(faces, k + 1, i) && e == Fault::UnknownFace(
                            lower(faces[i].face@),
                        );
                    assert(is_first_unnamed(faces, k, i));
                },
            }
        }
    }
}

/// Whether block `i` is the first from `k` on that has a fault.
pub open spec fn is_first_faulty(blocks: Seq<BlockConfig>, k: int, i: int) -> bool {
    &&& k <= i < blocks.len()
    &&& faces_fault(blocks[i].faces@, 0) is Some
    &&& forall|j: int| k <= j < i ==> faces_fault((#[trigger] blocks[j]).faces@, 0) is None
}

/// Blocks are refused for the fault of the first of them that has one.
pub proof fn law_blocks_are_refused_for_the_first(blocks: Seq<BlockConfig>, k: int)
    requires
        0 <= k <= blocks.len(),
    ensures
        match blocks_fault(blocks, k) {
            None => forall|i: int|
                k <= i < blocks.len() ==> faces_fault((#[trigger] blocks[i]).faces@, 0) is None,
            Some(e) => exists|i: int| #[trigger]
                is_first_faulty(blocks, k, i) && faces_fault(blocks[i].faces@, 0) == Some(e),
        },
    decreases blocks.len() - k,
{
    if k < blocks.len() {
        law_blocks_are_refused_for_the_first(blocks, k + 1);
        if faces_fault(blocks[k].faces@, 0) is None {
            match blocks_fault(blocks, k + 1) {
                None => {},
                Some(e) => {
                    let i = choose|i: int| #[trigger]
                        is_first_faulty(blocks, k + 1, i) && faces_fault(blocks[i].faces@, 0)
                            == Some(e);
                    assert(is_first_faulty(blocks, k, i));
                },
            }
        } else {
            assert(is_first_faulty(blocks, k, k));
        }
    }
}

/// Materials are refused for the first whose part there is not, and for no other
/// reason.
#[verifier::rlimit(40)]
pub proof fn law_unknown_parts_are_refused(
    mesh: Mesh<[Real; 3]>,
    materials: Seq<MaterialConfig>,
    k: int,
)
    requires
        0 <= k <= materials.len(),
    ensures
        match materials_fault(mesh, materials, k) {
            None => forall|i: int|
                k <= i < materials.len() ==> mesh.has_part((#[trigger] materials[i]).part@),
            Some(e) => exists|i: int|
                k <= i < materials.len() && !mesh.has_part((#[trigger] materials[i]).part@) && e
                    == Fault::UnknownPart(materials[i].part@) && forall|j: int|
                    k <= j < i ==> mesh.has_part((#[trigger] materials[j]).part@),
        },
    decreases materials.len() - k,
{
    if k < materials.len() {
        law_unknown_parts_are_refused(mesh, materials, k + 1);
        if mesh.has_part(materials[k].part@) {
            match materials_fault(mesh, materials, k + 1) {
                None => {},
                Some(e) => {
                    let i = choose|i: int|
                        k + 1 <= i < materials.len() && !mesh.has_part(
                            (#[trigger] materials[i]).part@,
                        ) && e == Fault::UnknownPart(materials[i].part@) && forall|j: int|
                            k + 1 <= j < i ==> mesh.has_part((#[trigger] materials[j]).part@);
                    assert(!mesh.has_part(materials[i].part@));
                },
            }
        } else {
            assert(!mesh.has_part(materials[k].part@));
        }
    }
}

/// Initial velocities are refused for the first whose set is neither a node set
/// nor a part.
#[verifier::rlimit(40)]
pub proof fn law_unknown_velocity_sets_are_refused(
    mesh: Mesh<[Real; 3]>,
    velocities: Seq<InitialVelocity>,
    k: int,
)
    requires
        0 <= k <= velocities.len(),
    ensures
        match velocities_fault(mesh, velocities, k) {
            None => forall|i: int|
                k <= i < velocities.len() ==> is_named(mesh, (#[trigger] velocities[i]).set@),
            Some(e) => exists|i: int|
                k <= i < velocities.len() && !is_named(mesh, (#[trigger] velocities[i]).set@) && e
                    == Fault::VelocitySet(velocities[i].set@) && forall|j: int|
                    k <= j < i ==> is_named(mesh, (#[trigger] velocities[j]).set@),
        },
    decreases velocities.len() - k,
{
    if k < velocities.len() {
        law_unknown_velocity_sets_are_refused(mesh, velocities, k + 1);
        if is_named(mesh, velocities[k].set@) {
            match velocities_fault(mesh, velocities, k + 1) {
                None => {},
                Some(e) => {
                    let i = choose|i: int|
                        k + 1 <= i < velocities.len() && !is_named(
                            mesh,
                            (#[trigger] velocities[i]).set@,
                        ) && e == Fault::VelocitySet(velocities[i].set@) && forall|j: int|
                            k + 1 <= j < i ==> is_named(mesh, (#[trigger] velocities[j]).set@);
                    assert(!is_named(mesh, velocities[i].set@));
                },
            }
        } else {
            assert(!is_named(mesh, velocities[k].set@));
        }
    }
}

/// Whether a node set or a part has a name.
pub open spec fn is_named(mesh: Mesh<[Real; 3]>, name: Seq<char>) -> bool {
    mesh.node_sets@.dom().contains(name) || exists|p: int|
        0 <= p < mesh.parts.len() && (#[trigger] mesh.parts[p]).name@ == name
}

/// Fixed sets are refused for the first that is neither a node set nor a part.
#[verifier::rlimit(40)]
pub proof fn law_unknown_fixed_sets_are_refused(
    mesh: Mesh<[Real; 3]>,
    fixed: Seq<SetRef>,
    k: int,
)
    requires
        0 <= k <= fixed.len(),
    ensures
        match fixed_fault(mesh, fixed, k) {
            None => forall|i: int|
                k <= i < fixed.len() ==> is_named(mesh, (#[trigger] fixed[i]).set@),
            Some(e) => exists|i: int|
                k <= i < fixed.len() && !is_named(mesh, (#[trigger] fixed[i]).set@) && e
                    == Fault::FixedSet(fixed[i].set@) && forall|j: int|
                    k <= j < i ==> is_named(mesh, (#[trigger] fixed[j]).set@),
        },
    decreases fixed.len() - k,
{
    if k < fixed.len() {
        law_unknown_fixed_sets_are_refused(mesh, fixed, k + 1);
        if is_named(mesh, fixed[k].set@) {
            match fixed_fault(mesh, fixed, k + 1) {
                None => {},
                Some(e) => {
                    let i = choose|i: int|
                        k + 1 <= i < fixed.len() && !is_named(mesh, (#[trigger] fixed[i]).set@)
                            && e == Fault::FixedSet(fixed[i].set@) && forall|j: int|
                            k + 1 <= j < i ==> is_named(mesh, (#[trigger] fixed[j]).set@);
                    assert(!is_named(mesh, fixed[i].set@));
                },
            }
        } else {
            assert(!is_named(mesh, fixed[k].set@));
        }
    }
}

/// Whether both face sets of a pair are there.
pub open spec fn has_both(mesh: Mesh<[Real; 3]>, c: ContactConfig) -> bool {
    mesh.face_sets@.dom().contains(c.a@) && mesh.face_sets@.dom().contains(c.b@)
}

/// Contacts are refused for the first pair that lacks a face set: its first set
/// where that is not there, else its second.
#[verifier::rlimit(40)]
pub proof fn law_unknown_face_sets_are_refused(
    mesh: Mesh<[Real; 3]>,
    contacts: Seq<ContactConfig>,
    k: int,
)
    requires
        0 <= k <= contacts.len(),
    ensures
        match contacts_fault(mesh, contacts, k) {
            None => forall|i: int|
                k <= i < contacts.len() ==> has_both(mesh, #[trigger] contacts[i]),
            Some(e) => exists|i: int|
                k <= i < contacts.len() && !has_both(mesh, #[trigger] contacts[i]) && e
                    == Fault::FaceSet(
                    if mesh.face_sets@.dom().contains(contacts[i].a@) {
                        contacts[i].b@
                    } else {
                        contacts[i].a@
                    },
                ) && forall|j: int| k <= j < i ==> has_both(mesh, #[trigger] contacts[j]),
        },
    decreases contacts.len() - k,
{
    if k < contacts.len() {
        law_unknown_face_sets_are_refused(mesh, contacts, k + 1);
        if has_both(mesh, contacts[k]) {
            match contacts_fault(mesh, contacts, k + 1) {
                None => {},
                Some(e) => {
                    let i = choose|i: int|
                        k + 1 <= i < contacts.len() && !has_both(mesh, #[trigger] contacts[i]) && e
                            == Fault::FaceSet(
                            if mesh.face_sets@.dom().contains(contacts[i].a@) {
                                contacts[i].b@
                            } else {
                                contacts[i].a@
                            },
                        ) && forall|j: int|
                            k + 1 <= j < i ==> has_both(mesh, #[trigger] contacts[j]);
                    assert(!has_both(mesh, contacts[i]));
                },
            }
        } else {
            assert(!has_both(mesh, contacts[k]));
        }
    }
}

/// A setup is accepted where its mesh has an element and all names stand for
/// something, and then alone.
pub proof fn law_sound_setups_are_accepted(config: Config, mesh: Mesh<[Real; 3]>)
    ensures
        model_fault(config, mesh) is None <==> {
            &&& mesh.hexes@.len() > 0
            &&& forall|i: int|
                0 <= i < config.material@.len() ==> mesh.has_part(
                    (#[trigger] config.material@[i]).part@,
                )
            &&& forall|i: int|
                0 <= i < config.initial_velocity@.len() ==> is_named(
                    mesh,
                    (#[trigger] config.initial_velocity@[i]).set@,
                )
            &&& forall|i: int|
                0 <= i < config.fixed@.len() ==> is_named(mesh, (#[trigger] config.fixed@[i]).set@)
            &&& forall|i: int|
                0 <= i < config.contact@.len() ==> has_both(mesh, #[trigger] config.contact@[i])
        },
        mesh.hexes@.len() == 0 ==> model_fault(config, mesh) == Some(Fault::NoHexahedra),
{
    law_unknown_parts_are_refused(mesh, config.material@, 0);
    law_unknown_velocity_sets_are_refused(mesh, config.initial_velocity@, 0);
    law_unknown_fixed_sets_are_refused(mesh, config.fixed@, 0);
    law_unknown_face_sets_are_refused(mesh, config.contact@, 0);
}

/// A node starts with the velocity of the last entry whose set holds it, and as it
/// was where none does.
#[verifier::rlimit(40)]
pub proof fn law_last_velocity_wins(
    mesh: Mesh<[Real; 3]>,
    start: Seq<[Real; 3]>,
    velocities: Seq<InitialVelocity>,
    k: int,
    n: usize,
)
    requires
        0 <= k <= velocities.len(),
        n < start.len(),
    ensures
        velocities_after(mesh, start, velocities, k).len() == start.len(),
        forall|i: int|
            0 <= i < k && mesh.named_nodes((#[trigger] velocities[i]).set@)->0.contains(n) && (
            forall|j: int|
                i < j < k ==> !mesh.named_nodes((#[trigger] velocities[j]).set@)->0.contains(n))
                ==> velocities_after(mesh, start, velocities, k)[n as int]
                == velocities[i].velocity,
        (forall|i: int|
            0 <= i < k ==> !mesh.named_nodes((#[trigger] velocities[i]).set@)->0.contains(n))
            ==> velocities_after(mesh, start, velocities, k)[n as int] == start[n as int],
    decreases k,
{
    if k > 0 {
        law_last_velocity_wins(mesh, start, velocities, k - 1, n);
        let last = mesh.named_nodes(velocities[k - 1].set@)->0.contains(n);
        let was = velocities_after(mesh, start, velocities, k - 1);
        let now = velocities_after(mesh, start, velocities, k);
        assert(last ==> now[n as int] == velocities[k - 1].velocity);
        assert(!last ==> now[n as int] == was[n as int]);
        assert forall|i: int|
            0 <= i < k && mesh.named_nodes((#[trigger] velocities[i]).set@)->0.contains(n) && (
            forall|j: int|
                i < j < k ==> !mesh.named_nodes((#[trigger] velocities[j]).set@)->0.contains(
                    n,
                )) implies now[n as int] == velocities[i].velocity by {
            if i < k - 1 {
                assert(!mesh.named_nodes(velocities[k - 1].set@)->0.contains(n));
            }
        }
    }
}

/// A node is held where it is in one of the fixed sets, and no other node is.
pub proof fn law_fixed_sets_are_held(mesh: Mesh<[Real; 3]>, fixed: Seq<SetRef>, k: int, n: usize)
    requires
        0 <= k <= fixed.len(),
    ensures
        fixed_after(mesh, fixed, k).contains(n) <==> exists|i: int|
            0 <= i < k && mesh.named_nodes((#[trigger] fixed[i]).set@)->0.contains(n),
    decreases k,
{
    if k > 0 {
        law_fixed_sets_are_held(mesh, fixed, k - 1, n);
        let was = fixed_after(mesh, fixed, k - 1);
        let more = mesh.named_nodes(fixed[k - 1].set@)->0;
        let now = fixed_after(mesh, fixed, k);
        assert(now == was + more);
        if was.contains(n) {
            let i = choose|i: int| 0 <= i < was.len() && was[i] == n;
            assert(now[i] == n);
        }
        if more.contains(n) {
            let i = choose|i: int| 0 <= i < more.len() && more[i] == n;
            assert(now[was.len() + i] == n);
            assert(mesh.named_nodes(fixed[k - 1].set@)->0.contains(n));
        }
        if now.contains(n) {
            let i = choose|i: int| 0 <= i < now.len() && now[i] == n;
            if i < was.len() {
                assert(was[i] == n);
            } else {
                assert(more[i - was.len()] == n);
            }
        }
    }
}

/// Each pair of face sets makes two contacts, the corners of either set against
/// the faces of the other, with half the stiffness each.
pub proof fn law_pairs_act_both_ways(model: Model, contacts: Seq<ContactConfig>, n: int, k: int)
    requires
        contacts_built(model, contacts, n),
        0 <= k < n <= contacts.len(),
    ensures
        ({
            let (p, q) = (model.contacts@[2 * k], model.contacts@[2 * k + 1]);
            let c = contacts[k];
            &&& model.mesh.lists_corners(p.nodes@, model.mesh.face_sets@[c.a@])
            &&& p.faces@ == model.mesh.face_sets@[c.b@]
            &&& model.mesh.lists_corners(q.nodes@, model.mesh.face_sets@[c.b@])
            &&& q.faces@ == model.mesh.face_sets@[c.a@]
            &&& p.stiffness == c.stiffness.halved() && q.stiffness == p.stiffness
            &&& p.max_distance == c.max_distance && q.max_distance == c.max_distance
        }),
        model.contacts@.len() == 2 * n,
{
    assert(pair_built(model, contacts[k], k));
}

/// The faces of a block become face sets of their names, in their order.
pub proof fn law_surfaces_follow_the_faces(faces: Seq<FaceConfig>, i: int)
    requires
        0 <= i < faces.len(),
        face_named(lower(faces[i].face@)) is Some,
    ensures
        surfaces_of(faces).len() == faces.len(),
        surfaces_of(faces)[i].1 == faces[i].set@,
        face_named(lower(faces[i].face@)) == Some(surfaces_of(faces)[i].0),
{
}

/// A material keeps what it is made of; with a sound tabulated curve its yield
/// stress is that of the first knot.
pub proof fn law_normal_materials<F: Fn([Real; 2], [Real; 2]) -> Real>(
    m: Material,
    r: Material,
    slope: F,
)
    requires
        is_normal_of(m, r, slope),
    ensures
        r.youngs_modulus == m.youngs_modulus,
        r.poisson_ratio == m.poisson_ratio,
        r.density == m.density,
        r.plasticity is Some <==> m.plasticity is Some,
        m.plasticity matches Some(p) ==> r.plasticity matches Some(q) && q.model == p.model
            && q.curve@ == p.curve@ && q.densification == p.densification && q.transverse_factor
            == p.transverse_factor && (p.curve@.len() < 2 ==> q.yield_stress == p.yield_stress
            && q.hardening == p.hardening) && (p.curve@.len() >= 2 && p.fault() is None
            ==> q.yield_stress == p.curve@[0]@[1]),
{
}

/// A model without accelerometers, at rest but for the given velocities, and with
/// the settings of its setup.
pub proof fn law_models_take_their_setup<F: Fn([Real; 2], [Real; 2]) -> Real>(
    m: Model,
    config: Config,
    mesh: Mesh<[Real; 3]>,
    slope: F,
    n: usize,
)
    requires
        is_model(m, config, mesh, slope),
        n < mesh.nodes@.len(),
    ensures
        m.settings == config.solver,
        m.mesh == mesh,
        m.accelerometers@.len() == 0,
        m.contacts@.len() == 2 * config.contact@.len(),
        m.fixed_nodes@.contains(n) <==> exists|i: int|
            0 <= i < config.fixed@.len() && mesh.named_nodes(
                (#[trigger] config.fixed@[i]).set@,
            )->0.contains(n),
        (forall|i: int|
            0 <= i < config.initial_velocity@.len() ==> !mesh.named_nodes(
                (#[trigger] config.initial_velocity@[i]).set@,
            )->0.contains(n)) ==> forall|d: int|
            0 <= d < 3 ==> (#[trigger] m.initial_velocity@[n as int]@[d]).bits == 0,
{
    law_fixed_sets_are_held(mesh, config.fixed@, config.fixed@.len() as int, n);
    let rest = choose|rest: Seq<[Real; 3]>|
        #[trigger] is_rest(rest, mesh.nodes@.len()) && m.initial_velocity@ == velocities_after(
            mesh,
            rest,
            config.initial_velocity@,
            config.initial_velocity@.len() as int,
        );
    law_last_velocity_wins(
        mesh,
        rest,
        config.initial_velocity@,
        config.initial_velocity@.len() as int,
        n,
    );
    assert(rest[n as int]@ == seq![Real::spec_zero(), Real::spec_zero(), Real::spec_zero()]);
}

/// The message of a refused setup names what it could not find, between quotes.
pub proof fn law_setup_messages_name_what_is_missing(s: Seq<char>)
    ensures
        Fault::UnknownFace(s).text() == "unknown block face '"@ + s + "'"@,
        Fault::Format(s).text() == "unsupported mesh format '."@ + s + "'"@,
        Fault::UnknownPart(s).text() == "material for unknown part '"@ + s + "'"@,
        Fault::VelocitySet(s).text() == "initial velocity for unknown set '"@ + s + "'"@,
        Fault::FixedSet(s).text() == "fixed: unknown set '"@ + s + "'"@,
        Fault::FaceSet(s).text() == "contact: unknown face set '"@ + s + "'"@,
{
}

} // verus!
