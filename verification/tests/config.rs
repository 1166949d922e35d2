use crushrs::command::{barrier_frames, barrier_test, pulse_vehicle, rear_node, vehicle_by_name, Out, Preset};
use crushrs::input::config::{default_max_distance, face_of, format_of, mesh_format, parse_face, BlockConfig, Config, ContactConfig, FaceConfig, InitialVelocity, MaterialConfig, MeshConfig, Output, SetRef};
use crushrs::material::{Material, PlasticModel, Plasticity};
use crushrs::mesh::{BlockFace, Mesh};
use crushrs::model::{Accelerometer, Model, Settings};
use crushrs::number::Real;

fn bits(x: f64) -> Real {
    Real { bits: x.to_bits() }
}

fn num(r: Real) -> f64 {
    f64::from_bits(r.bits)
}

fn slope(a: [Real; 2], b: [Real; 2]) -> Real {
    bits((num(b[1]) - num(a[1])) / (num(b[0]) - num(a[0])))
}

fn numbers(v: &toml::Value) -> Vec<f64> {
    v.as_array().unwrap().iter().map(|x| x.as_float().unwrap()).collect()
}

fn block(v: &toml::Value) -> BlockConfig {
    let (origin, size) = (numbers(&v["origin"]), numbers(&v["size"]));
    let h = v["element_size"].as_float().unwrap();
    let grid = std::array::from_fn(|d| {
        let n = (size[d] / h).round().max(1.0) as usize;
        (0..=n).map(|i| bits(origin[d] + i as f64 * (size[d] / n as f64))).collect()
    });
    let faces = v["faces"].as_array().unwrap().iter().map(|f| FaceConfig { face: f["face"].as_str().unwrap().to_string(), set: f["set"].as_str().unwrap().to_string() }).collect();
    BlockConfig { part: v["part"].as_str().unwrap().to_string(), grid, faces }
}

fn entry(v: &toml::Value, name: &str) -> f64 {
    v.get(name).and_then(|x| x.as_float()).unwrap_or(0.0)
}

fn material(v: &toml::Value) -> MaterialConfig {
    let curve = v.get("curve").map(|c| c.as_array().unwrap().iter().map(|k| { let k = numbers(k); [bits(k[0]), bits(k[1])] }).collect()).unwrap_or_default();
    let densification = v.get("densification").map(|d| { let d = numbers(d); [bits(d[0]), bits(d[1])] });
    let plasticity = Some(Plasticity { yield_stress: bits(entry(v, "yield_stress")), hardening: bits(entry(v, "hardening")), model: PlasticModel::Honeycomb, curve, densification, transverse_factor: bits(1.0) });
    MaterialConfig { part: v["part"].as_str().unwrap().to_string(), material: Material { youngs_modulus: bits(entry(v, "youngs_modulus")), poisson_ratio: bits(0.0), density: bits(entry(v, "density")), plasticity } }
}

fn list(t: &toml::Table, name: &str) -> Vec<toml::Value> {
    t.get(name).and_then(|v| v.as_array()).cloned().unwrap_or_default()
}

fn config(text: &str) -> Config {
    let t: toml::Table = text.parse().unwrap();
    let mut solver = Settings::default();
    solver.end_time = bits(t["solver"]["end_time"].as_float().unwrap());
    let text_of = |v: &toml::Value, k: &str| v[k].as_str().unwrap().to_string();
    Config {
        mesh: MeshConfig { file: None, block: t["mesh"]["block"].as_array().unwrap().iter().map(block).collect() },
        material: list(&t, "material").iter().map(material).collect(),
        initial_velocity: list(&t, "initial_velocity").iter().map(|v| { let w = numbers(&v["velocity"]); InitialVelocity { set: text_of(v, "set"), velocity: [bits(w[0]), bits(w[1]), bits(w[2])] } }).collect(),
        fixed: list(&t, "fixed").iter().map(|v| SetRef { set: text_of(v, "set") }).collect(),
        contact: list(&t, "contact").iter().map(|v| ContactConfig { a: text_of(v, "a"), b: text_of(v, "b"), stiffness: bits(entry(v, "stiffness")), max_distance: v.get("max_distance").map_or(default_max_distance(), |d| bits(d.as_float().unwrap())) }).collect(),
        solver,
        output: Output::default(),
    }
}

/// Yield stress at a compaction.
fn yield_at(p: &Plasticity, c: f64) -> f64 {
    let on = |s: Real, h: Real, c: f64| (bits(num(s) + num(h) * c), h);
    let line = |a: [Real; 2], b: [Real; 2], c: Real| on(a[1], slope(a, b), num(c) - num(a[0]));
    let lock = |(s, h): (Real, Real), d: [Real; 2], c: Real| (on(s, d[1], num(c) - num(d[0])).0, bits(num(h) + num(d[1])));
    num(p.yield_at(bits(c), |s, h, c| on(s, h, num(c)), line, lock).0)
}

#[test]
fn tabulated_curve_round_trips_through_toml() {
    let toml = r#"
[[mesh.block]]
part = "foam"
origin = [0.0, 0.0, 0.0]
size = [0.3, 0.3, 0.3]
element_size = 0.3
faces = [{ face = "x_max", set = "top" }]

[[material]]
part = "foam"
youngs_modulus = 23.1e6
density = 100.0
model = "honeycomb"
curve = [[0.0, 7000.0], [0.2, 9000.0], [0.5, 30000.0]]
densification = [1.4, 7.0e6]

[solver]
end_time = 0.001
"#;
    let model = config(toml).build(Mesh::new(), &slope).unwrap();
    let p = model.materials[0].plasticity.as_ref().unwrap();
    assert_eq!(p.curve.len(), 3);
    assert_eq!(p.densification, Some([bits(1.4), bits(7.0e6)]));
    assert_eq!(num(p.yield_stress), 7000.0);
    assert!((num(p.hardening) - 10000.0).abs() < 1e-9);
    assert!((yield_at(p, 0.1) - 8000.0).abs() < 1e-9);
    // Last slope (70 kPa per unit compaction) continues, plus densification beyond 1.4.
    assert!((yield_at(p, 2.0) - (30000.0 + 1.5 * 70000.0 + 0.6 * 7.0e6)).abs() < 1e-6);
    assert_eq!(num(model.settings.end_time), 0.001);
}

fn crash() -> Config {
    config(
        r#"
[[mesh.block]]
part = "silverado"
origin = [-5.855, -1.015, 0.0]
size = [5.85, 2.03, 1.87]
element_size = 0.3
faces = [{ face = "X_Max", set = "silverado_front" }]

[[mesh.block]]
part = "neon"
origin = [0.005, -0.855, 0.0]
size = [4.36, 1.71, 1.35]
element_size = 0.3
faces = [{ face = "-x", set = "neon_front" }]

[[material]]
part = "silverado"
youngs_modulus = 27.8e6
density = 118.0
yield_stress = 13490.0
hardening = 861757.0

[[material]]
part = "neon"
youngs_modulus = 23.1e6
density = 134.53
yield_stress = 7248.0
hardening = 553354.0

[[initial_velocity]]
set = "silverado"
velocity = [13.4112, 0.0, 0.0]

[[initial_velocity]]
set = "neon"
velocity = [-13.4112, 0.0, 0.0]

[[contact]]
a = "silverado_front"
b = "neon_front"
stiffness = 2e6

[solver]
end_time = 0.15
"#,
    )
}

#[test]
fn setup_makes_the_model_that_calls_make() {
    let model = crash().build(Mesh::new(), &slope).unwrap();
    let c = crash();
    let mut mesh: Mesh<[Real; 3]> = Mesh::new();
    mesh.add_grid_block("silverado", &c.mesh.block[0].grid, &[(BlockFace::XMax, "silverado_front")]);
    mesh.add_grid_block("neon", &c.mesh.block[1].grid, &[(BlockFace::XMin, "neon_front")]);
    let mut api = Model::new(mesh);
    api.set_material("silverado", c.material[0].material.clone());
    api.set_material("neon", c.material[1].material.clone());
    api.set_initial_velocity("silverado", c.initial_velocity[0].velocity);
    api.set_initial_velocity("neon", c.initial_velocity[1].velocity);
    api.add_contact_pair("silverado_front", "neon_front", bits(2e6), bits(0.3));
    assert_eq!(model.mesh.nodes, api.mesh.nodes);
    assert_eq!(model.mesh.hexes, api.mesh.hexes);
    assert_eq!(model.mesh.faces, api.mesh.faces);
    assert_eq!(model.materials, api.materials);
    assert_eq!(model.initial_velocity, api.initial_velocity);
    assert_eq!(model.contacts.len(), 2);
    for (a, b) in model.contacts.iter().zip(&api.contacts) {
        assert_eq!((&a.nodes, &a.faces, a.stiffness, a.max_distance), (&b.nodes, &b.faces, b.stiffness, b.max_distance));
        // A pair stores half per side.
        assert_eq!(num(a.stiffness), 1e6);
    }
    // 20 x 7 x 6 and 15 x 6 x 5 elements.
    assert_eq!(model.mesh.hexes.len(), 840 + 450);
}

fn message(c: Config) -> String {
    match c.build(Mesh::new(), &slope) {
        Err(e) => e.message(),
        Ok(_) => panic!("the setup was built"),
    }
}

#[test]
fn setup_errors_come_in_order() {
    let mut c = crash();
    c.contact[0].b = "rear".to_string();
    assert_eq!(message(c.clone()), "contact: unknown face set 'rear'");
    c.contact[0].a = "boot".to_string();
    assert_eq!(message(c.clone()), "contact: unknown face set 'boot'");
    c.fixed.push(SetRef { set: "neon".to_string() });
    c.fixed.push(SetRef { set: "wall".to_string() });
    assert_eq!(message(c.clone()), "fixed: unknown set 'wall'");
    c.initial_velocity[1].set = "car".to_string();
    assert_eq!(message(c.clone()), "initial velocity for unknown set 'car'");
    c.material[1].part = "truck".to_string();
    assert_eq!(message(c.clone()), "material for unknown part 'truck'");
    let blocks = std::mem::take(&mut c.mesh.block);
    assert_eq!(message(c.clone()), "mesh has no hexahedra");
    c.mesh.block = blocks;
    c.mesh.block[1].faces[0].face = "Top".to_string();
    assert_eq!(message(c), "unknown block face 'top'");
}

#[test]
fn fixed_sets_and_velocities_by_set_or_part() {
    let mut c = crash();
    c.fixed.push(SetRef { set: "neon".to_string() });
    let before = c.initial_velocity[0].velocity;
    c.initial_velocity[1].set = "silverado".to_string();
    let later = c.initial_velocity[1].velocity;
    let m = c.build(Mesh::new(), &slope).unwrap();
    let n = 21 * 8 * 7;
    assert_eq!(m.fixed_nodes, (n..n + 16 * 7 * 6).collect::<Vec<_>>());
    // The later velocity of a set holds.
    assert_ne!(before, later);
    assert!(m.initial_velocity[..n].iter().all(|v| *v == later));
    assert!(m.initial_velocity[n..].iter().all(|v| v.map(num) == [0.0; 3]));
}

#[test]
fn last_material_of_a_part_holds() {
    let mut c = crash();
    c.material[1].part = "silverado".to_string();
    let m = c.build(Mesh::new(), &slope).unwrap();
    assert_eq!(num(m.materials[0].density), 134.53);
    assert_eq!(num(m.materials[1].density), 1.0);
}

#[test]
fn materials_with_an_invalid_curve_stay_as_they_are() {
    let mut c = crash();
    let p = c.material[0].material.plasticity.as_mut().unwrap();
    p.curve = vec![[bits(0.1), bits(1.0)], [bits(0.2), bits(2.0)]];
    let late = p.clone();
    let p = c.material[1].material.plasticity.as_mut().unwrap();
    p.model = PlasticModel::J2;
    p.curve = vec![[bits(0.0), bits(1.0)], [bits(0.2), bits(2.0)]];
    p.densification = Some([bits(1.5), bits(2.0)]);
    let solid = p.clone();
    assert!(late.check().is_err() && solid.check().is_err());
    let m = c.build(Mesh::new(), &slope).unwrap();
    assert_eq!(m.materials[0].plasticity, Some(late));
    assert_eq!(m.materials[1].plasticity, Some(solid));
}

#[test]
fn blocks_join_the_mesh_of_a_file() {
    let mut file: Mesh<[Real; 3]> = Mesh::new();
    let planes = vec![bits(10.0), bits(11.0)];
    file.add_grid_block("wall", &[planes.clone(), planes.clone(), planes], &[]);
    let m = crash().build(file, &slope).unwrap();
    assert_eq!(m.mesh.parts.iter().map(|p| p.name.as_str()).collect::<Vec<_>>(), vec!["wall", "silverado", "neon"]);
    assert_eq!(m.mesh.hexes.len(), 1 + 840 + 450);
}

#[test]
fn face_names_in_capitals_or_not() {
    let names = [["x_min", "xmin", "-x"], ["x_max", "xmax", "+x"], ["y_min", "ymin", "-y"], ["y_max", "ymax", "+y"], ["z_min", "zmin", "-z"], ["z_max", "zmax", "+z"]];
    let faces = [BlockFace::XMin, BlockFace::XMax, BlockFace::YMin, BlockFace::YMax, BlockFace::ZMin, BlockFace::ZMax];
    for (n, f) in names.iter().zip(faces) {
        for s in n {
            assert_eq!(face_of(s), Some(f));
            assert_eq!(parse_face(&s.to_uppercase()).unwrap(), f);
        }
    }
    assert_eq!(face_of("X_MIN"), None);
    assert_eq!(parse_face("Front").unwrap_err().message(), "unknown block face 'front'");
    assert_eq!(parse_face("ÄX").unwrap_err().message(), "unknown block face 'äx'");
}

#[test]
fn mesh_formats_by_extension() {
    assert!(mesh_format(Some("inp")).is_ok());
    assert!(mesh_format(Some("INP")).is_ok());
    assert_eq!(mesh_format(Some("MSH")).unwrap_err().message(), "unsupported mesh format '.msh'");
    assert_eq!(mesh_format(None).unwrap_err().message(), "mesh file has no extension");
    assert!(format_of(Some("INP".to_string())).is_err());
}

#[test]
fn setup_defaults() {
    assert_eq!(num(default_max_distance()), 0.3);
    let s = Settings::default();
    assert_eq!((num(s.end_time), num(s.dt_scale), num(s.hourglass), num(s.velocity_damping)), (0.15, 0.85, 0.1, 1.0));
    assert_eq!((s.adaptive_check_steps, s.frame_steps, s.history_steps, s.simd, s.threads), (5, 0, 0, true, 0));
    assert!(s.time_step.is_none() && num(s.mass_scaling) == 0.0);
    let o = Output::default();
    assert!(o.gif.is_none() && o.vtk.is_none());
}

#[test]
fn vehicles_by_name() {
    assert_eq!(vehicle_by_name("neon"), Ok(Preset::Neon));
    assert_eq!(vehicle_by_name("neon-raw"), Ok(Preset::NeonRaw));
    assert_eq!(vehicle_by_name("neon-pulse"), Ok(Preset::NeonPulse));
    assert_eq!(vehicle_by_name("silverado"), Ok(Preset::Silverado));
    assert_eq!(vehicle_by_name("silverado-raw"), Ok(Preset::SilveradoRaw));
    assert_eq!(vehicle_by_name("Neon").unwrap_err(), "unknown vehicle 'Neon' (neon | neon-raw | neon-pulse | silverado | silverado-raw)");
    assert_eq!(pulse_vehicle("silverado"), Preset::Silverado);
    assert_eq!(pulse_vehicle("unheard-of"), Preset::Neon);
}

#[test]
fn barrier_tests_by_name() {
    let t = |n: &str| { let t = barrier_test(n); (t.start, t.target, t.turned, t.side) };
    assert_eq!(t("neon"), (Preset::Neon, Preset::NeonRaw, false, false));
    assert_eq!(t("neon-raw"), (Preset::NeonRaw, Preset::NeonRaw, false, false));
    assert_eq!(t("silverado"), (Preset::Silverado, Preset::SilveradoRaw, false, false));
    assert_eq!(t("silverado-raw"), (Preset::SilveradoRaw, Preset::SilveradoRaw, false, false));
    assert_eq!(t("neon-side"), (Preset::Neon, Preset::NeonRaw, true, true));
    assert_eq!(t("neon-side-raw"), (Preset::NeonRaw, Preset::NeonRaw, true, true));
    assert_eq!(t("neon-sideways"), (Preset::Neon, Preset::NeonRaw, false, true));
    assert_eq!(t(""), (Preset::Neon, Preset::NeonRaw, false, false));
}

fn out() -> Out {
    Out { gif: None, vtk: None, history: None, history_steps: 1, dt_scale: None }
}

#[test]
fn outputs_turn_capture_on() {
    let mut s = Settings::default();
    out().configure(&mut s);
    assert_eq!((s.frame_steps, s.history_steps), (0, 0));
    let mut o = out();
    o.gif = Some("a.gif".to_string());
    o.history = Some("h".to_string());
    o.history_steps = 0;
    o.dt_scale = Some(bits(0.5));
    o.configure(&mut s);
    assert_eq!((s.frame_steps, s.history_steps, num(s.dt_scale)), (15, 1, 0.5));
    let once = (s.frame_steps, s.history_steps, s.dt_scale);
    o.configure(&mut s);
    assert_eq!((s.frame_steps, s.history_steps, s.dt_scale), once);
    s.frame_steps = 7;
    o.history_steps = 4;
    o.configure(&mut s);
    assert_eq!((s.frame_steps, s.history_steps), (7, 4));
    assert_eq!((barrier_frames(&o), barrier_frames(&out())), (20, 0));
    o.gif = None;
    o.vtk = Some("v".to_string());
    assert_eq!(barrier_frames(&o), 20);
}

#[test]
fn command_line_wins_over_the_setup() {
    let file = Output { gif: Some("file.gif".to_string()), vtk: Some("file".to_string()), history: Some("run".to_string()) };
    let mut o = out();
    o.vtk = Some("mine".to_string());
    let mut s = Settings::default();
    let r = o.clone().completed(file.clone(), &s);
    assert_eq!((r.gif.as_deref(), r.vtk.as_deref(), r.history_steps), (Some("file.gif"), Some("mine"), 1));
    assert_eq!(r.history.as_deref(), Some("run"));
    o.history = Some("own".to_string());
    assert_eq!(o.clone().completed(file.clone(), &s).history.as_deref(), Some("own"));
    s.history_steps = 9;
    assert_eq!(o.completed(file, &s).history_steps, 9);
}

#[test]
fn node_of_an_accelerometer() {
    let acc = |name: &str, nodes: Vec<usize>| Accelerometer { name: name.to_string(), nodes, frame: None };
    let all = vec![acc("a", vec![]), acc("b", vec![7, 8]), acc("b", vec![9]), acc("a", vec![1])];
    assert_eq!(rear_node(&all, "b"), Some(7));
    assert_eq!(rear_node(&all, "a"), None);
    assert_eq!(rear_node(&all, "c"), None);
}
