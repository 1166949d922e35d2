use crushrs::material::Material;
use crushrs::mesh::{BlockFace, Mesh};
use crushrs::model::{FrameError, LocalFrame, Model, Way};
use crushrs::number::Real;
use crushrs::signal::energy_plan;
use crushrs::solver::PartState;
use crushrs::vehicle::{add_rigid_wall, add_vehicle, add_vehicle_accelerometer, assign_vehicle, barrier_mesh, barrier_model, between_ends, contact_sample, loading, opposite_nodes, part_bounds, reaches_window, seat, select_nodes, series, Adjustment, Calibration, CrushCurve, Heading, Misfit, Sample, Seat, Vehicle};

fn bits(x: f64) -> Real {
    Real { bits: x.to_bits() }
}

fn num(r: Real) -> f64 {
    f64::from_bits(r.bits)
}

fn reals(v: &[f64]) -> Vec<Real> {
    v.iter().map(|x| bits(*x)).collect()
}

fn curve(f: f64, k: f64) -> CrushCurve {
    CrushCurve { yield_force: bits(f), stiffness: bits(k) }
}

fn vehicle() -> Vehicle {
    Vehicle { name: "neon".to_string(), mass: bits(1354.0), size: [bits(4.36), bits(1.71), bits(1.35)], crush_zone_length: bits(4.36), curve: curve(1.0, 2.0), modulus: bits(23.1e6), body_modulus: bits(24.0e6), side_curve: None, side_modulus: None }
}

fn grid(x0: f64, n: [usize; 3]) -> [Vec<Real>; 3] {
    std::array::from_fn(|d| (0..=n[d]).map(|i| bits(if d == 0 { x0 } else { 0.0 } + i as f64)).collect())
}

fn foam() -> Material {
    Material::honeycomb(bits(1.0e6), bits(100.0), bits(10.0), bits(20.0))
}

#[test]
fn side_profile_turns_the_block() {
    let mut v = vehicle();
    let s = v.side_profile();
    assert_eq!(s.name, "neon_side");
    assert_eq!(s.size.map(num), [1.71, 4.36, 1.35]);
    assert_eq!(num(s.crush_zone_length), 1.71);
    assert_eq!(s.curve, curve(1.0, 2.0));
    assert_eq!((num(s.modulus), num(s.body_modulus)), (23.1e6, 23.1e6));
    v.side_curve = Some(curve(5.0, 6.0));
    v.side_modulus = Some(bits(125.8e6));
    let s = v.side_profile();
    assert_eq!(s.curve, curve(5.0, 6.0));
    assert_eq!((num(s.modulus), num(s.body_modulus)), (125.8e6, 125.8e6));
    assert!(s.side_curve.is_none() && s.side_modulus.is_none());
    assert_eq!(s.side_profile().size.map(num), [4.36, 1.71, 1.35]);
}

#[test]
fn headings() {
    assert_eq!(Heading::PlusX.front(), BlockFace::XMax);
    assert_eq!(Heading::MinusX.front(), BlockFace::XMin);
    assert_eq!(Heading::PlusX.velocity(bits(3.0)).map(num), [3.0, 0.0, 0.0]);
    assert_eq!(Heading::MinusX.velocity(bits(3.0)).map(num), [-3.0, 0.0, 0.0]);
}

#[test]
fn vehicles_and_walls_get_their_names() {
    let mut m: Mesh<[Real; 3]> = Mesh::new();
    assert_eq!(add_vehicle(&mut m, &vehicle(), &grid(-2.0, [2, 1, 1]), Heading::PlusX), 0);
    assert_eq!(add_rigid_wall(&mut m, "wall", &grid(1.0, [1, 1, 1]), Heading::MinusX), 1);
    assert_eq!(m.nodes_of("neon").map(|n| n.len()), Some(12));
    assert_eq!(m.face_set_nodes("neon_front"), Some(vec![2, 5, 8, 11]));
    assert_eq!(m.face_set_nodes("wall_face"), Some(vec![12, 14, 16, 18]));
    // The front of a vehicle that heads for -x is at its near end.
    let mut m: Mesh<[Real; 3]> = Mesh::new();
    add_vehicle(&mut m, &vehicle(), &grid(0.0, [2, 1, 1]), Heading::MinusX);
    assert_eq!(m.face_set_nodes("neon_front"), Some(vec![0, 3, 6, 9]));
}

#[test]
fn assigning_a_vehicle() {
    let mut m: Mesh<[Real; 3]> = Mesh::new();
    add_rigid_wall(&mut m, "wall", &grid(1.0, [1, 1, 1]), Heading::MinusX);
    add_vehicle(&mut m, &vehicle(), &grid(-2.0, [1, 1, 1]), Heading::PlusX);
    let mut model = Model::new(m);
    assign_vehicle(&mut model, &vehicle(), foam(), Heading::MinusX, bits(4.0));
    assert_eq!(num(model.materials[0].density), 1.0);
    assert_eq!(num(model.materials[1].density), 100.0);
    assert!(model.initial_velocity[..8].iter().all(|v| v.map(num) == [0.0; 3]));
    assert!(model.initial_velocity[8..].iter().all(|v| v.map(num) == [-4.0, 0.0, 0.0]));
}

#[test]
fn barrier_model_of_a_vehicle() {
    let v = vehicle();
    let mesh = barrier_mesh(&v, &grid(-2.0, [2, 1, 1]), &grid(0.5, [1, 1, 1]));
    let wall = Material::elastic(bits(1e9), bits(0.3), bits(1000.0));
    let m = barrier_model(mesh, &v, foam(), wall, bits(15.0), bits(600.0), bits(0.3), bits(0.14), 20);
    assert_eq!(num(m.materials[0].density), 100.0);
    assert_eq!(num(m.materials[1].density), 1000.0);
    assert!(m.initial_velocity[..12].iter().all(|x| num(x[0]) == 15.0));
    assert!(m.initial_velocity[12..].iter().all(|x| num(x[0]) == 0.0));
    assert_eq!(m.fixed_nodes, (12..20).collect::<Vec<_>>());
    assert_eq!(m.contacts.len(), 2);
    assert_eq!(m.contacts[0].nodes, vec![2, 5, 8, 11]);
    assert_eq!(m.contacts[0].faces, vec![1]);
    assert_eq!(num(m.contacts[0].stiffness), 300.0);
    assert_eq!(m.contacts[1].nodes, vec![12, 14, 16, 18]);
    assert_eq!((num(m.settings.end_time), m.settings.history_steps, m.settings.frame_steps), (0.14, 2, 20));
    assert_eq!(num(m.settings.dt_scale), 0.85);
}

#[test]
fn box_of_a_part() {
    let mut m: Mesh<[Real; 3]> = Mesh::new();
    add_vehicle(&mut m, &vehicle(), &grid(-2.0, [2, 3, 1]), Heading::PlusX);
    add_rigid_wall(&mut m, "wall", &grid(7.0, [1, 1, 1]), Heading::MinusX);
    let b = part_bounds(&m, 0);
    assert_eq!((b.lo.map(num), b.hi.map(num)), ([-2.0, 0.0, 0.0], [0.0, 3.0, 1.0]));
    // A part that there is not has the box that holds nothing.
    let b = part_bounds(&m, 9);
    assert_eq!((num(b.lo[0]), num(b.hi[0])), (f64::MAX, f64::MIN));
}

#[test]
fn seats_stay_clear_of_the_front() {
    let tol = bits(1e-6);
    assert_eq!(seat(bits(0.0), bits(4.0), tol), Seat::TowardsFar);
    assert_eq!(seat(bits(4.0), bits(0.0), tol), Seat::TowardsNear);
    assert_eq!(seat(bits(2.0), bits(2.0), tol), Seat::Middle);
    assert_eq!(seat(tol, tol, tol), Seat::Middle);
}

#[test]
fn rear_accelerometer_and_its_frame() {
    let mut m: Mesh<[Real; 3]> = Mesh::new();
    add_vehicle(&mut m, &vehicle(), &grid(0.0, [2, 1, 1]), Heading::PlusX);
    let mut model = Model::new(m);
    let e = add_vehicle_accelerometer(&mut model, "neon", 4, &|_, _, _| None).unwrap_err();
    assert_eq!(e, FrameError::NoNeighbour);
    assert_eq!(e.message("neon_rear", "neon"), "accelerometer 'neon_rear': part 'neon' has no neighbouring nodes to define a frame");
    let aside = |_, way, _| if way == Way::MinusY { Some((1, bits(1.0))) } else { None };
    let e = add_vehicle_accelerometer(&mut model, "neon", 4, &aside).unwrap_err();
    assert_eq!(e.message("neon_rear", "neon"), "accelerometer 'neon_rear': part 'neon' has no neighbouring nodes along X to define a frame");
    assert!(model.accelerometers.is_empty());
    // The nodes 3, 4, 5 lie on the +Y side of 0, 1, 2.
    let near = |n: usize, way, _| match way {
        Way::PlusX if n % 3 < 2 => Some((n + 1, bits(1.0))),
        Way::MinusX if n % 3 > 0 => Some((n - 1, bits(1.0))),
        Way::PlusY if n < 3 => Some((n + 3, bits(1.0))),
        Way::MinusY if n >= 3 => Some((n - 3, bits(1.0))),
        _ => None,
    };
    let name = add_vehicle_accelerometer(&mut model, "neon", 4, &near).unwrap();
    assert_eq!(name, "neon_rear");
    assert_eq!(model.accelerometers[0].name, "neon_rear");
    assert_eq!(model.accelerometers[0].nodes, vec![4]);
    assert_eq!(model.accelerometers[0].frame, Some(LocalFrame { origin: 1, x_axis: 2, plane: 4 }));
}

fn state(part: usize, v: f64, u: f64) -> PartState {
    PartState { part, mass: bits(10.0 + part as f64), velocity: [bits(0.0), bits(v), bits(0.0)], displacement: [bits(0.0), bits(u), bits(0.0)], acceleration: [bits(0.0); 3], kinetic_energy: bits(0.0) }
}

#[test]
fn series_of_a_part() {
    let history = vec![(bits(0.0), vec![state(0, 1.0, 2.0), state(1, 3.0, 4.0)]), (bits(0.5), vec![state(0, 5.0, 6.0), state(1, 7.0, 8.0)])];
    let s = series(&history, 1, 1);
    assert_eq!(s[0], Sample { time: bits(0.0), mass: bits(11.0), velocity: bits(3.0), displacement: bits(4.0) });
    assert_eq!(s[1], Sample { time: bits(0.5), mass: bits(11.0), velocity: bits(7.0), displacement: bits(8.0) });
    assert_eq!(series(&vec![], 3, 0), vec![]);
}

#[test]
fn loading_phase_of_a_test() {
    let force = reals(&[0.0, 0.01, 0.5, 1.0, 0.4]);
    assert_eq!(contact_sample(&force, bits(0.02)), 2);
    assert_eq!(contact_sample(&force, bits(5.0)), 0);
    let crush = reals(&[-0.2, -0.1, 0.0, 0.7, 0.7]);
    let l = loading(&crush, &force, 2);
    // The last of equals.
    assert_eq!(l.peak, 4);
    assert_eq!(l.crush, reals(&[0.0, 0.7, 0.7]));
    assert_eq!(l.force, reals(&[0.5, 1.0, 0.4]));
    let l = loading(&reals(&[3.0, 2.0, 1.0]), &reals(&[1.0, 1.0, 1.0]), 1);
    assert_eq!(l.peak, 0);
    assert!(l.crush.is_empty() && l.force.is_empty());
}

#[test]
fn energy_up_to_a_crush() {
    let crush = reals(&[0.0, 1.0, 0.5, 2.0, 4.0, 5.0]);
    let p = energy_plan(&crush, bits(3.0));
    assert_eq!((p.whole, p.part), (vec![0, 2], Some(3)));
    let p = energy_plan(&crush, bits(2.0));
    assert_eq!((p.whole, p.part), (vec![0, 2], None));
    let p = energy_plan(&crush, bits(9.0));
    assert_eq!((p.whole, p.part), (vec![0, 2, 3, 4], None));
    let p = energy_plan(&vec![], bits(9.0));
    assert!(p.whole.is_empty() && p.part.is_none());
}

fn misfit(k: f64, c: f64, e: f64) -> Misfit {
    Misfit { stiffness: bits(k), crush: bits(c), restitution: bits(e) }
}

#[test]
fn calibration_stops_when_met_or_at_its_end() {
    let mut c = Calibration::new(3);
    assert!(c.wants_run());
    assert_eq!(c.record(misfit(0.5, 0.5, 0.5)), Adjustment::Curve);
    assert_eq!(c.record(misfit(0.14, 0.14, 0.5)), Adjustment::CurveAndModulus);
    assert!(c.wants_run());
    assert_eq!(c.record(misfit(0.01, 0.01, 0.1)), Adjustment::CurveAndModulus);
    assert!(!c.wants_run() && !c.met);
    let mut c = Calibration::new(3);
    assert_eq!(c.record(misfit(0.019, 0.019, 0.099)), Adjustment::Nothing);
    assert!(c.met && !c.wants_run() && c.runs == 1);
    let mut c = Calibration::new(3);
    assert_eq!(c.record(misfit(0.15, 0.0, 0.0)), Adjustment::Curve);
    assert_eq!(c.record(misfit(f64::NAN, 0.0, 0.0)), Adjustment::Curve);
    assert!(!Calibration::new(0).wants_run());
    assert!(reaches_window(bits(0.4), bits(0.4)) && !reaches_window(bits(0.39), bits(0.4)));
}

#[test]
fn series_keep_their_ends() {
    assert_eq!(between_ends(&vec![1, 2, 3, 4], |i| 10 * i), vec![1, 10, 20, 4]);
    assert_eq!(between_ends(&vec![7], |_| 0), vec![7]);
    assert!(between_ends(&Vec::<i32>::new(), |_| 0).is_empty());
}

#[test]
fn nodes_behind_the_struck_side() {
    let y = [0, 1, 2, 1, 0, 5, 1];
    let far = select_nodes(&vec![3, 4, 5, 6, 2], |n| n >= 3);
    assert_eq!(far, vec![3, 4, 5, 6]);
    assert_eq!(opposite_nodes(&vec![0, 1, 2], &far, |a, b| y[a] == y[b]), vec![Some(4), Some(3), None]);
    assert_eq!(opposite_nodes(&vec![0], &vec![], |_, _| true), vec![None]);
}
