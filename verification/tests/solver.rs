use crushrs::contact::{first_contact, on_triangle, Bounds, ContactRuntime, Touch};
use crushrs::mesh::{BlockFace, Mesh};
use crushrs::model::{frame_ends, Accelerometer, Contact, FrameEnds, FrameError, LocalFrame, Model, Settings, Way};
use crushrs::number::Real;
use crushrs::solver::{fixed_dofs, flat_vectors, full_step, half_step, limiting_springs, sample_accelerometers, stray_node, thread_count, vectors, Action, Event, FrameAxes, FrameHistory, Motion, NodeHistory, Stepper};

fn bits(x: f64) -> Real {
    Real { bits: x.to_bits() }
}

fn num(r: Real) -> f64 {
    f64::from_bits(r.bits)
}

/// Runs to the end at unit scale and gives the actions and the last state.
fn run(mut s: Stepper, stable: &[f64]) -> (Vec<Action>, Stepper) {
    let mut all = Vec::new();
    let mut e = Event::Started;
    let mut checks = stable.iter();
    loop {
        let a = s.next(e);
        all.push(a);
        e = match a {
            Action::Save { .. } => Event::Saved,
            Action::MeasureStability => Event::Stable(checks.next().map(|d| bits(*d))),
            Action::ScaleStep { base, .. } => Event::Scaled(base),
            Action::MeasureRemaining => Event::Remaining(bits(num(s.end_time) - num(s.t))),
            Action::Advance { dt, .. } => Event::Advanced { time: bits(num(s.t) + num(dt)), eroded: 1 },
            Action::Finish => return (all, s),
        };
    }
}

fn settings(end: f64, frames: usize, history: usize) -> Settings {
    let mut s = Settings::default();
    s.end_time = bits(end);
    s.frame_steps = frames;
    s.history_steps = history;
    s.adaptive_check_steps = 2;
    s
}

fn count(all: &[Action], f: impl Fn(&Action) -> bool) -> usize {
    all.iter().filter(|a| f(a)).count()
}

fn saved(all: &[Action], history: bool) -> usize {
    count(all, |a| matches!(a, Action::Save { frame, history: h } if if history { *h } else { *frame }))
}

#[test]
fn a_run_to_its_end() {
    let s = Stepper::new(&settings(1.0, 2, 3), bits(0.0), bits(f64::INFINITY), bits(0.25));
    let (all, end) = run(s, &[0.25, 0.25]);
    assert_eq!((end.step, num(end.t), end.eroded), (4, 1.0, 4));
    // Frames at steps 0, 2 and 4; history at 0, 3 and at the end.
    assert_eq!((saved(&all, false), saved(&all, true)), (3, 3));
    assert_eq!(count(&all, |a| matches!(a, Action::MeasureStability)), 2);
    assert_eq!(count(&all, |a| matches!(a, Action::Advance { check_finite: true, .. })), 1);
    assert_eq!(all.last(), Some(&Action::Finish));
    assert_eq!(all[all.len() - 2], Action::Save { frame: false, history: true });
}

#[test]
fn the_last_step_ends_the_run() {
    let s = Stepper::new(&settings(1.0, 0, 0), bits(0.0), bits(f64::INFINITY), bits(0.75));
    let (all, end) = run(s, &[0.75]);
    let steps: Vec<f64> = all.iter().filter_map(|a| match a { Action::Advance { dt, .. } => Some(num(*dt)), _ => None }).collect();
    assert_eq!((steps, num(end.t)), (vec![0.75, 0.25], 1.0));
    assert_eq!(saved(&all, false) + saved(&all, true), 0);
}

#[test]
fn no_step_is_smaller_than_the_smallest() {
    let mut s = Stepper::new(&settings(1.0, 0, 0), bits(0.0), bits(1.0), bits(0.5));
    assert_eq!(s.next(Event::Started), Action::MeasureStability);
    // No element is left: the step stays.
    assert_eq!(s.next(Event::Stable(None)), Action::MeasureRemaining);
    assert_eq!(s.next(Event::Remaining(bits(1e-30))), Action::Advance { dt: bits(1e-15), check_finite: true });
}

#[test]
fn mass_is_added_below_the_floor() {
    let start = Stepper::new(&settings(1.0, 0, 0), bits(0.1), bits(0.08), bits(0.5));
    let scale = |d: f64| { let mut s = start; s.next(Event::Started); s.next(Event::Stable(Some(bits(d)))) };
    assert_eq!(scale(0.05), Action::ScaleStep { add_mass: true, base: bits(0.08) });
    assert_eq!(scale(0.2), Action::ScaleStep { add_mass: false, base: bits(0.08) });
    let mut free = start;
    free.dt_floor = bits(0.0);
    free.next(Event::Started);
    assert_eq!(free.next(Event::Stable(Some(bits(0.05)))), Action::ScaleStep { add_mass: false, base: bits(0.05) });
}

#[test]
fn a_fixed_step_is_not_checked() {
    let mut set = settings(1.0, 0, 0);
    set.time_step = Some(bits(0.5));
    let (all, end) = run(Stepper::new(&set, bits(0.0), bits(1.0), bits(0.5)), &[]);
    assert_eq!((count(&all, |a| matches!(a, Action::MeasureStability)), end.step), (0, 2));
    let mut set = settings(1.0, 0, 0);
    set.adaptive_check_steps = 0;
    assert!(!Stepper::new(&set, bits(0.0), bits(1.0), bits(0.5)).adaptive);
    assert_eq!((thread_count(0, 6), thread_count(3, 6)), (6, 3));
}

fn acc(name: &str, nodes: Vec<usize>, frame: Option<LocalFrame>) -> Accelerometer {
    Accelerometer { name: name.to_string(), nodes, frame }
}

#[test]
fn samples_of_accelerometers() {
    let frame = LocalFrame { origin: 1, x_axis: 2, plane: 3 };
    let all = vec![acc("a", vec![4, 5], None), acc("b", vec![6], Some(frame))];
    let (mut h, mut f) = (NodeHistory::new(), FrameHistory::new());
    let motion = |n: usize| {
        let v = |k: usize| [bits((10 * n + k) as f64); 3];
        Motion { position: v(0), displacement: v(1), velocity: v(2), acceleration: v(3) }
    };
    let axes = |f: LocalFrame| FrameAxes { origin: [bits(f.origin as f64); 3], axes: [[bits(f.plane as f64); 3]; 3] };
    let turn = |a: [[Real; 3]; 3], v: [Real; 3]| v.map(|x| bits(num(a[0][0]) * num(x)));
    for step in [0, 7] {
        sample_accelerometers(&all, bits(step as f64 / 10.0), step, motion, axes, turn, &mut h, &mut f);
    }
    assert_eq!((h.node, h.accelerometer, h.step), (vec![4, 5, 6, 4, 5, 6], vec![0, 0, 1, 0, 0, 1], vec![0, 0, 0, 7, 7, 7]));
    assert_eq!(h.time.iter().map(|t| num(*t)).collect::<Vec<_>>(), vec![0.0, 0.0, 0.0, 0.7, 0.7, 0.7]);
    let first = |v: &Vec<[Real; 3]>| v[..3].iter().map(|x| num(x[0])).collect::<Vec<_>>();
    assert_eq!(first(&h.position), vec![40.0, 50.0, 60.0]);
    assert_eq!(first(&h.velocity), vec![42.0, 52.0, 62.0]);
    // Without a frame the local columns repeat the global ones.
    assert_eq!(first(&h.local_displacement), vec![41.0, 51.0, 3.0 * 61.0]);
    assert_eq!(first(&h.local_velocity), vec![42.0, 52.0, 3.0 * 62.0]);
    assert_eq!(first(&h.local_acceleration), vec![43.0, 53.0, 3.0 * 63.0]);
    assert_eq!((f.step, f.accelerometer), (vec![0, 7], vec![1, 1]));
    assert_eq!((num(f.origin[1][2]), num(f.axes[1][2][0])), (1.0, 3.0));
}

#[test]
fn nodes_that_do_not_exist() {
    let frame = LocalFrame { origin: 1, x_axis: 9, plane: 12 };
    let all = vec![acc("a", vec![4, 5], None), acc("b", vec![6], Some(frame))];
    assert_eq!(stray_node(&all, 13), None);
    assert_eq!(stray_node(&all, 10), Some((1, 12)));
    assert_eq!(stray_node(&all, 9), Some((1, 9)));
    assert_eq!(stray_node(&all, 5), Some((0, 5)));
}

#[test]
fn vectors_laid_out_come_back() {
    let v = vec![[1.0, 2.0, 3.0].map(bits), [4.0, 5.0, 6.0].map(bits)];
    let flat = flat_vectors(&v);
    assert_eq!(flat.iter().map(|x| num(*x)).collect::<Vec<_>>(), vec![1.0, 2.0, 3.0, 4.0, 5.0, 6.0]);
    assert_eq!(vectors(&flat, 2), v);
    assert_eq!(fixed_dofs(&vec![2, 0]), vec![6, 7, 8, 0, 1, 2]);
}

#[test]
fn fixed_nodes_stay_where_they_are() {
    let fixed = fixed_dofs(&vec![1]);
    let (mut u, mut v, mut half, mut acc) = (vec![0.0; 9], vec![1.0; 9], vec![5.0; 9], vec![0.0; 9]);
    v[3] = 7.0;
    for step in 1..4 {
        half_step(&mut u, &mut v, &mut half, &fixed, 0.0, |k, u, v| (u + 0.1 * v, v + k as f64));
        full_step(&half, &mut v, &mut acc, &fixed, 0.0, |k, h| (h - k as f64, step as f64));
        assert_eq!((&u[3..6], &v[3..6], &acc[3..6]), (&[0.0; 3][..], &[0.0; 3][..], &[0.0; 3][..]));
        assert_eq!((v[0], v[8], acc[8], half[8]), (1.0, 1.0, step as f64, 9.0));
    }
    assert!((u[0] - 0.3).abs() < 1e-12 && (u[8] - 0.3).abs() < 1e-12);
}

#[test]
fn projections_onto_a_triangle() {
    let on = |u: f64, v: f64| on_triangle(bits(u), bits(v), bits(u + v));
    assert!(on(0.0, 0.0) && on(0.5, 0.5) && on(-1e-10, 0.2) && on(1.0, 0.0));
    assert!(!on(-1e-9, 0.2) && !on(0.2, -1e-9) && !on(0.6, 0.6) && !on(f64::NAN, 0.0));
    assert!(on_triangle(bits(0.5), bits(0.5), bits(1.0 + 1e-10)));
    assert!(!on_triangle(bits(0.5), bits(0.5), bits(1.0 + 2e-10)));
}

fn contact(nodes: Vec<usize>, faces: Vec<usize>, stiffness: f64) -> Contact {
    Contact { nodes, faces, stiffness: bits(stiffness), max_distance: bits(0.3) }
}

#[test]
fn springs_that_limit_the_step() {
    let masses = vec![bits(1.0), bits(0.0), bits(3.0)];
    let all = vec![contact(vec![0, 1, 2], vec![], 5.0), contact(vec![0], vec![], 0.0), contact(vec![2], vec![], 7.0)];
    let r: Vec<(f64, f64)> = limiting_springs(&all, &masses).into_iter().map(|(m, k)| (num(m), num(k))).collect();
    assert_eq!(r, vec![(1.0, 5.0), (3.0, 5.0), (3.0, 7.0)]);
}

fn planes(at: &[f64]) -> Vec<Real> {
    at.iter().map(|x| bits(*x)).collect()
}

fn two_blocks() -> Mesh<[Real; 3]> {
    let mut m: Mesh<[Real; 3]> = Mesh::new();
    let unit = planes(&[0.0, 1.0]);
    m.add_grid_block("left", &[planes(&[-2.0, -1.0, 0.0]), unit.clone(), unit.clone()], &[(BlockFace::XMax, "l")]);
    m.add_grid_block("right", &[planes(&[0.1, 1.0]), unit.clone(), unit], &[(BlockFace::XMin, "r")]);
    m
}

#[test]
fn contact_keeps_nodes_near_the_faces() {
    let mut model = Model::new(two_blocks());
    model.add_contact_pair("l", "r", bits(8.0), bits(0.3));
    assert_eq!(model.contacts.len(), 2);
    assert_eq!(num(model.contacts[0].stiffness), 4.0);
    assert_eq!((model.contacts[0].nodes.len(), model.contacts[0].faces.len()), (4, 1));
    let grow = |by: f64| move |b: Bounds| Bounds { lo: b.lo.map(|x| bits(num(x) - by)), hi: b.hi.map(|x| bits(num(x) + by)) };
    let c = &model.contacts[0];
    let near = ContactRuntime::new(c, &model.mesh.faces, &model.mesh.nodes, grow(0.3));
    assert_eq!((near.nodes.len(), near.faces.len(), near.penetration_count), (4, 1, 0));
    assert_eq!(near.nodes, c.nodes);
    let mut far = ContactRuntime::new(c, &model.mesh.faces, &model.mesh.nodes, grow(0.05));
    assert!(far.nodes.is_empty());
    far.record(bits(0.2));
    far.record(bits(0.1));
    assert_eq!((far.penetration_count, num(far.max_penetration)), (2, 0.2));
    far.reset();
    assert_eq!((far.penetration_count, num(far.max_penetration)), (0, 0.0));
}

#[test]
fn first_face_that_a_node_touches() {
    let mut b = Bounds::nothing();
    assert!(!b.contains(&[bits(0.0); 3]));
    b.widen(&[bits(0.0); 3]);
    b.widen(&[bits(1.0), bits(2.0), bits(-1.0)]);
    let p = [bits(0.5), bits(2.0), bits(-1.0)];
    assert!(b.contains(&p) && !b.is_outside(&p) && b.is_outside(&[bits(0.5), bits(2.5), bits(0.0)]));
    let boxes = vec![Bounds::nothing(), b, b, b, b];
    // Outside the box, in front, too deep, not on the face; the last is it.
    let signed = |_: usize, k: usize| bits([-0.1, 0.1, -0.4, -0.1, -0.2][k]);
    let inside = |_: usize, k: usize, s: Real| k == 4 && num(s) < 0.0;
    assert_eq!(first_contact(7, &p, &boxes, bits(0.3), &signed, &inside), Some((4, bits(-0.2))));
    assert_eq!(first_contact(7, &p, &boxes[..4].to_vec(), bits(0.3), &signed, &inside), None);
    // On the face counts, and so does the deepest penetration allowed.
    assert_eq!(first_contact(7, &p, &vec![b], bits(0.3), &|_, _| bits(0.0), &|_, _, _| true), Some((0, bits(0.0))));
    assert_eq!(first_contact(7, &p, &vec![b], bits(0.3), &|_, _| bits(-0.3), &|_, _, _| true), Some((0, bits(-0.3))));
}

#[test]
fn touches_of_all_contact_nodes() {
    let mut model = Model::new(two_blocks());
    model.add_contact_pair("l", "r", bits(8.0), bits(0.3));
    let mut c = ContactRuntime::new(&model.contacts[0], &model.mesh.faces, &model.mesh.nodes, |_| Bounds { lo: [bits(-9.0); 3], hi: [bits(9.0); 3] });
    let face = c.faces[0];
    c.faces = vec![face, face];
    let everywhere = Bounds { lo: [bits(-9.0); 3], hi: [bits(9.0); 3] };
    let boxes = vec![Bounds::nothing(), everywhere];
    let points = vec![[bits(0.0); 3]; 4];
    // The first is in front, the second too deep, the others touch.
    let depth = [-0.1, 0.5, 0.2, 0.3];
    let signed = |j: usize, _: usize| bits(-depth[j]);
    let nodes = c.nodes.clone();
    let touch = |j: usize| Touch { node: nodes[j], face: 1, signed: bits(-depth[j]) };
    assert_eq!(c.find_touches(&points, &boxes, &signed, &|_, _, _| true), vec![touch(2), touch(3)]);
    assert_eq!((c.penetration_count, num(c.max_penetration)), (2, 0.3));
    // Each call counts for itself.
    assert_eq!(c.find_touches(&points, &boxes, &signed, &|j, _, _| j == 2), vec![touch(2)]);
    assert_eq!((c.penetration_count, num(c.max_penetration)), (1, 0.2));
    assert_eq!(c.find_touches(&points, &boxes, &signed, &|_, _, _| false), vec![]);
    assert_eq!((c.penetration_count, num(c.max_penetration)), (0, 0.0));
    assert_eq!((c.nodes.clone(), num(c.stiffness), num(c.max_distance)), (nodes, 4.0, 0.3));
}

/// How the neighbours of a node of a part of a mesh are found.
fn around(mesh: &Mesh<[Real; 3]>, part: usize, edge: f64) -> impl Fn(usize, Way, Option<usize>) -> Option<(usize, Real)> {
    let mesh = mesh.clone();
    move |from, way, exclude: Option<usize>| {
        let dir = match way {
            Way::PlusX => [1.0, 0.0],
            Way::MinusX => [-1.0, 0.0],
            Way::PlusY => [0.0, 1.0],
            Way::MinusY => [0.0, -1.0],
        };
        let gap = |n: usize, d: usize| num(mesh.nodes[n][d]) - num(mesh.nodes[from][d]);
        let away: Vec<f64> = (0..mesh.nodes.len()).map(|n| (0..3).map(|d| gap(n, d).powi(2)).sum::<f64>().sqrt()).collect();
        let cosine: Vec<Real> = (0..mesh.nodes.len()).map(|n| bits((gap(n, 0) * dir[0] + gap(n, 1) * dir[1]) / away[n])).collect();
        let away = away.iter().map(|a| bits(*a)).collect();
        mesh.best_aligned_neighbour(from, &away, &cosine, bits(1.75 * edge), Some(part), exclude.as_slice())
    }
}

/// A unit cube of two elements along each edge.
fn cube() -> Mesh<[Real; 3]> {
    let mut m: Mesh<[Real; 3]> = Mesh::new();
    let cuts = planes(&[0.0, 0.5, 1.0]);
    m.add_grid_block("a", &[cuts.clone(), cuts.clone(), cuts], &[]);
    m
}

fn frame(origin: usize, x_axis: usize, plane: usize) -> Option<LocalFrame> {
    Some(LocalFrame { origin, x_axis, plane })
}

#[test]
fn local_x_axis_runs_towards_plus_x() {
    let nodes = cube().nodes;
    // Node 4 has 5 ahead of it and 3 behind.
    let (ahead, behind) = (Some((5, bits(0.9))), Some((3, bits(1.0))));
    assert_eq!(frame_ends(&nodes, 4, ahead, behind), Some(FrameEnds { origin: 4, x_axis: 5 }));
    // Ahead only beyond 60 degrees: from behind, if there is one there.
    assert_eq!(frame_ends(&nodes, 4, Some((5, bits(0.5))), behind), Some(FrameEnds { origin: 3, x_axis: 4 }));
    assert_eq!(frame_ends(&nodes, 4, Some((5, bits(0.5))), None), Some(FrameEnds { origin: 4, x_axis: 5 }));
    assert_eq!(frame_ends(&nodes, 4, None, behind), Some(FrameEnds { origin: 3, x_axis: 4 }));
    // A node at the side is neither.
    assert_eq!(frame_ends(&nodes, 4, Some((1, bits(0.9))), Some((7, bits(0.9)))), None);
    assert_eq!(frame_ends(&nodes, 4, None, None), None);
    assert_eq!(frame_ends(&nodes, 99, ahead, behind), None);
}

#[test]
fn frames_of_an_accelerometer() {
    let mut m = Model::new(cube());
    let near = around(&m.mesh, 0, 0.5);
    for node in [0, 2, 6, 8, 4] {
        assert_eq!(m.add_accelerometer_at("a", node, &near), Ok(()));
    }
    let frames: Vec<_> = m.accelerometers.iter().map(|a| a.frame).collect();
    // Without a neighbour towards +Y, the one towards -Y is the origin.
    assert_eq!(frames, vec![frame(0, 1, 3), frame(1, 2, 4), frame(3, 4, 6), frame(4, 5, 7), frame(4, 5, 7)]);
    assert_eq!(m.accelerometers[2].nodes, vec![6]);
    // All start parallel to the global axes.
    for f in frames.into_iter().flatten() {
        let at = |n: usize| m.mesh.nodes[n].map(num);
        assert_eq!(at(f.x_axis)[1..], at(f.origin)[1..]);
        assert!(at(f.x_axis)[0] > at(f.origin)[0] && at(f.plane)[1] > at(f.origin)[1]);
        assert_eq!(at(f.plane)[0], at(f.origin)[0]);
    }
}

#[test]
fn frames_that_cannot_be_made() {
    let mut m = Model::new(cube());
    let e = m.add_accelerometer_at("a", 4, &|_, _, _| None).unwrap_err();
    assert_eq!(e, FrameError::NoNeighbour);
    assert_eq!(e.message("a", "neon"), "accelerometer 'a': part 'neon' has no neighbouring nodes to define a frame");
    let beside = |_, way, _| if way == Way::PlusY { Some((7, bits(1.0))) } else { None };
    let e = m.add_accelerometer_at("a", 4, &beside).unwrap_err();
    assert_eq!(e, FrameError::NoXNeighbour);
    assert_eq!(e.message("a", "neon"), "accelerometer 'a': part 'neon' has no neighbouring nodes along X to define a frame");
    // The neighbour towards -Y has no x axis of its own.
    let corner = |n, way, _| match (n, way) {
        (6, Way::PlusX) => Some((7, bits(1.0))),
        (6, Way::MinusY) => Some((3, bits(1.0))),
        _ => None,
    };
    assert_eq!(m.add_accelerometer_at("a", 6, &corner), Err(FrameError::NoXNeighbour));
    assert!(m.accelerometers.is_empty());
}

#[test]
fn model_by_sets() {
    let mut m = Model::new(two_blocks());
    assert_eq!((m.materials.len(), m.initial_velocity.len()), (2, 20));
    m.fix("right").fix("right");
    assert_eq!(m.fixed_nodes, (12..20).chain(12..20).collect::<Vec<_>>());
    m.set_initial_velocity("left", [bits(2.0), bits(0.0), bits(0.0)]);
    assert_eq!(m.initial_velocity.iter().filter(|v| num(v[0]) == 2.0).count(), 12);
    m.add_accelerometer("x", vec![1, 2], None);
    assert_eq!((m.accelerometers[0].name.as_str(), m.accelerometers[0].nodes.len()), ("x", 2));
}
