use crushrs::headon::{headon_mesh, Evolution, HeadOn, RearSeat, Rng, SeatError, Stage, DIMS, SEED};
use crushrs::material::Material;
use crushrs::model::{FrameError, LocalFrame, Way};
use crushrs::number::Real;
use crushrs::vehicle::{CrushCurve, Vehicle};

fn bits(x: f64) -> Real {
    Real { bits: x.to_bits() }
}

fn num(r: Real) -> f64 {
    f64::from_bits(r.bits)
}

/// The generator in ordinary arithmetic.
struct Plain(u64);

impl Plain {
    fn next(&mut self) -> u64 {
        let mut x = self.0;
        x ^= x >> 12;
        x ^= x << 25;
        x ^= x >> 27;
        self.0 = x;
        x.wrapping_mul(0x2545F4914F6CDD1D)
    }

    fn uniform(&mut self) -> f64 {
        (self.next() >> 11) as f64 / (1u64 << 53) as f64
    }

    fn below(&mut self, n: usize) -> usize {
        (self.uniform() * n as f64) as usize % n
    }
}

#[test]
fn generator_steps() {
    let mut r = Rng(1);
    assert_eq!(r.next_u64(), 0x47E4_CE4B_896C_DD1D);
    assert_ne!(r.0, 0);
    let (mut a, mut b) = (Rng(SEED), Plain(SEED));
    for _ in 0..1000 {
        assert_eq!(a.next_u64(), b.next());
        assert_eq!(a.0, b.0);
        assert_ne!(a.0, 0);
    }
}

#[test]
fn uniform_numbers_are_exact() {
    let (mut a, mut b) = (Rng(SEED), Plain(SEED));
    for _ in 0..2000 {
        let x = num(a.uniform());
        assert_eq!(x, b.uniform());
        assert!((0.0..1.0).contains(&x));
    }
    // A state of zero gives zero for ever.
    let mut z = Rng(0);
    assert_eq!(num(z.uniform()), 0.0);
    assert_eq!(z.0, 0);
}

#[test]
fn indices_are_those_of_the_rounded_product() {
    let (mut a, mut b) = (Rng(SEED), Plain(SEED));
    for n in [1, 2, 3, 4, 7, 8, 16, 1000, 999_999_937, (1usize << 53) - 1, 1usize << 53, (1usize << 53) + 1, (1usize << 60) - 1, (1usize << 63) + 12345, usize::MAX] {
        for _ in 0..300 {
            let i = a.below(n);
            assert_eq!(i, b.below(n));
            assert!(i < n);
        }
    }
}

/// Sum of squares from a point inside the cube.
fn objective(u: &[Real]) -> f64 {
    u.iter().enumerate().map(|(j, x)| (num(*x) - 0.1 * (j as f64 + 1.0)).powi(2)).sum()
}

fn mutants(e: &Evolution) -> (Vec<Real>, Vec<Real>) {
    let [a, b, c] = e.pick.members;
    let mutant: Vec<f64> = (0..DIMS).map(|j| num(e.pop[a][j]) + 0.7 * (num(e.pop[b][j]) - num(e.pop[c][j]))).collect();
    (mutant.iter().map(|v| bits(*v)).collect(), mutant.iter().map(|v| bits(2.0 - v)).collect())
}

fn search(population: usize, generations: usize) -> Evolution {
    let mut e = Evolution::new(vec![bits(0.5); 8], population, generations);
    loop {
        match e.stage {
            Stage::Seeding | Stage::Trying => {
                let s = objective(e.candidate());
                e.scored(bits(s));
            }
            Stage::Drawing => e.draw(),
            Stage::Mixing => {
                let (m, r) = mutants(&e);
                e.mix(&m, &r);
            }
            Stage::Finished => return e,
        }
    }
}

#[test]
fn search_takes_a_fixed_number_of_runs() {
    let e = search(6, 5);
    assert_eq!(e.evaluations, 6 * (5 + 1));
    // At least four members.
    let e = search(1, 3);
    assert_eq!(e.pop.len(), 4);
    assert_eq!(e.evaluations, 4 * 4);
    // No generation: the first population alone.
    let e = search(5, 0);
    assert_eq!(e.evaluations, 5);
}

#[test]
fn search_finds_better_members_and_stays_in_the_cube() {
    let start = search(10, 0);
    let done = search(10, 60);
    let (a, b) = (num(start.score[start.best()]), num(done.score[done.best()]));
    assert!(b < a && b < 0.01);
    for k in 0..10 {
        assert!(num(done.score[k]) <= num(start.score[k]));
        assert!(done.pop[k].iter().all(|x| (0.0..=1.0).contains(&num(*x))));
    }
    assert!((0..10).all(|k| num(done.score[k]) >= b));
}

#[test]
fn search_repeats_itself() {
    let (a, b) = (search(7, 4), search(7, 4));
    assert_eq!(a.pop, b.pop);
    assert_eq!(a.rng, b.rng);
}

#[test]
fn search_draws_as_the_generator_does() {
    let mut e = Evolution::new(vec![bits(0.25); 8], 5, 2);
    let mut plain = Plain(SEED);
    assert!(e.pop[0].iter().all(|x| num(*x) == 0.25));
    for k in 1..5 {
        for j in 0..8 {
            assert_eq!(num(e.pop[k][j]), plain.uniform());
        }
    }
    for k in 0..5 {
        e.scored(bits(k as f64));
    }
    assert_eq!(e.stage, Stage::Drawing);
    for _ in 0..200 {
        if e.stage == Stage::Mixing {
            break;
        }
        let r = [plain.below(5), plain.below(5), plain.below(5)];
        e.draw();
        let fine = r[0] != 0 && r[1] != 0 && r[2] != 0 && r[0] != r[1] && r[0] != r[2] && r[1] != r[2];
        assert_eq!(e.stage == Stage::Mixing, fine);
        if fine {
            assert_eq!(e.pick.members, r);
        }
    }
    let always = plain.below(8);
    let crossing: Vec<bool> = (0..8).map(|j| j == always || plain.uniform() < 0.9).collect();
    assert_eq!(e.pick.crossing, crossing);
    assert_eq!(e.rng.0, plain.0);
}

#[test]
fn trial_is_folded_into_the_cube() {
    let mut e = Evolution::new(vec![bits(0.25); 8], 4, 1);
    for k in 0..4 {
        e.scored(bits(k as f64));
    }
    while e.stage == Stage::Drawing {
        e.draw();
    }
    e.pick.crossing = vec![true, true, true, true, true, true, false, false];
    let mutant = [-0.3, 1.2, 0.4, 2.5, -1.5, 1.0, 0.9, 0.9];
    let m: Vec<Real> = mutant.iter().map(|v| bits(*v)).collect();
    let r: Vec<Real> = mutant.iter().map(|v| bits(2.0 - v)).collect();
    e.mix(&m, &r);
    let t: Vec<f64> = e.candidate().iter().map(|x| num(*x)).collect();
    assert_eq!(t, vec![0.3, 2.0 - 1.2, 0.4, 0.0, 1.0, 1.0, 0.25, 0.25]);
    // A trial no worse than its member takes its place, equals included.
    assert!(e.scored(bits(0.0)));
    assert_eq!(num(e.pop[0][0]), 0.3);
    assert_eq!(e.member, 1);
    while e.stage == Stage::Drawing {
        e.draw();
    }
    e.mix(&m, &r);
    let before = e.pop[1].clone();
    assert!(!e.scored(bits(1.5)));
    assert_eq!(e.pop[1], before);
    assert_eq!(num(e.score[1]), 1.0);
    // A score that is no number is never better.
    while e.stage == Stage::Drawing {
        e.draw();
    }
    e.mix(&m, &r);
    assert!(!e.scored(bits(f64::NAN)));
    assert_eq!(e.best(), 0);
}

fn vehicle(name: &str) -> Vehicle {
    let c = CrushCurve { yield_force: bits(1.0), stiffness: bits(2.0) };
    Vehicle { name: name.to_string(), mass: bits(1.0), size: [bits(2.0), bits(1.0), bits(1.0)], crush_zone_length: bits(2.0), curve: c, modulus: bits(3.0), body_modulus: bits(3.0), side_curve: None, side_modulus: None }
}

fn grid(x0: f64) -> [Vec<Real>; 3] {
    let at = |o: f64, n: usize| (0..=n).map(|i| bits(o + i as f64)).collect();
    [at(x0, 2), at(0.0, 1), at(0.0, 1)]
}

fn setup() -> HeadOn {
    HeadOn { speed_a: bits(10.0), speed_b: bits(7.0), offset: bits(0.0), element_size: bits(1.0), end_time: bits(0.15) }
}

/// The neighbours within a block of three by two nodes and two layers.
fn near(first: usize) -> impl Fn(usize, Way, Option<usize>) -> Option<(usize, Real)> {
    move |n, way, _| {
        let (i, j) = ((n - first) % 3, (n - first) / 3 % 2);
        let to = match way {
            Way::PlusX if i < 2 => n + 1,
            Way::MinusX if i > 0 => n - 1,
            Way::PlusY if j < 1 => n + 3,
            Way::MinusY if j > 0 => n - 3,
            _ => return None,
        };
        Some((to, bits(1.0)))
    }
}

#[test]
fn head_on_model_sets_both_vehicles_in_motion() {
    let (a, b) = (vehicle("left"), vehicle("right"));
    let mesh = headon_mesh(&a, &grid(-2.0), &b, &grid(0.0));
    let (ma, mb) = (Material::elastic(bits(1.0), bits(0.0), bits(5.0)), Material::elastic(bits(2.0), bits(0.0), bits(6.0)));
    let (seat_a, seat_b) = (RearSeat { node: 3, neighbour: near(0) }, RearSeat { node: 14, neighbour: near(12) });
    let (m, name_a, name_b) = setup().build(mesh, &a, ma, &seat_a, &b, mb, &seat_b, bits(8.0), bits(0.3)).unwrap();
    assert_eq!(m.mesh.parts.iter().map(|p| p.name.as_str()).collect::<Vec<_>>(), vec!["left", "right"]);
    assert_eq!(m.materials.iter().map(|x| num(x.density)).collect::<Vec<_>>(), vec![5.0, 6.0]);
    assert!(m.initial_velocity[..12].iter().all(|v| v.map(num) == [10.0, 0.0, 0.0]));
    assert!(m.initial_velocity[12..].iter().all(|v| v.map(num) == [-7.0, 0.0, 0.0]));
    assert_eq!(m.contacts.len(), 2);
    assert!(m.contacts.iter().all(|c| num(c.stiffness) == 4.0 && num(c.max_distance) == 0.3));
    assert_eq!(m.contacts[0].nodes, vec![2, 5, 8, 11]);
    assert_eq!(m.contacts[0].faces, vec![1]);
    assert_eq!(m.contacts[1].nodes, vec![12, 15, 18, 21]);
    assert_eq!(m.contacts[1].faces, vec![0]);
    assert_eq!(num(m.settings.end_time), 0.15);
    assert_eq!(m.settings.history_steps, 1);
    assert_eq!((name_a.as_str(), name_b.as_str()), ("left_rear", "right_rear"));
    let acc: Vec<_> = m.accelerometers.iter().map(|x| (x.name.as_str(), x.nodes.clone(), x.frame)).collect();
    let (fa, fb) = (LocalFrame { origin: 0, x_axis: 1, plane: 3 }, LocalFrame { origin: 13, x_axis: 14, plane: 16 });
    assert_eq!(acc, vec![("left_rear", vec![3], Some(fa)), ("right_rear", vec![14], Some(fb))]);
}

#[test]
fn head_on_seats_that_have_no_frame() {
    let (a, b) = (vehicle("left"), vehicle("right"));
    let mesh = headon_mesh(&a, &grid(-2.0), &b, &grid(0.0));
    let m = || Material::elastic(bits(1.0), bits(0.0), bits(5.0));
    let fine = RearSeat { node: 3, neighbour: near(0) };
    let bare = RearSeat { node: 14, neighbour: |_: usize, _: Way, _: Option<usize>| None };
    let e = setup().build(mesh.clone(), &a, m(), &fine, &b, m(), &bare, bits(8.0), bits(0.3)).unwrap_err();
    assert_eq!(e, SeatError::B(FrameError::NoNeighbour));
    let e = setup().build(mesh, &a, m(), &bare, &b, m(), &bare, bits(8.0), bits(0.3)).unwrap_err();
    assert_eq!(e, SeatError::A(FrameError::NoNeighbour));
}

#[test]
fn search_ends_with_the_best_of_all_that_was_tried() {
    let mut e = Evolution::new(vec![bits(0.5); 8], 6, 12);
    let mut tried: Vec<(Vec<Real>, f64)> = vec![];
    while e.stage != Stage::Finished {
        match e.stage {
            Stage::Seeding | Stage::Trying => {
                let u = e.candidate().to_vec();
                let s = objective(&u);
                tried.push((u, s));
                e.scored(bits(s));
            }
            Stage::Drawing => e.draw(),
            _ => {
                let (m, r) = mutants(&e);
                e.mix(&m, &r);
            }
        }
    }
    let best = e.best();
    assert!(tried.iter().all(|(_, s)| num(e.score[best]) <= *s));
    assert!(tried.iter().any(|(u, s)| *u == e.pop[best] && *s == num(e.score[best])));
    assert_eq!(tried.len(), 6 * 13);
}
