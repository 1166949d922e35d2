use crushrs::element::b_matrix;
use crushrs::material::{cap_stresses, compacting, foam_strain, iterate, tensor_to_voigt, voigt_to_tensor, CurveError, HoneycombParams, Material, PlasticModel, Plasticity, Side};
use crushrs::number::{first_min, fold_max, fold_min, largest_of_three, last_max, sort_three, Real, Single};

fn bits(x: f64) -> Real {
    Real { bits: x.to_bits() }
}

fn num(r: Real) -> f64 {
    f64::from_bits(r.bits)
}

fn slope(a: [Real; 2], b: [Real; 2]) -> Real {
    bits((num(b[1]) - num(a[1])) / (num(b[0]) - num(a[0])))
}

fn lock(last: [Real; 3], d: [Real; 2]) -> [Real; 3] {
    let [c, s, h] = last.map(num);
    [d[0], bits(s + h * (num(d[0]) - c)), bits(h + num(d[1]))]
}

fn plastic(model: PlasticModel, curve: &[[f64; 2]], densification: Option<[f64; 2]>) -> Plasticity {
    Plasticity {
        yield_stress: bits(5.0),
        hardening: bits(6.0),
        model,
        curve: curve.iter().map(|k| k.map(bits)).collect(),
        densification: densification.map(|d| d.map(bits)),
        transverse_factor: bits(1.0),
    }
}

fn fault(model: PlasticModel, curve: &[[f64; 2]], densification: Option<[f64; 2]>) -> Option<CurveError> {
    plastic(model, curve, densification).check().err()
}

const GOOD: [[f64; 2]; 3] = [[0.0, 7000.0], [0.2, 9000.0], [0.5, 30000.0]];

#[test]
fn curves_that_are_refused() {
    let h = PlasticModel::Honeycomb;
    assert_eq!(fault(h, &GOOD, None), None);
    assert_eq!(fault(h, &[], Some([1.0, 0.0])), None);
    assert_eq!(fault(PlasticModel::J2, &[], None), None);
    assert_eq!(fault(PlasticModel::J2, &[], Some([1.0, 0.0])), Some(CurveError::DensificationModel));
    assert_eq!(fault(h, &[], Some([0.0, 1.0])), Some(CurveError::DensificationRange));
    assert_eq!(fault(h, &[], Some([1.0, -1.0])), Some(CurveError::DensificationRange));
    assert_eq!(fault(h, &GOOD, Some([0.5, 1.0])), Some(CurveError::DensificationBeforeCurve));
    assert_eq!(fault(PlasticModel::CrushableFoam, &GOOD, None), Some(CurveError::CurveModel));
    assert_eq!(fault(h, &GOOD[..1], None), Some(CurveError::KnotCount));
    let eight: Vec<[f64; 2]> = (0..8).map(|i| [i as f64, 1.0]).collect();
    assert_eq!(fault(h, &eight, None), None);
    assert_eq!(fault(h, &eight, Some([9.0, 1.0])), Some(CurveError::KnotCount));
    assert_eq!(fault(h, &GOOD[1..], None), Some(CurveError::FirstKnot));
    assert_eq!(fault(h, &[[0.0, 1.0], [0.3, 1.0], [0.3, 1.0]], None), Some(CurveError::KnotOrder));
    assert_eq!(fault(h, &[[0.0, 1.0], [0.3, 0.0]], None), Some(CurveError::KnotStress));
    // A first knot at minus zero is at zero.
    assert_eq!(fault(h, &[[-0.0, 1.0], [0.3, 2.0]], None), None);
}

#[test]
fn messages_of_curve_errors() {
    let all = [
        (CurveError::DensificationModel, "densification is only supported by the honeycomb model"),
        (CurveError::DensificationRange, "densification needs c_lock > 0 and k_lock >= 0"),
        (CurveError::DensificationBeforeCurve, "densification c_lock must lie beyond the last curve knot"),
        (CurveError::CurveModel, "tabulated yield curve is only supported by the honeycomb model"),
        (CurveError::KnotCount, "yield curve needs 2..=8 knots (one fewer with densification)"),
        (CurveError::FirstKnot, "yield curve must start at compaction 0"),
        (CurveError::KnotOrder, "yield curve compaction must be strictly increasing"),
        (CurveError::KnotStress, "yield curve stresses must be positive"),
    ];
    for (e, text) in all {
        assert_eq!(e.message(), text);
    }
}

#[test]
fn curves_set_the_reported_line() {
    let mut p = plastic(PlasticModel::Honeycomb, &GOOD, None);
    p.normalise(slope).unwrap();
    assert_eq!(num(p.yield_stress), 7000.0);
    assert!((num(p.hardening) - 10000.0).abs() < 1e-9);
    let mut p = plastic(PlasticModel::Honeycomb, &[], None);
    p.normalise(slope).unwrap();
    assert_eq!((num(p.yield_stress), num(p.hardening)), (5.0, 6.0));
    let mut p = plastic(PlasticModel::J2, &GOOD, None);
    assert_eq!(p.normalise(slope), Err(CurveError::CurveModel));
    assert_eq!(num(p.yield_stress), 5.0);
}

#[test]
fn lines_of_the_yield_curve() {
    let p = plastic(PlasticModel::Honeycomb, &GOOD, Some([1.4, 7.0e6]));
    let at = |c: f64| { let b = p.yield_branch(bits(c)); (b.segment, b.locked) };
    assert_eq!(at(0.0), (Some(0), false));
    assert_eq!(at(0.1), (Some(0), false));
    assert_eq!(at(0.2), (Some(1), false));
    assert_eq!(at(0.7), (Some(1), false));
    assert_eq!(at(1.4), (Some(1), false));
    assert_eq!(at(1.5), (Some(1), true));
    let b = plastic(PlasticModel::Honeycomb, &[], None).yield_branch(bits(3.0));
    assert_eq!((b.segment, b.locked), (None, false));
}

#[test]
fn knots_of_a_curve() {
    let m = Material { youngs_modulus: bits(2.0), poisson_ratio: bits(0.0), density: bits(1.0), plasticity: Some(plastic(PlasticModel::Honeycomb, &GOOD, Some([1.5, 7.0]))) };
    let h = HoneycombParams::from_material(&m, slope, lock);
    let k = h.knots.map(|k| k.map(num));
    assert_eq!(k[0][..2], [0.0, 7000.0]);
    assert!((k[0][2] - 10000.0).abs() < 1e-9 && (k[1][2] - 70000.0).abs() < 1e-6);
    assert_eq!(k[2], [0.5, 30000.0, k[1][2]]);
    assert_eq!(k[3][0], 1.5);
    assert!((k[3][1] - 100000.0).abs() < 1e-4 && (k[3][2] - 70007.0).abs() < 1e-4);
    assert!(k[4..].iter().all(|k| *k == [f64::INFINITY, 0.0, 0.0]));
    // The scan finds the segment of the search, up to the last knot.
    let p = m.plasticity.as_ref().unwrap();
    for c in [0.0, 0.05, 0.2, 0.3, 0.49] {
        assert_eq!(Some(h.knot_at(bits(c))), p.yield_branch(bits(c)).segment);
    }
    assert_eq!([0.5, 1.0, 1.5, 9.0].map(|c| h.knot_at(bits(c))), [2, 2, 3, 3]);
    // Both give the same yield stress, on the curve and beyond its lock-up.
    let on = |s: Real, h: Real, c: f64| (bits(num(s) + num(h) * c), h);
    for c in [0.0, 0.1, 0.35, 0.7, 1.4, 2.0] {
        let scan = h.yield_at(bits(c), |k, c| on(k[1], k[2], num(c) - num(k[0])));
        let search = p.yield_at(
            bits(c),
            |s, h, c| on(s, h, num(c)),
            |a, b, c| on(a[1], slope(a, b), num(c) - num(a[0])),
            |(s, h), d, c| (on(s, d[1], num(c) - num(d[0])).0, bits(num(h) + num(d[1]))),
        );
        assert!((num(scan.0) - num(search.0)).abs() < 1e-3 && (num(scan.1) - num(search.1)).abs() < 1e-3);
    }
    assert_eq!(h.knot_at(bits(-1.0)), 0);
    // Where the lock-up begins the stress is the same, and the table has its
    // slope already.
    let scan = h.yield_at(bits(1.5), |k, c| on(k[1], k[2], num(c) - num(k[0])));
    let search = p.yield_at(bits(1.5), |s, h, c| on(s, h, num(c)), |a, b, c| on(a[1], slope(a, b), num(c) - num(a[0])), |r, _, _| r);
    assert!((num(scan.0) - num(search.0)).abs() < 1e-3);
    assert!((num(scan.1) - num(search.1) - 7.0).abs() < 1e-3);
    // A straight line and its table, with a lock-up.
    let m = Material { plasticity: Some(plastic(PlasticModel::Honeycomb, &[], Some([1.5, 8.0]))), ..m };
    let (h, p) = (HoneycombParams::from_material(&m, slope, lock), m.plasticity.as_ref().unwrap());
    for c in [0.0, 1.0, 1.25, 2.0, 3.5] {
        let scan = h.yield_at(bits(c), |k, c| on(k[1], k[2], num(c) - num(k[0])));
        let search = p.yield_at(
            bits(c),
            |s, h, c| on(s, h, num(c)),
            |_, _, _| (bits(0.0), bits(0.0)),
            |(s, h), d, c| (on(s, d[1], num(c) - num(d[0])).0, bits(num(h) + num(d[1]))),
        );
        assert_eq!(scan, search);
    }
}

#[test]
fn straight_lines_take_one_knot() {
    let h = HoneycombParams::new(bits(9.0), bits(3.0), bits(4.0));
    assert_eq!(h.knots[0].map(num), [0.0, 3.0, 4.0]);
    assert_eq!(h.cap_factor.map(num), [1.0; 3]);
    assert_eq!(h.knot_at(bits(100.0)), 0);
    let mut m = Material::honeycomb(bits(9.0), bits(1.0), bits(3.0), bits(4.0));
    assert_eq!(HoneycombParams::from_material(&m, slope, lock), h);
    m.plasticity.as_mut().unwrap().transverse_factor = bits(0.2);
    assert_eq!(HoneycombParams::from_material(&m, slope, lock).cap_factor.map(num), [1.0, 0.2, 0.2]);
}

#[test]
fn materials_by_their_kind() {
    let e = Material::elastic(bits(1.0), bits(0.3), bits(7.0));
    assert!(!e.is_plastic() && e.model().is_none());
    let j = Material::j2(bits(1.0), bits(0.3), bits(7.0), bits(2.0), bits(3.0));
    assert_eq!((j.model(), num(j.poisson_ratio)), (Some(PlasticModel::J2), 0.3));
    let f = Material::crushable_foam(bits(1.0), bits(7.0), bits(2.0), bits(3.0));
    assert_eq!((f.model(), num(f.poisson_ratio)), (Some(PlasticModel::CrushableFoam), 0.0));
    let h = Material::honeycomb(bits(1.0), bits(7.0), bits(2.0), bits(3.0));
    assert_eq!((h.model(), num(h.density)), (Some(PlasticModel::Honeycomb), 7.0));
    assert_eq!(PlasticModel::default(), PlasticModel::Honeycomb);
}

#[test]
fn honeycomb_with_a_curve() {
    let curve = |k: &[[f64; 2]]| k.iter().map(|k| k.map(bits)).collect::<Vec<_>>();
    let m = Material::honeycomb_curve(bits(1.0), bits(2.0), curve(&GOOD), Some([bits(1.4), bits(7e6)]), slope).unwrap();
    let p = m.plasticity.unwrap();
    assert_eq!((num(p.yield_stress), p.curve.len(), p.model), (7000.0, 3, PlasticModel::Honeycomb));
    assert_eq!(Material::honeycomb_curve(bits(1.0), bits(2.0), curve(&GOOD[1..]), None, slope).unwrap_err(), CurveError::FirstKnot);
}

#[test]
fn scaling_keeps_compactions() {
    let m = Material { youngs_modulus: bits(8.0), poisson_ratio: bits(0.25), density: bits(2.0), plasticity: Some(plastic(PlasticModel::Honeycomb, &GOOD, Some([1.5, 7.0]))) };
    let s = m.scaled(|x| bits(2.0 * num(x)));
    assert_eq!((num(s.youngs_modulus), num(s.poisson_ratio), num(s.density)), (16.0, 0.25, 4.0));
    let p = s.plasticity.unwrap();
    assert_eq!((num(p.yield_stress), num(p.hardening), num(p.transverse_factor)), (10.0, 12.0, 1.0));
    assert_eq!(p.curve[2].map(num), [0.5, 60000.0]);
    assert_eq!(p.densification.unwrap().map(num), [1.5, 14.0]);
}

#[test]
fn stresses_in_voigt_order() {
    let s = [1.0, 2.0, 3.0, 4.0, 5.0, 6.0].map(bits);
    let t = voigt_to_tensor(&s);
    assert_eq!(t.map(|r| r.map(num)), [[1.0, 4.0, 6.0], [4.0, 2.0, 5.0], [6.0, 5.0, 3.0]]);
    assert_eq!(tensor_to_voigt(&t), s);
}

#[test]
fn stresses_within_caps() {
    let s = [-9.0, 0.5, 4.0, -3.0, 1.0, 2.5].map(bits);
    let r = cap_stresses(&s, &[2.0, 3.0, 4.0].map(bits), bits(2.0));
    assert_eq!(r.map(num), [-2.0, 0.5, 4.0, -2.0, 1.0, 2.0]);
    assert_eq!(compacting(&[2.5, 3.0, -9.0].map(bits), &[2.0, 3.0, 4.0].map(bits)), [true, false, false]);
}

#[test]
fn foam_strains() {
    let f = |x: f64| { let (s, e) = foam_strain(bits(x), bits(0.1)); (s, num(e)) };
    assert_eq!(f(-0.2), (Side::Crushed, -0.1));
    assert_eq!(f(-0.1), (Side::Elastic, -0.1));
    assert_eq!(f(0.05), (Side::Elastic, 0.05));
    assert_eq!(f(0.2), (Side::Stretched, 0.1));
}

#[test]
fn straight_line_yields() {
    let p = plastic(PlasticModel::Honeycomb, &[], None);
    let (s, h) = p.yield_at(bits(2.0), |s, h, c| (bits(num(s) + num(h) * num(c)), h), |_, _, _| (bits(0.0), bits(0.0)), |_, _, _| (bits(0.0), bits(0.0)));
    assert_eq!((num(s), num(h)), (17.0, 6.0));
}

#[test]
fn iterations_stop_when_close() {
    let halve = |x: f64| x / 2.0;
    assert_eq!(iterate(16.0, 50, halve, |a, b: f64| a - b < 1.5), 1.0);
    assert_eq!(iterate(16.0, 3, halve, |_, _| false), 2.0);
    assert_eq!(iterate(16.0, 0, halve, |_, _| true), 16.0);
    // The first step is taken though it changes nothing.
    assert_eq!(iterate(0.0, 3, halve, |a, b| a == b), 0.0);
}

#[test]
fn strain_matrix_of_gradients() {
    let mut grad = [[0.0f64; 3]; 8];
    for (i, g) in grad.iter_mut().enumerate() {
        *g = [10.0 * i as f64 + 1.0, 10.0 * i as f64 + 2.0, 10.0 * i as f64 + 3.0];
    }
    let b = b_matrix(&grad, 0.0);
    for (i, [x, y, z]) in grad.into_iter().enumerate() {
        let rows: Vec<[f64; 3]> = (0..6).map(|r| [b[r][3 * i], b[r][3 * i + 1], b[r][3 * i + 2]]).collect();
        assert_eq!(rows, vec![[x, 0.0, 0.0], [0.0, y, 0.0], [0.0, 0.0, z], [y, x, 0.0], [0.0, z, y], [z, 0.0, x]]);
    }
}

const SOME: [f64; 14] = [0.0, -0.0, 1.0, -1.0, 0.1, 1e300, -1e300, 5e-324, -5e-324, 3e-308, f64::INFINITY, f64::NEG_INFINITY, f64::NAN, 2.5e-308];

#[test]
fn numbers_compare_as_floats() {
    for a in SOME {
        assert_eq!(bits(a).is_nan(), a.is_nan());
        assert_eq!(bits(a).is_finite(), a.is_finite());
        assert_eq!(bits(a).neg().bits, (-a).to_bits());
        if !a.is_nan() {
            assert_eq!(bits(a).half().bits, (0.5 * a).to_bits());
        }
        for b in SOME {
            assert_eq!(bits(a).lt(bits(b)), a < b);
            assert_eq!(bits(a).le(bits(b)), a <= b);
            assert_eq!(bits(a).same(bits(b)), a == b);
            let (least, most) = (num(bits(a).min(bits(b))), num(bits(a).max(bits(b))));
            assert!(least == a.min(b) || (least.is_nan() && a.min(b).is_nan()));
            assert!(most == a.max(b) || (most.is_nan() && a.max(b).is_nan()));
            let (x, y) = (a as f32, b as f32);
            let (p, q) = (Single { bits: x.to_bits() }, Single { bits: y.to_bits() });
            assert_eq!((p.lt(q), p.le(q)), (x < y, x <= y));
        }
    }
    // Halves below the normal range go to the even neighbour.
    for m in [1u64, 3, 5, 0x1f_ffff_ffff_ffff, 0x0f_ffff_ffff_ffff] {
        assert_eq!(Real { bits: m }.half().bits, (0.5 * f64::from_bits(m)).to_bits());
    }
}

#[test]
fn numbers_in_lists() {
    let v: Vec<Real> = [3.0, 1.0, 4.0, 1.0, 4.0].iter().map(|x| bits(*x)).collect();
    assert_eq!((first_min(&v), last_max(&v)), (1, 4));
    assert_eq!(num(fold_min(bits(2.0), &v)), 1.0);
    assert_eq!(num(fold_min(bits(0.5), &v)), 0.5);
    assert_eq!((num(fold_max(bits(0.5), &v)), num(fold_max(bits(9.0), &v))), (4.0, 9.0));
    assert_eq!(num(fold_min(bits(7.0), &vec![bits(f64::NAN), bits(8.0)])), 7.0);
    assert_eq!(num(bits(5.0).clamp(bits(0.0), bits(1.0))), 1.0);
    for (s, p) in [([1.0, 2.0, 3.0], [0, 1, 2]), ([3.0, 2.0, 1.0], [2, 1, 0]), ([2.0, 3.0, 1.0], [2, 0, 1]), ([1.0, 1.0, 0.0], [2, 0, 1]), ([2.0, 1.0, 2.0], [1, 0, 2]), ([3.0, 1.0, 2.0], [1, 2, 0]), ([1.0, 3.0, 2.0], [0, 2, 1])] {
        assert_eq!(sort_three(&s.map(bits)), p);
    }
    assert_eq!(largest_of_three(bits(2.0), bits(2.0), bits(1.0)), 0);
    assert_eq!(largest_of_three(bits(1.0), bits(2.0), bits(2.0)), 1);
    assert_eq!(largest_of_three(bits(1.0), bits(0.0), bits(2.0)), 2);
}
