use crushrs::number::Real;
use crushrs::signal::file_list;
use crushrs::tune::{central_span, curve_list, default_coverage, default_iterations, default_rear_speed, default_restitution, default_rounds, default_side_speed, inside_cells, stages, FrontalSpec, RailBoxPlan, RailBoxSpec, TuneError, TuneReport, TuneStage};

fn bits(x: f64) -> Real {
    Real { bits: x.to_bits() }
}

fn num(r: Real) -> f64 {
    f64::from_bits(r.bits)
}

fn reals(v: &[f64]) -> Vec<Real> {
    v.iter().map(|x| bits(*x)).collect()
}

fn sums(w: &[f64]) -> (Vec<Real>, Vec<Real>) {
    let mut acc = 0.0;
    let mut start = vec![];
    for x in w {
        acc += x;
        start.push(bits(acc));
    }
    let mut acc = 0.0;
    let mut end = vec![bits(0.0); w.len()];
    for k in (0..w.len()).rev() {
        acc += w[k];
        end[k] = bits(acc);
    }
    (start, end)
}

fn span(w: &[f64], tail: f64) -> (usize, usize) {
    let (start, end) = sums(w);
    central_span(&start, &end, bits(tail))
}

#[test]
fn wall_reduction_finds_the_rails() {
    // A 4 × 9 NCAP wall, cells 0.234 × 0.246 m from 0.08 m up, with all the
    // force in row 1 on columns 2 and 6 (the rails) plus a little everywhere.
    let width_of_neon = 1.71;
    let (rows, cols) = (4, 9);
    let cell = [0.234, 0.246];
    let bottom = 0.08;
    let coverage = 0.8;
    let mut f = vec![0.25; rows * cols];
    f[1 * cols + 2] = 40.0;
    f[1 * cols + 6] = 40.0;
    let total = 80.0 + 0.25 * 34.0;
    let sum: f64 = f.iter().sum();
    let tail = 0.5 * (1.0 - coverage) * sum;
    let by_column: Vec<f64> = (0..cols).map(|c| (0..rows).map(|r| f[r * cols + c]).sum()).collect();
    let by_row: Vec<f64> = (0..rows).map(|r| (0..cols).map(|c| f[r * cols + c]).sum()).collect();
    let wall = cols as f64 * cell[0];
    let (c0, c1) = span(&by_column, tail);
    let (r0, r1) = span(&by_row, tail);
    let (y0, y1) = (-0.5 * wall + c0 as f64 * cell[0], -0.5 * wall + (c1 + 1) as f64 * cell[0]);
    let (z0, z1) = (bottom + r0 as f64 * cell[1], bottom + (r1 + 1) as f64 * cell[1]);
    // Row 1 spans 0.326–0.572 m; columns 2..=6 span ±0.585 m.
    assert!((z0 - 0.326).abs() < 1e-6 && (z1 - 0.572).abs() < 1e-6);
    let width = (2.0 * y0.abs().max(y1.abs())).min(width_of_neon);
    assert!((width - 1.17).abs() < 1e-6);
    let across: Vec<f64> = (0..cols).map(|c| (-0.5 * wall + (c as f64 + 0.5) * cell[0]).abs()).collect();
    let up: Vec<f64> = (0..rows).map(|r| bottom + (r as f64 + 0.5) * cell[1]).collect();
    let inside = inside_cells(&reals(&across), bits(0.5 * width), &reals(&up), (bits(z0), bits(z1)));
    // The rails and the 3 background cells between them fall inside.
    assert_eq!(inside, vec![11, 12, 13, 14, 15]);
    let fraction = inside.iter().map(|k| f[*k]).sum::<f64>() / sum;
    assert!((fraction.clamp(0.05, 0.95) - (80.0 + 0.75) / total).abs() < 1e-6);
}

#[test]
fn central_span_leaves_the_tails_out() {
    assert_eq!(span(&[1.0, 1.0, 8.0, 1.0], 1.0), (1, 2));
    assert_eq!(span(&[1.0, 1.0, 8.0, 1.0], 0.5), (0, 3));
    assert_eq!(span(&[1.0, 1.0, 8.0, 1.0], 2.0), (2, 2));
    // Never nothing.
    assert_eq!(span(&[1.0, 1.0, 1.0], 100.0), (2, 2));
    assert_eq!(span(&[1.0], 100.0), (0, 0));
    assert_eq!(span(&[0.0, 5.0, 0.0], 0.0), (1, 1));
}

#[test]
fn no_cell_inside_a_box_of_no_width() {
    assert_eq!(inside_cells(&reals(&[0.0, 1.0]), bits(0.0), &reals(&[1.0]), (bits(0.0), bits(2.0))), vec![]);
    assert_eq!(inside_cells(&reals(&[0.0, 1.0]), bits(2.0), &reals(&[]), (bits(0.0), bits(2.0))), vec![]);
    // Centres on the edge are not inside.
    assert_eq!(inside_cells(&reals(&[0.0, 1.0]), bits(1.0), &reals(&[0.0, 1.0, 2.0]), (bits(0.0), bits(2.0))), vec![2]);
}

#[test]
fn tuning_defaults() {
    assert_eq!(default_iterations(), 10);
    assert_eq!(default_rounds(), 8);
    assert_eq!(num(default_coverage()), 0.8);
    assert_eq!(num(default_restitution()), 0.12);
    assert_eq!(num(default_side_speed()), 45.0);
    assert_eq!(num(default_rear_speed()), 35.0);
}

fn spec() -> RailBoxSpec {
    RailBoxSpec { rows: 0, columns: 0, cell_size: None, wall_bottom: bits(0.0), cells: vec![], coverage: bits(0.8), ahof: None, width: None, z_range: None, force_fraction: None }
}

fn refused(s: &RailBoxSpec, crush_zone: bool) -> String {
    s.plan(crush_zone).unwrap_err().message()
}

#[test]
fn rail_box_from_the_first_source_given() {
    let mut s = spec();
    assert_eq!(refused(&s, false), "rail_box needs a frontal pulse fit (a crush zone) to carry it");
    assert_eq!(refused(&s, true), "rail_box needs cells (+ rows, columns, cell_size, wall_bottom), ahof, or width + z_range + force_fraction");
    s.width = Some(bits(0.45));
    s.z_range = Some([bits(0.06), bits(0.41)]);
    assert_eq!(s.plan(true).unwrap_err(), TuneError::NoRailBox);
    s.force_fraction = Some(bits(0.8));
    match s.plan(true) {
        Ok(RailBoxPlan::Given(b)) => {
            assert_eq!((num(b.width), num(b.z_range[1]), num(b.force_fraction)), (0.45, 0.41, 0.8));
        }
        other => panic!("{:?}", other),
    }
    s.ahof = Some(bits(0.5));
    assert!(matches!(s.plan(true), Ok(RailBoxPlan::About(h)) if num(h) == 0.5));
    s.cells = vec!["a".to_string(), "b".to_string()];
    assert_eq!(refused(&s, true), "rail_box.cell_size is needed with cells");
    s.cell_size = Some([bits(0.2), bits(0.3)]);
    s.rows = 3;
    s.columns = 4;
    assert_eq!(refused(&s, true), "rail_box: 2 cells for 3 rows × 4 columns");
    s.rows = usize::MAX;
    s.columns = usize::MAX;
    assert_eq!(s.plan(true).unwrap_err(), TuneError::CellCount { cells: 2, rows: usize::MAX, columns: usize::MAX });
    s.rows = 1;
    s.columns = 2;
    assert!(matches!(s.plan(true), Ok(RailBoxPlan::Wall(c)) if num(c[1]) == 0.3));
    assert_eq!(s.plan(false).unwrap_err(), TuneError::NoCrushZone);
}

#[test]
fn stages_in_their_order() {
    let curves = vec!["x".to_string()];
    assert_eq!(stages(&vec![], true, true, true).unwrap_err().message(), "frontal.curves is empty: name the NCAP accelerometer channel(s)");
    assert_eq!(stages(&curves, false, false, false).unwrap(), vec![TuneStage::Frontal]);
    assert_eq!(stages(&curves, true, true, true).unwrap(), vec![TuneStage::Frontal, TuneStage::Side, TuneStage::Rear, TuneStage::RailBox]);
    assert_eq!(stages(&curves, false, true, false).unwrap(), vec![TuneStage::Frontal, TuneStage::Rear]);
}

#[test]
fn curve_list_reads_back() {
    assert_eq!(curve_list(&vec![]).unwrap_err().message(), "no curves");
    let files: Vec<String> = ["data/v1.078", "data/v1.079", "x"].iter().map(|s| s.to_string()).collect();
    let list = curve_list(&files).unwrap();
    assert_eq!(list, "data/v1.078,data/v1.079,x");
    assert_eq!(file_list(&list), files);
    assert_eq!(curve_list(&vec!["one".to_string()]).unwrap(), "one");
}

#[test]
fn report_keeps_its_lines() {
    let mut r = TuneReport::default();
    assert!(r.lines.is_empty());
    r.say("a".to_string());
    r.say("b".to_string());
    assert_eq!(r.lines, vec!["a", "b"]);
}

#[test]
fn frontal_fit_starts_from_what_is_given() {
    let times = |a: Real, b: Real| bits(num(a) * num(b));
    let none = FrontalSpec { mass: None, crush_zone_length: None, crush_element_size: None, crush_zone_mass: None, bumper: None, modulus: None, body_modulus: None };
    let s = none.start(bits(1354.0), bits(4.36), times);
    assert_eq!(num(s.mass), 1354.0);
    assert_eq!(num(s.crush_zone_length), 0.35 * 4.36);
    assert_eq!(num(s.crush_element_size), 0.1);
    assert_eq!(num(s.crush_zone_mass), 0.14 * 1354.0);
    assert_eq!(s.bumper.map(num), [0.1, 0.02 * 1354.0, 3.0e8]);
    assert_eq!((num(s.modulus), num(s.body_modulus)), (4e6, 2.7e8));
    let all = FrontalSpec {
        mass: Some(bits(1400.0)),
        crush_zone_length: Some(bits(1.5)),
        crush_element_size: Some(bits(0.2)),
        crush_zone_mass: Some(bits(190.0)),
        bumper: Some([bits(0.3), bits(25.0), bits(2.0e8)]),
        modulus: Some(bits(5.0e6)),
        body_modulus: Some(bits(2.0e8)),
    };
    let s = all.start(bits(1354.0), bits(4.36), times);
    assert_eq!((num(s.mass), num(s.crush_zone_length), num(s.crush_element_size), num(s.crush_zone_mass)), (1400.0, 1.5, 0.2, 190.0));
    assert_eq!(s.bumper.map(num), [0.3, 25.0, 2.0e8]);
    assert_eq!((num(s.modulus), num(s.body_modulus)), (5.0e6, 2.0e8));
    // The test weight leaves the shares of the vehicle's mass alone.
    let s = FrontalSpec { mass: Some(bits(1400.0)), ..none }.start(bits(1354.0), bits(4.36), times);
    assert_eq!((num(s.mass), num(s.crush_zone_mass)), (1400.0, 0.14 * 1354.0));
}
