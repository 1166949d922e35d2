use crushrs::kernel::{accumulate, element_dofs, erode_inverted, mass_scaling, split_elements, stable_time_step, StateKind, StepLimit};
use crushrs::kernel_simd::{above, clamp, erode, is_avx2, knots_in_force, lane_forces, max, select, Block, Blocks, LaneData, LaneState, StateRows, L};
use crushrs::material::Material;
use crushrs::number::{Real, Single};

fn bits(x: f64) -> Real {
    Real { bits: x.to_bits() }
}

fn single(x: f32) -> Single {
    Single { bits: x.to_bits() }
}

fn lanes(x: [f32; 8]) -> [Single; 8] {
    x.map(single)
}

fn floats(x: [Single; 8]) -> [f32; 8] {
    x.map(|s| f32::from_bits(s.bits))
}

fn materials() -> Vec<Material> {
    let one = bits(1.0);
    vec![Material::honeycomb(one, one, one, one), Material::elastic(one, one, one), Material::j2(one, one, one, one, one)]
}

#[test]
fn elements_between_the_kernels() {
    let m = materials();
    assert_eq!(m.iter().map(StateKind::of).collect::<Vec<_>>(), vec![StateKind::Rate, StateKind::Elastic, StateKind::Hencky]);
    let s = split_elements(&m, &vec![0, 1, 0, 2, 0], true);
    assert_eq!((s.simd_ids, s.scalar_ids), (vec![0, 2, 4], vec![1, 3]));
    let s = split_elements(&m, &vec![0, 1, 0], false);
    assert_eq!((s.simd_ids, s.scalar_ids), (vec![], vec![0, 1, 2]));
}

#[test]
fn degrees_of_freedom_of_an_element() {
    let d = element_dofs(&[5, 0, 1, 2, 3, 4, 6, 9]);
    assert_eq!(d[..6], [15, 16, 17, 0, 1, 2]);
    assert_eq!(d[21..], [27, 28, 29]);
}

#[test]
fn stable_step_is_the_least() {
    let l = |length: f64, volume: f64, step: f64| StepLimit { length: bits(length), volume: bits(volume), step: bits(step) };
    let all = vec![l(1.0, 1.0, 5.0), l(1.0, 1.0, 2.0), l(f64::INFINITY, 1.0, 0.5), l(1.0, 0.0, 0.25), l(1.0, 1.0, 1.0)];
    assert_eq!(stable_time_step(&vec![false; 5], &all), Some(bits(1.0)));
    assert_eq!(stable_time_step(&vec![false, false, false, false, true], &all), Some(bits(2.0)));
    assert_eq!(stable_time_step(&vec![true, true, false, false, true], &all), None);
    assert_eq!(stable_time_step(&vec![], &vec![]), None);
}

#[test]
fn forces_are_added_at_their_places() {
    let mut f = vec![1.0, 2.0, 3.0, 4.0];
    accumulate(&|a: f64, b: f64| a + b, &vec![2, 0, 2], &vec![10.0, 20.0, 30.0], &mut f);
    assert_eq!(f, vec![21.0, 2.0, 43.0, 4.0]);
}

#[test]
fn inverted_elements_are_eroded() {
    let mut eroded = vec![false, true, false, false, false];
    assert_eq!(erode_inverted(&vec![1, 2, 4], &vec![true, false, true], &mut eroded), 1);
    assert_eq!(eroded, vec![false, true, false, false, true]);
    assert_eq!(erode_inverted(&vec![1, 2, 4], &vec![false; 3], &mut eroded), 0);
    assert_eq!(eroded, vec![false, true, false, false, true]);
}

#[test]
fn mass_goes_to_elements_below_the_floor() {
    let l = |step: f64| StepLimit { length: bits(1.0), volume: bits(1.0), step: bits(step) };
    let all = vec![l(5.0), l(2.0), l(0.0), l(-1.0), l(f64::NAN), l(1.0), l(3.0)];
    let mut eroded = vec![false; 7];
    assert_eq!(mass_scaling(&eroded, &all, bits(3.0)), vec![1, 5]);
    eroded[1] = true;
    assert_eq!(mass_scaling(&eroded, &all, bits(3.0)), vec![5]);
    // The stability limit is not below the floor: nothing is added.
    let fine = vec![l(5.0), l(3.0)];
    assert_eq!(stable_time_step(&vec![false; 2], &fine), Some(bits(3.0)));
    assert_eq!(mass_scaling(&vec![false; 2], &fine, bits(3.0)), vec![]);
}

fn lane(k: usize) -> LaneData<f32> {
    let x = 100.0 * k as f32;
    LaneData {
        conn: std::array::from_fn(|i| (10 * k + i) as u32),
        grad: std::array::from_fn(|i| x + i as f32),
        volume: x + 1.0,
        gamma: [x; 32],
        h: std::array::from_fn(|i| x + 0.5 * i as f32),
        youngs: x + 2.0,
        yield0: x + 3.0,
        hard: x + 4.0,
        trans: x + 5.0,
        knot_c: [x; 8],
        knot_s: [x; 8],
        knot_h: [x; 8],
        state: LaneState { f_prev_inv: std::array::from_fn(|i| x + 0.25 * i as f32), rotation: [x; 9], stress: std::array::from_fn(|i| x - i as f32), compaction: x + 6.0 },
        eroded: k % 3 == 0,
    }
}

#[test]
fn elements_in_lanes() {
    assert_eq!(L, 8);
    let all: Vec<LaneData<f32>> = (0..10).map(lane).collect();
    let b = Blocks::build(&all, 0.0, 1.0, f32::INFINITY);
    assert_eq!(b.blocks.iter().map(|b| b.count).collect::<Vec<_>>(), vec![8, 2]);
    for k in 0..10 {
        let (block, l) = (&b.blocks[k / 8], k % 8);
        assert_eq!(block.conn[l], all[k].conn);
        assert_eq!(std::array::from_fn::<f32, 24, _>(|i| block.grad[i][l]), all[k].grad);
        assert_eq!((block.volume[l], block.youngs[l], block.trans[l]), (all[k].volume, all[k].youngs, all[k].trans));
        // What is stored of a lane's state comes back.
        let (s, t) = (b.state(k), all[k].state);
        assert_eq!((s.f_prev_inv, s.rotation, s.stress, s.compaction), (t.f_prev_inv, t.rotation, t.stress, t.compaction));
    }
    // Padding counts as eroded, but is no element.
    assert!(b.blocks[1].eroded[2..].iter().all(|e| *e));
    assert_eq!(b.eroded_count(), 4);
    let ids: Vec<usize> = (0..10).map(|k| 11 - k).collect();
    let mut eroded = vec![true; 12];
    b.mirror_erosion(&ids, &mut eroded);
    for k in 0..10 {
        assert_eq!(eroded[11 - k], k % 3 == 0);
    }
    assert!(eroded[0] && eroded[1]);
    assert_eq!(Blocks::<f32>::build(&vec![], 0.0, 1.0, f32::INFINITY).blocks.len(), 0);
}

#[test]
fn a_step_changes_the_lanes_that_take_part() {
    let all: Vec<LaneData<f32>> = (0..6).map(lane).collect();
    let mut b = Blocks::build(&all, 0.0, 1.0, f32::INFINITY).blocks.remove(0);
    let before = b.clone();
    let row = |k: usize| std::array::from_fn(|l| -((10 * k + l) as f32));
    let next = StateRows { f_prev_inv: std::array::from_fn(row), rotation: std::array::from_fn(|k| row(k + 9)), stress: std::array::from_fn(|k| row(k + 18)), compaction: row(24) };
    // Elements 0 and 3 are eroded, 4 inverts; 6 and 7 are padding.
    let det = lanes([1.0, 1.0, 1.0, 1.0, -1.0, 1.0, 1.0, 1.0]);
    let active = erode(&mut b.eroded, &det, b.count);
    b.commit(&active, &next);
    for l in 0..8 {
        let (now, was) = (b.lane_state(l), before.lane_state(l));
        if l == 1 || l == 2 || l == 5 {
            assert_eq!(now.f_prev_inv, std::array::from_fn(|k| next.f_prev_inv[k][l]));
            assert_eq!(now.rotation, std::array::from_fn(|k| next.rotation[k][l]));
            assert_eq!(now.stress, std::array::from_fn(|k| next.stress[k][l]));
            assert_eq!(now.compaction, next.compaction[l]);
        } else {
            assert_eq!((now.f_prev_inv, now.rotation, now.stress, now.compaction), (was.f_prev_inv, was.rotation, was.stress, was.compaction));
        }
    }
    assert_eq!(b.eroded, [true, false, false, true, true, false, true, true]);
    assert_eq!((b.grad, b.volume, b.conn, b.count), (before.grad, before.volume, before.conn, before.count));
}

#[test]
fn a_block_without_elements() {
    let b = Block::empty(0.0f32, 1.0, f32::INFINITY);
    assert_eq!((b.count, b.eroded), (0, [true; 8]));
    assert_eq!(b.lane_state(3).rotation, [1.0, 0.0, 0.0, 0.0, 1.0, 0.0, 0.0, 0.0, 1.0]);
    assert_eq!(b.knot_c[7], [f32::INFINITY; 8]);
}

#[test]
fn lanes_by_operation() {
    let a = lanes([1.0, -2.0, 3.0, 0.0, 5.0, f32::NAN, 7.0, -8.0]);
    let b = lanes([0.5, -1.0, 3.0, 0.0, 9.0, 2.0, 7.5, -9.0]);
    assert_eq!(floats(max(&a, &b)), [1.0, -1.0, 3.0, 0.0, 9.0, 2.0, 7.5, -8.0]);
    assert_eq!(above(&a, &b), [true, false, false, false, false, false, false, true]);
    let m = [true, false, true, false, true, false, true, false];
    assert_eq!(floats(select(&m, &b, &lanes([0.0; 8]))), [0.5, 0.0, 3.0, 0.0, 9.0, 0.0, 7.5, 0.0]);
    assert_eq!(floats(clamp(&a, &lanes([-2.5; 8]), &lanes([2.5; 8]))), [1.0, -2.0, 2.5, 0.0, 2.5, -2.5, 2.5, -2.5]);
}

#[test]
fn erosion_of_inverted_lanes() {
    let mut eroded = [false, true, false, false, true, true, true, true];
    let det = lanes([1.0, 1.0, 0.0, -1.0, 1.0, -1.0, -1.0, 1.0]);
    let active = erode(&mut eroded, &det, 4);
    assert_eq!(eroded, [false, true, true, true, true, true, true, true]);
    assert_eq!(active, [true, false, false, false, false, false, false, false]);
    // An eroded element stays so when its volume is positive again.
    let active = erode(&mut eroded, &lanes([1.0; 8]), 4);
    assert_eq!(eroded[..4], [false, true, true, true]);
    assert_eq!(active[..4], [true, false, false, false]);
    // A determinant that is no number erodes nothing.
    assert_eq!(erode(&mut [false; 8], &lanes([f32::NAN; 8]), 8), [true; 8]);
}

#[test]
fn knots_in_each_lane() {
    let inf = f32::INFINITY;
    let mut knots = [lanes([inf; 8]); 8];
    knots[0] = lanes([0.0; 8]);
    knots[1] = lanes([0.1, 0.2, 0.3, 0.4, 0.5, 0.6, inf, 0.8]);
    knots[2] = lanes([0.2, 0.4, 0.6, inf, inf, inf, inf, inf]);
    let r = knots_in_force(&lanes([0.2, 0.2, 0.2, 0.5, 0.4, 9.0, 9.0, f32::NAN]), &knots);
    assert_eq!(r, [2, 1, 0, 1, 0, 1, 0, 0]);
}

#[test]
fn forces_of_active_lanes() {
    let f: [[f32; 8]; 24] = std::array::from_fn(|k| std::array::from_fn(|l| (10 * k + l) as f32));
    let mut out = [[-1.0f32; 24]; 8];
    lane_forces(&[true, false, true, true, true, true, true, false], &f, 0.0, &mut out);
    assert_eq!((out[2][0], out[2][23]), (2.0, 232.0));
    assert_eq!((out[1], out[7]), ([0.0; 24], [0.0; 24]));
}

#[test]
fn fast_kernel_needs_both_features() {
    assert!(is_avx2(true, true, true));
    assert!(!is_avx2(false, true, true) && !is_avx2(true, false, true) && !is_avx2(true, true, false));
}
