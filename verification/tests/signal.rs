use crushrs::model::Accelerometer;
use crushrs::number::Real;
use crushrs::signal::{cfc_filter, crush_window, extremes, file_list, filter_padding, integrate as running, locate, max_crush, resample, tsv_rows, HistoryError, Place, Pulse};
use crushrs::solver::NodeHistory;

fn bits(x: f64) -> Real {
    Real { bits: x.to_bits() }
}

fn num(r: Real) -> f64 {
    f64::from_bits(r.bits)
}

fn reals(v: &[f64]) -> Vec<Real> {
    v.iter().map(|x| bits(*x)).collect()
}

fn nums(v: &[Real]) -> Vec<f64> {
    v.iter().map(|x| num(*x)).collect()
}

fn parse(text: &str, in_g: bool) -> Result<Pulse, String> {
    let rows = tsv_rows(text);
    let number = |s: &Option<String>| s.as_ref().and_then(|s| s.parse::<f64>().ok());
    let numbers = rows.iter().map(|r| (number(&r.time).map(bits), number(&r.value).map(|a| bits(if in_g { a * 9.81 } else { a })))).collect();
    Pulse::parse_tsv(&rows, &numbers).map_err(|e| e.message())
}

fn integrate(t: &[f64], y: &[f64], y0: f64) -> Vec<f64> {
    running(y.len(), y0, |acc, i| acc + 0.5 * (y[i] + y[i - 1]) * (t[i] - t[i - 1]))
}

fn filter(x: &[f64], dt: f64, cfc: f64) -> Vec<f64> {
    let wd = 2.0 * std::f64::consts::PI * cfc * 2.0775;
    let wa = (wd * dt / 2.0).tan();
    let s2 = 2.0_f64.sqrt();
    let den = 1.0 + s2 * wa + wa * wa;
    let a0 = wa * wa / den;
    let b1 = -2.0 * (wa * wa - 1.0) / den;
    let b2 = (-1.0 + s2 * wa - wa * wa) / den;
    let step = |x: [f64; 3], y: [f64; 2]| a0 * x[0] + 2.0 * a0 * x[1] + a0 * x[2] + b1 * y[0] + b2 * y[1];
    cfc_filter(&x.to_vec(), (3.0 / (cfc * dt)).ceil() as usize, |end, y| 2.0 * end - y, step)
}

#[test]
fn cfc60_passes_dc_and_kills_1khz() {
    let dt = 1e-4;
    let t: Vec<f64> = (0..5000).map(|i| i as f64 * dt).collect();
    let x: Vec<f64> = t.iter().map(|t| 10.0 + 5.0 * (2.0 * std::f64::consts::PI * 1000.0 * t).sin()).collect();
    let y = filter(&x, dt, 60.0);
    let mid = &y[1000..4000];
    let max_dev = mid.iter().map(|v| (v - 10.0).abs()).fold(0.0, f64::max);
    assert!(max_dev < 0.05, "1 kHz ripple left: {}", max_dev);
    // -3 dB near 100 Hz.
    let x100: Vec<f64> = t.iter().map(|t| (2.0 * std::f64::consts::PI * 100.0 * t).sin()).collect();
    let y100 = filter(&x100, dt, 60.0);
    let amp = y100[1000..4000].iter().map(|v| v.abs()).fold(0.0, f64::max);
    assert!((amp - 0.707).abs() < 0.05, "100 Hz gain {}", amp);
}

#[test]
fn integrals_start_at_the_first_value() {
    assert_eq!(integrate(&[0.0, 1.0, 3.0], &[1.0, 3.0, 5.0], 10.0), vec![10.0, 12.0, 20.0]);
    assert_eq!(integrate(&[], &[], 7.0), vec![7.0]);
}

#[test]
fn filter_pads_by_reflection() {
    // A filter that takes the newest sample gives the signal back. One that
    // delays by a sample draws in the images beyond the ends: -3 on the way
    // forth, which the way back drops again, and 14 on the way back.
    let x = vec![1.0, 5.0, 2.0, 8.0, 3.0];
    assert_eq!(cfc_filter(&x, 2, |end, y| 2.0 * end - y, |x: [f64; 3], _| x[0]), x);
    assert_eq!(cfc_filter(&x, 2, |end, y| 2.0 * end - y, |x: [f64; 3], _| x[1]), vec![1.0, 5.0, 2.0, 8.0, 14.0]);
    // What comes out before is carried on.
    let held = cfc_filter(&x, 1, |end, y| 2.0 * end - y, |_, y: [f64; 2]| y[0]);
    assert_eq!(held, vec![1.0; 5]);
    // Fewer than four samples stay.
    assert_eq!(cfc_filter(&vec![1.0, 2.0, 3.0], 9, |_, _| 0.0, |_: [f64; 3], _| 0.0), vec![1.0, 2.0, 3.0]);
}

#[test]
fn filter_passes_a_constant_and_is_linear() {
    // Coefficients and samples whose sums and products are exact.
    let step = |x: [f64; 3], y: [f64; 2]| 0.25 * x[0] + 0.5 * x[1] + 0.25 * x[2] + 0.5 * y[0] - 0.5 * y[1];
    let run = |x: &Vec<f64>| cfc_filter(x, 3, |end, y| 2.0 * end - y, step);
    let flat = vec![7.0; 9];
    assert_eq!(run(&flat), flat);
    let x = vec![1.0, 5.0, 2.0, 8.0, 3.0, -4.0];
    let y = vec![0.0, -2.0, 6.0, 1.0, 1.0, 9.0];
    let z: Vec<f64> = x.iter().zip(&y).map(|(a, b)| 2.0 * a - 3.0 * b).collect();
    let blend: Vec<f64> = run(&x).iter().zip(&run(&y)).map(|(a, b)| 2.0 * a - 3.0 * b).collect();
    assert_eq!(run(&z), blend);
    assert_ne!(run(&x), x);
    // With round-off both hold nearly.
    let (dt, n) = (1e-4, 3000);
    let wave = |f: f64| -> Vec<f64> { (0..n).map(|i| (f * i as f64 * dt).sin()).collect() };
    let (x, y) = (wave(90.0), wave(700.0));
    let z: Vec<f64> = x.iter().zip(&y).map(|(a, b)| 0.3 * a - 1.7 * b).collect();
    let (fx, fy, fz) = (filter(&x, dt, 60.0), filter(&y, dt, 60.0), filter(&z, dt, 60.0));
    assert!((0..n).all(|i| (fz[i] - (0.3 * fx[i] - 1.7 * fy[i])).abs() < 1e-9));
    assert!(filter(&vec![9.81; n], dt, 60.0).iter().all(|v| (v - 9.81).abs() < 1e-9));
    // One that damps does not keep a constant.
    assert_ne!(cfc_filter(&flat, 3, |end, y| 2.0 * end - y, |x: [f64; 3], _| 0.5 * x[0]), flat);
}

#[test]
fn parse_and_integrate_tsv() {
    let text = "-0.001\t-0.1\r\n0\t0\n0.001\t-1\n0.002\t-1\n0.003\t-1\n0.004\t-1\n";
    let p = parse(text, true).unwrap();
    assert_eq!(p.time.len(), 5);
    let t = nums(&p.time);
    let dt = (t[4] - t[0]) / 4.0;
    assert!((dt - 0.001).abs() < 1e-12);
    let v = integrate(&t, &nums(&p.accel), 10.0);
    assert!((v[4] - (10.0 - 9.81 * 0.0035)).abs() < 1e-9);
    let (_, crush) = max_crush(&reals(&integrate(&t, &v, 0.0)));
    assert!(num(crush) > 0.039 && num(crush) < 0.04);
}

#[test]
fn resample_is_linear() {
    let t = [0.0, 1.0, 3.0];
    let y = [0.0, 2.0, 6.0];
    let tu: Vec<f64> = (0..((3.0_f64 - 0.0) / 0.5).floor() as usize + 1).map(|k| 0.0 + k as f64 * 0.5).collect();
    let yu = nums(&resample(&reals(&t), &reals(&y), &reals(&tu), |at, j| {
        let w = (num(at) - t[j]) / (t[j + 1] - t[j]);
        bits(y[j] + w * (y[j + 1] - y[j]))
    }));
    assert_eq!(tu.len(), 7);
    assert!((yu[1] - 1.0).abs() < 1e-12 && (yu[3] - 3.0).abs() < 1e-12 && (yu[6] - 6.0).abs() < 1e-12);
}

#[test]
fn places_among_samples() {
    let t = reals(&[0.0, 1.0, 3.0]);
    let p = locate(&t, &reals(&[-1.0, 0.0, 0.5, 1.0, 1.5, 3.0, 4.0]));
    assert_eq!(p, vec![Place::Start, Place::Start, Place::Between(0), Place::Between(0), Place::Between(1), Place::Between(1), Place::End]);
    assert_eq!(locate(&reals(&[2.0]), &reals(&[1.0, 3.0])), vec![Place::End, Place::End]);
    let y = resample(&t, &reals(&[5.0, 6.0, 7.0]), &reals(&[-1.0, 9.0]), |_, _| bits(0.0));
    assert_eq!(nums(&y), vec![5.0, 7.0]);
}

#[test]
fn rows_of_a_signal_file() {
    let rows = tsv_rows("# head\n\n 0.5\t1,extra\r\nlone\n  \n7,8");
    assert_eq!(rows.len(), 3);
    assert_eq!((rows[0].number, rows[0].line.as_str()), (3, "0.5\t1,extra"));
    assert_eq!((rows[0].time.as_deref(), rows[0].value.as_deref()), (Some("0.5"), Some("1")));
    assert_eq!((rows[1].number, rows[1].time.as_deref(), rows[1].value.as_deref()), (4, Some("lone"), None));
    assert_eq!((rows[2].number, rows[2].value.as_deref()), (6, Some("8")));
}

#[test]
fn signal_errors() {
    assert_eq!(parse("0\t1\n1\tx\n", false).unwrap_err(), "line 2: bad value '1\tx'");
    assert_eq!(parse("0\t1\n# c\ny\t1\n2\tx", false).unwrap_err(), "line 3: bad time 'y\t1'");
    assert_eq!(parse("0 1\n1 1\n2 1", false).unwrap_err(), "signal has fewer than 4 samples at t >= 0");
    // Samples before contact are dropped, times that round to it are not.
    let p = parse("-1 9\n-1e-13 1\n0 2\n1 3\n2 4", false).unwrap();
    assert_eq!(nums(&p.accel), vec![1.0, 2.0, 3.0, 4.0]);
}

#[test]
fn files_of_a_list() {
    assert_eq!(file_list(" a.1 ,b.2,, c"), vec!["a.1", "b.2", "", "c"]);
    assert_eq!(file_list(""), vec![""]);
}

fn history() -> NodeHistory {
    let mut h = NodeHistory::new();
    for i in 0..5 {
        for node in [7, 8] {
            let v = [bits(10.0 * i as f64 + node as f64), bits(0.0), bits(0.0)];
            h.time.push(bits(i as f64));
            h.step.push(i);
            h.accelerometer.push(1);
            h.node.push(node);
            h.position.push(v);
            h.displacement.push(v);
            h.velocity.push(v);
            h.acceleration.push(v);
            h.local_displacement.push(v);
            h.local_velocity.push(v);
            h.local_acceleration.push(v);
        }
    }
    h
}

#[test]
fn pulse_of_an_accelerometer() {
    let acc = |name: &str, nodes: Vec<usize>| Accelerometer { name: name.to_string(), nodes, frame: None };
    let all = vec![acc("a", vec![3]), acc("b", vec![8, 7]), acc("c", vec![])];
    let p = Pulse::from_history(&all, &history(), "b").unwrap();
    assert_eq!(nums(&p.time), vec![0.0, 1.0, 2.0, 3.0, 4.0]);
    assert_eq!(nums(&p.accel), vec![8.0, 18.0, 28.0, 38.0, 48.0]);
    let e = |n: &str| Pulse::from_history(&all, &history(), n).unwrap_err();
    assert_eq!(e("x").message(), "no accelerometer 'x'");
    assert_eq!(e("c").message(), "accelerometer has no nodes");
    assert_eq!(e("a").message(), "accelerometer history is empty (set history_steps)");
    assert!(matches!(e("a"), HistoryError::Empty));
}

#[test]
fn forward_pulses_decelerate() {
    let p = Pulse { time: reals(&[0.0, 1.0]), accel: reals(&[2.0, -3.0]) };
    assert_eq!(nums(&p.forward(bits(1.0)).accel), vec![-2.0, 3.0]);
    assert_eq!(nums(&p.forward(bits(0.0)).accel), vec![2.0, -3.0]);
    assert_eq!(nums(&p.forward(bits(-1.0)).accel), vec![2.0, -3.0]);
    assert_eq!(p.forward(bits(1.0)).forward(bits(1.0)).accel, p.accel);
}

#[test]
fn truncated_at_the_first_later_sample() {
    let p = Pulse { time: reals(&[0.0, 1.0, 2.0, 0.5]), accel: reals(&[1.0, 2.0, 3.0, 4.0]) };
    let q = p.truncated(bits(1.0));
    assert_eq!((nums(&q.time), nums(&q.accel)), (vec![0.0, 1.0], vec![1.0, 2.0]));
    assert!(p.truncated(bits(-1.0)).time.is_empty());
    assert_eq!(p.truncated(bits(9.0)).time.len(), 4);
}

#[test]
fn greatest_crush_and_extremes() {
    let (i, x) = max_crush(&reals(&[0.0, 2.0, 5.0, 5.0, 1.0]));
    assert_eq!((i, num(x)), (2, 5.0));
    let (i, x) = max_crush(&reals(&[-1.0, -2.0]));
    assert_eq!((i, num(x)), (0, 0.0));
    let (v, a) = extremes(&reals(&[3.0, -1.0, 2.0]), &reals(&[4.0, 6.0]));
    assert_eq!((num(v), num(a)), (-1.0, 0.0));
}

#[test]
fn samples_in_a_crush_window() {
    let c = reals(&[0.0, 0.1, 0.2, 0.3, 0.25]);
    assert_eq!(crush_window(&c, bits(0.1), bits(0.25)), Some(vec![1, 2, 4]));
    assert_eq!(crush_window(&c, bits(0.3), bits(0.4)), None);
}

#[test]
fn padding_of_the_filter() {
    assert_eq!(filter_padding(10, 100), 10);
    assert_eq!(filter_padding(500, 100), 99);
    assert_eq!(filter_padding(0, 100), 1);
    assert_eq!(filter_padding(5, 1), 1);
}
