use crushrs::bytes::{push_le, to_signed32, to_signed64};
use crushrs::mesh::{BlockFace, Mesh, Part};
use crushrs::model::Accelerometer;
use crushrs::number::{Real, Single};
use crushrs::output::gif::{check_frames, draw_text, glyph, shown_strain, surface_faces, Canvas, GifOptions};
use crushrs::output::history::write_history;
use crushrs::output::parquet::{check_rows, check_table, row_groups, schema, try_check_table, Column, TableError, ROW_GROUP};
use crushrs::output::vtk::{name_of_frame, push_f32, push_i32, push_i64, write_series, write_vtu, HEXAHEDRON};
use crushrs::solver::{Frame, FrameHistory, NodeHistory, PartState};

fn bits(x: f64) -> Real {
    Real { bits: x.to_bits() }
}

fn num(r: Real) -> f64 {
    f64::from_bits(r.bits)
}

fn single(x: f32) -> Single {
    Single { bits: x.to_bits() }
}

fn block(n: [usize; 3]) -> Mesh<[Real; 3]> {
    let mut m: Mesh<[Real; 3]> = Mesh::new();
    let grid = n.map(|k| (0..=k).map(|i| bits(i as f64)).collect());
    m.add_grid_block("a", &grid, &[(BlockFace::XMax, "front")]);
    m
}

fn frame(mesh: &Mesh<[Real; 3]>) -> Frame {
    let n = mesh.hexes.len();
    Frame {
        time: bits(0.5),
        displacement: (0..3 * mesh.nodes.len()).map(|i| single(i as f32)).collect(),
        plastic_strain: (0..n).map(|i| single(0.25 * i as f32)).collect(),
        stress: vec![[single(1.0), single(2.0), single(3.0), single(4.0), single(5.0), single(6.0)]; n],
        eroded: (0..n).map(|i| i == 1).collect(),
    }
}

#[test]
fn surface_of_a_block() {
    let m = block([3, 2, 1]);
    let faces = surface_faces(&m);
    // 2 * (3 * 2 + 2 * 1 + 3 * 1) faces lie outside.
    assert_eq!(faces.len(), 22);
    assert!(faces.windows(2).all(|w| w[0].0 <= w[1].0));
    let one = surface_faces(&block([1, 1, 1]));
    let h = block([1, 1, 1]).hexes[0];
    assert_eq!(one[0], (0, [h[0], h[3], h[2], h[1]]));
    assert_eq!(one[1], (0, [h[4], h[5], h[6], h[7]]));
    assert_eq!(one[5], (0, [h[3], h[0], h[4], h[7]]));
    // No two faces of the surface have the same nodes.
    let mut keys: Vec<Vec<usize>> = faces.iter().map(|f| { let mut k = f.1.to_vec(); k.sort(); k }).collect();
    keys.sort();
    keys.dedup();
    assert_eq!(keys.len(), 22);
}

#[test]
fn nearer_triangles_hide_others() {
    let mut c = Canvas::new(4, 3);
    assert!(c.rgb.iter().all(|p| *p == [245; 3]));
    c.triangle((1, 2, 0, 1), |x, y| if x == 2 && y == 1 { None } else { Some(single(1.0)) }, [1, 2, 3]);
    let drawn = |c: &Canvas, col: [u8; 3]| (0..12).filter(|i| c.rgb[*i] == col).collect::<Vec<_>>();
    assert_eq!(drawn(&c, [1, 2, 3]), vec![1, 2, 5]);
    c.triangle((0, 3, 0, 2), |x, _| Some(single(if x == 1 { 2.0 } else { 0.5 })), [9, 9, 9]);
    assert_eq!(drawn(&c, [9, 9, 9]), vec![0, 1, 3, 4, 5, 6, 7, 8, 9, 10, 11]);
    assert_eq!((c.depth[1], c.depth[2], c.depth[6]), (single(2.0), single(1.0), single(0.5)));
}

#[test]
fn lines_keep_depths() {
    let mut c = Canvas::new(4, 1);
    c.depth[2] = single(5.0);
    c.line(3, |k| if k == 3 { None } else { Some((k, 0, single(1.0))) }, |z, d| f32::from_bits(z.bits) >= f32::from_bits(d.bits), [7, 7, 7]);
    assert_eq!(c.rgb, vec![[7; 3], [7; 3], [245; 3], [245; 3]]);
    assert_eq!(c.depth[2], single(5.0));
    assert_eq!(c.depth[0], single(f32::NEG_INFINITY));
}

#[test]
fn text_in_glyphs() {
    assert_eq!(glyph('7'), [0b111, 0b001, 0b010, 0b010, 0b010]);
    assert_eq!(glyph('?'), [0; 5]);
    let mut c = Canvas::new(9, 6);
    draw_text(&mut c, "1.", 1, 1, 1);
    let ink: Vec<(usize, usize)> = (0..54).filter(|i| c.rgb[*i] == [30; 3]).map(|i| (i % 9, i / 9)).collect();
    assert_eq!(ink, vec![(2, 1), (1, 2), (2, 2), (2, 3), (2, 4), (1, 5), (2, 5), (3, 5), (6, 5)]);
    // Twice the scale, and cut off at the edge.
    let mut c = Canvas::new(4, 4);
    draw_text(&mut c, "0", 0, 0, 2);
    assert_eq!((0..16).filter(|i| c.rgb[*i] == [30; 3]).count(), 12);
}

#[test]
fn pictures_of_few_colours_are_exact() {
    let mut c = Canvas::new(16, 8);
    for (i, p) in c.rgb.iter_mut().enumerate() {
        *p = [(i % 5) as u8 * 50, (i % 3) as u8 * 90, 7];
    }
    let p = c.picture(16, 8);
    assert_eq!(p.indices.len(), 128);
    assert!(p.palette.len() % 3 == 0 && p.palette.len() <= 768);
    for (i, at) in p.indices.iter().enumerate() {
        let at = 3 * *at as usize;
        assert_eq!(p.palette[at..at + 3], c.rgb[i]);
    }
    // With more colours than a palette holds there is still one per pixel.
    let mut c = Canvas::new(32, 32);
    for (i, p) in c.rgb.iter_mut().enumerate() {
        *p = [(i % 32) as u8 * 8, (i / 32) as u8 * 8, (i % 7) as u8];
    }
    let p = c.picture(32, 32);
    assert!(p.indices.len() == 1024 && p.palette.len() <= 768);
    assert!(p.indices.iter().all(|i| 3 * (*i as usize) + 2 < p.palette.len()));
}

#[test]
fn animations_need_frames() {
    assert_eq!(check_frames(&vec![]).unwrap_err(), "no frames captured; set frame_steps");
    let m = block([3, 1, 1]);
    let f = frame(&m);
    assert_eq!((shown_strain(&f, 1), shown_strain(&f, 2), shown_strain(&f, 9)), (None, Some(single(0.5)), Some(single(0.0))));
    assert!(check_frames(&vec![f]).is_ok());
    let o = GifOptions::default();
    assert_eq!((o.width, o.height, o.delay_cs, o.show_time), (640, 360, 4, true));
    assert_eq!((o.view_dir.map(num), o.up.map(num)), ([0.45, -1.0, 0.55], [0.0, 0.0, 1.0]));
    assert_eq!(f32::from_bits(o.plastic_strain_scale.bits), 0.5);
}

#[test]
fn little_endian_arrays() {
    let mut b = Vec::new();
    push_le(&mut b, 0x0102_0304, 4);
    assert_eq!(b, vec![4, 3, 2, 1]);
    let mut b = vec![9];
    push_f32(&mut b, &vec![single(1.5)]);
    assert_eq!(b[1..9], 4u64.to_le_bytes());
    assert_eq!(b[9..], 1.5f32.to_le_bytes());
    let mut b = Vec::new();
    push_i32(&mut b, &vec![-2]);
    assert_eq!(b[8..], (-2i32).to_le_bytes());
    let mut b = Vec::new();
    push_i64(&mut b, &vec![-3, 5]);
    assert_eq!((b.len(), &b[..8], &b[8..16]), (24, &16u64.to_le_bytes()[..], &(-3i64).to_le_bytes()[..]));
    assert_eq!((to_signed64(7), to_signed32(7), to_signed32(0xffff_ffff)), (7, 7, -1));
}

fn attribute(header: &str, name: &str) -> usize {
    let at = header.find(name).unwrap();
    let rest = &header[at + header[at..].find("offset=\"").unwrap() + 8..];
    rest[..rest.find('"').unwrap()].parse().unwrap()
}

#[test]
fn offsets_point_at_the_arrays() {
    let m = block([2, 1, 1]);
    let points: Vec<Single> = m.nodes.iter().flatten().map(|x| single(num(*x) as f32)).collect();
    let f = write_vtu(&m, &points, &frame(&m));
    assert!(f.header.contains("<Piece NumberOfPoints=\"12\" NumberOfCells=\"2\">"));
    assert!(f.header.ends_with("  <AppendedData encoding=\"raw\">\n   _"));
    assert_eq!(f.footer, "\n  </AppendedData>\n</VTKFile>\n");
    let size = |name: &str| { let at = attribute(&f.header, name); u64::from_le_bytes(f.data[at..at + 8].try_into().unwrap()) as usize };
    let at = |name: &str, k: usize, n: usize| { let at = attribute(&f.header, name) + 8 + k * n; &f.data[at..at + n] };
    assert_eq!((attribute(&f.header, "<Points>"), size("<Points>")), (0, 4 * 36));
    assert_eq!(at("Name=\"displacement\"", 35, 4), 35f32.to_le_bytes());
    assert_eq!(size("Name=\"connectivity\""), 8 * 16);
    assert_eq!(at("Name=\"connectivity\"", 9, 8), (m.hexes[1][1] as i64).to_le_bytes());
    assert_eq!(at("Name=\"offsets\"", 1, 8), 16i64.to_le_bytes());
    assert_eq!(at("Name=\"types\"", 1, 1), [HEXAHEDRON]);
    assert_eq!(at("Name=\"plastic_strain\" format", 1, 4), 0.25f32.to_le_bytes());
    assert_eq!(at("Name=\"stress\"", 11, 4), 6f32.to_le_bytes());
    assert_eq!(at("Name=\"part\"", 1, 4), 0i32.to_le_bytes());
    assert_eq!((at("Name=\"eroded\"", 0, 4), at("Name=\"eroded\"", 1, 4)), (&0i32.to_le_bytes()[..], &1i32.to_le_bytes()[..]));
    assert_eq!(attribute(&f.header, "Name=\"eroded\"") + 8 + 8, f.data.len());
}

#[test]
fn series_has_an_entry_per_frame() {
    let times: Vec<String> = [0.0, 0.005, 0.01].iter().map(|t: &f64| t.to_string()).collect();
    let s = write_series("crash", &times);
    assert_eq!(s.matches("<DataSet").count(), times.len());
    assert!(s.contains("    <DataSet timestep=\"0.005\" file=\"crash_0001.vtu\"/>\n"));
    assert!(s.starts_with("<?xml version=\"1.0\"?>\n<VTKFile type=\"Collection\""));
    assert!(s.ends_with("  </Collection>\n</VTKFile>\n"));
    assert_eq!((name_of_frame("crash", 0), name_of_frame("crash", 12345)), ("crash_0000.vtu".to_string(), "crash_12345.vtu".to_string()));
}

fn columns(n: usize) -> Vec<(String, Column)> {
    vec![
        ("time".to_string(), Column::F64(vec![bits(0.5); n])),
        ("step".to_string(), Column::I64((0..n as i64).collect())),
        ("name".to_string(), Column::Str(vec!["a".to_string(); n])),
    ]
}

#[test]
fn tables_that_are_written() {
    let (n, s) = check_table("nodes", &columns(3)).unwrap();
    assert_eq!((n, s.as_str()), (3, "message nodes { required double time; required int64 step; required binary name (UTF8); }"));
    assert_eq!(schema("t", &vec![]), "message t {  }");
    assert_eq!(check_rows(&vec![]).unwrap(), 0);
    assert!(columns(0)[0].1.is_empty() && columns(2)[2].1.len() == 2);
}

#[test]
fn tables_that_are_refused() {
    let mut t = columns(3);
    t[2].1 = Column::Str(vec![]);
    let e = check_table("nodes", &t).unwrap_err();
    assert!(matches!(e, TableError::Rows { .. }));
    assert_eq!(e.message(), "column 'name' has 0 rows, expected 3");
    let mut t = columns(1);
    t[0].0 = "time of day".to_string();
    let e = check_table("nodes", &t).unwrap_err();
    assert!(matches!(e, TableError::Schema(_)));
    let text = schema("nodes", &t);
    assert_eq!(e.message(), parquet::schema::parser::parse_message_type(&text).unwrap_err().to_string());
    assert_ne!(e.message(), text);
    assert!(matches!(try_check_table("nodes", &t), Some(Err(TableError::Schema(_)))));
    // Many braces, or the word many times, are a matter for the parser; both
    // might nest too deep.
    let inner = |n: usize| format!("x; {}required double y; {}required double z", "required group g { ".repeat(n), "} ".repeat(n));
    for name in ["{".repeat(2000), "group".repeat(2000), "{Group".repeat(511), "{grOUP".repeat(512), inner(3), inner(511)] {
        t[0].0 = name;
        let text = schema("nodes", &t);
        let expected = parquet::schema::parser::parse_message_type(&text).map_err(|e| e.to_string());
        let found = try_check_table("nodes", &t).unwrap();
        assert_eq!(found.map(|(_, s)| s).map_err(|e| e.message()), expected.map(|_| text));
    }
    t[0].0 = inner(511);
    assert!(check_table("nodes", &t).is_ok());
    t[0].0 = "{grOUP".repeat(513);
    assert!(try_check_table("nodes", &t).is_none());
    assert!(matches!(try_check_table("nodes", &columns(2)), Some(Ok((2, _)))));
}

#[test]
fn rows_in_groups() {
    assert_eq!(row_groups(0), vec![(0, 0)]);
    assert_eq!(row_groups(5), vec![(0, 5)]);
    assert_eq!(row_groups(ROW_GROUP), vec![(0, ROW_GROUP)]);
    assert_eq!(row_groups(2 * ROW_GROUP + 1), vec![(0, ROW_GROUP), (ROW_GROUP, 2 * ROW_GROUP), (2 * ROW_GROUP, 2 * ROW_GROUP + 1)]);
}

#[test]
fn histories_in_tables() {
    let acc = vec![Accelerometer { name: "cg".to_string(), nodes: vec![4], frame: None }];
    let v = [bits(1.0), bits(2.0), bits(3.0)];
    let mut h = NodeHistory::new();
    let mut f = FrameHistory::new();
    h.time.push(bits(0.1));
    h.step.push(6);
    h.accelerometer.push(0);
    h.node.push(4);
    for c in [&mut h.position, &mut h.displacement, &mut h.velocity, &mut h.acceleration, &mut h.local_displacement, &mut h.local_velocity, &mut h.local_acceleration] {
        c.push(v);
    }
    f.time.push(bits(0.1));
    f.step.push(6);
    f.accelerometer.push(0);
    f.origin.push(v);
    f.axes.push([v; 3]);
    let state = |part| PartState { part, mass: bits(9.0), velocity: v, displacement: v, acceleration: v, kinetic_energy: bits(8.0) };
    let parts: Vec<Part> = block([1, 1, 1]).parts;
    let t = write_history(&parts, &acc, &h, &f, &vec![(bits(0.0), vec![state(0)]), (bits(0.2), vec![state(0)])], "out/run");
    assert_eq!(t.iter().map(|t| t.path.as_str()).collect::<Vec<_>>(), vec!["out/run.nodes.parquet", "out/run.frames.parquet", "out/run.parts.parquet"]);
    let names = |k: usize| t[k].columns.iter().map(|c| c.0.as_str()).collect::<Vec<_>>().join(" ");
    assert_eq!(names(0), "time step accelerometer node x y z ux uy uz vx vy vz ax ay az lux luy luz lvx lvy lvz lax lay laz");
    assert_eq!(names(1), "time step accelerometer ox oy oz ex_x ex_y ex_z ey_x ey_y ey_z ez_x ez_y ez_z");
    assert_eq!(names(2), "time part mass ux uy uz vx vy vz ax ay az kinetic_energy");
    let rows: Vec<usize> = t.iter().map(|t| check_table(&t.name, &t.columns).unwrap().0).collect();
    assert_eq!(rows, vec![1, 1, 2]);
    assert!(matches!(&t[0].columns[2].1, Column::Str(s) if s[0] == "cg"));
    assert!(matches!(&t[0].columns[6].1, Column::F64(z) if num(z[0]) == 3.0));
    assert!(matches!(&t[2].columns[0].1, Column::F64(x) if num(x[1]) == 0.2));
}
