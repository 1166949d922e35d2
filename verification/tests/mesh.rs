use crushrs::indices::{copy_of, holds, insert_all, insert_sorted, lower_bound, range};
use crushrs::mesh::{BlockFace, Mesh};
use crushrs::names::NamedSets;
use crushrs::number::Real;

fn bits(x: f64) -> Real {
    Real { bits: x.to_bits() }
}

fn num(r: Real) -> f64 {
    f64::from_bits(r.bits)
}

fn planes(origin: f64, size: f64, n: usize) -> Vec<Real> {
    (0..=n).map(|i| bits(origin + i as f64 * (size / n as f64))).collect()
}

/// A block as given by its origin, size and element size.
fn add_block(m: &mut Mesh<[Real; 3]>, part: &str, origin: [f64; 3], size: [f64; 3], h: f64, surfaces: &[(BlockFace, &str)]) -> usize {
    let n: [usize; 3] = std::array::from_fn(|a| (size[a] / h).round().max(1.0) as usize);
    let grid: [Vec<Real>; 3] = std::array::from_fn(|a| planes(origin[a], size[a], n[a]));
    m.add_grid_block(part, &grid, surfaces)
}

const ALL: [BlockFace; 6] = [BlockFace::XMin, BlockFace::XMax, BlockFace::YMin, BlockFace::YMax, BlockFace::ZMin, BlockFace::ZMax];

#[test]
fn block_generator_counts_and_faces() {
    let mut m = Mesh::new();
    add_block(&mut m, "a", [0.0, 0.0, 0.0], [1.0, 0.5, 0.5], 0.25, &[(BlockFace::XMax, "a_front")]);
    assert_eq!(m.hexes.len(), 4 * 2 * 2);
    assert_eq!(m.nodes.len(), 5 * 3 * 3);
    assert_eq!(m.face_set("a_front").unwrap().len(), 4);
    // Outward normal of the +x face points +x.
    let f = m.faces[m.face_set("a_front").unwrap()[0]];
    let at = |n: usize| m.nodes[n].map(num);
    let (a, b, c) = (at(f[0]), at(f[1]), at(f[2]));
    let u = [b[0] - a[0], b[1] - a[1], b[2] - a[2]];
    let v = [c[0] - a[0], c[1] - a[1], c[2] - a[2]];
    let nx = u[1] * v[2] - u[2] * v[1];
    assert!(nx > 0.0);
    assert_eq!(m.nodes_of("a").unwrap().len(), 45);
}

#[test]
fn new_mesh_is_empty() {
    let m: Mesh<u8> = Mesh::new();
    assert!(m.nodes.is_empty() && m.hexes.is_empty() && m.parts.is_empty() && m.faces.is_empty());
    assert_eq!(m.nodes_of("a"), None);
    assert!(m.face_set("a").is_none());
    assert_eq!(m.face_set_nodes("a"), None);
    assert_eq!(m.part_index("a"), None);
}

#[test]
fn every_face_of_a_block_points_outward() {
    let mut m = Mesh::new();
    let names = ["x0", "x1", "y0", "y1", "z0", "z1"];
    let surfaces: Vec<(BlockFace, &str)> = ALL.iter().copied().zip(names).collect();
    add_block(&mut m, "a", [1.0, 2.0, 3.0], [2.0, 3.0, 4.0], 1.0, &surfaces);
    let centre = [2.0, 3.5, 5.0];
    for f in &m.faces {
        let p = f.map(|n| m.nodes[n].map(num));
        let u: [f64; 3] = std::array::from_fn(|d| p[1][d] - p[0][d]);
        let v: [f64; 3] = std::array::from_fn(|d| p[2][d] - p[0][d]);
        let n = [u[1] * v[2] - u[2] * v[1], u[2] * v[0] - u[0] * v[2], u[0] * v[1] - u[1] * v[0]];
        let out: f64 = (0..3).map(|d| n[d] * (p[0][d] - centre[d])).sum();
        assert!(out > 0.0);
    }
    assert_eq!(names.map(|s| m.face_set(s).unwrap().len()), [12, 12, 8, 8, 6, 6]);
    assert_eq!(m.face_set("x1").unwrap()[0], 12);
}

#[test]
fn faces_of_a_block_are_faces_of_its_hexahedra() {
    let mut m = Mesh::new();
    add_block(&mut m, "a", [0.0; 3], [2.0, 2.0, 2.0], 1.0, &[(BlockFace::YMin, "s"), (BlockFace::ZMax, "t")]);
    for f in &m.faces {
        let hexes = m.hexes.iter().filter(|h| f.iter().all(|n| h.contains(n))).count();
        assert_eq!(hexes, 1);
    }
}

#[test]
fn blocks_follow_one_another() {
    let mut m = Mesh::new();
    assert_eq!(add_block(&mut m, "a", [0.0; 3], [1.0; 3], 1.0, &[(BlockFace::XMax, "s")]), 0);
    assert_eq!(add_block(&mut m, "b", [5.0; 3], [2.0, 1.0, 1.0], 1.0, &[(BlockFace::XMin, "s"), (BlockFace::XMax, "t")]), 1);
    assert_eq!(m.hexes[0], [0, 1, 3, 2, 4, 5, 7, 6]);
    assert_eq!(m.hexes[1], [8, 9, 12, 11, 14, 15, 18, 17]);
    assert_eq!(m.hex_part, vec![0, 1, 1]);
    assert_eq!(m.part_hexes(1), vec![1, 2]);
    assert_eq!(m.nodes_of("b"), Some((8..20).collect()));
    // A face set of the same name is the later one.
    assert_eq!(m.face_set("s"), Some(&vec![1]));
    assert_eq!(m.faces[0], [1, 3, 7, 5]);
    assert_eq!(m.faces[1], [8, 14, 17, 11]);
    assert_eq!(m.face_set_nodes("s"), Some(vec![8, 11, 14, 17]));
    assert_eq!(m.nodes[19].map(num), [7.0, 6.0, 6.0]);
}

#[test]
fn hex_block_places_nodes_by_its_closure() {
    let mut m: Mesh<(usize, usize, usize)> = Mesh::new();
    m.add_hex_block("a", [1, 2, 1], |i, j, k| (i, j, k), &[]);
    assert_eq!(m.nodes.len(), 12);
    assert_eq!(m.nodes[0], (0, 0, 0));
    assert_eq!(m.nodes[1], (1, 0, 0));
    assert_eq!(m.nodes[2], (0, 1, 0));
    assert_eq!(m.nodes[11], (1, 2, 1));
    // Corners of a hexahedron: bottom counter-clockwise, then top.
    let c = m.hexes[1].map(|n| m.nodes[n]);
    assert_eq!(c, [(0, 1, 0), (1, 1, 0), (1, 2, 0), (0, 2, 0), (0, 1, 1), (1, 1, 1), (1, 2, 1), (0, 2, 1)]);
}

#[test]
fn parts_are_found_by_first_name() {
    let mut m: Mesh<u8> = Mesh::new();
    assert_eq!(m.add_part("a"), 0);
    assert_eq!(m.add_part("b"), 1);
    assert_eq!(m.add_part("a"), 2);
    assert_eq!(m.part_index("a"), Some(0));
    assert_eq!(m.part_index("b"), Some(1));
    m.nodes = vec![0; 9];
    m.hexes.push([8, 1, 2, 3, 4, 5, 6, 7]);
    m.hex_part.push(1);
    assert_eq!(m.part_nodes(1), vec![1, 2, 3, 4, 5, 6, 7, 8]);
    assert_eq!(m.nodes_of("b"), Some(vec![1, 2, 3, 4, 5, 6, 7, 8]));
    assert_eq!(m.nodes_of("a"), Some(vec![]));
    // A node set of the name comes first.
    m.node_sets.insert("b", vec![3, 1]);
    assert_eq!(m.nodes_of("b"), Some(vec![3, 1]));
}

#[test]
fn nearest_and_best_aligned_nodes() {
    let mut m = Mesh::new();
    add_block(&mut m, "a", [0.0; 3], [2.0, 1.0, 1.0], 1.0, &[]);
    let from = |at: [f64; 3]| -> Vec<Real> { m.nodes.iter().map(|x| bits((0..3).map(|d| (num(x[d]) - at[d]).powi(2)).sum())).collect() };
    assert_eq!(m.nearest_node(&from([1.9, 0.1, 0.1]), None), 2);
    // The first of equals.
    assert_eq!(m.nearest_node(&from([0.5, 0.0, 0.0]), Some(0)), 0);
    let cosine = |dir: usize, sign: f64| -> Vec<Real> {
        m.nodes.iter().map(|x| {
            let r = (0..3).map(|d| num(x[d]).powi(2)).sum::<f64>().sqrt();
            bits(sign * num(x[dir]) / r)
        }).collect()
    };
    let distance: Vec<Real> = m.nodes.iter().map(|x| bits((0..3).map(|d| num(x[d]).powi(2)).sum::<f64>().sqrt())).collect();
    assert_eq!(m.best_aligned_neighbour(0, &distance, &cosine(0, 1.0), bits(1.75), Some(0), &[]), Some((1, bits(1.0))));
    assert_eq!(m.best_aligned_neighbour(0, &distance, &cosine(1, 1.0), bits(1.75), Some(0), &[]), Some((3, bits(1.0))));
    let (n, c) = m.best_aligned_neighbour(0, &distance, &cosine(1, 1.0), bits(1.75), Some(0), &[3]).unwrap();
    assert!(n == 4 || n == 9);
    assert!((num(c) - 0.5_f64.sqrt()).abs() < 1e-12);
    assert_eq!(m.best_aligned_neighbour(0, &distance, &cosine(0, 1.0), bits(0.5), Some(0), &[]), None);
    assert_eq!(m.candidates(None).len(), 12);
}

#[test]
fn edges_of_a_mesh() {
    let mut m = Mesh::new();
    add_block(&mut m, "a", [0.0; 3], [2.0, 1.0, 3.0], 1.0, &[]);
    let edges = m.edges();
    assert_eq!(edges.len(), 12 * 6);
    assert_eq!(edges[0], [0, 1]);
    let length = |e: &[usize; 2]| -> f64 {
        let (p, q) = (m.nodes[e[0]].map(num), m.nodes[e[1]].map(num));
        (0..3).map(|d| (p[d] - q[d]).powi(2)).sum::<f64>().sqrt()
    };
    let mut lengths: Vec<Real> = edges.iter().map(|e| bits(length(e))).collect();
    assert_eq!(num(m.min_edge_length(&lengths)), 1.0);
    lengths[7] = bits(0.25);
    assert_eq!(num(m.min_edge_length(&lengths)), 0.25);
    let none: Mesh<u8> = Mesh::new();
    assert_eq!(num(none.min_edge_length(&vec![])), f64::INFINITY);
}

#[test]
fn axis_and_side_of_each_face() {
    assert_eq!(ALL.map(|f| f.axis_and_side()), [(0, false), (0, true), (1, false), (1, true), (2, false), (2, true)]);
}

#[test]
fn named_sets_keep_one_entry_per_name() {
    let mut s = NamedSets::new();
    assert!(!s.contains("a"));
    s.insert("a", vec![3]);
    s.insert("b", vec![4]);
    s.insert("a", vec![5, 6]);
    assert_eq!(s.get("a"), Some(&vec![5, 6]));
    s.insert_if_absent("a", vec![9]);
    s.insert_if_absent("c", vec![7]);
    s.push("c", 8);
    s.push("d", 1);
    assert_eq!(s.get("a"), Some(&vec![5, 6]));
    assert_eq!(s.get("b"), Some(&vec![4]));
    assert_eq!(s.get("c"), Some(&vec![7, 8]));
    assert_eq!(s.get("d"), Some(&vec![1]));
    assert_eq!(s.get("e"), None);
    assert!(s.contains("d") && !s.contains("e"));
}

#[test]
fn ascending_index_lists() {
    let mut s: Vec<usize> = vec![];
    for x in [5, 1, 5, 3, 1, 9] {
        insert_sorted(&mut s, x);
    }
    assert_eq!(s, vec![1, 3, 5, 9]);
    insert_all(&mut s, &[4, 9, 0]);
    assert_eq!(s, vec![0, 1, 3, 4, 5, 9]);
    assert_eq!(lower_bound(&s, 4), 3);
    assert_eq!(lower_bound(&s, 6), 5);
    assert_eq!(lower_bound(&s, 10), 6);
    assert_eq!(range(2, 5), vec![2, 3, 4]);
    assert_eq!(range(5, 5), Vec::<usize>::new());
    assert!(holds(&[4, 2], 2) && !holds(&[4, 2], 3) && !holds(&[], 0));
    assert_eq!(copy_of(&s), s);
}
