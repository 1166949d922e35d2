//! Mesh: nodes, 8-node hexahedra grouped into parts, contact faces, and named
//! node and face sets. One flat representation, indexed by position.
//!
//! `P` is what stands for a node's position.

use crate::indices::{ascending, copy_of, holds, index_range, insert_all, law_ascending_is_canonical, range};
use crate::lattice::{flat, lemma_flat, lemma_unflat, unflat};
use crate::names::NamedSets;
use crate::number::{first_min, fold_min, least_from, Real};
use crate::text::same_text;
use vstd::prelude::*;

verus! {

/// A part: a named group of hexahedra sharing one material.
#[derive(Clone, Debug)]
pub struct Part {
    pub name: String,
}

/// Face of an axis-aligned block (for generated meshes).
#[derive(Clone, Copy, Debug, PartialEq, Eq, Structural)]
pub enum BlockFace {
    XMin,
    XMax,
    YMin,
    YMax,
    ZMin,
    ZMax,
}

impl BlockFace {
    /// Axis the face is normal to.
    pub open spec fn axis(self) -> int {
        match self {
            BlockFace::XMin | BlockFace::XMax => 0,
            BlockFace::YMin | BlockFace::YMax => 1,
            BlockFace::ZMin | BlockFace::ZMax => 2,
        }
    }

    /// Whether the face is on the far side along its axis.
    pub open spec fn far(self) -> bool {
        self is XMax || self is YMax || self is ZMax
    }

    /// Axis the face is normal to, and whether it is on the far side.
    pub fn axis_and_side(self) -> (r: (usize, bool))
        ensures
            r == (self.axis() as usize, self.far()),
    {
        match self {
            BlockFace::XMin => (0, false),
            BlockFace::XMax => (0, true),
            BlockFace::YMin => (1, false),
            BlockFace::YMax => (1, true),
            BlockFace::ZMin => (2, false),
            BlockFace::ZMax => (2, true),
        }
    }
}

/// Nodes, elements, contact faces and named sets of a model.
#[derive(Clone, Debug)]
pub struct Mesh<P> {
    /// Reference node positions.
    pub nodes: Vec<P>,
    /// Hexahedra, standard ordering (bottom face counter-clockwise, then top).
    pub hexes: Vec<[usize; 8]>,
    /// Part index of each hexahedron.
    pub hex_part: Vec<usize>,
    pub parts: Vec<Part>,
    /// Contact faces (quads, counter-clockwise about the outward normal).
    pub faces: Vec<[usize; 4]>,
    /// Named node sets.
    pub node_sets: NamedSets,
    /// Named face sets (indices into `faces`).
    pub face_sets: NamedSets,
}

// ---- blocks ----

/// Number of nodes of a block of `n` elements along each axis.
pub open spec fn block_nodes(n: [usize; 3]) -> int {
    (n@[0] + 1) * (n@[1] + 1) * (n@[2] + 1)
}

/// Number of hexahedra of a block of `n` elements along each axis.
pub open spec fn block_hexes(n: [usize; 3]) -> int {
    n@[0] * n@[1] * n@[2]
}

/// Number of a lattice point of a block whose nodes start at `node0`.
pub open spec fn node_at(node0: int, n: [usize; 3], p: (int, int, int)) -> int {
    node0 + flat(n@[0] + 1, n@[1] + 1, p.0, p.1, p.2)
}

/// Lattice point of corner `c` of hexahedron `e` of a block: the bottom face
/// counter-clockwise, then the top.
pub open spec fn hex_point(n: [usize; 3], e: int, c: int) -> (int, int, int) {
    let (i, j, k) = unflat(n@[0] as int, n@[1] as int, e);
    (
        if c == 1 || c == 2 || c == 5 || c == 6 {
            i + 1
        } else {
            i
        },
        if c == 2 || c == 3 || c == 6 || c == 7 {
            j + 1
        } else {
            j
        },
        if c >= 4 {
            k + 1
        } else {
            k
        },
    )
}

/// Number of elements of a block along the `s`-th axis after that of a face.
pub open spec fn along(n: [usize; 3], face: BlockFace, s: int) -> int {
    n@[(face.axis() + s) % 3] as int
}

/// Number of quads on a face of a block.
pub open spec fn face_quads(n: [usize; 3], face: BlockFace) -> int {
    along(n, face, 1) * along(n, face, 2)
}

/// The lattice point with coordinate `on` along a face's axis and `u`, `v`
/// along the two axes after it.
pub open spec fn point_on(face: BlockFace, on: int, u: int, v: int) -> (int, int, int) {
    if face.axis() == 0 {
        (on, u, v)
    } else if face.axis() == 1 {
        (v, on, u)
    } else {
        (u, v, on)
    }
}

/// Lattice point of corner `q` of quad `f` on a face of a block: around the
/// quad in the sense that makes the normal point outward.
pub open spec fn quad_point(n: [usize; 3], face: BlockFace, f: int, q: int) -> (int, int, int) {
    let u = f % along(n, face, 1);
    let v = f / along(n, face, 1);
    let turn = if face.far() {
        q
    } else {
        (4 - q) % 4
    };
    point_on(
        face,
        if face.far() {
            along(n, face, 0)
        } else {
            0
        },
        if turn == 1 || turn == 2 {
            u + 1
        } else {
            u
        },
        if turn >= 2 {
            v + 1
        } else {
            v
        },
    )
}

/// The listed faces with the names of their sets.
pub open spec fn labelled(surfaces: Seq<(BlockFace, &str)>) -> Seq<(BlockFace, Seq<char>)> {
    surfaces.map_values(|s: (BlockFace, &str)| (s.0, s.1@))
}

/// Number of quads on the first `s` of the listed faces.
pub open spec fn quads_before(n: [usize; 3], surfaces: Seq<(BlockFace, Seq<char>)>, s: int) -> int
    decreases s,
{
    if s <= 0 {
        0
    } else {
        quads_before(n, surfaces, s - 1) + face_quads(n, surfaces[s - 1].0)
    }
}

/// Face sets after the first `s` of the listed faces were added, the first of
/// them starting at `face0`.
pub open spec fn sets_with(
    sets: Map<Seq<char>, Seq<usize>>,
    face0: int,
    n: [usize; 3],
    surfaces: Seq<(BlockFace, Seq<char>)>,
    s: int,
) -> Map<Seq<char>, Seq<usize>>
    decreases s,
{
    if s <= 0 {
        sets
    } else {
        sets_with(sets, face0, n, surfaces, s - 1).insert(
            surfaces[s - 1].1,
            index_range(
                face0 + quads_before(n, surfaces, s - 1),
                face0 + quads_before(n, surfaces, s),
            ),
        )
    }
}

/// Every corner of a block's hexahedra is one of its lattice points.
pub proof fn lemma_hex_point(n: [usize; 3], e: int, c: int)
    requires
        n@[0] > 0,
        n@[1] > 0,
        0 <= e < block_hexes(n),
        0 <= c < 8,
    ensures
        ({
            let p = hex_point(n, e, c);
            0 <= p.0 <= n@[0] && 0 <= p.1 <= n@[1] && 0 <= p.2 <= n@[2]
        }),
        0 <= node_at(0, n, hex_point(n, e, c)) < block_nodes(n),
{
    lemma_unflat(n@[0] as int, n@[1] as int, n@[2] as int, e);
    let p = hex_point(n, e, c);
    lemma_flat(n@[0] + 1, n@[1] + 1, n@[2] + 1, p.0, p.1, p.2);
}

/// Every corner of a block's quads is one of its lattice points.
pub proof fn lemma_quad_point(n: [usize; 3], face: BlockFace, f: int, q: int)
    requires
        n@[0] > 0,
        n@[1] > 0,
        n@[2] > 0,
        0 <= f < face_quads(n, face),
        0 <= q < 4,
    ensures
        0 <= f % along(n, face, 1) < along(n, face, 1),
        0 <= f / along(n, face, 1) < along(n, face, 2),
        ({
            let p = quad_point(n, face, f, q);
            0 <= p.0 <= n@[0] && 0 <= p.1 <= n@[1] && 0 <= p.2 <= n@[2]
        }),
        0 <= node_at(0, n, quad_point(n, face, f, q)) < block_nodes(n),
{
    let a = along(n, face, 1);
    let b = along(n, face, 2);
    assert(a * b * 1 == a * b);
    assert(a > 0 && b > 0);
    assert(0 <= f % a < a && 0 <= f / a < b) by (nonlinear_arith)
        requires
            a > 0,
            b > 0,
            0 <= f < a * b,
    ;
    let p = quad_point(n, face, f, q);
    lemma_flat(n@[0] + 1, n@[1] + 1, n@[2] + 1, p.0, p.1, p.2);
}

/// The eight corners of a generated hexahedron are eight different nodes.
pub proof fn law_corners_are_distinct(n: [usize; 3], e: int, c: int, d: int)
    requires
        n@[0] > 0,
        n@[1] > 0,
        0 <= e < block_hexes(n),
        0 <= c < 8,
        0 <= d < 8,
        node_at(0, n, hex_point(n, e, c)) == node_at(0, n, hex_point(n, e, d)),
    ensures
        c == d,
{
    lemma_hex_point(n, e, c);
    lemma_hex_point(n, e, d);
    let p = hex_point(n, e, c);
    let q = hex_point(n, e, d);
    lemma_flat(n@[0] + 1, n@[1] + 1, n@[2] + 1, p.0, p.1, p.2);
    lemma_flat(n@[0] + 1, n@[1] + 1, n@[2] + 1, q.0, q.1, q.2);
}

/// The vector from one lattice point to another.
pub open spec fn step(from: (int, int, int), to: (int, int, int)) -> (int, int, int) {
    (to.0 - from.0, to.1 - from.1, to.2 - from.2)
}

pub open spec fn cross(u: (int, int, int), v: (int, int, int)) -> (int, int, int) {
    (u.1 * v.2 - u.2 * v.1, u.2 * v.0 - u.0 * v.2, u.0 * v.1 - u.1 * v.0)
}

/// Every generated contact quad is wound counter-clockwise about the outward
/// normal of its block face: the cross product of its first edge and its
/// diagonal is the unit step out of the block.
pub proof fn law_quads_face_outward(n: [usize; 3], face: BlockFace, f: int)
    requires
        n@[0] > 0,
        n@[1] > 0,
        n@[2] > 0,
        0 <= f < face_quads(n, face),
    ensures
        cross(
            step(quad_point(n, face, f, 0), quad_point(n, face, f, 1)),
            step(quad_point(n, face, f, 0), quad_point(n, face, f, 2)),
        ) == point_on(
            face,
            if face.far() {
                1
            } else {
                -1
            },
            0,
            0,
        ),
{
    let p = quad_point(n, face, f, 0);
    let u = step(p, quad_point(n, face, f, 1));
    let v = step(p, quad_point(n, face, f, 2));
    assert(cross((0, 1, 0), (0, 1, 1)) == (1int, 0int, 0int)) by (nonlinear_arith);
    assert(cross((0, 0, 1), (0, 1, 1)) == (-1int, 0int, 0int)) by (nonlinear_arith);
    assert(cross((0, 0, 1), (1, 0, 1)) == (0int, 1int, 0int)) by (nonlinear_arith);
    assert(cross((1, 0, 0), (1, 0, 1)) == (0int, -1int, 0int)) by (nonlinear_arith);
    assert(cross((1, 0, 0), (1, 1, 0)) == (0int, 0int, 1int)) by (nonlinear_arith);
    assert(cross((0, 1, 0), (1, 1, 0)) == (0int, 0int, -1int)) by (nonlinear_arith);
    match face {
        BlockFace::XMin => assert(u == (0int, 0int, 1int) && v == (0int, 1int, 1int)),
        BlockFace::XMax => assert(u == (0int, 1int, 0int) && v == (0int, 1int, 1int)),
        BlockFace::YMin => assert(u == (1int, 0int, 0int) && v == (1int, 0int, 1int)),
        BlockFace::YMax => assert(u == (0int, 0int, 1int) && v == (1int, 0int, 1int)),
        BlockFace::ZMin => assert(u == (0int, 1int, 0int) && v == (1int, 1int, 0int)),
        BlockFace::ZMax => assert(u == (1int, 0int, 0int) && v == (1int, 1int, 0int)),
    }
}

/// The hexahedron of a block behind a quad of one of its faces.
pub open spec fn hex_behind(n: [usize; 3], face: BlockFace, f: int) -> int {
    let p = point_on(
        face,
        if face.far() {
            along(n, face, 0) - 1
        } else {
            0
        },
        f % along(n, face, 1),
        f / along(n, face, 1),
    );
    flat(n@[0] as int, n@[1] as int, p.0, p.1, p.2)
}

/// The corner of a hexahedron at given unit offsets from its first.
pub open spec fn corner_at(d: (int, int, int)) -> int {
    let around = if d.1 == 0 {
        d.0
    } else {
        3 - d.0
    };
    around + 4 * d.2
}

/// Every corner of a generated contact quad is a corner of the hexahedron
/// behind it.
pub proof fn law_quads_bound_hexes(n: [usize; 3], face: BlockFace, f: int, q: int)
    requires
        n@[0] > 0,
        n@[1] > 0,
        n@[2] > 0,
        0 <= f < face_quads(n, face),
        0 <= q < 4,
    ensures
        0 <= hex_behind(n, face, f) < block_hexes(n),
        exists|c: int|
            0 <= c < 8 && #[trigger] hex_point(n, hex_behind(n, face, f), c) == quad_point(
                n,
                face,
                f,
                q,
            ),
{
    lemma_quad_point(n, face, f, q);
    let on = if face.far() {
        along(n, face, 0) - 1
    } else {
        0
    };
    let p = point_on(face, on, f % along(n, face, 1), f / along(n, face, 1));
    lemma_flat(n@[0] as int, n@[1] as int, n@[2] as int, p.0, p.1, p.2);
    let d = step(p, quad_point(n, face, f, q));
    let c = corner_at(d);
    assert(0 <= c < 8);
    assert(hex_point(n, hex_behind(n, face, f), c) == quad_point(n, face, f, q));
}


/// The number of elements along an axis of a block is at most its number of
/// nodes, and so is the number of quads on a face and of hexahedra.
proof fn lemma_block_sizes(n: [usize; 3])
    ensures
        n@[0] + 1 <= block_nodes(n),
        n@[1] + 1 <= block_nodes(n),
        n@[2] + 1 <= block_nodes(n),
        (n@[0] + 1) * (n@[1] + 1) <= block_nodes(n),
        n@[0] * n@[1] <= block_hexes(n) || n@[2] == 0,
        n@[0] * n@[1] <= block_nodes(n),
        n@[1] * n@[2] <= block_nodes(n),
        n@[2] * n@[0] <= block_nodes(n),
        block_hexes(n) <= block_nodes(n),
{
    let (a, b, c) = (n@[0] as int, n@[1] as int, n@[2] as int);
    let d = (a + 1) * (b + 1);
    assert(a + 1 <= d && b + 1 <= d && a * b <= d) by (nonlinear_arith)
        requires
            a >= 0,
            b >= 0,
            d == (a + 1) * (b + 1),
    ;
    assert(d <= d * (c + 1) && c + 1 <= d * (c + 1) && a * b * c <= d * (c + 1) && b * c <= d * (c
        + 1) && c * a <= d * (c + 1)) by (nonlinear_arith)
        requires
            a >= 0,
            b >= 0,
            c >= 0,
            a + 1 <= d,
            b + 1 <= d,
            a * b <= d,
            d >= 1,
    ;
    assert(a * b <= a * b * c || c == 0) by (nonlinear_arith)
        requires
            a >= 0,
            b >= 0,
            c >= 0,
    ;
}

/// Number of a lattice point of a block whose nodes start at `node0`.
fn node_number(node0: usize, n: &[usize; 3], i: usize, j: usize, k: usize) -> (id: usize)
    requires
        i <= n@[0],
        j <= n@[1],
        k <= n@[2],
        node0 + block_nodes(*n) <= usize::MAX,
    ensures
        id == node_at(node0 as int, *n, (i as int, j as int, k as int)),
        id < node0 + block_nodes(*n),
{
    proof {
        let (a, b, c) = (n@[0] + 1, n@[1] + 1, n@[2] + 1);
        lemma_block_sizes(*n);
        lemma_flat(a, b, c, i as int, j as int, k as int);
        let q = j + b * k;
        assert(0 <= b * k <= q && q <= a * q) by (nonlinear_arith)
            requires
                a >= 1,
                b >= 1,
                k >= 0,
                j >= 0,
                q == j + b * k,
        ;
    }
    node0 + i + (n[0] + 1) * (j + (n[1] + 1) * k)
}

/// What was best among the first `k` candidates, by the rule that a candidate
/// takes the lead when it is better aligned than the leader.
pub open spec fn lead(
    candidates: Seq<usize>,
    cosine: Seq<Real>,
    eligible: spec_fn(usize) -> bool,
    k: int,
) -> Option<usize>
    decreases k,
{
    if k <= 0 {
        None
    } else {
        let before = lead(candidates, cosine, eligible, k - 1);
        let n = candidates[k - 1];
        if eligible(n) && (before matches Some(b) ==> cosine[b as int].below(cosine[n as int])) {
            Some(n)
        } else {
            before
        }
    }
}

/// Local nodes at the ends of edge `k` of a hexahedron: around the bottom,
/// around the top, then the uprights.
pub open spec fn edge_ends(k: int) -> (int, int) {
    if k < 4 {
        (k, (k + 1) % 4)
    } else if k < 8 {
        (k, 4 + (k + 1) % 4)
    } else {
        (k - 8, k - 4)
    }
}

/// Whether one of the first `upto` hexahedra belongs to a part and has `x` for
/// a corner.
pub open spec fn corner_of(
    hexes: Seq<[usize; 8]>,
    hex_part: Seq<usize>,
    x: usize,
    part: usize,
    upto: int,
) -> bool {
    exists|e: int| 0 <= e < upto && #[trigger] hex_part[e] == part && hexes[e]@.contains(x)
}

pub open spec fn lists_nodes(
    hexes: Seq<[usize; 8]>,
    hex_part: Seq<usize>,
    s: Seq<usize>,
    part: usize,
) -> bool {
    ascending(s) && forall|x: usize| #[trigger]
        s.contains(x) <==> corner_of(hexes, hex_part, x, part, hexes.len() as int)
}

/// The nodes of a part in ascending order.
pub open spec fn ascending_nodes(
    hexes: Seq<[usize; 8]>,
    hex_part: Seq<usize>,
    part: usize,
) -> Seq<usize> {
    choose|s: Seq<usize>| lists_nodes(hexes, hex_part, s, part)
}

impl<P> Mesh<P> {
    /// Indices point at what exists: element and face corners at nodes,
    /// elements at parts, and set members at nodes and faces.
    pub open spec fn wf(self) -> bool {
        &&& self.hexes.len() == self.hex_part.len()
        &&& forall|e: int, c: int|
            0 <= e < self.hexes.len() && 0 <= c < 8 ==> #[trigger] self.hexes[e]@[c]
                < self.nodes.len()
        &&& forall|e: int|
            0 <= e < self.hex_part.len() ==> #[trigger] self.hex_part[e] < self.parts.len()
        &&& forall|f: int, q: int|
            0 <= f < self.faces.len() && 0 <= q < 4 ==> #[trigger] self.faces[f]@[q]
                < self.nodes.len()
        &&& self.node_sets.wf()
        &&& self.face_sets.wf()
        &&& forall|name: Seq<char>, i: int|
            self.node_sets@.dom().contains(name) && 0 <= i < self.node_sets@[name].len()
                ==> #[trigger] self.node_sets@[name][i] < self.nodes.len()
        &&& forall|name: Seq<char>, i: int|
            self.face_sets@.dom().contains(name) && 0 <= i < self.face_sets@[name].len()
                ==> #[trigger] self.face_sets@[name][i] < self.faces.len()
    }

    /// Whether one of the first `upto` hexahedra belongs to a part and has `x`
    /// for a corner.
    pub open spec fn touched(self, x: usize, part: usize, upto: int) -> bool {
        corner_of(self.hexes@, self.hex_part@, x, part, upto)
    }

    /// Whether a node belongs to a part.
    pub open spec fn in_part(self, x: usize, part: usize) -> bool {
        self.touched(x, part, self.hexes.len() as int)
    }

    /// The nodes of a part in ascending order.
    pub open spec fn node_list(self, part: usize) -> Seq<usize> {
        ascending_nodes(self.hexes@, self.hex_part@, part)
    }

    /// Whether a list is that of the nodes of a part in ascending order.
    pub open spec fn lists_part(self, s: Seq<usize>, part: usize) -> bool {
        lists_nodes(self.hexes@, self.hex_part@, s, part)
    }

    /// An ascending list of the nodes of a part is the one such list.
    pub proof fn lemma_node_list(self, s: Seq<usize>, part: usize)
        requires
            self.lists_part(s, part),
        ensures
            s == self.node_list(part),
    {
        let t = self.node_list(part);
        assert(self.lists_part(t, part));
        assert forall|x: usize| s.contains(x) <==> t.contains(x) by {
            assert(s.contains(x) <==> self.in_part(x, part));
            assert(t.contains(x) <==> self.in_part(x, part));
        }
        law_ascending_is_canonical(s, t);
    }

    /// The first part of a name.
    pub open spec fn is_part(self, name: Seq<char>, p: int) -> bool {
        &&& 0 <= p < self.parts.len()
        &&& self.parts[p].name@ == name
        &&& forall|i: int| 0 <= i < p ==> (#[trigger] self.parts[i]).name@ != name
    }

    /// Whether a part has a name.
    pub open spec fn has_part(self, name: Seq<char>) -> bool {
        exists|i: int| 0 <= i < self.parts.len() && (#[trigger] self.parts[i]).name@ == name
    }

    /// Whether a list holds nodes of the mesh alone.
    pub open spec fn nodes_exist(self, s: Seq<usize>) -> bool {
        forall|i: int| 0 <= i < s.len() ==> #[trigger] s[i] < self.nodes.len()
    }

    pub proof fn lemma_part_nodes_exist(self, s: Seq<usize>, part: usize)
        requires
            self.wf(),
            self.lists_part(s, part),
        ensures
            self.nodes_exist(s),
    {
        assert forall|i: int| 0 <= i < s.len() implies #[trigger] s[i] < self.nodes.len() by {
            assert(s.contains(s[i]));
            assert(self.in_part(s[i], part));
            let e = choose|e: int|
                0 <= e < self.hexes.len() && #[trigger] self.hex_part[e] == part
                    && self.hexes[e]@.contains(s[i]);
            let c = choose|c: int| 0 <= c < 8 && self.hexes[e]@[c] == s[i];
            assert(self.hexes[e]@[c] < self.nodes.len());
        }
    }

    pub proof fn lemma_corners_exist(self, s: Seq<usize>, list: Seq<usize>)
        requires
            self.wf(),
            self.lists_corners(s, list),
            forall|k: int| 0 <= k < list.len() ==> #[trigger] list[k] < self.faces.len(),
        ensures
            self.nodes_exist(s),
    {
        assert forall|i: int| 0 <= i < s.len() implies #[trigger] s[i] < self.nodes.len() by {
            assert(s.contains(s[i]));
            assert(self.on_faces(list, s[i], list.len() as int));
            let k = choose|k: int|
                0 <= k < list.len() && self.faces[#[trigger] list[k] as int]@.contains(s[i]);
            let f = list[k] as int;
            let q = choose|q: int| 0 <= q < 4 && self.faces[f]@[q] == s[i];
            assert(self.faces[f]@[q] < self.nodes.len());
        }
    }

    /// Index of the first part of a name.
    pub open spec fn first_part(self, name: Seq<char>) -> int {
        choose|p: int| self.is_part(name, p)
    }

    /// The node set of a name or, failing that, the nodes of the part of that
    /// name.
    pub open spec fn named_nodes(self, name: Seq<char>) -> Option<Seq<usize>> {
        if self.node_sets@.dom().contains(name) {
            Some(self.node_sets@[name])
        } else if self.has_part(name) {
            Some(self.node_list(self.first_part(name) as usize))
        } else {
            None
        }
    }

    pub proof fn lemma_first_part(self, name: Seq<char>, p: int)
        requires
            self.is_part(name, p),
        ensures
            self.first_part(name) == p,
            self.has_part(name),
    {
        let q = self.first_part(name);
        assert(self.is_part(name, q));
        if q < p {
            assert(self.parts[q].name@ != name);
        } else if p < q {
            assert(self.parts[p].name@ != name);
        }
    }

    pub fn new() -> (r: Self)
        ensures
            r.wf(),
            r.nodes@ == Seq::<P>::empty(),
            r.hexes@ == Seq::<[usize; 8]>::empty(),
            r.hex_part@ == Seq::<usize>::empty(),
            r.parts@ == Seq::<Part>::empty(),
            r.faces@ == Seq::<[usize; 4]>::empty(),
            r.node_sets@ == Map::<Seq<char>, Seq<usize>>::empty(),
            r.face_sets@ == Map::<Seq<char>, Seq<usize>>::empty(),
    {
        Mesh {
            nodes: Vec::new(),
            hexes: Vec::new(),
            hex_part: Vec::new(),
            parts: Vec::new(),
            faces: Vec::new(),
            node_sets: NamedSets::new(),
            face_sets: NamedSets::new(),
        }
    }

    /// Appends an empty part and gives its index.
    pub fn add_part(&mut self, name: &str) -> (p: usize)
        ensures
            p == old(self).parts.len(),
            final(self).parts.len() == p + 1,
            final(self).parts@.take(p as int) == old(self).parts@,
            final(self).parts[p as int].name@ == name@,
            final(self).nodes == old(self).nodes,
            final(self).hexes == old(self).hexes,
            final(self).hex_part == old(self).hex_part,
            final(self).faces == old(self).faces,
            final(self).node_sets == old(self).node_sets,
            final(self).face_sets == old(self).face_sets,
    {
        self.parts.push(Part { name: name.to_string() });
        assert(self.parts@.take(old(self).parts.len() as int) =~= old(self).parts@);
        self.parts.len() - 1
    }

    /// Index of the first part of a name.
    pub fn part_index(&self, name: &str) -> (r: Option<usize>)
        ensures
            match r {
                Some(p) => self.has_part(name@) && p == self.first_part(name@) && self.is_part(
                    name@,
                    p as int,
                ),
                None => !self.has_part(name@),
            },
    {
        let mut i: usize = 0;
        while i < self.parts.len()
            invariant
                i <= self.parts.len(),
                forall|k: int| 0 <= k < i ==> (#[trigger] self.parts[k]).name@ != name@,
            decreases self.parts.len() - i,
        {
            if same_text(&self.parts[i].name, name) {
                proof {
                    self.lemma_first_part(name@, i as int);
                }
                return Some(i);
            }
            i += 1;
        }
        None
    }

    /// Hexahedra of a part, ascending.
    pub fn part_hexes(&self, part: usize) -> (r: Vec<usize>)
        requires
            self.hexes.len() <= self.hex_part.len(),
        ensures
            ascending(r@),
            forall|e: usize|
                #[trigger] r@.contains(e) <==> e < self.hexes.len() && self.hex_part[e as int]
                    == part,
    {
        let mut r: Vec<usize> = Vec::new();
        let mut e: usize = 0;
        while e < self.hexes.len()
            invariant
                e <= self.hexes.len() <= self.hex_part.len(),
                ascending(r@),
                forall|k: int| 0 <= k < r@.len() ==> #[trigger] r@[k] < e,
                forall|x: usize|
                    #[trigger] r@.contains(x) <==> x < e && self.hex_part[x as int] == part,
            decreases self.hexes.len() - e,
        {
            if self.hex_part[e] == part {
                let ghost was = r@;
                r.push(e);
                assert forall|x: usize|
                    #[trigger] r@.contains(x) <==> x < e + 1 && self.hex_part[x as int]
                        == part by {
                    if r@.contains(x) {
                        let k = choose|k: int| 0 <= k < r@.len() && r@[k] == x;
                        if k < was.len() {
                            assert(was[k] == x);
                            assert(was.contains(x));
                        }
                    }
                    if was.contains(x) {
                        let k = choose|k: int| 0 <= k < was.len() && was[k] == x;
                        assert(r@[k] == x);
                    }
                    assert(r@[was.len() as int] == e);
                    if x < e && self.hex_part[x as int] == part {
                        assert(was.contains(x));
                    }
                }
            }
            e += 1;
        }
        r
    }

    /// Nodes of a part, ascending.
    pub fn part_nodes(&self, part: usize) -> (r: Vec<usize>)
        requires
            self.hexes.len() <= self.hex_part.len(),
        ensures
            self.lists_part(r@, part),
            r@ == self.node_list(part),
    {
        let mut r: Vec<usize> = Vec::new();
        let mut e: usize = 0;
        while e < self.hexes.len()
            invariant
                e <= self.hexes.len() <= self.hex_part.len(),
                ascending(r@),
                forall|x: usize| #[trigger] r@.contains(x) <==> self.touched(x, part, e as int),
            decreases self.hexes.len() - e,
        {
            let ghost was = r@;
            if self.hex_part[e] == part {
                insert_all(&mut r, &self.hexes[e]);
            }
            assert forall|x: usize| #[trigger]
                r@.contains(x) <==> self.touched(x, part, e + 1) by {
                assert(was.contains(x) <==> self.touched(x, part, e as int));
                if self.touched(x, part, e as int) {
                    let w = choose|w: int|
                        0 <= w < e && #[trigger] self.hex_part[w] == part
                            && self.hexes[w]@.contains(x);
                    assert(self.hex_part[w] == part && self.hexes[w]@.contains(x));
                }
                if self.hex_part[e as int] == part && self.hexes[e as int]@.contains(x) {
                    assert(self.touched(x, part, e + 1));
                }
            }
            e += 1;
        }
        proof {
            self.lemma_node_list(r@, part);
        }
        r
    }

    /// Nodes of a named node set or, failing that, of a part by name.
    pub fn nodes_of(&self, name: &str) -> (r: Option<Vec<usize>>)
        requires
            self.hexes.len() <= self.hex_part.len(),
            self.node_sets.wf(),
        ensures
            match r {
                Some(v) => self.named_nodes(name@) == Some(v@),
                None => self.named_nodes(name@) is None,
            },
            self.wf() && r is Some ==> self.nodes_exist(r->0@),
    {
        match self.node_sets.get(name) {
            Some(set) => {
                let v: Vec<usize> = copy_of(set);
                proof {
                    if self.wf() {
                        assert forall|i: int| 0 <= i < v@.len() implies #[trigger] v@[i]
                            < self.nodes.len() by {
                            assert(self.node_sets@[name@][i] < self.nodes.len());
                        }
                    }
                }
                Some(v)
            },
            None => match self.part_index(name) {
                Some(p) => {
                    let v: Vec<usize> = self.part_nodes(p);
                    proof {
                        if self.wf() {
                            self.lemma_part_nodes_exist(v@, p);
                        }
                    }
                    Some(v)
                },
                None => None,
            },
        }
    }

    /// A named face set.
    pub fn face_set(&self, name: &str) -> (r: Option<&Vec<usize>>)
        requires
            self.face_sets.wf(),
        ensures
            match r {
                Some(v) => self.face_sets@.dom().contains(name@) && v@ == self.face_sets@[name@],
                None => !self.face_sets@.dom().contains(name@),
            },
    {
        self.face_sets.get(name)
    }

    /// Whether `x` is a corner of one of the first `upto` faces listed.
    pub open spec fn on_faces(self, list: Seq<usize>, x: usize, upto: int) -> bool {
        exists|k: int| 0 <= k < upto && self.faces[#[trigger] list[k] as int]@.contains(x)
    }

    /// Whether a list is that of the corners of the listed faces, ascending.
    pub open spec fn lists_corners(self, s: Seq<usize>, list: Seq<usize>) -> bool {
        ascending(s) && forall|x: usize| #[trigger]
            s.contains(x) <==> self.on_faces(list, x, list.len() as int)
    }

    /// Nodes of the listed faces, ascending.
    fn corners_of(&self, list: &Vec<usize>) -> (r: Vec<usize>)
        requires
            forall|k: int| 0 <= k < list@.len() ==> #[trigger] list@[k] < self.faces.len(),
        ensures
            self.lists_corners(r@, list@),
    {
        let mut r: Vec<usize> = Vec::new();
        let mut i: usize = 0;
        while i < list.len()
            invariant
                i <= list@.len(),
                forall|k: int| 0 <= k < list@.len() ==> #[trigger] list@[k] < self.faces.len(),
                ascending(r@),
                forall|x: usize| #[trigger] r@.contains(x) <==> self.on_faces(list@, x, i as int),
            decreases list.len() - i,
        {
            let ghost was = r@;
            assert(list@[i as int] < self.faces.len());
            insert_all(&mut r, &self.faces[list[i]]);
            assert forall|x: usize| #[trigger] r@.contains(x) <==> self.on_faces(
                list@,
                x,
                i + 1,
            ) by {
                assert(was.contains(x) <==> self.on_faces(list@, x, i as int));
                if self.on_faces(list@, x, i as int) {
                    let k = choose|k: int|
                        0 <= k < i && self.faces[#[trigger] list@[k] as int]@.contains(x);
                    assert(self.faces[list@[k] as int]@.contains(x));
                }
                if self.faces[list@[i as int] as int]@.contains(x) {
                    assert(self.on_faces(list@, x, i + 1));
                }
            }
            i += 1;
        }
        r
    }

    /// Nodes referenced by a face set, ascending.
    pub fn face_set_nodes(&self, name: &str) -> (r: Option<Vec<usize>>)
        requires
            self.face_sets.wf(),
            self.face_sets@.dom().contains(name@) ==> forall|k: int|
                0 <= k < self.face_sets@[name@].len() ==> #[trigger] self.face_sets@[name@][k]
                    < self.faces.len(),
        ensures
            match r {
                None => !self.face_sets@.dom().contains(name@),
                Some(v) => self.face_sets@.dom().contains(name@) && self.lists_corners(
                    v@,
                    self.face_sets@[name@],
                ),
            },
    {
        match self.face_sets.get(name) {
            Some(list) => Some(self.corners_of(list)),
            None => None,
        }
    }

    /// Whether a node is looked at when searching a part, or all the mesh.
    pub open spec fn candidate(self, x: usize, part: Option<usize>) -> bool {
        match part {
            Some(p) => self.in_part(x, p),
            None => x < self.nodes.len(),
        }
    }

    /// The nodes of a part, or all, ascending.
    pub fn candidates(&self, part: Option<usize>) -> (r: Vec<usize>)
        requires
            self.hexes.len() <= self.hex_part.len(),
        ensures
            ascending(r@),
            forall|x: usize| #[trigger] r@.contains(x) <==> self.candidate(x, part),
    {
        match part {
            Some(p) => self.part_nodes(p),
            None => {
                let r: Vec<usize> = range(0, self.nodes.len());
                assert forall|x: usize| #[trigger] r@.contains(x) <==> x < self.nodes.len() by {
                    if x < self.nodes.len() {
                        assert(r@[x as int] == x);
                    }
                }
                r
            },
        }
    }

    /// Node nearest a point, optionally restricted to a part: the first whose
    /// distance (or its square) is least.
    pub fn nearest_node(&self, distance: &Vec<Real>, part: Option<usize>) -> (n: usize)
        requires
            self.hexes.len() <= self.hex_part.len(),
            exists|x: usize| #[trigger] self.candidate(x, part),
            forall|x: usize| #[trigger] self.candidate(x, part) ==> x < distance.len(),
            forall|x: usize, y: usize| #[trigger]
                self.candidate(x, part) && #[trigger] self.candidate(y, part) && x != y
                    ==> !distance[x as int].nan(),
        ensures
            self.candidate(n, part),
            forall|x: usize| #[trigger]
                self.candidate(x, part) && x != n ==> {
                    ||| distance[n as int].order() < distance[x as int].order()
                    ||| distance[n as int].order() == distance[x as int].order() && n < x
                },
    {
        let list: Vec<usize> = self.candidates(part);
        proof {
            let x = choose|x: usize| #[trigger] self.candidate(x, part);
            assert(list@.contains(x));
            assert forall|k: int| 0 <= k < list@.len() implies #[trigger] list@[k]
                < distance.len() by {
                assert(list@.contains(list@[k]));
            }
        }
        if list.len() == 1 {
            proof {
                assert(list@.contains(list@[0]));
                assert forall|x: usize| #[trigger] self.candidate(x, part) implies x
                    == list@[0] by {
                    assert(list@.contains(x));
                }
            }
            return list[0];
        }
        let mut d: Vec<Real> = Vec::new();
        let mut i: usize = 0;
        while i < list.len()
            invariant
                i <= list.len(),
                forall|k: int| 0 <= k < list@.len() ==> #[trigger] list@[k] < distance.len(),
                d@.len() == i,
                forall|k: int| 0 <= k < i ==> #[trigger] d@[k] == distance[list@[k] as int],
            decreases list.len() - i,
        {
            assert(list@[i as int] < distance.len());
            d.push(distance[list[i]]);
            i += 1;
        }
        proof {
            assert forall|k: int| 0 <= k < d@.len() implies !(#[trigger] d@[k]).nan() by {
                let other = if k == 0 {
                    1int
                } else {
                    0int
                };
                assert(list@.contains(list@[k]));
                assert(list@.contains(list@[other]));
                assert(self.candidate(list@[k], part));
                assert(self.candidate(list@[other], part));
                if k < other {
                    assert(list@[k] < list@[other]);
                } else {
                    assert(list@[other] < list@[k]);
                }
            }
        }
        let at: usize = first_min(&d);
        proof {
            let n = list@[at as int];
            assert(list@.contains(n));
            assert forall|x: usize| #[trigger] self.candidate(x, part) && x != n implies {
                ||| distance[n as int].order() < distance[x as int].order()
                ||| distance[n as int].order() == distance[x as int].order() && n < x
            } by {
                assert(list@.contains(x));
                let k = choose|k: int| 0 <= k < list@.len() && list@[k] == x;
                assert(d@[k] == distance[x as int]);
                assert(d@[at as int].order() <= d@[k].order());
                if k < at {
                    assert(d@[at as int].order() < d@[k].order());
                } else {
                    assert(list@[at as int] < list@[k]);
                }
            }
        }
        list[at]
    }

    /// Whether a node may be chosen as a neighbour: another node, not excluded,
    /// apart from the first and not farther than the radius.
    pub open spec fn neighbourly(
        node: usize,
        exclude: Seq<usize>,
        distance: Seq<Real>,
        radius: Real,
    ) -> spec_fn(usize) -> bool {
        |n: usize|
            n != node && !exclude.contains(n) && !radius.below(distance[n as int])
                && !distance[n as int].equals(Real::spec_zero())
    }

    /// Among the nodes of `part` within `radius` of `node` (excluding
    /// `exclude`), the one whose direction from `node` is best aligned; with
    /// the cosine of the alignment. `distance` and `cosine` give, for each
    /// node, how far it lies from `node` and how well aligned it is.
    pub fn best_aligned_neighbour(
        &self,
        node: usize,
        distance: &Vec<Real>,
        cosine: &Vec<Real>,
        radius: Real,
        part: Option<usize>,
        exclude: &[usize],
    ) -> (r: Option<(usize, Real)>)
        requires
            self.hexes.len() <= self.hex_part.len(),
            forall|x: usize| #[trigger]
                self.candidate(x, part) ==> x < distance.len() && x < cosine.len(),
        ensures
            exists|list: Seq<usize>|
                {
                    &&& #[trigger] ascending(list)
                    &&& forall|x: usize| #[trigger] list.contains(x) <==> self.candidate(x, part)
                    &&& match lead(
                        list,
                        cosine@,
                        Self::neighbourly(node, exclude@, distance@, radius),
                        list.len() as int,
                    ) {
                        Some(n) => r == Some((n, cosine[n as int])),
                        None => r is None,
                    }
                },
    {
        let list: Vec<usize> = self.candidates(part);
        assert forall|k: int| 0 <= k < list@.len() implies #[trigger] list@[k] < distance.len()
            && list@[k] < cosine.len() by {
            assert(list@.contains(list@[k]));
        }
        let ghost eligible = Self::neighbourly(node, exclude@, distance@, radius);
        let mut best: Option<usize> = None;
        let mut i: usize = 0;
        while i < list.len()
            invariant
                i <= list.len(),
                forall|k: int|
                    0 <= k < list@.len() ==> #[trigger] list@[k] < distance.len() && list@[k]
                        < cosine.len(),
                eligible == Self::neighbourly(node, exclude@, distance@, radius),
                best == lead(list@, cosine@, eligible, i as int),
                best matches Some(b) ==> b < cosine.len(),
            decreases list.len() - i,
        {
            let n: usize = list[i];
            assert(list@[i as int] < distance.len());
            let d: Real = distance[n];
            if n != node && !holds(exclude, n) && !radius.lt(d) && !d.same(Real::zero()) {
                let ahead: bool = match best {
                    None => true,
                    Some(b) => cosine[b].lt(cosine[n]),
                };
                if ahead {
                    best = Some(n);
                }
            }
            i += 1;
        }
        match best {
            Some(n) => Some((n, cosine[n])),
            None => None,
        }
    }

    /// The ends of every element edge, element by element.
    pub fn edges(&self) -> (r: Vec<[usize; 2]>)
        ensures
            r@.len() == 12 * self.hexes@.len(),
            forall|e: int, k: int|
                0 <= e < self.hexes@.len() && 0 <= k < 12 ==> (#[trigger] r@[12 * e + k])@ == seq![
                    self.hexes[e]@[edge_ends(k).0],
                    self.hexes[e]@[edge_ends(k).1],
                ],
    {
        let mut r: Vec<[usize; 2]> = Vec::new();
        let mut e: usize = 0;
        while e < self.hexes.len()
            invariant
                e <= self.hexes@.len(),
                r@.len() == 12 * e,
                forall|d: int, k: int|
                    0 <= d < e && 0 <= k < 12 ==> (#[trigger] r@[12 * d + k])@ == seq![
                        self.hexes[d]@[edge_ends(k).0],
                        self.hexes[d]@[edge_ends(k).1],
                    ],
            decreases self.hexes.len() - e,
        {
            let h: [usize; 8] = self.hexes[e];
            let mut k: usize = 0;
            while k < 12
                invariant
                    k <= 12,
                    e < self.hexes@.len(),
                    h == self.hexes[e as int],
                    r@.len() == 12 * e + k,
                    forall|d: int, c: int|
                        0 <= d < e && 0 <= c < 12 ==> (#[trigger] r@[12 * d + c])@ == seq![
                            self.hexes[d]@[edge_ends(c).0],
                            self.hexes[d]@[edge_ends(c).1],
                        ],
                    forall|c: int|
                        0 <= c < k ==> (#[trigger] r@[12 * e + c])@ == seq![
                            h@[edge_ends(c).0],
                            h@[edge_ends(c).1],
                        ],
                decreases 12 - k,
            {
                let (a, b): (usize, usize) = if k < 4 {
                    (k, (k + 1) % 4)
                } else if k < 8 {
                    (k, 4 + (k + 1) % 4)
                } else {
                    (k - 8, k - 4)
                };
                let edge: [usize; 2] = [h[a], h[b]];
                assert(edge@ =~= seq![h@[a as int], h@[b as int]]);
                r.push(edge);
                k += 1;
            }
            assert forall|d: int, c: int| 0 <= d < e + 1 && 0 <= c < 12 implies (
            #[trigger] r@[12 * d + c])@ == seq![
                self.hexes[d]@[edge_ends(c).0],
                self.hexes[d]@[edge_ends(c).1],
            ] by {
                if d == e {
                    assert(r@[12 * e + c]@ == seq![h@[edge_ends(c).0], h@[edge_ends(c).1]]);
                }
            }
            e += 1;
        }
        r
    }

    /// Smallest edge length over all hexahedra, of the lengths of the edges in
    /// the order of [`Mesh::edges`].
    pub fn min_edge_length(&self, lengths: &Vec<Real>) -> (r: Real)
        requires
            lengths@.len() == 12 * self.hexes@.len(),
        ensures
            r == least_from(Real::spec_infinity(), lengths@),
    {
        fold_min(Real::infinity(), lengths)
    }
}


/// The spans of faces listed earlier lie before those listed later.
proof fn lemma_quads_before(n: [usize; 3], surfaces: Seq<(BlockFace, Seq<char>)>, s: int, t: int)
    requires
        0 <= s <= t <= surfaces.len(),
    ensures
        0 <= quads_before(n, surfaces, s) <= quads_before(n, surfaces, t),
    decreases t,
{
    if t > 0 {
        let face = surfaces[t - 1].0;
        let (a, b) = (along(n, face, 1), along(n, face, 2));
        assert(a * b >= 0) by (nonlinear_arith)
            requires
                a >= 0,
                b >= 0,
        ;
        if s < t {
            lemma_quads_before(n, surfaces, s, t - 1);
        } else {
            lemma_quads_before(n, surfaces, t - 1, t - 1);
        }
    }
}

impl<P> Mesh<P> {
    /// The nodes from `node0` on are the lattice points of a block, placed by
    /// `position`.
    pub open spec fn block_placed<F: Fn(usize, usize, usize) -> P>(
        self,
        node0: int,
        n: [usize; 3],
        position: F,
    ) -> bool {
        forall|e: int|
            0 <= e < block_nodes(n) ==> {
                let (i, j, k) = unflat(n@[0] + 1, n@[1] + 1, e);
                call_ensures(
                    position,
                    (i as usize, j as usize, k as usize),
                    #[trigger] self.nodes[node0 + e],
                )
            }
    }

    /// The hexahedra from `hex0` on are the cells of a block whose nodes start
    /// at `node0`, all of one part.
    pub open spec fn block_filled(
        self,
        hex0: int,
        node0: int,
        n: [usize; 3],
        part: usize,
    ) -> bool {
        &&& forall|e: int, c: int|
            0 <= e < block_hexes(n) && 0 <= c < 8 ==> #[trigger] self.hexes[hex0 + e]@[c]
                == node_at(node0, n, hex_point(n, e, c))
        &&& forall|e: int|
            0 <= e < block_hexes(n) ==> #[trigger] self.hex_part[hex0 + e] == part
    }

    /// The faces from `face0` on are the quads of one face of a block.
    pub open spec fn face_covered(
        self,
        face0: int,
        node0: int,
        n: [usize; 3],
        face: BlockFace,
    ) -> bool {
        forall|f: int, q: int|
            0 <= f < face_quads(n, face) && 0 <= q < 4 ==> #[trigger] self.faces[face0 + f]@[q]
                == node_at(node0, n, quad_point(n, face, f, q))
    }

    fn push_block_nodes<F: Fn(usize, usize, usize) -> P>(&mut self, n: &[usize; 3], position: &F)
        requires
            old(self).nodes.len() + block_nodes(*n) <= usize::MAX,
            forall|i: usize, j: usize, k: usize|
                i <= n@[0] && j <= n@[1] && k <= n@[2] ==> #[trigger] call_requires(
                    *position,
                    (i, j, k),
                ),
        ensures
            final(self).nodes.len() == old(self).nodes.len() + block_nodes(*n),
            final(self).nodes@.take(old(self).nodes.len() as int) == old(self).nodes@,
            final(self).block_placed(old(self).nodes.len() as int, *n, *position),
            final(self).hexes == old(self).hexes,
            final(self).hex_part == old(self).hex_part,
            final(self).parts == old(self).parts,
            final(self).faces == old(self).faces,
            final(self).node_sets == old(self).node_sets,
            final(self).face_sets == old(self).face_sets,
    {
        proof {
            lemma_block_sizes(*n);
        }
        let (a, b, c): (usize, usize, usize) = (n[0] + 1, n[1] + 1, n[2] + 1);
        let total: usize = a * b * c;
        let ghost node0 = self.nodes.len() as int;
        let mut e: usize = 0;
        while e < total
            invariant
                e <= total,
                a == n@[0] + 1,
                b == n@[1] + 1,
                c == n@[2] + 1,
                total == block_nodes(*n),
                node0 == old(self).nodes.len(),
                forall|i: usize, j: usize, k: usize|
                    i <= n@[0] && j <= n@[1] && k <= n@[2] ==> #[trigger] call_requires(
                        *position,
                        (i, j, k),
                    ),
                self.nodes.len() == node0 + e,
                self.nodes@.take(node0) == old(self).nodes@,
                forall|d: int|
                    0 <= d < e ==> {
                        let (i, j, k) = unflat(a as int, b as int, d);
                        call_ensures(
                            *position,
                            (i as usize, j as usize, k as usize),
                            #[trigger] self.nodes[node0 + d],
                        )
                    },
                self.hexes == old(self).hexes,
                self.hex_part == old(self).hex_part,
                self.parts == old(self).parts,
                self.faces == old(self).faces,
                self.node_sets == old(self).node_sets,
                self.face_sets == old(self).face_sets,
            decreases total - e,
        {
            proof {
                lemma_unflat(a as int, b as int, c as int, e as int);
            }
            let (i, j, k): (usize, usize, usize) = (e % a, e / a % b, e / a / b);
            let p: P = position(i, j, k);
            let ghost was = self.nodes@;
            self.nodes.push(p);
            assert(self.nodes@.take(node0) =~= was.take(node0));
            assert forall|d: int| 0 <= d < e + 1 implies {
                let (i, j, k) = unflat(a as int, b as int, d);
                call_ensures(
                    *position,
                    (i as usize, j as usize, k as usize),
                    #[trigger] self.nodes[node0 + d],
                )
            } by {
                if d < e {
                    assert(self.nodes[node0 + d] == was[node0 + d]);
                }
            }
            e += 1;
        }
    }

    fn push_block_hexes(&mut self, n: &[usize; 3], node0: usize, part: usize)
        requires
            n@[0] > 0,
            n@[1] > 0,
            n@[2] > 0,
            node0 + block_nodes(*n) <= usize::MAX,
            old(self).hexes.len() == old(self).hex_part.len(),
        ensures
            final(self).hexes.len() == old(self).hexes.len() + block_hexes(*n),
            final(self).hex_part.len() == final(self).hexes.len(),
            final(self).hexes@.take(old(self).hexes.len() as int) == old(self).hexes@,
            final(self).hex_part@.take(old(self).hex_part.len() as int) == old(self).hex_part@,
            final(self).block_filled(old(self).hexes.len() as int, node0 as int, *n, part),
            final(self).nodes == old(self).nodes,
            final(self).parts == old(self).parts,
            final(self).faces == old(self).faces,
            final(self).node_sets == old(self).node_sets,
            final(self).face_sets == old(self).face_sets,
    {
        proof {
            lemma_block_sizes(*n);
        }
        let total: usize = n[0] * n[1] * n[2];
        let ghost hex0 = self.hexes.len() as int;
        let mut e: usize = 0;
        while e < total
            invariant
                e <= total,
                n@[0] > 0,
                n@[1] > 0,
                n@[2] > 0,
                total == block_hexes(*n),
                node0 + block_nodes(*n) <= usize::MAX,
                hex0 == old(self).hexes.len(),
                hex0 == old(self).hex_part.len(),
                self.hexes.len() == hex0 + e,
                self.hex_part.len() == hex0 + e,
                self.hexes@.take(hex0) == old(self).hexes@,
                self.hex_part@.take(hex0) == old(self).hex_part@,
                forall|d: int, c: int|
                    0 <= d < e && 0 <= c < 8 ==> #[trigger] self.hexes[hex0 + d]@[c] == node_at(
                        node0 as int,
                        *n,
                        hex_point(*n, d, c),
                    ),
                forall|d: int| 0 <= d < e ==> #[trigger] self.hex_part[hex0 + d] == part,
                self.nodes == old(self).nodes,
                self.parts == old(self).parts,
                self.faces == old(self).faces,
                self.node_sets == old(self).node_sets,
                self.face_sets == old(self).face_sets,
            decreases total - e,
        {
            proof {
                lemma_unflat(n@[0] as int, n@[1] as int, n@[2] as int, e as int);
            }
            let (i, j, k): (usize, usize, usize) = (e % n[0], e / n[0] % n[1], e / n[0] / n[1]);
            let hex: [usize; 8] = [
                node_number(node0, n, i, j, k),
                node_number(node0, n, i + 1, j, k),
                node_number(node0, n, i + 1, j + 1, k),
                node_number(node0, n, i, j + 1, k),
                node_number(node0, n, i, j, k + 1),
                node_number(node0, n, i + 1, j, k + 1),
                node_number(node0, n, i + 1, j + 1, k + 1),
                node_number(node0, n, i, j + 1, k + 1),
            ];
            assert forall|c: int| 0 <= c < 8 implies #[trigger] hex@[c] == node_at(
                node0 as int,
                *n,
                hex_point(*n, e as int, c),
            ) by {
                if c == 0 {
                } else if c == 1 {
                } else if c == 2 {
                } else if c == 3 {
                } else if c == 4 {
                } else if c == 5 {
                } else if c == 6 {
                } else {
                    assert(c == 7);
                }
            }
            let ghost was = self.hexes@;
            let ghost was_part = self.hex_part@;
            self.hexes.push(hex);
            self.hex_part.push(part);
            assert(self.hexes@.take(hex0) =~= was.take(hex0));
            assert(self.hex_part@.take(hex0) =~= was_part.take(hex0));
            assert forall|d: int, c: int| 0 <= d < e + 1 && 0 <= c < 8 implies #[trigger] self.hexes[
            hex0 + d]@[c] == node_at(node0 as int, *n, hex_point(*n, d, c)) by {
                if d < e {
                    assert(self.hexes[hex0 + d] == was[hex0 + d]);
                } else {
                    assert(self.hexes[hex0 + d] == hex);
                }
            }
            e += 1;
        }
    }

    fn push_block_face(&mut self, n: &[usize; 3], node0: usize, face: BlockFace) -> (set: Vec<
        usize,
    >)
        requires
            n@[0] > 0,
            n@[1] > 0,
            n@[2] > 0,
            node0 + block_nodes(*n) <= usize::MAX,
        ensures
            final(self).faces.len() == old(self).faces.len() + face_quads(*n, face),
            final(self).faces@.take(old(self).faces.len() as int) == old(self).faces@,
            final(self).face_covered(old(self).faces.len() as int, node0 as int, *n, face),
            set@ == index_range(
                old(self).faces.len() as int,
                old(self).faces.len() + face_quads(*n, face),
            ),
            final(self).nodes == old(self).nodes,
            final(self).hexes == old(self).hexes,
            final(self).hex_part == old(self).hex_part,
            final(self).parts == old(self).parts,
            final(self).node_sets == old(self).node_sets,
            final(self).face_sets == old(self).face_sets,
    {
        proof {
            lemma_block_sizes(*n);
        }
        let (a, far): (usize, bool) = face.axis_and_side();
        let (b, c): (usize, usize) = ((a + 1) % 3, (a + 2) % 3);
        let on: usize = if far {
            n[a]
        } else {
            0
        };
        assert(face_quads(*n, face) == n@[b as int] * n@[c as int]);
        assert(n@[2] * n@[0] == n@[0] * n@[2]) by (nonlinear_arith);
        let total: usize = n[b] * n[c];
        let ghost face0 = self.faces.len() as int;
        let mut set: Vec<usize> = Vec::new();
        let mut f: usize = 0;
        while f < total
            invariant
                f <= total,
                n@[0] > 0,
                n@[1] > 0,
                n@[2] > 0,
                a == face.axis(),
                far == face.far(),
                b == (a + 1) % 3,
                c == (a + 2) % 3,
                on == if far {
                    along(*n, face, 0)
                } else {
                    0
                },
                total == face_quads(*n, face),
                node0 + block_nodes(*n) <= usize::MAX,
                face0 == old(self).faces.len(),
                self.faces.len() == face0 + f,
                self.faces@.take(face0) == old(self).faces@,
                forall|d: int, q: int|
                    0 <= d < f && 0 <= q < 4 ==> #[trigger] self.faces[face0 + d]@[q] == node_at(
                        node0 as int,
                        *n,
                        quad_point(*n, face, d, q),
                    ),
                set@ =~= index_range(face0, face0 + f),
                self.nodes == old(self).nodes,
                self.hexes == old(self).hexes,
                self.hex_part == old(self).hex_part,
                self.parts == old(self).parts,
                self.node_sets == old(self).node_sets,
                self.face_sets == old(self).face_sets,
            decreases total - f,
        {
            proof {
                lemma_quad_point(*n, face, f as int, 0);
            }
            let (u, v): (usize, usize) = (f % n[b], f / n[b]);
            let p0: usize = face_node(node0, n, face, on, u, v);
            let p1: usize = face_node(node0, n, face, on, u + 1, v);
            let p2: usize = face_node(node0, n, face, on, u + 1, v + 1);
            let p3: usize = face_node(node0, n, face, on, u, v + 1);
            let quad: [usize; 4] = if far {
                [p0, p1, p2, p3]
            } else {
                [p0, p3, p2, p1]
            };
            assert forall|q: int| 0 <= q < 4 implies #[trigger] quad@[q] == node_at(
                node0 as int,
                *n,
                quad_point(*n, face, f as int, q),
            ) by {
                if q == 0 {
                } else if q == 1 {
                } else if q == 2 {
                } else {
                    assert(q == 3);
                }
            }
            let ghost was = self.faces@;
            self.faces.push(quad);
            set.push(self.faces.len() - 1);
            assert(self.faces@.take(face0) =~= was.take(face0));
            assert forall|d: int, q: int| 0 <= d < f + 1 && 0 <= q < 4 implies #[trigger] self.faces[
            face0 + d]@[q] == node_at(node0 as int, *n, quad_point(*n, face, d, q)) by {
                if d < f {
                    assert(self.faces[face0 + d] == was[face0 + d]);
                } else {
                    assert(self.faces[face0 + d] == quad);
                }
            }
            f += 1;
        }
        set
    }
}

/// Number of the node at given coordinates on a face of a block.
fn face_node(
    node0: usize,
    n: &[usize; 3],
    face: BlockFace,
    on: usize,
    u: usize,
    v: usize,
) -> (id: usize)
    requires
        on <= along(*n, face, 0),
        u <= along(*n, face, 1),
        v <= along(*n, face, 2),
        node0 + block_nodes(*n) <= usize::MAX,
    ensures
        id == node_at(node0 as int, *n, point_on(face, on as int, u as int, v as int)),
{
    let (a, _far): (usize, bool) = face.axis_and_side();
    if a == 0 {
        node_number(node0, n, on, u, v)
    } else if a == 1 {
        node_number(node0, n, v, on, u)
    } else {
        node_number(node0, n, u, v, on)
    }
}


/// Every member of the face sets with a block's surfaces is a face that
/// exists by then.
proof fn lemma_sets_with(
    sets: Map<Seq<char>, Seq<usize>>,
    face0: int,
    n: [usize; 3],
    surfaces: Seq<(BlockFace, Seq<char>)>,
    s: int,
)
    requires
        0 <= s <= surfaces.len(),
        0 <= face0,
        face0 + quads_before(n, surfaces, s) <= usize::MAX,
        forall|name: Seq<char>, i: int|
            sets.dom().contains(name) && 0 <= i < sets[name].len() ==> #[trigger] sets[name][i]
                < face0,
    ensures
        forall|name: Seq<char>, i: int|
            sets_with(sets, face0, n, surfaces, s).dom().contains(name) && 0 <= i < sets_with(
                sets,
                face0,
                n,
                surfaces,
                s,
            )[name].len() ==> #[trigger] sets_with(sets, face0, n, surfaces, s)[name][i] < face0
                + quads_before(n, surfaces, s),
    decreases s,
{
    if s > 0 {
        lemma_quads_before(n, surfaces, s - 1, s);
        lemma_sets_with(sets, face0, n, surfaces, s - 1);
        let before = sets_with(sets, face0, n, surfaces, s - 1);
        let after = sets_with(sets, face0, n, surfaces, s);
        assert forall|name: Seq<char>, i: int|
            after.dom().contains(name) && 0 <= i < after[name].len() implies #[trigger] after[name][i]
            < face0 + quads_before(n, surfaces, s) by {
            if name != surfaces[s - 1].1 {
                assert(before.dom().contains(name));
                assert(after[name] == before[name]);
                assert(before[name][i] < face0 + quads_before(n, surfaces, s - 1));
            }
        }
    }
}

impl<P> Mesh<P> {
    /// The first `s` of the listed block faces are covered by the faces from
    /// `face0` on, one block face after the other.
    pub open spec fn surfaces_covered(
        self,
        face0: int,
        node0: int,
        n: [usize; 3],
        surfaces: Seq<(BlockFace, Seq<char>)>,
        s: int,
    ) -> bool {
        forall|t: int|
            0 <= t < s ==> #[trigger] self.face_covered(
                face0 + quads_before(n, surfaces, t),
                node0,
                n,
                surfaces[t].0,
            )
    }

    /// `self` is `before` with a block appended: `n` elements along each axis,
    /// as a new part, with the listed faces as face sets and its nodes as a node
    /// set of the part's name.
    pub open spec fn block_joined(
        self,
        before: Self,
        part: usize,
        name: Seq<char>,
        n: [usize; 3],
        surfaces: Seq<(BlockFace, Seq<char>)>,
    ) -> bool {
        let count = surfaces.len() as int;
        let node0 = before.nodes.len() as int;
        let hex0 = before.hexes.len() as int;
        let face0 = before.faces.len() as int;
        &&& part == before.parts.len()
        &&& self.parts.len() == part + 1
        &&& self.parts@.take(part as int) == before.parts@
        &&& self.parts[part as int].name@ == name
        &&& self.nodes.len() == node0 + block_nodes(n)
        &&& self.nodes@.take(node0) == before.nodes@
        &&& self.hexes.len() == hex0 + block_hexes(n)
        &&& self.hex_part.len() == self.hexes.len()
        &&& self.hexes@.take(hex0) == before.hexes@
        &&& self.hex_part@.take(hex0) == before.hex_part@
        &&& self.block_filled(hex0, node0, n, part)
        &&& self.faces.len() == face0 + quads_before(n, surfaces, count)
        &&& self.faces@.take(face0) == before.faces@
        &&& self.surfaces_covered(face0, node0, n, surfaces, count)
        &&& self.face_sets.wf()
        &&& self.face_sets@ == sets_with(before.face_sets@, face0, n, surfaces, count)
        &&& self.node_sets.wf()
        &&& self.node_sets@ == before.node_sets@.insert(
            name,
            index_range(node0, node0 + block_nodes(n)),
        )
    }

    /// Appends an axis-aligned block of hexahedra as a new part: `n` elements
    /// along each axis, its nodes placed by `position`.
    ///
    /// `surfaces` adds contact faces on the given block faces with outward
    /// normals, as face sets named accordingly. The part's nodes are also
    /// registered as a node set with the part's name.
    pub fn add_hex_block<F: Fn(usize, usize, usize) -> P>(
        &mut self,
        part_name: &str,
        n: [usize; 3],
        position: F,
        surfaces: &[(BlockFace, &str)],
    ) -> (part: usize)
        requires
            n@[0] > 0,
            n@[1] > 0,
            n@[2] > 0,
            old(self).nodes.len() + block_nodes(n) <= usize::MAX,
            forall|i: usize, j: usize, k: usize|
                i <= n@[0] && j <= n@[1] && k <= n@[2] ==> #[trigger] call_requires(
                    position,
                    (i, j, k),
                ),
            old(self).hexes.len() == old(self).hex_part.len(),
            old(self).node_sets.wf(),
            old(self).face_sets.wf(),
        ensures
            final(self).block_joined(*old(self), part, part_name@, n, labelled(surfaces@)),
            final(self).block_placed(old(self).nodes.len() as int, n, position),
            old(self).wf() ==> final(self).wf(),
    {
        let node0: usize = self.nodes.len();
        let ghost listed = labelled(surfaces@);
        let ghost hex0 = self.hexes.len() as int;
        let ghost face0 = self.faces.len() as int;
        self.push_block_nodes(&n, &position);
        let part: usize = self.add_part(part_name);
        self.push_block_hexes(&n, node0, part);
        let ghost filled = *self;
        let mut s: usize = 0;
        assert(self.faces@.take(face0) =~= old(self).faces@);
        while s < surfaces.len()
            invariant
                s <= surfaces@.len(),
                listed == labelled(surfaces@),
                n@[0] > 0,
                n@[1] > 0,
                n@[2] > 0,
                node0 + block_nodes(n) <= usize::MAX,
                face0 == old(self).faces.len(),
                self.nodes == filled.nodes,
                self.hexes == filled.hexes,
                self.hex_part == filled.hex_part,
                self.parts == filled.parts,
                self.node_sets == filled.node_sets,
                self.faces.len() == face0 + quads_before(n, listed, s as int),
                self.faces@.take(face0) == old(self).faces@,
                self.surfaces_covered(face0, node0 as int, n, listed, s as int),
                self.face_sets.wf(),
                self.face_sets@ == sets_with(
                    old(self).face_sets@,
                    face0,
                    n,
                    listed,
                    s as int,
                ),
            decreases surfaces.len() - s,
        {
            let ghost was = *self;
            let (face, name): (BlockFace, &str) = surfaces[s];
            let set: Vec<usize> = self.push_block_face(&n, node0, face);
            self.face_sets.insert(name, set);
            proof {
                lemma_quads_before(n, listed, 0, s as int);
                let kept = was.faces.len() as int;
                assert forall|i: int| 0 <= i < kept implies #[trigger] self.faces@[i]
                    == was.faces@[i] by {
                    assert(self.faces@.take(kept)[i] == was.faces@[i]);
                }
                assert(self.faces@.take(face0) =~= was.faces@.take(face0));
                assert forall|t: int| 0 <= t < s + 1 implies #[trigger] self.face_covered(
                    face0 + quads_before(n, listed, t),
                    node0 as int,
                    n,
                    listed[t].0,
                ) by {
                    if t < s {
                        let from = face0 + quads_before(n, listed, t);
                        lemma_quads_before(n, listed, t + 1, s as int);
                        lemma_quads_before(n, listed, 0, t);
                        assert(was.face_covered(from, node0 as int, n, listed[t].0));
                        assert forall|f: int, q: int|
                            0 <= f < face_quads(n, listed[t].0) && 0 <= q
                                < 4 implies #[trigger] self.faces[from + f]@[q] == node_at(
                            node0 as int,
                            n,
                            quad_point(n, listed[t].0, f, q),
                        ) by {
                            assert(self.faces@[from + f] == was.faces@[from + f]);
                            assert(was.faces[from + f]@[q] == node_at(
                                node0 as int,
                                n,
                                quad_point(n, listed[t].0, f, q),
                            ));
                        }
                    }
                }
            }
            s += 1;
        }
        let ghost covered = *self;
        let all: Vec<usize> = range(node0, self.nodes.len());
        self.node_sets.insert(part_name, all);
        proof {
            assert forall|e: int, c: int|
                0 <= e < block_hexes(n) && 0 <= c < 8 implies #[trigger] self.hexes[hex0 + e]@[c]
                == node_at(node0 as int, n, hex_point(n, e, c)) by {
                assert(filled.hexes[hex0 + e]@[c] == node_at(node0 as int, n, hex_point(n, e, c)));
            }
            assert(self.block_filled(hex0, node0 as int, n, part));
            assert forall|t: int| 0 <= t < listed.len() implies #[trigger] self.face_covered(
                face0 + quads_before(n, listed, t),
                node0 as int,
                n,
                listed[t].0,
            ) by {
                assert(covered.face_covered(
                    face0 + quads_before(n, listed, t),
                    node0 as int,
                    n,
                    listed[t].0,
                ));
            }
            if old(self).wf() {
                Self::lemma_block_wf(*old(self), *self, n, listed, part_name@, part);
            }
        }
        part
    }

    /// Face `i` of a mesh with a block's surfaces lies on one of them.
    proof fn lemma_face_on_surface(
        n: [usize; 3],
        surfaces: Seq<(BlockFace, Seq<char>)>,
        s: int,
        i: int,
    ) -> (t: int)
        requires
            0 <= s <= surfaces.len(),
            0 <= i < quads_before(n, surfaces, s),
        ensures
            0 <= t < s,
            quads_before(n, surfaces, t) <= i < quads_before(n, surfaces, t) + face_quads(
                n,
                surfaces[t].0,
            ),
        decreases s,
    {
        if i >= quads_before(n, surfaces, s - 1) {
            s - 1
        } else {
            Self::lemma_face_on_surface(n, surfaces, s - 1, i)
        }
    }

    proof fn lemma_block_wf(
        before: Self,
        after: Self,
        n: [usize; 3],
        surfaces: Seq<(BlockFace, Seq<char>)>,
        name: Seq<char>,
        part: usize,
    )
        requires
            before.wf(),
            n@[0] > 0,
            n@[1] > 0,
            n@[2] > 0,
            after.block_joined(before, part, name, n, surfaces),
        ensures
            after.wf(),
    {
        let node0 = before.nodes.len() as int;
        let hex0 = before.hexes.len() as int;
        let face0 = before.faces.len() as int;
        lemma_block_sizes(n);
        lemma_quads_before(n, surfaces, 0, surfaces.len() as int);
        assert forall|e: int, c: int|
            0 <= e < after.hexes.len() && 0 <= c < 8 implies #[trigger] after.hexes[e]@[c]
            < after.nodes.len() by {
            if e < hex0 {
                assert(after.hexes@.take(hex0)[e] == before.hexes@[e]);
                assert(before.hexes[e]@[c] < before.nodes.len());
            } else {
                lemma_hex_point(n, e - hex0, c);
                assert(after.hexes[hex0 + (e - hex0)]@[c] == node_at(
                    node0,
                    n,
                    hex_point(n, e - hex0, c),
                ));
            }
        }
        assert forall|e: int| 0 <= e < after.hex_part.len() implies #[trigger] after.hex_part[e]
            < after.parts.len() by {
            if e < hex0 {
                assert(after.hex_part@.take(hex0)[e] == before.hex_part@[e]);
                assert(before.hex_part[e] < before.parts.len());
            } else {
                assert(after.hex_part[hex0 + (e - hex0)] == part);
            }
        }
        assert forall|f: int, q: int|
            0 <= f < after.faces.len() && 0 <= q < 4 implies #[trigger] after.faces[f]@[q]
            < after.nodes.len() by {
            if f < face0 {
                assert(after.faces@.take(face0)[f] == before.faces@[f]);
                assert(before.faces[f]@[q] < before.nodes.len());
            } else {
                let t = Self::lemma_face_on_surface(n, surfaces, surfaces.len() as int, f - face0);
                let from = face0 + quads_before(n, surfaces, t);
                assert(after.face_covered(from, node0, n, surfaces[t].0));
                lemma_quad_point(n, surfaces[t].0, f - from, q);
                assert(after.faces[from + (f - from)]@[q] == node_at(
                    node0,
                    n,
                    quad_point(n, surfaces[t].0, f - from, q),
                ));
            }
        }
        assert forall|other: Seq<char>, i: int|
            after.node_sets@.dom().contains(other) && 0 <= i
                < after.node_sets@[other].len() implies #[trigger] after.node_sets@[other][i]
            < after.nodes.len() by {
            if other != name {
                assert(before.node_sets@.dom().contains(other));
                assert(after.node_sets@[other] == before.node_sets@[other]);
                assert(before.node_sets@[other][i] < before.nodes.len());
            }
        }
        lemma_sets_with(before.face_sets@, face0, n, surfaces, surfaces.len() as int);
    }
}

/// The elements along each axis of a block with these grid planes.
pub open spec fn grid_cells(grid: [Vec<Real>; 3]) -> [usize; 3] {
    [
        (grid@[0]@.len() - 1) as usize,
        (grid@[1]@.len() - 1) as usize,
        (grid@[2]@.len() - 1) as usize,
    ]
}

/// Number of lattice points of a grid.
pub open spec fn grid_points(grid: [Vec<Real>; 3]) -> int {
    (grid@[0]@.len() * grid@[1]@.len() * grid@[2]@.len()) as int
}

impl Mesh<[Real; 3]> {
    /// The nodes from `node0` on are the lattice points of a block, at the
    /// crossings of grid planes.
    pub open spec fn grid_placed(self, node0: int, grid: [Vec<Real>; 3]) -> bool {
        forall|e: int|
            0 <= e < grid_points(grid) ==> (#[trigger] self.nodes[node0 + e])@ == {
                let (i, j, k) = unflat(grid@[0]@.len() as int, grid@[1]@.len() as int, e);
                seq![grid@[0]@[i], grid@[1]@[j], grid@[2]@[k]]
            }
    }

    /// `self` is `before` with a block on a grid appended.
    pub open spec fn grid_joined(
        self,
        before: Self,
        part: usize,
        name: Seq<char>,
        grid: [Vec<Real>; 3],
        surfaces: Seq<(BlockFace, Seq<char>)>,
    ) -> bool {
        &&& self.block_joined(before, part, name, grid_cells(grid), surfaces)
        &&& self.grid_placed(before.nodes.len() as int, grid)
    }

    /// Appends a block whose nodes are the crossings of grid planes, given by
    /// their coordinates along each axis. See [`Mesh::add_hex_block`].
    pub fn add_grid_block(
        &mut self,
        part_name: &str,
        grid: &[Vec<Real>; 3],
        surfaces: &[(BlockFace, &str)],
    ) -> (part: usize)
        requires
            grid@[0]@.len() > 1,
            grid@[1]@.len() > 1,
            grid@[2]@.len() > 1,
            old(self).nodes.len() + grid_points(*grid) <= usize::MAX,
            old(self).hexes.len() == old(self).hex_part.len(),
            old(self).node_sets.wf(),
            old(self).face_sets.wf(),
        ensures
            final(self).grid_joined(*old(self), part, part_name@, *grid, labelled(surfaces@)),
            old(self).wf() ==> final(self).wf(),
    {
        let n: [usize; 3] = [grid[0].len() - 1, grid[1].len() - 1, grid[2].len() - 1];
        assert(n@ =~= grid_cells(*grid)@);
        assert(n == grid_cells(*grid));
        let place = |i: usize, j: usize, k: usize| -> (p: [Real; 3])
            requires
                i < grid@[0]@.len(),
                j < grid@[1]@.len(),
                k < grid@[2]@.len(),
            ensures
                p@ == seq![grid@[0]@[i as int], grid@[1]@[j as int], grid@[2]@[k as int]],
            {
                let p: [Real; 3] = [grid[0][i], grid[1][j], grid[2][k]];
                assert(p@ =~= seq![
                    grid@[0]@[i as int],
                    grid@[1]@[j as int],
                    grid@[2]@[k as int],
                ]);
                p
            };
        let ghost node0 = self.nodes.len() as int;
        let part: usize = self.add_hex_block(part_name, n, place, surfaces);
        proof {
            assert forall|e: int| 0 <= e < grid_points(*grid) implies (
            #[trigger] self.nodes[node0 + e])@ == {
                let (i, j, k) = unflat(grid@[0]@.len() as int, grid@[1]@.len() as int, e);
                seq![grid@[0]@[i], grid@[1]@[j], grid@[2]@[k]]
            } by {
                let (i, j, k) = unflat(n@[0] + 1, n@[1] + 1, e);
                lemma_unflat(n@[0] + 1, n@[1] + 1, n@[2] + 1, e);
                assert(call_ensures(
                    place,
                    (i as usize, j as usize, k as usize),
                    self.nodes[node0 + e],
                ));
            }
        }
        part
    }
}

// ---- what blocks are for ----

/// The first corner of a hexahedron is the lattice point of its cell; the next
/// three go once around the bottom, along +x first and then +y, and the upper four
/// stand above them.
pub proof fn law_corners_go_around(n: [usize; 3], i: int, j: int, k: int, c: int)
    requires
        0 <= i < n@[0],
        0 <= j < n@[1],
        0 <= k < n@[2],
        0 <= c < 4,
    ensures
        ({
            let e = flat(n@[0] as int, n@[1] as int, i, j, k);
            let p = hex_point(n, e, 0);
            &&& p == (i, j, k)
            &&& step(p, hex_point(n, e, 1)) == (1int, 0int, 0int)
            &&& step(p, hex_point(n, e, 2)) == (1int, 1int, 0int)
            &&& step(p, hex_point(n, e, 3)) == (0int, 1int, 0int)
            &&& step(hex_point(n, e, c), hex_point(n, e, c + 4)) == (0int, 0int, 1int)
        }),
{
    lemma_flat(n@[0] as int, n@[1] as int, n@[2] as int, i, j, k);
}

/// The twelve edges of a hexahedron each join two corners one lattice step apart,
/// and no two join the same.
pub proof fn law_edges_join_neighbours(n: [usize; 3], e: int, k: int, m: int)
    requires
        0 <= k < 12,
        0 <= m < 12,
    ensures
        ({
            let (a, b) = edge_ends(k);
            let d = step(hex_point(n, e, a), hex_point(n, e, b));
            &&& 0 <= a < 8 && 0 <= b < 8
            &&& d == (1int, 0int, 0int) || d == (-1int, 0int, 0int) || d == (0int, 1int, 0int) || d
                == (0int, -1int, 0int) || d == (0int, 0int, 1int)
            &&& edge_ends(m) == (a, b) || edge_ends(m) == (b, a) ==> m == k
        }),
{
    assert(k == 0 || k == 1 || k == 2 || k == 3 || k == 4 || k == 5 || k == 6 || k == 7 || k == 8
        || k == 9 || k == 10 || k == 11);
    assert(m == 0 || m == 1 || m == 2 || m == 3 || m == 4 || m == 5 || m == 6 || m == 7 || m == 8
        || m == 9 || m == 10 || m == 11);
}

/// The corners of the quads on a face of a block lie on that face: at the first or
/// the last lattice plane along its axis.
pub proof fn law_quads_lie_on_their_face(n: [usize; 3], face: BlockFace, f: int, q: int)
    ensures
        ({
            let p = quad_point(n, face, f, q);
            match face {
                BlockFace::XMin => p.0 == 0,
                BlockFace::XMax => p.0 == n@[0],
                BlockFace::YMin => p.1 == 0,
                BlockFace::YMax => p.1 == n@[1],
                BlockFace::ZMin => p.2 == 0,
                BlockFace::ZMax => p.2 == n@[2],
            }
        }),
        face_quads(n, face) == match face {
            BlockFace::XMin | BlockFace::XMax => n@[1] * n@[2],
            BlockFace::YMin | BlockFace::YMax => n@[2] * n@[0],
            BlockFace::ZMin | BlockFace::ZMax => n@[0] * n@[1],
        },
{
}

/// The quads of the listed faces follow one another: each face adds its own.
pub proof fn law_faces_follow_one_another(
    n: [usize; 3],
    surfaces: Seq<(BlockFace, Seq<char>)>,
    s: int,
)
    requires
        0 <= s < surfaces.len(),
    ensures
        quads_before(n, surfaces, 0) == 0,
        quads_before(n, surfaces, s + 1) - quads_before(n, surfaces, s) == match surfaces[s].0 {
            BlockFace::XMin | BlockFace::XMax => n@[1] * n@[2],
            BlockFace::YMin | BlockFace::YMax => n@[2] * n@[0],
            BlockFace::ZMin | BlockFace::ZMax => n@[0] * n@[1],
        },
{
    law_quads_lie_on_their_face(n, surfaces[s].0, 0, 0);
}

/// The face set of a listed face holds the quads of that face and no others, if no
/// later one takes its name; sets of other names stay.
pub proof fn law_face_sets_hold_their_quads(
    sets: Map<Seq<char>, Seq<usize>>,
    face0: int,
    n: [usize; 3],
    surfaces: Seq<(BlockFace, Seq<char>)>,
    s: int,
    t: int,
    x: usize,
    other: Seq<char>,
)
    requires
        0 <= t < s <= surfaces.len(),
        0 <= face0,
        face0 + quads_before(n, surfaces, s) <= usize::MAX,
        forall|i: int| t < i < s ==> (#[trigger] surfaces[i]).1 != surfaces[t].1,
        forall|i: int| 0 <= i < s ==> (#[trigger] surfaces[i]).1 != other,
    ensures
        sets_with(sets, face0, n, surfaces, s).dom().contains(surfaces[t].1),
        sets_with(sets, face0, n, surfaces, s)[surfaces[t].1].contains(x) <==> face0 + quads_before(
            n,
            surfaces,
            t,
        ) <= x < face0 + quads_before(n, surfaces, t + 1),
        sets_with(sets, face0, n, surfaces, s).dom().contains(other) == sets.dom().contains(other),
        sets_with(sets, face0, n, surfaces, s)[other] == sets[other],
    decreases s,
{
    lemma_quads_before(n, surfaces, s - 1, s);
    if t < s - 1 {
        law_face_sets_hold_their_quads(sets, face0, n, surfaces, s - 1, t, x, other);
        assert(surfaces[s - 1].1 != surfaces[t].1);
    } else {
        let from = face0 + quads_before(n, surfaces, t);
        let to = face0 + quads_before(n, surfaces, t + 1);
        lemma_quads_before(n, surfaces, 0, t);
        crate::indices::law_range_holds_its_indices(from as usize, to as usize, x);
        lemma_other_sets(sets, face0, n, surfaces, s - 1, other);
    }
    assert(surfaces[s - 1].1 != other);
}

proof fn lemma_other_sets(
    sets: Map<Seq<char>, Seq<usize>>,
    face0: int,
    n: [usize; 3],
    surfaces: Seq<(BlockFace, Seq<char>)>,
    s: int,
    other: Seq<char>,
)
    requires
        0 <= s <= surfaces.len(),
        forall|i: int| 0 <= i < s ==> (#[trigger] surfaces[i]).1 != other,
    ensures
        sets_with(sets, face0, n, surfaces, s).dom().contains(other) == sets.dom().contains(other),
        sets_with(sets, face0, n, surfaces, s)[other] == sets[other],
    decreases s,
{
    if s > 0 {
        lemma_other_sets(sets, face0, n, surfaces, s - 1, other);
        assert(surfaces[s - 1].1 != other);
    }
}

/// How many cells on from that of its hexahedron a corner stands along an axis.
pub open spec fn corner_offset(c: int, d: int) -> int {
    if d == 0 {
        if c == 1 || c == 2 || c == 5 || c == 6 {
            1
        } else {
            0
        }
    } else if d == 1 {
        if c == 2 || c == 3 || c == 6 || c == 7 {
            1
        } else {
            0
        }
    } else if c >= 4 {
        1
    } else {
        0
    }
}

/// A block on a grid has a hexahedron for every cell of the grid, of its part, and
/// the corners of each stand where the planes about the cell cross.
pub proof fn law_blocks_fill_their_grid(
    mesh: Mesh<[Real; 3]>,
    before: Mesh<[Real; 3]>,
    part: usize,
    name: Seq<char>,
    grid: [Vec<Real>; 3],
    surfaces: Seq<(BlockFace, Seq<char>)>,
    i: int,
    j: int,
    k: int,
    c: int,
)
    requires
        mesh.grid_joined(before, part, name, grid, surfaces),
        mesh.nodes@.len() <= usize::MAX,
        grid@[0]@.len() <= usize::MAX,
        grid@[1]@.len() <= usize::MAX,
        grid@[2]@.len() <= usize::MAX,
        0 <= i < grid@[0]@.len() - 1,
        0 <= j < grid@[1]@.len() - 1,
        0 <= k < grid@[2]@.len() - 1,
        0 <= c < 8,
    ensures
        ({
            let (a, b) = (grid@[0]@.len() - 1, grid@[1]@.len() - 1);
            let e = before.hexes@.len() + (i + a * (j + b * k));
            let x = mesh.hexes@[e]@[c] as int;
            &&& mesh.hex_part@[e] == part
            &&& mesh.nodes@[x]@[0] == grid@[0]@[i + corner_offset(c, 0)]
            &&& mesh.nodes@[x]@[1] == grid@[1]@[j + corner_offset(c, 1)]
            &&& mesh.nodes@[x]@[2] == grid@[2]@[k + corner_offset(c, 2)]
        }),
{
    let n = grid_cells(grid);
    let (na, nb, nc) = (n@[0] as int, n@[1] as int, n@[2] as int);
    let e = flat(na, nb, i, j, k);
    lemma_flat(na, nb, nc, i, j, k);
    lemma_hex_point(n, e, c);
    let p = hex_point(n, e, c);
    assert(p.0 == i + corner_offset(c, 0) && p.1 == j + corner_offset(c, 1) && p.2 == k
        + corner_offset(c, 2));
    lemma_flat(na + 1, nb + 1, nc + 1, p.0, p.1, p.2);
    let at = flat(na + 1, nb + 1, p.0, p.1, p.2);
    let (h0, n0) = (before.hexes.len() as int, before.nodes.len() as int);
    assert(mesh.hexes[h0 + e]@[c] == node_at(n0, n, p));
    assert(mesh.hex_part[h0 + e] == part);
    assert(grid_points(grid) == (na + 1) * (nb + 1) * (nc + 1));
    assert(mesh.nodes[n0 + at]@ == seq![grid@[0]@[p.0], grid@[1]@[p.1], grid@[2]@[p.2]]);
}

/// The contact faces of a block on a grid stand on the first or the last plane of
/// the grid that their block face names, all four corners.
pub proof fn law_block_faces_stand_on_their_plane(
    mesh: Mesh<[Real; 3]>,
    before: Mesh<[Real; 3]>,
    part: usize,
    name: Seq<char>,
    grid: [Vec<Real>; 3],
    surfaces: Seq<(BlockFace, Seq<char>)>,
    t: int,
    f: int,
    q: int,
)
    requires
        mesh.grid_joined(before, part, name, grid, surfaces),
        1 < grid@[0]@.len() <= usize::MAX,
        1 < grid@[1]@.len() <= usize::MAX,
        1 < grid@[2]@.len() <= usize::MAX,
        0 <= t < surfaces.len(),
        0 <= f < face_quads(grid_cells(grid), surfaces[t].0),
        0 <= q < 4,
    ensures
        ({
            let at = before.faces@.len() + quads_before(grid_cells(grid), surfaces, t) + f;
            let x = mesh.nodes@[mesh.faces@[at]@[q] as int]@;
            match surfaces[t].0 {
                BlockFace::XMin => x[0] == grid@[0]@[0],
                BlockFace::XMax => x[0] == grid@[0]@.last(),
                BlockFace::YMin => x[1] == grid@[1]@[0],
                BlockFace::YMax => x[1] == grid@[1]@.last(),
                BlockFace::ZMin => x[2] == grid@[2]@[0],
                BlockFace::ZMax => x[2] == grid@[2]@.last(),
            }
        }),
{
    let n = grid_cells(grid);
    let (na, nb, nc) = (n@[0] as int, n@[1] as int, n@[2] as int);
    let face = surfaces[t].0;
    lemma_quad_point(n, face, f, q);
    law_quads_lie_on_their_face(n, face, f, q);
    let p = quad_point(n, face, f, q);
    let (f0, n0) = (
        before.faces.len() + quads_before(n, surfaces, t),
        before.nodes.len() as int,
    );
    assert(mesh.face_covered(before.faces.len() + quads_before(n, surfaces, t), n0, n, face));
    assert(mesh.faces[f0 + f]@[q] == node_at(n0, n, p));
    lemma_flat(na + 1, nb + 1, nc + 1, p.0, p.1, p.2);
    let at = flat(na + 1, nb + 1, p.0, p.1, p.2);
    assert(grid_points(grid) == (na + 1) * (nb + 1) * (nc + 1));
    assert(mesh.nodes[n0 + at]@ == seq![grid@[0]@[p.0], grid@[1]@[p.1], grid@[2]@[p.2]]);
}

/// A block comes behind what there was, which it leaves as it was; its node set
/// holds its nodes and no others, and other sets stay.
pub proof fn law_blocks_leave_the_rest(
    mesh: Mesh<[Real; 3]>,
    before: Mesh<[Real; 3]>,
    part: usize,
    name: Seq<char>,
    grid: [Vec<Real>; 3],
    surfaces: Seq<(BlockFace, Seq<char>)>,
    x: usize,
    other: Seq<char>,
)
    requires
        mesh.grid_joined(before, part, name, grid, surfaces),
        mesh.nodes@.len() <= usize::MAX,
        1 < grid@[0]@.len() <= usize::MAX,
        1 < grid@[1]@.len() <= usize::MAX,
        1 < grid@[2]@.len() <= usize::MAX,
        other != name,
    ensures
        mesh.node_sets@[name].contains(x) <==> before.nodes@.len() <= x < mesh.nodes@.len(),
        mesh.node_sets@.dom().contains(other) == before.node_sets@.dom().contains(other),
        mesh.node_sets@[other] == before.node_sets@[other],
        forall|i: int| 0 <= i < before.nodes@.len() ==> #[trigger] mesh.nodes@[i] == before.nodes@[i],
        forall|i: int| 0 <= i < before.hexes@.len() ==> #[trigger] mesh.hexes@[i] == before.hexes@[i],
        forall|i: int|
            0 <= i < before.hex_part@.len() && i < before.hexes@.len() ==> #[trigger] mesh.hex_part@[i]
                == before.hex_part@[i],
        forall|i: int| 0 <= i < before.parts@.len() ==> #[trigger] mesh.parts@[i] == before.parts@[i],
        forall|i: int| 0 <= i < before.faces@.len() ==> #[trigger] mesh.faces@[i] == before.faces@[i],
        part == before.parts@.len(),
        mesh.parts@[part as int].name@ == name,
{
    let n0 = before.nodes.len();
    lemma_block_sizes(grid_cells(grid));
    lemma_quads_before(grid_cells(grid), surfaces, 0, surfaces.len() as int);
    crate::indices::law_range_holds_its_indices(n0, mesh.nodes.len(), x);
    assert forall|i: int| 0 <= i < before.nodes@.len() implies #[trigger] mesh.nodes@[i]
        == before.nodes@[i] by {
        assert(mesh.nodes@.take(n0 as int)[i] == before.nodes@[i]);
    }
    assert forall|i: int| 0 <= i < before.hexes@.len() implies #[trigger] mesh.hexes@[i]
        == before.hexes@[i] by {
        assert(mesh.hexes@.take(before.hexes.len() as int)[i] == before.hexes@[i]);
    }
    assert forall|i: int|
        0 <= i < before.hex_part@.len() && i < before.hexes@.len() implies #[trigger] mesh.hex_part@[i]
        == before.hex_part@[i] by {
        assert(mesh.hex_part@.take(before.hexes.len() as int)[i] == before.hex_part@[i]);
    }
    assert forall|i: int| 0 <= i < before.parts@.len() implies #[trigger] mesh.parts@[i]
        == before.parts@[i] by {
        assert(mesh.parts@.take(part as int)[i] == before.parts@[i]);
    }
    assert forall|i: int| 0 <= i < before.faces@.len() implies #[trigger] mesh.faces@[i]
        == before.faces@[i] by {
        assert(mesh.faces@.take(before.faces.len() as int)[i] == before.faces@[i]);
    }
}

/// The neighbour in the lead is eligible, no eligible candidate is better aligned,
/// and none before it is as well; there is none where no candidate is eligible.
pub proof fn law_lead_is_best_aligned(
    candidates: Seq<usize>,
    cosine: Seq<Real>,
    eligible: spec_fn(usize) -> bool,
    k: int,
)
    requires
        0 <= k <= candidates.len(),
        forall|i: int|
            0 <= i < candidates.len() ==> !cosine[#[trigger] candidates[i] as int].nan(),
    ensures
        match lead(candidates, cosine, eligible, k) {
            None => forall|i: int| 0 <= i < k ==> !eligible(#[trigger] candidates[i]),
            Some(n) => eligible(n) && exists|b: int|
                0 <= b < k && #[trigger] candidates[b] == n && is_best(
                    candidates,
                    cosine,
                    eligible,
                    k,
                    b,
                ),
        },
    decreases k,
{
    if k > 0 {
        law_lead_is_best_aligned(candidates, cosine, eligible, k - 1);
        let before = lead(candidates, cosine, eligible, k - 1);
        let n = candidates[k - 1];
        match before {
            None => {
                if eligible(n) {
                    assert(is_best(candidates, cosine, eligible, k, k - 1));
                }
            },
            Some(m) => {
                let b = choose|b: int|
                    0 <= b < k - 1 && #[trigger] candidates[b] == m && is_best(
                        candidates,
                        cosine,
                        eligible,
                        k - 1,
                        b,
                    );
                assert(!cosine[candidates[b] as int].nan());
                assert(!cosine[candidates[k - 1] as int].nan());
                if eligible(n) && cosine[m as int].below(cosine[n as int]) {
                    assert(is_best(candidates, cosine, eligible, k, k - 1));
                } else {
                    assert(is_best(candidates, cosine, eligible, k, b));
                }
            },
        }
    }
}

/// Whether no eligible candidate before `k` is better aligned than the `b`-th, and
/// none before that is as well aligned.
pub open spec fn is_best(
    candidates: Seq<usize>,
    cosine: Seq<Real>,
    eligible: spec_fn(usize) -> bool,
    k: int,
    b: int,
) -> bool {
    &&& forall|i: int|
        0 <= i < k && eligible(#[trigger] candidates[i]) ==> cosine[candidates[i] as int].order()
            <= cosine[candidates[b] as int].order()
    &&& forall|i: int|
        0 <= i < b && eligible(#[trigger] candidates[i]) ==> cosine[candidates[i] as int].order()
            < cosine[candidates[b] as int].order()
}

/// A neighbour is another node than the one it is sought for, not excluded, no
/// farther than the radius and apart from the node.
pub proof fn law_neighbours_are_near_and_apart(
    node: usize,
    exclude: Seq<usize>,
    distance: Seq<Real>,
    radius: Real,
    n: usize,
)
    requires
        !radius.nan(),
        !distance[n as int].nan(),
    ensures
        Mesh::<[Real; 3]>::neighbourly(node, exclude, distance, radius)(n) <==> n != node && (forall|
            i: int,
        |
            0 <= i < exclude.len() ==> #[trigger] exclude[i] != n) && distance[n as int].order()
            <= radius.order() && distance[n as int].order() != 0,
{
    if !exclude.contains(n) {
        assert forall|i: int| 0 <= i < exclude.len() implies #[trigger] exclude[i] != n by {
            assert(exclude.contains(exclude[i]));
        }
    }
}

/// A name stands for the node set that has it, else for the nodes of the first
/// part that has it, else for nothing.
pub proof fn law_names_stand_for_sets_then_parts<P>(mesh: Mesh<P>, name: Seq<char>, p: int)
    requires
        0 <= p < mesh.parts.len(),
        mesh.parts[p].name@ == name,
        forall|i: int| 0 <= i < p ==> (#[trigger] mesh.parts[i]).name@ != name,
    ensures
        mesh.node_sets@.dom().contains(name) ==> mesh.named_nodes(name) == Some(
            mesh.node_sets@[name],
        ),
        !mesh.node_sets@.dom().contains(name) ==> mesh.named_nodes(name) == Some(
            mesh.node_list(p as usize),
        ),
        mesh.first_part(name) == p,
{
    mesh.lemma_first_part(name, p);
}

} // verus!
