//! Animated GIF of solver frames: a small software rasteriser. The outer
//! surface of the hex mesh is extracted once, faces are z-buffered, and each
//! picture is reduced to a palette.

use crate::indices::{is_picked, lemma_picked_grows};
use crate::mesh::{cross, hex_point, step, Mesh};
use crate::number::{Real, Single};
use crate::solver::Frame;
use crate::text::chars_of;
use vstd::arithmetic::div_mod::{
    lemma_fundamental_div_mod, lemma_fundamental_div_mod_converse, lemma_mod_bound,
};
use vstd::prelude::*;

verus! {

/// Camera and canvas settings.
#[derive(Clone, Copy, Debug)]
pub struct GifOptions {
    pub width: u16,
    pub height: u16,
    /// Frame delay in hundredths of a second.
    pub delay_cs: u16,
    /// Viewing direction (from the scene towards the camera).
    pub view_dir: [Real; 3],
    /// Up vector for the camera.
    pub up: [Real; 3],
    /// Plastic strain that maps to full red.
    pub plastic_strain_scale: Single,
    /// Show the simulated time in the corner.
    pub show_time: bool,
}

impl Default for GifOptions {
    fn default() -> (o: GifOptions)
        ensures
            o.width == 640,
            o.height == 360,
            o.delay_cs == 4,
            o.view_dir@ == seq![
                Real { bits: 0x3fdc_cccc_cccc_cccd },
                Real { bits: 0xbff0_0000_0000_0000 },
                Real { bits: 0x3fe1_9999_9999_999a },
            ],
            o.up@ == seq![Real::spec_zero(), Real::spec_zero(), Real::spec_one()],
            o.plastic_strain_scale == (Single { bits: 0x3f00_0000 }),
            o.show_time,
    {
        let view_dir: [Real; 3] = [
            Real { bits: 0x3fdc_cccc_cccc_cccd },
            Real { bits: 0xbff0_0000_0000_0000 },
            Real { bits: 0x3fe1_9999_9999_999a },
        ];
        let up: [Real; 3] = [Real::zero(), Real::zero(), Real::one()];
        assert(view_dir@ =~= seq![
            Real { bits: 0x3fdc_cccc_cccc_cccd },
            Real { bits: 0xbff0_0000_0000_0000 },
            Real { bits: 0x3fe1_9999_9999_999a },
        ]);
        assert(up@ =~= seq![Real::spec_zero(), Real::spec_zero(), Real::spec_one()]);
        GifOptions {
            width: 640,
            height: 360,
            delay_cs: 4,
            view_dir,
            up,
            plastic_strain_scale: Single { bits: 0x3f00_0000 },
            show_time: true,
        }
    }
}

// ---- surface ----

/// Local node at corner `c` of face `f` of a hexahedron: bottom, top, then the
/// four sides, each counter-clockwise from outside.
pub open spec fn face_corner(f: int, c: int) -> int {
    if f == 0 {
        (4 - c) % 4
    } else if f == 1 {
        4 + c
    } else if c == 0 {
        f - 2
    } else if c == 1 {
        (f - 1) % 4
    } else if c == 2 {
        4 + (f - 1) % 4
    } else {
        4 + (f - 2)
    }
}

/// The nodes of face `i % 6` of element `i / 6`.
pub open spec fn face_at(hexes: Seq<[usize; 8]>, i: int) -> Seq<usize> {
    let h = hexes[i / 6]@;
    seq![
        h[face_corner(i % 6, 0)],
        h[face_corner(i % 6, 1)],
        h[face_corner(i % 6, 2)],
        h[face_corner(i % 6, 3)],
    ]
}

/// How often a node occurs among four.
pub open spec fn occurs(q: Seq<usize>, x: usize) -> int {
    (if q[0] == x {
        1int
    } else {
        0
    }) + (if q[1] == x {
        1int
    } else {
        0
    }) + (if q[2] == x {
        1int
    } else {
        0
    }) + (if q[3] == x {
        1int
    } else {
        0
    })
}

/// Whether two faces have the same nodes, whatever their order.
pub open spec fn same_face(a: Seq<usize>, b: Seq<usize>) -> bool {
    forall|x: usize| #[trigger] occurs(a, x) == occurs(b, x)
}

/// Whether a face of an element is on the surface: no other face of any
/// element has its nodes.
pub open spec fn on_surface(hexes: Seq<[usize; 8]>, i: int) -> bool {
    forall|j: int|
        0 <= j < 6 * hexes.len() && j != i ==> !same_face(
            face_at(hexes, i),
            #[trigger] face_at(hexes, j),
        )
}

/// Number of faces of all elements, shared ones counted for each.
pub open spec fn face_count(hexes: Seq<[usize; 8]>) -> int {
    6 * hexes.len() as int
}

/// The surface faces among the first `k`, with their elements.
pub open spec fn surface_list(hexes: Seq<[usize; 8]>, k: int) -> Seq<(usize, Seq<usize>)>
    decreases k,
{
    if k <= 0 {
        Seq::empty()
    } else {
        let before = surface_list(hexes, k - 1);
        if on_surface(hexes, k - 1) {
            before.push((((k - 1) / 6) as usize, face_at(hexes, k - 1)))
        } else {
            before
        }
    }
}

pub open spec fn sorted4(q: Seq<usize>) -> bool {
    q[0] <= q[1] <= q[2] <= q[3]
}

fn sort4(q: &[usize; 4]) -> (r: [usize; 4])
    ensures
        sorted4(r@),
        same_face(q@, r@),
{
    let (mut a, mut b, mut c, mut d): (usize, usize, usize, usize) = (q[0], q[1], q[2], q[3]);
    if a > b {
        let t: usize = a;
        a = b;
        b = t;
    }
    if c > d {
        let t: usize = c;
        c = d;
        d = t;
    }
    if a > c {
        let t: usize = a;
        a = c;
        c = t;
    }
    if b > d {
        let t: usize = b;
        b = d;
        d = t;
    }
    if b > c {
        let t: usize = b;
        b = c;
        c = t;
    }
    [a, b, c, d]
}

/// Four nodes in ascending order are the same nodes only if they are the same
/// list.
proof fn lemma_sorted4(a: Seq<usize>, b: Seq<usize>)
    requires
        a.len() == 4,
        b.len() == 4,
        sorted4(a),
        sorted4(b),
        same_face(a, b),
    ensures
        a == b,
{
    assert(occurs(a, a[0]) == occurs(b, a[0]));
    assert(occurs(a, a[1]) == occurs(b, a[1]));
    assert(occurs(a, a[2]) == occurs(b, a[2]));
    assert(occurs(a, a[3]) == occurs(b, a[3]));
    assert(occurs(a, b[0]) == occurs(b, b[0]));
    assert(occurs(a, b[1]) == occurs(b, b[1]));
    assert(occurs(a, b[2]) == occurs(b, b[2]));
    assert(occurs(a, b[3]) == occurs(b, b[3]));
    assert(a =~= b);
}

/// The nodes of face `i % 6` of element `i / 6`.
fn face_of(hexes: &Vec<[usize; 8]>, i: usize) -> (q: [usize; 4])
    requires
        i < 6 * hexes@.len(),
    ensures
        q@ == face_at(hexes@, i as int),
{
    let h: &[usize; 8] = &hexes[i / 6];
    let f: usize = i % 6;
    let q: [usize; 4] = if f == 0 {
        [h[0], h[3], h[2], h[1]]
    } else if f == 1 {
        [h[4], h[5], h[6], h[7]]
    } else {
        let s: usize = f - 2;
        let t: usize = (f - 1) % 4;
        [h[s], h[t], h[4 + t], h[4 + s]]
    };
    assert(q@ =~= face_at(hexes@, i as int));
    q
}

/// The faces of each node: for node `n` the faces whose lowest node it is.
spec fn bucketed(hexes: Seq<[usize; 8]>, keys: Seq<[usize; 4]>, buckets: Seq<Vec<usize>>, k: int) -> bool {
    &&& keys.len() == k
    &&& forall|i: int|
        0 <= i < k ==> sorted4((#[trigger] keys[i])@) && same_face(face_at(hexes, i), keys[i]@)
            && keys[i]@[0] < buckets.len()
    &&& forall|n: int, p: int|
        0 <= n < buckets.len() && 0 <= p < buckets[n]@.len() ==> {
            let i = #[trigger] buckets[n]@[p];
            0 <= i < k && keys[i as int]@[0] == n
        }
    &&& forall|i: int|
        0 <= i < k ==> buckets[(#[trigger] keys[i])@[0] as int]@.contains(i as usize)
}

/// Outer surface of the hexahedral mesh: element index and the four nodes of
/// each face that belongs to one element alone, element by element.
pub fn surface_faces<P>(mesh: &Mesh<P>) -> (r: Vec<(usize, [usize; 4])>)
    requires
        mesh.wf(),
        6 * mesh.hexes@.len() <= usize::MAX,
    ensures
        r@.len() == surface_list(mesh.hexes@, face_count(mesh.hexes@)).len(),
        forall|i: int|
            0 <= i < r@.len() ==> (#[trigger] r@[i]).0 == surface_list(
                mesh.hexes@,
                face_count(mesh.hexes@),
            )[i].0 && r@[i].1@ == surface_list(mesh.hexes@, face_count(mesh.hexes@))[i].1,
{
    let hexes: &Vec<[usize; 8]> = &mesh.hexes;
    let total: usize = 6 * hexes.len();
    let mut buckets: Vec<Vec<usize>> = Vec::new();
    let mut n: usize = 0;
    while n < mesh.nodes.len()
        invariant
            n <= mesh.nodes@.len(),
            buckets@.len() == n,
            forall|m: int| 0 <= m < n ==> (#[trigger] buckets@[m])@.len() == 0,
        decreases mesh.nodes.len() - n,
    {
        buckets.push(Vec::new());
        n += 1;
    }
    let mut keys: Vec<[usize; 4]> = Vec::new();
    let mut k: usize = 0;
    while k < total
        invariant
            k <= total,
            mesh.wf(),
            *hexes == mesh.hexes,
            total == 6 * hexes@.len(),
            buckets@.len() == mesh.nodes@.len(),
            bucketed(hexes@, keys@, buckets@, k as int),
        decreases total - k,
    {
        let q: [usize; 4] = face_of(hexes, k);
        let key: [usize; 4] = sort4(&q);
        proof {
            lemma_face_exists(mesh, k as int);
            assert(occurs(q@, key@[0]) == occurs(key@, key@[0]));
            assert(q@.contains(key@[0])) by {
                assert(q@[0] == key@[0] || q@[1] == key@[0] || q@[2] == key@[0] || q@[3]
                    == key@[0]);
            }
            let c = choose|c: int| 0 <= c < 4 && q@[c] == key@[0];
            assert(q@[c] < mesh.nodes@.len());
        }
        let at: usize = key[0];
        let ghost was_keys = keys@;
        let ghost was = buckets@;
        keys.push(key);
        buckets[at].push(k);
        proof {
            assert(buckets@[at as int]@ == was[at as int]@.push(k));
            assert forall|m: int| 0 <= m < buckets@.len() && m != at implies #[trigger] buckets@[m]
                == was[m] by {}
            assert forall|i: int| 0 <= i < k + 1 implies sorted4((#[trigger] keys@[i])@)
                && same_face(face_at(hexes@, i), keys@[i]@) && keys@[i]@[0] < buckets@.len() by {
                if i < k {
                    assert(keys@[i] == was_keys[i]);
                }
            }
            assert forall|m: int, p: int|
                0 <= m < buckets@.len() && 0 <= p < buckets@[m]@.len() implies {
                let i = #[trigger] buckets@[m]@[p];
                0 <= i < k + 1 && keys@[i as int]@[0] == m
            } by {
                if m == at {
                    if p < was[m]@.len() {
                        assert(buckets@[m]@[p] == was[m]@[p]);
                    }
                } else {
                    assert(buckets@[m]@[p] == was[m]@[p]);
                }
            }
            assert forall|i: int| 0 <= i < k + 1 implies buckets@[(
            #[trigger] keys@[i])@[0] as int]@.contains(i as usize) by {
                let m = keys@[i]@[0] as int;
                if i < k {
                    assert(keys@[i] == was_keys[i]);
                    assert(was[m]@.contains(i as usize));
                    let p = choose|p: int| 0 <= p < was[m]@.len() && was[m]@[p] == i as usize;
                    assert(buckets@[m]@[p] == i as usize);
                } else {
                    assert(buckets@[m]@[was[m]@.len() as int] == k);
                }
            }
        }
        k += 1;
    }
    let mut r: Vec<(usize, [usize; 4])> = Vec::new();
    let mut i: usize = 0;
    while i < total
        invariant
            i <= total,
            *hexes == mesh.hexes,
            total == 6 * hexes@.len(),
            bucketed(hexes@, keys@, buckets@, total as int),
            r@.len() == surface_list(hexes@, i as int).len(),
            forall|j: int|
                0 <= j < r@.len() ==> (#[trigger] r@[j]).0 == surface_list(
                    hexes@,
                    i as int,
                )[j].0 && r@[j].1@ == surface_list(hexes@, i as int)[j].1,
        decreases total - i,
    {
        let single: bool = unshared(hexes, &keys, &buckets, i);
        if single {
            let q: [usize; 4] = face_of(hexes, i);
            r.push((i / 6, q));
        }
        i += 1;
    }
    r
}

/// The corners of an element's face are nodes of the mesh.
proof fn lemma_face_exists<P>(mesh: &Mesh<P>, i: int)
    requires
        mesh.wf(),
        0 <= i < 6 * mesh.hexes@.len(),
    ensures
        forall|c: int|
            0 <= c < 4 ==> #[trigger] face_at(mesh.hexes@, i)[c] < mesh.nodes@.len(),
{
    assert forall|c: int| 0 <= c < 4 implies #[trigger] face_at(mesh.hexes@, i)[c]
        < mesh.nodes@.len() by {
        let l = face_corner(i % 6, c);
        assert(0 <= l < 8);
        assert(mesh.hexes[i / 6]@[l] < mesh.nodes.len());
        assert(c == 0 || c == 1 || c == 2 || c == 3);
    }
}

/// Whether no other face has the nodes of face `i`; only the faces with the
/// same lowest node have to be looked at.
fn unshared(
    hexes: &Vec<[usize; 8]>,
    keys: &Vec<[usize; 4]>,
    buckets: &Vec<Vec<usize>>,
    i: usize,
) -> (b: bool)
    requires
        bucketed(hexes@, keys@, buckets@, face_count(hexes@)),
        i < 6 * hexes@.len(),
    ensures
        b == on_surface(hexes@, i as int),
{
    let ghost total = face_count(hexes@);
    let known: usize = keys.len();
    let key: &[usize; 4] = &keys[i];
    assert(sorted4(keys@[i as int]@) && keys@[i as int]@[0] < buckets@.len());
    let bucket: &Vec<usize> = &buckets[key[0]];
    let mut p: usize = 0;
    while p < bucket.len()
        invariant
            total == face_count(hexes@),
            i < total,
            bucketed(hexes@, keys@, buckets@, total),
            *key == keys@[i as int],
            key@[0] < buckets@.len(),
            bucket@ == buckets@[key@[0] as int]@,
            p <= bucket@.len(),
            forall|s: int| 0 <= s < p && bucket@[s] != i ==> keys@[bucket@[s] as int]@ != key@,
        decreases bucket.len() - p,
    {
        let j: usize = bucket[p];
        assert(buckets@[key@[0] as int]@[p as int] < total);
        if j != i {
            let other: &[usize; 4] = &keys[j];
            if other[0] == key[0] && other[1] == key[1] && other[2] == key[2] && other[3]
                == key[3] {
                proof {
                    assert(other@ =~= key@);
                    let (a, b) = (face_at(hexes@, i as int), face_at(hexes@, j as int));
                    assert(same_face(a, keys@[i as int]@));
                    assert(same_face(b, keys@[j as int]@));
                    assert forall|x: usize| #[trigger] occurs(a, x) == occurs(b, x) by {
                        assert(occurs(a, x) == occurs(key@, x));
                        assert(occurs(b, x) == occurs(key@, x));
                    }
                    assert(same_face(a, b));
                }
                return false;
            }
        }
        p += 1;
    }
    proof {
        let a = face_at(hexes@, i as int);
        assert(known == total);
        assert forall|j: int| 0 <= j < total && j != i implies !same_face(
            a,
            #[trigger] face_at(hexes@, j),
        ) by {
            let b = face_at(hexes@, j);
            if same_face(a, b) {
                assert(same_face(a, keys@[i as int]@));
                assert(same_face(b, keys@[j]@));
                assert forall|x: usize| #[trigger]
                    occurs(key@, x) == occurs(keys@[j]@, x) by {
                    assert(occurs(a, x) == occurs(key@, x));
                    assert(occurs(b, x) == occurs(keys@[j]@, x));
                    assert(occurs(a, x) == occurs(b, x));
                }
                lemma_sorted4(key@, keys@[j]@);
                assert(buckets@[keys@[j]@[0] as int]@.contains(j as usize));
                let s = choose|s: int| 0 <= s < bucket@.len() && bucket@[s] == j as usize;
                assert(keys@[bucket@[s] as int]@ != key@);
            }
        }
    }
    true
}


/// A face is on the surface only once.
pub proof fn law_shared_faces_are_inside(hexes: Seq<[usize; 8]>, i: int, j: int)
    requires
        0 <= i < face_count(hexes),
        0 <= j < face_count(hexes),
        i != j,
        same_face(face_at(hexes, i), face_at(hexes, j)),
    ensures
        !on_surface(hexes, i),
        !on_surface(hexes, j),
{
    assert(!same_face(face_at(hexes, i), face_at(hexes, j)) || !on_surface(hexes, i));
    assert forall|x: usize| #[trigger]
        occurs(face_at(hexes, j), x) == occurs(face_at(hexes, i), x) by {
        assert(occurs(face_at(hexes, i), x) == occurs(face_at(hexes, j), x));
    }
    assert(same_face(face_at(hexes, j), face_at(hexes, i)));
}

// ---- canvas ----

/// A picture with the depth of what is drawn at each pixel.
pub struct Canvas {
    pub w: usize,
    pub h: usize,
    pub rgb: Vec<[u8; 3]>,
    pub depth: Vec<Single>,
}

/// Whether a pixel lies within spans of columns and rows.
pub open spec fn within(w: int, span: (usize, usize, usize, usize), i: int) -> bool {
    span.0 <= i % w <= span.1 && span.2 <= i / w <= span.3
}

/// Whether a pixel comes before column `x` of row `y`, row by row.
pub open spec fn drawn_before(w: int, i: int, x: int, y: int) -> bool {
    i / w < y || (i / w == y && i % w < x)
}

/// The number of a pixel is within the canvas and gives back column and row.
proof fn lemma_pixel(w: int, h: int, x: int, y: int)
    requires
        0 <= x < w,
        0 <= y < h,
    ensures
        0 <= y * w <= y * w + x < w * h,
        (y * w + x) % w == x,
        (y * w + x) / w == y,
{
    assert(0 <= y * w <= y * w + x < w * h) by (nonlinear_arith)
        requires
            0 <= x < w,
            0 <= y < h,
    ;
    lemma_fundamental_div_mod_converse(y * w + x, w, y, x);
}

impl Canvas {
    /// There is a colour and a depth for every pixel.
    pub open spec fn wf(self) -> bool {
        &&& self.rgb@.len() == self.w * self.h
        &&& self.depth@.len() == self.w * self.h
    }

    /// A light canvas with nothing drawn.
    pub fn new(w: usize, h: usize) -> (c: Canvas)
        requires
            w * h <= usize::MAX,
        ensures
            c.wf(),
            c.w == w,
            c.h == h,
            forall|i: int| 0 <= i < w * h ==> (#[trigger] c.rgb@[i])@ == seq![245u8, 245u8, 245u8],
            forall|i: int|
                0 <= i < w * h ==> #[trigger] c.depth@[i] == Single::spec_neg_infinity(),
    {
        let total: usize = w * h;
        let light: [u8; 3] = [245, 245, 245];
        assert(light@ =~= seq![245u8, 245u8, 245u8]);
        let mut rgb: Vec<[u8; 3]> = Vec::new();
        let mut depth: Vec<Single> = Vec::new();
        let mut i: usize = 0;
        while i < total
            invariant
                i <= total,
                light@ == seq![245u8, 245u8, 245u8],
                rgb@.len() == i,
                depth@.len() == i,
                forall|k: int| 0 <= k < i ==> #[trigger] rgb@[k] == light,
                forall|k: int| 0 <= k < i ==> #[trigger] depth@[k] == Single::spec_neg_infinity(),
            decreases total - i,
        {
            rgb.push(light);
            depth.push(Single::neg_infinity());
            i += 1;
        }
        Canvas { w, h, rgb, depth }
    }

    /// Whether a canvas is another with a patch drawn into it: pixel `i` takes
    /// the colour and the patch's depth `z[i]` where that is above its own.
    pub open spec fn is_covered(self, before: Canvas, z: Seq<Option<Single>>, color: [u8; 3]) -> bool {
        &&& self.w == before.w
        &&& self.h == before.h
        &&& self.wf()
        &&& z.len() == before.w * before.h
        &&& forall|i: int|
            0 <= i < z.len() ==> {
                let wins = #[trigger] z[i] matches Some(d) && before.depth@[i].below(d);
                &&& self.rgb@[i] == if wins {
                    color
                } else {
                    before.rgb@[i]
                }
                &&& self.depth@[i] == if wins {
                    z[i]->0
                } else {
                    before.depth@[i]
                }
            }
    }

    /// Draws a triangle: `cover` gives the depth of the triangle at the pixel in
    /// a column and row of its bounding box, where the pixel lies within it.
    pub fn triangle<F: Fn(usize, usize) -> Option<Single>>(
        &mut self,
        span: (usize, usize, usize, usize),
        cover: F,
        color: [u8; 3],
    )
        requires
            old(self).wf(),
            span.1 < old(self).w,
            span.3 < old(self).h,
            forall|x: usize, y: usize| #[trigger] call_requires(cover, (x, y)),
        ensures
            exists|z: Seq<Option<Single>>|
                {
                    &&& #[trigger] final(self).is_covered(*old(self), z, color)
                    &&& forall|i: int|
                        0 <= i < z.len() ==> if within(old(self).w as int, span, i) {
                            call_ensures(
                                cover,
                                (
                                    (i % old(self).w as int) as usize,
                                    (i / old(self).w as int) as usize,
                                ),
                                #[trigger] z[i],
                            )
                        } else {
                            z[i] is None
                        }
                },
    {
        let ghost before = *self;
        let ghost w = self.w as int;
        let total: usize = self.rgb.len();
        let mut z: Ghost<Seq<Option<Single>>> = Ghost(Seq::new(self.rgb@.len(), |i: int| None));
        let (min_x, max_x, min_y, max_y): (usize, usize, usize, usize) = span;
        let mut y: usize = min_y;
        while y <= max_y
            invariant
                before == *old(self),
                before.wf(),
                total == before.w * before.h,
                w == before.w,
                span == (min_x, max_x, min_y, max_y),
                max_x < before.w,
                max_y < before.h,
                min_y <= y,
                y <= max_y + 1 || y == min_y,
                forall|x: usize, y: usize| #[trigger] call_requires(cover, (x, y)),
                self.is_covered(before, z@, color),
                forall|k: int|
                    0 <= k < z@.len() ==> if within(w, span, k) && drawn_before(
                        w,
                        k,
                        0,
                        y as int,
                    ) {
                        call_ensures(
                            cover,
                            ((k % w) as usize, (k / w) as usize),
                            #[trigger] z@[k],
                        )
                    } else {
                        z@[k] is None
                    },
            decreases max_y + 1 - y,
        {
            let mut x: usize = min_x;
            while x <= max_x
                invariant
                    before == *old(self),
                    before.wf(),
                    total == before.w * before.h,
                    w == before.w,
                    span == (min_x, max_x, min_y, max_y),
                    max_x < before.w,
                    max_y < before.h,
                    min_y <= y <= max_y,
                    min_x <= x,
                    x <= max_x + 1 || x == min_x,
                    forall|x: usize, y: usize| #[trigger] call_requires(cover, (x, y)),
                    self.is_covered(before, z@, color),
                    forall|k: int|
                        0 <= k < z@.len() ==> if within(w, span, k) && drawn_before(
                            w,
                            k,
                            x as int,
                            y as int,
                        ) {
                            call_ensures(
                                cover,
                                ((k % w) as usize, (k / w) as usize),
                                #[trigger] z@[k],
                            )
                        } else {
                            z@[k] is None
                        },
                decreases max_x + 1 - x,
            {
                proof {
                    lemma_pixel(before.w as int, before.h as int, x as int, y as int);
                }
                let d: Option<Single> = cover(x, y);
                let i: usize = y * self.w + x;
                let ghost was_z = z@;
                proof {
                    z@ = z@.update(i as int, d);
                }
                assert(self.rgb@[i as int] == before.rgb@[i as int] && self.depth@[i as int]
                    == before.depth@[i as int]) by {
                    assert(was_z[i as int] is None);
                }
                if let Some(depth) = d {
                    if self.depth[i].lt(depth) {
                        self.depth.set(i, depth);
                        self.rgb.set(i, color);
                    }
                }
                proof {
                    assert forall|k: int| 0 <= k < z@.len() implies {
                        let wins = #[trigger] z@[k] matches Some(d) && before.depth@[k].below(d);
                        &&& self.rgb@[k] == if wins {
                            color
                        } else {
                            before.rgb@[k]
                        }
                        &&& self.depth@[k] == if wins {
                            z@[k]->0
                        } else {
                            before.depth@[k]
                        }
                    } by {
                        if k != i {
                            assert(z@[k] == was_z[k]);
                        }
                    }
                    assert forall|k: int| 0 <= k < z@.len() implies if within(w, span, k)
                        && drawn_before(w, k, x + 1, y as int) {
                        call_ensures(
                            cover,
                            ((k % w) as usize, (k / w) as usize),
                            #[trigger] z@[k],
                        )
                    } else {
                        z@[k] is None
                    } by {
                        if k != i {
                            assert(z@[k] == was_z[k]);
                            lemma_fundamental_div_mod(k, w);
                            assert((k / w) * w == w * (k / w)) by (nonlinear_arith);
                        }
                    }
                }
                x += 1;
            }
            proof {
                assert forall|k: int| 0 <= k < z@.len() implies if within(w, span, k)
                    && drawn_before(w, k, 0, y + 1) {
                    call_ensures(
                        cover,
                        ((k % w) as usize, (k / w) as usize),
                        #[trigger] z@[k],
                    )
                } else {
                    z@[k] is None
                } by {
                    lemma_mod_bound(k, w);
                    assert(within(w, span, k) ==> (drawn_before(w, k, x as int, y as int)
                        == drawn_before(w, k, 0, y + 1)));
                }
            }
            y += 1;
        }
        proof {
            assert forall|i: int| 0 <= i < z@.len() implies if within(w, span, i) {
                call_ensures(
                    cover,
                    ((i % w) as usize, (i / w) as usize),
                    #[trigger] z@[i],
                )
            } else {
                z@[i] is None
            } by {
                lemma_mod_bound(i, w);
                assert(within(w, span, i) ==> drawn_before(w, i, 0, y as int));
            }
            assert(self.is_covered(before, z@, color));
        }
    }

    /// Whether a point, if there is one, is on the canvas.
    pub open spec fn has_point(self, q: Option<(usize, usize, Single)>) -> bool {
        match q {
            Some((x, y, _)) => x < self.w && y < self.h,
            None => true,
        }
    }

    /// Whether a point is at pixel `i`.
    pub open spec fn is_at(self, q: Option<(usize, usize, Single)>, i: int) -> bool {
        match q {
            Some((x, y, _)) => y * self.w + x == i,
            None => false,
        }
    }

    /// Whether one of the first `k` points of a line is drawn at pixel `i`.
    pub open spec fn touched(
        self,
        p: Seq<Option<(usize, usize, Single)>>,
        drawn: Seq<bool>,
        k: int,
        i: int,
    ) -> bool {
        exists|j: int|
            0 <= j < k && #[trigger] drawn[j] && self.is_at(p[j], i)
    }

    /// Draws a line of `n + 1` points: `point` gives column, row and depth of a
    /// point that is on the canvas, and `visible` whether a depth is seen in
    /// front of what is drawn there. Depths stay.
    pub fn line<
        F: Fn(usize) -> Option<(usize, usize, Single)>,
        G: Fn(Single, Single) -> bool,
    >(&mut self, n: usize, point: F, visible: G, color: [u8; 3])
        requires
            old(self).wf(),
            n < usize::MAX,
            forall|k: usize| #[trigger] call_requires(point, (k,)),
            forall|k: usize, q: Option<(usize, usize, Single)>| #[trigger]
                call_ensures(point, (k,), q) ==> old(self).has_point(q),
            forall|z: Single, d: Single| #[trigger] call_requires(visible, (z, d)),
        ensures
            final(self).w == old(self).w,
            final(self).h == old(self).h,
            final(self).wf(),
            final(self).depth@ == old(self).depth@,
            exists|p: Seq<Option<(usize, usize, Single)>>, drawn: Seq<bool>|
                {
                    &&& p.len() == n + 1
                    &&& drawn.len() == n + 1
                    &&& forall|k: int|
                        0 <= k <= n ==> call_ensures(point, (k as usize,), #[trigger] p[k])
                    &&& forall|k: int|
                        0 <= k <= n ==> match p[k] {
                            Some(q) => call_ensures(
                                visible,
                                (q.2, old(self).depth@[q.1 * old(self).w + q.0]),
                                #[trigger] drawn[k],
                            ),
                            None => !drawn[k],
                        }
                    &&& forall|i: int|
                        0 <= i < final(self).rgb@.len() ==> final(self).rgb@[i]
                            == if #[trigger] old(self).touched(p, drawn, n + 1, i) {
                            color
                        } else {
                            old(self).rgb@[i]
                        }
                },
    {
        let ghost before = *self;
        let mut p: Ghost<Seq<Option<(usize, usize, Single)>>> = Ghost(Seq::empty());
        let mut drawn: Ghost<Seq<bool>> = Ghost(Seq::empty());
        let total: usize = self.rgb.len();
        let mut k: usize = 0;
        while k <= n
            invariant
                k <= n + 1,
                n < usize::MAX,
                before == *old(self),
                before.wf(),
                total == before.w * before.h,
                forall|k: usize| #[trigger] call_requires(point, (k,)),
                forall|k: usize, q: Option<(usize, usize, Single)>| #[trigger]
                    call_ensures(point, (k,), q) ==> before.has_point(q),
                forall|z: Single, d: Single| #[trigger] call_requires(visible, (z, d)),
                self.w == before.w,
                self.h == before.h,
                self.wf(),
                self.depth@ == before.depth@,
                p@.len() == k,
                drawn@.len() == k,
                forall|j: int| 0 <= j < k ==> call_ensures(point, (j as usize,), #[trigger] p@[j]),
                forall|j: int|
                    0 <= j < k ==> match p@[j] {
                        Some(q) => call_ensures(
                            visible,
                            (q.2, before.depth@[q.1 * before.w + q.0]),
                            #[trigger] drawn@[j],
                        ),
                        None => !drawn@[j],
                    },
                forall|i: int|
                    0 <= i < total ==> self.rgb@[i] == if #[trigger] before.touched(
                        p@,
                        drawn@,
                        k as int,
                        i,
                    ) {
                        color
                    } else {
                        before.rgb@[i]
                    },
            decreases n + 1 - k,
        {
            let q: Option<(usize, usize, Single)> = point(k);
            let ghost was = *self;
            let ghost was_p = p@;
            let ghost was_drawn = drawn@;
            let mut seen: bool = false;
            let mut at: usize = 0;
            if let Some((x, y, z)) = q {
                proof {
                    lemma_pixel(before.w as int, before.h as int, x as int, y as int);
                }
                at = y * self.w + x;
                seen = visible(z, self.depth[at]);
                if seen {
                    self.rgb.set(at, color);
                }
            }
            proof {
                p@ = p@.push(q);
                drawn@ = drawn@.push(seen);
                assert forall|i: int| 0 <= i < total implies self.rgb@[i] == if #[trigger] before.touched(
                    p@,
                    drawn@,
                    k + 1,
                    i,
                ) {
                    color
                } else {
                    before.rgb@[i]
                } by {
                    assert(was.rgb@[i] == if before.touched(was_p, was_drawn, k as int, i) {
                        color
                    } else {
                        before.rgb@[i]
                    });
                    if before.touched(was_p, was_drawn, k as int, i) {
                        let j = choose|j: int|
                            0 <= j < k && #[trigger] was_drawn[j] && before.is_at(was_p[j], i);
                        assert(drawn@[j] && p@[j] == was_p[j]);
                    }
                    if seen && at == i {
                        assert(drawn@[k as int]);
                    }
                    if before.touched(p@, drawn@, k + 1, i) && !(seen && at == i) {
                        let j = choose|j: int|
                            0 <= j < k + 1 && #[trigger] drawn@[j] && before.is_at(p@[j], i);
                        assert(j < k);
                        assert(was_drawn[j] && was_p[j] == p@[j]);
                    }
                }
            }
            k += 1;
        }
    }
}


// ---- text ----

/// 3x5 pixel digits and a few symbols for the time stamp: one number per row,
/// the left pixel the highest bit.
pub open spec fn glyph_rows(c: char) -> Seq<u8> {
    if c == '0' {
        seq![7u8, 5, 5, 5, 7]
    } else if c == '1' {
        seq![2u8, 6, 2, 2, 7]
    } else if c == '2' {
        seq![7u8, 1, 7, 4, 7]
    } else if c == '3' {
        seq![7u8, 1, 7, 1, 7]
    } else if c == '4' {
        seq![5u8, 5, 7, 1, 1]
    } else if c == '5' {
        seq![7u8, 4, 7, 1, 7]
    } else if c == '6' {
        seq![7u8, 4, 7, 5, 7]
    } else if c == '7' {
        seq![7u8, 1, 2, 2, 2]
    } else if c == '8' {
        seq![7u8, 5, 7, 5, 7]
    } else if c == '9' {
        seq![7u8, 5, 7, 1, 7]
    } else if c == '.' {
        seq![0u8, 0, 0, 0, 2]
    } else if c == 'm' {
        seq![0u8, 0, 7, 7, 5]
    } else if c == 's' {
        seq![0u8, 0, 3, 2, 6]
    } else {
        seq![0u8, 0, 0, 0, 0]
    }
}

/// The rows of a glyph.
pub fn glyph(c: char) -> (g: [u8; 5])
    ensures
        g@ == glyph_rows(c),
{
    let g: [u8; 5] = match c {
        '0' => [0b111, 0b101, 0b101, 0b101, 0b111],
        '1' => [0b010, 0b110, 0b010, 0b010, 0b111],
        '2' => [0b111, 0b001, 0b111, 0b100, 0b111],
        '3' => [0b111, 0b001, 0b111, 0b001, 0b111],
        '4' => [0b101, 0b101, 0b111, 0b001, 0b001],
        '5' => [0b111, 0b100, 0b111, 0b001, 0b111],
        '6' => [0b111, 0b100, 0b111, 0b101, 0b111],
        '7' => [0b111, 0b001, 0b010, 0b010, 0b010],
        '8' => [0b111, 0b101, 0b111, 0b101, 0b111],
        '9' => [0b111, 0b101, 0b111, 0b001, 0b111],
        '.' => [0b000, 0b000, 0b000, 0b000, 0b010],
        'm' => [0b000, 0b000, 0b111, 0b111, 0b101],
        's' => [0b000, 0b000, 0b011, 0b010, 0b110],
        _ => [0, 0, 0, 0, 0],
    };
    assert(g@ =~= glyph_rows(c));
    g
}

/// Whether column `col` of a glyph row is inked.
pub open spec fn bit(row: u8, col: int) -> bool {
    if col == 0 {
        (row / 4) % 2 == 1
    } else if col == 1 {
        (row / 2) % 2 == 1
    } else {
        row % 2 == 1
    }
}

/// Whether text whose first glyph has its corner at `(x0, y0)`, with pixels of
/// `scale` by `scale` and a gap of one column after each glyph, inks a pixel.
pub open spec fn inked(
    text: Seq<char>,
    x0: int,
    y0: int,
    scale: int,
    x: int,
    y: int,
) -> bool {
    let u = (x - x0) / scale;
    let v = (y - y0) / scale;
    &&& scale > 0
    &&& x >= x0
    &&& y >= y0
    &&& v < 5
    &&& u / 4 < text.len()
    &&& u % 4 < 3
    &&& bit(glyph_rows(text[u / 4])[v], u % 4)
}

fn is_inked(
    text: &Vec<char>,
    x0: usize,
    y0: usize,
    scale: usize,
    x: usize,
    y: usize,
) -> (b: bool)
    ensures
        b == inked(text@, x0 as int, y0 as int, scale as int, x as int, y as int),
{
    if scale == 0 || x < x0 || y < y0 {
        return false;
    }
    let u: usize = (x - x0) / scale;
    let v: usize = (y - y0) / scale;
    if v >= 5 || u / 4 >= text.len() || u % 4 >= 3 {
        return false;
    }
    let row: u8 = glyph(text[u / 4])[v];
    if u % 4 == 0 {
        (row / 4) % 2 == 1
    } else if u % 4 == 1 {
        (row / 2) % 2 == 1
    } else {
        row % 2 == 1
    }
}

/// Writes text onto a canvas in a dark colour.
pub fn draw_text(canvas: &mut Canvas, text: &str, x0: usize, y0: usize, scale: usize)
    requires
        old(canvas).wf(),
    ensures
        final(canvas).wf(),
        final(canvas).w == old(canvas).w,
        final(canvas).h == old(canvas).h,
        final(canvas).depth@ == old(canvas).depth@,
        forall|i: int|
            0 <= i < old(canvas).rgb@.len() ==> (#[trigger] final(canvas).rgb@[i])@ == if inked(
                text@,
                x0 as int,
                y0 as int,
                scale as int,
                i % old(canvas).w as int,
                i / old(canvas).w as int,
            ) {
                seq![30u8, 30u8, 30u8]
            } else {
                old(canvas).rgb@[i]@
            },
{
    let ghost before = *canvas;
    let chars: Vec<char> = chars_of(text);
    let dark: [u8; 3] = [30, 30, 30];
    assert(dark@ =~= seq![30u8, 30u8, 30u8]);
    let total: usize = canvas.rgb.len();
    let w: usize = canvas.w;
    assert(w == 0 ==> total == 0) by {
        if w == 0 {
            assert(0 * before.h == 0);
        }
    }
    let mut i: usize = 0;
    while i < total
        invariant
            i <= total,
            before == *old(canvas),
            before.wf(),
            total == before.rgb@.len(),
            w == before.w,
            w == 0 ==> total == 0,
            chars@ == text@,
            dark@ == seq![30u8, 30u8, 30u8],
            canvas.w == before.w,
            canvas.h == before.h,
            canvas.wf(),
            canvas.depth@ == before.depth@,
            forall|k: int|
                0 <= k < total ==> (#[trigger] canvas.rgb@[k])@ == if k < i && inked(
                    text@,
                    x0 as int,
                    y0 as int,
                    scale as int,
                    k % w as int,
                    k / w as int,
                ) {
                    seq![30u8, 30u8, 30u8]
                } else {
                    before.rgb@[k]@
                },
        decreases total - i,
    {
        if is_inked(&chars, x0, y0, scale, i % w, i / w) {
            let ghost was = canvas.rgb@;
            canvas.rgb.set(i, dark);
            assert forall|k: int| 0 <= k < total && k != i implies #[trigger] canvas.rgb@[k]
                == was[k] by {}
        }
        i += 1;
    }
}

/// Pixel `(dx, dy)` of the block of column `col` and row `row` of glyph `g` of
/// a text is inked as the glyph says, and the gap after a glyph is not.
pub proof fn law_text_shows_its_glyphs(
    text: Seq<char>,
    x0: int,
    y0: int,
    scale: int,
    g: int,
    row: int,
    col: int,
    dx: int,
    dy: int,
)
    requires
        scale > 0,
        0 <= g < text.len(),
        0 <= row < 5,
        0 <= col < 4,
        0 <= dx < scale,
        0 <= dy < scale,
    ensures
        inked(text, x0, y0, scale, x0 + (g * 4 + col) * scale + dx, y0 + row * scale + dy)
            == (col < 3 && bit(glyph_rows(text[g])[row], col)),
{
    let u = g * 4 + col;
    lemma_fundamental_div_mod_converse(u * scale + dx, scale, u, dx);
    lemma_fundamental_div_mod_converse(row * scale + dy, scale, row, dy);
    assert(u * scale >= 0 && row * scale >= 0) by (nonlinear_arith)
        requires
            u >= 0,
            row >= 0,
            scale > 0,
    ;
}

// ---- pictures ----

/// The colours of a canvas, one byte after the other.
pub open spec fn pixel_bytes(rgb: Seq<[u8; 3]>) -> Seq<u8> {
    Seq::new(3 * rgb.len(), |i: int| rgb[i / 3]@[i % 3])
}

fn pixels_of(rgb: &Vec<[u8; 3]>) -> (r: Vec<u8>)
    ensures
        r@ == pixel_bytes(rgb@),
{
    let mut r: Vec<u8> = Vec::new();
    let mut i: usize = 0;
    while i < rgb.len()
        invariant
            i <= rgb@.len(),
            r@ =~= pixel_bytes(rgb@).take(3 * i),
        decreases rgb.len() - i,
    {
        r.push(rgb[i][0]);
        r.push(rgb[i][1]);
        r.push(rgb[i][2]);
        i += 1;
    }
    r
}

/// Palette and palette indices that the GIF library's quantiser gives a
/// picture.
pub uninterp spec fn quantised(width: u16, height: u16, pixels: Seq<u8>, speed: i32) -> (
    Seq<u8>,
    Seq<u8>,
);

/// The colours that occur in a picture.
pub open spec fn colours(pixels: Seq<u8>) -> Set<(u8, u8, u8)> {
    Seq::new(
        pixels.len() / 3,
        |i: int| (pixels[3 * i], pixels[3 * i + 1], pixels[3 * i + 2]),
    ).to_set()
}

/// Whether a palette gives every pixel its colour.
pub open spec fn is_exact(pixels: Seq<u8>, palette: Seq<u8>, indices: Seq<u8>) -> bool {
    forall|i: int|
        0 <= i < indices.len() ==> {
            let at = 3 * (#[trigger] indices[i] as int);
            &&& at + 2 < palette.len()
            &&& palette[at] == pixels[3 * i]
            &&& palette[at + 1] == pixels[3 * i + 1]
            &&& palette[at + 2] == pixels[3 * i + 2]
        }
}

/// `gif::Frame::from_rgb_speed`: the palette and, for each pixel, its place in
/// the palette; both depend on the arguments alone. There is one index per
/// pixel, the palette holds at most 256 colours of three bytes, and a picture
/// of at most 256 colours is given exactly.
#[verifier::external_body]
fn quantise(width: u16, height: u16, pixels: &Vec<u8>, speed: i32) -> (r: (Vec<u8>, Vec<u8>))
    requires
        pixels@.len() == width * height * 3,
        1 <= speed <= 30,
    ensures
        (r.0@, r.1@) == quantised(width, height, pixels@, speed),
        r.1@.len() == width * height,
        r.0@.len() <= 768,
        r.0@.len() % 3 == 0,
        colours(pixels@).len() <= 256 ==> is_exact(pixels@, r.0@, r.1@),
{
    let frame = gif::Frame::from_rgb_speed(width, height, pixels, speed);
    (frame.palette.unwrap_or_default(), frame.buffer.into_owned())
}

/// A picture reduced to a palette.
#[derive(Clone, Debug)]
pub struct Picture {
    pub palette: Vec<u8>,
    pub indices: Vec<u8>,
}

/// Quality of the reduction to a palette: between 1 (best) and 30 (fastest).
pub const SPEED: i32 = 10;

impl Canvas {
    /// The canvas reduced to a palette; exact where at most 256 colours occur.
    pub fn picture(&self, width: u16, height: u16) -> (p: Picture)
        requires
            self.wf(),
            self.w == width,
            self.h == height,
        ensures
            (p.palette@, p.indices@) == quantised(width, height, pixel_bytes(self.rgb@), SPEED),
            p.indices@.len() == self.w * self.h,
            p.palette@.len() <= 768,
            p.palette@.len() % 3 == 0,
            colours(pixel_bytes(self.rgb@)).len() <= 256 ==> is_exact(
                pixel_bytes(self.rgb@),
                p.palette@,
                p.indices@,
            ),
    {
        let pixels: Vec<u8> = pixels_of(&self.rgb);
        let (palette, indices): (Vec<u8>, Vec<u8>) = quantise(width, height, &pixels, SPEED);
        Picture { palette, indices }
    }
}

/// The strain that an element is coloured by; nothing where it is not shown
/// because it is eroded.
pub fn shown_strain(frame: &Frame, element: usize) -> (r: Option<Single>)
    ensures
        r == if element < frame.eroded@.len() && frame.eroded@[element as int] {
            None
        } else if element < frame.plastic_strain@.len() {
            Some(frame.plastic_strain@[element as int])
        } else {
            Some(Single::spec_zero())
        },
{
    if element < frame.eroded.len() && frame.eroded[element] {
        None
    } else if element < frame.plastic_strain.len() {
        Some(frame.plastic_strain[element])
    } else {
        Some(Single::zero())
    }
}

/// Refuses an animation without frames.
pub fn check_frames(frames: &Vec<Frame>) -> (r: Result<(), String>)
    ensures
        match r {
            Ok(()) => frames@.len() > 0,
            Err(e) => frames@.len() == 0 && e@ == "no frames captured; set frame_steps"@,
        },
{
    if frames.len() == 0 {
        Err("no frames captured; set frame_steps".to_string())
    } else {
        Ok(())
    }
}

// ---- what surfaces and pictures are for ----

/// The step out of a hexahedron through one of its faces: bottom, top, then the
/// four sides.
pub open spec fn outward(f: int) -> (int, int, int) {
    if f == 0 {
        (0, 0, -1)
    } else if f == 1 {
        (0, 0, 1)
    } else if f == 2 {
        (0, -1, 0)
    } else if f == 3 {
        (1, 0, 0)
    } else if f == 4 {
        (0, 1, 0)
    } else {
        (-1, 0, 0)
    }
}

/// The six faces of a hexahedron are wound counter-clockwise seen from outside:
/// the cross product of two edges of a face is the step out through it. A face is
/// a quad: its first and third corner lie apart as its second and fourth from the
/// first together.
pub proof fn law_element_faces_face_outward(n: [usize; 3], e: int, f: int)
    requires
        0 <= f < 6,
    ensures
        ({
            let p = hex_point(n, e, face_corner(f, 0));
            let u = step(p, hex_point(n, e, face_corner(f, 1)));
            let v = step(p, hex_point(n, e, face_corner(f, 3)));
            let d = step(p, hex_point(n, e, face_corner(f, 2)));
            &&& cross(u, v) == outward(f)
            &&& d == (u.0 + v.0, u.1 + v.1, u.2 + v.2)
        }),
        forall|c: int| 0 <= c < 4 ==> 0 <= #[trigger] face_corner(f, c) < 8,
{
    assert(f == 0 || f == 1 || f == 2 || f == 3 || f == 4 || f == 5);
    assert(cross((0, 1, 0), (1, 0, 0)) == (0int, 0int, -1int)) by (nonlinear_arith);
    assert(cross((1, 0, 0), (0, 1, 0)) == (0int, 0int, 1int)) by (nonlinear_arith);
    assert(cross((1, 0, 0), (0, 0, 1)) == (0int, -1int, 0int)) by (nonlinear_arith);
    assert(cross((0, 1, 0), (0, 0, 1)) == (1int, 0int, 0int)) by (nonlinear_arith);
    assert(cross((-1, 0, 0), (0, 0, 1)) == (0int, 1int, 0int)) by (nonlinear_arith);
    assert(cross((0, -1, 0), (0, 0, 1)) == (-1int, 0int, 0int)) by (nonlinear_arith);
}

/// The faces of elements that no other face has the nodes of.
pub open spec fn lone_faces(hexes: Seq<[usize; 8]>) -> spec_fn(int) -> bool {
    |i: int|
        forall|j: int|
            0 <= j < 6 * hexes.len() && j != i ==> !same_face(
                face_at(hexes, i),
                #[trigger] face_at(hexes, j),
            )
}

/// The surface is made of all faces that no other face has the nodes of, in their
/// order, each with its element and its own four nodes.
pub proof fn law_surface_is_the_lone_faces(hexes: Seq<[usize; 8]>, k: int)
    requires
        0 <= k <= 6 * hexes.len(),
    ensures
        is_picked(
            surface_list(hexes, k),
            k,
            lone_faces(hexes),
            |i: int| ((i / 6) as usize, face_at(hexes, i)),
        ),
    decreases k,
{
    if k > 0 {
        law_surface_is_the_lone_faces(hexes, k - 1);
        lemma_picked_grows(
            surface_list(hexes, k - 1),
            k - 1,
            lone_faces(hexes),
            |i: int| ((i / 6) as usize, face_at(hexes, i)),
        );
        assert(on_surface(hexes, k - 1) == lone_faces(hexes)(k - 1));
    }
}

/// Two faces with the same nodes have every node of one in the other, and turning
/// or mirroring a face does not change its nodes.
pub proof fn law_same_faces(a: Seq<usize>, b: Seq<usize>, x: usize)
    requires
        a.len() == 4,
        b.len() == 4,
    ensures
        same_face(a, b) && a.contains(x) ==> b.contains(x),
        same_face(a, seq![a[1], a[2], a[3], a[0]]),
        same_face(a, seq![a[0], a[3], a[2], a[1]]),
{
    if same_face(a, b) && a.contains(x) {
        let i = choose|i: int| 0 <= i < a.len() && a[i] == x;
        assert(i == 0 || i == 1 || i == 2 || i == 3);
        assert(occurs(a, x) == occurs(b, x));
        assert(b[0] == x || b[1] == x || b[2] == x || b[3] == x);
    }
}

/// Of what is drawn at a pixel the nearest stays: the patch where it stands in
/// front of what there was, and nothing changes elsewhere.
pub proof fn law_nearer_patches_win(
    after: Canvas,
    before: Canvas,
    z: Seq<Option<Single>>,
    color: [u8; 3],
    i: int,
)
    requires
        after.is_covered(before, z, color),
        0 <= i < z.len(),
        !before.depth@[i].nan(),
        z[i] matches Some(d) ==> !d.nan(),
    ensures
        z[i] is None ==> after.rgb@[i] == before.rgb@[i] && after.depth@[i] == before.depth@[i],
        z[i] matches Some(d) ==> d.order() > before.depth@[i].order() ==> after.rgb@[i] == color
            && after.depth@[i] == d,
        z[i] matches Some(d) ==> d.order() <= before.depth@[i].order() ==> after.rgb@[i]
            == before.rgb@[i] && after.depth@[i] == before.depth@[i],
        after.depth@[i].order() >= before.depth@[i].order(),
{
}

/// A pixel lies within spans where its column and its row do, the ends among them;
/// and a point is at the pixel of its column and row.
pub proof fn law_pixels_by_column_and_row(
    c: Canvas,
    span: (usize, usize, usize, usize),
    x: usize,
    y: usize,
    d: Single,
)
    requires
        x < c.w,
        y < c.h,
    ensures
        within(c.w as int, span, y * c.w + x) <==> span.0 <= x <= span.1 && span.2 <= y <= span.3,
        c.is_at(Some((x, y, d)), y * c.w + x),
        c.has_point(Some((x, y, d))),
{
    lemma_pixel(c.w as int, c.h as int, x as int, y as int);
}

/// A glyph is five rows of three pixels, and the row spells its pixels, the left
/// one first; the ten digits all look different, and none is blank.
pub proof fn law_digits_differ(a: char, b: char, row: int)
    requires
        '0' <= a && a <= '9',
        '0' <= b && b <= '9',
        0 <= row < 5,
    ensures
        glyph_rows(a).len() == 5,
        glyph_rows(a)[row] < 8,
        glyph_rows(a)[row] == (if bit(glyph_rows(a)[row], 0) {
            4int
        } else {
            0
        }) + (if bit(glyph_rows(a)[row], 1) {
            2int
        } else {
            0
        }) + (if bit(glyph_rows(a)[row], 2) {
            1int
        } else {
            0
        }),
        glyph_rows(a) == glyph_rows(b) ==> a == b,
        glyph_rows(a)[4] != 0,
{
    let (p, q) = (glyph_rows(a), glyph_rows(b));
    assert(row == 0 || row == 1 || row == 2 || row == 3 || row == 4);
    if a != b {
        assert(p[0] != q[0] || p[1] != q[1] || p[2] != q[2] || p[3] != q[3] || p[4] != q[4]);
    }
}

/// The bytes of a picture are red, green and blue of one pixel after the other.
pub proof fn law_pixel_bytes(rgb: Seq<[u8; 3]>, i: int, c: int)
    requires
        0 <= i < rgb.len(),
        0 <= c < 3,
    ensures
        pixel_bytes(rgb).len() == 3 * rgb.len(),
        pixel_bytes(rgb)[3 * i + c] == rgb[i]@[c],
{
    assert((3 * i + c) / 3 == i && (3 * i + c) % 3 == c);
}

} // verus!
