//! Node-to-face penalty contact: which nodes are looked at, and which face a
//! node is in contact with.

use crate::model::Contact;
use crate::number::Real;
use vstd::prelude::*;

verus! {

/// An axis-aligned box.
#[derive(Clone, Copy, Debug)]
pub struct Bounds {
    pub lo: [Real; 3],
    pub hi: [Real; 3],
}

impl Bounds {
    /// A box that holds nothing.
    pub open spec fn spec_nothing() -> Bounds {
        Bounds {
            lo: [Real::spec_infinity(), Real::spec_infinity(), Real::spec_infinity()],
            hi: [Real::spec_neg_infinity(), Real::spec_neg_infinity(), Real::spec_neg_infinity()],
        }
    }

    /// The box widened by a point.
    pub open spec fn widened(self, p: [Real; 3]) -> Bounds {
        Bounds {
            lo: [
                self.lo@[0].lesser(p@[0]),
                self.lo@[1].lesser(p@[1]),
                self.lo@[2].lesser(p@[2]),
            ],
            hi: [
                self.hi@[0].greater(p@[0]),
                self.hi@[1].greater(p@[1]),
                self.hi@[2].greater(p@[2]),
            ],
        }
    }

    pub fn nothing() -> (b: Bounds)
        ensures
            b == Bounds::spec_nothing(),
    {
        let b: Bounds = Bounds {
            lo: [Real::infinity(), Real::infinity(), Real::infinity()],
            hi: [Real::neg_infinity(), Real::neg_infinity(), Real::neg_infinity()],
        };
        assert(b.lo@ =~= Bounds::spec_nothing().lo@);
        assert(b.hi@ =~= Bounds::spec_nothing().hi@);
        b
    }

    /// Widens the box by a point.
    pub fn widen(&mut self, p: &[Real; 3])
        ensures
            *final(self) == old(self).widened(*p),
    {
        let lo: [Real; 3] = [self.lo[0].min(p[0]), self.lo[1].min(p[1]), self.lo[2].min(p[2])];
        let hi: [Real; 3] = [self.hi[0].max(p[0]), self.hi[1].max(p[1]), self.hi[2].max(p[2])];
        assert(lo@ =~= old(self).widened(*p).lo@);
        assert(hi@ =~= old(self).widened(*p).hi@);
        self.lo = lo;
        self.hi = hi;
    }

    /// Whether a point is in the box, its sides included.
    pub open spec fn holds(self, p: [Real; 3]) -> bool {
        forall|d: int|
            0 <= d < 3 ==> (#[trigger] self.lo@[d]).at_most(p@[d]) && p@[d].at_most(self.hi@[d])
    }

    pub fn contains(&self, p: &[Real; 3]) -> (b: bool)
        ensures
            b == self.holds(*p),
    {
        let b: bool = self.lo[0].le(p[0]) && self.lo[1].le(p[1]) && self.lo[2].le(p[2])
            && p[0].le(self.hi[0]) && p[1].le(self.hi[1]) && p[2].le(self.hi[2]);
        proof {
            if b {
                assert forall|d: int| 0 <= d < 3 implies (#[trigger] self.lo@[d]).at_most(p@[d])
                    && p@[d].at_most(self.hi@[d]) by {
                    assert(d == 0 || d == 1 || d == 2);
                }
            } else if self.holds(*p) {
                assert(self.lo@[0].at_most(p@[0]));
                assert(self.lo@[1].at_most(p@[1]));
                assert(self.lo@[2].at_most(p@[2]));
            }
        }
        b
    }

    /// Whether a point is beyond one of the sides.
    pub open spec fn is_past(self, p: [Real; 3]) -> bool {
        exists|d: int|
            0 <= d < 3 && (p@[d].below(#[trigger] self.lo@[d]) || self.hi@[d].below(p@[d]))
    }

    pub fn is_outside(&self, p: &[Real; 3]) -> (b: bool)
        ensures
            b == self.is_past(*p),
    {
        let b: bool = p[0].lt(self.lo[0]) || self.hi[0].lt(p[0]) || p[1].lt(self.lo[1])
            || self.hi[1].lt(p[1]) || p[2].lt(self.lo[2]) || self.hi[2].lt(p[2]);
        proof {
            if p@[0].below(self.lo@[0]) || self.hi@[0].below(p@[0]) {
                assert(self.is_past(*p));
            } else if p@[1].below(self.lo@[1]) || self.hi@[1].below(p@[1]) {
                assert(self.is_past(*p));
            } else if p@[2].below(self.lo@[2]) || self.hi@[2].below(p@[2]) {
                assert(self.is_past(*p));
            } else if self.is_past(*p) {
                let d = choose|d: int|
                    0 <= d < 3 && (p@[d].below(#[trigger] self.lo@[d]) || self.hi@[d].below(
                        p@[d],
                    ));
                assert(d == 0 || d == 1 || d == 2);
            }
        }
        b
    }
}

/// The box of the corners of the first `k` listed faces, of the next of which
/// the first `c` corners count too.
pub open spec fn box_of(
    list: Seq<usize>,
    faces: Seq<[usize; 4]>,
    positions: Seq<[Real; 3]>,
    k: int,
    c: int,
) -> Bounds
    decreases k, c,
{
    if c > 0 {
        box_of(list, faces, positions, k, c - 1).widened(
            positions[faces[list[k] as int]@[c - 1] as int],
        )
    } else if k > 0 {
        box_of(list, faces, positions, k - 1, 4)
    } else {
        Bounds::spec_nothing()
    }
}

/// The box of the corners of the listed faces.
fn face_bounds(
    list: &Vec<usize>,
    faces: &Vec<[usize; 4]>,
    positions: &Vec<[Real; 3]>,
) -> (b: Bounds)
    requires
        forall|k: int| 0 <= k < list@.len() ==> #[trigger] list@[k] < faces@.len(),
        forall|f: int, q: int|
            0 <= f < faces@.len() && 0 <= q < 4 ==> #[trigger] faces@[f]@[q] < positions@.len(),
    ensures
        b == box_of(list@, faces@, positions@, list@.len() as int, 0),
{
    let mut b: Bounds = Bounds::nothing();
    let mut k: usize = 0;
    while k < list.len()
        invariant
            k <= list@.len(),
            forall|k: int| 0 <= k < list@.len() ==> #[trigger] list@[k] < faces@.len(),
            forall|f: int, q: int|
                0 <= f < faces@.len() && 0 <= q < 4 ==> #[trigger] faces@[f]@[q]
                    < positions@.len(),
            b == box_of(list@, faces@, positions@, k as int, 0),
        decreases list.len() - k,
    {
        assert(list@[k as int] < faces@.len());
        let face: [usize; 4] = faces[list[k]];
        let mut c: usize = 0;
        while c < 4
            invariant
                c <= 4,
                k < list@.len(),
                list@[k as int] < faces@.len(),
                face == faces@[list@[k as int] as int],
                forall|f: int, q: int|
                    0 <= f < faces@.len() && 0 <= q < 4 ==> #[trigger] faces@[f]@[q]
                        < positions@.len(),
                b == box_of(list@, faces@, positions@, k as int, c as int),
            decreases 4 - c,
        {
            assert(faces@[list@[k as int] as int]@[c as int] < positions@.len());
            b.widen(&positions[face[c]]);
            c += 1;
        }
        k += 1;
    }
    b
}

/// The nodes among the first `k` that lie in a box.
pub open spec fn nodes_in(
    nodes: Seq<usize>,
    positions: Seq<[Real; 3]>,
    b: Bounds,
    k: int,
) -> Seq<usize>
    decreases k,
{
    if k <= 0 {
        Seq::empty()
    } else {
        let before = nodes_in(nodes, positions, b, k - 1);
        if b.holds(positions[nodes[k - 1] as int]) {
            before.push(nodes[k - 1])
        } else {
            before
        }
    }
}

/// Runtime state of one one-way contact.
#[derive(Clone, Debug)]
pub struct ContactRuntime {
    pub nodes: Vec<usize>,
    pub faces: Vec<[usize; 4]>,
    pub stiffness: Real,
    pub max_distance: Real,
    pub penetration_count: usize,
    pub max_penetration: Real,
}

impl ContactRuntime {
    /// Keeps only the nodes within the faces' initial bounding box as `grow`
    /// enlarges it by the search distance (a static broad phase).
    pub fn new<F: Fn(Bounds) -> Bounds>(
        c: &Contact,
        faces: &Vec<[usize; 4]>,
        positions: &Vec<[Real; 3]>,
        grow: F,
    ) -> (r: ContactRuntime)
        requires
            forall|b: Bounds| #[trigger] call_requires(grow, (b,)),
            forall|k: int| 0 <= k < c.faces@.len() ==> #[trigger] c.faces@[k] < faces@.len(),
            forall|k: int| 0 <= k < c.nodes@.len() ==> #[trigger] c.nodes@[k] < positions@.len(),
            forall|f: int, q: int|
                0 <= f < faces@.len() && 0 <= q < 4 ==> #[trigger] faces@[f]@[q]
                    < positions@.len(),
        ensures
            exists|g: Bounds|
                {
                    &&& #[trigger] call_ensures(
                        grow,
                        (box_of(c.faces@, faces@, positions@, c.faces@.len() as int, 0),),
                        g,
                    )
                    &&& r.nodes@ == nodes_in(c.nodes@, positions@, g, c.nodes@.len() as int)
                },
            r.faces@.len() == c.faces@.len(),
            forall|k: int|
                0 <= k < c.faces@.len() ==> #[trigger] r.faces@[k] == faces@[c.faces@[k] as int],
            r.stiffness == c.stiffness,
            r.max_distance == c.max_distance,
            r.penetration_count == 0,
            r.max_penetration == Real::spec_zero(),
    {
        let b: Bounds = face_bounds(&c.faces, faces, positions);
        let g: Bounds = grow(b);
        let mut nodes: Vec<usize> = Vec::new();
        let mut k: usize = 0;
        while k < c.nodes.len()
            invariant
                k <= c.nodes@.len(),
                forall|k: int|
                    0 <= k < c.nodes@.len() ==> #[trigger] c.nodes@[k] < positions@.len(),
                nodes@ == nodes_in(c.nodes@, positions@, g, k as int),
            decreases c.nodes.len() - k,
        {
            assert(c.nodes@[k as int] < positions@.len());
            if g.contains(&positions[c.nodes[k]]) {
                nodes.push(c.nodes[k]);
            }
            k += 1;
        }
        let mut kept: Vec<[usize; 4]> = Vec::new();
        let mut f: usize = 0;
        while f < c.faces.len()
            invariant
                f <= c.faces@.len(),
                forall|k: int| 0 <= k < c.faces@.len() ==> #[trigger] c.faces@[k] < faces@.len(),
                kept@.len() == f,
                forall|k: int|
                    0 <= k < f ==> #[trigger] kept@[k] == faces@[c.faces@[k] as int],
            decreases c.faces.len() - f,
        {
            assert(c.faces@[f as int] < faces@.len());
            kept.push(faces[c.faces[f]]);
            f += 1;
        }
        assert(call_ensures(grow, (b,), g));
        ContactRuntime {
            nodes,
            faces: kept,
            stiffness: c.stiffness,
            max_distance: c.max_distance,
            penetration_count: 0,
            max_penetration: Real::zero(),
        }
    }

    /// Forgets the penetrations of the last step.
    pub fn reset(&mut self)
        ensures
            final(self).penetration_count == 0,
            final(self).max_penetration == Real::spec_zero(),
            final(self).nodes == old(self).nodes,
            final(self).faces == old(self).faces,
            final(self).stiffness == old(self).stiffness,
            final(self).max_distance == old(self).max_distance,
    {
        self.penetration_count = 0;
        self.max_penetration = Real::zero();
    }

    /// Counts a penetration of a given depth.
    pub fn record(&mut self, depth: Real)
        requires
            old(self).penetration_count < usize::MAX,
        ensures
            final(self).penetration_count == old(self).penetration_count + 1,
            final(self).max_penetration == old(self).max_penetration.greater(depth),
            final(self).nodes == old(self).nodes,
            final(self).faces == old(self).faces,
            final(self).stiffness == old(self).stiffness,
            final(self).max_distance == old(self).max_distance,
    {
        self.penetration_count += 1;
        self.max_penetration = self.max_penetration.max(depth);
    }
}

/// How far outside a triangle a projection may fall, 1e-10, negated.
pub const LEAST_SHARE: u64 = 0xbddb_7cdf_d9d7_bdbb;

/// One and as much.
pub const GREATEST_SHARE: u64 = 0x3ff0_0000_0006_df38;

/// Whether a point falls onto a triangle, from its shares of two sides and
/// their sum.
pub fn on_triangle(u: Real, v: Real, sum: Real) -> (b: bool)
    ensures
        b == ((Real { bits: LEAST_SHARE }).at_most(u) && (Real { bits: LEAST_SHARE }).at_most(v)
            && sum.at_most(Real { bits: GREATEST_SHARE })),
{
    let least: Real = Real { bits: LEAST_SHARE };
    let most: Real = Real { bits: GREATEST_SHARE };
    least.le(u) && least.le(v) && sum.le(most)
}

/// Whether a signed distance is that of a penetration: behind the face, and no
/// deeper than the search distance.
pub open spec fn penetrates(signed: Real, max_distance: Real) -> bool {
    !Real::spec_zero().below(signed) && !signed.below(max_distance.negated())
}

/// Whether a node at a point is found in contact with face `k`: within the
/// face's box, a penetration, and projected onto the face.
pub open spec fn hits(
    point: [Real; 3],
    boxes: Seq<Bounds>,
    max_distance: Real,
    k: int,
    signed: Real,
    inside: bool,
) -> bool {
    !boxes[k].is_past(point) && penetrates(signed, max_distance) && inside
}

/// The first face that a node is in contact with, and its signed distance. For
/// a node, `signed` gives the distance from a face and `inside` whether the
/// projection along it falls onto the face.
pub fn first_contact<F: Fn(usize, usize) -> Real, G: Fn(usize, usize, Real) -> bool>(
    node: usize,
    point: &[Real; 3],
    boxes: &Vec<Bounds>,
    max_distance: Real,
    signed: &F,
    inside: &G,
) -> (r: Option<(usize, Real)>)
    requires
        forall|k: usize| #[trigger] call_requires(*signed, (node, k)),
        forall|k: usize, s: Real| #[trigger] call_requires(*inside, (node, k, s)),
    ensures
        exists|s: Seq<Real>, i: Seq<bool>| #[trigger]
            is_first_contact(node, *point, boxes@, max_distance, *signed, *inside, s, i, r),
{
    let mut s: Ghost<Seq<Real>> = Ghost(Seq::new(boxes@.len(), |k: int| Real::spec_zero()));
    let mut i: Ghost<Seq<bool>> = Ghost(Seq::new(boxes@.len(), |k: int| false));
    let mut k: usize = 0;
    while k < boxes.len()
        invariant
            k <= boxes@.len(),
            forall|k: usize| #[trigger] call_requires(*signed, (node, k)),
            forall|k: usize, s: Real| #[trigger] call_requires(*inside, (node, k, s)),
            s@.len() == boxes@.len(),
            i@.len() == boxes@.len(),
            forall|j: int|
                0 <= j < k ==> !(#[trigger] hits(
                    *point,
                    boxes@,
                    max_distance,
                    j,
                    s@[j],
                    i@[j],
                )),
            measured(node, *point, boxes@, max_distance, *signed, *inside, s@, i@, k as int),
        decreases boxes.len() - k,
    {
        let ghost s0 = s@;
        let ghost i0 = i@;
        if !boxes[k].is_outside(point) {
            let d: Real = signed(node, k);
            proof {
                s@ = s@.update(k as int, d);
            }
            if !Real::zero().lt(d) && !d.lt(max_distance.neg()) {
                let on: bool = inside(node, k, d);
                proof {
                    i@ = i@.update(k as int, on);
                }
                if on {
                    proof {
                        assert forall|j: int| 0 <= j < k implies !(#[trigger] hits(
                            *point,
                            boxes@,
                            max_distance,
                            j,
                            s@[j],
                            i@[j],
                        )) by {
                            assert(!hits(*point, boxes@, max_distance, j, s0[j], i0[j]));
                        }
                        assert forall|j: int|
                            0 <= j < k + 1 && !(#[trigger] boxes@[j]).is_past(*point) implies {
                            &&& call_ensures(*signed, (node, j as usize), s@[j])
                            &&& penetrates(s@[j], max_distance) ==> call_ensures(
                                *inside,
                                (node, j as usize, s@[j]),
                                i@[j],
                            )
                        } by {
                            if j < k {
                                assert(s@[j] == s0[j] && i@[j] == i0[j]);
                            }
                        }
                        assert(measured(
                            node,
                            *point,
                            boxes@,
                            max_distance,
                            *signed,
                            *inside,
                            s@,
                            i@,
                            k + 1,
                        ));
                        assert(is_first_contact(
                            node,
                            *point,
                            boxes@,
                            max_distance,
                            *signed,
                            *inside,
                            s@,
                            i@,
                            Some((k, d)),
                        ));
                    }
                    return Some((k, d));
                }
            }
        }
        proof {
            assert forall|j: int| 0 <= j < k + 1 implies !(#[trigger] hits(
                *point,
                boxes@,
                max_distance,
                j,
                s@[j],
                i@[j],
            )) by {
                if j < k {
                    assert(!hits(*point, boxes@, max_distance, j, s0[j], i0[j]));
                }
            }
            assert forall|j: int|
                0 <= j < k + 1 && !(#[trigger] boxes@[j]).is_past(*point) implies {
                &&& call_ensures(*signed, (node, j as usize), s@[j])
                &&& penetrates(s@[j], max_distance) ==> call_ensures(
                    *inside,
                    (node, j as usize, s@[j]),
                    i@[j],
                )
            } by {
                if j < k {
                    assert(s@[j] == s0[j] && i@[j] == i0[j]);
                }
            }
        }
        k += 1;
    }
    assert(is_first_contact(node, *point, boxes@, max_distance, *signed, *inside, s@, i@, None));
    None
}

/// Whether a face, with its signed distance, is the first that a node is in
/// contact with, by the distances `s` and projections `i` measured.
pub open spec fn is_first_contact<F: Fn(usize, usize) -> Real, G: Fn(usize, usize, Real) -> bool>(
    node: usize,
    point: [Real; 3],
    boxes: Seq<Bounds>,
    max_distance: Real,
    signed: F,
    inside: G,
    s: Seq<Real>,
    i: Seq<bool>,
    r: Option<(usize, Real)>,
) -> bool {
    let n = match r {
        Some((f, _)) => f as int,
        None => boxes.len() as int,
    };
    &&& s.len() == boxes.len()
    &&& i.len() == boxes.len()
    &&& forall|k: int|
        0 <= k < n ==> !(#[trigger] hits(point, boxes, max_distance, k, s[k], i[k]))
    &&& match r {
        Some((f, d)) => {
            &&& f < boxes.len()
            &&& d == s[n]
            &&& hits(point, boxes, max_distance, n, s[n], i[n])
            &&& measured(node, point, boxes, max_distance, signed, inside, s, i, n + 1)
        },
        None => measured(node, point, boxes, max_distance, signed, inside, s, i, n),
    }
}

/// Whether the distances and projections of the first `n` faces are those that
/// were measured, where they matter.
pub open spec fn measured<F: Fn(usize, usize) -> Real, G: Fn(usize, usize, Real) -> bool>(
    node: usize,
    point: [Real; 3],
    boxes: Seq<Bounds>,
    max_distance: Real,
    signed: F,
    inside: G,
    s: Seq<Real>,
    i: Seq<bool>,
    n: int,
) -> bool {
    forall|k: int|
        0 <= k < n && !(#[trigger] boxes[k]).is_past(point) ==> {
            &&& call_ensures(signed, (node, k as usize), s[k])
            &&& penetrates(s[k], max_distance) ==> call_ensures(
                inside,
                (node, k as usize, s[k]),
                i[k],
            )
        }
}

/// A node in contact with a face, and its signed distance from it.
#[derive(Clone, Copy, Debug, PartialEq, Eq, Structural)]
pub struct Touch {
    pub node: usize,
    /// Place of the face in the list of the contact.
    pub face: usize,
    pub signed: Real,
}

/// Whether a face, with its signed distance, is the first that the node at place
/// `j` is in contact with.
pub open spec fn finds_first<F: Fn(usize, usize) -> Real, G: Fn(usize, usize, Real) -> bool>(
    points: Seq<[Real; 3]>,
    boxes: Seq<Bounds>,
    max_distance: Real,
    signed: F,
    inside: G,
    j: int,
    r: Option<(usize, Real)>,
) -> bool {
    exists|s: Seq<Real>, i: Seq<bool>| #[trigger]
        is_first_contact(
            j as usize,
            points[j],
            boxes,
            max_distance,
            signed,
            inside,
            s,
            i,
            r,
        )
}

/// The touches of the first `n` nodes, by what was found for each.
pub open spec fn touches_of(
    nodes: Seq<usize>,
    found: Seq<Option<(usize, Real)>>,
    n: int,
) -> Seq<Touch>
    decreases n,
{
    if n <= 0 {
        Seq::empty()
    } else {
        let before = touches_of(nodes, found, n - 1);
        match found[n - 1] {
            Some((face, signed)) => before.push(Touch { node: nodes[n - 1], face, signed }),
            None => before,
        }
    }
}

/// The greatest depth of the first `n` touches, zero at least.
pub open spec fn deepest(touches: Seq<Touch>, n: int) -> Real
    decreases n,
{
    if n <= 0 {
        Real::spec_zero()
    } else {
        deepest(touches, n - 1).greater(touches[n - 1].signed.negated())
    }
}

/// The greatest depth does not depend on what comes after.
proof fn lemma_deepest_of_more(touches: Seq<Touch>, t: Touch, n: int)
    requires
        n <= touches.len(),
    ensures
        deepest(touches.push(t), n) == deepest(touches, n),
    decreases n,
{
    if n > 0 {
        lemma_deepest_of_more(touches, t, n - 1);
        assert(touches.push(t)[n - 1] == touches[n - 1]);
    }
}

impl ContactRuntime {
    /// Looks for the first face that each node is in contact with, gives the
    /// nodes that touch one, in order, and keeps how many they are and how deep
    /// the deepest is. `points` are where the nodes are, `boxes` the boxes of the
    /// faces. For the node at a place of the list, `signed` gives the distance
    /// from a face and `inside` whether the projection along it falls onto the
    /// face.
    pub fn find_touches<F: Fn(usize, usize) -> Real, G: Fn(usize, usize, Real) -> bool>(
        &mut self,
        points: &Vec<[Real; 3]>,
        boxes: &Vec<Bounds>,
        signed: &F,
        inside: &G,
    ) -> (touches: Vec<Touch>)
        requires
            points@.len() == old(self).nodes@.len(),
            boxes@.len() == old(self).faces@.len(),
            forall|j: usize, k: usize| #[trigger] call_requires(*signed, (j, k)),
            forall|j: usize, k: usize, s: Real| #[trigger] call_requires(*inside, (j, k, s)),
        ensures
            exists|found: Seq<Option<(usize, Real)>>|
                {
                    &&& found.len() == old(self).nodes@.len()
                    &&& forall|j: int|
                        0 <= j < found.len() ==> finds_first(
                            points@,
                            boxes@,
                            old(self).max_distance,
                            *signed,
                            *inside,
                            j,
                            #[trigger] found[j],
                        )
                    &&& touches@ == #[trigger] touches_of(
                        old(self).nodes@,
                        found,
                        found.len() as int,
                    )
                },
            forall|k: int|
                0 <= k < touches@.len() ==> (#[trigger] touches@[k]).face < old(self).faces@.len()
                    && penetrates(touches@[k].signed, old(self).max_distance)
                    && old(self).nodes@.contains(touches@[k].node),
            final(self).penetration_count == touches@.len(),
            final(self).penetration_count <= old(self).nodes@.len(),
            final(self).max_penetration == deepest(touches@, touches@.len() as int),
            Real::spec_zero().at_most(final(self).max_penetration),
            Real::spec_zero().at_most(old(self).max_distance)
                ==> final(self).max_penetration.at_most(old(self).max_distance),
            final(self).nodes == old(self).nodes,
            final(self).faces == old(self).faces,
            final(self).stiffness == old(self).stiffness,
            final(self).max_distance == old(self).max_distance,
    {
        self.reset();
        let max_distance: Real = self.max_distance;
        let mut touches: Vec<Touch> = Vec::new();
        let mut found: Ghost<Seq<Option<(usize, Real)>>> = Ghost(Seq::empty());
        let mut j: usize = 0;
        while j < self.nodes.len()
            invariant
                j <= self.nodes@.len(),
                self.nodes == old(self).nodes,
                self.faces == old(self).faces,
                self.stiffness == old(self).stiffness,
                self.max_distance == old(self).max_distance,
                max_distance == old(self).max_distance,
                points@.len() == self.nodes@.len(),
                boxes@.len() == self.faces@.len(),
                forall|j: usize, k: usize| #[trigger] call_requires(*signed, (j, k)),
                forall|j: usize, k: usize, s: Real| #[trigger] call_requires(*inside, (j, k, s)),
                found@.len() == j,
                forall|i: int|
                    0 <= i < j ==> finds_first(
                        points@,
                        boxes@,
                        max_distance,
                        *signed,
                        *inside,
                        i,
                        #[trigger] found@[i],
                    ),
                touches@ == touches_of(self.nodes@, found@, j as int),
                touches@.len() <= j,
                forall|k: int|
                    0 <= k < touches@.len() ==> (#[trigger] touches@[k]).face < self.faces@.len()
                        && penetrates(touches@[k].signed, max_distance) && self.nodes@.contains(
                        touches@[k].node,
                    ),
                self.penetration_count == touches@.len(),
                self.max_penetration == deepest(touches@, touches@.len() as int),
                Real::spec_zero().at_most(self.max_penetration),
                Real::spec_zero().at_most(max_distance) ==> self.max_penetration.at_most(
                    max_distance,
                ),
            decreases self.nodes.len() - j,
        {
            let r: Option<(usize, Real)> = first_contact(
                j,
                &points[j],
                boxes,
                max_distance,
                signed,
                inside,
            );
            let ghost was = found@;
            proof {
                found@ = was.push(r);
                let (s, i) = choose|s: Seq<Real>, i: Seq<bool>| #[trigger]
                    is_first_contact(
                        j,
                        points@[j as int],
                        boxes@,
                        max_distance,
                        *signed,
                        *inside,
                        s,
                        i,
                        r,
                    );
                assert((j as int) as usize == j);
                assert(is_first_contact(
                    (j as int) as usize,
                    points@[j as int],
                    boxes@,
                    max_distance,
                    *signed,
                    *inside,
                    s,
                    i,
                    r,
                ));
                assert(finds_first(points@, boxes@, max_distance, *signed, *inside, j as int, r));
                lemma_touches_of_more(self.nodes@, was, r, j as int);
                assert forall|i: int| 0 <= i < j + 1 implies finds_first(
                    points@,
                    boxes@,
                    max_distance,
                    *signed,
                    *inside,
                    i,
                    #[trigger] found@[i],
                ) by {
                    if i < j {
                        assert(found@[i] == was[i]);
                    }
                }
            }
            if let Some((face, d)) = r {
                let t: Touch = Touch { node: self.nodes[j], face, signed: d };
                proof {
                    lemma_deepest_of_more(touches@, t, touches@.len() as int);
                    assert(self.nodes@.contains(self.nodes@[j as int]));
                }
                touches.push(t);
                self.record(d.neg());
            }
            j += 1;
        }
        touches
    }
}

/// What was found for the first nodes gives their touches, whatever is found
/// for the next.
proof fn lemma_touches_of_more(
    nodes: Seq<usize>,
    found: Seq<Option<(usize, Real)>>,
    r: Option<(usize, Real)>,
    n: int,
)
    requires
        n <= found.len(),
    ensures
        touches_of(nodes, found.push(r), n) == touches_of(nodes, found, n),
    decreases n,
{
    if n > 0 {
        lemma_touches_of_more(nodes, found, r, n - 1);
        assert(found.push(r)[n - 1] == found[n - 1]);
    }
}

// ---- what the broad phase keeps ----

/// Whether a face is listed and a point is one of its corners.
pub open spec fn is_corner(
    list: Seq<usize>,
    faces: Seq<[usize; 4]>,
    positions: Seq<[Real; 3]>,
    f: int,
    q: int,
    p: [Real; 3],
) -> bool {
    0 <= f < list.len() && 0 <= q < 4 && positions[faces[list[f] as int]@[q] as int] == p
}

/// Whether no corner of the listed faces has a coordinate that is no number.
pub open spec fn corners_are_numbers(
    list: Seq<usize>,
    faces: Seq<[usize; 4]>,
    positions: Seq<[Real; 3]>,
) -> bool {
    forall|f: int, q: int, d: int|
        0 <= f < list.len() && 0 <= q < 4 && 0 <= d < 3
            ==> !(#[trigger] positions[faces[list[f] as int]@[q] as int]@[d]).nan()
}

/// The box of the faces before `k` and the first `c` corners of the next spans
/// those corners along axis `d`: no corner lies outside, and each side is that of
/// a corner, where there is one.
proof fn lemma_box_spans(
    list: Seq<usize>,
    faces: Seq<[usize; 4]>,
    positions: Seq<[Real; 3]>,
    k: int,
    c: int,
    d: int,
)
    requires
        corners_are_numbers(list, faces, positions),
        0 <= k <= list.len(),
        0 <= c <= 4,
        c > 0 ==> k < list.len(),
        0 <= d < 3,
    ensures
        ({
            let b = box_of(list, faces, positions, k, c);
            &&& !b.lo@[d].nan() && !b.hi@[d].nan()
            &&& k == 0 && c == 0 ==> b.lo@[d] == Real::spec_infinity() && b.hi@[d]
                == Real::spec_neg_infinity()
            &&& forall|f: int, q: int|
                0 <= f < list.len() && 0 <= q < 4 && (f < k || (f == k && q < c)) ==> {
                    let x = #[trigger] positions[faces[list[f] as int]@[q] as int]@[d];
                    b.lo@[d].order() <= x.order() <= b.hi@[d].order()
                }
            &&& k > 0 || c > 0 ==> reached(list, faces, positions, k, c, d, b.lo@[d]) && reached(
                list,
                faces,
                positions,
                k,
                c,
                d,
                b.hi@[d],
            )
        }),
    decreases k, c,
{
    let b = box_of(list, faces, positions, k, c);
    if c > 0 {
        lemma_box_spans(list, faces, positions, k, c - 1, d);
        let a = box_of(list, faces, positions, k, c - 1);
        let p = positions[faces[list[k] as int]@[c - 1] as int];
        assert(!p@[d].nan());
        assert(b == a.widened(p));
        assert(d == 0 || d == 1 || d == 2);
        if k > 0 || c > 1 {
            let (f, q) = choose|f: int, q: int| #[trigger]
                is_before(k, c - 1, f, q) && 0 <= f < list.len() && a.lo@[d]
                    == positions[faces[list[f] as int]@[q] as int]@[d];
            assert(is_before(k, c, f, q));
            let (f, q) = choose|f: int, q: int| #[trigger]
                is_before(k, c - 1, f, q) && 0 <= f < list.len() && a.hi@[d]
                    == positions[faces[list[f] as int]@[q] as int]@[d];
            assert(is_before(k, c, f, q));
        }
        assert(is_before(k, c, k, c - 1));
        assert(b.lo@[d] == a.lo@[d] || b.lo@[d] == p@[d]);
        assert(b.hi@[d] == a.hi@[d] || b.hi@[d] == p@[d]);
        if k == 0 && c == 1 {
            assert(p@[d].order() <= Real::spec_infinity().order());
            assert(Real::spec_neg_infinity().order() <= p@[d].order());
            if b.lo@[d] == a.lo@[d] {
                assert(p@[d].order() == Real::spec_infinity().order());
                assert(p@[d] == Real::spec_infinity());
            }
            if b.hi@[d] == a.hi@[d] {
                assert(p@[d].order() == Real::spec_neg_infinity().order());
                assert(p@[d] == Real::spec_neg_infinity());
            }
        }
        assert forall|f: int, q: int|
            0 <= f < list.len() && 0 <= q < 4 && (f < k || (f == k && q < c)) implies {
            let x = #[trigger] positions[faces[list[f] as int]@[q] as int]@[d];
            b.lo@[d].order() <= x.order() <= b.hi@[d].order()
        } by {
            let x = positions[faces[list[f] as int]@[q] as int]@[d];
            if f == k && q == c - 1 {
                assert(x == p@[d]);
            } else {
                assert(a.lo@[d].order() <= x.order() <= a.hi@[d].order());
            }
        }
    } else if k > 0 {
        lemma_box_spans(list, faces, positions, k - 1, 4, d);
        let (f, q) = choose|f: int, q: int| #[trigger]
            is_before(k - 1, 4, f, q) && 0 <= f < list.len() && b.lo@[d]
                == positions[faces[list[f] as int]@[q] as int]@[d];
        assert(is_before(k, c, f, q));
        let (f, q) = choose|f: int, q: int| #[trigger]
            is_before(k - 1, 4, f, q) && 0 <= f < list.len() && b.hi@[d]
                == positions[faces[list[f] as int]@[q] as int]@[d];
        assert(is_before(k, c, f, q));
    }
}

/// Whether corner `q` of the `f`-th face comes before corner `c` of the `k`-th.
pub open spec fn is_before(k: int, c: int, f: int, q: int) -> bool {
    0 <= f && 0 <= q < 4 && (f < k || (f == k && q < c))
}

/// Whether a coordinate is that of a corner before corner `c` of the `k`-th face.
pub open spec fn reached(
    list: Seq<usize>,
    faces: Seq<[usize; 4]>,
    positions: Seq<[Real; 3]>,
    k: int,
    c: int,
    d: int,
    x: Real,
) -> bool {
    exists|f: int, q: int| #[trigger]
        is_before(k, c, f, q) && 0 <= f < list.len() && x
            == positions[faces[list[f] as int]@[q] as int]@[d]
}

/// The box of the listed faces is the least that holds all their corners: every
/// corner of every listed face lies between its sides, and every side is reached
/// by a corner of a listed face.
pub proof fn law_box_is_the_least(
    list: Seq<usize>,
    faces: Seq<[usize; 4]>,
    positions: Seq<[Real; 3]>,
    d: int,
)
    requires
        corners_are_numbers(list, faces, positions),
        0 <= d < 3,
    ensures
        ({
            let b = box_of(list, faces, positions, list.len() as int, 0);
            &&& forall|f: int, q: int, p: [Real; 3]| #[trigger]
                is_corner(list, faces, positions, f, q, p) ==> b.lo@[d].order() <= p@[d].order()
                    <= b.hi@[d].order()
            &&& list.len() > 0 ==> exists|f: int, q: int, p: [Real; 3]| #[trigger]
                is_corner(list, faces, positions, f, q, p) && p@[d] == b.lo@[d]
            &&& list.len() > 0 ==> exists|f: int, q: int, p: [Real; 3]| #[trigger]
                is_corner(list, faces, positions, f, q, p) && p@[d] == b.hi@[d]
        }),
{
    let n = list.len() as int;
    lemma_box_spans(list, faces, positions, n, 0, d);
    let b = box_of(list, faces, positions, n, 0);
    assert forall|f: int, q: int, p: [Real; 3]| #[trigger]
        is_corner(list, faces, positions, f, q, p) implies b.lo@[d].order() <= p@[d].order()
        <= b.hi@[d].order() by {
        assert(positions[faces[list[f] as int]@[q] as int]@[d] == p@[d]);
    }
    if n > 0 {
        let (f, q) = choose|f: int, q: int| #[trigger]
            is_before(n, 0, f, q) && 0 <= f < list.len() && b.lo@[d]
                == positions[faces[list[f] as int]@[q] as int]@[d];
        assert(is_corner(
            list,
            faces,
            positions,
            f,
            q,
            positions[faces[list[f] as int]@[q] as int],
        ));
        let (f, q) = choose|f: int, q: int| #[trigger]
            is_before(n, 0, f, q) && 0 <= f < list.len() && b.hi@[d]
                == positions[faces[list[f] as int]@[q] as int]@[d];
        assert(is_corner(
            list,
            faces,
            positions,
            f,
            q,
            positions[faces[list[f] as int]@[q] as int],
        ));
    }
}

/// Whether a point lies between the sides of a box along every axis.
pub open spec fn lies_between(p: [Real; 3], b: Bounds) -> bool {
    forall|d: int|
        0 <= d < 3 ==> !(#[trigger] p@[d]).nan() && !b.lo@[d].nan() && !b.hi@[d].nan()
            && b.lo@[d].order() <= p@[d].order() <= b.hi@[d].order()
}

/// Of the nodes of a contact those are kept that lie in the box, each as often
/// and in the order in which they are listed: `places` says where.
pub proof fn law_nodes_in_the_box_are_kept(
    nodes: Seq<usize>,
    positions: Seq<[Real; 3]>,
    b: Bounds,
    k: int,
) -> (places: Seq<int>)
    requires
        0 <= k <= nodes.len(),
    ensures
        places.len() == nodes_in(nodes, positions, b, k).len(),
        forall|i: int|
            0 <= i < places.len() ==> 0 <= #[trigger] places[i] < k && nodes_in(
                nodes,
                positions,
                b,
                k,
            )[i] == nodes[places[i]] && lies_between(positions[nodes[places[i]] as int], b),
        forall|i: int, j: int| 0 <= i < j < places.len() ==> #[trigger] places[i] < #[trigger] places[j],
        forall|i: int|
            0 <= i < k && lies_between(positions[(#[trigger] nodes[i]) as int], b)
                ==> places.contains(i),
    decreases k,
{
    if k == 0 {
        Seq::empty()
    } else {
        let before = law_nodes_in_the_box_are_kept(nodes, positions, b, k - 1);
        let p = positions[nodes[k - 1] as int];
        assert(b.holds(p) <==> lies_between(p, b)) by {
            if b.holds(p) {
                assert forall|d: int| 0 <= d < 3 implies !(#[trigger] p@[d]).nan()
                    && !b.lo@[d].nan() && !b.hi@[d].nan() && b.lo@[d].order() <= p@[d].order()
                    <= b.hi@[d].order() by {
                    assert(b.lo@[d].at_most(p@[d]));
                }
            }
            if lies_between(p, b) {
                assert forall|d: int| 0 <= d < 3 implies (#[trigger] b.lo@[d]).at_most(p@[d])
                    && p@[d].at_most(b.hi@[d]) by {
                    assert(!p@[d].nan());
                }
            }
        }
        if lies_between(p, b) {
            let places = before.push(k - 1);
            assert forall|i: int|
                0 <= i < k && lies_between(
                    positions[(#[trigger] nodes[i]) as int],
                    b,
                ) implies places.contains(i) by {
                if i < k - 1 {
                    assert(before.contains(i));
                    let j = choose|j: int| 0 <= j < before.len() && before[j] == i;
                    assert(places[j] == i);
                } else {
                    assert(places[before.len() as int] == i);
                }
            }
            places
        } else {
            before
        }
    }
}

/// A contact node that is near a listed face is kept, whichever face it is: one
/// whose every coordinate is near enough to a corner of the face that growing
/// the box by the search distance takes it in.
pub proof fn law_nodes_near_a_face_are_kept(
    list: Seq<usize>,
    faces: Seq<[usize; 4]>,
    nodes: Seq<usize>,
    positions: Seq<[Real; 3]>,
    near: spec_fn(Real, Real) -> bool,
    grown: Bounds,
    f: int,
    n: int,
)
    requires
        corners_are_numbers(list, faces, positions),
        0 <= f < list.len(),
        0 <= n < nodes.len(),
        takes_in(box_of(list, faces, positions, list.len() as int, 0), grown, near),
        forall|d: int|
            0 <= d < 3 ==> is_near_corner(
                list,
                faces,
                positions,
                f,
                near,
                #[trigger] positions[nodes[n] as int]@[d],
                d,
            ),
    ensures
        nodes_in(nodes, positions, grown, nodes.len() as int).contains(nodes[n]),
{
    let p = positions[nodes[n] as int];
    let b = box_of(list, faces, positions, list.len() as int, 0);
    assert forall|d: int| 0 <= d < 3 implies !(#[trigger] p@[d]).nan() && !grown.lo@[d].nan()
        && !grown.hi@[d].nan() && grown.lo@[d].order() <= p@[d].order()
        <= grown.hi@[d].order() by {
        assert(is_near_corner(list, faces, positions, f, near, p@[d], d));
        let (q, c) = choose|q: int, c: [Real; 3]| #[trigger]
            is_corner(list, faces, positions, f, q, c) && near(p@[d], c@[d]);
        law_box_is_the_least(list, faces, positions, d);
        assert(near(p@[d], c@[d]));
        assert(b.lo@[d].order() <= c@[d].order() <= b.hi@[d].order());
    }
    assert(lies_between(p, grown));
    let places = law_nodes_in_the_box_are_kept(nodes, positions, grown, nodes.len() as int);
    assert(places.contains(n));
    let i = choose|i: int| 0 <= i < places.len() && places[i] == n;
    assert(nodes_in(nodes, positions, grown, nodes.len() as int)[i] == nodes[places[i]]);
}

/// Whether a box grown takes in whatever is near a point of it along an axis.
pub open spec fn takes_in(b: Bounds, grown: Bounds, near: spec_fn(Real, Real) -> bool) -> bool {
    forall|x: Real, y: Real, d: int|
        #![trigger near(x, y), b.lo@[d]]
        0 <= d < 3 && near(x, y) && b.lo@[d].order() <= y.order() <= b.hi@[d].order() ==> !x.nan()
            && !grown.lo@[d].nan() && !grown.hi@[d].nan() && grown.lo@[d].order() <= x.order()
            <= grown.hi@[d].order()
}

/// Whether a coordinate is near that of a corner of the `f`-th listed face.
pub open spec fn is_near_corner(
    list: Seq<usize>,
    faces: Seq<[usize; 4]>,
    positions: Seq<[Real; 3]>,
    f: int,
    near: spec_fn(Real, Real) -> bool,
    x: Real,
    d: int,
) -> bool {
    exists|q: int, c: [Real; 3]| #[trigger]
        is_corner(list, faces, positions, f, q, c) && near(x, c@[d])
}

// ---- what a contact is ----

/// A node is found in contact only with a face that it lies behind or on, no
/// deeper than the search distance, within the face's box and with its
/// projection on the face; and none of the faces before has all of these.
pub proof fn law_first_contact<F: Fn(usize, usize) -> Real, G: Fn(usize, usize, Real) -> bool>(
    node: usize,
    point: [Real; 3],
    boxes: Seq<Bounds>,
    max_distance: Real,
    signed: F,
    inside: G,
    s: Seq<Real>,
    i: Seq<bool>,
    r: Option<(usize, Real)>,
    k: int,
)
    requires
        is_first_contact(node, point, boxes, max_distance, signed, inside, s, i, r),
        0 <= k < boxes.len() <= usize::MAX,
        !max_distance.nan(),
        forall|d: int|
            0 <= d < 3 ==> !(#[trigger] point@[d]).nan() && !boxes[k].lo@[d].nan()
                && !boxes[k].hi@[d].nan(),
    ensures
        r matches Some((f, x)) ==> f == k ==> {
            &&& call_ensures(signed, (node, f), x)
            &&& call_ensures(inside, (node, f, x), true)
            &&& lies_between(point, boxes[k])
            &&& !x.nan() ==> -max_distance.order() <= x.order() <= 0
        },
        (r matches Some((f, _)) ==> k < f) && lies_between(point, boxes[k]) ==> call_ensures(
            signed,
            (node, k as usize),
            s[k],
        ) && (!s[k].nan() && -max_distance.order() <= s[k].order() <= 0 ==> call_ensures(
            inside,
            (node, k as usize, s[k]),
            false,
        )),
{
    let past = boxes[k].is_past(point);
    assert(past <==> !lies_between(point, boxes[k])) by {
        if past {
            let d = choose|d: int|
                0 <= d < 3 && (point@[d].below(#[trigger] boxes[k].lo@[d]) || boxes[k].hi@[d].below(
                    point@[d],
                ));
            assert(!point@[d].nan());
        } else {
            assert forall|d: int| 0 <= d < 3 implies !(#[trigger] point@[d]).nan()
                && !boxes[k].lo@[d].nan() && !boxes[k].hi@[d].nan() && boxes[k].lo@[d].order()
                <= point@[d].order() <= boxes[k].hi@[d].order() by {
                assert(!point@[d].below(boxes[k].lo@[d]) && !boxes[k].hi@[d].below(point@[d]));
            }
        }
    }
    if r matches Some((f, x)) && f == k {
        assert(hits(point, boxes, max_distance, k, s[k], i[k]));
        assert(!boxes[k].is_past(point));
    } else if (r matches Some((f, _)) ==> k < f) && lies_between(point, boxes[k]) {
        assert(!hits(point, boxes, max_distance, k, s[k], i[k]));
        assert(!boxes[k].is_past(point));
    }
}

/// The touches that a search gives are those of the nodes for which a face was
/// found, each once and in order; the depth kept is at least that of every touch
/// and is that of one, or zero.
pub proof fn law_touches_are_complete(
    nodes: Seq<usize>,
    found: Seq<Option<(usize, Real)>>,
    n: int,
) -> (places: Seq<int>)
    requires
        0 <= n <= nodes.len(),
        n <= found.len(),
    ensures
        places.len() == touches_of(nodes, found, n).len(),
        forall|k: int|
            0 <= k < places.len() ==> 0 <= #[trigger] places[k] < n && found[places[k]] == Some(
                (
                    touches_of(nodes, found, n)[k].face,
                    touches_of(nodes, found, n)[k].signed,
                ),
            ) && touches_of(nodes, found, n)[k].node == nodes[places[k]],
        forall|i: int, j: int| 0 <= i < j < places.len() ==> #[trigger] places[i] < #[trigger] places[j],
        forall|i: int| 0 <= i < n && #[trigger] found[i] is Some ==> places.contains(i),
    decreases n,
{
    if n == 0 {
        Seq::empty()
    } else {
        let before = law_touches_are_complete(nodes, found, n - 1);
        if found[n - 1] is Some {
            let places = before.push(n - 1);
            assert forall|i: int| 0 <= i < n && #[trigger] found[i] is Some implies places.contains(
                i,
            ) by {
                if i < n - 1 {
                    assert(before.contains(i));
                    let j = choose|j: int| 0 <= j < before.len() && before[j] == i;
                    assert(places[j] == i);
                } else {
                    assert(places[before.len() as int] == i);
                }
            }
            places
        } else {
            before
        }
    }
}

/// The greatest depth is at least that of every touch, and is that of one of
/// them or zero.
pub proof fn law_deepest_is_greatest(touches: Seq<Touch>, n: int)
    requires
        0 <= n <= touches.len(),
        forall|k: int| 0 <= k < touches.len() ==> !(#[trigger] touches[k]).signed.nan(),
    ensures
        !deepest(touches, n).nan(),
        deepest(touches, n).order() >= 0,
        forall|k: int|
            0 <= k < n ==> -(#[trigger] touches[k]).signed.order() <= deepest(touches, n).order(),
        deepest(touches, n).order() == 0 || exists|k: int|
            0 <= k < n && -(#[trigger] touches[k]).signed.order() == deepest(touches, n).order(),
    decreases n,
{
    if n > 0 {
        law_deepest_is_greatest(touches, n - 1);
        let x = touches[n - 1].signed;
        assert(!x.nan());
        assert(x.negated().order() == -x.order() && !x.negated().nan());
        let before = deepest(touches, n - 1);
        if before.order() != 0 && deepest(touches, n) == before {
            let k = choose|k: int|
                0 <= k < n - 1 && -(#[trigger] touches[k]).signed.order() == before.order();
            assert(-touches[k].signed.order() == deepest(touches, n).order());
        } else if deepest(touches, n) != before {
            assert(-touches[n - 1].signed.order() == deepest(touches, n).order());
        }
    }
}

} // verus!
