//! Lane-parallel kernel: 8 honeycomb hexahedra per block, every scalar of the
//! element computation held as one array of 8 so that each operation runs
//! across elements. How elements are laid out in lanes, which lanes take part,
//! and what becomes of the lanes that do not.
//!
//! `T` is the number type of the lanes.

use crate::number::Single;
use crate::indices::places_where;
use vstd::prelude::*;

verus! {

/// Elements per block.
pub const L: usize = 8;

/// Material state of one lane.
#[derive(Clone, Copy, Debug)]
pub struct LaneState<T> {
    /// Inverse of the deformation gradient at the last committed step,
    /// row-major.
    pub f_prev_inv: [T; 9],
    /// Corotational frame, row-major.
    pub rotation: [T; 9],
    /// Cauchy stress in the corotational frame, Voigt order.
    pub stress: [T; 6],
    pub compaction: T,
}

/// Everything that a block holds of one element.
#[derive(Clone, Copy, Debug)]
pub struct LaneData<T> {
    pub conn: [u32; 8],
    pub grad: [T; 24],
    pub volume: T,
    pub gamma: [T; 32],
    pub h: [T; 144],
    pub youngs: T,
    pub yield0: T,
    pub hard: T,
    pub trans: T,
    pub knot_c: [T; 8],
    pub knot_s: [T; 8],
    pub knot_h: [T; 8],
    pub state: LaneState<T>,
    pub eroded: bool,
}

/// One block of [`L`] elements: for each quantity one array of lanes.
#[derive(Clone, Debug)]
pub struct Block<T> {
    /// Node ids, per lane.
    pub conn: [[u32; 8]; 8],
    /// Gradient at the centre: `grad[3 * node + component][lane]`.
    pub grad: [[T; 8]; 24],
    pub volume: [T; 8],
    /// Hourglass vectors: `gamma[4 * node + mode][lane]`.
    pub gamma: [[T; 8]; 32],
    /// Hourglass stiffness, column-major: `h[12 * column + row][lane]`.
    pub h: [[T; 8]; 144],
    pub youngs: [T; 8],
    pub yield0: [T; 8],
    pub hard: [T; 8],
    /// Transverse cap factor (local y, z).
    pub trans: [T; 8],
    /// Yield curve knots: compaction, stress, slope.
    pub knot_c: [[T; 8]; 8],
    pub knot_s: [[T; 8]; 8],
    pub knot_h: [[T; 8]; 8],
    pub f_prev_inv: [[T; 8]; 9],
    pub rotation: [[T; 8]; 9],
    pub stress: [[T; 8]; 6],
    pub compaction: [T; 8],
    pub eroded: [bool; 8],
    /// Lanes below `count` are elements; the rest are padding.
    pub count: usize,
}

/// Whether lane `l` of a table holds a column.
pub open spec fn lane_is<T, const N: usize>(table: [[T; 8]; N], l: int, column: [T; N]) -> bool {
    forall|k: int| 0 <= k < N ==> #[trigger] table@[k]@[l] == column@[k]
}

/// Whether two tables differ in lane `l` alone.
pub open spec fn others_same<T, const N: usize>(a: [[T; 8]; N], b: [[T; 8]; N], l: int) -> bool {
    forall|k: int, m: int| 0 <= k < N && 0 <= m < 8 && m != l ==> #[trigger] a@[k]@[m] == b@[k]@[m]
}

/// Whether two rows of lanes differ in lane `l` alone.
pub open spec fn other_lanes_same<T>(a: [T; 8], b: [T; 8], l: int) -> bool {
    forall|m: int| 0 <= m < 8 && m != l ==> #[trigger] a@[m] == b@[m]
}

fn put<T: Copy, const N: usize>(table: &mut [[T; 8]; N], l: usize, column: &[T; N])
    requires
        l < 8,
    ensures
        lane_is(*final(table), l as int, *column),
        others_same(*final(table), *old(table), l as int),
{
    let mut k: usize = 0;
    while k < N
        invariant
            k <= N,
            l < 8,
            forall|i: int| 0 <= i < k ==> #[trigger] table@[i]@[l as int] == column@[i],
            forall|i: int, m: int|
                0 <= i < N && 0 <= m < 8 && (m != l || i >= k) ==> #[trigger] table@[i]@[m]
                    == old(table)@[i]@[m],
        decreases N - k,
    {
        let mut row: [T; 8] = table[k];
        row[l] = column[k];
        let ghost was = table@;
        table[k] = row;
        assert(table@ == was.update(k as int, row));
        k += 1;
    }
}

impl<T: Copy> Block<T> {
    /// Lane `l` holds an element.
    pub open spec fn holds(self, l: int, d: LaneData<T>) -> bool {
        &&& self.conn@[l] == d.conn
        &&& lane_is(self.grad, l, d.grad)
        &&& self.volume@[l] == d.volume
        &&& lane_is(self.gamma, l, d.gamma)
        &&& lane_is(self.h, l, d.h)
        &&& self.youngs@[l] == d.youngs
        &&& self.yield0@[l] == d.yield0
        &&& self.hard@[l] == d.hard
        &&& self.trans@[l] == d.trans
        &&& lane_is(self.knot_c, l, d.knot_c)
        &&& lane_is(self.knot_s, l, d.knot_s)
        &&& lane_is(self.knot_h, l, d.knot_h)
        &&& self.holds_state(l, d.state)
        &&& self.eroded@[l] == d.eroded
    }

    /// Lane `l` is in a material state.
    pub open spec fn holds_state(self, l: int, s: LaneState<T>) -> bool {
        &&& lane_is(self.f_prev_inv, l, s.f_prev_inv)
        &&& lane_is(self.rotation, l, s.rotation)
        &&& lane_is(self.stress, l, s.stress)
        &&& self.compaction@[l] == s.compaction
    }

    /// The lanes other than `l` are those of another block.
    pub open spec fn same_but(self, other: Block<T>, l: int) -> bool {
        &&& forall|m: int| 0 <= m < 8 && m != l ==> #[trigger] self.conn@[m] == other.conn@[m]
        &&& others_same(self.grad, other.grad, l)
        &&& other_lanes_same(self.volume, other.volume, l)
        &&& others_same(self.gamma, other.gamma, l)
        &&& others_same(self.h, other.h, l)
        &&& other_lanes_same(self.youngs, other.youngs, l)
        &&& other_lanes_same(self.yield0, other.yield0, l)
        &&& other_lanes_same(self.hard, other.hard, l)
        &&& other_lanes_same(self.trans, other.trans, l)
        &&& others_same(self.knot_c, other.knot_c, l)
        &&& others_same(self.knot_s, other.knot_s, l)
        &&& others_same(self.knot_h, other.knot_h, l)
        &&& others_same(self.f_prev_inv, other.f_prev_inv, l)
        &&& others_same(self.rotation, other.rotation, l)
        &&& others_same(self.stress, other.stress, l)
        &&& other_lanes_same(self.compaction, other.compaction, l)
        &&& other_lanes_same(self.eroded, other.eroded, l)
    }

    /// A lane that another lane's change left alone still holds its element.
    proof fn lemma_kept(self, other: Block<T>, l: int, m: int, d: LaneData<T>)
        requires
            self.same_but(other, l),
            0 <= m < 8,
            m != l,
            other.holds(m, d),
        ensures
            self.holds(m, d),
    {
        assert forall|k: int| 0 <= k < 24 implies #[trigger] self.grad@[k]@[m] == d.grad@[k] by {
            assert(other.grad@[k]@[m] == d.grad@[k]);
        }
        assert forall|k: int| 0 <= k < 32 implies #[trigger] self.gamma@[k]@[m] == d.gamma@[k] by {
            assert(other.gamma@[k]@[m] == d.gamma@[k]);
        }
        assert forall|k: int| 0 <= k < 144 implies #[trigger] self.h@[k]@[m] == d.h@[k] by {
            assert(other.h@[k]@[m] == d.h@[k]);
        }
        assert forall|k: int| 0 <= k < 8 implies #[trigger] self.knot_c@[k]@[m]
            == d.knot_c@[k] by {
            assert(other.knot_c@[k]@[m] == d.knot_c@[k]);
        }
        assert forall|k: int| 0 <= k < 8 implies #[trigger] self.knot_s@[k]@[m]
            == d.knot_s@[k] by {
            assert(other.knot_s@[k]@[m] == d.knot_s@[k]);
        }
        assert forall|k: int| 0 <= k < 8 implies #[trigger] self.knot_h@[k]@[m]
            == d.knot_h@[k] by {
            assert(other.knot_h@[k]@[m] == d.knot_h@[k]);
        }
        assert forall|k: int| 0 <= k < 9 implies #[trigger] self.f_prev_inv@[k]@[m]
            == d.state.f_prev_inv@[k] by {
            assert(other.f_prev_inv@[k]@[m] == d.state.f_prev_inv@[k]);
        }
        assert forall|k: int| 0 <= k < 9 implies #[trigger] self.rotation@[k]@[m]
            == d.state.rotation@[k] by {
            assert(other.rotation@[k]@[m] == d.state.rotation@[k]);
        }
        assert forall|k: int| 0 <= k < 6 implies #[trigger] self.stress@[k]@[m]
            == d.state.stress@[k] by {
            assert(other.stress@[k]@[m] == d.state.stress@[k]);
        }
    }

    /// Puts an element into a lane.
    pub fn set_lane(&mut self, l: usize, d: &LaneData<T>)
        requires
            l < 8,
        ensures
            final(self).holds(l as int, *d),
            final(self).same_but(*old(self), l as int),
            final(self).count == if old(self).count > l + 1 {
                old(self).count
            } else {
                (l + 1) as usize
            },
    {
        self.conn[l] = d.conn;
        put(&mut self.grad, l, &d.grad);
        self.volume[l] = d.volume;
        put(&mut self.gamma, l, &d.gamma);
        put(&mut self.h, l, &d.h);
        self.youngs[l] = d.youngs;
        self.yield0[l] = d.yield0;
        self.hard[l] = d.hard;
        self.trans[l] = d.trans;
        put(&mut self.knot_c, l, &d.knot_c);
        put(&mut self.knot_s, l, &d.knot_s);
        put(&mut self.knot_h, l, &d.knot_h);
        put(&mut self.f_prev_inv, l, &d.state.f_prev_inv);
        put(&mut self.rotation, l, &d.state.rotation);
        put(&mut self.stress, l, &d.state.stress);
        self.compaction[l] = d.state.compaction;
        self.eroded[l] = d.eroded;
        if self.count < l + 1 {
            self.count = l + 1;
        }
    }

    /// The material state of a lane.
    pub fn lane_state(&self, l: usize) -> (s: LaneState<T>)
        requires
            l < 8,
        ensures
            self.holds_state(l as int, s),
    {
        let f: &[[T; 8]; 9] = &self.f_prev_inv;
        let r: &[[T; 8]; 9] = &self.rotation;
        let t: &[[T; 8]; 6] = &self.stress;
        LaneState {
            f_prev_inv: [
                f[0][l],
                f[1][l],
                f[2][l],
                f[3][l],
                f[4][l],
                f[5][l],
                f[6][l],
                f[7][l],
                f[8][l],
            ],
            rotation: [
                r[0][l],
                r[1][l],
                r[2][l],
                r[3][l],
                r[4][l],
                r[5][l],
                r[6][l],
                r[7][l],
                r[8][l],
            ],
            stress: [t[0][l], t[1][l], t[2][l], t[3][l], t[4][l], t[5][l]],
            compaction: self.compaction[l],
        }
    }
}

/// Writing a lane's state and reading it gives the state back.
pub proof fn law_lane_state_round_trip<T: Copy>(
    b: Block<T>,
    l: int,
    written: LaneState<T>,
    read: LaneState<T>,
)
    requires
        b.holds_state(l, written),
        b.holds_state(l, read),
    ensures
        read.f_prev_inv@ == written.f_prev_inv@,
        read.rotation@ == written.rotation@,
        read.stress@ == written.stress@,
        read.compaction == written.compaction,
{
    assert forall|k: int| 0 <= k < 9 implies read.f_prev_inv@[k] == written.f_prev_inv@[k] by {
        assert(b.f_prev_inv@[k]@[l] == written.f_prev_inv@[k]);
    }
    assert forall|k: int| 0 <= k < 9 implies read.rotation@[k] == written.rotation@[k] by {
        assert(b.rotation@[k]@[l] == written.rotation@[k]);
    }
    assert forall|k: int| 0 <= k < 6 implies read.stress@[k] == written.stress@[k] by {
        assert(b.stress@[k]@[l] == written.stress@[k]);
    }
    assert(read.f_prev_inv@ =~= written.f_prev_inv@);
    assert(read.rotation@ =~= written.rotation@);
    assert(read.stress@ =~= written.stress@);
}


/// Every lane of a row is a number.
pub open spec fn all_lanes<T>(row: [T; 8], x: T) -> bool {
    forall|l: int| 0 <= l < 8 ==> #[trigger] row@[l] == x
}

/// Every entry of a table is a number.
pub open spec fn all_entries<T, const N: usize>(table: [[T; 8]; N], x: T) -> bool {
    forall|k: int| 0 <= k < N ==> all_lanes(#[trigger] table@[k], x)
}

/// A table is the identity matrix in every lane.
pub open spec fn is_identity<T>(table: [[T; 8]; 9], zero: T, one: T) -> bool {
    forall|k: int|
        0 <= k < 9 ==> all_lanes(
            #[trigger] table@[k],
            if k % 4 == 0 {
                one
            } else {
                zero
            },
        )
}

impl<T: Copy> Block<T> {
    /// A block without elements: all lanes are padding, and count as eroded.
    pub fn empty(zero: T, one: T, infinity: T) -> (b: Block<T>)
        ensures
            b.count == 0,
            forall|l: int| 0 <= l < 8 ==> #[trigger] b.eroded@[l],
            forall|l: int, i: int| 0 <= l < 8 && 0 <= i < 8 ==> #[trigger] b.conn@[l]@[i] == 0,
            all_entries(b.grad, zero),
            all_lanes(b.volume, zero),
            all_entries(b.gamma, zero),
            all_entries(b.h, zero),
            all_lanes(b.youngs, one),
            all_lanes(b.yield0, one),
            all_lanes(b.hard, zero),
            all_lanes(b.trans, one),
            all_entries(b.knot_c, infinity),
            all_entries(b.knot_s, zero),
            all_entries(b.knot_h, zero),
            is_identity(b.f_prev_inv, zero, one),
            is_identity(b.rotation, zero, one),
            all_entries(b.stress, zero),
            all_lanes(b.compaction, zero),
    {
        let z: [T; 8] = [zero; 8];
        let o: [T; 8] = [one; 8];
        let i: [T; 8] = [infinity; 8];
        let none: [u32; 8] = [0; 8];
        Block {
            conn: [none; 8],
            grad: [z; 24],
            volume: z,
            gamma: [z; 32],
            h: [z; 144],
            youngs: o,
            yield0: o,
            hard: z,
            trans: o,
            knot_c: [i; 8],
            knot_s: [z; 8],
            knot_h: [z; 8],
            f_prev_inv: [o, z, z, z, o, z, z, z, o],
            rotation: [o, z, z, z, o, z, z, z, o],
            stress: [z; 6],
            compaction: z,
            eroded: [true; 8],
            count: 0,
        }
    }
}

/// Lane by lane, the one or the other.
pub fn select<T: Copy>(m: &[bool; 8], a: &[T; 8], b: &[T; 8]) -> (r: [T; 8])
    ensures
        forall|l: int|
            0 <= l < 8 ==> #[trigger] r@[l] == if m@[l] {
                a@[l]
            } else {
                b@[l]
            },
{
    let mut r: [T; 8] = *b;
    let mut l: usize = 0;
    while l < 8
        invariant
            l <= 8,
            forall|i: int|
                0 <= i < 8 ==> #[trigger] r@[i] == if i < l && m@[i] {
                    a@[i]
                } else {
                    b@[i]
                },
        decreases 8 - l,
    {
        if m[l] {
            r[l] = a[l];
        }
        l += 1;
    }
    r
}

/// The rows of a block's material state: for each quantity one array of lanes.
#[derive(Clone, Debug)]
pub struct StateRows<T> {
    pub f_prev_inv: [[T; 8]; 9],
    pub rotation: [[T; 8]; 9],
    pub stress: [[T; 8]; 6],
    pub compaction: [T; 8],
}

/// Whether a row took over another in the lanes that take part, and kept the
/// rest.
pub open spec fn row_taken<T>(now: [T; 8], was: [T; 8], active: [bool; 8], next: [T; 8]) -> bool {
    forall|l: int|
        0 <= l < 8 ==> #[trigger] now@[l] == if active@[l] {
            next@[l]
        } else {
            was@[l]
        }
}

/// Whether every row of a table did.
pub open spec fn rows_taken<T, const N: usize>(
    now: [[T; 8]; N],
    was: [[T; 8]; N],
    active: [bool; 8],
    next: [[T; 8]; N],
) -> bool {
    forall|k: int| 0 <= k < N ==> row_taken(#[trigger] now@[k], was@[k], active, next@[k])
}

fn take_rows<T: Copy, const N: usize>(
    table: &mut [[T; 8]; N],
    active: &[bool; 8],
    next: &[[T; 8]; N],
)
    ensures
        rows_taken(*final(table), *old(table), *active, *next),
{
    let mut k: usize = 0;
    while k < N
        invariant
            k <= N,
            forall|i: int|
                0 <= i < k ==> row_taken(
                    #[trigger] table@[i],
                    old(table)@[i],
                    *active,
                    next@[i],
                ),
            forall|i: int| k <= i < N ==> #[trigger] table@[i] == old(table)@[i],
        decreases N - k,
    {
        let row: [T; 8] = select(active, &next[k], &table[k]);
        let ghost was = table@;
        table[k] = row;
        assert(table@ == was.update(k as int, row));
        k += 1;
    }
}

impl<T: Copy> Block<T> {
    /// Commits the material state of a step: the lanes that take part get the
    /// new state, the others keep theirs.
    pub fn commit(&mut self, active: &[bool; 8], next: &StateRows<T>)
        ensures
            rows_taken(
                final(self).f_prev_inv,
                old(self).f_prev_inv,
                *active,
                next.f_prev_inv,
            ),
            rows_taken(final(self).rotation, old(self).rotation, *active, next.rotation),
            rows_taken(final(self).stress, old(self).stress, *active, next.stress),
            row_taken(final(self).compaction, old(self).compaction, *active, next.compaction),
            *final(self) == (Block {
                f_prev_inv: final(self).f_prev_inv,
                rotation: final(self).rotation,
                stress: final(self).stress,
                compaction: final(self).compaction,
                ..*old(self)
            }),
    {
        take_rows(&mut self.f_prev_inv, active, &next.f_prev_inv);
        take_rows(&mut self.rotation, active, &next.rotation);
        take_rows(&mut self.stress, active, &next.stress);
        self.compaction = select(active, &next.compaction, &self.compaction);
    }
}

/// A step leaves the material state of an eroded element, and of padding, as it
/// was; any other element has the new one.
pub proof fn law_only_live_elements_change<T: Copy>(
    before: Block<T>,
    after: Block<T>,
    active: [bool; 8],
    det: [Single; 8],
    next: StateRows<T>,
    l: int,
    was: LaneState<T>,
    new: LaneState<T>,
)
    requires
        0 <= l < 8,
        active@[l] == takes_part(before.eroded@[l], det@[l], l >= before.count),
        rows_taken(after.f_prev_inv, before.f_prev_inv, active, next.f_prev_inv),
        rows_taken(after.rotation, before.rotation, active, next.rotation),
        rows_taken(after.stress, before.stress, active, next.stress),
        row_taken(after.compaction, before.compaction, active, next.compaction),
        before.holds_state(l, was),
        lane_is(next.f_prev_inv, l, new.f_prev_inv),
        lane_is(next.rotation, l, new.rotation),
        lane_is(next.stress, l, new.stress),
        next.compaction@[l] == new.compaction,
    ensures
        before.eroded@[l] || l >= before.count ==> after.holds_state(l, was),
        takes_part(before.eroded@[l], det@[l], l >= before.count) ==> after.holds_state(l, new),
{
    let held = if active@[l] {
        new
    } else {
        was
    };
    assert forall|k: int| 0 <= k < 9 implies #[trigger] after.f_prev_inv@[k]@[l]
        == held.f_prev_inv@[k] by {
        assert(row_taken(
            after.f_prev_inv@[k],
            before.f_prev_inv@[k],
            active,
            next.f_prev_inv@[k],
        ));
        assert(before.f_prev_inv@[k]@[l] == was.f_prev_inv@[k]);
        assert(next.f_prev_inv@[k]@[l] == new.f_prev_inv@[k]);
    }
    assert forall|k: int| 0 <= k < 9 implies #[trigger] after.rotation@[k]@[l]
        == held.rotation@[k] by {
        assert(row_taken(after.rotation@[k], before.rotation@[k], active, next.rotation@[k]));
        assert(before.rotation@[k]@[l] == was.rotation@[k]);
        assert(next.rotation@[k]@[l] == new.rotation@[k]);
    }
    assert forall|k: int| 0 <= k < 6 implies #[trigger] after.stress@[k]@[l]
        == held.stress@[k] by {
        assert(row_taken(after.stress@[k], before.stress@[k], active, next.stress@[k]));
        assert(before.stress@[k]@[l] == was.stress@[k]);
        assert(next.stress@[k]@[l] == new.stress@[k]);
    }
}

/// Lane by lane, the greater.
pub fn max(a: &[Single; 8], b: &[Single; 8]) -> (r: [Single; 8])
    ensures
        forall|l: int| 0 <= l < 8 ==> #[trigger] r@[l] == a@[l].greater(b@[l]),
{
    let mut r: [Single; 8] = *a;
    let mut l: usize = 0;
    while l < 8
        invariant
            l <= 8,
            forall|i: int| 0 <= i < l ==> #[trigger] r@[i] == a@[i].greater(b@[i]),
        decreases 8 - l,
    {
        r[l] = a[l].max(b[l]);
        l += 1;
    }
    r
}

/// Lane by lane, the number held between two bounds; a number that is none
/// becomes the lower bound.
pub fn clamp(a: &[Single; 8], lo: &[Single; 8], hi: &[Single; 8]) -> (r: [Single; 8])
    ensures
        forall|l: int|
            0 <= l < 8 ==> #[trigger] r@[l] == a@[l].greater(lo@[l]).lesser(hi@[l]),
{
    let mut r: [Single; 8] = *a;
    let mut l: usize = 0;
    while l < 8
        invariant
            l <= 8,
            forall|i: int|
                0 <= i < l ==> #[trigger] r@[i] == a@[i].greater(lo@[i]).lesser(hi@[i]),
        decreases 8 - l,
    {
        r[l] = a[l].max(lo[l]).min(hi[l]);
        l += 1;
    }
    r
}

/// Lane by lane, whether the one is above the other.
pub fn above(a: &[Single; 8], b: &[Single; 8]) -> (m: [bool; 8])
    ensures
        forall|l: int| 0 <= l < 8 ==> #[trigger] m@[l] == b@[l].below(a@[l]),
{
    let mut m: [bool; 8] = [false; 8];
    let mut l: usize = 0;
    while l < 8
        invariant
            l <= 8,
            forall|i: int| 0 <= i < l ==> #[trigger] m@[i] == b@[i].below(a@[i]),
        decreases 8 - l,
    {
        m[l] = b[l].lt(a[l]);
        l += 1;
    }
    m
}

/// What is held between caps of either sign does not exceed them.
pub proof fn law_lanes_stay_within_caps(s: Single, lo: Single, hi: Single)
    requires
        lo.at_most(hi),
    ensures
        lo.at_most(s.greater(lo).lesser(hi)),
        s.greater(lo).lesser(hi).at_most(hi),
{
}

/// Erosion of a lane after a step: a lane whose element has inverted, and one
/// that was eroded before.
pub open spec fn erodes(was: bool, det: Single, padding: bool) -> bool {
    was || (!padding && det.at_most(Single::spec_zero()))
}

/// Whether a lane takes part in a step: it is an element that is not eroded.
pub open spec fn takes_part(was: bool, det: Single, padding: bool) -> bool {
    !padding && !erodes(was, det, padding)
}

/// Marks the elements of a block that have inverted as eroded, and gives the
/// lanes that take part: the elements that are not eroded.
pub fn erode(eroded: &mut [bool; 8], det: &[Single; 8], count: usize) -> (active: [bool; 8])
    requires
        count <= 8,
    ensures
        forall|l: int|
            0 <= l < 8 ==> #[trigger] final(eroded)@[l] == erodes(
                old(eroded)@[l],
                det@[l],
                l >= count,
            ),
        forall|l: int|
            0 <= l < 8 ==> #[trigger] active@[l] == takes_part(
                old(eroded)@[l],
                det@[l],
                l >= count,
            ),
{
    let mut active: [bool; 8] = [false; 8];
    let mut l: usize = 0;
    while l < count
        invariant
            l <= count <= 8,
            forall|i: int|
                0 <= i < 8 ==> #[trigger] eroded@[i] == if i < l {
                    erodes(old(eroded)@[i], det@[i], false)
                } else {
                    old(eroded)@[i]
                },
            forall|i: int| 0 <= i < 8 ==> #[trigger] active@[i] == (i < l && !eroded@[i]),
        decreases count - l,
    {
        if !eroded[l] && det[l].le(Single::zero()) {
            eroded[l] = true;
        }
        active[l] = !eroded[l];
        l += 1;
    }
    active
}

/// Whether a lane is eroded after some steps, each with its determinant.
pub open spec fn eroded_by(was: bool, dets: Seq<Single>, padding: bool) -> bool
    decreases dets.len(),
{
    if dets.len() == 0 {
        was
    } else {
        erodes(eroded_by(was, dets.drop_last(), padding), dets.last(), padding)
    }
}

/// An eroded element stays eroded through any number of steps, and takes part
/// in none of them, whatever becomes of its volume.
pub proof fn law_erosion_is_final(dets: Seq<Single>, padding: bool, k: int)
    requires
        0 <= k < dets.len(),
    ensures
        eroded_by(true, dets, padding),
        !takes_part(eroded_by(true, dets.take(k), padding), dets[k], padding),
{
    lemma_stays_eroded(dets, padding);
    lemma_stays_eroded(dets.take(k), padding);
}

proof fn lemma_stays_eroded(dets: Seq<Single>, padding: bool)
    ensures
        eroded_by(true, dets, padding),
    decreases dets.len(),
{
    if dets.len() > 0 {
        lemma_stays_eroded(dets.drop_last(), padding);
    }
}

/// The knot in force in a lane: the last at or below the compaction, and the
/// first where there is none.
pub open spec fn knot_in_force(c: Single, knots: Seq<[Single; 8]>, l: int, i: int) -> bool {
    &&& 0 <= i < 8
    &&& i > 0 ==> knots[i]@[l].at_most(c)
    &&& forall|k: int| i < k < 8 ==> !(#[trigger] knots[k])@[l].at_most(c)
}

/// The knot of the yield curve in force in each lane.
pub fn knots_in_force(compaction: &[Single; 8], knots: &[[Single; 8]; 8]) -> (r: [usize; 8])
    ensures
        forall|l: int|
            0 <= l < 8 ==> knot_in_force(compaction@[l], knots@, l, #[trigger] r@[l] as int),
{
    let mut r: [usize; 8] = [0; 8];
    let mut l: usize = 0;
    while l < 8
        invariant
            l <= 8,
            forall|m: int|
                0 <= m < l ==> knot_in_force(compaction@[m], knots@, m, #[trigger] r@[m] as int),
        decreases 8 - l,
    {
        let mut at: usize = 0;
        let mut i: usize = 1;
        while i < 8
            invariant
                l < 8,
                1 <= i <= 8,
                at < i,
                at > 0 ==> knots@[at as int]@[l as int].at_most(compaction@[l as int]),
                forall|k: int|
                    at < k < i ==> !(#[trigger] knots@[k])@[l as int].at_most(
                        compaction@[l as int],
                    ),
            decreases 8 - i,
        {
            if knots[i][l].le(compaction[l]) {
                at = i;
            }
            i += 1;
        }
        r[l] = at;
        l += 1;
    }
    r
}

/// The forces of each lane, one after the other; lanes that take no part carry
/// none.
pub fn lane_forces<T: Copy>(
    active: &[bool; 8],
    f: &[[T; 8]; 24],
    zero: T,
    out: &mut [[T; 24]; 8],
)
    ensures
        forall|l: int, k: int|
            0 <= l < 8 && 0 <= k < 24 ==> #[trigger] final(out)@[l]@[k] == if active@[l] {
                f@[k]@[l]
            } else {
                zero
            },
{
    let mut l: usize = 0;
    while l < 8
        invariant
            l <= 8,
            forall|m: int, k: int|
                0 <= m < l && 0 <= k < 24 ==> #[trigger] out@[m]@[k] == if active@[m] {
                    f@[k]@[m]
                } else {
                    zero
                },
        decreases 8 - l,
    {
        let mut row: [T; 24] = [zero; 24];
        if active[l] {
            let mut k: usize = 0;
            while k < 24
                invariant
                    l < 8,
                    k <= 24,
                    forall|i: int| 0 <= i < k ==> #[trigger] row@[i] == f@[i]@[l as int],
                decreases 24 - k,
            {
                row[k] = f[k][l];
                k += 1;
            }
        }
        let ghost was = out@;
        out[l] = row;
        assert(out@ == was.update(l as int, row));
        l += 1;
    }
}

/// Whether the kernel compiled for AVX2 and FMA can be used: on x86-64 with
/// both.
pub fn is_avx2(x86_64: bool, avx2: bool, fma: bool) -> (b: bool)
    ensures
        b == (x86_64 && avx2 && fma),
{
    x86_64 && avx2 && fma
}

// ---- blocks ----

/// The blocks of a model's lane elements.
pub struct Blocks<T> {
    pub blocks: Vec<Block<T>>,
}

/// Number of blocks for `n` elements.
pub open spec fn block_count(n: int) -> int {
    (n + 7) / 8
}

/// Number of elements in block `b` of those for `n` elements.
pub open spec fn fill(n: int, b: int) -> int {
    if 8 * b + 8 <= n {
        8
    } else {
        n - 8 * b
    }
}

impl<T: Copy> Blocks<T> {
    /// Element `k` sits in lane `k % 8` of block `k / 8`; blocks are full but
    /// for the last.
    pub open spec fn packed(self, n: int) -> bool {
        &&& self.blocks@.len() == block_count(n)
        &&& forall|b: int|
            0 <= b < self.blocks@.len() ==> (#[trigger] self.blocks@[b]).count == fill(n, b)
    }

    /// Packs elements into blocks, in their order.
    pub fn build(lanes: &Vec<LaneData<T>>, zero: T, one: T, infinity: T) -> (r: Blocks<T>)
        ensures
            r.packed(lanes@.len() as int),
            forall|k: int|
                0 <= k < lanes@.len() ==> r.blocks@[k / 8].holds(k % 8, #[trigger] lanes@[k]),
            forall|b: int, l: int|
                0 <= b < r.blocks@.len() && fill(lanes@.len() as int, b) <= l < 8
                    ==> #[trigger] r.blocks@[b].eroded@[l],
    {
        let mut blocks: Vec<Block<T>> = Vec::new();
        let mut current: Block<T> = Block::empty(zero, one, infinity);
        let n: usize = lanes.len();
        let mut k: usize = 0;
        while k < n
            invariant
                k <= n,
                n == lanes@.len(),
                current.count <= 8,
                k == 8 * blocks@.len() + current.count,
                k > 0 ==> current.count > 0,
                forall|b: int| 0 <= b < blocks@.len() ==> (#[trigger] blocks@[b]).count == 8,
                forall|j: int|
                    0 <= j < 8 * blocks@.len() ==> blocks@[j / 8].holds(
                        j % 8,
                        #[trigger] lanes@[j],
                    ),
                forall|l: int|
                    0 <= l < current.count ==> #[trigger] current.holds(
                        l,
                        lanes@[8 * blocks@.len() + l],
                    ),
                forall|l: int| current.count <= l < 8 ==> #[trigger] current.eroded@[l],
            decreases n - k,
        {
            if current.count == L {
                let ghost was = blocks@;
                let ghost full = current;
                blocks.push(current);
                current = Block::empty(zero, one, infinity);
                assert forall|j: int| 0 <= j < 8 * blocks@.len() implies blocks@[j / 8].holds(
                    j % 8,
                    #[trigger] lanes@[j],
                ) by {
                    if j < 8 * was.len() {
                        assert(blocks@[j / 8] == was[j / 8]);
                    } else {
                        let l = j - 8 * was.len();
                        assert(full.holds(l, lanes@[8 * was.len() + l]));
                        assert(j / 8 == was.len() && j % 8 == l);
                    }
                }
            }
            let l: usize = current.count;
            let ghost was = current;
            current.set_lane(l, &lanes[k]);
            proof {
                let base = 8 * blocks@.len();
                assert forall|m: int| 0 <= m < current.count implies #[trigger] current.holds(
                    m,
                    lanes@[base + m],
                ) by {
                    if m < l {
                        assert(was.holds(m, lanes@[base + m]));
                        current.lemma_kept(was, l as int, m, lanes@[base + m]);
                    }
                }
            }
            k += 1;
        }
        if current.count > 0 {
            let ghost was = blocks@;
            let ghost last = current;
            blocks.push(current);
            proof {
                assert forall|j: int| 0 <= j < n implies blocks@[j / 8].holds(
                    j % 8,
                    #[trigger] lanes@[j],
                ) by {
                    if j < 8 * was.len() {
                        assert(blocks@[j / 8] == was[j / 8]);
                    } else {
                        let l = j - 8 * was.len();
                        assert(last.holds(l, lanes@[8 * was.len() + l]));
                        assert(j / 8 == was.len() && j % 8 == l);
                    }
                }
            }
        }
        Blocks { blocks }
    }

    /// The erosion flag of element `k`.
    pub open spec fn flag(self, k: int) -> bool {
        self.blocks@[k / 8].eroded@[k % 8]
    }

    /// The flags of all elements after those of the first `k` lane elements
    /// were copied to where `ids` says.
    pub open spec fn mirrored(self, ids: Seq<usize>, eroded: Seq<bool>, k: int) -> Seq<bool>
        decreases k,
    {
        if k <= 0 {
            eroded
        } else {
            self.mirrored(ids, eroded, k - 1).update(ids[k - 1] as int, self.flag(k - 1))
        }
    }

    /// Copies the erosion flags into the element array (`ids` are the lane
    /// elements' places in it).
    pub fn mirror_erosion(&self, ids: &Vec<usize>, eroded: &mut Vec<bool>)
        requires
            self.packed(ids@.len() as int),
            forall|i: int| 0 <= i < ids@.len() ==> #[trigger] ids@[i] < old(eroded)@.len(),
        ensures
            final(eroded)@ == self.mirrored(ids@, old(eroded)@, ids@.len() as int),
    {
        let ghost start = eroded@;
        let mut k: usize = 0;
        while k < ids.len()
            invariant
                k <= ids@.len(),
                self.packed(ids@.len() as int),
                eroded@.len() == start.len(),
                forall|i: int| 0 <= i < ids@.len() ==> #[trigger] ids@[i] < start.len(),
                eroded@ == self.mirrored(ids@, start, k as int),
            decreases ids.len() - k,
        {
            assert(ids@[k as int] < start.len());
            eroded.set(ids[k], self.blocks[k / 8].eroded[k % 8]);
            k += 1;
        }
    }

    /// The material state of lane element `k`.
    pub fn state(&self, k: usize) -> (s: LaneState<T>)
        requires
            k / 8 < self.blocks@.len(),
        ensures
            self.blocks@[k as int / 8].holds_state(k as int % 8, s),
    {
        self.blocks[k / 8].lane_state(k % 8)
    }

    /// Number of eroded elements among the first `l` lanes of a block.
    pub open spec fn eroded_lanes(b: Block<T>, l: int) -> int
        decreases l,
    {
        if l <= 0 {
            0
        } else {
            Self::eroded_lanes(b, l - 1) + (if b.eroded@[l - 1] {
                1int
            } else {
                0
            })
        }
    }

    /// Number of eroded elements of the first `k` blocks.
    pub open spec fn eroded_before(self, k: int) -> int
        decreases k,
    {
        if k <= 0 {
            0
        } else {
            self.eroded_before(k - 1) + Self::eroded_lanes(
                self.blocks@[k - 1],
                self.blocks@[k - 1].count as int,
            )
        }
    }

    /// Number of eroded elements.
    pub fn eroded_count(&self) -> (n: usize)
        requires
            forall|b: int| 0 <= b < self.blocks@.len() ==> (#[trigger] self.blocks@[b]).count <= 8,
            8 * self.blocks@.len() <= usize::MAX,
        ensures
            n == self.eroded_before(self.blocks@.len() as int),
    {
        let mut n: usize = 0;
        let mut b: usize = 0;
        while b < self.blocks.len()
            invariant
                b <= self.blocks@.len(),
                forall|b: int|
                    0 <= b < self.blocks@.len() ==> (#[trigger] self.blocks@[b]).count <= 8,
                8 * self.blocks@.len() <= usize::MAX,
                n == self.eroded_before(b as int),
                n <= 8 * b,
            decreases self.blocks.len() - b,
        {
            let block: &Block<T> = &self.blocks[b];
            assert(self.blocks@[b as int].count <= 8);
            let mut l: usize = 0;
            let ghost start = n;
            while l < block.count
                invariant
                    b < self.blocks@.len(),
                    8 * self.blocks@.len() <= usize::MAX,
                    l <= block.count <= 8,
                    start <= 8 * b,
                    n == start + Self::eroded_lanes(*block, l as int),
                    n <= start + l,
                decreases block.count - l,
            {
                if block.eroded[l] {
                    n += 1;
                }
                l += 1;
            }
            b += 1;
        }
        n
    }
}

/// Where no lane of a block comes back, as none does in a step, the number of
/// eroded elements does not fall, and is at most that of the lanes.
pub proof fn law_eroded_lanes_grow<T: Copy>(before: Block<T>, after: Block<T>, l: int)
    requires
        0 <= l <= 8,
        forall|m: int| 0 <= m < l && before.eroded@[m] ==> #[trigger] after.eroded@[m],
    ensures
        0 <= Blocks::eroded_lanes(before, l) <= Blocks::eroded_lanes(after, l) <= l,
    decreases l,
{
    if l > 0 {
        law_eroded_lanes_grow(before, after, l - 1);
    }
}

// ---- what the lanes hold and count ----

/// A lane holds its element's data each in its own rows, so that what is read of
/// the lane is the element and no other.
pub proof fn law_lanes_hold_one_element<T: Copy>(b: Block<T>, l: int, d: LaneData<T>, e: LaneData<T>)
    requires
        0 <= l < 8,
        b.holds(l, d),
        b.holds(l, e),
    ensures
        d.conn == e.conn && b.conn@[l] == d.conn,
        d.volume == e.volume && b.volume@[l] == d.volume,
        d.youngs == e.youngs && b.youngs@[l] == d.youngs,
        d.yield0 == e.yield0 && b.yield0@[l] == d.yield0,
        d.hard == e.hard && b.hard@[l] == d.hard,
        d.trans == e.trans && b.trans@[l] == d.trans,
        d.eroded == e.eroded && b.eroded@[l] == d.eroded,
        d.state.compaction == e.state.compaction && b.compaction@[l] == d.state.compaction,
        forall|k: int| 0 <= k < 24 ==> #[trigger] d.grad@[k] == e.grad@[k] && b.grad@[k]@[l] == d.grad@[k],
        forall|k: int| 0 <= k < 32 ==> #[trigger] d.gamma@[k] == e.gamma@[k] && b.gamma@[k]@[l] == d.gamma@[k],
        forall|k: int| 0 <= k < 144 ==> #[trigger] d.h@[k] == e.h@[k] && b.h@[k]@[l] == d.h@[k],
        forall|k: int| 0 <= k < 8 ==> #[trigger] d.knot_c@[k] == e.knot_c@[k] && b.knot_c@[k]@[l] == d.knot_c@[k],
        forall|k: int| 0 <= k < 8 ==> #[trigger] d.knot_s@[k] == e.knot_s@[k] && b.knot_s@[k]@[l] == d.knot_s@[k],
        forall|k: int| 0 <= k < 8 ==> #[trigger] d.knot_h@[k] == e.knot_h@[k] && b.knot_h@[k]@[l] == d.knot_h@[k],
        forall|k: int|
            0 <= k < 9 ==> #[trigger] d.state.f_prev_inv@[k] == e.state.f_prev_inv@[k]
                && b.f_prev_inv@[k]@[l] == d.state.f_prev_inv@[k],
        forall|k: int|
            0 <= k < 9 ==> #[trigger] d.state.rotation@[k] == e.state.rotation@[k]
                && b.rotation@[k]@[l] == d.state.rotation@[k],
        forall|k: int|
            0 <= k < 6 ==> #[trigger] d.state.stress@[k] == e.state.stress@[k]
                && b.stress@[k]@[l] == d.state.stress@[k],
{
    assert forall|k: int| 0 <= k < 24 implies #[trigger] d.grad@[k] == e.grad@[k] && b.grad@[k]@[l]
        == d.grad@[k] by {
        assert(b.grad@[k]@[l] == d.grad@[k]);
    }
    assert forall|k: int| 0 <= k < 32 implies #[trigger] d.gamma@[k] == e.gamma@[k]
        && b.gamma@[k]@[l] == d.gamma@[k] by {
        assert(b.gamma@[k]@[l] == d.gamma@[k]);
    }
    assert forall|k: int| 0 <= k < 144 implies #[trigger] d.h@[k] == e.h@[k] && b.h@[k]@[l]
        == d.h@[k] by {
        assert(b.h@[k]@[l] == d.h@[k]);
    }
    assert forall|k: int| 0 <= k < 8 implies #[trigger] d.knot_c@[k] == e.knot_c@[k]
        && b.knot_c@[k]@[l] == d.knot_c@[k] by {
        assert(b.knot_c@[k]@[l] == d.knot_c@[k]);
    }
    assert forall|k: int| 0 <= k < 8 implies #[trigger] d.knot_s@[k] == e.knot_s@[k]
        && b.knot_s@[k]@[l] == d.knot_s@[k] by {
        assert(b.knot_s@[k]@[l] == d.knot_s@[k]);
    }
    assert forall|k: int| 0 <= k < 8 implies #[trigger] d.knot_h@[k] == e.knot_h@[k]
        && b.knot_h@[k]@[l] == d.knot_h@[k] by {
        assert(b.knot_h@[k]@[l] == d.knot_h@[k]);
    }
    assert forall|k: int| 0 <= k < 9 implies #[trigger] d.state.f_prev_inv@[k]
        == e.state.f_prev_inv@[k] && b.f_prev_inv@[k]@[l] == d.state.f_prev_inv@[k] by {
        assert(b.f_prev_inv@[k]@[l] == d.state.f_prev_inv@[k]);
    }
    assert forall|k: int| 0 <= k < 9 implies #[trigger] d.state.rotation@[k] == e.state.rotation@[k]
        && b.rotation@[k]@[l] == d.state.rotation@[k] by {
        assert(b.rotation@[k]@[l] == d.state.rotation@[k]);
    }
    assert forall|k: int| 0 <= k < 6 implies #[trigger] d.state.stress@[k] == e.state.stress@[k]
        && b.stress@[k]@[l] == d.state.stress@[k] by {
        assert(b.stress@[k]@[l] == d.state.stress@[k]);
    }
}

/// In an empty block the matrices of a lane have ones on their diagonal and zeros
/// beside it.
pub proof fn law_identity_has_its_diagonal<T>(
    table: [[T; 8]; 9],
    zero: T,
    one: T,
    i: int,
    j: int,
    l: int,
)
    requires
        is_identity(table, zero, one),
        0 <= i < 3,
        0 <= j < 3,
        0 <= l < 8,
    ensures
        table@[3 * i + j]@[l] == (if i == j {
            one
        } else {
            zero
        }),
{
    let k = 3 * i + j;
    assert(all_lanes(
        table@[k],
        if k % 4 == 0 {
            one
        } else {
            zero
        },
    ));
    assert(k % 4 == 0 <==> i == j);
}

/// An element erodes in the step in which its volume is gone, a padding lane never;
/// one that was eroded stays so. Those that are left take part.
pub proof fn law_inverted_lanes_erode(was: bool, det: Single, padding: bool)
    requires
        !det.nan(),
    ensures
        erodes(was, det, padding) <==> was || (!padding && det.order() <= 0),
        takes_part(was, det, padding) <==> !padding && !was && det.order() > 0,
{
}

/// An element is eroded after some steps where it was before or its volume was
/// gone in one of them.
pub proof fn law_lanes_erode_once_inverted(was: bool, dets: Seq<Single>)
    requires
        forall|i: int| 0 <= i < dets.len() ==> !(#[trigger] dets[i]).nan(),
    ensures
        eroded_by(was, dets, true) == was,
        eroded_by(was, dets, false) <==> was || exists|i: int|
            0 <= i < dets.len() && (#[trigger] dets[i]).order() <= 0,
    decreases dets.len(),
{
    if dets.len() > 0 {
        let front = dets.drop_last();
        assert forall|i: int| 0 <= i < front.len() implies !(#[trigger] front[i]).nan() by {
            assert(front[i] == dets[i]);
        }
        law_lanes_erode_once_inverted(was, front);
        let last = dets.len() - 1;
        assert(!dets[last].nan());
        if exists|i: int| 0 <= i < front.len() && (#[trigger] front[i]).order() <= 0 {
            let i = choose|i: int| 0 <= i < front.len() && (#[trigger] front[i]).order() <= 0;
            assert(dets[i].order() <= 0);
        }
        if exists|i: int| 0 <= i < dets.len() && (#[trigger] dets[i]).order() <= 0 {
            let i = choose|i: int| 0 <= i < dets.len() && (#[trigger] dets[i]).order() <= 0;
            if i < last {
                assert(front[i].order() <= 0);
            }
        }
    }
}

/// The knot in force in a lane is the last at or below its compaction: those after
/// it lie above.
pub proof fn law_lane_knots_in_force(c: Single, knots: Seq<[Single; 8]>, l: int, i: int)
    requires
        !c.nan(),
        forall|k: int| 0 <= k < 8 ==> !(#[trigger] knots[k])@[l].nan(),
        knot_in_force(c, knots, l, i),
    ensures
        0 <= i < 8,
        i > 0 ==> knots[i]@[l].order() <= c.order(),
        forall|k: int| i < k < 8 ==> (#[trigger] knots[k])@[l].order() > c.order(),
{
    assert forall|k: int| i < k < 8 implies (#[trigger] knots[k])@[l].order() > c.order() by {
        assert(!knots[k]@[l].at_most(c));
        assert(!knots[k]@[l].nan());
    }
}

/// There are as many blocks of eight as the elements need and no more; all but the
/// last are full, and together they hold every element once.
pub proof fn law_blocks_hold_every_element(n: int, b: int)
    requires
        0 <= n,
        0 <= b < block_count(n),
    ensures
        8 * (block_count(n) - 1) < n <= 8 * block_count(n),
        1 <= fill(n, b) <= 8,
        b < block_count(n) - 1 ==> fill(n, b) == 8,
        b == block_count(n) - 1 ==> 8 * b + fill(n, b) == n,
{
}

/// Copying erosion flags gives each listed element the flag of its own lane, lane
/// `k % 8` of block `k / 8`, and leaves the other elements alone.
pub proof fn law_flags_reach_their_elements<T: Copy>(
    blocks: Blocks<T>,
    ids: Seq<usize>,
    eroded: Seq<bool>,
    k: int,
    e: int,
)
    requires
        0 <= k <= ids.len(),
        0 <= e < eroded.len(),
        forall|i: int| 0 <= i < ids.len() ==> #[trigger] ids[i] < eroded.len(),
        forall|i: int, j: int|
            0 <= i < j < ids.len() ==> #[trigger] ids[i] != #[trigger] ids[j],
    ensures
        blocks.mirrored(ids, eroded, k).len() == eroded.len(),
        forall|i: int|
            0 <= i < k && #[trigger] ids[i] == e ==> blocks.mirrored(ids, eroded, k)[e]
                == blocks.blocks@[i / 8].eroded@[i % 8],
        (forall|i: int| 0 <= i < k ==> #[trigger] ids[i] != e) ==> blocks.mirrored(
            ids,
            eroded,
            k,
        )[e] == eroded[e],
    decreases k,
{
    if k > 0 {
        law_flags_reach_their_elements(blocks, ids, eroded, k - 1, e);
        assert(ids[k - 1] < eroded.len());
        assert forall|i: int| 0 <= i < k && #[trigger] ids[i] == e implies blocks.mirrored(
            ids,
            eroded,
            k,
        )[e] == blocks.blocks@[i / 8].eroded@[i % 8] by {
            if i < k - 1 {
                assert(ids[i] != ids[k - 1]);
            }
        }
    }
}

/// The lanes of elements that are eroded.
pub open spec fn eroded_elements<T>(blocks: Blocks<T>) -> spec_fn(int) -> bool {
    |k: int| blocks.blocks@[k / 8].eroded@[k % 8]
}

/// The eroded elements are counted each once, and padding lanes not at all.
pub proof fn law_eroded_elements_are_counted<T: Copy>(blocks: Blocks<T>, n: int)
    requires
        0 <= n,
        blocks.packed(n),
    ensures
        blocks.eroded_before(blocks.blocks@.len() as int) == places_where(
            n,
            eroded_elements(blocks),
        ).len(),
{
    let c = block_count(n);
    lemma_eroded_before(blocks, n, c);
    if c > 0 {
        law_blocks_hold_every_element(n, c - 1);
    } else {
        assert(n == 0);
    }
}

proof fn lemma_eroded_before<T: Copy>(blocks: Blocks<T>, n: int, b: int)
    requires
        0 <= n,
        blocks.packed(n),
        0 <= b <= block_count(n),
    ensures
        blocks.eroded_before(b) == places_where(
            if 8 * b < n {
                8 * b
            } else {
                n
            },
            eroded_elements(blocks),
        ).len(),
    decreases b,
{
    if b > 0 {
        lemma_eroded_before(blocks, n, b - 1);
        law_blocks_hold_every_element(n, b - 1);
        assert(blocks.blocks@[b - 1].count == fill(n, b - 1));
        lemma_eroded_lanes(blocks, b - 1, fill(n, b - 1));
    }
}

proof fn lemma_eroded_lanes<T: Copy>(blocks: Blocks<T>, b: int, l: int)
    requires
        0 <= b < blocks.blocks@.len(),
        0 <= l <= 8,
    ensures
        places_where(8 * b + l, eroded_elements(blocks)).len() == places_where(
            8 * b,
            eroded_elements(blocks),
        ).len() + Blocks::eroded_lanes(blocks.blocks@[b], l),
    decreases l,
{
    if l > 0 {
        lemma_eroded_lanes(blocks, b, l - 1);
        let k = 8 * b + l - 1;
        assert(k / 8 == b && k % 8 == l - 1);
    }
}

} // verus!
