//! Numbers carried by their IEEE 754 encoding.
//!
//! The solver's arithmetic runs in hardware; what the library decides about a
//! number is where it stands relative to others. [`Real`] (double precision)
//! and [`Single`] (single precision) hold the encoding as an integer and
//! compare it the way the hardware does: an encoding stands at a place on the
//! integer line (`order`), both zeros stand at 0, and a NaN stands nowhere, so
//! every comparison with it is false.
//!
//! `==` on these types is identity of the encoding; [`Real::same`] is the
//! numeric equality.

use vstd::prelude::*;

verus! {

/// Sign bit of a double.
pub const SIGN: u64 = 0x8000_0000_0000_0000;

/// Encoding of positive infinity.
pub const INFINITY: u64 = 0x7ff0_0000_0000_0000;

/// Sign bit of a single.
pub const SINGLE_SIGN: u32 = 0x8000_0000;

/// Encoding of positive infinity in single precision.
pub const SINGLE_INFINITY: u32 = 0x7f80_0000;

/// A double-precision number, by its encoding.
#[derive(Clone, Copy, Debug, PartialEq, Eq, Structural)]
pub struct Real {
    pub bits: u64,
}

/// A single-precision number, by its encoding.
#[derive(Clone, Copy, Debug, PartialEq, Eq, Structural)]
pub struct Single {
    pub bits: u32,
}

impl Real {
    pub open spec fn is_negative(self) -> bool {
        self.bits >= SIGN
    }

    /// The encoding without its sign.
    pub open spec fn magnitude(self) -> int {
        if self.bits >= SIGN {
            self.bits - SIGN
        } else {
            self.bits as int
        }
    }

    pub open spec fn nan(self) -> bool {
        self.magnitude() > INFINITY
    }

    pub open spec fn finite(self) -> bool {
        self.magnitude() < INFINITY
    }

    /// Place on the number line; meaningful for what is not a NaN.
    pub open spec fn order(self) -> int {
        if self.is_negative() {
            -self.magnitude()
        } else {
            self.magnitude()
        }
    }

    /// `self < other`.
    pub open spec fn below(self, other: Real) -> bool {
        !self.nan() && !other.nan() && self.order() < other.order()
    }

    /// `self <= other`.
    pub open spec fn at_most(self, other: Real) -> bool {
        !self.nan() && !other.nan() && self.order() <= other.order()
    }

    /// `self == other` as numbers.
    pub open spec fn equals(self, other: Real) -> bool {
        !self.nan() && !other.nan() && self.order() == other.order()
    }

    /// The number of opposite sign.
    pub open spec fn negated(self) -> Real {
        Real {
            bits: if self.bits >= SIGN {
                (self.bits - SIGN) as u64
            } else {
                (self.bits + SIGN) as u64
            },
        }
    }

    /// Encoding, without sign, of half a number: one less in the exponent, and
    /// below the normal range half the significand, ties to even. Infinity and
    /// NaNs stay.
    pub open spec fn half_magnitude(m: int) -> int {
        if m >= INFINITY {
            m
        } else if m >= 0x20_0000_0000_0000 {
            m - 0x10_0000_0000_0000
        } else if m % 2 == 0 {
            m / 2
        } else {
            m / 2 + (m / 2) % 2
        }
    }

    /// Half the number.
    pub open spec fn halved(self) -> Real {
        Real {
            bits: if self.bits >= SIGN {
                (SIGN + Self::half_magnitude(self.magnitude())) as u64
            } else {
                Self::half_magnitude(self.magnitude()) as u64
            },
        }
    }

    /// The lesser of two numbers; of a NaN and a number, the number.
    pub open spec fn lesser(self, other: Real) -> Real {
        if self.nan() || other.below(self) {
            other
        } else {
            self
        }
    }

    /// The greater of two numbers; of a NaN and a number, the number.
    pub open spec fn greater(self, other: Real) -> Real {
        if self.nan() || self.below(other) {
            other
        } else {
            self
        }
    }

    /// The number, or the bound that it is beyond.
    pub open spec fn clamped(self, lo: Real, hi: Real) -> Real {
        if self.below(lo) {
            lo
        } else if hi.below(self) {
            hi
        } else {
            self
        }
    }

    pub open spec fn spec_zero() -> Real {
        Real { bits: 0 }
    }

    pub fn zero() -> (r: Real)
        ensures
            r == Real::spec_zero(),
            r.order() == 0,
            !r.nan(),
    {
        Real { bits: 0 }
    }

    pub open spec fn spec_one() -> Real {
        Real { bits: 0x3ff0_0000_0000_0000 }
    }

    pub fn one() -> (r: Real)
        ensures
            r == Real::spec_one(),
    {
        Real { bits: 0x3ff0_0000_0000_0000 }
    }

    pub open spec fn spec_infinity() -> Real {
        Real { bits: INFINITY }
    }

    pub fn infinity() -> (r: Real)
        ensures
            r == Real::spec_infinity(),
            !r.nan(),
    {
        Real { bits: INFINITY }
    }

    pub open spec fn spec_neg_infinity() -> Real {
        Real { bits: (SIGN + INFINITY) as u64 }
    }

    pub fn neg_infinity() -> (r: Real)
        ensures
            r == Real::spec_neg_infinity(),
            !r.nan(),
    {
        Real { bits: SIGN + INFINITY }
    }

    pub fn is_nan(self) -> (b: bool)
        ensures
            b == self.nan(),
    {
        if self.bits >= SIGN {
            self.bits - SIGN > INFINITY
        } else {
            self.bits > INFINITY
        }
    }

    pub fn is_finite(self) -> (b: bool)
        ensures
            b == self.finite(),
    {
        if self.bits >= SIGN {
            self.bits - SIGN < INFINITY
        } else {
            self.bits < INFINITY
        }
    }

    pub fn lt(self, other: Real) -> (b: bool)
        ensures
            b == self.below(other),
    {
        if self.is_nan() || other.is_nan() {
            false
        } else if self.bits >= SIGN {
            if other.bits >= SIGN {
                other.bits < self.bits
            } else {
                self.bits > SIGN || other.bits > 0
            }
        } else {
            other.bits < SIGN && self.bits < other.bits
        }
    }

    pub fn le(self, other: Real) -> (b: bool)
        ensures
            b == self.at_most(other),
    {
        !self.is_nan() && !other.is_nan() && !other.lt(self)
    }

    pub fn same(self, other: Real) -> (b: bool)
        ensures
            b == self.equals(other),
    {
        self.le(other) && other.le(self)
    }

    pub fn neg(self) -> (r: Real)
        ensures
            r == self.negated(),
            r.order() == -self.order(),
            r.nan() == self.nan(),
    {
        if self.bits >= SIGN {
            Real { bits: self.bits - SIGN }
        } else {
            Real { bits: self.bits + SIGN }
        }
    }

    pub fn half(self) -> (r: Real)
        ensures
            r == self.halved(),
            !self.nan() && self.order() >= 0 ==> 0 <= r.order() <= self.order(),
    {
        let m: u64 = if self.bits >= SIGN {
            self.bits - SIGN
        } else {
            self.bits
        };
        let h: u64 = if m >= INFINITY {
            m
        } else if m >= 0x20_0000_0000_0000 {
            m - 0x10_0000_0000_0000
        } else if m % 2 == 0 {
            m / 2
        } else {
            m / 2 + (m / 2) % 2
        };
        Real {
            bits: if self.bits >= SIGN {
                SIGN + h
            } else {
                h
            },
        }
    }

    pub fn min(self, other: Real) -> (r: Real)
        ensures
            r == self.lesser(other),
    {
        if self.is_nan() || other.lt(self) {
            other
        } else {
            self
        }
    }

    pub fn max(self, other: Real) -> (r: Real)
        ensures
            r == self.greater(other),
    {
        if self.is_nan() || self.lt(other) {
            other
        } else {
            self
        }
    }
}

impl Real {
    /// The number held between two bounds.
    pub fn clamp(self, lo: Real, hi: Real) -> (r: Real)
        requires
            lo.at_most(hi),
        ensures
            r == self.clamped(lo, hi),
    {
        if self.lt(lo) {
            lo
        } else if hi.lt(self) {
            hi
        } else {
            self
        }
    }
}

impl Single {
    pub open spec fn is_negative(self) -> bool {
        self.bits >= SINGLE_SIGN
    }

    /// The encoding without its sign.
    pub open spec fn magnitude(self) -> int {
        if self.bits >= SINGLE_SIGN {
            self.bits - SINGLE_SIGN
        } else {
            self.bits as int
        }
    }

    pub open spec fn nan(self) -> bool {
        self.magnitude() > SINGLE_INFINITY
    }

    /// Place on the number line; meaningful for what is not a NaN.
    pub open spec fn order(self) -> int {
        if self.is_negative() {
            -self.magnitude()
        } else {
            self.magnitude()
        }
    }

    /// `self < other`.
    pub open spec fn below(self, other: Single) -> bool {
        !self.nan() && !other.nan() && self.order() < other.order()
    }

    /// `self <= other`.
    pub open spec fn at_most(self, other: Single) -> bool {
        !self.nan() && !other.nan() && self.order() <= other.order()
    }

    /// The lesser of two numbers; of a NaN and a number, the number.
    pub open spec fn lesser(self, other: Single) -> Single {
        if self.nan() || other.below(self) {
            other
        } else {
            self
        }
    }

    /// The greater of two numbers; of a NaN and a number, the number.
    pub open spec fn greater(self, other: Single) -> Single {
        if self.nan() || self.below(other) {
            other
        } else {
            self
        }
    }

    pub open spec fn spec_zero() -> Single {
        Single { bits: 0 }
    }

    pub open spec fn spec_one() -> Single {
        Single { bits: 0x3f80_0000 }
    }

    pub open spec fn spec_infinity() -> Single {
        Single { bits: SINGLE_INFINITY }
    }

    pub open spec fn spec_neg_infinity() -> Single {
        Single { bits: (SINGLE_SIGN + SINGLE_INFINITY) as u32 }
    }

    pub fn zero() -> (r: Single)
        ensures
            r == Single::spec_zero(),
            r.order() == 0,
            !r.nan(),
    {
        Single { bits: 0 }
    }

    pub fn one() -> (r: Single)
        ensures
            r == Single::spec_one(),
    {
        Single { bits: 0x3f80_0000 }
    }

    pub fn infinity() -> (r: Single)
        ensures
            r == Single::spec_infinity(),
    {
        Single { bits: SINGLE_INFINITY }
    }

    pub fn neg_infinity() -> (r: Single)
        ensures
            r == Single::spec_neg_infinity(),
            !r.nan(),
    {
        Single { bits: SINGLE_SIGN + SINGLE_INFINITY }
    }

    pub fn is_nan(self) -> (b: bool)
        ensures
            b == self.nan(),
    {
        if self.bits >= SINGLE_SIGN {
            self.bits - SINGLE_SIGN > SINGLE_INFINITY
        } else {
            self.bits > SINGLE_INFINITY
        }
    }

    pub fn lt(self, other: Single) -> (b: bool)
        ensures
            b == self.below(other),
    {
        if self.is_nan() || other.is_nan() {
            false
        } else if self.bits >= SINGLE_SIGN {
            if other.bits >= SINGLE_SIGN {
                other.bits < self.bits
            } else {
                self.bits > SINGLE_SIGN || other.bits > 0
            }
        } else {
            other.bits < SINGLE_SIGN && self.bits < other.bits
        }
    }

    pub fn le(self, other: Single) -> (b: bool)
        ensures
            b == self.at_most(other),
    {
        !self.is_nan() && !other.is_nan() && !other.lt(self)
    }

    pub fn min(self, other: Single) -> (r: Single)
        ensures
            r == self.lesser(other),
    {
        if self.is_nan() || other.lt(self) {
            other
        } else {
            self
        }
    }

    pub fn max(self, other: Single) -> (r: Single)
        ensures
            r == self.greater(other),
    {
        if self.is_nan() || self.lt(other) {
            other
        } else {
            self
        }
    }
}

/// Position of the first least number: no number of `s` stands below it and
/// none before it stands level.
pub open spec fn is_first_min(s: Seq<Real>, at: int) -> bool {
    &&& 0 <= at < s.len()
    &&& forall|i: int| 0 <= i < s.len() ==> s[at].order() <= #[trigger] s[i].order()
    &&& forall|i: int| 0 <= i < at ==> s[at].order() < #[trigger] s[i].order()
}

/// Position of the last greatest number: no number of `s` stands above it and
/// none after it stands level.
pub open spec fn is_last_max(s: Seq<Real>, at: int) -> bool {
    &&& 0 <= at < s.len()
    &&& forall|i: int| 0 <= i < s.len() ==> #[trigger] s[i].order() <= s[at].order()
    &&& forall|i: int| at < i < s.len() ==> #[trigger] s[i].order() < s[at].order()
}

pub open spec fn no_nan(s: Seq<Real>) -> bool {
    forall|i: int| 0 <= i < s.len() ==> !(#[trigger] s[i]).nan()
}

/// Index of the first least number.
pub fn first_min(s: &Vec<Real>) -> (at: usize)
    requires
        s@.len() > 0,
        no_nan(s@),
    ensures
        is_first_min(s@, at as int),
{
    let mut at: usize = 0;
    let mut i: usize = 1;
    while i < s.len()
        invariant
            at < i <= s.len(),
            no_nan(s@),
            forall|k: int| 0 <= k < i ==> s@[at as int].order() <= #[trigger] s@[k].order(),
            forall|k: int| 0 <= k < at ==> s@[at as int].order() < #[trigger] s@[k].order(),
        decreases s.len() - i,
    {
        if s[i].lt(s[at]) {
            at = i;
        }
        i += 1;
    }
    at
}

/// Index of the last greatest number.
pub fn last_max(s: &Vec<Real>) -> (at: usize)
    requires
        s@.len() > 0,
        no_nan(s@),
    ensures
        is_last_max(s@, at as int),
{
    let mut at: usize = 0;
    let mut i: usize = 1;
    while i < s.len()
        invariant
            at < i <= s.len(),
            no_nan(s@),
            forall|k: int| 0 <= k < i ==> #[trigger] s@[k].order() <= s@[at as int].order(),
            forall|k: int| at < k < i ==> #[trigger] s@[k].order() < s@[at as int].order(),
        decreases s.len() - i,
    {
        if s[at].le(s[i]) {
            at = i;
        }
        i += 1;
    }
    at
}

/// `start` lowered by every number of the list in turn.
pub open spec fn least_from(start: Real, s: Seq<Real>) -> Real
    decreases s.len(),
{
    if s.len() == 0 {
        start
    } else {
        least_from(start, s.drop_last()).lesser(s.last())
    }
}

/// Least of `start` and the numbers of the list, NaNs passed over.
pub fn fold_min(start: Real, s: &Vec<Real>) -> (r: Real)
    ensures
        r == least_from(start, s@),
{
    let mut r: Real = start;
    let mut i: usize = 0;
    assert(s@.take(0) =~= Seq::empty());
    while i < s.len()
        invariant
            i <= s.len(),
            r == least_from(start, s@.take(i as int)),
        decreases s.len() - i,
    {
        assert(s@.take(i + 1).drop_last() =~= s@.take(i as int));
        r = r.min(s[i]);
        i += 1;
    }
    assert(s@.take(i as int) =~= s@);
    r
}

/// `start` raised by every number of the list in turn.
pub open spec fn greatest_from(start: Real, s: Seq<Real>) -> Real
    decreases s.len(),
{
    if s.len() == 0 {
        start
    } else {
        greatest_from(start, s.drop_last()).greater(s.last())
    }
}

/// Greatest of `start` and the numbers of the list, NaNs passed over.
pub fn fold_max(start: Real, s: &Vec<Real>) -> (r: Real)
    ensures
        r == greatest_from(start, s@),
{
    let mut r: Real = start;
    let mut i: usize = 0;
    assert(s@.take(0) =~= Seq::empty());
    while i < s.len()
        invariant
            i <= s.len(),
            r == greatest_from(start, s@.take(i as int)),
        decreases s.len() - i,
    {
        assert(s@.take(i + 1).drop_last() =~= s@.take(i as int));
        r = r.max(s[i]);
        i += 1;
    }
    assert(s@.take(i as int) =~= s@);
    r
}

/// The least of a list that holds a number and no NaN is a member of it or the
/// start, and nothing in the list stands below it.
pub proof fn law_least_is_a_lower_bound(start: Real, s: Seq<Real>)
    requires
        no_nan(s),
        !start.nan(),
    ensures
        !least_from(start, s).nan(),
        least_from(start, s) == start || s.contains(least_from(start, s)),
        least_from(start, s).order() <= start.order(),
        forall|i: int| 0 <= i < s.len() ==> least_from(start, s).order() <= #[trigger] s[i].order(),
    decreases s.len(),
{
    if s.len() > 0 {
        law_least_is_a_lower_bound(start, s.drop_last());
        let before = least_from(start, s.drop_last());
        let r = least_from(start, s);
        if r == before {
            if before != start {
                let i = choose|i: int| 0 <= i < s.drop_last().len() && s.drop_last()[i] == before;
                assert(s[i] == before);
            }
        } else {
            assert(r == s[s.len() - 1]);
        }
        assert forall|i: int| 0 <= i < s.len() implies r.order() <= #[trigger] s[i].order() by {
            if i < s.len() - 1 {
                assert(s.drop_last()[i] == s[i]);
            }
        }
    }
}

/// The greatest of a list that holds no NaN is a member of it or the start,
/// and nothing in the list stands above it.
pub proof fn law_greatest_is_an_upper_bound(start: Real, s: Seq<Real>)
    requires
        no_nan(s),
        !start.nan(),
    ensures
        !greatest_from(start, s).nan(),
        greatest_from(start, s) == start || s.contains(greatest_from(start, s)),
        start.order() <= greatest_from(start, s).order(),
        forall|i: int|
            0 <= i < s.len() ==> #[trigger] s[i].order() <= greatest_from(start, s).order(),
    decreases s.len(),
{
    if s.len() > 0 {
        law_greatest_is_an_upper_bound(start, s.drop_last());
        let before = greatest_from(start, s.drop_last());
        let r = greatest_from(start, s);
        if r == before {
            if before != start {
                let i = choose|i: int| 0 <= i < s.drop_last().len() && s.drop_last()[i] == before;
                assert(s[i] == before);
            }
        } else {
            assert(r == s[s.len() - 1]);
        }
        assert forall|i: int| 0 <= i < s.len() implies #[trigger] s[i].order() <= r.order() by {
            if i < s.len() - 1 {
                assert(s.drop_last()[i] == s[i]);
            }
        }
    }
}

/// Indices of three numbers in ascending order, equals in their given order.
pub open spec fn is_sorting_of_three(s: Seq<Real>, p: Seq<usize>) -> bool {
    &&& s.len() == 3 && p.len() == 3
    &&& forall|i: int| 0 <= i < 3 ==> #[trigger] p[i] < 3
    &&& p[0] != p[1] && p[0] != p[2] && p[1] != p[2]
    &&& forall|i: int, j: int|
        0 <= i < j < 3 ==> {
            ||| s[#[trigger] p[i] as int].order() < s[#[trigger] p[j] as int].order()
            ||| s[p[i] as int].order() == s[p[j] as int].order() && p[i] < p[j]
        }
}

/// Stable ascending order of three numbers, as indices.
pub fn sort_three(s: &[Real; 3]) -> (p: [usize; 3])
    requires
        no_nan(s@),
    ensures
        is_sorting_of_three(s@, p@),
{
    let (a, b, c) = (s[0], s[1], s[2]);
    assert(!s@[0].nan() && !s@[1].nan() && !s@[2].nan());
    if a.le(b) {
        if b.le(c) {
            [0, 1, 2]
        } else if a.le(c) {
            [0, 2, 1]
        } else {
            [2, 0, 1]
        }
    } else if a.le(c) {
        [1, 0, 2]
    } else if b.le(c) {
        [1, 2, 0]
    } else {
        [2, 1, 0]
    }
}

/// Position of the first of three numbers that no other exceeds, with a NaN
/// exceeding nothing and exceeded by nothing.
pub open spec fn leader(a: Real, b: Real, c: Real) -> int {
    if b.at_most(a) && c.at_most(a) {
        0
    } else if c.at_most(b) {
        1
    } else {
        2
    }
}

/// Which of three lengths to divide by: the first that is at least as large as
/// the others.
pub fn largest_of_three(a: Real, b: Real, c: Real) -> (i: usize)
    ensures
        i == leader(a, b, c),
        no_nan(seq![a, b, c]) ==> seq![a, b, c][i as int].order() >= a.order()
            && seq![a, b, c][i as int].order() >= b.order()
            && seq![a, b, c][i as int].order() >= c.order(),
{
    proof {
        let s = seq![a, b, c];
        assert(s[0] == a && s[1] == b && s[2] == c);
        if no_nan(s) {
            assert(!s[0].nan() && !s[1].nan() && !s[2].nan());
        }
    }
    if b.le(a) && c.le(a) {
        0
    } else if c.le(b) {
        1
    } else {
        2
    }
}

// ---- how numbers compare ----

/// Numbers are ordered as their places on the line, by their encodings: those
/// without sign by the encoding, those with sign the other way and below them,
/// both zeros at one place. A NaN compares with nothing, and of two numbers one
/// relation holds.
pub proof fn law_numbers_compare(a: Real, b: Real)
    ensures
        a.nan() <==> 0x7ff0_0000_0000_0000 < a.bits < 0x8000_0000_0000_0000 || a.bits
            > 0xfff0_0000_0000_0000,
        a.nan() || b.nan() ==> !a.below(b) && !a.at_most(b) && !a.equals(b),
        !a.nan() && !b.nan() ==> {
            &&& a.bits < 0x8000_0000_0000_0000 && b.bits < 0x8000_0000_0000_0000 ==> (a.below(b)
                <==> a.bits < b.bits)
            &&& a.bits >= 0x8000_0000_0000_0000 && b.bits >= 0x8000_0000_0000_0000 ==> (a.below(b)
                <==> a.bits > b.bits)
            &&& a.bits >= 0x8000_0000_0000_0000 && b.bits < 0x8000_0000_0000_0000 ==> (a.below(b)
                <==> !(a.bits == 0x8000_0000_0000_0000 && b.bits == 0))
            &&& a.bits < 0x8000_0000_0000_0000 && b.bits >= 0x8000_0000_0000_0000 ==> !a.below(b)
            &&& a.below(b) <==> !b.at_most(a)
            &&& a.equals(b) <==> a.at_most(b) && b.at_most(a)
            &&& a.negated().below(b.negated()) <==> b.below(a)
        },
        a.negated().negated() == a,
        a.negated() != a,
        a.finite() <==> !a.nan() && a.bits != 0x7ff0_0000_0000_0000 && a.bits
            != 0xfff0_0000_0000_0000,
{
}

/// The lesser and the greater of two numbers are one of them, and no number
/// stands beyond; of a NaN and a number they are the number.
pub proof fn law_lesser_and_greater(a: Real, b: Real)
    ensures
        a.lesser(b) == a || a.lesser(b) == b,
        a.greater(b) == a || a.greater(b) == b,
        a.nan() ==> a.lesser(b) == b && a.greater(b) == b,
        b.nan() ==> a.lesser(b) == (if a.nan() {
            b
        } else {
            a
        }) && a.greater(b) == (if a.nan() {
            b
        } else {
            a
        }),
        !a.nan() && !b.nan() ==> {
            &&& a.lesser(b).order() <= a.order() && a.lesser(b).order() <= b.order()
            &&& a.greater(b).order() >= a.order() && a.greater(b).order() >= b.order()
            &&& a.order() == b.order() ==> a.lesser(b) == a && a.greater(b) == a
        },
{
}

/// A number kept within bounds lies between them, and is itself where it did.
pub proof fn law_clamped(x: Real, lo: Real, hi: Real)
    requires
        !x.nan(),
        !lo.nan(),
        !hi.nan(),
        lo.order() <= hi.order(),
    ensures
        lo.order() <= x.clamped(lo, hi).order() <= hi.order(),
        lo.order() <= x.order() <= hi.order() ==> x.clamped(lo, hi) == x,
        x.order() < lo.order() ==> x.clamped(lo, hi) == lo,
        x.order() > hi.order() ==> x.clamped(lo, hi) == hi,
{
}

/// Half a number keeps its sign. In the normal range it is one less in the
/// exponent. Below, twice the half is the number, to one unit at most, and an
/// inexact half is even. It grows with the number.
pub proof fn law_halves(a: Real, b: Real)
    requires
        a.finite(),
        b.finite(),
    ensures
        a.halved().finite(),
        a.halved().is_negative() == a.is_negative(),
        a.magnitude() >= 0x20_0000_0000_0000 ==> a.halved().magnitude() + 0x10_0000_0000_0000
            == a.magnitude(),
        a.magnitude() < 0x20_0000_0000_0000 ==> {
            &&& -1 <= 2 * a.halved().magnitude() - a.magnitude() <= 1
            &&& 2 * a.halved().magnitude() != a.magnitude() ==> a.halved().magnitude() % 2 == 0
        },
        a.order() <= b.order() ==> a.halved().order() <= b.halved().order(),
        a.negated().halved() == a.halved().negated(),
{
    assert(a.negated().magnitude() == a.magnitude());
    assert(a.halved().magnitude() == Real::half_magnitude(a.magnitude()));
    assert(b.halved().magnitude() == Real::half_magnitude(b.magnitude()));
}

/// Single numbers are ordered as their places on the line, by their encodings. A
/// NaN compares with nothing; the lesser and the greater of two are one of them,
/// and of a NaN and a number the number.
pub proof fn law_single_numbers_compare(a: Single, b: Single)
    ensures
        a.nan() <==> 0x7f80_0000 < a.bits < 0x8000_0000 || a.bits > 0xff80_0000,
        a.nan() || b.nan() ==> !a.below(b) && !a.at_most(b),
        !a.nan() && !b.nan() ==> {
            &&& a.bits < 0x8000_0000 && b.bits < 0x8000_0000 ==> (a.below(b) <==> a.bits < b.bits)
            &&& a.bits >= 0x8000_0000 && b.bits >= 0x8000_0000 ==> (a.below(b) <==> a.bits > b.bits)
            &&& a.bits >= 0x8000_0000 && b.bits < 0x8000_0000 ==> (a.below(b) <==> !(a.bits
                == 0x8000_0000 && b.bits == 0))
            &&& a.bits < 0x8000_0000 && b.bits >= 0x8000_0000 ==> !a.below(b)
            &&& a.below(b) <==> !b.at_most(a)
            &&& a.lesser(b).order() <= a.order() && a.lesser(b).order() <= b.order()
            &&& a.greater(b).order() >= a.order() && a.greater(b).order() >= b.order()
        },
        a.lesser(b) == a || a.lesser(b) == b,
        a.greater(b) == a || a.greater(b) == b,
        a.nan() ==> a.lesser(b) == b && a.greater(b) == b,
        !a.nan() && b.nan() ==> a.lesser(b) == a && a.greater(b) == a,
{
}

/// The leader of three numbers stands at no place below another, and is the
/// first of those that do.
pub proof fn law_leader_is_greatest(a: Real, b: Real, c: Real)
    requires
        !a.nan(),
        !b.nan(),
        !c.nan(),
    ensures
        leader(a, b, c) == 0 <==> a.order() >= b.order() && a.order() >= c.order(),
        leader(a, b, c) == 1 ==> b.order() > a.order() || c.order() > a.order(),
        leader(a, b, c) == 1 ==> b.order() >= c.order() && b.order() >= a.order(),
        leader(a, b, c) == 2 ==> c.order() > b.order() && c.order() >= a.order(),
        0 <= leader(a, b, c) <= 2,
{
}

} // verus!
