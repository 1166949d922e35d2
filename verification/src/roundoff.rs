//! Real numbers, for what is proved of computed numbers up to round-off: how far
//! the errors of a recursive filter add up.

use vstd::prelude::*;

verus! {

/// The absolute value of a number.
pub open spec fn size(x: real) -> real {
    if x < 0 as real {
        0 as real - x
    } else {
        x
    }
}

/// The product of two numbers.
#[verifier::opaque]
pub open spec fn product(x: real, y: real) -> real {
    x * y
}

/// Products distribute over sums and differences.
pub proof fn lemma_product_adds(c: real, x: real, y: real)
    ensures
        product(c, x + y) == product(c, x) + product(c, y),
        product(c, x - y) == product(c, x) - product(c, y),
{
    reveal(product);
    assert(c * (x + y) == c * x + c * y) by (nonlinear_arith);
    assert(c * (x - y) == c * x - c * y) by (nonlinear_arith);
}

pub proof fn lemma_product_swaps(x: real, y: real)
    ensures
        product(x, y) == product(y, x),
{
    reveal(product);
    assert(x * y == y * x) by (nonlinear_arith);
}

pub proof fn lemma_product_nests(x: real, y: real, z: real)
    ensures
        product(x, product(y, z)) == product(product(x, y), z),
{
    reveal(product);
    assert(x * (y * z) == (x * y) * z) by (nonlinear_arith);
}

pub proof fn lemma_product_units(x: real)
    ensures
        product(1 as real, x) == x,
        product(x, 1 as real) == x,
        product(0 as real, x) == 0 as real,
        product(x, 0 as real) == 0 as real,
{
    reveal(product);
    assert(1 as real * x == x) by (nonlinear_arith);
    assert(0 as real * x == 0 as real) by (nonlinear_arith);
    assert(x * (0 as real) == 0 as real) by (nonlinear_arith);
    assert(x * (1 as real) == x) by (nonlinear_arith);
}

/// A product grows with a factor where the other is not negative.
pub proof fn lemma_product_grows(c: real, x: real, y: real)
    requires
        0 as real <= c,
        x <= y,
    ensures
        product(c, x) <= product(c, y),
        product(x, c) <= product(y, c),
{
    reveal(product);
    assert(c * x <= c * y && x * c <= y * c) by (nonlinear_arith)
        requires
            0 as real <= c,
            x <= y,
    ;
}

/// A product is at most that of bounds on the absolute values.
pub proof fn lemma_product_bound(x: real, y: real, a: real, b: real)
    requires
        size(x) <= a,
        size(y) <= b,
    ensures
        size(product(x, y)) <= product(a, b),
        0 as real <= product(a, b),
{
    let (p, q) = (size(x), size(y));
    lemma_product_grows(p, q, b);
    lemma_product_grows(b, p, a);
    lemma_product_units(p);
    lemma_product_grows(p, 0 as real, q);
    assert(size(product(x, y)) == product(p, q)) by {
        reveal(product);
        let (m, n) = (0 as real - x, 0 as real - y);
        assert(m * y == 0 as real - x * y && x * n == 0 as real - x * y && m * n == x * y)
            by (nonlinear_arith)
            requires
                m == 0 as real - x,
                n == 0 as real - y,
        ;
    }
}

/// The quotient of two numbers.
#[verifier::opaque]
pub open spec fn quotient(x: real, y: real) -> real {
    x / y
}

pub proof fn lemma_quotient(x: real, y: real)
    requires
        y != 0 as real,
    ensures
        product(quotient(x, y), y) == x,
{
    reveal(product);
    reveal(quotient);
    assert((x / y) * y == x) by (nonlinear_arith)
        requires
            y != 0 as real,
    ;
}

/// Slopes that are `t` apart at most give products that are no further apart than
/// `t` over the distance.
pub proof fn lemma_slopes_apart(m: real, n: real, x: real, t: real, w: real)
    requires
        size(m - n) <= t,
        size(x) <= w,
    ensures
        size(product(m, x) - product(n, x)) <= product(t, w),
        0 as real <= product(t, w),
{
    lemma_product_bound(m - n, x, t, w);
    lemma_product_swaps(m - n, x);
    lemma_product_adds(x, m, n);
    lemma_product_swaps(m, x);
    lemma_product_swaps(n, x);
}

// ---- filters of second order ----

/// Coefficients of a filter of second order: of the samples in, the latest
/// first, and of the samples out.
pub struct Coefficients {
    pub a0: real,
    pub a1: real,
    pub a2: real,
    pub b1: real,
    pub b2: real,
}

impl Coefficients {
    /// What the filter gives from three samples in and two out.
    pub open spec fn output(self, x0: real, x1: real, x2: real, y1: real, y2: real) -> real {
        product(self.a0, x0) + product(self.a1, x1) + product(self.a2, x2) + product(self.b1, y1)
            + product(self.b2, y2)
    }

    /// How the samples out ring on: what is left of one after `k` more.
    pub open spec fn response(self, k: int) -> real
        decreases k,
    {
        if k <= 0 {
            1 as real
        } else if k == 1 {
            self.b1
        } else {
            product(self.b1, self.response(k - 1)) + product(self.b2, self.response(k - 2))
        }
    }

    /// How much of an error in each of `n` samples can come together in one.
    pub open spec fn gain(self, n: int) -> real
        decreases n,
    {
        if n <= 0 {
            0 as real
        } else {
            self.gain(n - 1) + size(self.response(n - 1))
        }
    }

    /// How much of the samples in goes into one out, at most.
    pub open spec fn feed(self) -> real {
        size(self.a0) + size(self.a1) + size(self.a2)
    }

    /// The greatest sample out of a pass over `n` samples, the images at the ends
    /// among them, where those in are at most `s` and every operation is off by
    /// `t` at most.
    pub open spec fn swing(self, n: int, t: real, s: real) -> real {
        product(
            self.reach(n),
            product(1 as real + self.feed(), s + s + s + t) + t,
        )
    }

    /// How much of the first two samples and of the errors comes together in a
    /// sample out.
    pub open spec fn reach(self, n: int) -> real {
        product(1 as real + size(self.b2), self.gain(n))
    }

    /// The greatest sample out of a pass forth and one back.
    pub open spec fn settled(self, n: int, t: real, s: real) -> real {
        self.swing(n, t, self.swing(n, t, s))
    }

    /// Whether the filter gives a constant back.
    pub open spec fn keeps_constants(self) -> bool {
        self.a0 + self.a1 + self.a2 + self.b1 + self.b2 == 1 as real
    }
}

/// The gain grows with the samples, and no response exceeds it.
proof fn lemma_gain(k: Coefficients, i: int, n: int)
    requires
        0 <= i < n,
    ensures
        1 as real <= k.gain(n),
        k.gain(i) <= k.gain(n),
        size(k.response(i)) <= k.gain(n),
        0 as real <= k.gain(i),
    decreases n,
{
    lemma_gain_positive(k, i);
    lemma_gain_positive(k, n - 1);
    assert(k.gain(1) == k.gain(0) + size(k.response(0)));
    if i < n - 1 {
        lemma_gain(k, i, n - 1);
    } else if n > 1 {
        lemma_gain(k, 0, n - 1);
    }
}

proof fn lemma_gain_positive(k: Coefficients, n: int)
    ensures
        0 as real <= k.gain(n),
    decreases n,
{
    if n > 0 {
        lemma_gain_positive(k, n - 1);
    }
}

/// Numbers that each follow from the two before, off by `t` at most.
spec fn follows(d: Seq<real>, k: Coefficients, t: real, m: int) -> bool {
    size(d[m] - (product(k.b1, d[m - 1]) + product(k.b2, d[m - 2]))) <= t
}

/// A number of such a sequence by two earlier ones, off by what the gain makes of
/// the errors between.
proof fn lemma_ring(d: Seq<real>, k: Coefficients, t: real, i: int, j: int)
    requires
        0 <= i < d.len(),
        1 <= j <= i - 1,
        forall|m: int| 2 <= m <= i ==> #[trigger] follows(d, k, t, m),
    ensures
        size(
            d[i] - (product(k.response(j), d[i - j]) + product(
                product(k.b2, k.response(j - 1)),
                d[i - j - 1],
            )),
        ) <= product(t, k.gain(j)),
    decreases j,
{
    if j == 1 {
        assert(follows(d, k, t, i));
        assert(k.response(0) == 1 as real);
        assert(k.gain(1) == k.gain(0) + size(k.response(0)));
        lemma_product_units(k.b2);
        lemma_product_units(t);
    } else {
        lemma_ring(d, k, t, i, j - 1);
        let m = i - (j - 1);
        assert(follows(d, k, t, m));
        let (h, before, next) = (k.response(j - 1), k.response(j - 2), k.response(j));
        let (p, q, r) = (d[m], d[m - 1], d[m - 2]);
        let (b1, b2) = (k.b1, k.b2);
        let rho = p - (product(b1, q) + product(b2, r));
        assert(next == product(b1, h) + product(b2, before));
        // h rho = h p - h b1 q - h b2 r
        lemma_product_adds(h, p, product(b1, q) + product(b2, r));
        lemma_product_adds(h, product(b1, q), product(b2, r));
        lemma_product_nests(h, b1, q);
        lemma_product_swaps(h, b1);
        lemma_product_nests(h, b2, r);
        lemma_product_swaps(h, b2);
        // next q = b1 h q + b2 before q
        lemma_product_swaps(next, q);
        lemma_product_adds(q, product(b1, h), product(b2, before));
        lemma_product_swaps(q, product(b1, h));
        lemma_product_swaps(q, product(b2, before));
        lemma_product_bound(h, rho, size(h), t);
        lemma_product_swaps(size(h), t);
        assert(k.gain(j) == k.gain(j - 1) + size(h));
        lemma_product_adds(t, k.gain(j - 1), size(h));
    }
}

/// Numbers that each follow from the two before stay within the reach of the
/// first two and of the errors.
proof fn lemma_ring_bound(d: Seq<real>, k: Coefficients, n: int, s: real, t: real, i: int)
    requires
        0 <= i < d.len(),
        i < n,
        0 as real <= s,
        0 as real <= t,
        size(d[0]) <= s,
        i >= 1 ==> size(d[1]) <= s,
        forall|m: int| 2 <= m <= i ==> #[trigger] follows(d, k, t, m),
    ensures
        size(d[i]) <= product(k.reach(n), s + t),
{
    lemma_reach(k, n, s + t);
    if i >= 2 {
        let (g, b) = (k.gain(n), size(k.b2));
        lemma_ring(d, k, t, i, i - 1);
        lemma_gain(k, i - 1, n);
        lemma_gain(k, i - 2, n);
        let (h, before) = (k.response(i - 1), k.response(i - 2));
        lemma_product_bound(h, d[1], g, s);
        lemma_product_bound(k.b2, before, b, g);
        lemma_product_bound(product(k.b2, before), d[0], product(b, g), s);
        lemma_product_grows(t, k.gain(i - 1), g);
        // (1 + b) g = g + b g
        lemma_product_swaps(1 as real + b, g);
        lemma_product_adds(g, 1 as real, b);
        lemma_product_units(g);
        lemma_product_swaps(g, b);
        assert(k.reach(n) == g + product(b, g));
        // (g + b g)(s + t) = g s + b g s + g t + b g t
        lemma_product_adds(k.reach(n), s, t);
        lemma_product_swaps(k.reach(n), s);
        lemma_product_swaps(k.reach(n), t);
        lemma_product_adds(s, g, product(b, g));
        lemma_product_adds(t, g, product(b, g));
        lemma_product_swaps(s, g);
        lemma_product_swaps(s, product(b, g));
        lemma_product_bound(t, product(b, g), t, product(b, g));
    }
}

/// What is multiplied by the reach does not shrink.
proof fn lemma_reach(k: Coefficients, n: int, x: real)
    requires
        n >= 1,
        0 as real <= x,
    ensures
        x <= product(k.reach(n), x),
{
    lemma_gain(k, 0, n);
    lemma_product_grows(k.gain(n), 1 as real, 1 as real + size(k.b2));
    lemma_product_units(k.gain(n));
    lemma_product_grows(x, 1 as real, k.reach(n));
    lemma_product_units(x);
}

/// What a pass swings to is no less than the samples in, and no less than their
/// images at the ends.
pub proof fn lemma_swing_is_wide(k: Coefficients, n: int, t: real, s: real)
    requires
        n >= 1,
        0 as real <= t,
        0 as real <= s,
    ensures
        s <= s + s + s + t,
        s + s + s + t <= k.swing(n, t, s),
{
    let u = s + s + s + t;
    lemma_product_grows(u, 1 as real, 1 as real + k.feed());
    lemma_product_units(u);
    lemma_reach(k, n, product(1 as real + k.feed(), u) + t);
}

// ---- passes ----

/// A signal with images at its ends, each off by `t` at most.
pub open spec fn near_padded(x: Seq<real>, pad: int, t: real, e: Seq<real>) -> bool {
    let n = x.len();
    &&& e.len() == n + 2 * pad
    &&& forall|i: int|
        0 <= i < pad ==> size(#[trigger] e[i] - (x[0] + x[0] - x[pad - i])) <= t
    &&& forall|i: int| pad <= i < pad + n ==> #[trigger] e[i] == x[i - pad]
    &&& forall|i: int|
        pad + n <= i < n + 2 * pad ==> size(
            #[trigger] e[i] - (x[n - 1] + x[n - 1] - x[2 * n - 2 + pad - i]),
        ) <= t
}

/// Whether a sample out is what the filter gives, off by `t` at most.
pub open spec fn near_output(k: Coefficients, t: real, e: Seq<real>, y: Seq<real>, i: int) -> bool {
    size(y[i] - k.output(e[i], e[i - 1], e[i - 2], y[i - 1], y[i - 2])) <= t
}

/// A signal run through a filter: the first two samples stay.
pub open spec fn near_run(k: Coefficients, t: real, e: Seq<real>, y: Seq<real>) -> bool {
    &&& y.len() == e.len()
    &&& y[0] == e[0]
    &&& y[1] == e[1]
    &&& forall|i: int| 2 <= i < y.len() ==> #[trigger] near_output(k, t, e, y, i)
}

/// One pass of a filter over a signal: padded, run through, and cut to length.
pub open spec fn near_pass(
    x: Seq<real>,
    pad: int,
    k: Coefficients,
    t: real,
    e: Seq<real>,
    y: Seq<real>,
    r: Seq<real>,
) -> bool {
    &&& near_padded(x, pad, t, e)
    &&& near_run(k, t, e, y)
    &&& r == y.subrange(pad, pad + x.len())
}

/// Whether a signal is what one pass of a filter makes of another.
pub open spec fn near_passes(
    x: Seq<real>,
    pad: int,
    k: Coefficients,
    t: real,
    r: Seq<real>,
) -> bool {
    exists|e: Seq<real>, y: Seq<real>| #[trigger] near_pass(x, pad, k, t, e, y, r)
}

/// Whether a signal is what a pass forth and one back make of another.
pub open spec fn near_filtered(
    x: Seq<real>,
    pad: int,
    k: Coefficients,
    t: real,
    r: Seq<real>,
) -> bool {
    exists|forth: Seq<real>|
        #![trigger forth.reverse()]
        near_passes(x, pad, k, t, forth) && near_passes(forth.reverse(), pad, k, t, r.reverse())
}

/// The images at the ends of a signal are at most three times as great.
pub proof fn lemma_padded_bound(x: Seq<real>, pad: int, t: real, e: Seq<real>, s: real)
    requires
        1 <= pad < x.len(),
        near_padded(x, pad, t, e),
        0 as real <= t,
        forall|i: int| 0 <= i < x.len() ==> size(#[trigger] x[i]) <= s,
    ensures
        forall|i: int| 0 <= i < e.len() ==> size(#[trigger] e[i]) <= s + s + s + t,
{
    let n = x.len() as int;
    assert(size(x[0]) <= s);
    assert forall|i: int| 0 <= i < e.len() implies size(#[trigger] e[i]) <= s + s + s + t by {
        if i < pad {
            assert(size(e[i] - (x[0] + x[0] - x[pad - i])) <= t);
            assert(size(x[pad - i]) <= s);
        } else if i < pad + n {
            assert(e[i] == x[i - pad]);
            assert(size(x[i - pad]) <= s);
        } else {
            assert(size(e[i] - (x[n - 1] + x[n - 1] - x[2 * n - 2 + pad - i])) <= t);
            assert(size(x[n - 1]) <= s);
            assert(size(x[2 * n - 2 + pad - i]) <= s);
        }
    }
}

/// A sample out stays within the swing of a pass, as far as those before it are
/// what the filter gives.
pub proof fn lemma_output_bound(
    k: Coefficients,
    n: int,
    t: real,
    s: real,
    e: Seq<real>,
    y: Seq<real>,
    i: int,
)
    requires
        0 <= i < n,
        n == e.len(),
        n == y.len(),
        n >= 2,
        0 as real <= t,
        0 as real <= s,
        y[0] == e[0],
        y[1] == e[1],
        forall|m: int| 0 <= m < n ==> size(#[trigger] e[m]) <= s + s + s + t,
        forall|m: int| 2 <= m <= i ==> #[trigger] near_output(k, t, e, y, m),
    ensures
        size(y[i]) <= k.swing(n, t, s),
{
    let u = s + s + s + t;
    let f = product(k.feed(), u) + t;
    let (p, q, r) = (size(k.a0), size(k.a1), size(k.a2));
    lemma_product_swaps(k.feed(), u);
    lemma_product_adds(u, p + q, r);
    lemma_product_adds(u, p, q);
    lemma_product_swaps(u, p);
    lemma_product_swaps(u, q);
    lemma_product_swaps(u, r);
    assert forall|m: int| 2 <= m <= i implies #[trigger] follows(y, k, f, m) by {
        assert(near_output(k, t, e, y, m));
        lemma_product_bound(k.a0, e[m], p, u);
        lemma_product_bound(k.a1, e[m - 1], q, u);
        lemma_product_bound(k.a2, e[m - 2], r, u);
    }
    assert(size(e[0]) <= u && size(e[1]) <= u);
    lemma_product_bound(k.feed(), u, k.feed(), u);
    lemma_ring_bound(y, k, n, u, f, i);
    lemma_product_swaps(1 as real + k.feed(), u);
    lemma_product_adds(u, 1 as real, k.feed());
    lemma_product_units(u);
}

/// What a pass gives stays within its swing.
proof fn lemma_pass_bound(x: Seq<real>, pad: int, k: Coefficients, t: real, r: Seq<real>, s: real)
    requires
        1 <= pad < x.len(),
        near_passes(x, pad, k, t, r),
        0 as real <= t,
        0 as real <= s,
        forall|i: int| 0 <= i < x.len() ==> size(#[trigger] x[i]) <= s,
    ensures
        r.len() == x.len(),
        forall|i: int|
            0 <= i < r.len() ==> size(#[trigger] r[i]) <= k.swing(x.len() + 2 * pad, t, s),
{
    let (e, y) = choose|e: Seq<real>, y: Seq<real>| #[trigger] near_pass(x, pad, k, t, e, y, r);
    lemma_padded_bound(x, pad, t, e, s);
    assert forall|i: int| 0 <= i < r.len() implies size(#[trigger] r[i]) <= k.swing(
        x.len() + 2 * pad,
        t,
        s,
    ) by {
        assert(r[i] == y[pad + i]);
        lemma_output_bound(k, x.len() + 2 * pad, t, s, e, y, pad + i);
    }
}

// ---- combinations ----

/// A combination of two numbers.
pub open spec fn blend(alpha: real, beta: real, x: real, y: real) -> real {
    product(alpha, x) + product(beta, y)
}

/// How far a signal is from a combination of two others.
pub open spec fn residue(
    x: Seq<real>,
    y: Seq<real>,
    z: Seq<real>,
    alpha: real,
    beta: real,
) -> Seq<real> {
    Seq::new(z.len(), |i: int| z[i] - blend(alpha, beta, x[i], y[i]))
}

/// The error of a combination of three numbers that are each off by `t` at most.
pub open spec fn combined(alpha: real, beta: real, t: real) -> real {
    t + product(size(alpha), t) + product(size(beta), t)
}

proof fn lemma_combined(alpha: real, beta: real, t: real, p: real, q: real, r: real)
    requires
        size(p) <= t,
        size(q) <= t,
        size(r) <= t,
    ensures
        size(r - blend(alpha, beta, p, q)) <= combined(alpha, beta, t),
        0 as real <= combined(alpha, beta, t),
{
    lemma_product_bound(alpha, p, size(alpha), t);
    lemma_product_bound(beta, q, size(beta), t);
}

/// A multiple of what is left of a combination.
proof fn lemma_term(c: real, x: real, y: real, z: real, alpha: real, beta: real)
    ensures
        product(c, z - blend(alpha, beta, x, y)) == product(c, z) - blend(
            alpha,
            beta,
            product(c, x),
            product(c, y),
        ),
{
    lemma_product_adds(c, z, blend(alpha, beta, x, y));
    lemma_product_adds(c, product(alpha, x), product(beta, y));
    lemma_product_nests(c, alpha, x);
    lemma_product_swaps(c, alpha);
    lemma_product_nests(alpha, c, x);
    lemma_product_nests(c, beta, y);
    lemma_product_swaps(c, beta);
    lemma_product_nests(beta, c, y);
}

proof fn lemma_sum_of_five(c: real, p: real, q: real, r: real, s: real, t: real)
    ensures
        product(c, p + q + r + s + t) == product(c, p) + product(c, q) + product(c, r) + product(
            c,
            s,
        ) + product(c, t),
{
    lemma_product_adds(c, p + q + r + s, t);
    lemma_product_adds(c, p + q + r, s);
    lemma_product_adds(c, p + q, r);
    lemma_product_adds(c, p, q);
}

/// The residue of samples out is what the filter gives of the residues.
proof fn lemma_output_residue(
    k: Coefficients,
    t: real,
    alpha: real,
    beta: real,
    ex: Seq<real>,
    ey: Seq<real>,
    ez: Seq<real>,
    yx: Seq<real>,
    yy: Seq<real>,
    yz: Seq<real>,
    i: int,
)
    requires
        2 <= i < yz.len(),
        ez.len() == yz.len(),
        near_output(k, t, ex, yx, i),
        near_output(k, t, ey, yy, i),
        near_output(k, t, ez, yz, i),
    ensures
        near_output(
            k,
            combined(alpha, beta, t),
            residue(ex, ey, ez, alpha, beta),
            residue(yx, yy, yz, alpha, beta),
            i,
        ),
{
    let px = k.output(ex[i], ex[i - 1], ex[i - 2], yx[i - 1], yx[i - 2]);
    let py = k.output(ey[i], ey[i - 1], ey[i - 2], yy[i - 1], yy[i - 2]);
    let pz = k.output(ez[i], ez[i - 1], ez[i - 2], yz[i - 1], yz[i - 2]);
    let de = residue(ex, ey, ez, alpha, beta);
    let dy = residue(yx, yy, yz, alpha, beta);
    let pd = k.output(de[i], de[i - 1], de[i - 2], dy[i - 1], dy[i - 2]);
    lemma_term(k.a0, ex[i], ey[i], ez[i], alpha, beta);
    lemma_term(k.a1, ex[i - 1], ey[i - 1], ez[i - 1], alpha, beta);
    lemma_term(k.a2, ex[i - 2], ey[i - 2], ez[i - 2], alpha, beta);
    lemma_term(k.b1, yx[i - 1], yy[i - 1], yz[i - 1], alpha, beta);
    lemma_term(k.b2, yx[i - 2], yy[i - 2], yz[i - 2], alpha, beta);
    lemma_sum_of_five(
        alpha,
        product(k.a0, ex[i]),
        product(k.a1, ex[i - 1]),
        product(k.a2, ex[i - 2]),
        product(k.b1, yx[i - 1]),
        product(k.b2, yx[i - 2]),
    );
    lemma_sum_of_five(
        beta,
        product(k.a0, ey[i]),
        product(k.a1, ey[i - 1]),
        product(k.a2, ey[i - 2]),
        product(k.b1, yy[i - 1]),
        product(k.b2, yy[i - 2]),
    );
    assert(pd == pz - blend(alpha, beta, px, py));
    let (rx, ry, rz) = (yx[i] - px, yy[i] - py, yz[i] - pz);
    lemma_combined(alpha, beta, t, rx, ry, rz);
    lemma_product_adds(alpha, yx[i], px);
    lemma_product_adds(beta, yy[i], py);
    assert(dy[i] - pd == rz - blend(alpha, beta, rx, ry));
}

/// The residue of an image is the image of the residues.
proof fn lemma_image_residue(
    t: real,
    alpha: real,
    beta: real,
    x: (real, real, real),
    y: (real, real, real),
    z: (real, real, real),
)
    requires
        size(x.2 - (x.0 + x.0 - x.1)) <= t,
        size(y.2 - (y.0 + y.0 - y.1)) <= t,
        size(z.2 - (z.0 + z.0 - z.1)) <= t,
    ensures
        size(
            (z.2 - blend(alpha, beta, x.2, y.2)) - ((z.0 - blend(alpha, beta, x.0, y.0)) + (z.0 - blend(
                alpha,
                beta,
                x.0,
                y.0,
            )) - (z.1 - blend(alpha, beta, x.1, y.1))),
        ) <= combined(alpha, beta, t),
{
    let (rx, ry, rz) = (
        x.2 - (x.0 + x.0 - x.1),
        y.2 - (y.0 + y.0 - y.1),
        z.2 - (z.0 + z.0 - z.1),
    );
    lemma_combined(alpha, beta, t, rx, ry, rz);
    lemma_product_adds(alpha, x.2, x.0 + x.0 - x.1);
    lemma_product_adds(alpha, x.0 + x.0, x.1);
    lemma_product_adds(alpha, x.0, x.0);
    lemma_product_adds(beta, y.2, y.0 + y.0 - y.1);
    lemma_product_adds(beta, y.0 + y.0, y.1);
    lemma_product_adds(beta, y.0, y.0);
}

/// The residue of passes over three signals is a pass over their residue.
proof fn lemma_pass_residue(
    x: Seq<real>,
    y: Seq<real>,
    z: Seq<real>,
    pad: int,
    k: Coefficients,
    t: real,
    alpha: real,
    beta: real,
    gx: Seq<real>,
    gy: Seq<real>,
    gz: Seq<real>,
)
    requires
        x.len() == z.len(),
        y.len() == z.len(),
        1 <= pad < z.len(),
        near_passes(x, pad, k, t, gx),
        near_passes(y, pad, k, t, gy),
        near_passes(z, pad, k, t, gz),
    ensures
        gx.len() == z.len(),
        gy.len() == z.len(),
        gz.len() == z.len(),
        near_passes(
            residue(x, y, z, alpha, beta),
            pad,
            k,
            combined(alpha, beta, t),
            residue(gx, gy, gz, alpha, beta),
        ),
{
    let n = z.len() as int;
    let (ex, yx) = choose|e: Seq<real>, w: Seq<real>| #[trigger] near_pass(x, pad, k, t, e, w, gx);
    let (ey, yy) = choose|e: Seq<real>, w: Seq<real>| #[trigger] near_pass(y, pad, k, t, e, w, gy);
    let (ez, yz) = choose|e: Seq<real>, w: Seq<real>| #[trigger] near_pass(z, pad, k, t, e, w, gz);
    let d = residue(x, y, z, alpha, beta);
    let de = residue(ex, ey, ez, alpha, beta);
    let dy = residue(yx, yy, yz, alpha, beta);
    let dg = residue(gx, gy, gz, alpha, beta);
    let u = combined(alpha, beta, t);
    assert forall|i: int| 0 <= i < pad implies size(
        #[trigger] de[i] - (d[0] + d[0] - d[pad - i]),
    ) <= u by {
        assert(size(ex[i] - (x[0] + x[0] - x[pad - i])) <= t);
        assert(size(ey[i] - (y[0] + y[0] - y[pad - i])) <= t);
        assert(size(ez[i] - (z[0] + z[0] - z[pad - i])) <= t);
        lemma_image_residue(
            t,
            alpha,
            beta,
            (x[0], x[pad - i], ex[i]),
            (y[0], y[pad - i], ey[i]),
            (z[0], z[pad - i], ez[i]),
        );
    }
    assert forall|i: int| pad <= i < pad + n implies #[trigger] de[i] == d[i - pad] by {
        assert(ex[i] == x[i - pad]);
        assert(ey[i] == y[i - pad]);
        assert(ez[i] == z[i - pad]);
    }
    assert forall|i: int| pad + n <= i < n + 2 * pad implies size(
        #[trigger] de[i] - (d[n - 1] + d[n - 1] - d[2 * n - 2 + pad - i]),
    ) <= u by {
        let m = 2 * n - 2 + pad - i;
        assert(size(ex[i] - (x[n - 1] + x[n - 1] - x[m])) <= t);
        assert(size(ey[i] - (y[n - 1] + y[n - 1] - y[m])) <= t);
        assert(size(ez[i] - (z[n - 1] + z[n - 1] - z[m])) <= t);
        lemma_image_residue(
            t,
            alpha,
            beta,
            (x[n - 1], x[m], ex[i]),
            (y[n - 1], y[m], ey[i]),
            (z[n - 1], z[m], ez[i]),
        );
    }
    assert(near_padded(d, pad, u, de));
    assert forall|i: int| 2 <= i < dy.len() implies #[trigger] near_output(k, u, de, dy, i) by {
        assert(near_output(k, t, ex, yx, i));
        assert(near_output(k, t, ey, yy, i));
        assert(near_output(k, t, ez, yz, i));
        lemma_output_residue(k, t, alpha, beta, ex, ey, ez, yx, yy, yz, i);
    }
    assert(near_run(k, u, de, dy));
    assert(dg =~= dy.subrange(pad, pad + n));
    assert(near_pass(d, pad, k, u, de, dy, dg));
}

/// A combination of two signals, filtered, is the combination of the two,
/// filtered, but for what the errors of all operations settle to.
pub proof fn lemma_filter_residue(
    x: Seq<real>,
    y: Seq<real>,
    z: Seq<real>,
    pad: int,
    k: Coefficients,
    t: real,
    alpha: real,
    beta: real,
    eta: real,
    fx: Seq<real>,
    fy: Seq<real>,
    fz: Seq<real>,
)
    requires
        x.len() == z.len(),
        y.len() == z.len(),
        1 <= pad < z.len(),
        0 as real <= t,
        0 as real <= eta,
        near_filtered(x, pad, k, t, fx),
        near_filtered(y, pad, k, t, fy),
        near_filtered(z, pad, k, t, fz),
        forall|i: int|
            0 <= i < z.len() ==> size(
                #[trigger] z[i] - blend(alpha, beta, x[i], y[i]),
            ) <= eta,
    ensures
        fx.len() == z.len(),
        fy.len() == z.len(),
        fz.len() == z.len(),
        forall|i: int|
            0 <= i < fz.len() ==> size(
                #[trigger] fz[i] - blend(alpha, beta, fx[i], fy[i]),
            ) <= k.settled(z.len() + 2 * pad, combined(alpha, beta, t), eta),
{
    let n = z.len() + 2 * pad;
    let u = combined(alpha, beta, t);
    let gx = choose|g: Seq<real>|
        #![trigger g.reverse()]
        near_passes(x, pad, k, t, g) && near_passes(g.reverse(), pad, k, t, fx.reverse());
    let gy = choose|g: Seq<real>|
        #![trigger g.reverse()]
        near_passes(y, pad, k, t, g) && near_passes(g.reverse(), pad, k, t, fy.reverse());
    let gz = choose|g: Seq<real>|
        #![trigger g.reverse()]
        near_passes(z, pad, k, t, g) && near_passes(g.reverse(), pad, k, t, fz.reverse());
    lemma_combined(alpha, beta, t, 0 as real, 0 as real, 0 as real);
    lemma_pass_residue(x, y, z, pad, k, t, alpha, beta, gx, gy, gz);
    let d = residue(x, y, z, alpha, beta);
    let dg = residue(gx, gy, gz, alpha, beta);
    assert forall|i: int| 0 <= i < d.len() implies size(#[trigger] d[i]) <= eta by {
        assert(size(z[i] - blend(alpha, beta, x[i], y[i])) <= eta);
    }
    lemma_pass_bound(d, pad, k, u, dg, eta);
    lemma_swing_is_wide(k, n, u, eta);
    lemma_pass_residue(
        gx.reverse(),
        gy.reverse(),
        gz.reverse(),
        pad,
        k,
        t,
        alpha,
        beta,
        fx.reverse(),
        fy.reverse(),
        fz.reverse(),
    );
    let back = residue(gx.reverse(), gy.reverse(), gz.reverse(), alpha, beta);
    let last = residue(fx.reverse(), fy.reverse(), fz.reverse(), alpha, beta);
    let s = k.swing(n, u, eta);
    assert forall|i: int| 0 <= i < back.len() implies size(#[trigger] back[i]) <= s by {
        assert(back[i] == dg[back.len() - 1 - i]);
    }
    lemma_pass_bound(back, pad, k, u, last, s);
    assert forall|i: int| 0 <= i < fz.len() implies size(
        #[trigger] fz[i] - blend(alpha, beta, fx[i], fy[i]),
    ) <= k.settled(n, u, eta) by {
        let m = fz.len() - 1 - i;
        assert(size(last[m]) <= k.settled(n, u, eta));
        assert(last[m] == fz[i] - blend(alpha, beta, fx[i], fy[i]));
    }
}

/// A filter that gives constants back does so exactly where nothing is off.
pub proof fn lemma_constant_is_filtered(c: real, n: int, pad: int, k: Coefficients, t: real)
    requires
        1 <= pad < n,
        0 as real <= t,
        k.keeps_constants(),
    ensures
        near_filtered(
            Seq::new(n as nat, |i: int| c),
            pad,
            k,
            t,
            Seq::new(n as nat, |i: int| c),
        ),
{
    let x = Seq::new(n as nat, |i: int| c);
    let e = Seq::new((n + 2 * pad) as nat, |i: int| c);
    let (a0, a1, a2, b1, b2) = (k.a0, k.a1, k.a2, k.b1, k.b2);
    lemma_sum_of_five(c, a0, a1, a2, b1, b2);
    lemma_product_units(c);
    lemma_product_swaps(c, a0);
    lemma_product_swaps(c, a1);
    lemma_product_swaps(c, a2);
    lemma_product_swaps(c, b1);
    lemma_product_swaps(c, b2);
    assert forall|i: int| 2 <= i < e.len() implies #[trigger] near_output(k, t, e, e, i) by {
        assert(k.output(e[i], e[i - 1], e[i - 2], e[i - 1], e[i - 2]) == c);
    }
    assert(near_padded(x, pad, t, e));
    assert(near_run(k, t, e, e));
    assert(x =~= e.subrange(pad, pad + x.len()));
    assert(near_pass(x, pad, k, t, e, e, x));
    assert(x.reverse() =~= x);
    assert(near_passes(x, pad, k, t, x));
    assert(near_passes(x.reverse(), pad, k, t, x.reverse()));
}

} // verus!
