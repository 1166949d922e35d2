//! 8-node hexahedron: where shape-function gradients go in the strain matrix.

use vstd::prelude::*;

verus! {

/// Which gradient component stands in row `r` of the strain matrix at direction
/// `d` of a node; -1 where the entry is zero. Rows are the strains xx yy zz
/// xy yz xz, shears in the engineering sense.
pub open spec fn strain_component(r: int, d: int) -> int {
    if r < 3 {
        if d == r {
            d
        } else {
            -1
        }
    } else if r == 3 {
        if d == 0 {
            1
        } else if d == 1 {
            0
        } else {
            -1
        }
    } else if r == 4 {
        if d == 1 {
            2
        } else if d == 2 {
            1
        } else {
            -1
        }
    } else if d == 0 {
        2
    } else if d == 2 {
        0
    } else {
        -1
    }
}

/// Small-strain matrix (6 rows of 24, engineering shear) from the gradients of
/// the shape functions.
pub fn b_matrix<T: Copy>(grad: &[[T; 3]; 8], zero: T) -> (b: [[T; 24]; 6])
    ensures
        forall|r: int, i: int, d: int|
            0 <= r < 6 && 0 <= i < 8 && 0 <= d < 3 ==> #[trigger] b@[r]@[3 * i + d] == (
            if strain_component(r, d) < 0 {
                zero
            } else {
                grad@[i]@[strain_component(r, d)]
            }),
{
    let row: [T; 24] = [zero; 24];
    let mut b: [[T; 24]; 6] = [row; 6];
    let mut r: usize = 0;
    while r < 6
        invariant
            r <= 6,
            forall|q: int, i: int, d: int|
                0 <= q < r && 0 <= i < 8 && 0 <= d < 3 ==> #[trigger] b@[q]@[3 * i + d] == (
                if strain_component(q, d) < 0 {
                    zero
                } else {
                    grad@[i]@[strain_component(q, d)]
                }),
        decreases 6 - r,
    {
        let line: [T; 24] = strain_row(grad, zero, r);
        let ghost was = b@;
        b[r] = line;
        assert(b@ == was.update(r as int, line));
        r += 1;
    }
    b
}

fn strain_row<T: Copy>(grad: &[[T; 3]; 8], zero: T, r: usize) -> (line: [T; 24])
    requires
        r < 6,
    ensures
        forall|i: int, d: int|
            0 <= i < 8 && 0 <= d < 3 ==> #[trigger] line@[3 * i + d] == (if strain_component(
                r as int,
                d,
            ) < 0 {
                zero
            } else {
                grad@[i]@[strain_component(r as int, d)]
            }),
{
    let mut line: [T; 24] = [zero; 24];
    let mut i: usize = 0;
    while i < 8
        invariant
            i <= 8,
            r < 6,
            forall|k: int, d: int|
                0 <= k < i && 0 <= d < 3 ==> #[trigger] line@[3 * k + d] == (
                if strain_component(r as int, d) < 0 {
                    zero
                } else {
                    grad@[k]@[strain_component(r as int, d)]
                }),
            forall|j: int| 3 * i <= j < 24 ==> #[trigger] line@[j] == zero,
        decreases 8 - i,
    {
        let n: [T; 3] = grad[i];
        let at: usize = 3 * i;
        let ghost was = line@;
        if r < 3 {
            line[at + r] = n[r];
        } else if r == 3 {
            line[at] = n[1];
            line[at + 1] = n[0];
        } else if r == 4 {
            line[at + 1] = n[2];
            line[at + 2] = n[1];
        } else {
            line[at] = n[2];
            line[at + 2] = n[0];
        }
        assert forall|k: int, d: int| 0 <= k < i + 1 && 0 <= d < 3 implies #[trigger] line@[3 * k
            + d] == (if strain_component(r as int, d) < 0 {
            zero
        } else {
            grad@[k]@[strain_component(r as int, d)]
        }) by {
            if k < i {
                assert(line@[3 * k + d] == was[3 * k + d]);
            } else {
                assert(d == 0 || d == 1 || d == 2);
                assert(was[at as int] == zero && was[at + 1] == zero && was[at + 2] == zero);
            }
        }
        i += 1;
    }
    line
}

/// The strain matrix pairs each strain with its two directions: a normal strain
/// takes the gradient along its own axis there, and a shear of two axes takes at
/// each of the two the gradient along the other.
pub proof fn law_strains_pair_their_axes(r: int, d: int)
    requires
        0 <= r < 6,
        0 <= d < 3,
    ensures
        ({
            let (p, q): (int, int) = if r < 3 {
                (r, r)
            } else if r == 3 {
                (0, 1)
            } else if r == 4 {
                (1, 2)
            } else {
                (0, 2)
            };
            &&& strain_component(r, p) == q && strain_component(r, q) == p
            &&& strain_component(r, d) >= 0 ==> d == p || d == q
            &&& d != p && d != q ==> strain_component(r, d) < 0
        }),
{
}

} // verus!
