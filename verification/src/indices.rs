//! Lists of indices: ranges, membership and ascending sets.

use vstd::prelude::*;

verus! {

/// The indices `from..to`.
pub open spec fn index_range(from: int, to: int) -> Seq<usize> {
    Seq::new((to - from) as nat, |i: int| (from + i) as usize)
}

/// Whether a list is in ascending order without repeats.
pub open spec fn ascending(s: Seq<usize>) -> bool {
    forall|i: int, j: int| 0 <= i < j < s.len() ==> #[trigger] s[i] < #[trigger] s[j]
}

/// Two ascending lists with the same members are the same list.
pub proof fn law_ascending_is_canonical(a: Seq<usize>, b: Seq<usize>)
    requires
        ascending(a),
        ascending(b),
        forall|x: usize| a.contains(x) <==> b.contains(x),
    ensures
        a == b,
    decreases a.len(),
{
    if a.len() == 0 {
        if b.len() > 0 {
            assert(b.contains(b[0]));
            assert(a.contains(b[0]));
        }
        assert(a =~= b);
    } else {
        assert(a.contains(a.last()));
        assert(b.contains(a.last()));
        assert(b.len() > 0);
        assert(b.contains(b.last()));
        assert(a.contains(b.last()));
        let i = choose|i: int| 0 <= i < b.len() && b[i] == a.last();
        let j = choose|j: int| 0 <= j < a.len() && a[j] == b.last();
        if i < b.len() - 1 {
            assert(b[i] < b[b.len() - 1]);
            if j < a.len() - 1 {
                assert(a[j] < a[a.len() - 1]);
            }
        }
        assert(a.last() == b.last());
        let p = a.drop_last();
        let q = b.drop_last();
        assert forall|x: usize| p.contains(x) <==> q.contains(x) by {
            if p.contains(x) {
                let k = choose|k: int| 0 <= k < p.len() && p[k] == x;
                assert(a[k] == x && a[k] < a[a.len() - 1]);
                assert(a.contains(x));
                let m = choose|m: int| 0 <= m < b.len() && b[m] == x;
                assert(q[m] == x);
            }
            if q.contains(x) {
                let k = choose|k: int| 0 <= k < q.len() && q[k] == x;
                assert(b[k] == x && b[k] < b[b.len() - 1]);
                assert(b.contains(x));
                let m = choose|m: int| 0 <= m < a.len() && a[m] == x;
                assert(p[m] == x);
            }
        }
        law_ascending_is_canonical(p, q);
        assert(a =~= p.push(a.last()));
        assert(b =~= q.push(b.last()));
    }
}

/// The indices `from..to`.
pub fn range(from: usize, to: usize) -> (r: Vec<usize>)
    requires
        from <= to,
    ensures
        r@ == index_range(from as int, to as int),
{
    let mut r: Vec<usize> = Vec::new();
    let mut i: usize = from;
    while i < to
        invariant
            from <= i <= to,
            r@ =~= index_range(from as int, i as int),
        decreases to - i,
    {
        r.push(i);
        i += 1;
    }
    r
}

/// Whether a list holds an index.
pub fn holds(s: &[usize], x: usize) -> (b: bool)
    ensures
        b == s@.contains(x),
{
    let mut i: usize = 0;
    while i < s.len()
        invariant
            i <= s.len(),
            forall|k: int| 0 <= k < i ==> s@[k] != x,
        decreases s.len() - i,
    {
        if s[i] == x {
            return true;
        }
        i += 1;
    }
    false
}

/// A copy of a list of indices.
pub fn copy_of(s: &Vec<usize>) -> (r: Vec<usize>)
    ensures
        r@ == s@,
{
    let mut r: Vec<usize> = Vec::new();
    let mut i: usize = 0;
    while i < s.len()
        invariant
            i <= s.len(),
            r@ =~= s@.take(i as int),
        decreases s.len() - i,
    {
        r.push(s[i]);
        i += 1;
    }
    r
}

/// First position of an ascending list whose entry is not below `x`.
pub fn lower_bound(s: &Vec<usize>, x: usize) -> (at: usize)
    requires
        ascending(s@),
    ensures
        at <= s.len(),
        forall|i: int| 0 <= i < at ==> s@[i] < x,
        forall|i: int| at <= i < s.len() ==> s@[i] >= x,
{
    let mut lo: usize = 0;
    let mut hi: usize = s.len();
    while lo < hi
        invariant
            lo <= hi <= s.len(),
            ascending(s@),
            forall|i: int| 0 <= i < lo ==> s@[i] < x,
            forall|i: int| hi <= i < s.len() ==> s@[i] >= x,
        decreases hi - lo,
    {
        let mid: usize = lo + (hi - lo) / 2;
        if s[mid] < x {
            assert forall|i: int| 0 <= i < mid + 1 implies s@[i] < x by {
                if i < mid {
                    assert(s@[i] < s@[mid as int]);
                }
            }
            lo = mid + 1;
        } else {
            assert forall|i: int| mid <= i < s.len() implies s@[i] >= x by {
                if i > mid {
                    assert(s@[mid as int] < s@[i]);
                }
            }
            hi = mid;
        }
    }
    lo
}

/// Adds an index to an ascending set.
pub fn insert_sorted(s: &mut Vec<usize>, x: usize)
    requires
        ascending(old(s)@),
    ensures
        ascending(final(s)@),
        forall|y: usize| #[trigger] final(s)@.contains(y) <==> old(s)@.contains(y) || y == x,
{
    let at: usize = lower_bound(s, x);
    let ghost before = s@;
    if at < s.len() && s[at] == x {
        assert(before.contains(x));
    } else {
        s.insert(at, x);
        assert(s@ == before.insert(at as int, x));
        assert forall|i: int, j: int| 0 <= i < j < s@.len() implies #[trigger] s@[i]
            < #[trigger] s@[j] by {
            let p = if i < at {
                i
            } else {
                i - 1
            };
            let q = if j < at {
                j
            } else {
                j - 1
            };
            if i != at && j != at {
                assert(before[p] < before[q]);
            } else if i == at {
                assert(before[q] >= x);
                if at < before.len() && q > at {
                    assert(before[at as int] < before[q]);
                }
            }
        }
        assert forall|y: usize| #[trigger] s@.contains(y) <==> before.contains(y) || y == x by {
            if s@.contains(y) {
                let k = choose|k: int| 0 <= k < s@.len() && s@[k] == y;
                if k < at {
                    assert(before[k] == y);
                } else if k > at {
                    assert(before[k - 1] == y);
                }
            }
            if before.contains(y) {
                let k = choose|k: int| 0 <= k < before.len() && before[k] == y;
                if k < at {
                    assert(s@[k] == y);
                } else {
                    assert(s@[k + 1] == y);
                }
            }
            assert(s@[at as int] == x);
        }
    }
}

/// Adds several indices to an ascending set.
pub fn insert_all<const N: usize>(s: &mut Vec<usize>, xs: &[usize; N])
    requires
        ascending(old(s)@),
    ensures
        ascending(final(s)@),
        forall|y: usize| #[trigger] final(s)@.contains(y) <==> old(s)@.contains(y) || xs@.contains(y),
{
    let mut i: usize = 0;
    let ghost before = s@;
    while i < N
        invariant
            i <= N,
            ascending(s@),
            forall|y: usize|
                #[trigger] s@.contains(y) <==> before.contains(y) || xs@.take(i as int).contains(
                    y,
                ),
        decreases N - i,
    {
        let ghost was = s@;
        insert_sorted(s, xs[i]);
        assert forall|y: usize|
            #[trigger] s@.contains(y) <==> before.contains(y) || xs@.take(i + 1).contains(y) by {
            let old_part = xs@.take(i as int);
            let new_part = xs@.take(i + 1);
            assert(xs@.len() == N);
            assert(s@.contains(y) <==> was.contains(y) || y == xs@[i as int]);
            assert(was.contains(y) <==> before.contains(y) || old_part.contains(y));
            if old_part.contains(y) {
                let k = choose|k: int| 0 <= k < old_part.len() && old_part[k] == y;
                assert(new_part[k] == y);
            }
            assert(new_part[i as int] == xs@[i as int]);
            if new_part.contains(y) {
                let k = choose|k: int| 0 <= k < new_part.len() && new_part[k] == y;
                if k < i {
                    assert(old_part[k] == y);
                }
            }
        }
        i += 1;
    }
    assert(xs@.take(N as int) =~= xs@);
}

/// The places among the first `n` at which something holds.
pub open spec fn places_where(n: int, holds: spec_fn(int) -> bool) -> Seq<int>
    decreases n,
{
    if n <= 0 {
        Seq::empty()
    } else if holds(n - 1) {
        places_where(n - 1, holds).push(n - 1)
    } else {
        places_where(n - 1, holds)
    }
}

/// The places at which something holds are ascending, hold what they should, and
/// none is left out.
pub proof fn law_places_where(n: int, holds: spec_fn(int) -> bool)
    ensures
        n >= 0 ==> places_where(n, holds).len() <= n,
        forall|j: int|
            0 <= j < places_where(n, holds).len() ==> 0 <= #[trigger] places_where(n, holds)[j] < n
                && holds(places_where(n, holds)[j]),
        forall|i: int, j: int|
            0 <= i < j < places_where(n, holds).len() ==> #[trigger] places_where(n, holds)[i]
                < #[trigger] places_where(n, holds)[j],
        forall|i: int| 0 <= i < n && #[trigger] holds(i) ==> places_where(n, holds).contains(i),
    decreases n,
{
    if n > 0 {
        law_places_where(n - 1, holds);
        let before = places_where(n - 1, holds);
        let after = places_where(n, holds);
        assert forall|i: int| 0 <= i < n && #[trigger] holds(i) implies after.contains(i) by {
            if i < n - 1 {
                let j = choose|j: int| 0 <= j < before.len() && before[j] == i;
                assert(after[j] == i);
            } else {
                assert(after.last() == i);
            }
        }
    }
}

/// Whether a list is what stands at the places among the first `n` at which
/// something holds: as many, and each in its turn.
pub open spec fn is_picked<A>(
    list: Seq<A>,
    n: int,
    holds: spec_fn(int) -> bool,
    item: spec_fn(int) -> A,
) -> bool {
    let places = places_where(n, holds);
    &&& list.len() == places.len()
    &&& forall|j: int| 0 <= j < list.len() ==> #[trigger] list[j] == item(places[j])
}

/// One more item, where it holds.
pub proof fn lemma_picked_grows<A>(
    list: Seq<A>,
    n: int,
    holds: spec_fn(int) -> bool,
    item: spec_fn(int) -> A,
)
    requires
        n >= 0,
        is_picked(list, n, holds, item),
    ensures
        holds(n) ==> is_picked(list.push(item(n)), n + 1, holds, item),
        !holds(n) ==> is_picked(list, n + 1, holds, item),
{
    let (before, after) = (places_where(n, holds), places_where(n + 1, holds));
    if holds(n) {
        assert(after =~= before.push(n));
        let more = list.push(item(n));
        assert forall|j: int| 0 <= j < more.len() implies #[trigger] more[j] == item(after[j]) by {
            if j < list.len() {
                assert(list[j] == item(before[j]));
            }
        }
    }
}

/// A range holds the indices from its start to before its end, and no others, in
/// ascending order.
pub proof fn law_range_holds_its_indices(from: usize, to: usize, x: usize)
    requires
        from <= to,
    ensures
        index_range(from as int, to as int).contains(x) <==> from <= x < to,
        ascending(index_range(from as int, to as int)),
{
    let s = index_range(from as int, to as int);
    if from <= x < to {
        assert(s[x - from] == x);
    }
}

} // verus!
