//! Element storage: which kernel an element runs through, where its nodes'
//! degrees of freedom are, and what the time step allows.

use crate::indices::{ascending, is_picked, lemma_picked_grows, places_where};
use crate::material::{Material, PlasticModel};
use crate::number::Real;
use vstd::prelude::*;

verus! {

/// Which material state an element carries.
#[derive(Clone, Copy, Debug, PartialEq, Eq, Structural)]
pub enum StateKind {
    /// Corotational rate form (honeycomb).
    Rate,
    /// Finite-strain Hencky plasticity.
    Hencky,
    Elastic,
}

impl StateKind {
    pub open spec fn spec_of(m: Material) -> StateKind {
        match m.plasticity {
            Some(p) => if p.model is Honeycomb {
                StateKind::Rate
            } else {
                StateKind::Hencky
            },
            None => StateKind::Elastic,
        }
    }

    /// The state that an element of a material carries.
    pub fn of(m: &Material) -> (k: StateKind)
        ensures
            k == StateKind::spec_of(*m),
    {
        match &m.plasticity {
            Some(p) => match p.model {
                PlasticModel::Honeycomb => StateKind::Rate,
                _ => StateKind::Hencky,
            },
            None => StateKind::Elastic,
        }
    }
}

/// The elements of the lane kernel and those of the scalar path.
#[derive(Clone, Debug)]
pub struct Split {
    pub simd_ids: Vec<usize>,
    pub scalar_ids: Vec<usize>,
}

/// Whether an element runs through the lane kernel: it is honeycomb and the
/// kernel is enabled.
pub open spec fn in_lanes(
    materials: Seq<Material>,
    hex_part: Seq<usize>,
    simd: bool,
    e: int,
) -> bool {
    simd && StateKind::spec_of(materials[hex_part[e] as int]) is Rate
}

/// The elements among the first `n` that do, or do not, run through the lane
/// kernel.
pub open spec fn picked(
    materials: Seq<Material>,
    hex_part: Seq<usize>,
    simd: bool,
    lanes: bool,
    n: int,
) -> Seq<usize>
    decreases n,
{
    if n <= 0 {
        Seq::empty()
    } else {
        let before = picked(materials, hex_part, simd, lanes, n - 1);
        if in_lanes(materials, hex_part, simd, n - 1) == lanes {
            before.push((n - 1) as usize)
        } else {
            before
        }
    }
}

/// Splits the elements between the lane kernel and the scalar path, each in
/// their order.
pub fn split_elements(materials: &Vec<Material>, hex_part: &Vec<usize>, simd: bool) -> (r: Split)
    requires
        forall|e: int|
            0 <= e < hex_part@.len() ==> #[trigger] hex_part@[e] < materials@.len(),
    ensures
        r.simd_ids@ == picked(materials@, hex_part@, simd, true, hex_part@.len() as int),
        r.scalar_ids@ == picked(materials@, hex_part@, simd, false, hex_part@.len() as int),
{
    let mut simd_ids: Vec<usize> = Vec::new();
    let mut scalar_ids: Vec<usize> = Vec::new();
    let mut e: usize = 0;
    while e < hex_part.len()
        invariant
            e <= hex_part@.len(),
            forall|e: int|
                0 <= e < hex_part@.len() ==> #[trigger] hex_part@[e] < materials@.len(),
            simd_ids@ == picked(materials@, hex_part@, simd, true, e as int),
            scalar_ids@ == picked(materials@, hex_part@, simd, false, e as int),
        decreases hex_part.len() - e,
    {
        assert(hex_part@[e as int] < materials@.len());
        let rate: bool = StateKind::of(&materials[hex_part[e]]) == StateKind::Rate;
        if simd && rate {
            simd_ids.push(e);
        } else {
            scalar_ids.push(e);
        }
        e += 1;
    }
    Split { simd_ids, scalar_ids }
}

/// Every element is in one of the two lists, in one of them alone, and each
/// list is ascending.
pub proof fn law_split_is_a_partition(
    materials: Seq<Material>,
    hex_part: Seq<usize>,
    simd: bool,
    n: int,
)
    requires
        0 <= n <= usize::MAX,
    ensures
        ascending(picked(materials, hex_part, simd, true, n)),
        ascending(picked(materials, hex_part, simd, false, n)),
        forall|e: usize| #[trigger]
            picked(materials, hex_part, simd, true, n).contains(e) <==> e < n && in_lanes(
                materials,
                hex_part,
                simd,
                e as int,
            ),
        forall|e: usize| #[trigger]
            picked(materials, hex_part, simd, false, n).contains(e) <==> e < n && !in_lanes(
                materials,
                hex_part,
                simd,
                e as int,
            ),
        picked(materials, hex_part, simd, true, n).len() + picked(
            materials,
            hex_part,
            simd,
            false,
            n,
        ).len() == n,
    decreases n,
{
    if n > 0 {
        law_split_is_a_partition(materials, hex_part, simd, n - 1);
        lemma_picked(materials, hex_part, simd, true, n);
        lemma_picked(materials, hex_part, simd, false, n);
    }
}

proof fn lemma_picked(
    materials: Seq<Material>,
    hex_part: Seq<usize>,
    simd: bool,
    lanes: bool,
    n: int,
)
    requires
        0 < n <= usize::MAX,
        ascending(picked(materials, hex_part, simd, lanes, n - 1)),
        forall|e: usize| #[trigger]
            picked(materials, hex_part, simd, lanes, n - 1).contains(e) <==> e < n - 1
                && in_lanes(materials, hex_part, simd, e as int) == lanes,
    ensures
        ascending(picked(materials, hex_part, simd, lanes, n)),
        forall|e: usize| #[trigger]
            picked(materials, hex_part, simd, lanes, n).contains(e) <==> e < n && in_lanes(
                materials,
                hex_part,
                simd,
                e as int,
            ) == lanes,
{
    let before = picked(materials, hex_part, simd, lanes, n - 1);
    let after = picked(materials, hex_part, simd, lanes, n);
    if in_lanes(materials, hex_part, simd, n - 1) == lanes {
        assert forall|i: int, j: int| 0 <= i < j < after.len() implies #[trigger] after[i]
            < #[trigger] after[j] by {
            assert(before.contains(before[i]));
            if j < before.len() {
                assert(before[i] < before[j]);
            }
        }
        assert forall|e: usize| #[trigger] after.contains(e) <==> e < n && in_lanes(
            materials,
            hex_part,
            simd,
            e as int,
        ) == lanes by {
            if after.contains(e) {
                let k = choose|k: int| 0 <= k < after.len() && after[k] == e;
                if k < before.len() {
                    assert(before.contains(e)) by {
                        assert(before[k] == e);
                    }
                }
            }
            if before.contains(e) {
                let k = choose|k: int| 0 <= k < before.len() && before[k] == e;
                assert(after[k] == e);
            }
            assert(after[before.len() as int] == n - 1);
            if e < n - 1 && in_lanes(materials, hex_part, simd, e as int) == lanes {
                assert(before.contains(e));
            }
        }
    } else {
        assert forall|e: usize| #[trigger] after.contains(e) <==> e < n && in_lanes(
            materials,
            hex_part,
            simd,
            e as int,
        ) == lanes by {
            assert(before.contains(e) <==> e < n - 1 && in_lanes(
                materials,
                hex_part,
                simd,
                e as int,
            ) == lanes);
        }
    }
}

/// Where the three components of each of an element's nodes are in a vector of
/// all degrees of freedom.
pub fn element_dofs(conn: &[usize; 8]) -> (r: Vec<usize>)
    requires
        forall|i: int| 0 <= i < 8 ==> 3 * (#[trigger] conn@[i]) + 2 <= usize::MAX,
    ensures
        r@.len() == 24,
        forall|i: int, d: int|
            0 <= i < 8 && 0 <= d < 3 ==> #[trigger] r@[3 * i + d] == 3 * conn@[i] + d,
{
    let mut r: Vec<usize> = Vec::new();
    let mut i: usize = 0;
    while i < 8
        invariant
            i <= 8,
            forall|i: int| 0 <= i < 8 ==> 3 * (#[trigger] conn@[i]) + 2 <= usize::MAX,
            r@.len() == 3 * i,
            forall|k: int, d: int|
                0 <= k < i && 0 <= d < 3 ==> #[trigger] r@[3 * k + d] == 3 * conn@[k] + d,
        decreases 8 - i,
    {
        assert(3 * conn@[i as int] + 2 <= usize::MAX);
        r.push(3 * conn[i]);
        r.push(3 * conn[i] + 1);
        r.push(3 * conn[i] + 2);
        i += 1;
    }
    r
}

/// What an element's geometry says of the time step: its characteristic length,
/// its volume, and the step that the length allows.
#[derive(Clone, Copy, Debug)]
pub struct StepLimit {
    pub length: Real,
    pub volume: Real,
    pub step: Real,
}

/// Whether an element limits the time step: it is not eroded, its length is
/// finite and its volume positive.
pub open spec fn counts(eroded: bool, l: StepLimit) -> bool {
    !eroded && l.length.finite() && Real::spec_zero().below(l.volume)
}

/// The least step that the first `n` elements allow.
pub open spec fn least_step(eroded: Seq<bool>, limits: Seq<StepLimit>, n: int) -> Real
    decreases n,
{
    if n <= 0 {
        Real::spec_infinity()
    } else {
        let before = least_step(eroded, limits, n - 1);
        if counts(eroded[n - 1], limits[n - 1]) {
            before.lesser(limits[n - 1].step)
        } else {
            before
        }
    }
}

/// Explicit stability limit: the least step that an element allows, where one
/// does.
pub fn stable_time_step(eroded: &Vec<bool>, limits: &Vec<StepLimit>) -> (r: Option<Real>)
    requires
        eroded@.len() == limits@.len(),
    ensures
        ({
            let least = least_step(eroded@, limits@, limits@.len() as int);
            r == if least.finite() {
                Some(least)
            } else {
                None
            }
        }),
{
    let mut dt: Real = Real::infinity();
    let mut e: usize = 0;
    while e < limits.len()
        invariant
            e <= limits@.len(),
            eroded@.len() == limits@.len(),
            dt == least_step(eroded@, limits@, e as int),
        decreases limits.len() - e,
    {
        let l: StepLimit = limits[e];
        if !eroded[e] && l.length.is_finite() && Real::zero().lt(l.volume) {
            dt = dt.min(l.step);
        }
        e += 1;
    }
    if dt.is_finite() {
        Some(dt)
    } else {
        None
    }
}

/// No element that limits the time step allows less than the stability limit.
pub proof fn law_stable_step_suits_every_element(
    eroded: Seq<bool>,
    limits: Seq<StepLimit>,
    n: int,
    e: int,
)
    requires
        0 <= e < n <= limits.len(),
        eroded.len() == limits.len(),
        forall|i: int| 0 <= i < limits.len() ==> !(#[trigger] limits[i]).step.nan(),
        counts(eroded[e], limits[e]),
    ensures
        !least_step(eroded, limits, n).nan(),
        least_step(eroded, limits, n).order() <= limits[e].step.order(),
    decreases n,
{
    assert(!limits[n - 1].step.nan());
    lemma_least_step(eroded, limits, n - 1);
    if e < n - 1 {
        law_stable_step_suits_every_element(eroded, limits, n - 1, e);
    }
}

proof fn lemma_least_step(eroded: Seq<bool>, limits: Seq<StepLimit>, n: int)
    requires
        0 <= n <= limits.len(),
        forall|i: int| 0 <= i < limits.len() ==> !(#[trigger] limits[i]).step.nan(),
    ensures
        !least_step(eroded, limits, n).nan(),
    decreases n,
{
    if n > 0 {
        assert(!limits[n - 1].step.nan());
        lemma_least_step(eroded, limits, n - 1);
    }
}

// ---- assembly ----

/// Values added one after the other into a list, each at its place: what the
/// list is before, between and after the additions.
pub open spec fn is_accumulation<T, F: Fn(T, T) -> T>(
    plus: F,
    places: Seq<usize>,
    values: Seq<T>,
    states: Seq<Seq<T>>,
) -> bool {
    &&& states.len() == places.len() + 1
    &&& forall|i: int|
        0 <= i < places.len() ==> {
            let at = #[trigger] places[i] as int;
            &&& states[i + 1] == states[i].update(at, states[i + 1][at])
            &&& call_ensures(plus, (states[i][at], values[i]), states[i + 1][at])
        }
}

/// Adds values into a list, each at its place: the forces of an element into
/// those of all degrees of freedom, or its masses into those of all nodes.
pub fn accumulate<T: Copy, F: Fn(T, T) -> T>(
    plus: &F,
    places: &Vec<usize>,
    values: &Vec<T>,
    into: &mut Vec<T>,
)
    requires
        places@.len() == values@.len(),
        forall|i: int| 0 <= i < places@.len() ==> #[trigger] places@[i] < old(into)@.len(),
        forall|a: T, b: T| #[trigger] call_requires(*plus, (a, b)),
    ensures
        exists|states: Seq<Seq<T>>|
            {
                &&& #[trigger] is_accumulation(*plus, places@, values@, states)
                &&& states[0] == old(into)@
                &&& states[places@.len() as int] == final(into)@
            },
        final(into)@.len() == old(into)@.len(),
        forall|k: int|
            0 <= k < old(into)@.len() && !places@.contains(k as usize) ==> (#[trigger] final(into)@[k])
                == old(into)@[k],
{
    let ghost start = into@;
    let mut states: Ghost<Seq<Seq<T>>> = Ghost(Seq::empty().push(into@));
    let mut i: usize = 0;
    while i < places.len()
        invariant
            i <= places@.len(),
            places@.len() == values@.len(),
            into@.len() == start.len(),
            forall|i: int| 0 <= i < places@.len() ==> #[trigger] places@[i] < start.len(),
            forall|a: T, b: T| #[trigger] call_requires(*plus, (a, b)),
            states@.len() == i + 1,
            states@[0] == start,
            states@[i as int] == into@,
            forall|j: int|
                0 <= j < i ==> {
                    let at = #[trigger] places@[j] as int;
                    &&& states@[j + 1] == states@[j].update(at, states@[j + 1][at])
                    &&& call_ensures(*plus, (states@[j][at], values@[j]), states@[j + 1][at])
                },
            forall|k: int|
                0 <= k < start.len() && !places@.contains(k as usize) ==> #[trigger] into@[k]
                    == start[k],
        decreases places.len() - i,
    {
        let at: usize = places[i];
        assert(places@[i as int] < start.len());
        assert(places@.contains(at));
        let ghost before = states@;
        let sum: T = plus(into[at], values[i]);
        into.set(at, sum);
        proof {
            states@ = states@.push(into@);
            assert forall|j: int| 0 <= j < i + 1 implies {
                let at = #[trigger] places@[j] as int;
                &&& states@[j + 1] == states@[j].update(at, states@[j + 1][at])
                &&& call_ensures(*plus, (states@[j][at], values@[j]), states@[j + 1][at])
            } by {
                assert(states@[j] == before[j]);
                if j < i {
                    assert(states@[j + 1] == before[j + 1]);
                }
            }
        }
        i += 1;
    }
    assert(is_accumulation(*plus, places@, values@, states@));
}

// ---- erosion on the scalar path ----

/// How many of a list of flags are set.
pub open spec fn flags_set(flags: Seq<bool>) -> int
    decreases flags.len(),
{
    if flags.len() == 0 {
        0
    } else {
        flags_set(flags.drop_last()) + (if flags.last() {
            1int
        } else {
            0
        })
    }
}

proof fn lemma_flag_set(flags: Seq<bool>, at: int)
    requires
        0 <= at < flags.len(),
    ensures
        flags_set(flags.update(at, true)) == flags_set(flags) + (if flags[at] {
            0int
        } else {
            1
        }),
    decreases flags.len(),
{
    let after = flags.update(at, true);
    if at == flags.len() - 1 {
        assert(after.drop_last() =~= flags.drop_last());
    } else {
        assert(after.drop_last() =~= flags.drop_last().update(at, true));
        lemma_flag_set(flags.drop_last(), at);
    }
}

/// The flags after the first `k` of a list of elements were looked at: one that
/// has inverted is eroded.
pub open spec fn eroded_with(
    eroded: Seq<bool>,
    ids: Seq<usize>,
    inverted: Seq<bool>,
    k: int,
) -> Seq<bool>
    decreases k,
{
    if k <= 0 {
        eroded
    } else {
        let before = eroded_with(eroded, ids, inverted, k - 1);
        if inverted[k - 1] {
            before.update(ids[k - 1] as int, true)
        } else {
            before
        }
    }
}

/// Marks the elements that have inverted as eroded, and gives how many were not
/// eroded before.
pub fn erode_inverted(ids: &Vec<usize>, inverted: &Vec<bool>, eroded: &mut Vec<bool>) -> (n: usize)
    requires
        ids@.len() == inverted@.len(),
        forall|i: int| 0 <= i < ids@.len() ==> #[trigger] ids@[i] < old(eroded)@.len(),
    ensures
        final(eroded)@ == eroded_with(old(eroded)@, ids@, inverted@, ids@.len() as int),
        final(eroded)@.len() == old(eroded)@.len(),
        flags_set(final(eroded)@) == flags_set(old(eroded)@) + n,
{
    let ghost start = eroded@;
    let mut n: usize = 0;
    let mut i: usize = 0;
    while i < ids.len()
        invariant
            i <= ids@.len(),
            ids@.len() == inverted@.len(),
            n <= i,
            eroded@.len() == start.len(),
            forall|i: int| 0 <= i < ids@.len() ==> #[trigger] ids@[i] < start.len(),
            eroded@ == eroded_with(start, ids@, inverted@, i as int),
            flags_set(eroded@) == flags_set(start) + n,
        decreases ids.len() - i,
    {
        let e: usize = ids[i];
        assert(ids@[i as int] < start.len());
        if inverted[i] {
            proof {
                lemma_flag_set(eroded@, e as int);
            }
            if !eroded[e] {
                n += 1;
            }
            eroded.set(e, true);
        }
        i += 1;
    }
    n
}

/// After a step an element is eroded if it was so before or has inverted, and
/// then alone.
pub proof fn law_inverted_elements_erode(
    eroded: Seq<bool>,
    ids: Seq<usize>,
    inverted: Seq<bool>,
    k: int,
    e: int,
)
    requires
        0 <= k <= ids.len(),
        ids.len() == inverted.len(),
        forall|i: int| 0 <= i < ids.len() ==> #[trigger] ids[i] < eroded.len(),
        0 <= e < eroded.len(),
    ensures
        eroded_with(eroded, ids, inverted, k).len() == eroded.len(),
        eroded_with(eroded, ids, inverted, k)[e] <==> eroded[e] || exists|i: int|
            0 <= i < k && #[trigger] ids[i] == e && inverted[i],
    decreases k,
{
    if k > 0 {
        law_inverted_elements_erode(eroded, ids, inverted, k - 1, e);
        assert(ids[k - 1] < eroded.len());
    }
}

// ---- mass scaling ----

/// Whether an element asks for a step below the floor: it is not eroded, and
/// its own step is positive and below.
pub open spec fn asks_less(eroded: bool, step: Real, floor: Real) -> bool {
    !eroded && step.finite() && Real::spec_zero().below(step) && step.below(floor)
}

/// The elements among the first `n` that ask for a step below the floor.
pub open spec fn asking_less(
    eroded: Seq<bool>,
    limits: Seq<StepLimit>,
    floor: Real,
    n: int,
) -> Seq<usize>
    decreases n,
{
    if n <= 0 {
        Seq::empty()
    } else {
        let before = asking_less(eroded, limits, floor, n - 1);
        if asks_less(eroded[n - 1], limits[n - 1].step, floor) {
            before.push((n - 1) as usize)
        } else {
            before
        }
    }
}

/// The elements that mass is added to so that they allow a step, in their
/// order.
pub fn mass_scaling(eroded: &Vec<bool>, limits: &Vec<StepLimit>, floor: Real) -> (r: Vec<usize>)
    requires
        eroded@.len() == limits@.len(),
    ensures
        r@ == asking_less(eroded@, limits@, floor, limits@.len() as int),
{
    let mut r: Vec<usize> = Vec::new();
    let mut e: usize = 0;
    while e < limits.len()
        invariant
            e <= limits@.len(),
            eroded@.len() == limits@.len(),
            r@ == asking_less(eroded@, limits@, floor, e as int),
        decreases limits.len() - e,
    {
        let step: Real = limits[e].step;
        if !eroded[e] && step.is_finite() && Real::zero().lt(step) && step.lt(floor) {
            r.push(e);
        }
        e += 1;
    }
    r
}

/// No mass is added where the stability limit is not below the floor.
pub proof fn law_no_mass_above_the_floor(
    eroded: Seq<bool>,
    limits: Seq<StepLimit>,
    floor: Real,
    n: int,
)
    requires
        0 <= n <= limits.len(),
        eroded.len() == limits.len(),
        !floor.nan(),
        forall|i: int| 0 <= i < limits.len() ==> !(#[trigger] limits[i]).step.nan(),
        forall|i: int|
            0 <= i < limits.len() && !eroded[i] ==> counts(eroded[i], #[trigger] limits[i]),
        !least_step(eroded, limits, n).below(floor),
    ensures
        asking_less(eroded, limits, floor, n).len() == 0,
    decreases n,
{
    if n > 0 {
        let (l, before) = (limits[n - 1], least_step(eroded, limits, n - 1));
        assert(!l.step.nan());
        lemma_least_step(eroded, limits, n - 1);
        lemma_least_step(eroded, limits, n);
        law_no_mass_above_the_floor(eroded, limits, floor, n - 1);
    }
}

// ---- what the lists and limits are for ----

/// An element carries the rate state where its material is a honeycomb, the
/// finite-strain state where it is plastic otherwise, and none of them where it
/// is not plastic.
pub proof fn law_states_follow_the_material(m: Material)
    ensures
        m.plasticity is None <==> StateKind::spec_of(m) is Elastic,
        m.plasticity is Some && m.plasticity->0.model is Honeycomb <==> StateKind::spec_of(
            m,
        ) is Rate,
        m.plasticity is Some && !(m.plasticity->0.model is Honeycomb) <==> StateKind::spec_of(
            m,
        ) is Hencky,
{
}

/// The elements whose material is a honeycomb.
pub open spec fn honeycombs(materials: Seq<Material>, hex_part: Seq<usize>) -> spec_fn(int) -> bool {
    |e: int|
        materials[hex_part[e] as int].plasticity is Some
            && materials[hex_part[e] as int].plasticity->0.model is Honeycomb
}

/// With the lane kernel enabled its elements are those of a honeycomb material,
/// all of them; without it there are none, and the scalar path has them all.
pub proof fn law_lanes_are_the_honeycombs(
    materials: Seq<Material>,
    hex_part: Seq<usize>,
    n: int,
)
    requires
        0 <= n <= hex_part.len(),
    ensures
        is_picked(
            picked(materials, hex_part, true, true, n),
            n,
            honeycombs(materials, hex_part),
            |e: int| e as usize,
        ),
        picked(materials, hex_part, false, true, n).len() == 0,
        picked(materials, hex_part, false, false, n).len() == n,
        forall|e: int|
            0 <= e < n ==> #[trigger] picked(materials, hex_part, false, false, n)[e] == e as usize,
    decreases n,
{
    if n > 0 {
        law_lanes_are_the_honeycombs(materials, hex_part, n - 1);
        lemma_picked_grows(
            picked(materials, hex_part, true, true, n - 1),
            n - 1,
            honeycombs(materials, hex_part),
            |e: int| e as usize,
        );
        let before = picked(materials, hex_part, false, false, n - 1);
        assert forall|e: int| 0 <= e < n implies #[trigger] picked(
            materials,
            hex_part,
            false,
            false,
            n,
        )[e] == e as usize by {
            if e < n - 1 {
                assert(before[e] == e as usize);
            }
        }
    }
}

/// An element limits the time step where it is not eroded, has a finite length
/// and a positive volume.
pub proof fn law_what_limits_the_step(eroded: bool, l: StepLimit)
    ensures
        counts(eroded, l) <==> !eroded && -0x7ff0_0000_0000_0000 < l.length.order()
            < 0x7ff0_0000_0000_0000 && !l.volume.nan() && l.volume.order() > 0,
{
}

/// The stability limit is the step of an element that limits it, or infinite
/// where none is less.
pub proof fn law_stable_step_is_reached(eroded: Seq<bool>, limits: Seq<StepLimit>, n: int)
    requires
        0 <= n <= limits.len(),
        eroded.len() == limits.len(),
    ensures
        least_step(eroded, limits, n).bits == 0x7ff0_0000_0000_0000 || exists|e: int|
            0 <= e < n && counts(eroded[e], #[trigger] limits[e]) && limits[e].step == least_step(
                eroded,
                limits,
                n,
            ),
    decreases n,
{
    if n > 0 {
        law_stable_step_is_reached(eroded, limits, n - 1);
        let before = least_step(eroded, limits, n - 1);
        let now = least_step(eroded, limits, n);
        if now == before {
            if before.bits != 0x7ff0_0000_0000_0000 {
                let e = choose|e: int|
                    0 <= e < n - 1 && counts(eroded[e], #[trigger] limits[e]) && limits[e].step
                        == before;
                assert(0 <= e < n);
            }
        } else {
            assert(counts(eroded[n - 1], limits[n - 1]));
            assert(limits[n - 1].step == now);
        }
    }
}

/// The elements that are not eroded and whose step is a positive finite number
/// below a floor.
pub open spec fn below_the_floor(
    eroded: Seq<bool>,
    limits: Seq<StepLimit>,
    floor: Real,
) -> spec_fn(int) -> bool {
    |e: int|
        !eroded[e] && 0 < limits[e].step.order() < 0x7ff0_0000_0000_0000
            && limits[e].step.order() < floor.order()
}

/// Mass is added to every element that is not eroded and allows less than the
/// floor, and to no other.
pub proof fn law_mass_goes_where_the_step_is_short(
    eroded: Seq<bool>,
    limits: Seq<StepLimit>,
    floor: Real,
    n: int,
)
    requires
        0 <= n <= limits.len(),
        eroded.len() == limits.len(),
        !floor.nan(),
    ensures
        is_picked(
            asking_less(eroded, limits, floor, n),
            n,
            below_the_floor(eroded, limits, floor),
            |e: int| e as usize,
        ),
    decreases n,
{
    if n > 0 {
        law_mass_goes_where_the_step_is_short(eroded, limits, floor, n - 1);
        lemma_picked_grows(
            asking_less(eroded, limits, floor, n - 1),
            n - 1,
            below_the_floor(eroded, limits, floor),
            |e: int| e as usize,
        );
    }
}

/// The number of flags set is the number of places at which one is.
pub proof fn law_flags_are_counted(flags: Seq<bool>, k: int)
    requires
        0 <= k <= flags.len(),
    ensures
        flags_set(flags.take(k)) == places_where(k, |i: int| flags[i]).len(),
    decreases k,
{
    if k > 0 {
        law_flags_are_counted(flags, k - 1);
        assert(flags.take(k).drop_last() =~= flags.take(k - 1));
        assert(flags.take(k).last() == flags[k - 1]);
    }
}

/// The sum of the first `n` values that go to a place.
pub open spec fn sum_at<T>(
    value: spec_fn(T) -> int,
    places: Seq<usize>,
    values: Seq<T>,
    at: int,
    n: int,
) -> int
    decreases n,
{
    if n <= 0 {
        0
    } else {
        sum_at(value, places, values, at, n - 1) + (if places[n - 1] == at {
            value(values[n - 1])
        } else {
            0
        })
    }
}

/// Where adding is exact, each entry ends as what it was and all that goes to its
/// place, and no value is lost or counted twice.
pub proof fn law_accumulation_sums<T, F: Fn(T, T) -> T>(
    plus: F,
    value: spec_fn(T) -> int,
    places: Seq<usize>,
    values: Seq<T>,
    states: Seq<Seq<T>>,
    at: int,
    n: int,
)
    requires
        is_accumulation(plus, places, values, states),
        forall|a: T, b: T, c: T| #[trigger]
            call_ensures(plus, (a, b), c) ==> value(c) == value(a) + value(b),
        0 <= n <= places.len(),
        0 <= at < states[0].len(),
        forall|i: int| 0 <= i < places.len() ==> #[trigger] places[i] < states[0].len(),
    ensures
        states[n].len() == states[0].len(),
        value(states[n][at]) == value(states[0][at]) + sum_at(value, places, values, at, n),
    decreases n,
{
    if n > 0 {
        law_accumulation_sums(plus, value, places, values, states, at, n - 1);
        let p = places[n - 1] as int;
        assert(p < states[0].len());
        assert(states[n - 1 + 1] == states[n - 1].update(p, states[n][p]));
        assert(call_ensures(plus, (states[n - 1][p], values[n - 1]), states[n][p]));
    }
}

} // verus!
