//! Vehicle-to-vehicle frontal impacts: the search that fits the rail boxes of
//! two vehicles to a measured car-to-car test.
//!
//! The objective is piecewise constant in the geometry (a box snaps to the
//! element grid) and noisy, so the search is differential evolution over a
//! unit cube, driven by a small deterministic random generator so that
//! calibrations are repeatable. The impacts themselves are run by the caller.

use crate::material::Material;
use crate::mesh::{grid_points, BlockFace, Mesh};
use crate::model::{
    are_answers, frame_of, is_upright, Answers, FrameError, LocalFrame, Model, Settings, Way,
};
use crate::number::{first_min, is_first_min, no_nan, Real};
use crate::output::history::with_suffix;
use crate::vehicle::{
    add_vehicle, add_vehicle_accelerometer, assign_vehicle, is_lone_vehicle, lemma_grid_room, lemma_joined_names, unset_materials,
    Heading, Vehicle,
};
use vstd::arithmetic::div_mod::{
    lemma_div_denominator, lemma_fundamental_div_mod, lemma_fundamental_div_mod_converse,
};
use vstd::arithmetic::power2::{lemma2_to64, lemma_pow2_pos, lemma_pow2_unfold, pow2};
use vstd::prelude::*;

verus! {

/// Two to the 52nd: the significand of an encoded number below its leading one.
pub const HIDDEN: u64 = 0x10_0000_0000_0000;

/// Two to the 53rd: how many steps the unit interval is drawn in.
pub const STEPS: u64 = 0x20_0000_0000_0000;

pub const MULTIPLIER: u64 = 0x2545_F491_4F6C_DD1D;

/// xorshift64*: a small deterministic random generator.
#[derive(Clone, Copy, Debug, PartialEq, Eq, Structural)]
pub struct Rng(pub u64);

/// The state after one step of the generator.
pub open spec fn stepped(x: u64) -> u64 {
    let a = x ^ (x >> 12);
    let b = a ^ (a << 25);
    b ^ (b >> 27)
}

/// The state after `t` steps.
pub open spec fn state_after(x: u64, t: int) -> u64
    decreases t,
{
    if t <= 0 {
        x
    } else {
        stepped(state_after(x, t - 1))
    }
}

/// The `t`-th number drawn from a state on.
pub open spec fn drawn(x: u64, t: int) -> u64 {
    state_after(x, t).wrapping_mul(MULTIPLIER)
}

/// The encoding of `significand * 2^(exponent - 1075)`, normalised.
pub open spec fn normalised(significand: int, exponent: int) -> int
    decreases 2 * HIDDEN - significand,
{
    if significand <= 0 {
        0
    } else if significand < HIDDEN {
        normalised(2 * significand, exponent - 1)
    } else {
        exponent * HIDDEN + (significand - HIDDEN)
    }
}

/// The number `m / 2^53`.
pub open spec fn unit(m: int) -> Real {
    Real { bits: normalised(m, 1022) as u64 }
}

/// The `t`-th number of the unit interval drawn from a state on: the upper 53
/// bits of what the generator gives.
pub open spec fn unit_drawn(x: u64, t: int) -> Real {
    unit((drawn(x, t) >> 11) as int)
}

/// How many bits of `p` stand beyond the 53 that a number keeps.
pub open spec fn excess(p: nat) -> nat
    decreases p,
{
    if p < STEPS {
        0
    } else {
        1 + excess(p / 2)
    }
}

/// `p` rounded to 53 bits, ties to the even neighbour.
pub open spec fn rounded(p: nat) -> int {
    let unit_place = pow2(excess(p)) as int;
    let (q, r) = (p as int / unit_place, p as int % unit_place);
    if 2 * r > unit_place || (2 * r == unit_place && q % 2 == 1) {
        (q + 1) * unit_place
    } else {
        q * unit_place
    }
}

/// The integer part of the product of `m / 2^53` and `n`, both rounded to 53
/// bits, as far as an index goes, and brought below `n`.
pub open spec fn index_of(m: int, n: int) -> int {
    let whole = rounded((m * rounded(n as nat)) as nat) / STEPS as int;
    (if whole > usize::MAX {
        usize::MAX as int
    } else {
        whole
    }) % n
}

/// Two to the 118th: more than any product that is rounded.
pub const MOST: u128 = 0x40_0000_0000_0000_0000_0000_0000_0000;

/// A number rounded to 53 bits, ties to the even neighbour.
fn round(p: u128) -> (r: u128)
    requires
        p <= MOST,
    ensures
        r == rounded(p as nat),
        r <= 2 * p,
{
    let mut q: u128 = p;
    let mut place: u128 = 1;
    let ghost mut k: nat = 0;
    proof {
        lemma2_to64();
    }
    while q >= STEPS as u128
        invariant
            p <= MOST,
            place == pow2(k),
            place >= 1,
            q as int == p as int / place as int,
            excess(p as nat) == k + excess(q as nat),
            q * place <= p,
            place == 1 || q >= 1,
        decreases q,
    {
        proof {
            lemma_pow2_unfold(k + 1);
            lemma_div_denominator(p as int, place as int, 2);
            assert(place <= p) by (nonlinear_arith)
                requires
                    q * place <= p,
                    q >= STEPS,
                    place >= 1,
            ;
            k = k + 1;
        }
        q = q / 2;
        place = place * 2;
        proof {
            lemma_fundamental_div_mod(p as int, place as int);
            assert(q * place <= p) by (nonlinear_arith)
                requires
                    p as int == place as int * q as int + (p as int % place as int),
                    0 <= p as int % place as int,
            ;
        }
    }
    proof {
        assert(place == 1 || place <= p) by (nonlinear_arith)
            requires
                place == 1 || q >= 1,
                q * place <= p,
                place >= 1,
        ;
    }
    let rest: u128 = p % place;
    let up: bool = 2 * rest > place || (2 * rest == place && q % 2 == 1);
    let kept: u128 = if up {
        q + 1
    } else {
        q
    };
    proof {
        assert(up ==> place > 1);
        assert(kept * place <= 2 * p) by (nonlinear_arith)
            requires
                kept == q || (kept == q + 1 && place <= p),
                q * place <= p,
                place >= 1,
        ;
    }
    kept * place
}

/// The `t`-th index below `n` drawn from a state on.
pub open spec fn index_drawn(x: u64, t: int, n: int) -> int {
    index_of((drawn(x, t) >> 11) as int, n)
}

/// A state other than zero never becomes zero, from which the generator would
/// not move on.
pub proof fn law_state_never_vanishes(x: u64, t: int)
    requires
        x != 0,
    ensures
        state_after(x, t) != 0,
    decreases t,
{
    if t > 0 {
        law_state_never_vanishes(x, t - 1);
        let y = state_after(x, t - 1);
        assert(y != 0 ==> ({
            let a = y ^ (y >> 12);
            let b = a ^ (a << 25);
            b ^ (b >> 27)
        }) != 0) by (bit_vector);
    }
}

/// The numbers drawn later from a state are those drawn from the state in
/// between.
pub proof fn law_draws_continue(x: u64, s: int, t: int)
    requires
        s >= 0,
        t >= 0,
    ensures
        state_after(x, s + t) == state_after(state_after(x, s), t),
        drawn(x, s + t) == drawn(state_after(x, s), t),
    decreases t,
{
    if t > 0 {
        law_draws_continue(x, s, t - 1);
    }
}

/// The number drawn from the unit interval is `m / 2^53` exactly: its
/// significand and exponent are those of the quotient. It is at least 0 and
/// less than 1.
pub proof fn law_unit_is_the_quotient(m: int)
    requires
        0 <= m < STEPS,
    ensures
        m == 0 ==> unit(m) == Real::spec_zero(),
        m > 0 ==> {
            let exponent = unit(m).bits as int / HIDDEN as int;
            let significand = HIDDEN + unit(m).bits as int % HIDDEN as int;
            exponent <= 1022 && significand == m * pow2((1022 - exponent) as nat)
        },
        Real::spec_zero().at_most(unit(m)),
        unit(m).below(Real::spec_one()),
{
    lemma2_to64();
    if m > 0 {
        lemma_normalised(m, 1022, m, 0);
    }
}

proof fn lemma_normalised(sig: int, exponent: int, m: int, k: nat)
    requires
        0 < m,
        0 < sig < STEPS,
        sig == m * pow2(k),
        exponent == 1022 - k,
        k <= 52,
        sig < HIDDEN ==> sig >= pow2(k),
    ensures
        ({
            let bits = normalised(sig, exponent);
            let (e, f) = (bits / HIDDEN as int, bits % HIDDEN as int);
            &&& 970 <= e <= 1022
            &&& 0 <= bits < 1023 * HIDDEN
            &&& HIDDEN + f == m * pow2((1022 - e) as nat)
        }),
    decreases 2 * HIDDEN - sig,
{
    lemma2_to64();
    if sig < HIDDEN {
        lemma_pow2_unfold(k + 1);
        assert(2 * sig == m * (2 * pow2(k))) by (nonlinear_arith)
            requires
                sig == m * pow2(k),
        ;
        if k == 52 {
            assert(pow2(52) == HIDDEN) by {
                lemma_52();
            }
            assert(false);
        }
        assert(2 * sig >= pow2(k + 1));
        lemma_normalised(2 * sig, exponent - 1, m, k + 1);
    } else {
        let bits = normalised(sig, exponent);
        let f = sig - HIDDEN;
        assert(bits == exponent * HIDDEN + f);
        lemma_fundamental_div_mod_converse(bits, HIDDEN as int, exponent, f);
    }
}

proof fn lemma_52()
    ensures
        pow2(52) == HIDDEN,
        pow2(53) == STEPS,
{
    lemma2_to64();
    vstd::arithmetic::power2::lemma2_to64_rest();
}

impl Rng {
    /// The next number of the generator.
    pub fn next_u64(&mut self) -> (r: u64)
        ensures
            final(self).0 == state_after(old(self).0, 1),
            r == drawn(old(self).0, 1),
    {
        let mut x: u64 = self.0;
        x ^= x >> 12;
        x ^= x << 25;
        x ^= x >> 27;
        self.0 = x;
        proof {
            reveal_with_fuel(state_after, 2);
        }
        x.wrapping_mul(MULTIPLIER)
    }

    /// The upper 53 bits of the next number.
    fn numerator(&mut self) -> (m: u64)
        ensures
            m < STEPS,
            m == drawn(old(self).0, 1) >> 11,
            final(self).0 == state_after(old(self).0, 1),
    {
        let x: u64 = self.next_u64();
        assert(x >> 11 < 0x20_0000_0000_0000u64) by (bit_vector);
        x >> 11
    }

    /// A number of the unit interval, 1 not included.
    pub fn uniform(&mut self) -> (r: Real)
        ensures
            r == unit_drawn(old(self).0, 1),
            final(self).0 == state_after(old(self).0, 1),
    {
        let m: u64 = self.numerator();
        if m == 0 {
            return Real::zero();
        }
        let mut significand: u64 = m;
        let mut exponent: u64 = 1022;
        let ghost mut k: nat = 0;
        proof {
            lemma2_to64();
        }
        while significand < HIDDEN
            invariant
                0 < significand < STEPS,
                exponent == 1022 - k,
                k <= 52,
                significand >= pow2(k),
                normalised(m as int, 1022) == normalised(significand as int, exponent as int),
            decreases 2 * HIDDEN - significand,
        {
            proof {
                lemma_52();
                lemma_pow2_unfold(k + 1);
                k = k + 1;
            }
            significand = significand * 2;
            exponent = exponent - 1;
        }
        proof {
            let e = exponent as int;
            assert(e * HIDDEN <= 1022 * HIDDEN) by (nonlinear_arith)
                requires
                    e <= 1022,
            ;
        }
        Real { bits: exponent * HIDDEN + (significand - HIDDEN) }
    }

    /// An index below `n`.
    pub fn below(&mut self, n: usize) -> (i: usize)
        requires
            n > 0,
        ensures
            i < n,
            i == index_drawn(old(self).0, 1, n as int),
            final(self).0 == state_after(old(self).0, 1),
    {
        let m: u64 = self.numerator();
        let size: u128 = round(n as u128);
        assert(m * size <= MOST) by (nonlinear_arith)
            requires
                0 <= m < STEPS,
                size <= 2 * n,
                n <= u64::MAX,
        ;
        assert(m * size >= 0) by (nonlinear_arith)
            requires
                m >= 0,
                size >= 0,
        ;
        let whole: u128 = round(m as u128 * size) / STEPS as u128;
        let held: u128 = if whole > usize::MAX as u128 {
            usize::MAX as u128
        } else {
            whole
        };
        let i: u128 = held % (n as u128);
        i as usize
    }
}

// ---- differential evolution ----

/// Parameters of the search: width, height-band centre and extent, and force
/// fraction of the rail box of each of the two vehicles.
pub const DIMS: usize = 8;

/// State that every search starts from.
pub const SEED: u64 = 0x9E37_79B9_7F4A_7C15;

/// Encoding of 0.9: how likely a parameter is to come from the mutant.
pub const CROSSOVER: u64 = 0x3fec_cccc_cccc_cccd;

/// Fewest members a population can have: a member and three others.
pub const FEWEST: usize = 4;

/// What the search waits for.
#[derive(Clone, Copy, Debug, PartialEq, Eq, Structural)]
pub enum Stage {
    /// The score of the next member of the first population.
    Seeding,
    /// Three members to combine.
    Drawing,
    /// The mutant of the three.
    Mixing,
    /// The score of the trial.
    Trying,
    Finished,
}

/// Three members to combine, and the parameters that cross over.
#[derive(Clone, Debug)]
pub struct Pick {
    pub members: [usize; 3],
    pub crossing: Vec<bool>,
}

/// Whether the indices differ from one another and from `i`.
pub open spec fn distinct(i: int, a: int, b: int, c: int) -> bool {
    a != i && b != i && c != i && a != b && a != c && b != c
}

/// Whether parameter `j` crosses over, where the draws that decide it follow
/// the state `x` and `always` crosses without a draw.
pub open spec fn crosses(x: u64, always: int, j: int) -> bool {
    j == always || unit_drawn(
        x,
        if j < always {
            j + 1
        } else {
            j
        },
    ).below(Real { bits: CROSSOVER })
}

/// A mutant's parameter brought back into the unit interval: reflected at the
/// bound it passed (`mirrored` is the reflection at 1) and held between the
/// bounds.
pub open spec fn folded(v: Real, mirrored: Real) -> Real {
    let w = if v.below(Real::spec_zero()) {
        v.negated()
    } else if Real::spec_one().below(v) {
        mirrored
    } else {
        v
    };
    w.clamped(Real::spec_zero(), Real::spec_one())
}

/// Within the unit interval.
pub open spec fn in_unit(r: Real) -> bool {
    Real::spec_zero().at_most(r) && r.at_most(Real::spec_one())
}

pub open spec fn in_cube(u: Seq<Real>) -> bool {
    forall|j: int| 0 <= j < u.len() ==> in_unit(#[trigger] u[j])
}

/// A reflected parameter lies in the unit interval again.
pub proof fn law_folding_stays_within(v: Real, mirrored: Real)
    requires
        !v.nan(),
        !mirrored.nan(),
    ensures
        in_unit(folded(v, mirrored)),
        in_unit(v) ==> folded(v, mirrored) == v,
{
}

fn fold(v: Real, mirrored: Real) -> (r: Real)
    ensures
        r == folded(v, mirrored),
{
    let w: Real = if v.lt(Real::zero()) {
        v.neg()
    } else if Real::one().lt(v) {
        mirrored
    } else {
        v
    };
    w.clamp(Real::zero(), Real::one())
}

/// The trial that a mutant makes of a member.
pub open spec fn trial_of(
    member: Seq<Real>,
    crossing: Seq<bool>,
    mutant: Seq<Real>,
    mirrored: Seq<Real>,
) -> Seq<Real> {
    Seq::new(
        member.len(),
        |j: int|
            if crossing[j] {
                folded(mutant[j], mirrored[j])
            } else {
                member[j]
            },
    )
}

/// A search by differential evolution.
#[derive(Clone, Debug)]
pub struct Evolution {
    pub rng: Rng,
    /// Members as points of the unit cube.
    pub pop: Vec<Vec<Real>>,
    /// Objective of each member scored so far.
    pub score: Vec<Real>,
    pub generations: usize,
    pub generation: usize,
    /// The member whose turn it is.
    pub member: usize,
    pub pick: Pick,
    pub trial: Vec<Real>,
    pub stage: Stage,
    /// Scores received.
    pub evaluations: usize,
}

impl Evolution {
    /// Number of members.
    pub open spec fn size(self) -> int {
        self.pop@.len() as int
    }

    /// Scores that the whole search asks for.
    pub open spec fn total(self) -> int {
        self.size() * (self.generations + 1)
    }

    pub open spec fn wf(self) -> bool {
        &&& FEWEST <= self.pop@.len()
        &&& self.total() <= usize::MAX
        &&& forall|k: int| 0 <= k < self.pop@.len() ==> (#[trigger] self.pop@[k])@.len() == DIMS
        &&& no_nan(self.score@)
        &&& self.rng.0 != 0
        &&& match self.stage {
            Stage::Seeding => {
                &&& self.score@.len() < self.size()
                &&& self.generation == 0
                &&& self.member == 0
                &&& self.evaluations == self.score@.len()
            },
            Stage::Finished => {
                &&& self.score@.len() == self.size()
                &&& self.generation == self.generations
                &&& self.member == 0
                &&& self.evaluations == self.total()
            },
            _ => {
                &&& self.score@.len() == self.size()
                &&& self.generation < self.generations
                &&& self.member < self.size()
                &&& self.evaluations == self.size() * (self.generation + 1) + self.member
                &&& self.stage == Stage::Mixing ==> self.picked()
                &&& self.stage == Stage::Trying ==> self.trial@.len() == DIMS
            },
        }
    }

    /// The picked members are three others.
    pub open spec fn picked(self) -> bool {
        let m = self.pick.members@;
        &&& self.pick.crossing@.len() == DIMS
        &&& m[0] < self.size() && m[1] < self.size() && m[2] < self.size()
        &&& distinct(self.member as int, m[0] as int, m[1] as int, m[2] as int)
    }

    /// Every member lies in the unit cube.
    pub open spec fn within(self) -> bool {
        forall|k: int| 0 <= k < self.pop@.len() ==> in_cube((#[trigger] self.pop@[k])@)
    }

    /// The scores after one more: that of a member of the first population, or
    /// that of a trial, which takes the place of its member's if it is no worse.
    pub open spec fn scores_with(self, score: Real) -> Seq<Real> {
        if self.stage == Stage::Seeding {
            self.score@.push(score)
        } else if score.at_most(self.score@[self.member as int]) {
            self.score@.update(self.member as int, score)
        } else {
            self.score@
        }
    }

    /// One step of a search: a draw or a mix, or a score taken.
    pub open spec fn is_step(self, before: Evolution, taken: Option<Real>) -> bool {
        &&& before.wf()
        &&& self.wf()
        &&& self.same_search(before)
        &&& match taken {
            None => {
                &&& before.stage == Stage::Drawing || before.stage == Stage::Mixing
                &&& self.score@ == before.score@
                &&& self.evaluations == before.evaluations
            },
            Some(score) => {
                &&& before.stage == Stage::Trying || (before.stage == Stage::Seeding
                    && !score.nan())
                &&& self.score@ == before.scores_with(score)
                &&& self.evaluations == before.evaluations + 1
            },
        }
    }

    /// What of the search neither a draw nor a score changes.
    pub open spec fn same_search(self, before: Self) -> bool {
        &&& self.generations == before.generations
        &&& self.size() == before.size()
    }

    /// A search over at least four members: `seed` and points drawn at random.
    pub fn new(seed: Vec<Real>, population: usize, generations: usize) -> (r: Evolution)
        requires
            seed@.len() == DIMS,
            population * (generations + 1) <= usize::MAX,
            FEWEST * (generations + 1) <= usize::MAX,
        ensures
            r.wf(),
            r.stage == Stage::Seeding,
            r.size() == if population < FEWEST {
                FEWEST as int
            } else {
                population as int
            },
            r.generations == generations,
            r.score@ == Seq::<Real>::empty(),
            r.evaluations == 0,
            r.pop@[0] == seed,
            forall|k: int, j: int|
                1 <= k < r.pop@.len() && 0 <= j < DIMS ==> #[trigger] r.pop@[k]@[j] == unit_drawn(
                    SEED,
                    (k - 1) * DIMS + j + 1,
                ),
            r.rng.0 == state_after(SEED, (r.size() - 1) * DIMS),
            in_cube(seed@) ==> r.within(),
    {
        let np: usize = if population < FEWEST {
            FEWEST
        } else {
            population
        };
        let mut rng: Rng = Rng(SEED);
        let mut pop: Vec<Vec<Real>> = Vec::new();
        let ghost first = seed;
        pop.push(seed);
        let mut k: usize = 1;
        while k < np
            invariant
                1 <= k <= np,
                pop@.len() == k,
                pop@[0] == first,
                forall|i: int| 1 <= i < k ==> (#[trigger] pop@[i])@.len() == DIMS,
                forall|i: int, j: int|
                    1 <= i < k && 0 <= j < DIMS ==> #[trigger] pop@[i]@[j] == unit_drawn(
                        SEED,
                        (i - 1) * DIMS + j + 1,
                    ),
                rng.0 == state_after(SEED, (k - 1) * DIMS),
            decreases np - k,
        {
            let mut u: Vec<Real> = Vec::new();
            let mut j: usize = 0;
            while j < DIMS
                invariant
                    1 <= k,
                    j <= DIMS,
                    u@.len() == j,
                    forall|i: int|
                        0 <= i < j ==> #[trigger] u@[i] == unit_drawn(
                            SEED,
                            (k - 1) * DIMS + i + 1,
                        ),
                    rng.0 == state_after(SEED, (k - 1) * DIMS + j),
                decreases DIMS - j,
            {
                proof {
                    law_draws_continue(SEED, (k - 1) * DIMS + j, 1);
                }
                u.push(rng.uniform());
                j += 1;
            }
            pop.push(u);
            k += 1;
        }
        proof {
            law_state_never_vanishes(SEED, (np - 1) * DIMS);
            assert(np * (generations + 1) <= usize::MAX);
            assert forall|i: int| in_cube(first@) && 0 <= i < pop@.len() implies in_cube(
                (#[trigger] pop@[i])@,
            ) by {
                if i > 0 {
                    assert forall|j: int| 0 <= j < pop@[i]@.len() implies in_unit(
                        #[trigger] pop@[i]@[j],
                    ) by {
                        lemma_unit_drawn(SEED, (i - 1) * DIMS + j + 1);
                    }
                }
            }
        }
        Evolution {
            rng,
            pop,
            score: Vec::new(),
            generations,
            generation: 0,
            member: 0,
            pick: Pick { members: [0, 0, 0], crossing: Vec::new() },
            trial: Vec::new(),
            stage: Stage::Seeding,
            evaluations: 0,
        }
    }

    /// The point whose score is waited for.
    pub fn candidate(&self) -> (u: &Vec<Real>)
        requires
            self.wf(),
            self.stage == Stage::Seeding || self.stage == Stage::Trying,
        ensures
            *u == if self.stage == Stage::Seeding {
                self.pop@[self.score@.len() as int]
            } else {
                self.trial
            },
    {
        match self.stage {
            Stage::Seeding => &self.pop[self.score.len()],
            _ => &self.trial,
        }
    }

    /// Draws three members once. Where they differ from one another and from
    /// the member whose turn it is, the parameters that cross over are drawn
    /// too; else the search still waits for three members.
    pub fn draw(&mut self)
        requires
            old(self).wf(),
            old(self).stage == Stage::Drawing,
        ensures
            final(self).wf(),
            final(self).is_step(*old(self), None),
            ({
                let x = old(self).rng.0;
                let np = old(self).size();
                let (a, b, c) = (
                    index_drawn(x, 1, np),
                    index_drawn(x, 2, np),
                    index_drawn(x, 3, np),
                );
                if distinct(old(self).member as int, a, b, c) {
                    &&& final(self).stage == Stage::Mixing
                    &&& final(self).pick.members@ == seq![a as usize, b as usize, c as usize]
                    &&& forall|j: int|
                        0 <= j < DIMS ==> #[trigger] final(self).pick.crossing@[j] == crosses(
                            state_after(x, 4),
                            index_drawn(x, 4, DIMS as int),
                            j,
                        )
                    &&& final(self).rng.0 == state_after(x, 3 + DIMS)
                } else {
                    &&& final(self).stage == Stage::Drawing
                    &&& final(self).pick == old(self).pick
                    &&& final(self).rng.0 == state_after(x, 3)
                }
            }),
            final(self).pop == old(self).pop,
            final(self).score == old(self).score,
            final(self).trial == old(self).trial,
            final(self).same_search(*old(self)),
            final(self).generation == old(self).generation,
            final(self).member == old(self).member,
            final(self).evaluations == old(self).evaluations,
    {
        let ghost x = self.rng.0;
        let np: usize = self.pop.len();
        let i: usize = self.member;
        proof {
            law_draws_continue(x, 1, 1);
            law_draws_continue(x, 2, 1);
            law_draws_continue(x, 3, 1);
            law_state_never_vanishes(x, 3);
            law_state_never_vanishes(x, 11);
        }
        let mut rng: Rng = self.rng;
        let a: usize = rng.below(np);
        let b: usize = rng.below(np);
        let c: usize = rng.below(np);
        self.rng = rng;
        if a != i && b != i && c != i && a != b && a != c && b != c {
            let always: usize = rng.below(DIMS);
            let ghost y = rng.0;
            let mut crossing: Vec<bool> = Vec::new();
            let mut j: usize = 0;
            while j < DIMS
                invariant
                    j <= DIMS,
                    always < DIMS,
                    crossing@.len() == j,
                    forall|k: int|
                        0 <= k < j ==> #[trigger] crossing@[k] == crosses(y, always as int, k),
                    rng.0 == state_after(
                        y,
                        if j <= always {
                            j as int
                        } else {
                            j - 1
                        },
                    ),
                decreases DIMS - j,
            {
                if j == always {
                    crossing.push(true);
                } else {
                    proof {
                        law_draws_continue(
                            y,
                            if j <= always {
                                j as int
                            } else {
                                j - 1
                            },
                            1,
                        );
                    }
                    let level: Real = rng.uniform();
                    crossing.push(level.lt(Real { bits: CROSSOVER }));
                }
                j += 1;
            }
            proof {
                law_draws_continue(x, 4, DIMS - 1);
            }
            self.rng = rng;
            self.pick = Pick { members: [a, b, c], crossing };
            self.stage = Stage::Mixing;
            assert(self.pick.members@ =~= seq![a, b, c]);
        }
    }

    /// Makes the trial from the mutant of the three members picked:
    /// `mutant` holds, per parameter, the first member's value moved by the
    /// weighted difference of the other two, and `mirrored` its reflection at 1.
    pub fn mix(&mut self, mutant: &Vec<Real>, mirrored: &Vec<Real>)
        requires
            old(self).wf(),
            old(self).stage == Stage::Mixing,
            mutant@.len() == DIMS,
            mirrored@.len() == DIMS,
        ensures
            final(self).wf(),
            final(self).is_step(*old(self), None),
            final(self).stage == Stage::Trying,
            final(self).trial@ == trial_of(
                old(self).pop@[old(self).member as int]@,
                old(self).pick.crossing@,
                mutant@,
                mirrored@,
            ),
            final(self).pop == old(self).pop,
            final(self).score == old(self).score,
            final(self).rng == old(self).rng,
            final(self).same_search(*old(self)),
            final(self).generation == old(self).generation,
            final(self).member == old(self).member,
            final(self).evaluations == old(self).evaluations,
            old(self).within() && no_nan(mutant@) && no_nan(mirrored@) ==> in_cube(
                final(self).trial@,
            ),
    {
        let i: usize = self.member;
        let ghost member = self.pop@[i as int]@;
        let mut trial: Vec<Real> = Vec::new();
        let mut j: usize = 0;
        while j < DIMS
            invariant
                j <= DIMS,
                i < self.pop@.len(),
                self.pop@[i as int]@ == member,
                member.len() == DIMS,
                self.pick.crossing@.len() == DIMS,
                mutant@.len() == DIMS,
                mirrored@.len() == DIMS,
                trial@.len() == j,
                forall|k: int|
                    0 <= k < j ==> #[trigger] trial@[k] == trial_of(
                        member,
                        self.pick.crossing@,
                        mutant@,
                        mirrored@,
                    )[k],
            decreases DIMS - j,
        {
            if self.pick.crossing[j] {
                trial.push(fold(mutant[j], mirrored[j]));
            } else {
                trial.push(self.pop[i][j]);
            }
            j += 1;
        }
        proof {
            let whole = trial_of(member, self.pick.crossing@, mutant@, mirrored@);
            assert(trial@ =~= whole);
            if old(self).within() && no_nan(mutant@) && no_nan(mirrored@) {
                assert(in_cube(self.pop@[i as int]@));
                assert forall|k: int| 0 <= k < trial@.len() implies in_unit(
                    #[trigger] trial@[k],
                ) by {
                    if self.pick.crossing@[k] {
                        assert(!mutant@[k].nan() && !mirrored@[k].nan());
                        law_folding_stays_within(mutant@[k], mirrored@[k]);
                    } else {
                        assert(in_unit(member[k]));
                    }
                }
            }
        }
        self.trial = trial;
        self.stage = Stage::Trying;
    }

    /// Takes the score of the candidate. A trial replaces its member where it
    /// scores no worse, and the turn passes on; the first population is only
    /// recorded. Gives whether the candidate is a member now.
    pub fn scored(&mut self, score: Real) -> (kept: bool)
        requires
            old(self).wf(),
            old(self).stage == Stage::Trying || (old(self).stage == Stage::Seeding
                && !score.nan()),
        ensures
            final(self).wf(),
            final(self).is_step(*old(self), Some(score)),
            final(self).evaluations == old(self).evaluations + 1,
            final(self).same_search(*old(self)),
            final(self).rng == old(self).rng,
            old(self).stage == Stage::Seeding ==> {
                &&& kept
                &&& final(self).pop == old(self).pop
                &&& final(self).score@ == old(self).score@.push(score)
                &&& final(self).generation == 0
                &&& final(self).member == 0
                &&& final(self).stage == if final(self).score@.len() < old(self).size() {
                    Stage::Seeding
                } else if old(self).generations > 0 {
                    Stage::Drawing
                } else {
                    Stage::Finished
                }
            },
            old(self).stage == Stage::Trying ==> {
                let i = old(self).member as int;
                let last = i + 1 == old(self).size();
                &&& kept == score.at_most(old(self).score@[i])
                &&& final(self).pop@ == if kept {
                    old(self).pop@.update(i, old(self).trial)
                } else {
                    old(self).pop@
                }
                &&& final(self).score@ == if kept {
                    old(self).score@.update(i, score)
                } else {
                    old(self).score@
                }
                &&& final(self).member == if last {
                    0
                } else {
                    i + 1
                }
                &&& final(self).generation == old(self).generation + if last {
                    1int
                } else {
                    0
                }
                &&& final(self).stage == if final(self).generation < old(self).generations {
                    Stage::Drawing
                } else {
                    Stage::Finished
                }
            },
            old(self).within() && (old(self).stage == Stage::Trying ==> in_cube(
                old(self).trial@,
            )) ==> final(self).within(),
    {
        let np: usize = self.pop.len();
        let ghost g = self.generations as int;
        proof {
            lemma_room(np as int, g, self.generation as int, self.member as int);
        }
        match self.stage {
            Stage::Seeding => {
                self.score.push(score);
                self.evaluations = self.evaluations + 1;
                if self.score.len() == np {
                    self.stage = if self.generations > 0 {
                        Stage::Drawing
                    } else {
                        Stage::Finished
                    };
                }
                assert(old(self).within() ==> self.within());
                true
            },
            _ => {
                let i: usize = self.member;
                let kept: bool = score.le(self.score[i]);
                self.evaluations = self.evaluations + 1;
                if kept {
                    let mut trial: Vec<Real> = Vec::new();
                    core::mem::swap(&mut trial, &mut self.trial);
                    self.pop.set(i, trial);
                    self.score.set(i, score);
                }
                if i + 1 == np {
                    self.member = 0;
                    self.generation = self.generation + 1;
                } else {
                    self.member = i + 1;
                }
                self.stage = if self.generation < self.generations {
                    Stage::Drawing
                } else {
                    Stage::Finished
                };
                proof {
                    lemma_turn(np as int, old(self).generation as int, i as int);
                    assert forall|k: int| 0 <= k < self.pop@.len() implies (
                    #[trigger] self.pop@[k])@.len() == DIMS by {
                        assert(old(self).pop@[k]@.len() == DIMS);
                    }
                    assert forall|k: int| 0 <= k < self.score@.len() implies !(
                    #[trigger] self.score@[k]).nan() by {
                        assert(!old(self).score@[k].nan());
                    }
                    assert forall|k: int|
                        old(self).within() && in_cube(old(self).trial@) && 0 <= k
                            < self.pop@.len() implies in_cube((#[trigger] self.pop@[k])@) by {
                        assert(in_cube(old(self).pop@[k]@));
                    }
                }
                kept
            },
        }
    }

    /// The member with the least score: the first of them.
    pub fn best(&self) -> (i: usize)
        requires
            self.wf(),
            self.score@.len() > 0,
        ensures
            i < self.pop@.len(),
            is_first_min(self.score@, i as int),
    {
        first_min(&self.score)
    }
}

proof fn lemma_unit_drawn(x: u64, t: int)
    ensures
        in_unit(unit_drawn(x, t)),
{
    let d = drawn(x, t);
    assert(d >> 11 < 0x20_0000_0000_0000u64) by (bit_vector);
    law_unit_is_the_quotient((d >> 11) as int);
}

proof fn lemma_room(np: int, generations: int, generation: int, member: int)
    requires
        0 <= generation,
        0 <= member,
        0 < np,
    ensures
        generation < generations && member < np ==> np * (generation + 1) + member < np * (
        generations + 1),
        generations >= 0 ==> np <= np * (generations + 1),
        generations == 0 ==> np * (generations + 1) == np,
        np * (0int + 1) == np,
{
    if generation < generations && member < np {
        assert(np * (generation + 1) + member < np * (generations + 1)) by (nonlinear_arith)
            requires
                0 <= generation < generations,
                0 <= member < np,
        ;
    }
    if generations >= 0 {
        assert(np <= np * (generations + 1)) by (nonlinear_arith)
            requires
                generations >= 0,
                np > 0,
        ;
    }
}

proof fn lemma_turn(np: int, generation: int, member: int)
    ensures
        np * (generation + 1) + np == np * (generation + 2),
{
    assert(np * (generation + 1) + np == np * (generation + 2)) by (nonlinear_arith);
}

/// Choosing a trial only where it scores no worse makes no member's score
/// worse, nor the least score of all.
pub proof fn law_selection_never_worsens(score: Seq<Real>, i: int, trial: Real, at: int, after: int)
    requires
        no_nan(score),
        0 <= i < score.len(),
        is_first_min(score, at),
        ({
            let chosen = if trial.at_most(score[i]) {
                score.update(i, trial)
            } else {
                score
            };
            is_first_min(chosen, after)
        }),
    ensures
        ({
            let chosen = if trial.at_most(score[i]) {
                score.update(i, trial)
            } else {
                score
            };
            &&& no_nan(chosen)
            &&& forall|k: int|
                0 <= k < score.len() ==> (#[trigger] chosen[k]).at_most(score[k])
            &&& chosen[after].at_most(score[at])
        }),
{
    let chosen = if trial.at_most(score[i]) {
        score.update(i, trial)
    } else {
        score
    };
    assert forall|k: int| 0 <= k < score.len() implies (#[trigger] chosen[k]).at_most(
        score[k],
    ) by {
        assert(!score[k].nan());
    }
    assert(chosen[at].at_most(score[at]));
    assert(chosen[after].order() <= chosen[at].order());
}

/// A search from its start: the states that it runs through, and the score taken
/// at each step that takes one.
pub open spec fn is_search(states: Seq<Evolution>, taken: Seq<Option<Real>>) -> bool {
    &&& states.len() == taken.len() + 1
    &&& states[0].wf()
    &&& states[0].stage == Stage::Seeding
    &&& states[0].score@.len() == 0
    &&& forall|i: int|
        0 <= i < taken.len() ==> states[i + 1].is_step(states[i], #[trigger] taken[i])
}

/// A member of a search that scores no worse than what was taken at step `i`.
spec fn outdone(score: Seq<Real>, taken: Seq<Option<Real>>, i: int, k: int) -> bool {
    0 <= k < score.len() && (taken[i] matches Some(x) && score[k].at_most(x))
}

proof fn lemma_outdone(states: Seq<Evolution>, taken: Seq<Option<Real>>, n: int, i: int) -> (k: int)
    requires
        is_search(states, taken),
        0 <= i < n <= taken.len(),
        taken[i] is Some,
        !(taken[i]->0).nan(),
    ensures
        outdone(states[n].score@, taken, i, k),
    decreases n,
{
    let (before, after) = (states[n - 1], states[n]);
    assert(after.is_step(before, taken[n - 1]));
    if i < n - 1 {
        let k = lemma_outdone(states, taken, n - 1, i);
        assert(!before.score@[k].nan());
        k
    } else {
        let x = taken[i]->0;
        if before.stage == Stage::Seeding {
            before.score@.len() as int
        } else {
            let k = before.member as int;
            assert(!before.score@[k].nan());
            k
        }
    }
}

proof fn lemma_scores_were_taken(
    states: Seq<Evolution>,
    taken: Seq<Option<Real>>,
    n: int,
    k: int,
) -> (i: int)
    requires
        is_search(states, taken),
        0 <= n <= taken.len(),
        0 <= k < states[n].score@.len(),
    ensures
        0 <= i < n,
        taken[i] == Some(states[n].score@[k]),
    decreases n,
{
    if n > 0 {
        let (before, after) = (states[n - 1], states[n]);
        assert(after.is_step(before, taken[n - 1]));
        if k < before.score@.len() && after.score@[k] == before.score@[k] {
            lemma_scores_were_taken(states, taken, n - 1, k)
        } else {
            n - 1
        }
    } else {
        0
    }
}

/// When a search is finished its best score is one that was taken, and no score
/// taken on the way is better: not that of the seed, nor of any other member of
/// the first population, nor of any trial.
pub proof fn law_search_ends_with_the_best(
    states: Seq<Evolution>,
    taken: Seq<Option<Real>>,
    best: int,
)
    requires
        is_search(states, taken),
        states.last().stage == Stage::Finished,
        is_first_min(states.last().score@, best),
    ensures
        taken.contains(Some(states.last().score@[best])),
        forall|i: int|
            0 <= i < taken.len() && (#[trigger] taken[i]) is Some && !(taken[i]->0).nan()
                ==> states.last().score@[best].at_most(taken[i]->0),
{
    let n = taken.len() as int;
    let score = states.last().score@;
    assert(states.last() == states[n]);
    let at = lemma_scores_were_taken(states, taken, n, best);
    assert(taken[at] == Some(score[best]));
    assert forall|i: int|
        0 <= i < taken.len() && (#[trigger] taken[i]) is Some && !(
        taken[i]->0).nan() implies score[best].at_most(taken[i]->0) by {
        let k = lemma_outdone(states, taken, n, i);
        assert(score[best].order() <= score[k].order());
        if n > 0 {
            assert(states[n].is_step(states[n - 1], taken[n - 1]));
        }
        assert(!score[best].nan());
    }
}

/// A search asks for a fixed number of scores, one for each member in each
/// generation and once at the start, and is finished when it has them all.
pub proof fn law_search_takes_a_fixed_number_of_runs(e: Evolution)
    requires
        e.wf(),
    ensures
        e.evaluations <= e.size() * (e.generations + 1),
        e.stage == Stage::Finished <==> e.evaluations == e.size() * (e.generations + 1),
{
    lemma_room(e.size(), e.generations as int, e.generation as int, e.member as int);
}

// ---- impacts ----

/// What a head-on model asks of a mesh.
pub open spec fn headon_ready(mesh: Mesh<[Real; 3]>, a: Seq<char>, b: Seq<char>) -> bool {
    &&& mesh.wf()
    &&& mesh.has_part(a)
    &&& mesh.node_sets@.dom().contains(a)
    &&& mesh.has_part(b)
    &&& mesh.node_sets@.dom().contains(b)
    &&& mesh.face_sets@.dom().contains(a + "_front"@)
    &&& mesh.face_sets@.dom().contains(b + "_front"@)
}

/// Setup of a frontal vehicle-to-vehicle impact: A heads for +x, B for -x.
#[derive(Clone, Copy, Debug)]
pub struct HeadOn {
    /// Speeds (m/s) of A and B.
    pub speed_a: Real,
    pub speed_b: Real,
    /// Lateral offset of B (m); 0 = full overlap.
    pub offset: Real,
    /// Element size (m).
    pub element_size: Real,
    pub end_time: Real,
}

/// The mesh of a head-on impact: A, then B, each with its front face.
pub fn headon_mesh(
    a: &Vehicle,
    grid_a: &[Vec<Real>; 3],
    b: &Vehicle,
    grid_b: &[Vec<Real>; 3],
) -> (mesh: Mesh<[Real; 3]>)
    requires
        grid_a@[0]@.len() > 1,
        grid_a@[1]@.len() > 1,
        grid_a@[2]@.len() > 1,
        grid_b@[0]@.len() > 1,
        grid_b@[1]@.len() > 1,
        grid_b@[2]@.len() > 1,
        grid_points(*grid_a) + grid_points(*grid_b) <= usize::MAX,
    ensures
        headon_ready(mesh, a.name@, b.name@),
        exists|empty: Mesh<[Real; 3]>, lone: Mesh<[Real; 3]>|
            #![trigger is_lone_vehicle(lone, empty, *a, *grid_a)]
            is_lone_vehicle(lone, empty, *a, *grid_a) && mesh.grid_joined(
                lone,
                1,
                b.name@,
                *grid_b,
                seq![(BlockFace::XMin, b.name@ + "_front"@)],
            ),
{
    let mut mesh: Mesh<[Real; 3]> = Mesh::new();
    let ghost empty = mesh;
    proof {
        let (x, y, z) = (
            grid_b@[0]@.len() as int,
            grid_b@[1]@.len() as int,
            grid_b@[2]@.len() as int,
        );
        assert(x * y * z >= 0) by (nonlinear_arith)
            requires
                x >= 0,
                y >= 0,
                z >= 0,
        ;
    }
    add_vehicle(&mut mesh, a, grid_a, Heading::PlusX);
    let ghost lone = mesh;
    assert(is_lone_vehicle(lone, empty, *a, *grid_a));
    proof {
        assert(grid_a@[0].len() == grid_a@[0]@.len());
        assert(grid_a@[1].len() == grid_a@[1]@.len());
        assert(grid_a@[2].len() == grid_a@[2]@.len());
        lemma_grid_room(*grid_a);
    }
    add_vehicle(&mut mesh, b, grid_b, Heading::MinusX);
    proof {
        let (fa, fb) = (a.name@ + "_front"@, b.name@ + "_front"@);
        lemma_joined_names(empty, lone, 0, a.name@, *grid_a, BlockFace::XMax, fa);
        lemma_joined_names(lone, mesh, 1, b.name@, *grid_b, BlockFace::XMin, fb);
        assert(lone.parts[0].name@ == a.name@);
        assert(mesh.parts@.take(1)[0] == lone.parts@[0]);
        assert(mesh.parts[0].name@ == a.name@);
        assert(mesh.parts[1].name@ == b.name@);
    }
    mesh
}

/// Where the accelerometer of a vehicle goes, and how the neighbours of a node of
/// the vehicle are found (as for [`Model::add_accelerometer_at`]).
pub struct RearSeat<F> {
    pub node: usize,
    pub neighbour: F,
}

/// Why no frame can be made at a seat, and of which vehicle.
#[derive(Clone, Copy, Debug, PartialEq, Eq, Structural)]
pub enum SeatError {
    A(FrameError),
    B(FrameError),
}

impl HeadOn {
    /// Whether a model is that of the impact before accelerometers are added:
    /// both vehicles with their materials and velocities and the front-to-front
    /// contact, every step recorded.
    pub open spec fn is_setup(
        self,
        m: Model,
        mesh: Mesh<[Real; 3]>,
        a: Vehicle,
        material_a: Material,
        b: Vehicle,
        material_b: Material,
        stiffness: Real,
        max_distance: Real,
    ) -> bool {
        &&& m.mesh == mesh
        &&& m.materials@ == unset_materials(mesh).update(
            mesh.first_part(a.name@),
            material_a,
        ).update(mesh.first_part(b.name@), material_b)
        &&& m.initial_velocity@.len() == mesh.nodes@.len()
        &&& forall|n: int|
            0 <= n < mesh.nodes@.len() ==> (#[trigger] m.initial_velocity@[n])@
                == if mesh.node_sets@[b.name@].contains(n as usize) {
                Heading::MinusX.travelling(self.speed_b)
            } else if mesh.node_sets@[a.name@].contains(n as usize) {
                Heading::PlusX.travelling(self.speed_a)
            } else {
                seq![Real::spec_zero(), Real::spec_zero(), Real::spec_zero()]
            }
        &&& m.fixed_nodes@.len() == 0
        &&& m.contacts@.len() == 2
        &&& m.is_contact(
            m.contacts@[0],
            a.name@ + "_front"@,
            b.name@ + "_front"@,
            stiffness.halved(),
            max_distance,
        )
        &&& m.is_contact(
            m.contacts@[1],
            b.name@ + "_front"@,
            a.name@ + "_front"@,
            stiffness.halved(),
            max_distance,
        )
        &&& m.settings == (Settings {
            end_time: self.end_time,
            history_steps: 1,
            ..Settings::spec_default()
        })
    }

    /// Whether a model carries the two accelerometers, A's and then B's, each
    /// named after its vehicle and with an upright frame.
    pub open spec fn is_instrumented<
        F: Fn(usize, Way, Option<usize>) -> Option<(usize, Real)>,
        G: Fn(usize, Way, Option<usize>) -> Option<(usize, Real)>,
    >(m: Model, a: Seq<char>, seat_a: RearSeat<F>, b: Seq<char>, seat_b: RearSeat<G>) -> bool {
        let acc = m.accelerometers@;
        &&& acc.len() == 2
        &&& acc[0].name@ == a + "_rear"@
        &&& acc[0].nodes@ == seq![seat_a.node]
        &&& acc[1].name@ == b + "_rear"@
        &&& acc[1].nodes@ == seq![seat_b.node]
        &&& acc[0].frame matches Some(f) && is_upright(m.mesh.nodes@, f)
            && found_frame(m.mesh.nodes@, seat_a, Ok(f))
        &&& acc[1].frame matches Some(f) && is_upright(m.mesh.nodes@, f)
            && found_frame(m.mesh.nodes@, seat_b, Ok(f))
    }

    /// Builds the model: both vehicles, the front-to-front contact and a
    /// rear-seat accelerometer per vehicle, whose names it gives. Fails where no
    /// frame can be made at a seat, of A first.
    pub fn build<
        F: Fn(usize, Way, Option<usize>) -> Option<(usize, Real)>,
        G: Fn(usize, Way, Option<usize>) -> Option<(usize, Real)>,
    >(
        &self,
        mesh: Mesh<[Real; 3]>,
        a: &Vehicle,
        material_a: Material,
        seat_a: &RearSeat<F>,
        b: &Vehicle,
        material_b: Material,
        seat_b: &RearSeat<G>,
        stiffness: Real,
        max_distance: Real,
    ) -> (r: Result<(Model, String, String), SeatError>)
        requires
            headon_ready(mesh, a.name@, b.name@),
            forall|n: usize, w: Way, x: Option<usize>| #[trigger]
                call_requires(seat_a.neighbour, (n, w, x)),
            forall|n: usize, w: Way, x: Option<usize>| #[trigger]
                call_requires(seat_b.neighbour, (n, w, x)),
        ensures
            match r {
                Ok((m, name_a, name_b)) => {
                    &&& m.wf()
                    &&& self.is_setup(
                        m,
                        mesh,
                        *a,
                        material_a,
                        *b,
                        material_b,
                        stiffness,
                        max_distance,
                    )
                    &&& Self::is_instrumented(m, a.name@, *seat_a, b.name@, *seat_b)
                    &&& name_a@ == a.name@ + "_rear"@
                    &&& name_b@ == b.name@ + "_rear"@
                },
                Err(SeatError::A(e)) => found_frame(mesh.nodes@, *seat_a, Err(e)),
                Err(SeatError::B(e)) => (exists|f: LocalFrame|
                    found_frame(mesh.nodes@, *seat_a, Ok(f))) && found_frame(
                    mesh.nodes@,
                    *seat_b,
                    Err(e),
                ),
            },
    {
        let fa: String = with_suffix(&a.name, "_front");
        let fb: String = with_suffix(&b.name, "_front");
        let mut m: Model = Model::new(mesh);
        assert(m.materials@ =~= unset_materials(mesh));
        assign_vehicle(&mut m, a, material_a, Heading::PlusX, self.speed_a);
        assign_vehicle(&mut m, b, material_b, Heading::MinusX, self.speed_b);
        m.add_contact_pair(&fa, &fb, stiffness, max_distance);
        m.settings.end_time = self.end_time;
        m.settings.history_steps = 1;
        let ghost bare = m;
        assert(m.accelerometers@.len() == 0);
        let name_a: String = match add_vehicle_accelerometer(
            &mut m,
            &a.name,
            seat_a.node,
            &seat_a.neighbour,
        ) {
            Ok(name) => name,
            Err(e) => {
                return Err(SeatError::A(e));
            },
        };
        let ghost one = m;
        proof {
            let f = one.accelerometers@[0].frame->0;
            assert(one.accelerometers@.last() == one.accelerometers@[0]);
            assert(found_frame(mesh.nodes@, *seat_a, Ok(f)));
        }
        let name_b: String = match add_vehicle_accelerometer(
            &mut m,
            &b.name,
            seat_b.node,
            &seat_b.neighbour,
        ) {
            Ok(name) => name,
            Err(e) => {
                return Err(SeatError::B(e));
            },
        };
        proof {
            assert(m.accelerometers@.drop_last()[0] == one.accelerometers@[0]);
            assert(m.accelerometers@.last() == m.accelerometers@[1]);
            assert(m.contacts == bare.contacts);
        }
        Ok((m, name_a, name_b))
    }
}

/// Whether a frame, or the reason that there is none, is what the neighbours
/// found at a seat give.
pub open spec fn found_frame<F: Fn(usize, Way, Option<usize>) -> Option<(usize, Real)>>(
    nodes: Seq<[Real; 3]>,
    seat: RearSeat<F>,
    r: Result<LocalFrame, FrameError>,
) -> bool {
    exists|a: Answers| #[trigger]
        are_answers(nodes, seat.node, seat.neighbour, a) && frame_of(nodes, seat.node, a) == r
}

// ---- what draws, trials and setups are for ----

/// A number rounded to 53 bits is a whole multiple of the place that it is rounded
/// to, the nearest to the number, the even one of two that are as near; numbers of
/// 53 bits stay as they are.
pub proof fn law_rounding_is_to_the_nearest(p: nat) -> (place: int)
    ensures
        place == pow2(excess(p)),
        place > 0,
        p < 0x20_0000_0000_0000 ==> rounded(p) == p && place == 1,
        p >= 0x20_0000_0000_0000 ==> 0x10_0000_0000_0000 <= p as int / place
            < 0x20_0000_0000_0000,
        rounded(p) % place == 0,
        -place <= 2 * (rounded(p) - p) <= place,
        2 * (rounded(p) - p) == place || 2 * (p - rounded(p)) == place ==> (rounded(p) / place) % 2
            == 0,
{
    let place = pow2(excess(p)) as int;
    lemma_pow2_pos(excess(p));
    lemma_excess(p);
    lemma2_to64();
    let (q, r) = (p as int / place, p as int % place);
    lemma_fundamental_div_mod(p as int, place);
    vstd::arithmetic::div_mod::lemma_mod_bound(p as int, place);
    let up = 2 * r > place || (2 * r == place && q % 2 == 1);
    let kept = if up {
        q + 1
    } else {
        q
    };
    assert(rounded(p) == kept * place);
    assert((q + 1) * place == q * place + place) by (nonlinear_arith);
    assert(place * q == q * place) by (nonlinear_arith);
    lemma_fundamental_div_mod_converse(kept * place, place, kept, 0);
    place
}

proof fn lemma_excess(p: nat)
    ensures
        p < STEPS ==> excess(p) == 0,
        p >= STEPS ==> HIDDEN <= p as int / pow2(excess(p)) as int && p as int / pow2(
            excess(p),
        ) as int <= STEPS - 1,
    decreases p,
{
    lemma2_to64();
    if p >= STEPS {
        let h = p / 2;
        lemma_excess(h);
        let k = excess(h);
        lemma_pow2_pos(k);
        lemma_pow2_unfold(k + 1);
        lemma_div_denominator(p as int, 2, pow2(k) as int);
        assert(p as int / (2 * pow2(k)) as int == (p as int / 2) / pow2(k) as int);
        if h < STEPS {
            assert(pow2(k) == 1);
            assert(h as int / 1 == h);
        }
    }
}

/// A parameter that always crosses does; any other crosses where its own draw is
/// below 0.9, the draws taken in the order of the parameters.
pub proof fn law_crossing(x: u64, always: int, j: int)
    ensures
        j == always ==> crosses(x, always, j),
        j < always ==> (crosses(x, always, j) <==> unit_drawn(x, j + 1).order()
            < 0x3fec_cccc_cccc_cccd),
        j > always ==> (crosses(x, always, j) <==> unit_drawn(x, j).order()
            < 0x3fec_cccc_cccc_cccd),
{
    lemma_unit_drawn(x, j);
    lemma_unit_drawn(x, j + 1);
}

/// A mutant's parameter that passed zero comes back as far on the other side, one
/// that passed 1 as its reflection there, each up to the other bound.
pub proof fn law_folding_reflects(v: Real, mirrored: Real)
    requires
        !v.nan(),
        !mirrored.nan(),
    ensures
        v.order() < 0 ==> folded(v, mirrored).order() == (if -v.order() > 0x3ff0_0000_0000_0000 {
            0x3ff0_0000_0000_0000int
        } else {
            -v.order()
        }),
        0 <= v.order() <= 0x3ff0_0000_0000_0000 ==> folded(v, mirrored) == v,
        v.order() > 0x3ff0_0000_0000_0000 ==> folded(v, mirrored).order() == (
        if mirrored.order() < 0 {
            0int
        } else if mirrored.order() > 0x3ff0_0000_0000_0000 {
            0x3ff0_0000_0000_0000
        } else {
            mirrored.order()
        }),
{
}

/// A trial takes the parameters that do not cross from the member, and of those
/// that do the mutant's, where these lie in the unit interval.
pub proof fn law_trials_mix_member_and_mutant(
    member: Seq<Real>,
    crossing: Seq<bool>,
    mutant: Seq<Real>,
    mirrored: Seq<Real>,
    j: int,
)
    requires
        0 <= j < member.len(),
        !mutant[j].nan(),
        !mirrored[j].nan(),
    ensures
        trial_of(member, crossing, mutant, mirrored).len() == member.len(),
        !crossing[j] ==> trial_of(member, crossing, mutant, mirrored)[j] == member[j],
        crossing[j] && 0 <= mutant[j].order() <= 0x3ff0_0000_0000_0000 ==> trial_of(
            member,
            crossing,
            mutant,
            mirrored,
        )[j] == mutant[j],
        crossing[j] ==> 0 <= trial_of(member, crossing, mutant, mirrored)[j].order()
            <= 0x3ff0_0000_0000_0000,
{
}

/// A score taken while seeding is that of the next member; later it replaces the
/// score of the member whose turn it is where it is no worse, and changes no
/// other.
pub proof fn law_scores_only_improve(e: Evolution, score: Real)
    requires
        e.wf(),
        e.stage == Stage::Trying || e.stage == Stage::Seeding,
        !score.nan(),
    ensures
        e.stage == Stage::Seeding ==> e.scores_with(score) == e.score@.push(score),
        e.stage == Stage::Trying ==> {
            let m = e.member as int;
            &&& e.scores_with(score).len() == e.score@.len()
            &&& score.order() <= e.score@[m].order() ==> e.scores_with(score)[m] == score
            &&& score.order() > e.score@[m].order() ==> e.scores_with(score)[m] == e.score@[m]
            &&& forall|k: int|
                0 <= k < e.score@.len() && k != m ==> #[trigger] e.scores_with(score)[k]
                    == e.score@[k]
        },
{
    if e.stage == Stage::Trying {
        assert(!e.score@[e.member as int].nan());
    }
}

/// The vehicles of a head-on impact head for each other along x: the nodes of A
/// start with its speed, those of B with its own the other way, and no node moves
/// sideways. Nothing is held, each front is in contact with the other, and every
/// step is recorded up to the end time.
pub proof fn law_vehicles_head_for_each_other(
    h: HeadOn,
    m: Model,
    mesh: Mesh<[Real; 3]>,
    a: Vehicle,
    material_a: Material,
    b: Vehicle,
    material_b: Material,
    stiffness: Real,
    max_distance: Real,
    n: int,
)
    requires
        h.is_setup(m, mesh, a, material_a, b, material_b, stiffness, max_distance),
        0 <= n < mesh.nodes@.len(),
    ensures
        mesh.node_sets@[b.name@].contains(n as usize) ==> m.initial_velocity@[n]@[0].order()
            == -h.speed_b.order(),
        mesh.node_sets@[a.name@].contains(n as usize) && !mesh.node_sets@[b.name@].contains(
            n as usize,
        ) ==> m.initial_velocity@[n]@[0] == h.speed_a,
        !mesh.node_sets@[a.name@].contains(n as usize) && !mesh.node_sets@[b.name@].contains(
            n as usize,
        ) ==> m.initial_velocity@[n]@[0].bits == 0,
        m.initial_velocity@[n]@[1].bits == 0,
        m.initial_velocity@[n]@[2].bits == 0,
        m.fixed_nodes@.len() == 0,
        m.settings.end_time == h.end_time,
        m.settings.history_steps == 1,
        m.contacts@.len() == 2,
        m.contacts@[0].faces@ == mesh.face_sets@[b.name@ + "_front"@],
        m.contacts@[1].faces@ == mesh.face_sets@[a.name@ + "_front"@],
        0 <= mesh.first_part(a.name@) < mesh.parts@.len() && 0 <= mesh.first_part(b.name@)
            < mesh.parts@.len() ==> {
            &&& m.materials@[mesh.first_part(b.name@)] == material_b
            &&& mesh.first_part(a.name@) != mesh.first_part(b.name@)
                ==> m.materials@[mesh.first_part(a.name@)] == material_a
        },
{
    let v = m.initial_velocity@[n]@;
    assert(v.len() == 3);
    assert(unset_materials(mesh).len() == mesh.parts@.len());
}

/// The state before one step of the generator.
pub open spec fn unstepped(y: u64) -> u64 {
    let b = y ^ (y >> 27) ^ (y >> 54);
    let a = b ^ (b << 25) ^ (b << 50);
    a ^ (a >> 12) ^ (a >> 24) ^ (a >> 36) ^ (a >> 48) ^ (a >> 60)
}

/// A step of the generator can be undone, so that no two states are followed by
/// the same: shifted by 12 to the right, by 25 to the left and by 27 to the right.
pub proof fn law_steps_can_be_undone(x: u64)
    ensures
        unstepped(stepped(x)) == x,
{
    assert(({
        let a = x ^ (x >> 12);
        let b = a ^ (a << 25);
        let y = b ^ (b >> 27);
        let d = y ^ (y >> 27) ^ (y >> 54);
        let c = d ^ (d << 25) ^ (d << 50);
        c ^ (c >> 12) ^ (c >> 24) ^ (c >> 36) ^ (c >> 48) ^ (c >> 60)
    }) == x) by (bit_vector);
}

/// What is drawn is the state times a fixed number, as far as 64 bits go; the
/// states follow one another, the first draw coming one step on.
pub proof fn law_draws_scramble_the_state(x: u64, t: int)
    requires
        t > 0,
    ensures
        drawn(x, t) as int == (state_after(x, t) * 0x2545_F491_4F6C_DD1D) % 0x1_0000_0000_0000_0000,
        state_after(x, 0) == x,
        unstepped(state_after(x, t)) == state_after(x, t - 1),
{
    law_steps_can_be_undone(state_after(x, t - 1));
}

/// An index drawn below a number is that number times the draw from the unit
/// interval, cut to a whole one: it is the draw's share of the number, but for
/// half a unit of the last place that the product is rounded to.
pub proof fn law_indices_are_the_share_of_the_draw(m: int, n: int) -> (r: (int, int))
    requires
        0 <= m < 0x20_0000_0000_0000,
        0 < n < 0x20_0000_0000_0000,
    ensures
        ({
            let (whole, place) = r;
            &&& place == pow2(excess((m * n) as nat))
            &&& 0x40_0000_0000_0000 * whole <= 2 * (m * n) + place
            &&& 2 * (m * n) - place < 0x40_0000_0000_0000 * (whole + 1)
            &&& m * n < 0x20_0000_0000_0000 ==> whole == 0
            &&& whole <= usize::MAX ==> index_of(m, n) == whole % n
            &&& 0 <= index_of(m, n) < n
        }),
{
    let size = law_rounding_is_to_the_nearest(n as nat);
    assert(m * n >= 0) by (nonlinear_arith)
        requires
            m >= 0,
            n > 0,
    ;
    let p = m * n;
    let place = law_rounding_is_to_the_nearest(p as nat);
    let whole = rounded(p as nat) / STEPS as int;
    assert(rounded(n as nat) == n);
    assert(m * rounded(n as nat) == p);
    lemma_fundamental_div_mod(rounded(p as nat), STEPS as int);
    vstd::arithmetic::div_mod::lemma_mod_bound(rounded(p as nat), STEPS as int);
    let held = if whole > usize::MAX {
        usize::MAX as int
    } else {
        whole
    };
    vstd::arithmetic::div_mod::lemma_mod_bound(held, n);
    assert(index_of(m, n) == held % n);
    assert(STEPS * whole <= rounded(p as nat) < STEPS * whole + STEPS);
    assert(2 * (m * n) - place <= 2 * rounded(p as nat) <= 2 * (m * n) + place);
    (whole, place)
}

} // verus!
