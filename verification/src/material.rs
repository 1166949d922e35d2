//! Materials: linear elastic properties plus optional plasticity, and the
//! checks and choices that the constitutive models make on them.
//!
//! * [`PlasticModel::Honeycomb`] (default for vehicles): crushable honeycomb in
//!   a corotational rate form.
//! * [`PlasticModel::J2`] / [`PlasticModel::CrushableFoam`]: finite-strain
//!   Hencky models.

use crate::number::Real;
use crate::roundoff::{
    lemma_product_adds, lemma_product_swaps, lemma_product_units, lemma_quotient,
    lemma_slopes_apart, product, quotient, size,
};
use vstd::prelude::*;

verus! {

#[derive(Clone, Copy, Debug, PartialEq, Eq, Structural)]
pub enum PlasticModel {
    /// von Mises: isochoric flow, hardening on equivalent plastic strain.
    /// For metals.
    J2,
    /// Isotropic crushable foam: each principal Kirchhoff stress capped at
    /// the yield stress independently, plastic Poisson ratio zero, hardening
    /// on the accumulated compaction. Elastic Poisson ratio treated as 0.
    CrushableFoam,
    /// Crushable honeycomb in a corotational rate form (LS-DYNA MAT_26 style).
    Honeycomb,
}

impl Default for PlasticModel {
    fn default() -> (r: PlasticModel)
        ensures
            r is Honeycomb,
    {
        PlasticModel::Honeycomb
    }
}

/// Maximum knots of a tabulated yield curve.
pub const MAX_KNOTS: usize = 8;

#[derive(Clone, Debug, PartialEq)]
pub struct Plasticity {
    /// Initial yield stress (Pa).
    pub yield_stress: Real,
    /// Linear hardening modulus (Pa).
    pub hardening: Real,
    pub model: PlasticModel,
    /// Tabulated yield stress against compaction `[[c, stress], ...]`
    /// (honeycomb only; up to [`MAX_KNOTS`] knots, compaction ascending from
    /// 0). When set it replaces `yield_stress` and `hardening`, which are kept
    /// equal to the first knot and first slope for reporting.
    pub curve: Vec<[Real; 2]>,
    /// Densification (lock-up) for the honeycomb model: `[c_lock, k_lock]` adds
    /// `k_lock * (c - c_lock)` to the yield stress beyond compaction `c_lock`.
    /// Uses one of the [`MAX_KNOTS`] knots.
    pub densification: Option<[Real; 2]>,
    /// Honeycomb only: cap factor of the two transverse normal stresses.
    pub transverse_factor: Real,
}

/// What is wrong with a plasticity record.
#[derive(Clone, Copy, Debug, PartialEq, Eq, Structural)]
pub enum CurveError {
    DensificationModel,
    DensificationRange,
    DensificationBeforeCurve,
    CurveModel,
    KnotCount,
    FirstKnot,
    KnotOrder,
    KnotStress,
}

impl CurveError {
    pub open spec fn text(self) -> Seq<char> {
        match self {
            CurveError::DensificationModel =>
            "densification is only supported by the honeycomb model"@,
            CurveError::DensificationRange =>
            "densification needs c_lock > 0 and k_lock >= 0"@,
            CurveError::DensificationBeforeCurve =>
            "densification c_lock must lie beyond the last curve knot"@,
            CurveError::CurveModel =>
            "tabulated yield curve is only supported by the honeycomb model"@,
            CurveError::KnotCount =>
            "yield curve needs 2..=8 knots (one fewer with densification)"@,
            CurveError::FirstKnot => "yield curve must start at compaction 0"@,
            CurveError::KnotOrder => "yield curve compaction must be strictly increasing"@,
            CurveError::KnotStress => "yield curve stresses must be positive"@,
        }
    }

    /// The message shown to the user.
    pub fn message(&self) -> (r: String)
        ensures
            r@ == self.text(),
    {
        let s: &str = match self {
            CurveError::DensificationModel =>
            "densification is only supported by the honeycomb model",
            CurveError::DensificationRange => "densification needs c_lock > 0 and k_lock >= 0",
            CurveError::DensificationBeforeCurve =>
            "densification c_lock must lie beyond the last curve knot",
            CurveError::CurveModel =>
            "tabulated yield curve is only supported by the honeycomb model",
            CurveError::KnotCount =>
            "yield curve needs 2..=8 knots (one fewer with densification)",
            CurveError::FirstKnot => "yield curve must start at compaction 0",
            CurveError::KnotOrder => "yield curve compaction must be strictly increasing",
            CurveError::KnotStress => "yield curve stresses must be positive",
        };
        s.to_string()
    }
}

/// Which line of its yield curve a material is on.
#[derive(Clone, Copy, Debug, PartialEq, Eq, Structural)]
pub struct YieldBranch {
    /// Segment of the tabulated curve; none where the curve is the straight
    /// line of `yield_stress` and `hardening`.
    pub segment: Option<usize>,
    /// Whether the lock-up slope comes on top.
    pub locked: bool,
}

/// What is wrong with the lock-up of a curve.
pub open spec fn densification_fault(
    model: PlasticModel,
    curve: Seq<[Real; 2]>,
    densification: Option<[Real; 2]>,
) -> Option<CurveError> {
    match densification {
        None => None,
        Some(d) => if !(model is Honeycomb) {
            Some(CurveError::DensificationModel)
        } else if d@[0].at_most(Real::spec_zero()) || d@[1].below(Real::spec_zero()) {
            Some(CurveError::DensificationRange)
        } else if curve.len() > 0 && d@[0].at_most(curve.last()@[0]) {
            Some(CurveError::DensificationBeforeCurve)
        } else {
            None
        },
    }
}

/// Two knots one after the other that do not ascend.
pub open spec fn descends_at(curve: Seq<[Real; 2]>, i: int) -> bool {
    0 <= i < curve.len() - 1 && curve[i + 1]@[0].at_most(curve[i]@[0])
}

/// What is wrong with a tabulated curve.
pub open spec fn curve_fault(
    model: PlasticModel,
    curve: Seq<[Real; 2]>,
    densification: Option<[Real; 2]>,
) -> Option<CurveError> {
    let n = curve.len();
    if n == 0 {
        None
    } else if !(model is Honeycomb) {
        Some(CurveError::CurveModel)
    } else if n < 2 || n + (if densification is Some {
        1int
    } else {
        0
    }) > MAX_KNOTS {
        Some(CurveError::KnotCount)
    } else if !curve[0]@[0].equals(Real::spec_zero()) {
        Some(CurveError::FirstKnot)
    } else if exists|i: int| #[trigger] descends_at(curve, i) {
        Some(CurveError::KnotOrder)
    } else if exists|i: int| 0 <= i < n && (#[trigger] curve[i])@[1].at_most(Real::spec_zero()) {
        Some(CurveError::KnotStress)
    } else {
        None
    }
}

/// The first thing wrong with a curve and its lock-up.
pub open spec fn fault_of(
    model: PlasticModel,
    curve: Seq<[Real; 2]>,
    densification: Option<[Real; 2]>,
) -> Option<CurveError> {
    match densification_fault(model, curve, densification) {
        Some(e) => Some(e),
        None => curve_fault(model, curve, densification),
    }
}

impl Plasticity {
    /// Compaction of knot `i`.
    pub open spec fn knot(self, i: int) -> Real {
        self.curve@[i]@[0]
    }

    /// Stress of knot `i`.
    pub open spec fn stress(self, i: int) -> Real {
        self.curve@[i]@[1]
    }

    /// The first thing wrong with the record.
    pub open spec fn fault(self) -> Option<CurveError> {
        fault_of(self.model, self.curve@, self.densification)
    }

    /// Validates a tabulated curve and the lock-up.
    #[verifier::loop_isolation(false)]
    pub fn check(&self) -> (r: Result<(), CurveError>)
        ensures
            match r {
                Ok(()) => self.fault() is None,
                Err(e) => self.fault() == Some(e),
            },
    {
        let n: usize = self.curve.len();
        let mut extra: usize = 0;
        if let Some(d) = self.densification {
            extra = 1;
            if self.model != PlasticModel::Honeycomb {
                return Err(CurveError::DensificationModel);
            }
            if d[0].le(Real::zero()) || d[1].lt(Real::zero()) {
                return Err(CurveError::DensificationRange);
            }
            if n > 0 && d[0].le(self.curve[n - 1][0]) {
                return Err(CurveError::DensificationBeforeCurve);
            }
        }
        if n == 0 {
            return Ok(());
        }
        if self.model != PlasticModel::Honeycomb {
            return Err(CurveError::CurveModel);
        }
        if n < 2 || n > MAX_KNOTS || n + extra > MAX_KNOTS {
            return Err(CurveError::KnotCount);
        }
        if !self.curve[0][0].same(Real::zero()) {
            return Err(CurveError::FirstKnot);
        }
        let mut i: usize = 0;
        while i < n - 1
            invariant
                n == self.curve@.len(),
                2 <= n,
                i <= n - 1,
                forall|k: int| k < i ==> !#[trigger] descends_at(self.curve@, k),
            decreases n - i,
        {
            if self.curve[i + 1][0].le(self.curve[i][0]) {
                assert(descends_at(self.curve@, i as int));
                return Err(CurveError::KnotOrder);
            }
            i += 1;
        }
        let mut j: usize = 0;
        while j < n
            invariant
                n == self.curve@.len(),
                j <= n,
                forall|k: int|
                    0 <= k < j ==> !(#[trigger] self.curve@[k])@[1].at_most(Real::spec_zero()),
            decreases n - j,
        {
            if self.curve[j][1].le(Real::zero()) {
                assert(self.curve@[j as int]@[1].at_most(Real::spec_zero()));
                return Err(CurveError::KnotStress);
            }
            j += 1;
        }
        Ok(())
    }

    /// Validates, and with a tabulated curve sets `yield_stress` and
    /// `hardening` to its first knot and slope (for reporting). `slope` is the
    /// slope of the line through two knots.
    pub fn normalise<F: Fn([Real; 2], [Real; 2]) -> Real>(&mut self, slope: F) -> (r: Result<
        (),
        CurveError,
    >)
        requires
            old(self).fault() is None && old(self).curve@.len() >= 2 ==> call_requires(
                slope,
                (old(self).curve@[0], old(self).curve@[1]),
            ),
        ensures
            match r {
                Ok(()) => old(self).fault() is None,
                Err(e) => old(self).fault() == Some(e),
            },
            final(self).model == old(self).model,
            final(self).curve == old(self).curve,
            final(self).densification == old(self).densification,
            final(self).transverse_factor == old(self).transverse_factor,
            if r is Ok && old(self).curve@.len() >= 2 {
                final(self).yield_stress == old(self).stress(0) && call_ensures(
                    slope,
                    (old(self).curve@[0], old(self).curve@[1]),
                    final(self).hardening,
                )
            } else {
                final(self).yield_stress == old(self).yield_stress && final(self).hardening == old(
                    self,
                ).hardening
            },
    {
        match self.check() {
            Err(e) => Err(e),
            Ok(()) => {
                if self.curve.len() >= 2 {
                    self.yield_stress = self.curve[0][1];
                    self.hardening = slope(self.curve[0], self.curve[1]);
                }
                Ok(())
            },
        }
    }

    /// Segment of the curve that holds at a compaction: the first whose far
    /// knot lies beyond it, or the last.
    pub open spec fn is_segment(self, c: Real, i: int) -> bool {
        &&& 0 <= i <= self.curve@.len() - 2
        &&& i == self.curve@.len() - 2 || !self.knot(i + 1).at_most(c)
        &&& forall|k: int| 0 <= k < i ==> (#[trigger] self.knot(k + 1)).at_most(c)
    }

    /// Which line of the yield curve holds at compaction `c`.
    pub fn yield_branch(&self, c: Real) -> (r: YieldBranch)
        ensures
            match r.segment {
                None => self.curve@.len() < 2,
                Some(i) => self.curve@.len() >= 2 && self.is_segment(c, i as int),
            },
            r.locked <==> self.densification is Some && self.densification->0@[0].below(c),
    {
        let locked: bool = match self.densification {
            Some(d) => d[0].lt(c),
            None => false,
        };
        if self.curve.len() < 2 {
            return YieldBranch { segment: None, locked };
        }
        let n: usize = self.curve.len();
        let mut i: usize = 0;
        while i < n - 2 && self.curve[i + 1][0].le(c)
            invariant
                n == self.curve@.len(),
                2 <= n,
                i <= n - 2,
                forall|k: int| 0 <= k < i ==> (#[trigger] self.knot(k + 1)).at_most(c),
            decreases n - i,
        {
            i += 1;
        }
        YieldBranch { segment: Some(i), locked }
    }

    /// Whether a yield stress and slope are those of the curve at compaction `c`
    /// before any lock-up.
    pub open spec fn is_on_curve<
        S: Fn(Real, Real, Real) -> (Real, Real),
        L: Fn([Real; 2], [Real; 2], Real) -> (Real, Real),
    >(self, c: Real, straight: S, line: L, r: (Real, Real)) -> bool {
        if self.curve@.len() < 2 {
            call_ensures(straight, (self.yield_stress, self.hardening, c), r)
        } else {
            exists|i: int| #[trigger]
                self.is_segment(c, i) && call_ensures(
                    line,
                    (self.curve@[i], self.curve@[i + 1], c),
                    r,
                )
        }
    }

    /// Whether a yield stress and slope are those at compaction `c`: of the
    /// curve, and past a lock-up with it on top.
    pub open spec fn yields<
        S: Fn(Real, Real, Real) -> (Real, Real),
        L: Fn([Real; 2], [Real; 2], Real) -> (Real, Real),
        K: Fn((Real, Real), [Real; 2], Real) -> (Real, Real),
    >(self, c: Real, straight: S, line: L, lock: K, r: (Real, Real)) -> bool {
        exists|base: (Real, Real)|
            {
                &&& #[trigger] self.is_on_curve(c, straight, line, base)
                &&& if self.densification is Some && self.densification->0@[0].below(c) {
                    call_ensures(lock, (base, self.densification->0, c), r)
                } else {
                    r == base
                }
            }
    }

    /// Yield stress and slope at compaction `c`. `straight` gives them on the
    /// line of a yield stress and a hardening, `line` on that through two
    /// knots, and `lock` adds a lock-up.
    pub fn yield_at<
        S: Fn(Real, Real, Real) -> (Real, Real),
        L: Fn([Real; 2], [Real; 2], Real) -> (Real, Real),
        K: Fn((Real, Real), [Real; 2], Real) -> (Real, Real),
    >(&self, c: Real, straight: S, line: L, lock: K) -> (r: (Real, Real))
        requires
            forall|a: Real, b: Real, c: Real| #[trigger] call_requires(straight, (a, b, c)),
            forall|a: [Real; 2], b: [Real; 2], c: Real| #[trigger] call_requires(line, (a, b, c)),
            forall|a: (Real, Real), b: [Real; 2], c: Real| #[trigger]
                call_requires(lock, (a, b, c)),
        ensures
            self.yields(c, straight, line, lock, r),
    {
        let branch: YieldBranch = self.yield_branch(c);
        let base: (Real, Real) = match branch.segment {
            None => straight(self.yield_stress, self.hardening, c),
            Some(i) => {
                let n: usize = self.curve.len();
                assert(i <= n - 2);
                line(self.curve[i], self.curve[i + 1], c)
            },
        };
        proof {
            if branch.segment is Some {
                assert(self.is_segment(c, branch.segment->0 as int));
            }
            assert(self.is_on_curve(c, straight, line, base));
        }
        match self.densification {
            Some(d) => if branch.locked {
                lock(base, d, c)
            } else {
                base
            },
            None => base,
        }
    }
}

/// Elastic properties, density and optional plasticity.
#[derive(Clone, Debug, PartialEq)]
pub struct Material {
    pub youngs_modulus: Real,
    pub poisson_ratio: Real,
    pub density: Real,
    pub plasticity: Option<Plasticity>,
}

impl Material {
    pub open spec fn spec_elastic(e: Real, nu: Real, rho: Real) -> Material {
        Material { youngs_modulus: e, poisson_ratio: nu, density: rho, plasticity: None }
    }

    pub fn elastic(youngs_modulus: Real, poisson_ratio: Real, density: Real) -> (m: Material)
        ensures
            m == Material::spec_elastic(youngs_modulus, poisson_ratio, density),
    {
        Material { youngs_modulus, poisson_ratio, density, plasticity: None }
    }

    /// Whether a material is plastic with straight-line hardening.
    pub open spec fn is_linear(
        self,
        e: Real,
        nu: Real,
        rho: Real,
        model: PlasticModel,
        yield_stress: Real,
        hardening: Real,
    ) -> bool {
        &&& self.youngs_modulus == e
        &&& self.poisson_ratio == nu
        &&& self.density == rho
        &&& self.plasticity matches Some(p) && p.yield_stress == yield_stress && p.hardening
            == hardening && p.model == model && p.curve@.len() == 0 && p.densification is None
            && p.transverse_factor == Real::spec_one()
    }

    fn linear(
        youngs_modulus: Real,
        poisson_ratio: Real,
        density: Real,
        model: PlasticModel,
        yield_stress: Real,
        hardening: Real,
    ) -> (m: Material)
        ensures
            m.is_linear(youngs_modulus, poisson_ratio, density, model, yield_stress, hardening),
    {
        Material {
            youngs_modulus,
            poisson_ratio,
            density,
            plasticity: Some(
                Plasticity {
                    yield_stress,
                    hardening,
                    model,
                    curve: Vec::new(),
                    densification: None,
                    transverse_factor: Real::one(),
                },
            ),
        }
    }

    pub fn j2(
        youngs_modulus: Real,
        poisson_ratio: Real,
        density: Real,
        yield_stress: Real,
        hardening: Real,
    ) -> (m: Material)
        ensures
            m.is_linear(
                youngs_modulus,
                poisson_ratio,
                density,
                PlasticModel::J2,
                yield_stress,
                hardening,
            ),
    {
        Self::linear(
            youngs_modulus,
            poisson_ratio,
            density,
            PlasticModel::J2,
            yield_stress,
            hardening,
        )
    }

    /// Isotropic crushable foam (elastic Poisson ratio treated as 0).
    pub fn crushable_foam(
        youngs_modulus: Real,
        density: Real,
        yield_stress: Real,
        hardening: Real,
    ) -> (m: Material)
        ensures
            m.is_linear(
                youngs_modulus,
                Real::spec_zero(),
                density,
                PlasticModel::CrushableFoam,
                yield_stress,
                hardening,
            ),
    {
        Self::linear(
            youngs_modulus,
            Real::zero(),
            density,
            PlasticModel::CrushableFoam,
            yield_stress,
            hardening,
        )
    }

    /// Crushable honeycomb, corotational rate form.
    pub fn honeycomb(
        youngs_modulus: Real,
        density: Real,
        yield_stress: Real,
        hardening: Real,
    ) -> (m: Material)
        ensures
            m.is_linear(
                youngs_modulus,
                Real::spec_zero(),
                density,
                PlasticModel::Honeycomb,
                yield_stress,
                hardening,
            ),
    {
        Self::linear(
            youngs_modulus,
            Real::zero(),
            density,
            PlasticModel::Honeycomb,
            yield_stress,
            hardening,
        )
    }

    /// Crushable honeycomb with a tabulated yield stress against compaction and
    /// optional densification; nothing when the curve does not pass
    /// [`Plasticity::check`]. `slope` is the slope of the line through two
    /// knots.
    pub fn honeycomb_curve<F: Fn([Real; 2], [Real; 2]) -> Real>(
        youngs_modulus: Real,
        density: Real,
        curve: Vec<[Real; 2]>,
        densification: Option<[Real; 2]>,
        slope: F,
    ) -> (r: Result<Material, CurveError>)
        requires
            curve@.len() >= 2,
            call_requires(slope, (curve@[0], curve@[1])),
        ensures
            match r {
                Ok(m) => fault_of(PlasticModel::Honeycomb, curve@, densification) is None,
                Err(e) => fault_of(PlasticModel::Honeycomb, curve@, densification) == Some(e),
            },
            r matches Ok(m) ==> m.youngs_modulus == youngs_modulus && m.poisson_ratio
                == Real::spec_zero() && m.density == density && (m.plasticity matches Some(p)
                && p.yield_stress == curve@[0]@[1] && call_ensures(
                slope,
                (curve@[0], curve@[1]),
                p.hardening,
            ) && p.model is Honeycomb && p.curve@ == curve@ && p.densification == densification
                && p.transverse_factor == Real::spec_one()),
    {
        let yield_stress: Real = curve[0][1];
        let hardening: Real = slope(curve[0], curve[1]);
        let p: Plasticity = Plasticity {
            yield_stress,
            hardening,
            model: PlasticModel::Honeycomb,
            curve,
            densification,
            transverse_factor: Real::one(),
        };
        let checked: Result<(), CurveError> = p.check();
        match checked {
            Err(e) => Err(e),
            Ok(()) => Ok(
                Material {
                    youngs_modulus,
                    poisson_ratio: Real::zero(),
                    density,
                    plasticity: Some(p),
                },
            ),
        }
    }

    pub fn is_plastic(&self) -> (b: bool)
        ensures
            b == (self.plasticity is Some),
    {
        self.plasticity.is_some()
    }

    pub fn model(&self) -> (r: Option<PlasticModel>)
        ensures
            match r {
                Some(m) => self.plasticity matches Some(p) && p.model == m,
                None => self.plasticity is None,
            },
    {
        match &self.plasticity {
            Some(p) => Some(p.model),
            None => None,
        }
    }

    /// The same material with every stress-like quantity (modulus, yield
    /// stress, hardening, curve stresses, lock-up slope) and the density
    /// scaled by `scale`: compactions, Poisson ratio and cap factor stay.
    pub fn scaled<F: Fn(Real) -> Real>(&self, scale: F) -> (m: Material)
        requires
            forall|x: Real| #[trigger] call_requires(scale, (x,)),
        ensures
            call_ensures(scale, (self.youngs_modulus,), m.youngs_modulus),
            call_ensures(scale, (self.density,), m.density),
            m.poisson_ratio == self.poisson_ratio,
            match self.plasticity {
                None => m.plasticity is None,
                Some(p) => m.plasticity matches Some(q) && {
                    &&& call_ensures(scale, (p.yield_stress,), q.yield_stress)
                    &&& call_ensures(scale, (p.hardening,), q.hardening)
                    &&& q.model == p.model
                    &&& q.transverse_factor == p.transverse_factor
                    &&& q.curve@.len() == p.curve@.len()
                    &&& forall|i: int|
                        0 <= i < p.curve@.len() ==> #[trigger] q.knot(i) == p.knot(i)
                            && call_ensures(scale, (p.stress(i),), q.stress(i))
                    &&& match p.densification {
                        None => q.densification is None,
                        Some(d) => q.densification matches Some(l) && l@[0] == d@[0]
                            && call_ensures(scale, (d@[1],), l@[1]),
                    }
                },
            },
    {
        let youngs_modulus: Real = scale(self.youngs_modulus);
        let density: Real = scale(self.density);
        let plasticity: Option<Plasticity> = match &self.plasticity {
            None => None,
            Some(p) => {
                let yield_stress: Real = scale(p.yield_stress);
                let hardening: Real = scale(p.hardening);
                let mut curve: Vec<[Real; 2]> = Vec::new();
                let mut i: usize = 0;
                while i < p.curve.len()
                    invariant
                        i <= p.curve@.len(),
                        forall|x: Real| #[trigger] call_requires(scale, (x,)),
                        curve@.len() == i,
                        forall|k: int|
                            0 <= k < i ==> (#[trigger] curve@[k])@[0] == p.knot(k)
                                && call_ensures(scale, (p.stress(k),), curve@[k]@[1]),
                    decreases p.curve.len() - i,
                {
                    let s: Real = scale(p.curve[i][1]);
                    curve.push([p.curve[i][0], s]);
                    i += 1;
                }
                let densification: Option<[Real; 2]> = match p.densification {
                    None => None,
                    Some(d) => Some([d[0], scale(d[1])]),
                };
                Some(
                    Plasticity {
                        yield_stress,
                        hardening,
                        model: p.model,
                        curve,
                        densification,
                        transverse_factor: p.transverse_factor,
                    },
                )
            },
        };
        Material { youngs_modulus, poisson_ratio: self.poisson_ratio, density, plasticity }
    }
}


/// Compact parameters of the honeycomb model: the yield curve as `knots`
/// (compaction, stress, slope of the following segment), with unused knots at
/// infinite compaction.
#[derive(Clone, Copy, Debug, PartialEq)]
pub struct HoneycombParams {
    pub youngs_modulus: Real,
    pub yield_stress: Real,
    pub hardening: Real,
    pub knots: [[Real; 3]; 8],
    /// Cap factor per normal component (local x, y, z).
    pub cap_factor: [Real; 3],
}

/// A knot that no compaction reaches.
pub open spec fn unused_knot() -> [Real; 3] {
    [Real::spec_infinity(), Real::spec_zero(), Real::spec_zero()]
}

impl HoneycombParams {
    /// Number of knots that the curve of a material takes.
    pub open spec fn curve_knots(p: Plasticity) -> int {
        if p.curve@.len() < 2 {
            1
        } else {
            p.curve@.len() as int
        }
    }

    /// The knots of a tabulated curve: compaction and stress as tabulated, the
    /// slope of the segment that follows, and on the last the slope before.
    pub open spec fn tabulates<F: Fn([Real; 2], [Real; 2]) -> Real>(
        self,
        p: Plasticity,
        slope: F,
    ) -> bool {
        &&& forall|i: int|
            0 <= i < p.curve@.len() ==> (#[trigger] self.knots@[i])@[0] == p.knot(i)
                && self.knots@[i]@[1] == p.stress(i)
        &&& forall|i: int|
            0 <= i < p.curve@.len() - 1 ==> call_ensures(
                slope,
                (p.curve@[i], p.curve@[i + 1]),
                (#[trigger] self.knots@[i])@[2],
            )
        &&& self.knots@[p.curve@.len() - 1]@[2] == self.knots@[p.curve@.len() - 2]@[2]
    }

    /// Whether the knots are those of a material's curve: the tabulated ones, or
    /// one on the line of its yield stress and hardening; then one at the
    /// lock-up, if there is one; and the others unused.
    pub open spec fn describes<
        F: Fn([Real; 2], [Real; 2]) -> Real,
        G: Fn([Real; 3], [Real; 2]) -> [Real; 3],
    >(self, p: Plasticity, slope: F, lock: G) -> bool {
        let n = HoneycombParams::curve_knots(p);
        &&& p.curve@.len() < 2 ==> self.knots@[0]@ == seq![
            Real::spec_zero(),
            p.yield_stress,
            p.hardening,
        ]
        &&& p.curve@.len() >= 2 ==> self.tabulates(p, slope)
        &&& match p.densification {
            Some(d) => call_ensures(lock, (self.knots@[n - 1], d), self.knots@[n]) && forall|i: int|
                n < i < MAX_KNOTS ==> #[trigger] self.knots@[i] == unused_knot(),
            None => forall|i: int|
                n <= i < MAX_KNOTS ==> #[trigger] self.knots@[i] == unused_knot(),
        }
    }

    /// The parameters of a honeycomb material. `slope` is the slope of the line
    /// through two knots, and `lock` the knot at a lock-up on the line of the
    /// last knot.
    pub fn from_material<
        F: Fn([Real; 2], [Real; 2]) -> Real,
        G: Fn([Real; 3], [Real; 2]) -> [Real; 3],
    >(material: &Material, slope: F, lock: G) -> (r: HoneycombParams)
        requires
            material.plasticity is Some,
            material.plasticity->0.fault() is None,
            forall|a: [Real; 2], b: [Real; 2]| #[trigger] call_requires(slope, (a, b)),
            forall|a: [Real; 3], b: [Real; 2]| #[trigger] call_requires(lock, (a, b)),
        ensures
            r.youngs_modulus == material.youngs_modulus,
            ({
                let p = material.plasticity->0;
                &&& r.yield_stress == p.yield_stress
                &&& r.hardening == p.hardening
                &&& r.cap_factor@ == seq![
                    Real::spec_one(),
                    p.transverse_factor,
                    p.transverse_factor,
                ]
                &&& r.describes(p, slope, lock)
            }),
    {
        let p: &Plasticity = match &material.plasticity {
            Some(p) => p,
            None => {
                return HoneycombParams::new(Real::zero(), Real::zero(), Real::zero());
            },
        };
        let none: [Real; 3] = [Real::infinity(), Real::zero(), Real::zero()];
        assert(none@ =~= unused_knot()@);
        assert(none == unused_knot());
        let mut knots: [[Real; 3]; 8] = [none, none, none, none, none, none, none, none];
        let mut n: usize = 1;
        if p.curve.len() < 2 {
            knots[0] = [Real::zero(), p.yield_stress, p.hardening];
            assert(knots@[0]@ =~= seq![Real::spec_zero(), p.yield_stress, p.hardening]);
        } else {
            n = p.curve.len();
            let mut i: usize = 0;
            while i < n
                invariant
                    i <= n,
                    2 <= n <= MAX_KNOTS,
                    n == p.curve@.len(),
                    forall|a: [Real; 2], b: [Real; 2]| #[trigger] call_requires(slope, (a, b)),
                    forall|k: int|
                        0 <= k < i ==> (#[trigger] knots@[k])@[0] == p.knot(k) && knots@[k]@[1]
                            == p.stress(k),
                    forall|k: int|
                        0 <= k < i && k < n - 1 ==> call_ensures(
                            slope,
                            (p.curve@[k], p.curve@[k + 1]),
                            (#[trigger] knots@[k])@[2],
                        ),
                    i == n ==> knots@[n - 1]@[2] == knots@[n - 2]@[2],
                    forall|k: int| i <= k < MAX_KNOTS ==> #[trigger] knots@[k] == unused_knot(),
                decreases n - i,
            {
                let h: Real = if i + 1 < n {
                    slope(p.curve[i], p.curve[i + 1])
                } else {
                    knots[i - 1][2]
                };
                let knot: [Real; 3] = [p.curve[i][0], p.curve[i][1], h];
                let ghost was = knots@;
                knots[i] = knot;
                assert(knots@ == was.update(i as int, knot));
                i += 1;
            }
        }
        if let Some(d) = p.densification {
            let last: [Real; 3] = knots[n - 1];
            let ghost was = knots@;
            knots[n] = lock(last, d);
            assert(knots@ =~= was.update(n as int, knots@[n as int]));
        }
        let cap_factor: [Real; 3] = [Real::one(), p.transverse_factor, p.transverse_factor];
        assert(cap_factor@ =~= seq![
            Real::spec_one(),
            p.transverse_factor,
            p.transverse_factor,
        ]);
        HoneycombParams {
            youngs_modulus: material.youngs_modulus,
            yield_stress: p.yield_stress,
            hardening: p.hardening,
            knots,
            cap_factor,
        }
    }

    /// The parameters of straight-line hardening.
    pub fn new(youngs_modulus: Real, yield_stress: Real, hardening: Real) -> (r: HoneycombParams)
        ensures
            r.youngs_modulus == youngs_modulus,
            r.yield_stress == yield_stress,
            r.hardening == hardening,
            r.knots@[0]@ == seq![Real::spec_zero(), yield_stress, hardening],
            forall|i: int| 0 < i < MAX_KNOTS ==> #[trigger] r.knots@[i] == unused_knot(),
            r.cap_factor@ == seq![Real::spec_one(), Real::spec_one(), Real::spec_one()],
    {
        let none: [Real; 3] = [Real::infinity(), Real::zero(), Real::zero()];
        assert(none@ =~= unused_knot()@);
        assert(none == unused_knot());
        let first: [Real; 3] = [Real::zero(), yield_stress, hardening];
        assert(first@ =~= seq![Real::spec_zero(), yield_stress, hardening]);
        let cap_factor: [Real; 3] = [Real::one(), Real::one(), Real::one()];
        assert(cap_factor@ =~= seq![Real::spec_one(), Real::spec_one(), Real::spec_one()]);
        HoneycombParams {
            youngs_modulus,
            yield_stress,
            hardening,
            knots: [first, none, none, none, none, none, none, none],
            cap_factor,
        }
    }

    /// The knot in force at a compaction: the last at or below it, and the
    /// first where there is none.
    pub open spec fn in_force(self, c: Real, i: int) -> bool {
        &&& 0 <= i < MAX_KNOTS
        &&& i > 0 ==> self.knots@[i]@[0].at_most(c)
        &&& forall|k: int| i < k < MAX_KNOTS ==> !(#[trigger] self.knots@[k])@[0].at_most(c)
    }

    /// The knot in force at compaction `c` (a scan over all knots).
    pub fn knot_at(&self, c: Real) -> (at: usize)
        ensures
            self.in_force(c, at as int),
    {
        let mut at: usize = 0;
        let mut i: usize = 1;
        while i < MAX_KNOTS
            invariant
                1 <= i <= MAX_KNOTS,
                at < i,
                at > 0 ==> self.knots@[at as int]@[0].at_most(c),
                forall|k: int| at < k < i ==> !(#[trigger] self.knots@[k])@[0].at_most(c),
            decreases MAX_KNOTS - i,
        {
            if self.knots[i][0].le(c) {
                at = i;
            }
            i += 1;
        }
        at
    }

    /// Whether a yield stress and slope are those on the line of the knot in
    /// force at compaction `c`.
    pub open spec fn yields<F: Fn([Real; 3], Real) -> (Real, Real)>(
        self,
        c: Real,
        line: F,
        r: (Real, Real),
    ) -> bool {
        exists|i: int| #[trigger]
            self.in_force(c, i) && call_ensures(line, (self.knots@[i], c), r)
    }

    /// Yield stress and slope at compaction `c`: `line` gives them on the line
    /// of a knot.
    pub fn yield_at<F: Fn([Real; 3], Real) -> (Real, Real)>(&self, c: Real, line: F) -> (r: (
        Real,
        Real,
    ))
        requires
            forall|k: [Real; 3], c: Real| #[trigger] call_requires(line, (k, c)),
        ensures
            self.yields(c, line, r),
    {
        let at: usize = self.knot_at(c);
        assert(self.in_force(c, at as int));
        line(self.knots[at], c)
    }
}

/// On a valid curve the knots ascend, so that of two knots the later lies
/// above.
pub proof fn lemma_knots_ascend(p: Plasticity, i: int, j: int)
    requires
        p.fault() is None,
        p.curve@.len() >= 2,
        0 <= i < j < p.curve@.len(),
        forall|k: int| 0 <= k < p.curve@.len() ==> !(#[trigger] p.knot(k)).nan(),
    ensures
        p.knot(i).order() < p.knot(j).order(),
    decreases j,
{
    assert(!descends_at(p.curve@, j - 1));
    assert(!p.knot(j).nan() && !p.knot(j - 1).nan());
    if i < j - 1 {
        lemma_knots_ascend(p, i, j - 1);
    }
}

/// The scan over the knots and the search along the curve agree: within the
/// curve they give the same segment, and past its last knot the scan is on the
/// knot whose slope is that of the last segment, or on the lock-up.
pub proof fn law_scan_matches_search<F: Fn([Real; 2], [Real; 2]) -> Real>(
    p: Plasticity,
    r: HoneycombParams,
    slope: F,
    c: Real,
    segment: int,
    at: int,
)
    requires
        p.fault() is None,
        p.curve@.len() >= 2,
        forall|k: int| 0 <= k < p.curve@.len() ==> !(#[trigger] p.knot(k)).nan(),
        r.tabulates(p, slope),
        forall|i: int|
            p.curve@.len() < i < MAX_KNOTS ==> (#[trigger] r.knots@[i]) == unused_knot(),
        p.curve@.len() < MAX_KNOTS ==> {
            ||| p.densification is None && r.knots@[p.curve@.len() as int] == unused_knot()
            ||| p.densification is Some && r.knots@[p.curve@.len() as int]@[0]
                == p.densification->0@[0] && !p.densification->0@[0].nan()
        },
        c.finite(),
        p.is_segment(c, segment),
        r.in_force(c, at),
    ensures
        c.order() < p.knot(p.curve@.len() - 1).order() ==> at == segment,
        c.order() >= p.knot(p.curve@.len() - 1).order() ==> segment == p.curve@.len() - 2 && at
            >= p.curve@.len() - 1,
        at >= p.curve@.len() ==> p.densification is Some && at == p.curve@.len()
            && p.densification->0@[0].at_most(c),
{
    let n = p.curve@.len() as int;
    assert(unused_knot()@[0] == Real::spec_infinity());
    assert forall|i: int| n < i < MAX_KNOTS implies !(#[trigger] r.knots@[i])@[0].at_most(c) by {
        assert(r.knots@[i] == unused_knot());
    }
    if n < MAX_KNOTS && p.densification is None {
        assert(!r.knots@[n]@[0].at_most(c));
    }
    assert(at <= n);
    if c.order() < p.knot(n - 1).order() {
        if at >= n {
            assert(r.knots@[n]@[0] == p.densification->0@[0]);
            assert(!p.densification->0@[0].at_most(p.knot(n - 1)));
        }
        if at == n - 1 {
            assert(r.knots@[n - 1]@[0] == p.knot(n - 1));
        }
        if at < segment {
            assert(p.knot((segment - 1) + 1).at_most(c));
            assert(r.knots@[segment]@[0] == p.knot(segment));
            assert(!r.knots@[segment]@[0].at_most(c));
        }
        if segment < at {
            assert(r.knots@[at]@[0] == p.knot(at));
            if segment + 1 < at {
                lemma_knots_ascend(p, segment + 1, at);
            }
            if segment == n - 2 {
                assert(at == n - 1);
            } else {
                assert(!p.knot(segment + 1).at_most(c));
            }
        }
    } else {
        if segment < n - 2 {
            lemma_knots_ascend(p, segment + 1, n - 1);
            assert(!p.knot(segment + 1).at_most(c));
        }
        if at < n - 1 {
            assert(r.knots@[n - 1]@[0] == p.knot(n - 1));
            assert(!r.knots@[n - 1]@[0].at_most(c));
        }
    }
}

/// Whether the numbers that encodings stand for are ordered as the encodings are.
pub open spec fn keeps_order(value: spec_fn(Real) -> real) -> bool {
    &&& value(Real::spec_zero()) == 0 as real
    &&& forall|a: Real, b: Real| #[trigger] a.below(b) ==> value(a) < value(b)
    &&& forall|a: Real, b: Real| #[trigger] a.equals(b) ==> value(a) == value(b)
}

/// Whether a stress and a slope are those on a line, each off by `t` at most: the
/// line of slope `m` through `y`, a distance `x` on.
pub open spec fn near_line(
    r: (Real, Real),
    value: spec_fn(Real) -> real,
    y: real,
    m: real,
    x: real,
    t: real,
) -> bool {
    size(value(r.0) - (y + product(m, x))) <= t && size(value(r.1) - m) <= t
}

/// The slope of the line through two knots.
pub open spec fn rise(value: spec_fn(Real) -> real, a: [Real; 2], b: [Real; 2]) -> real {
    quotient(value(b@[1]) - value(a@[1]), value(b@[0]) - value(a@[0]))
}

/// Whether the lines of a curve, at one compaction, are off by `t` at most: the
/// straight line, that through two knots, and what a lock-up adds.
pub open spec fn curve_is_near<
    S: Fn(Real, Real, Real) -> (Real, Real),
    L: Fn([Real; 2], [Real; 2], Real) -> (Real, Real),
    K: Fn((Real, Real), [Real; 2], Real) -> (Real, Real),
>(p: Plasticity, c: Real, straight: S, line: L, lock: K, value: spec_fn(Real) -> real, t: real) -> bool {
    &&& p.curve@.len() < 2 ==> forall|r: (Real, Real)| #[trigger]
        call_ensures(straight, (p.yield_stress, p.hardening, c), r) ==> near_line(
            r,
            value,
            value(p.yield_stress),
            value(p.hardening),
            value(c),
            t,
        )
    &&& forall|i: int, r: (Real, Real)|
        0 <= i <= p.curve@.len() - 2 && #[trigger] call_ensures(
            line,
            (p.curve@[i], p.curve@[i + 1], c),
            r,
        ) ==> near_line(
            r,
            value,
            value(p.stress(i)),
            rise(value, p.curve@[i], p.curve@[i + 1]),
            value(c) - value(p.knot(i)),
            t,
        )
    &&& p.densification is Some ==> forall|base: (Real, Real), r: (Real, Real)| #[trigger]
        call_ensures(lock, (base, p.densification->0, c), r) && p.is_on_curve(
            c,
            straight,
            line,
            base,
        ) ==> {
            let d = p.densification->0;
            &&& size(
                value(r.0) - (value(base.0) + product(value(d@[1]), value(c) - value(d@[0]))),
            ) <= t
            &&& size(value(r.1) - (value(base.1) + value(d@[1]))) <= t
        }
}

/// Whether the table of a curve and its lines, at one compaction, are off by `t`
/// at most: the slopes between knots, the knot at the lock-up, and the line of
/// each knot.
pub open spec fn table_is_near<
    F: Fn([Real; 2], [Real; 2]) -> Real,
    G: Fn([Real; 3], [Real; 2]) -> [Real; 3],
    N: Fn([Real; 3], Real) -> (Real, Real),
>(
    p: Plasticity,
    h: HoneycombParams,
    c: Real,
    slope: F,
    lock_knot: G,
    knot_line: N,
    value: spec_fn(Real) -> real,
    t: real,
) -> bool {
    let n = HoneycombParams::curve_knots(p);
    &&& forall|i: int, z: Real|
        0 <= i <= p.curve@.len() - 2 && #[trigger] call_ensures(
            slope,
            (p.curve@[i], p.curve@[i + 1]),
            z,
        ) ==> size(value(z) - rise(value, p.curve@[i], p.curve@[i + 1])) <= t
    &&& p.densification is Some ==> forall|q: [Real; 3]| #[trigger]
        call_ensures(lock_knot, (h.knots@[n - 1], p.densification->0), q) ==> {
            let (k, d) = (h.knots@[n - 1], p.densification->0);
            &&& q@[0] == d@[0]
            &&& size(
                value(q@[1]) - (value(k@[1]) + product(
                    value(k@[2]),
                    value(d@[0]) - value(k@[0]),
                )),
            ) <= t
            &&& size(value(q@[2]) - (value(k@[2]) + value(d@[1]))) <= t
        }
    &&& forall|j: int, r: (Real, Real)|
        0 <= j < MAX_KNOTS && #[trigger] call_ensures(knot_line, (h.knots@[j], c), r) ==> near_line(
            r,
            value,
            value(h.knots@[j]@[1]),
            value(h.knots@[j]@[2]),
            value(c) - value(h.knots@[j]@[0]),
            t,
        )
}

/// Whether a compaction is at most `w` from every knot of a curve and from the
/// lock-up, and the lock-up as far from the last knot.
pub open spec fn is_in_reach(
    p: Plasticity,
    h: HoneycombParams,
    c: Real,
    value: spec_fn(Real) -> real,
    w: real,
) -> bool {
    let n = HoneycombParams::curve_knots(p);
    &&& forall|j: int|
        0 <= j < n ==> size(value(c) - value((#[trigger] h.knots@[j])@[0])) <= w
    &&& p.densification is Some ==> {
        let d = p.densification->0@[0];
        size(value(c) - value(d)) <= w && size(value(d) - value(h.knots@[n - 1]@[0])) <= w
    }
}

/// A line by its slope and by one that is off by `t` at most.
proof fn lemma_lines_apart(
    search: (Real, Real),
    scan: (Real, Real),
    value: spec_fn(Real) -> real,
    y: real,
    m: real,
    near: real,
    x: real,
    t: real,
    w: real,
)
    requires
        near_line(search, value, y, m, x, t),
        near_line(scan, value, y, near, x, t),
        size(near - m) <= t,
        size(x) <= w,
    ensures
        size(value(scan.0) - value(search.0)) <= t + t + product(t, w),
        size(value(scan.1) - value(search.1)) <= t + t + t,
        0 as real <= product(t, w),
{
    lemma_slopes_apart(near, m, x, t, w);
}

/// The line of the last stretch of a curve, on from its last knot.
proof fn lemma_line_from_its_end(
    value: spec_fn(Real) -> real,
    a: [Real; 2],
    b: [Real; 2],
    c: real,
)
    requires
        value(a@[0]) < value(b@[0]),
    ensures
        value(a@[1]) + product(rise(value, a, b), c - value(a@[0])) == value(b@[1]) + product(
            rise(value, a, b),
            c - value(b@[0]),
        ),
{
    let (m, gap) = (rise(value, a, b), value(b@[0]) - value(a@[0]));
    lemma_quotient(value(b@[1]) - value(a@[1]), gap);
    lemma_product_adds(m, c - value(b@[0]), gap);
    assert(c - value(a@[0]) == (c - value(b@[0])) + gap);
}

/// Past the lock-up, the line of the last stretch with the lock-up on top, and
/// the line of the knot at the lock-up.
proof fn lemma_lock_apart(
    base: (Real, Real),
    search: (Real, Real),
    scan: (Real, Real),
    k: [Real; 3],
    d: [Real; 2],
    q: [Real; 3],
    c: Real,
    value: spec_fn(Real) -> real,
    m: real,
    t: real,
    w: real,
)
    requires
        near_line(base, value, value(k@[1]), m, value(c) - value(k@[0]), t),
        size(value(k@[2]) - m) <= t,
        size(value(q@[1]) - (value(k@[1]) + product(value(k@[2]), value(d@[0]) - value(k@[0]))))
            <= t,
        size(value(q@[2]) - (value(k@[2]) + value(d@[1]))) <= t,
        near_line(
            scan,
            value,
            value(q@[1]),
            value(q@[2]),
            value(c) - value(d@[0]),
            t,
        ),
        size(value(c) - value(d@[0])) <= w,
        size(value(d@[0]) - value(k@[0])) <= w,
    ensures
        0 as real <= product(t, w),
        ({
            &&& size(
                value(search.0) - (value(base.0) + product(
                    value(d@[1]),
                    value(c) - value(d@[0]),
                )),
            ) <= t
            &&& size(value(search.1) - (value(base.1) + value(d@[1]))) <= t
        }) ==> {
            &&& size(value(scan.0) - value(search.0)) <= t + t + t + t + product(t, w) + product(
                t,
                w,
            ) + product(t, w)
            &&& size(value(scan.1) - value(search.1)) <= t + t + t + t + t
        },
        value(c) == value(d@[0]) && search == base ==> size(value(scan.0) - value(search.0)) <= t
            + t + t + product(t, w),
{
    let (x, z) = (value(c) - value(d@[0]), value(d@[0]) - value(k@[0]));
    let (k2, q2, add) = (value(k@[2]), value(q@[2]), value(d@[1]));
    lemma_slopes_apart(k2, m, z, t, w);
    lemma_slopes_apart(q2, m + add, x, t + t, w);
    lemma_product_swaps(t + t, w);
    lemma_product_adds(w, t, t);
    lemma_product_swaps(w, t);
    lemma_product_swaps(m + add, x);
    lemma_product_adds(x, m, add);
    lemma_product_swaps(m, x);
    lemma_product_swaps(add, x);
    lemma_product_adds(m, z, x);
    assert(z + x == value(c) - value(k@[0]));
    if x == 0 as real {
        lemma_product_units(q2);
    }
}

/// The curve of a material and its table of knots give the same yield stress and
/// slope at every finite compaction, up to round-off: where each operation is off
/// by `t` at most, and the compaction by `w` from the knots, the stresses are at
/// most `4 t + 3 t w` apart and the slopes `5 t`. Where the lock-up begins only
/// the stresses agree: there the table is on the lock-up already.
pub proof fn law_yields_agree<
    F: Fn([Real; 2], [Real; 2]) -> Real,
    G: Fn([Real; 3], [Real; 2]) -> [Real; 3],
    S: Fn(Real, Real, Real) -> (Real, Real),
    L: Fn([Real; 2], [Real; 2], Real) -> (Real, Real),
    K: Fn((Real, Real), [Real; 2], Real) -> (Real, Real),
    N: Fn([Real; 3], Real) -> (Real, Real),
>(
    p: Plasticity,
    h: HoneycombParams,
    slope: F,
    lock_knot: G,
    c: Real,
    straight: S,
    line: L,
    lock: K,
    knot_line: N,
    search: (Real, Real),
    scan: (Real, Real),
    value: spec_fn(Real) -> real,
    t: real,
    w: real,
)
    requires
        p.fault() is None,
        forall|k: int| 0 <= k < p.curve@.len() ==> !(#[trigger] p.knot(k)).nan(),
        p.densification is Some ==> !p.densification->0@[0].nan(),
        h.describes(p, slope, lock_knot),
        c.finite(),
        p.yields(c, straight, line, lock, search),
        h.yields(c, knot_line, scan),
        keeps_order(value),
        0 as real <= t,
        curve_is_near(p, c, straight, line, lock, value, t),
        table_is_near(p, h, c, slope, lock_knot, knot_line, value, t),
        is_in_reach(p, h, c, value, w),
    ensures
        size(value(scan.0) - value(search.0)) <= t + t + t + t + product(t, w) + product(t, w)
            + product(t, w),
        size(value(scan.1) - value(search.1)) <= t + t + t + t + t || p.densification is Some
            && p.densification->0@[0].equals(c),
{
    let n = HoneycombParams::curve_knots(p);
    let base = choose|base: (Real, Real)|
        {
            &&& #[trigger] p.is_on_curve(c, straight, line, base)
            &&& if p.densification is Some && p.densification->0@[0].below(c) {
                call_ensures(lock, (base, p.densification->0, c), search)
            } else {
                search == base
            }
        };
    let at = choose|i: int| #[trigger]
        h.in_force(c, i) && call_ensures(knot_line, (h.knots@[i], c), scan);
    assert(unused_knot()@[0] == Real::spec_infinity());
    assert forall|i: int| n < i < MAX_KNOTS implies !(#[trigger] h.knots@[i])@[0].at_most(c) by {
        assert(h.knots@[i] == unused_knot());
    }
    if n < MAX_KNOTS && p.densification is None {
        assert(h.knots@[n] == unused_knot());
        assert(!h.knots@[n]@[0].at_most(c));
    }
    assert(at <= n);
    let last = h.knots@[n - 1];
    let locked = p.densification is Some && p.densification->0@[0].at_most(c);
    assert(size(value(c) - value(last@[0])) <= w);
    if p.curve@.len() < 2 {
        let m = value(p.hardening);
        assert(last@ =~= seq![Real::spec_zero(), p.yield_stress, p.hardening]);
        assert(near_line(base, value, value(last@[1]), m, value(c) - value(last@[0]), t));
        if locked {
            assert(h.knots@[n]@[0].at_most(c));
            assert(at == n);
            lemma_lock_apart(
                base,
                search,
                scan,
                last,
                p.densification->0,
                h.knots@[n],
                c,
                value,
                m,
                t,
                w,
            );
        } else {
            if at == 1 {
                assert(!h.knots@[n]@[0].at_most(c));
            }
            assert(at == 0);
            lemma_lines_apart(
                search,
                scan,
                value,
                value(last@[1]),
                m,
                m,
                value(c) - value(last@[0]),
                t,
                w,
            );
        }
    } else {
        let segment = choose|i: int| #[trigger]
            p.is_segment(c, i) && call_ensures(line, (p.curve@[i], p.curve@[i + 1], c), base);
        law_scan_matches_search(p, h, slope, c, segment, at);
        let (a, b) = (p.curve@[segment], p.curve@[segment + 1]);
        let m = rise(value, a, b);
        assert(call_ensures(slope, (a, b), h.knots@[segment]@[2]));
        if segment == n - 2 {
            lemma_knots_ascend(p, n - 2, n - 1);
            assert(p.knot(n - 2).below(p.knot(n - 1)));
            lemma_line_from_its_end(value, a, b, value(c));
            assert(last@[0] == p.knot(n - 1) && last@[1] == p.stress(n - 1));
            assert(last@[2] == h.knots@[n - 2]@[2]);
        }
        if locked {
            assert(h.knots@[n]@[0].at_most(c));
            assert(at == n);
            lemma_lock_apart(
                base,
                search,
                scan,
                last,
                p.densification->0,
                h.knots@[n],
                c,
                value,
                m,
                t,
                w,
            );
        } else {
            assert(at < n);
            let k = h.knots@[at];
            assert(k@[0] == p.knot(at) && k@[1] == p.stress(at));
            assert(size(value(c) - value(k@[0])) <= w);
            lemma_lines_apart(
                search,
                scan,
                value,
                value(k@[1]),
                m,
                value(k@[2]),
                value(c) - value(k@[0]),
                t,
                w,
            );
        }
    }
}

// ---- Voigt notation ----

/// Place of tensor component `(i, j)` in the order xx yy zz xy yz xz.
pub open spec fn voigt_place(i: int, j: int) -> int {
    if i == j {
        i
    } else if i + j == 1 {
        3
    } else if i + j == 3 {
        4
    } else {
        5
    }
}

/// Voigt stress as a symmetric 3x3 tensor.
pub fn voigt_to_tensor(s: &[Real; 6]) -> (t: [[Real; 3]; 3])
    ensures
        forall|i: int, j: int|
            0 <= i < 3 && 0 <= j < 3 ==> #[trigger] t@[i]@[j] == s@[voigt_place(i, j)],
{
    let t: [[Real; 3]; 3] = [[s[0], s[3], s[5]], [s[3], s[1], s[4]], [s[5], s[4], s[2]]];
    assert forall|i: int, j: int| 0 <= i < 3 && 0 <= j < 3 implies #[trigger] t@[i]@[j]
        == s@[voigt_place(i, j)] by {
        if i == 0 {
            if j == 0 {
            } else if j == 1 {
            } else {
                assert(j == 2);
            }
        } else if i == 1 {
            if j == 0 {
            } else if j == 1 {
            } else {
                assert(j == 2);
            }
        } else {
            assert(i == 2);
            if j == 0 {
            } else if j == 1 {
            } else {
                assert(j == 2);
            }
        }
    }
    t
}

/// Symmetric 3x3 stress tensor in Voigt order.
pub fn tensor_to_voigt(t: &[[Real; 3]; 3]) -> (s: [Real; 6])
    ensures
        s@ == seq![t@[0]@[0], t@[1]@[1], t@[2]@[2], t@[0]@[1], t@[1]@[2], t@[0]@[2]],
{
    let s: [Real; 6] = [t[0][0], t[1][1], t[2][2], t[0][1], t[1][2], t[0][2]];
    assert(s@ =~= seq![t@[0]@[0], t@[1]@[1], t@[2]@[2], t@[0]@[1], t@[1]@[2], t@[0]@[2]]);
    s
}

/// Writing a Voigt stress as a tensor and reading it back gives the stress.
pub proof fn law_voigt_round_trip(s: [Real; 6], t: [[Real; 3]; 3])
    requires
        forall|i: int, j: int|
            0 <= i < 3 && 0 <= j < 3 ==> #[trigger] t@[i]@[j] == s@[voigt_place(i, j)],
    ensures
        seq![t@[0]@[0], t@[1]@[1], t@[2]@[2], t@[0]@[1], t@[1]@[2], t@[0]@[2]] == s@,
        forall|i: int, j: int| 0 <= i < 3 && 0 <= j < 3 ==> #[trigger] t@[i]@[j] == t@[j]@[i],
{
    assert(seq![t@[0]@[0], t@[1]@[1], t@[2]@[2], t@[0]@[1], t@[1]@[2], t@[0]@[2]] =~= s@);
}

// ---- caps ----

/// The caps on the stresses of an element in its own axes are bounds.
pub open spec fn are_caps(cap: Seq<Real>, shear: Real) -> bool {
    &&& forall|k: int| 0 <= k < 3 ==> Real::spec_zero().at_most(#[trigger] cap[k])
    &&& Real::spec_zero().at_most(shear)
}

/// The cap on component `k` of a Voigt stress.
pub open spec fn cap_on(cap: Seq<Real>, shear: Real, k: int) -> Real {
    if k < 3 {
        cap[k]
    } else {
        shear
    }
}

/// The stresses of an element in its own axes, each held within its cap in
/// tension and compression: the normal stresses, then the shears.
pub fn cap_stresses(s: &[Real; 6], cap: &[Real; 3], shear: Real) -> (r: [Real; 6])
    requires
        are_caps(cap@, shear),
    ensures
        forall|k: int|
            0 <= k < 6 ==> #[trigger] r@[k] == s@[k].clamped(
                cap_on(cap@, shear, k).negated(),
                cap_on(cap@, shear, k),
            ),
{
    let mut r: [Real; 6] = *s;
    let mut k: usize = 0;
    while k < 6
        invariant
            k <= 6,
            are_caps(cap@, shear),
            forall|i: int|
                0 <= i < k ==> #[trigger] r@[i] == s@[i].clamped(
                    cap_on(cap@, shear, i).negated(),
                    cap_on(cap@, shear, i),
                ),
        decreases 6 - k,
    {
        let c: Real = if k < 3 {
            cap[k]
        } else {
            shear
        };
        assert(Real::spec_zero().at_most(c));
        r[k] = s[k].clamp(c.neg(), c);
        k += 1;
    }
    r
}

/// A capped stress exceeds its cap neither in tension nor in compression, and
/// one within its cap is kept.
pub proof fn law_capped_stress_is_within(s: Real, cap: Real)
    requires
        Real::spec_zero().at_most(cap),
        !s.nan(),
    ensures
        cap.negated().at_most(s.clamped(cap.negated(), cap)),
        s.clamped(cap.negated(), cap).at_most(cap),
        cap.negated().at_most(s) && s.at_most(cap) ==> s.clamped(cap.negated(), cap) == s,
{
}

/// The directions in which an element is compressed beyond its cap. `pressed`
/// holds the compressive stresses. Only compression compacts; tension is only
/// capped.
pub fn compacting(pressed: &[Real; 3], cap: &[Real; 3]) -> (r: [bool; 3])
    ensures
        forall|k: int| 0 <= k < 3 ==> #[trigger] r@[k] == cap@[k].below(pressed@[k]),
{
    let r: [bool; 3] = [
        cap[0].lt(pressed[0]),
        cap[1].lt(pressed[1]),
        cap[2].lt(pressed[2]),
    ];
    assert forall|k: int| 0 <= k < 3 implies #[trigger] r@[k] == cap@[k].below(pressed@[k]) by {
        assert(k == 0 || k == 1 || k == 2);
    }
    r
}

/// Where a principal strain of a foam lies.
#[derive(Clone, Copy, Debug, PartialEq, Eq, Structural)]
pub enum Side {
    /// Crushed: below the negative of the yield strain.
    Crushed,
    Elastic,
    /// Stretched: above the yield strain.
    Stretched,
}

/// Where a principal strain lies, and what of it is elastic.
pub fn foam_strain(strain: Real, limit: Real) -> (r: (Side, Real))
    ensures
        r == if strain.below(limit.negated()) {
            (Side::Crushed, limit.negated())
        } else if limit.below(strain) {
            (Side::Stretched, limit)
        } else {
            (Side::Elastic, strain)
        },
{
    let low: Real = limit.neg();
    if strain.lt(low) {
        (Side::Crushed, low)
    } else if limit.lt(strain) {
        (Side::Stretched, limit)
    } else {
        (Side::Elastic, strain)
    }
}

// ---- implicit hardening ----

/// The values that an iteration runs through: from the start on, each from the
/// one before, until two are close or the rounds are up.
pub open spec fn is_iteration<T, F: Fn(T) -> T, G: Fn(T, T) -> bool>(
    start: T,
    rounds: int,
    step: F,
    close: G,
    s: Seq<T>,
) -> bool {
    let n = s.len() - 1;
    &&& 0 <= n <= rounds
    &&& s[0] == start
    &&& forall|i: int| 0 <= i < n ==> call_ensures(step, (#[trigger] s[i],), s[i + 1])
    &&& forall|i: int| 0 <= i < n - 1 ==> call_ensures(close, (#[trigger] s[i], s[i + 1]), false)
    &&& n == rounds || (n > 0 && call_ensures(close, (s[n - 1], s[n]), true))
}

/// Repeats a step from a start, at most so many rounds, until two values one
/// after the other are close. Gives the last.
pub fn iterate<T: Copy, F: Fn(T) -> T, G: Fn(T, T) -> bool>(
    start: T,
    rounds: usize,
    step: F,
    close: G,
) -> (r: T)
    requires
        forall|x: T| #[trigger] call_requires(step, (x,)),
        forall|x: T, y: T| #[trigger] call_requires(close, (x, y)),
    ensures
        exists|s: Seq<T>| #[trigger]
            is_iteration(start, rounds as int, step, close, s) && r == s[s.len() - 1],
{
    let mut s: Ghost<Seq<T>> = Ghost(Seq::empty().push(start));
    let mut last: T = start;
    let mut n: usize = 0;
    while n < rounds
        invariant
            n <= rounds,
            forall|x: T| #[trigger] call_requires(step, (x,)),
            forall|x: T, y: T| #[trigger] call_requires(close, (x, y)),
            s@.len() == n + 1,
            s@[0] == start,
            s@[n as int] == last,
            forall|i: int| 0 <= i < n ==> call_ensures(step, (#[trigger] s@[i],), s@[i + 1]),
            forall|i: int|
                0 <= i < n ==> call_ensures(close, (#[trigger] s@[i], s@[i + 1]), false),
        decreases rounds - n,
    {
        let ghost was = s@;
        let next: T = step(last);
        let done: bool = close(last, next);
        proof {
            s@ = s@.push(next);
            assert forall|i: int| 0 <= i < n + 1 implies call_ensures(
                step,
                (#[trigger] s@[i],),
                s@[i + 1],
            ) by {
                assert(s@[i] == was[i]);
                if i < n {
                    assert(s@[i + 1] == was[i + 1]);
                }
            }
            assert forall|i: int| 0 <= i < n implies call_ensures(
                close,
                (#[trigger] s@[i], s@[i + 1]),
                false,
            ) by {
                assert(s@[i] == was[i] && s@[i + 1] == was[i + 1]);
            }
        }
        last = next;
        n += 1;
        if done {
            assert(is_iteration(start, rounds as int, step, close, s@));
            return last;
        }
    }
    assert(is_iteration(start, rounds as int, step, close, s@));
    last
}

// ---- what the records and searches are for ----

/// A record is accepted where its lock-up and its curve are sound, and then alone.
/// A lock-up is for a honeycomb, starts at a positive compaction beyond the curve
/// and does not soften. A curve is for a honeycomb, has at least two knots and
/// with the lock-up no more than eight, starts at zero, ascends, and has positive
/// stresses.
pub proof fn law_sound_records_are_accepted(
    model: PlasticModel,
    curve: Seq<[Real; 2]>,
    densification: Option<[Real; 2]>,
)
    requires
        forall|i: int| 0 <= i < curve.len() ==> !(#[trigger] curve[i])@[0].nan(),
        forall|i: int| 0 <= i < curve.len() ==> !(#[trigger] curve[i])@[1].nan(),
        densification matches Some(d) ==> !d@[0].nan() && !d@[1].nan(),
    ensures
        fault_of(model, curve, densification) is None <==> {
            &&& densification matches Some(d) ==> model is Honeycomb && d@[0].order() > 0
                && d@[1].order() >= 0 && (curve.len() > 0 ==> d@[0].order()
                > curve[curve.len() - 1]@[0].order())
            &&& curve.len() > 0 ==> {
                &&& model is Honeycomb
                &&& 2 <= curve.len() <= 8
                &&& densification is Some ==> curve.len() <= 7
                &&& curve[0]@[0].order() == 0
                &&& forall|i: int|
                    0 <= i < curve.len() - 1 ==> (#[trigger] curve[i])@[0].order() < curve[i
                        + 1]@[0].order()
                &&& forall|i: int| 0 <= i < curve.len() ==> (#[trigger] curve[i])@[1].order() > 0
            }
        },
{
    let n = curve.len();
    if n > 0 && fault_of(model, curve, densification) is None {
        assert forall|i: int| 0 <= i < n - 1 implies (#[trigger] curve[i])@[0].order() < curve[i
            + 1]@[0].order() by {
            assert(!descends_at(curve, i));
            assert(!curve[i]@[0].nan() && !curve[i + 1]@[0].nan());
        }
        assert forall|i: int| 0 <= i < n implies (#[trigger] curve[i])@[1].order() > 0 by {
            assert(!curve[i]@[1].at_most(Real::spec_zero()));
        }
        assert(!curve[0]@[0].nan());
    }
    if n > 0 {
        assert(!curve[0]@[0].nan() && !curve[n - 1]@[0].nan());
        assert(curve.last() == curve[n - 1]);
    }
    if exists|i: int| descends_at(curve, i) {
        let i = choose|i: int| descends_at(curve, i);
        assert(curve[i]@[0].order() >= curve[i + 1]@[0].order());
    }
}

/// A refusal names what is wrong with the record, of the lock-up before the
/// curve.
pub proof fn law_refusals_name_the_fault(
    model: PlasticModel,
    curve: Seq<[Real; 2]>,
    densification: Option<[Real; 2]>,
)
    requires
        forall|i: int| 0 <= i < curve.len() ==> !(#[trigger] curve[i])@[0].nan(),
        forall|i: int| 0 <= i < curve.len() ==> !(#[trigger] curve[i])@[1].nan(),
        densification matches Some(d) ==> !d@[0].nan() && !d@[1].nan(),
    ensures
        match fault_of(model, curve, densification) {
            Some(CurveError::DensificationModel) => densification is Some && !(model is Honeycomb),
            Some(CurveError::DensificationRange) => densification is Some && (
            densification->0@[0].order() <= 0 || densification->0@[1].order() < 0),
            Some(CurveError::DensificationBeforeCurve) => densification is Some && curve.len() > 0
                && densification->0@[0].order() <= curve[curve.len() - 1]@[0].order(),
            Some(CurveError::CurveModel) => curve.len() > 0 && !(model is Honeycomb)
                && densification is None,
            Some(CurveError::KnotCount) => curve.len() == 1 || curve.len() > 8 || (curve.len() == 8
                && densification is Some),
            Some(CurveError::FirstKnot) => curve.len() > 0 && curve[0]@[0].order() != 0,
            Some(CurveError::KnotOrder) => exists|i: int|
                0 <= i < curve.len() - 1 && (#[trigger] curve[i])@[0].order() >= curve[i
                    + 1]@[0].order(),
            Some(CurveError::KnotStress) => exists|i: int|
                0 <= i < curve.len() && (#[trigger] curve[i])@[1].order() <= 0,
            None => true,
        },
{
    if curve.len() > 0 {
        assert(!curve[0]@[0].nan());
        assert(curve.last() == curve[curve.len() - 1]);
    }
    match fault_of(model, curve, densification) {
        Some(CurveError::KnotOrder) => {
            let i = choose|i: int| descends_at(curve, i);
            assert(curve[i]@[0].order() >= curve[i + 1]@[0].order());
        },
        Some(CurveError::KnotStress) => {
            let i = choose|i: int|
                0 <= i < curve.len() && (#[trigger] curve[i])@[1].at_most(Real::spec_zero());
            assert(curve[i]@[1].order() <= 0);
        },
        _ => {},
    }
}

/// The segment in force at a compaction holds it between its knots; before the
/// first knot it is the first segment, beyond the last the last.
pub proof fn law_segments_bracket(p: Plasticity, c: Real, i: int)
    requires
        !c.nan(),
        forall|k: int| 0 <= k < p.curve@.len() ==> !(#[trigger] p.curve@[k])@[0].nan(),
        p.is_segment(c, i),
    ensures
        0 <= i <= p.curve@.len() - 2,
        i > 0 ==> p.curve@[i]@[0].order() <= c.order(),
        i < p.curve@.len() - 2 ==> c.order() < p.curve@[i + 1]@[0].order(),
{
    assert(!p.curve@[i + 1]@[0].nan());
    if i > 0 {
        assert(p.knot(i - 1 + 1).at_most(c));
    }
}

/// The knot in force at a compaction is the last at or below it: the next ones all
/// lie above, and it does not unless it is the first.
pub proof fn law_knots_in_force(h: HoneycombParams, c: Real, i: int)
    requires
        !c.nan(),
        forall|k: int| 0 <= k < 8 ==> !(#[trigger] h.knots@[k])@[0].nan(),
        h.in_force(c, i),
    ensures
        0 <= i < 8,
        i > 0 ==> h.knots@[i]@[0].order() <= c.order(),
        forall|k: int| i < k < 8 ==> (#[trigger] h.knots@[k])@[0].order() > c.order(),
{
    assert forall|k: int| i < k < 8 implies (#[trigger] h.knots@[k])@[0].order() > c.order() by {
        assert(!h.knots@[k]@[0].at_most(c));
        assert(!h.knots@[k]@[0].nan());
    }
}

/// The three normal stresses have caps of their own, the three shears one for
/// all; a cap is never negative.
pub proof fn law_caps_by_component(cap: Seq<Real>, shear: Real, k: int)
    requires
        are_caps(cap, shear),
        0 <= k < 6,
    ensures
        cap_on(cap, shear, 0) == cap[0],
        cap_on(cap, shear, 1) == cap[1],
        cap_on(cap, shear, 2) == cap[2],
        k >= 3 ==> cap_on(cap, shear, k) == shear,
        !cap_on(cap, shear, k).nan(),
        cap_on(cap, shear, k).order() >= 0,
{
    if k < 3 {
        assert(Real::spec_zero().at_most(cap[k]));
    }
}

/// An iteration takes no more rounds than allowed. Each of its values comes of the
/// one before; where it takes fewer rounds its last two values are close, and no
/// two before them were.
#[verifier::rlimit(60)]
pub proof fn law_iterations_stop_when_close<T, F: Fn(T) -> T, G: Fn(T, T) -> bool>(
    start: T,
    rounds: int,
    step: F,
    close: G,
    near: spec_fn(T, T) -> bool,
    s: Seq<T>,
    i: int,
)
    requires
        is_iteration(start, rounds, step, close, s),
        forall|x: T, y: T, b: bool| #[trigger] call_ensures(close, (x, y), b) ==> b == near(x, y),
        0 <= i < s.len() - 1,
    ensures
        1 <= s.len() <= rounds + 1,
        s[0] == start,
        call_ensures(step, (s[i],), s[i + 1]),
        i < s.len() - 2 ==> !near(s[i], s[i + 1]),
        i == s.len() - 2 && s.len() < rounds + 1 ==> near(s[i], s[i + 1]),
{
    assert(call_ensures(step, (s[i],), s[i + 1]));
    if i < s.len() - 2 {
        assert(call_ensures(close, (s[i], s[i + 1]), false));
    } else if s.len() < rounds + 1 {
        assert(call_ensures(close, (s[i], s[i + 1]), true));
    }
}

/// The knots of a material's curve are its tabulated ones in their order, or one
/// at zero with its yield stress and hardening; the knot behind them is that of a
/// lock-up where there is one, and no compaction reaches the others.
pub proof fn law_knots_of_a_material<
    F: Fn([Real; 2], [Real; 2]) -> Real,
    G: Fn([Real; 3], [Real; 2]) -> [Real; 3],
>(h: HoneycombParams, p: Plasticity, slope: F, lock: G, i: int)
    requires
        h.describes(p, slope, lock),
        p.curve@.len() + (if p.densification is Some {
            1int
        } else {
            0
        }) <= 8,
        0 <= i < 8,
    ensures
        ({
            let n: int = if p.curve@.len() < 2 {
                1
            } else {
                p.curve@.len() as int
            };
            let k = h.knots@[i]@;
            &&& p.curve@.len() < 2 && i == 0 ==> k[0].bits == 0 && k[1] == p.yield_stress && k[2]
                == p.hardening
            &&& p.curve@.len() >= 2 && i < n ==> k[0] == p.curve@[i]@[0] && k[1] == p.curve@[i]@[1]
            &&& p.curve@.len() >= 2 && i < n - 1 ==> call_ensures(
                slope,
                (p.curve@[i], p.curve@[i + 1]),
                k[2],
            )
            &&& p.densification is Some && i == n ==> call_ensures(
                lock,
                (h.knots@[n - 1], p.densification->0),
                h.knots@[i],
            )
            &&& i > n || (i == n && p.densification is None) ==> k[0].bits == 0x7ff0_0000_0000_0000
        }),
{
}

/// Past the compaction of its lock-up a material yields with the lock-up on top of
/// its curve, and up to there on its curve alone.
pub proof fn law_lock_ups_come_on_top<
    S: Fn(Real, Real, Real) -> (Real, Real),
    L: Fn([Real; 2], [Real; 2], Real) -> (Real, Real),
    K: Fn((Real, Real), [Real; 2], Real) -> (Real, Real),
>(p: Plasticity, c: Real, straight: S, line: L, lock: K, r: (Real, Real)) -> (base: (Real, Real))
    requires
        p.yields(c, straight, line, lock, r),
        !c.nan(),
        p.densification matches Some(d) ==> !d@[0].nan(),
    ensures
        p.curve@.len() < 2 ==> call_ensures(straight, (p.yield_stress, p.hardening, c), base),
        p.curve@.len() >= 2 ==> exists|i: int| #[trigger]
            p.is_segment(c, i) && call_ensures(line, (p.curve@[i], p.curve@[i + 1], c), base),
        p.densification is None ==> r == base,
        p.densification matches Some(d) ==> (if c.order() > d@[0].order() {
            call_ensures(lock, (base, d, c), r)
        } else {
            r == base
        }),
{
    choose|base: (Real, Real)|
        {
            &&& #[trigger] p.is_on_curve(c, straight, line, base)
            &&& if p.densification is Some && p.densification->0@[0].below(c) {
                call_ensures(lock, (base, p.densification->0, c), r)
            } else {
                r == base
            }
        }
}

} // verus!
