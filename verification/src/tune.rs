//! Tuning a vehicle from one specification that names its dimensions and its
//! tests: which calibrations are run, and how the force is distributed over
//! the face.

use crate::indices::{is_picked, lemma_picked_grows};
use crate::number::{no_nan, Real};
use crate::text::{lemma_split_is_never_empty, push_decimal, decimal, split};
use vstd::prelude::*;

verus! {

/// Calibration runs of a side or rear profile, unless set otherwise.
pub fn default_iterations() -> (n: usize)
    ensures
        n == 10,
{
    10
}

/// Rounds of the pulse calibration, unless set otherwise.
pub fn default_rounds() -> (n: usize)
    ensures
        n == 8,
{
    8
}

/// Encoding of 0.8.
pub const COVERAGE: u64 = 0x3fe9_9999_9999_999a;

/// Encoding of 0.12.
pub const RESTITUTION: u64 = 0x3fbe_b851_eb85_1eb8;

/// Encoding of 45.
pub const SIDE_SPEED: u64 = 0x4046_8000_0000_0000;

/// Encoding of 35.
pub const REAR_SPEED: u64 = 0x4041_8000_0000_0000;

/// Share of the force that a rail box spans along each axis, unless set
/// otherwise.
pub fn default_coverage() -> (r: Real)
    ensures
        r == (Real { bits: COVERAGE }),
{
    Real { bits: COVERAGE }
}

/// Restitution that side and rear calibrations aim for, unless set otherwise.
pub fn default_restitution() -> (r: Real)
    ensures
        r == (Real { bits: RESTITUTION }),
{
    Real { bits: RESTITUTION }
}

/// Speed of the side calibration (mph), unless set otherwise.
pub fn default_side_speed() -> (r: Real)
    ensures
        r == (Real { bits: SIDE_SPEED }),
{
    Real { bits: SIDE_SPEED }
}

/// Speed of the rear calibration (mph), unless set otherwise.
pub fn default_rear_speed() -> (r: Real)
    ensures
        r == (Real { bits: REAR_SPEED }),
{
    Real { bits: REAR_SPEED }
}

/// Encoding of 0.35.
pub const LENGTH_SHARE: u64 = 0x3fd6_6666_6666_6666;

/// Encoding of 0.1.
pub const TENTH: u64 = 0x3fb9_9999_9999_999a;

/// Encoding of 0.14.
pub const MASS_SHARE: u64 = 0x3fc1_eb85_1eb8_51ec;

/// Encoding of 0.02.
pub const BUMPER_SHARE: u64 = 0x3f94_7ae1_47ae_147b;

/// Encoding of 3e8.
pub const BUMPER_MODULUS: u64 = 0x41b1_e1a3_0000_0000;

/// Encoding of 4e6.
pub const CRUSH_MODULUS: u64 = 0x414e_8480_0000_0000;

/// Encoding of 2.7e8.
pub const BODY_MODULUS: u64 = 0x41b0_17df_8000_0000;

/// What a specification says of the vehicle that is fitted to the pulse; what
/// it leaves out is filled in.
#[derive(Clone, Copy, Debug)]
pub struct FrontalSpec {
    /// Test weight, if it is not the mass of the vehicle (kg).
    pub mass: Option<Real>,
    pub crush_zone_length: Option<Real>,
    pub crush_element_size: Option<Real>,
    pub crush_zone_mass: Option<Real>,
    /// Length, mass and modulus.
    pub bumper: Option<[Real; 3]>,
    pub modulus: Option<Real>,
    pub body_modulus: Option<Real>,
}

/// Where the fit to the pulse starts: a vehicle in two parts with a bumper.
#[derive(Clone, Copy, Debug)]
pub struct FrontalStart {
    pub mass: Real,
    pub crush_zone_length: Real,
    pub crush_element_size: Real,
    pub crush_zone_mass: Real,
    pub bumper: [Real; 3],
    pub modulus: Real,
    pub body_modulus: Real,
}

/// A value given, or another where none is.
pub open spec fn given_or(given: Option<Real>, other: Real) -> Real {
    match given {
        Some(x) => x,
        None => other,
    }
}

fn or(given: Option<Real>, other: Real) -> (r: Real)
    ensures
        r == given_or(given, other),
{
    match given {
        Some(x) => x,
        None => other,
    }
}

impl FrontalSpec {
    /// Where the fit starts for a vehicle of this mass and length. What is not
    /// given is: a crush zone of 0.35 of the length and 0.14 of the mass in
    /// elements of 0.1 m, a bumper of 0.1 m and 0.02 of the mass, and fixed
    /// moduli. `share` multiplies a share with the whole.
    pub fn start<F: Fn(Real, Real) -> Real>(&self, mass: Real, length: Real, share: F) -> (r:
        FrontalStart)
        requires
            forall|a: Real, b: Real| #[trigger] call_requires(share, (a, b)),
        ensures
            r.mass == given_or(self.mass, mass),
            match self.crush_zone_length {
                Some(x) => r.crush_zone_length == x,
                None => call_ensures(
                    share,
                    (Real { bits: LENGTH_SHARE }, length),
                    r.crush_zone_length,
                ),
            },
            r.crush_element_size == given_or(self.crush_element_size, Real { bits: TENTH }),
            match self.crush_zone_mass {
                Some(x) => r.crush_zone_mass == x,
                None => call_ensures(share, (Real { bits: MASS_SHARE }, mass), r.crush_zone_mass),
            },
            match self.bumper {
                Some(b) => r.bumper == b,
                None => r.bumper@[0] == (Real { bits: TENTH }) && call_ensures(
                    share,
                    (Real { bits: BUMPER_SHARE }, mass),
                    r.bumper@[1],
                ) && r.bumper@[2] == (Real { bits: BUMPER_MODULUS }),
            },
            r.modulus == given_or(self.modulus, Real { bits: CRUSH_MODULUS }),
            r.body_modulus == given_or(self.body_modulus, Real { bits: BODY_MODULUS }),
    {
        let crush_zone_length: Real = match self.crush_zone_length {
            Some(x) => x,
            None => share(Real { bits: LENGTH_SHARE }, length),
        };
        let crush_zone_mass: Real = match self.crush_zone_mass {
            Some(x) => x,
            None => share(Real { bits: MASS_SHARE }, mass),
        };
        let bumper: [Real; 3] = match self.bumper {
            Some(b) => b,
            None => [
                Real { bits: TENTH },
                share(Real { bits: BUMPER_SHARE }, mass),
                Real { bits: BUMPER_MODULUS },
            ],
        };
        FrontalStart {
            mass: or(self.mass, mass),
            crush_zone_length,
            crush_element_size: or(self.crush_element_size, Real { bits: TENTH }),
            crush_zone_mass,
            bumper,
            modulus: or(self.modulus, Real { bits: CRUSH_MODULUS }),
            body_modulus: or(self.body_modulus, Real { bits: BODY_MODULUS }),
        }
    }
}

/// The stiff structure low in the face that carries most of the force.
#[derive(Clone, Copy, Debug)]
pub struct RailBox {
    pub width: Real,
    /// Lower and upper edge.
    pub z_range: [Real; 2],
    /// Share of the face's force.
    pub force_fraction: Real,
}

/// Where the force goes on the face, in one of three ways: a load-cell wall,
/// an average height of force, or given outright.
#[derive(Clone, Debug)]
pub struct RailBoxSpec {
    pub rows: usize,
    pub columns: usize,
    pub cell_size: Option<[Real; 2]>,
    pub wall_bottom: Real,
    /// One file per cell, row by row from the bottom, left to right.
    pub cells: Vec<String>,
    pub coverage: Real,
    pub ahof: Option<Real>,
    pub width: Option<Real>,
    pub z_range: Option<[Real; 2]>,
    pub force_fraction: Option<Real>,
}

/// Why a specification cannot be tuned to.
#[derive(Clone, Copy, Debug, PartialEq, Eq, Structural)]
pub enum TuneError {
    NoFrontalCurves,
    NoCurves,
    NoCrushZone,
    NoCellSize,
    CellCount { cells: usize, rows: usize, columns: usize },
    NoRailBox,
}

impl TuneError {
    pub open spec fn text(self) -> Seq<char> {
        match self {
            TuneError::NoFrontalCurves =>
                "frontal.curves is empty: name the NCAP accelerometer channel(s)"@,
            TuneError::NoCurves => "no curves"@,
            TuneError::NoCrushZone =>
                "rail_box needs a frontal pulse fit (a crush zone) to carry it"@,
            TuneError::NoCellSize => "rail_box.cell_size is needed with cells"@,
            TuneError::CellCount { cells, rows, columns } => "rail_box: "@ + decimal(cells as nat)
                + " cells for "@ + decimal(rows as nat) + " rows × "@ + decimal(columns as nat)
                + " columns"@,
            TuneError::NoRailBox =>
                "rail_box needs cells (+ rows, columns, cell_size, wall_bottom), ahof, or width + z_range + force_fraction"@,
        }
    }

    /// The message shown to the user.
    pub fn message(&self) -> (s: String)
        ensures
            s@ == self.text(),
    {
        match self {
            TuneError::NoFrontalCurves => {
                "frontal.curves is empty: name the NCAP accelerometer channel(s)".to_string()
            },
            TuneError::NoCurves => "no curves".to_string(),
            TuneError::NoCrushZone => {
                "rail_box needs a frontal pulse fit (a crush zone) to carry it".to_string()
            },
            TuneError::NoCellSize => "rail_box.cell_size is needed with cells".to_string(),
            TuneError::CellCount { cells, rows, columns } => {
                let mut s: String = "rail_box: ".to_string();
                push_decimal(&mut s, *cells);
                s.append(" cells for ");
                push_decimal(&mut s, *rows);
                s.append(" rows × ");
                push_decimal(&mut s, *columns);
                s.append(" columns");
                s
            },
            TuneError::NoRailBox => {
                "rail_box needs cells (+ rows, columns, cell_size, wall_bottom), ahof, or width + z_range + force_fraction".to_string()
            },
        }
    }
}

/// How a rail box is found.
#[derive(Clone, Copy, Debug)]
pub enum RailBoxPlan {
    /// From the forces on a wall of cells of this width and height.
    Wall([Real; 2]),
    /// About an average height of force.
    About(Real),
    Given(RailBox),
}

pub open spec fn plan_of(spec: RailBoxSpec, crush_zone: bool) -> Result<RailBoxPlan, TuneError> {
    if !crush_zone {
        Err(TuneError::NoCrushZone)
    } else if spec.cells@.len() > 0 {
        match spec.cell_size {
            None => Err(TuneError::NoCellSize),
            Some(cell) => if spec.rows * spec.columns != spec.cells@.len() {
                Err(
                    TuneError::CellCount {
                        cells: spec.cells@.len() as usize,
                        rows: spec.rows,
                        columns: spec.columns,
                    },
                )
            } else {
                Ok(RailBoxPlan::Wall(cell))
            },
        }
    } else {
        match spec.ahof {
            Some(height) => Ok(RailBoxPlan::About(height)),
            None => match (spec.width, spec.z_range, spec.force_fraction) {
                (Some(width), Some(z_range), Some(force_fraction)) => Ok(
                    RailBoxPlan::Given(RailBox { width, z_range, force_fraction }),
                ),
                _ => Err(TuneError::NoRailBox),
            },
        }
    }
}

impl RailBoxSpec {
    /// How the rail box of a vehicle is found: from the wall where cells are
    /// named, else from the height of force, else as given. Only a vehicle with
    /// a crush zone can carry one.
    pub fn plan(&self, crush_zone: bool) -> (r: Result<RailBoxPlan, TuneError>)
        ensures
            r == plan_of(*self, crush_zone),
    {
        if !crush_zone {
            return Err(TuneError::NoCrushZone);
        }
        if self.cells.len() > 0 {
            return match self.cell_size {
                None => Err(TuneError::NoCellSize),
                Some(cell) => {
                    let ghost (a, b) = (self.rows as int, self.columns as int);
                    assert(0 <= a * b <= 0xffff_ffff_ffff_ffff * 0xffff_ffff_ffff_ffff)
                        by (nonlinear_arith)
                        requires
                            0 <= a <= 0xffff_ffff_ffff_ffff,
                            0 <= b <= 0xffff_ffff_ffff_ffff,
                    ;
                    if self.rows as u128 * self.columns as u128 != self.cells.len() as u128 {
                        Err(
                            TuneError::CellCount {
                                cells: self.cells.len(),
                                rows: self.rows,
                                columns: self.columns,
                            },
                        )
                    } else {
                        Ok(RailBoxPlan::Wall(cell))
                    }
                },
            };
        }
        match self.ahof {
            Some(height) => Ok(RailBoxPlan::About(height)),
            None => match (self.width, self.z_range, self.force_fraction) {
                (Some(width), Some(z_range), Some(force_fraction)) => Ok(
                    RailBoxPlan::Given(RailBox { width, z_range, force_fraction }),
                ),
                _ => Err(TuneError::NoRailBox),
            },
        }
    }
}

// ---- load-cell walls ----

/// The first cell of the central span: the first at which the force summed up
/// from the start is more than the tail, the last cell at most.
pub open spec fn is_span_start(from_start: Seq<Real>, tail: Real, lo: int) -> bool {
    &&& 0 <= lo < from_start.len()
    &&& forall|i: int| 0 <= i < lo ==> (#[trigger] from_start[i]).at_most(tail)
    &&& lo + 1 < from_start.len() ==> !from_start[lo].at_most(tail)
}

/// The last cell of the central span: the last at which the force summed up
/// from the end is more than the tail, the first cell of the span at least.
pub open spec fn is_span_end(from_end: Seq<Real>, tail: Real, lo: int, hi: int) -> bool {
    &&& lo <= hi < from_end.len()
    &&& forall|i: int| hi < i < from_end.len() ==> (#[trigger] from_end[i]).at_most(tail)
    &&& lo < hi ==> !from_end[hi].at_most(tail)
}

/// The central span of a row of cells: those between the tails, given the
/// forces summed up to and including each cell from either end.
pub fn central_span(from_start: &Vec<Real>, from_end: &Vec<Real>, tail: Real) -> (r: (usize, usize))
    requires
        from_start@.len() > 0,
        from_start@.len() == from_end@.len(),
    ensures
        is_span_start(from_start@, tail, r.0 as int),
        is_span_end(from_end@, tail, r.0 as int, r.1 as int),
{
    let n: usize = from_start.len();
    let mut lo: usize = 0;
    while lo < n - 1 && from_start[lo].le(tail)
        invariant
            n == from_start@.len(),
            lo < n,
            forall|i: int| 0 <= i < lo ==> (#[trigger] from_start@[i]).at_most(tail),
        decreases n - lo,
    {
        lo += 1;
    }
    let mut hi: usize = n - 1;
    while hi > lo && from_end[hi].le(tail)
        invariant
            n == from_end@.len(),
            lo <= hi < n,
            forall|i: int| hi < i < n ==> (#[trigger] from_end@[i]).at_most(tail),
        decreases hi,
    {
        hi -= 1;
    }
    (lo, hi)
}

/// Whether the centre of a cell of the wall lies inside the box: cells are
/// numbered row by row.
pub open spec fn is_inside(
    across: Seq<Real>,
    half: Real,
    up: Seq<Real>,
    z: (Real, Real),
    cell: int,
) -> bool {
    let (r, c) = (cell / across.len() as int, cell % across.len() as int);
    across[c].below(half) && z.0.below(up[r]) && up[r].below(z.1)
}

/// The cells among the first `n` that lie inside the box.
pub open spec fn inside_before(
    across: Seq<Real>,
    half: Real,
    up: Seq<Real>,
    z: (Real, Real),
    n: int,
) -> Seq<usize>
    decreases n,
{
    if n <= 0 {
        Seq::empty()
    } else {
        let before = inside_before(across, half, up, z, n - 1);
        if is_inside(across, half, up, z, n - 1) {
            before.push((n - 1) as usize)
        } else {
            before
        }
    }
}

/// The cells of a wall whose centres lie inside a box of half width `half`
/// between two heights. `across` holds how far the centre of each column is
/// from the centreline, `up` the height of the centre of each row.
pub fn inside_cells(across: &Vec<Real>, half: Real, up: &Vec<Real>, z: (Real, Real)) -> (r: Vec<
    usize,
>)
    requires
        across@.len() > 0,
        across@.len() * up@.len() <= usize::MAX,
    ensures
        r@ == inside_before(across@, half, up@, z, (across@.len() * up@.len()) as int),
{
    let columns: usize = across.len();
    let total: usize = columns * up.len();
    let mut r: Vec<usize> = Vec::new();
    let mut k: usize = 0;
    while k < total
        invariant
            k <= total,
            columns == across@.len(),
            columns > 0,
            total == columns * up@.len(),
            r@ == inside_before(across@, half, up@, z, k as int),
        decreases total - k,
    {
        let row: usize = k / columns;
        let column: usize = k % columns;
        assert(row < up@.len()) by (nonlinear_arith)
            requires
                k < columns * up@.len(),
                row == k / columns,
                columns > 0,
        ;
        if across[column].lt(half) && z.0.lt(up[row]) && up[row].lt(z.1) {
            r.push(k);
        }
        k += 1;
    }
    r
}

// ---- the pipeline ----

/// A calibration that the data may allow.
#[derive(Clone, Copy, Debug, PartialEq, Eq, Structural)]
pub enum TuneStage {
    Frontal,
    Side,
    Rear,
    RailBox,
}

/// The calibrations in the order in which they are run.
pub open spec fn stages_of(side: bool, rear: bool, rail_box: bool) -> Seq<TuneStage> {
    let frontal = seq![TuneStage::Frontal];
    let with_side = if side {
        frontal.push(TuneStage::Side)
    } else {
        frontal
    };
    let with_rear = if rear {
        with_side.push(TuneStage::Rear)
    } else {
        with_side
    };
    if rail_box {
        with_rear.push(TuneStage::RailBox)
    } else {
        with_rear
    }
}

/// The calibrations that a specification asks for; a frontal pulse is always
/// one of them.
pub fn stages(curves: &Vec<String>, side: bool, rear: bool, rail_box: bool) -> (r: Result<
    Vec<TuneStage>,
    TuneError,
>)
    ensures
        curves@.len() == 0 ==> r == Err::<Vec<TuneStage>, _>(TuneError::NoFrontalCurves),
        curves@.len() > 0 ==> r is Ok && r->Ok_0@ == stages_of(side, rear, rail_box),
{
    if curves.len() == 0 {
        return Err(TuneError::NoFrontalCurves);
    }
    let mut v: Vec<TuneStage> = Vec::new();
    v.push(TuneStage::Frontal);
    assert(v@ =~= seq![TuneStage::Frontal]);
    if side {
        v.push(TuneStage::Side);
    }
    if rear {
        v.push(TuneStage::Rear);
    }
    if rail_box {
        v.push(TuneStage::RailBox);
    }
    Ok(v)
}

/// One line per calibration stage.
#[derive(Clone, Debug)]
pub struct TuneReport {
    pub lines: Vec<String>,
}

impl Default for TuneReport {
    fn default() -> (r: TuneReport)
        ensures
            r.lines@.len() == 0,
    {
        TuneReport { lines: Vec::new() }
    }
}

impl TuneReport {
    /// Adds a line.
    pub fn say(&mut self, line: String)
        ensures
            final(self).lines@ == old(self).lines@.push(line),
    {
        self.lines.push(line);
    }
}

/// Names joined by commas.
pub open spec fn joined(names: Seq<String>) -> Seq<char>
    decreases names.len(),
{
    if names.len() == 0 {
        Seq::empty()
    } else if names.len() == 1 {
        names[0]@
    } else {
        joined(names.drop_last()) + ","@ + names.last()@
    }
}

/// The list of the files of a curve, as it is read.
pub fn curve_list(files: &Vec<String>) -> (r: Result<String, TuneError>)
    ensures
        files@.len() == 0 ==> r == Err::<String, _>(TuneError::NoCurves),
        files@.len() > 0 ==> r is Ok && r->Ok_0@ == joined(files@),
{
    if files.len() == 0 {
        return Err(TuneError::NoCurves);
    }
    let mut s: String = "".to_string();
    s.append(files[0].as_str());
    proof {
        reveal_strlit("");
        assert(s@ =~= files@[0]@);
        assert(files@.take(1)[0] == files@[0]);
    }
    let mut i: usize = 1;
    while i < files.len()
        invariant
            1 <= i <= files@.len(),
            s@ == joined(files@.take(i as int)),
        decreases files.len() - i,
    {
        s.append(",");
        s.append(files[i].as_str());
        proof {
            let next = files@.take(i + 1);
            assert(next.drop_last() =~= files@.take(i as int));
            assert(next.last() == files@[i as int]);
        }
        i += 1;
    }
    assert(files@.take(files@.len() as int) =~= files@);
    Ok(s)
}

/// Splitting at a separator goes on in the last piece as long as none comes.
proof fn lemma_split_goes_on(s: Seq<char>, t: Seq<char>, sep: char)
    requires
        forall|i: int| 0 <= i < t.len() ==> #[trigger] t[i] != sep,
    ensures
        split(s + t, sep) == split(s, sep).drop_last().push(split(s, sep).last() + t),
    decreases t.len(),
{
    lemma_split_is_never_empty(s, sep);
    let was = split(s, sep);
    if t.len() == 0 {
        assert(s + t =~= s);
        assert(was.last() + t =~= was.last());
        assert(was.drop_last().push(was.last()) =~= was);
    } else {
        let u = t.drop_last();
        lemma_split_goes_on(s, u, sep);
        assert((s + t).drop_last() =~= s + u);
        assert((s + t).last() == t.last());
        let before = split(s + u, sep);
        assert(before.last() == was.last() + u);
        assert(before.drop_last() =~= was.drop_last());
        assert((was.last() + u).push(t.last()) =~= was.last() + t);
    }
}

/// The list of the files of a curve, split at its commas, is those files again,
/// if none of their names has a comma.
pub proof fn law_curve_list_reads_back(files: Seq<String>)
    requires
        files.len() > 0,
        forall|k: int, i: int|
            0 <= k < files.len() && 0 <= i < files[k]@.len() ==> #[trigger] files[k]@[i] != ',',
    ensures
        split(joined(files), ',') == files.map_values(|f: String| f@),
    decreases files.len(),
{
    reveal_strlit(",");
    let names = files.map_values(|f: String| f@);
    let last = files.last()@;
    if files.len() == 1 {
        lemma_split_goes_on(Seq::empty(), last, ',');
        assert(Seq::<char>::empty() + last =~= last);
        assert(split(Seq::<char>::empty(), ',') =~= seq![Seq::<char>::empty()]);
        assert(split(last, ',') =~= names);
    } else {
        let fewer = files.drop_last();
        assert forall|k: int, i: int|
            0 <= k < fewer.len() && 0 <= i < fewer[k]@.len() implies #[trigger] fewer[k]@[i]
            != ',' by {
            assert(files[k]@[i] != ',');
        }
        law_curve_list_reads_back(fewer);
        let s = joined(fewer) + ","@;
        assert(s.drop_last() =~= joined(fewer));
        assert(s.last() == ',');
        let before = split(joined(fewer), ',');
        assert(split(s, ',') == before.push(Seq::<char>::empty()));
        assert forall|i: int| 0 <= i < last.len() implies #[trigger] last[i] != ',' by {
            assert(files[files.len() - 1]@[i] != ',');
        }
        lemma_split_goes_on(s, last, ',');
        assert(split(s, ',').drop_last() =~= before);
        assert(split(s, ',').last() =~= Seq::<char>::empty());
        assert(Seq::<char>::empty() + last =~= last);
        assert(before =~= fewer.map_values(|f: String| f@));
        assert(split(joined(files), ',') =~= names);
    }
}

// ---- what the plan and the spans are for ----

/// Only a vehicle with a crush zone gets a rail box. Cells, where there are any,
/// decide alone: they need a cell size, and as many of them as rows and columns
/// make. Without cells a height of force comes before what is given, and what is
/// given has to be given whole.
pub proof fn law_rail_box_plans(spec: RailBoxSpec, crush_zone: bool)
    ensures
        plan_of(spec, crush_zone) == Err::<RailBoxPlan, _>(TuneError::NoCrushZone) <==> !crush_zone,
        plan_of(spec, crush_zone) == Err::<RailBoxPlan, _>(TuneError::NoCellSize) <==> crush_zone
            && spec.cells@.len() > 0 && spec.cell_size is None,
        (plan_of(spec, crush_zone) is Err && plan_of(spec, crush_zone)->Err_0 is CellCount)
            <==> crush_zone && spec.cells@.len() > 0 && spec.cell_size is Some && spec.cells@.len()
            != spec.rows * spec.columns,
        plan_of(spec, crush_zone) == Err::<RailBoxPlan, _>(TuneError::NoRailBox) <==> crush_zone
            && spec.cells@.len() == 0 && spec.ahof is None && (spec.width is None
            || spec.z_range is None || spec.force_fraction is None),
        plan_of(spec, crush_zone) matches Err(TuneError::CellCount { cells, rows, columns })
            ==> cells == spec.cells@.len() as usize && rows == spec.rows && columns == spec.columns,
        plan_of(spec, crush_zone) matches Ok(RailBoxPlan::Wall(cell)) ==> spec.cell_size == Some(
            cell,
        ) && spec.cells@.len() > 0,
        plan_of(spec, crush_zone) matches Ok(RailBoxPlan::About(height)) ==> spec.ahof == Some(
            height,
        ) && spec.cells@.len() == 0,
        plan_of(spec, crush_zone) matches Ok(RailBoxPlan::Given(b)) ==> spec.cells@.len() == 0
            && spec.ahof is None && spec.width == Some(b.width) && spec.z_range == Some(b.z_range)
            && spec.force_fraction == Some(b.force_fraction),
        plan_of(spec, crush_zone) is Err ==> {
            let e = plan_of(spec, crush_zone)->Err_0;
            e is NoCrushZone || e is NoCellSize || e is CellCount || e is NoRailBox
        },
{
}

/// A value that is given stands; the other one fills in where none is.
pub proof fn law_given_values_stand(given: Option<Real>, other: Real)
    ensures
        given is Some ==> given_or(given, other) == given->0,
        given is None ==> given_or(given, other) == other,
{
}

/// The central span leaves out the cells at either end whose forces, summed up
/// from that end, are no more than the tail, and no other, but for one cell that
/// stays.
pub proof fn law_central_span_leaves_out_the_tails(
    from_start: Seq<Real>,
    from_end: Seq<Real>,
    tail: Real,
    lo: int,
    hi: int,
)
    requires
        !tail.nan(),
        no_nan(from_start),
        no_nan(from_end),
        from_start.len() == from_end.len(),
        is_span_start(from_start, tail, lo),
        is_span_end(from_end, tail, lo, hi),
    ensures
        0 <= lo <= hi < from_start.len(),
        forall|i: int| 0 <= i < lo ==> (#[trigger] from_start[i]).order() <= tail.order(),
        from_start[lo].order() > tail.order() || lo == from_start.len() - 1,
        forall|i: int| hi < i < from_end.len() ==> (#[trigger] from_end[i]).order() <= tail.order(),
        from_end[hi].order() > tail.order() || hi == lo,
{
    assert(!from_start[lo].nan() && !from_end[hi].nan());
    assert forall|i: int| 0 <= i < lo implies (#[trigger] from_start[i]).order()
        <= tail.order() by {
        assert(from_start[i].at_most(tail));
    }
    assert forall|i: int| hi < i < from_end.len() implies (#[trigger] from_end[i]).order()
        <= tail.order() by {
        assert(from_end[i].at_most(tail));
    }
}

/// The cells whose column is nearer the centreline than half the width, and
/// whose row lies between the two heights, neither reached.
pub open spec fn between_edges(
    across: Seq<Real>,
    half: Real,
    up: Seq<Real>,
    z: (Real, Real),
) -> spec_fn(int) -> bool {
    |k: int|
        across[k % across.len() as int].order() < half.order() && z.0.order() < up[k
            / across.len() as int].order() < z.1.order()
}

/// The cells inside a box are those whose column and row both lie within it,
/// numbered row by row, all of them and in their order.
pub proof fn law_cells_inside_the_box(
    across: Seq<Real>,
    half: Real,
    up: Seq<Real>,
    z: (Real, Real),
    n: int,
)
    requires
        across.len() > 0,
        0 <= n <= across.len() * up.len(),
        no_nan(across),
        no_nan(up),
        !half.nan(),
        !z.0.nan(),
        !z.1.nan(),
    ensures
        is_picked(
            inside_before(across, half, up, z, n),
            n,
            between_edges(across, half, up, z),
            |k: int| k as usize,
        ),
    decreases n,
{
    if n > 0 {
        law_cells_inside_the_box(across, half, up, z, n - 1);
        let (k, w, h) = (n - 1, across.len() as int, up.len() as int);
        let (r, c) = (k / w, k % w);
        assert(0 <= c < w && 0 <= r < h) by (nonlinear_arith)
            requires
                0 <= k < w * h,
                w > 0,
                r == k / w,
                c == k % w,
        ;
        assert(!across[c].nan() && !up[r].nan());
        lemma_picked_grows(
            inside_before(across, half, up, z, n - 1),
            n - 1,
            between_edges(across, half, up, z),
            |k: int| k as usize,
        );
    }
}

/// The frontal calibration is always run and comes first, then those asked for:
/// side, rear, rail box, in this order and each once.
pub proof fn law_stages_come_in_order(side: bool, rear: bool, rail_box: bool)
    ensures
        ({
            let s = stages_of(side, rear, rail_box);
            let before_rear: int = if side {
                2
            } else {
                1
            };
            let before_box: int = if rear {
                before_rear + 1
            } else {
                before_rear
            };
            &&& s[0] is Frontal
            &&& side ==> s[1] is Side
            &&& rear ==> s[before_rear] is Rear
            &&& rail_box ==> s[before_box] is RailBox
            &&& s.len() == (if rail_box {
                before_box + 1
            } else {
                before_box
            })
        }),
{
}

/// The message of a wall with the wrong number of cells tells how many there are,
/// and of how many rows and columns.
pub proof fn law_cell_messages_count(cells: usize, rows: usize, columns: usize)
    ensures
        (TuneError::CellCount { cells, rows, columns }).text() == "rail_box: "@ + decimal(
            cells as nat,
        ) + " cells for "@ + decimal(rows as nat) + " rows × "@ + decimal(columns as nat)
            + " columns"@,
{
}

} // verus!
