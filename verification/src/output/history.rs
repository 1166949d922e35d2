//! Time-series tables:
//!
//! - nodes: accelerometer samples, one row per time and node, with position,
//!   displacement, velocity and acceleration in global axes (`x, y, z, ux..`,
//!   `vx..`, `ax..`) and in the accelerometer's body-fixed frame (`lux..`,
//!   `lvx..`, `lax..`).
//! - frames: the body-fixed frames, origin and the three local unit axes in
//!   global components at each sample.
//! - parts: per-part mass-weighted mean displacement, velocity, acceleration
//!   and kinetic energy.

use crate::bytes::{signed64, to_signed64};
use crate::mesh::Part;
use crate::model::Accelerometer;
use crate::number::Real;
use crate::output::parquet::{is_rectangular, table_rows, Cells, Column};
use crate::solver::{FrameHistory, NodeHistory, PartState};
use vstd::prelude::*;

verus! {

/// A component of each of a list of vectors.
pub open spec fn component(v: Seq<[Real; 3]>, d: int) -> Seq<Real> {
    Seq::new(v.len(), |i: int| v[i]@[d])
}

/// The three components of a list of vectors, each as a list.
pub fn split3(v: &Vec<[Real; 3]>) -> (r: (Vec<Real>, Vec<Real>, Vec<Real>))
    ensures
        r.0@ == component(v@, 0),
        r.1@ == component(v@, 1),
        r.2@ == component(v@, 2),
{
    let mut x: Vec<Real> = Vec::new();
    let mut y: Vec<Real> = Vec::new();
    let mut z: Vec<Real> = Vec::new();
    let mut i: usize = 0;
    while i < v.len()
        invariant
            i <= v@.len(),
            x@ =~= component(v@, 0).take(i as int),
            y@ =~= component(v@, 1).take(i as int),
            z@ =~= component(v@, 2).take(i as int),
        decreases v.len() - i,
    {
        x.push(v[i][0]);
        y.push(v[i][1]);
        z.push(v[i][2]);
        i += 1;
    }
    (x, y, z)
}

/// What a table holds: its columns by name.
pub open spec fn table_view(t: Seq<(String, Column)>) -> Seq<(Seq<char>, Cells)> {
    Seq::new(t.len(), |i: int| (t[i].0@, t[i].1@))
}

/// The three columns of a vector quantity.
pub open spec fn xyz_columns(prefix: Seq<char>, v: Seq<[Real; 3]>) -> Seq<(Seq<char>, Cells)> {
    seq![
        (prefix + "x"@, Cells::F64(component(v, 0))),
        (prefix + "y"@, Cells::F64(component(v, 1))),
        (prefix + "z"@, Cells::F64(component(v, 2))),
    ]
}

fn push_column(t: &mut Vec<(String, Column)>, name: &str, column: Column)
    ensures
        table_view(final(t)@) == table_view(old(t)@).push((name@, column@)),
{
    t.push((name.to_string(), column));
    assert(table_view(t@) =~= table_view(old(t)@).push((name@, column@)));
}

/// Appends the three columns of a vector quantity.
pub fn xyz(t: &mut Vec<(String, Column)>, prefix: &str, v: &Vec<[Real; 3]>)
    ensures
        table_view(final(t)@) == table_view(old(t)@) + xyz_columns(prefix@, v@),
{
    let (x, y, z): (Vec<Real>, Vec<Real>, Vec<Real>) = split3(v);
    push_column(t, &prefix.to_string().concat("x"), Column::F64(x));
    push_column(t, &prefix.to_string().concat("y"), Column::F64(y));
    push_column(t, &prefix.to_string().concat("z"), Column::F64(z));
    assert(table_view(t@) =~= table_view(old(t)@) + xyz_columns(prefix@, v@));
}

/// The name of a file with something added to its end.
pub fn with_suffix(base: &str, suffix: &str) -> (s: String)
    ensures
        s@ == base@ + suffix@,
{
    base.to_string().concat(suffix)
}

pub open spec fn index_column(v: Seq<usize>) -> Seq<i64> {
    Seq::new(v.len(), |i: int| signed64(v[i] as int) as i64)
}

fn ints(v: &Vec<usize>) -> (r: Column)
    ensures
        r@ == Cells::I64(index_column(v@)),
{
    let mut c: Vec<i64> = Vec::new();
    let mut i: usize = 0;
    while i < v.len()
        invariant
            i <= v@.len(),
            c@ =~= index_column(v@).take(i as int),
        decreases v.len() - i,
    {
        c.push(to_signed64(v[i]));
        i += 1;
    }
    assert(c@ =~= index_column(v@));
    Column::I64(c)
}

fn reals(v: &Vec<Real>) -> (r: Column)
    ensures
        r@ == Cells::F64(v@),
{
    let mut c: Vec<Real> = Vec::new();
    let mut i: usize = 0;
    while i < v.len()
        invariant
            i <= v@.len(),
            c@ =~= v@.take(i as int),
        decreases v.len() - i,
    {
        c.push(v[i]);
        i += 1;
    }
    assert(c@ =~= v@);
    Column::F64(c)
}

pub open spec fn name_column(accelerometers: Seq<Accelerometer>, v: Seq<usize>) -> Seq<Seq<char>> {
    Seq::new(v.len(), |i: int| accelerometers[v[i] as int].name@)
}

fn names(accelerometers: &Vec<Accelerometer>, v: &Vec<usize>) -> (r: Column)
    requires
        forall|i: int| 0 <= i < v@.len() ==> #[trigger] v@[i] < accelerometers@.len(),
    ensures
        r@ == Cells::Str(name_column(accelerometers@, v@)),
{
    let mut c: Vec<String> = Vec::new();
    let mut i: usize = 0;
    while i < v.len()
        invariant
            i <= v@.len(),
            forall|i: int| 0 <= i < v@.len() ==> #[trigger] v@[i] < accelerometers@.len(),
            c@.len() == i,
            forall|k: int| 0 <= k < i ==> (#[trigger] c@[k])@ == accelerometers@[v@[k] as int].name@,
        decreases v.len() - i,
    {
        assert(v@[i as int] < accelerometers@.len());
        c.push(accelerometers[v[i]].name.clone());
        i += 1;
    }
    let r: Column = Column::Str(c);
    assert(Seq::new(c@.len(), |i: int| c@[i]@) =~= name_column(accelerometers@, v@));
    r
}

/// The columns of the node table.
pub open spec fn node_columns(
    accelerometers: Seq<Accelerometer>,
    h: NodeHistory,
) -> Seq<(Seq<char>, Cells)> {
    seq![
        ("time"@, Cells::F64(h.time@)),
        ("step"@, Cells::I64(index_column(h.step@))),
        ("accelerometer"@, Cells::Str(name_column(accelerometers, h.accelerometer@))),
        ("node"@, Cells::I64(index_column(h.node@))),
    ] + xyz_columns(""@, h.position@) + xyz_columns("u"@, h.displacement@) + xyz_columns(
        "v"@,
        h.velocity@,
    ) + xyz_columns("a"@, h.acceleration@) + xyz_columns("lu"@, h.local_displacement@)
        + xyz_columns("lv"@, h.local_velocity@) + xyz_columns("la"@, h.local_acceleration@)
}

/// The node table: accelerometer samples.
pub fn node_table(accelerometers: &Vec<Accelerometer>, h: &NodeHistory) -> (t: Vec<
    (String, Column),
>)
    requires
        forall|i: int|
            0 <= i < h.accelerometer@.len() ==> #[trigger] h.accelerometer@[i]
                < accelerometers@.len(),
    ensures
        table_view(t@) == node_columns(accelerometers@, *h),
{
    let mut t: Vec<(String, Column)> = Vec::new();
    push_column(&mut t, "time", reals(&h.time));
    push_column(&mut t, "step", ints(&h.step));
    push_column(&mut t, "accelerometer", names(accelerometers, &h.accelerometer));
    push_column(&mut t, "node", ints(&h.node));
    assert(table_view(t@) =~= seq![
        ("time"@, Cells::F64(h.time@)),
        ("step"@, Cells::I64(index_column(h.step@))),
        ("accelerometer"@, Cells::Str(name_column(accelerometers@, h.accelerometer@))),
        ("node"@, Cells::I64(index_column(h.node@))),
    ]);
    xyz(&mut t, "", &h.position);
    xyz(&mut t, "u", &h.displacement);
    xyz(&mut t, "v", &h.velocity);
    xyz(&mut t, "a", &h.acceleration);
    xyz(&mut t, "lu", &h.local_displacement);
    xyz(&mut t, "lv", &h.local_velocity);
    xyz(&mut t, "la", &h.local_acceleration);
    t
}

/// One of the axes of each of a list of frames.
pub open spec fn axis_rows(axes: Seq<[[Real; 3]; 3]>, d: int) -> Seq<[Real; 3]> {
    Seq::new(axes.len(), |i: int| axes[i]@[d])
}

fn axis_of(axes: &Vec<[[Real; 3]; 3]>, d: usize) -> (r: Vec<[Real; 3]>)
    requires
        d < 3,
    ensures
        r@ == axis_rows(axes@, d as int),
{
    let mut r: Vec<[Real; 3]> = Vec::new();
    let mut i: usize = 0;
    while i < axes.len()
        invariant
            d < 3,
            i <= axes@.len(),
            r@ =~= axis_rows(axes@, d as int).take(i as int),
        decreases axes.len() - i,
    {
        r.push(axes[i][d]);
        i += 1;
    }
    r
}

/// The columns of the frame table.
pub open spec fn frame_columns(
    accelerometers: Seq<Accelerometer>,
    f: FrameHistory,
) -> Seq<(Seq<char>, Cells)> {
    seq![
        ("time"@, Cells::F64(f.time@)),
        ("step"@, Cells::I64(index_column(f.step@))),
        ("accelerometer"@, Cells::Str(name_column(accelerometers, f.accelerometer@))),
    ] + xyz_columns("o"@, f.origin@) + xyz_columns("ex_"@, axis_rows(f.axes@, 0)) + xyz_columns(
        "ey_"@,
        axis_rows(f.axes@, 1),
    ) + xyz_columns("ez_"@, axis_rows(f.axes@, 2))
}

/// The frame table: the body-fixed frames.
pub fn frame_table(accelerometers: &Vec<Accelerometer>, f: &FrameHistory) -> (t: Vec<
    (String, Column),
>)
    requires
        forall|i: int|
            0 <= i < f.accelerometer@.len() ==> #[trigger] f.accelerometer@[i]
                < accelerometers@.len(),
    ensures
        table_view(t@) == frame_columns(accelerometers@, *f),
{
    let mut t: Vec<(String, Column)> = Vec::new();
    push_column(&mut t, "time", reals(&f.time));
    push_column(&mut t, "step", ints(&f.step));
    push_column(&mut t, "accelerometer", names(accelerometers, &f.accelerometer));
    assert(table_view(t@) =~= seq![
        ("time"@, Cells::F64(f.time@)),
        ("step"@, Cells::I64(index_column(f.step@))),
        ("accelerometer"@, Cells::Str(name_column(accelerometers@, f.accelerometer@))),
    ]);
    xyz(&mut t, "o", &f.origin);
    xyz(&mut t, "ex_", &axis_of(&f.axes, 0));
    xyz(&mut t, "ey_", &axis_of(&f.axes, 1));
    xyz(&mut t, "ez_", &axis_of(&f.axes, 2));
    t
}

/// The rows that the first `k` samples of a history give, one per part state.
pub open spec fn part_rows(history: Seq<(Real, Vec<PartState>)>, k: int) -> Seq<(Real, PartState)>
    decreases k,
{
    if k <= 0 {
        Seq::empty()
    } else {
        part_rows(history, k - 1) + Seq::new(
            history[k - 1].1@.len(),
            |i: int| (history[k - 1].0, history[k - 1].1@[i]),
        )
    }
}

/// The columns of the part table.
pub open spec fn part_columns(parts: Seq<Part>, rows: Seq<(Real, PartState)>) -> Seq<
    (Seq<char>, Cells),
> {
    let n = rows.len();
    seq![
        ("time"@, Cells::F64(Seq::new(n, |i: int| rows[i].0))),
        ("part"@, Cells::Str(Seq::new(n, |i: int| parts[rows[i].1.part as int].name@))),
        ("mass"@, Cells::F64(Seq::new(n, |i: int| rows[i].1.mass))),
    ] + xyz_columns("u"@, Seq::new(n, |i: int| rows[i].1.displacement)) + xyz_columns(
        "v"@,
        Seq::new(n, |i: int| rows[i].1.velocity),
    ) + xyz_columns("a"@, Seq::new(n, |i: int| rows[i].1.acceleration)) + seq![
        ("kinetic_energy"@, Cells::F64(Seq::new(n, |i: int| rows[i].1.kinetic_energy))),
    ]
}

fn rows_of(history: &Vec<(Real, Vec<PartState>)>) -> (r: Vec<(Real, PartState)>)
    ensures
        r@ == part_rows(history@, history@.len() as int),
{
    let mut r: Vec<(Real, PartState)> = Vec::new();
    let mut k: usize = 0;
    while k < history.len()
        invariant
            k <= history@.len(),
            r@ == part_rows(history@, k as int),
        decreases history.len() - k,
    {
        let t: Real = history[k].0;
        let ghost before = r@;
        let ghost more = Seq::new(
            history@[k as int].1@.len(),
            |i: int| (history@[k as int].0, history@[k as int].1@[i]),
        );
        let states: &Vec<PartState> = &history[k].1;
        let mut i: usize = 0;
        while i < states.len()
            invariant
                k < history@.len(),
                t == history@[k as int].0,
                states@ == history@[k as int].1@,
                i <= states@.len(),
                more == Seq::new(
                    history@[k as int].1@.len(),
                    |i: int| (history@[k as int].0, history@[k as int].1@[i]),
                ),
                r@ =~= before + more.take(i as int),
            decreases states.len() - i,
        {
            r.push((t, states[i]));
            i += 1;
        }
        assert(more.take(i as int) =~= more);
        k += 1;
    }
    r
}

/// The part table: mass-weighted mean motion of the parts.
pub fn part_table(parts: &Vec<Part>, history: &Vec<(Real, Vec<PartState>)>) -> (t: Vec<
    (String, Column),
>)
    requires
        forall|k: int, i: int|
            0 <= k < history@.len() && 0 <= i < history@[k].1@.len() ==> (
            #[trigger] history@[k].1@[i]).part < parts@.len(),
    ensures
        table_view(t@) == part_columns(parts@, part_rows(history@, history@.len() as int)),
{
    let rows: Vec<(Real, PartState)> = rows_of(history);
    proof {
        lemma_rows_exist(parts@.len() as int, history@, history@.len() as int);
    }
    let ghost n = rows@.len();
    let mut time: Vec<Real> = Vec::new();
    let mut part: Vec<String> = Vec::new();
    let mut mass: Vec<Real> = Vec::new();
    let mut energy: Vec<Real> = Vec::new();
    let mut disp: Vec<[Real; 3]> = Vec::new();
    let mut vel: Vec<[Real; 3]> = Vec::new();
    let mut accel: Vec<[Real; 3]> = Vec::new();
    let mut i: usize = 0;
    while i < rows.len()
        invariant
            i <= rows@.len(),
            n == rows@.len(),
            forall|i: int| 0 <= i < rows@.len() ==> (#[trigger] rows@[i]).1.part < parts@.len(),
            time@ =~= Seq::new(n, |i: int| rows@[i].0).take(i as int),
            part@.len() == i,
            forall|k: int| 0 <= k < i ==> (#[trigger] part@[k])@ == parts@[rows@[k].1.part as int].name@,
            mass@ =~= Seq::new(n, |i: int| rows@[i].1.mass).take(i as int),
            energy@ =~= Seq::new(n, |i: int| rows@[i].1.kinetic_energy).take(i as int),
            disp@ =~= Seq::new(n, |i: int| rows@[i].1.displacement).take(i as int),
            vel@ =~= Seq::new(n, |i: int| rows@[i].1.velocity).take(i as int),
            accel@ =~= Seq::new(n, |i: int| rows@[i].1.acceleration).take(i as int),
        decreases rows.len() - i,
    {
        let (t, s): (Real, PartState) = rows[i];
        assert(rows@[i as int].1.part < parts@.len());
        time.push(t);
        part.push(parts[s.part].name.clone());
        mass.push(s.mass);
        energy.push(s.kinetic_energy);
        disp.push(s.displacement);
        vel.push(s.velocity);
        accel.push(s.acceleration);
        i += 1;
    }
    proof {
        assert(time@ =~= Seq::new(n, |i: int| rows@[i].0));
        assert(Seq::new(part@.len(), |i: int| part@[i]@) =~= Seq::new(
            n,
            |i: int| parts@[rows@[i].1.part as int].name@,
        ));
        assert(mass@ =~= Seq::new(n, |i: int| rows@[i].1.mass));
        assert(energy@ =~= Seq::new(n, |i: int| rows@[i].1.kinetic_energy));
        assert(disp@ =~= Seq::new(n, |i: int| rows@[i].1.displacement));
        assert(vel@ =~= Seq::new(n, |i: int| rows@[i].1.velocity));
        assert(accel@ =~= Seq::new(n, |i: int| rows@[i].1.acceleration));
    }
    let mut t: Vec<(String, Column)> = Vec::new();
    push_column(&mut t, "time", Column::F64(time));
    push_column(&mut t, "part", Column::Str(part));
    push_column(&mut t, "mass", Column::F64(mass));
    assert(table_view(t@) =~= seq![
        ("time"@, Cells::F64(Seq::new(n, |i: int| rows@[i].0))),
        ("part"@, Cells::Str(Seq::new(n, |i: int| parts@[rows@[i].1.part as int].name@))),
        ("mass"@, Cells::F64(Seq::new(n, |i: int| rows@[i].1.mass))),
    ]);
    xyz(&mut t, "u", &disp);
    xyz(&mut t, "v", &vel);
    xyz(&mut t, "a", &accel);
    push_column(&mut t, "kinetic_energy", Column::F64(energy));
    assert(table_view(t@) =~= part_columns(
        parts@,
        part_rows(history@, history@.len() as int),
    ));
    t
}

proof fn lemma_rows_exist(parts: int, history: Seq<(Real, Vec<PartState>)>, k: int)
    requires
        0 <= k <= history.len(),
        forall|k: int, i: int|
            0 <= k < history.len() && 0 <= i < history[k].1@.len() ==> (
            #[trigger] history[k].1@[i]).part < parts,
    ensures
        forall|i: int|
            0 <= i < part_rows(history, k).len() ==> (#[trigger] part_rows(history, k)[i]).1.part
                < parts,
    decreases k,
{
    if k > 0 {
        lemma_rows_exist(parts, history, k - 1);
        let before = part_rows(history, k - 1);
        assert forall|i: int| 0 <= i < part_rows(history, k).len() implies (
        #[trigger] part_rows(history, k)[i]).1.part < parts by {
            if i < before.len() {
                assert(before[i].1.part < parts);
            } else {
                assert(history[k - 1].1@[i - before.len()].part < parts);
            }
        }
    }
}

/// A table to be written: where, under what name, and its columns.
pub struct TableFile {
    pub path: String,
    pub name: String,
    pub columns: Vec<(String, Column)>,
}

/// The three tables of a run, each with the file it goes to.
pub fn write_history(
    parts: &Vec<Part>,
    accelerometers: &Vec<Accelerometer>,
    nodes: &NodeHistory,
    frames: &FrameHistory,
    history: &Vec<(Real, Vec<PartState>)>,
    base: &str,
) -> (r: Vec<TableFile>)
    requires
        forall|i: int|
            0 <= i < nodes.accelerometer@.len() ==> #[trigger] nodes.accelerometer@[i]
                < accelerometers@.len(),
        forall|i: int|
            0 <= i < frames.accelerometer@.len() ==> #[trigger] frames.accelerometer@[i]
                < accelerometers@.len(),
        forall|k: int, i: int|
            0 <= k < history@.len() && 0 <= i < history@[k].1@.len() ==> (
            #[trigger] history@[k].1@[i]).part < parts@.len(),
    ensures
        r@.len() == 3,
        r@[0].path@ == base@ + ".nodes.parquet"@,
        r@[0].name@ == "nodes"@,
        table_view(r@[0].columns@) == node_columns(accelerometers@, *nodes),
        r@[1].path@ == base@ + ".frames.parquet"@,
        r@[1].name@ == "frames"@,
        table_view(r@[1].columns@) == frame_columns(accelerometers@, *frames),
        r@[2].path@ == base@ + ".parts.parquet"@,
        r@[2].name@ == "parts"@,
        table_view(r@[2].columns@) == part_columns(
            parts@,
            part_rows(history@, history@.len() as int),
        ),
{
    let mut r: Vec<TableFile> = Vec::new();
    r.push(
        TableFile {
            path: with_suffix(base, ".nodes.parquet"),
            name: "nodes".to_string(),
            columns: node_table(accelerometers, nodes),
        },
    );
    r.push(
        TableFile {
            path: with_suffix(base, ".frames.parquet"),
            name: "frames".to_string(),
            columns: frame_table(accelerometers, frames),
        },
    );
    r.push(
        TableFile {
            path: with_suffix(base, ".parts.parquet"),
            name: "parts".to_string(),
            columns: part_table(parts, history),
        },
    );
    r
}

/// Number of rows that a column holds.
pub open spec fn cell_rows(c: Cells) -> nat {
    match c {
        Cells::F64(s) => s.len(),
        Cells::I64(s) => s.len(),
        Cells::Str(s) => s.len(),
    }
}

/// The node table of a history whose columns are of equal length has 25
/// columns, each with a row per sample; so does the frame table, with 15
/// columns; and the part table has 13 columns with a row per part state.
pub proof fn law_tables_are_rectangular(
    accelerometers: Seq<Accelerometer>,
    parts: Seq<Part>,
    nodes: NodeHistory,
    frames: FrameHistory,
    rows: Seq<(Real, PartState)>,
)
    requires
        nodes.wf(),
        frames.wf(),
    ensures
        node_columns(accelerometers, nodes).len() == 25,
        forall|i: int|
            0 <= i < 25 ==> cell_rows((#[trigger] node_columns(accelerometers, nodes)[i]).1)
                == nodes.time@.len(),
        frame_columns(accelerometers, frames).len() == 15,
        forall|i: int|
            0 <= i < 15 ==> cell_rows((#[trigger] frame_columns(accelerometers, frames)[i]).1)
                == frames.time@.len(),
        part_columns(parts, rows).len() == 13,
        forall|i: int|
            0 <= i < 13 ==> cell_rows((#[trigger] part_columns(parts, rows)[i]).1) == rows.len(),
{
}

/// A table that holds given columns is rectangular if they are of equal
/// length.
pub proof fn law_view_decides_rectangular(t: Seq<(String, Column)>, n: nat)
    requires
        t.len() > 0,
        forall|i: int| 0 <= i < t.len() ==> cell_rows((#[trigger] table_view(t)[i]).1) == n,
    ensures
        is_rectangular(t),
        table_rows(t) == n,
{
    assert forall|i: int| 0 <= i < t.len() implies (#[trigger] t[i]).1.rows() == n by {
        assert(cell_rows(table_view(t)[i].1) == n);
    }
}

// ---- what the tables hold ----

/// A number of a table: row `i` of column `j`.
pub open spec fn number_at(columns: Seq<(Seq<char>, Cells)>, j: int, i: int) -> Real {
    columns[j].1->F64_0[i]
}

/// The node table holds, per sample, the motion of the node: its position,
/// displacement, velocity and acceleration, and then the last three in the local
/// frame, each in its own three columns.
pub proof fn law_node_table_holds_the_samples(
    accelerometers: Seq<Accelerometer>,
    h: NodeHistory,
    i: int,
    d: int,
)
    requires
        h.wf(),
        0 <= i < h.time@.len(),
        0 <= d < 3,
    ensures
        ({
            let t = node_columns(accelerometers, h);
            &&& number_at(t, 0, i) == h.time@[i]
            &&& t[1].1->I64_0[i] == signed64(h.step@[i] as int) as i64
            &&& t[2].1->Str_0[i] == accelerometers[h.accelerometer@[i] as int].name@
            &&& t[3].1->I64_0[i] == signed64(h.node@[i] as int) as i64
            &&& number_at(t, 4 + d, i) == h.position@[i]@[d]
            &&& number_at(t, 7 + d, i) == h.displacement@[i]@[d]
            &&& number_at(t, 10 + d, i) == h.velocity@[i]@[d]
            &&& number_at(t, 13 + d, i) == h.acceleration@[i]@[d]
            &&& number_at(t, 16 + d, i) == h.local_displacement@[i]@[d]
            &&& number_at(t, 19 + d, i) == h.local_velocity@[i]@[d]
            &&& number_at(t, 22 + d, i) == h.local_acceleration@[i]@[d]
        }),
{
    assert(d == 0 || d == 1 || d == 2);
}

/// The columns of the node table are named after what they hold.
pub proof fn law_node_table_names(accelerometers: Seq<Accelerometer>, h: NodeHistory)
    ensures
        ({
            let t = node_columns(accelerometers, h);
            &&& t.len() == 25
            &&& t[0].0 == "time"@ && t[1].0 == "step"@ && t[2].0 == "accelerometer"@ && t[3].0
                == "node"@
            &&& t[4].0 == "x"@ && t[5].0 == "y"@ && t[6].0 == "z"@
            &&& t[7].0 == "ux"@ && t[8].0 == "uy"@ && t[9].0 == "uz"@
            &&& t[10].0 == "vx"@ && t[11].0 == "vy"@ && t[12].0 == "vz"@
            &&& t[13].0 == "ax"@ && t[14].0 == "ay"@ && t[15].0 == "az"@
            &&& t[16].0 == "lux"@ && t[17].0 == "luy"@ && t[18].0 == "luz"@
            &&& t[19].0 == "lvx"@ && t[20].0 == "lvy"@ && t[21].0 == "lvz"@
            &&& t[22].0 == "lax"@ && t[23].0 == "lay"@ && t[24].0 == "laz"@
        }),
{
    reveal_strlit("");
    reveal_strlit("u");
    reveal_strlit("v");
    reveal_strlit("a");
    reveal_strlit("lu");
    reveal_strlit("lv");
    reveal_strlit("la");
    reveal_strlit("x");
    reveal_strlit("y");
    reveal_strlit("z");
    reveal_strlit("ux");
    reveal_strlit("uy");
    reveal_strlit("uz");
    reveal_strlit("vx");
    reveal_strlit("vy");
    reveal_strlit("vz");
    reveal_strlit("ax");
    reveal_strlit("ay");
    reveal_strlit("az");
    reveal_strlit("lux");
    reveal_strlit("luy");
    reveal_strlit("luz");
    reveal_strlit("lvx");
    reveal_strlit("lvy");
    reveal_strlit("lvz");
    reveal_strlit("lax");
    reveal_strlit("lay");
    reveal_strlit("laz");
    let t = node_columns(accelerometers, h);
    assert(t[4].0 =~= "x"@ && t[5].0 =~= "y"@ && t[6].0 =~= "z"@);
    assert(t[7].0 =~= "ux"@ && t[8].0 =~= "uy"@ && t[9].0 =~= "uz"@);
    assert(t[10].0 =~= "vx"@ && t[11].0 =~= "vy"@ && t[12].0 =~= "vz"@);
    assert(t[13].0 =~= "ax"@ && t[14].0 =~= "ay"@ && t[15].0 =~= "az"@);
    assert(t[16].0 =~= "lux"@ && t[17].0 =~= "luy"@ && t[18].0 =~= "luz"@);
    assert(t[19].0 =~= "lvx"@ && t[20].0 =~= "lvy"@ && t[21].0 =~= "lvz"@);
    assert(t[22].0 =~= "lax"@ && t[23].0 =~= "lay"@ && t[24].0 =~= "laz"@);
}

/// The frame table holds, per sample, the origin of the frame and its three axes,
/// each in its own three columns.
pub proof fn law_frame_table_holds_the_frames(
    accelerometers: Seq<Accelerometer>,
    f: FrameHistory,
    i: int,
    d: int,
)
    requires
        f.wf(),
        0 <= i < f.time@.len(),
        0 <= d < 3,
    ensures
        ({
            let t = frame_columns(accelerometers, f);
            &&& number_at(t, 0, i) == f.time@[i]
            &&& t[1].1->I64_0[i] == signed64(f.step@[i] as int) as i64
            &&& t[2].1->Str_0[i] == accelerometers[f.accelerometer@[i] as int].name@
            &&& number_at(t, 3 + d, i) == f.origin@[i]@[d]
            &&& number_at(t, 6 + d, i) == f.axes@[i]@[0]@[d]
            &&& number_at(t, 9 + d, i) == f.axes@[i]@[1]@[d]
            &&& number_at(t, 12 + d, i) == f.axes@[i]@[2]@[d]
        }),
{
    assert(d == 0 || d == 1 || d == 2);
}

/// The part table holds, per row, the state of its part: name, mass, mean
/// displacement, velocity and acceleration, and kinetic energy.
pub proof fn law_part_table_holds_the_states(
    parts: Seq<Part>,
    rows: Seq<(Real, PartState)>,
    i: int,
    d: int,
)
    requires
        0 <= i < rows.len(),
        0 <= d < 3,
    ensures
        ({
            let t = part_columns(parts, rows);
            &&& number_at(t, 0, i) == rows[i].0
            &&& t[1].1->Str_0[i] == parts[rows[i].1.part as int].name@
            &&& number_at(t, 2, i) == rows[i].1.mass
            &&& number_at(t, 3 + d, i) == rows[i].1.displacement@[d]
            &&& number_at(t, 6 + d, i) == rows[i].1.velocity@[d]
            &&& number_at(t, 9 + d, i) == rows[i].1.acceleration@[d]
            &&& number_at(t, 12, i) == rows[i].1.kinetic_energy
        }),
{
    assert(d == 0 || d == 1 || d == 2);
}

/// Rows of the samples before the `k`-th.
pub open spec fn rows_before(history: Seq<(Real, Vec<PartState>)>, k: int) -> int
    decreases k,
{
    if k <= 0 {
        0
    } else {
        rows_before(history, k - 1) + history[k - 1].1@.len()
    }
}

/// The part table has a row for every part state of every sample, sample by
/// sample and in each in the order of the states, with the time of the sample.
pub proof fn law_part_rows_follow_the_history(
    history: Seq<(Real, Vec<PartState>)>,
    n: int,
    k: int,
    i: int,
)
    requires
        0 <= k < n <= history.len(),
        0 <= i < history[k].1@.len(),
    ensures
        part_rows(history, n).len() == rows_before(history, n),
        0 <= rows_before(history, k) + i < rows_before(history, n),
        part_rows(history, n)[rows_before(history, k) + i] == (history[k].0, history[k].1@[i]),
    decreases n,
{
    lemma_rows_before(history, n - 1);
    lemma_rows_before(history, k);
    if k < n - 1 {
        law_part_rows_follow_the_history(history, n - 1, k, i);
    }
}

proof fn lemma_rows_before(history: Seq<(Real, Vec<PartState>)>, n: int)
    requires
        0 <= n <= history.len(),
    ensures
        part_rows(history, n).len() == rows_before(history, n),
        0 <= rows_before(history, n),
    decreases n,
{
    if n > 0 {
        lemma_rows_before(history, n - 1);
    }
}

} // verus!
