//! VTK output: binary-appended XML `.vtu` per frame plus a `.pvd` time series.
//!
//! Point data: `displacement`. Cell data: `plastic_strain`, `stress` (6
//! components, Voigt xx yy zz xy yz xz), `part`, `eroded`.

use crate::bytes::{
    block, law_block_reads_back, le, le_all, le_limit, le_value, push_le, signed32, signed64,
    to_signed32, to_signed64, word,
};
use crate::mesh::Mesh;
use crate::number::Single;
use crate::solver::Frame;
use crate::text::{
    decimal, decimal4, law_decimal_reads_back, push_decimal, push_decimal4, digits_value,
};
use vstd::prelude::*;

verus! {

pub open spec fn single_words(v: Seq<Single>) -> Seq<nat> {
    Seq::new(v.len(), |i: int| v[i].bits as nat)
}

pub open spec fn i32_words(v: Seq<i32>) -> Seq<nat> {
    Seq::new(v.len(), |i: int| word(v[i] as int, 0x1_0000_0000))
}

pub open spec fn i64_words(v: Seq<i64>) -> Seq<nat> {
    Seq::new(v.len(), |i: int| word(v[i] as int, 0x1_0000_0000_0000_0000))
}

pub open spec fn u8_words(v: Seq<u8>) -> Seq<nat> {
    Seq::new(v.len(), |i: int| v[i] as nat)
}

/// Appends an array of single-precision numbers: its size in bytes, then its
/// entries, all little-endian.
pub fn push_f32(buf: &mut Vec<u8>, v: &Vec<Single>)
    requires
        4 * v@.len() <= u64::MAX,
    ensures
        final(buf)@ == old(buf)@ + block(single_words(v@), 4),
{
    let ghost start = buf@;
    let ghost words = single_words(v@);
    push_le(buf, 4 * v.len() as u64, 8);
    let ghost header = le(words.len() * 4, 8);
    let mut i: usize = 0;
    assert(buf@ =~= start + (header + le_all(words, 4, 0)));
    while i < v.len()
        invariant
            i <= v@.len(),
            words == single_words(v@),
            buf@ == start + (header + le_all(words, 4, i as int)),
        decreases v.len() - i,
    {
        push_le(buf, v[i].bits as u64, 4);
        assert(words[i as int] == v@[i as int].bits as nat);
        assert(buf@ =~= start + (header + le_all(words, 4, i + 1)));
        i += 1;
    }
}

/// Appends an array of 32-bit integers in the same way.
pub fn push_i32(buf: &mut Vec<u8>, v: &Vec<i32>)
    requires
        4 * v@.len() <= u64::MAX,
    ensures
        final(buf)@ == old(buf)@ + block(i32_words(v@), 4),
{
    let ghost start = buf@;
    let ghost words = i32_words(v@);
    push_le(buf, 4 * v.len() as u64, 8);
    let ghost header = le(words.len() * 4, 8);
    let mut i: usize = 0;
    assert(buf@ =~= start + (header + le_all(words, 4, 0)));
    while i < v.len()
        invariant
            i <= v@.len(),
            words == i32_words(v@),
            buf@ == start + (header + le_all(words, 4, i as int)),
        decreases v.len() - i,
    {
        let x: i64 = v[i] as i64;
        let w: u64 = if x < 0 {
            (x + 0x1_0000_0000) as u64
        } else {
            x as u64
        };
        push_le(buf, w, 4);
        assert(words[i as int] == w);
        assert(buf@ =~= start + (header + le_all(words, 4, i + 1)));
        i += 1;
    }
}

/// Appends an array of 64-bit integers in the same way.
pub fn push_i64(buf: &mut Vec<u8>, v: &Vec<i64>)
    requires
        8 * v@.len() <= u64::MAX,
    ensures
        final(buf)@ == old(buf)@ + block(i64_words(v@), 8),
{
    let ghost start = buf@;
    let ghost words = i64_words(v@);
    push_le(buf, 8 * v.len() as u64, 8);
    let ghost header = le(words.len() * 8, 8);
    let mut i: usize = 0;
    assert(buf@ =~= start + (header + le_all(words, 8, 0)));
    while i < v.len()
        invariant
            i <= v@.len(),
            words == i64_words(v@),
            buf@ == start + (header + le_all(words, 8, i as int)),
        decreases v.len() - i,
    {
        let x: i128 = v[i] as i128;
        let w: u64 = if x < 0 {
            (x + 0x1_0000_0000_0000_0000) as u64
        } else {
            x as u64
        };
        push_le(buf, w, 8);
        assert(words[i as int] == w);
        assert(buf@ =~= start + (header + le_all(words, 8, i + 1)));
        i += 1;
    }
}

/// Appends an array of bytes in the same way.
fn push_u8(buf: &mut Vec<u8>, v: &Vec<u8>)
    requires
        v@.len() <= u64::MAX,
    ensures
        final(buf)@ == old(buf)@ + block(u8_words(v@), 1),
{
    let ghost start = buf@;
    let ghost words = u8_words(v@);
    push_le(buf, v.len() as u64, 8);
    let ghost header = le(words.len() * 1, 8);
    let mut i: usize = 0;
    assert(buf@ =~= start + (header + le_all(words, 1, 0)));
    while i < v.len()
        invariant
            i <= v@.len(),
            words == u8_words(v@),
            buf@ == start + (header + le_all(words, 1, i as int)),
        decreases v.len() - i,
    {
        push_le(buf, v[i] as u64, 1);
        assert(words[i as int] == v@[i as int] as nat);
        assert(buf@ =~= start + (header + le_all(words, 1, i + 1)));
        i += 1;
    }
}

/// VTK's number for a hexahedron.
pub const HEXAHEDRON: u8 = 12;

/// The nodes of the elements, one element after the other.
pub open spec fn connectivity(hexes: Seq<[usize; 8]>) -> Seq<i64> {
    Seq::new(8 * hexes.len(), |i: int| signed64(hexes[i / 8]@[i % 8] as int) as i64)
}

/// Where the nodes of each element end in the connectivity.
pub open spec fn cell_ends(n: nat) -> Seq<i64> {
    Seq::new(n, |i: int| (8 * (i + 1)) as i64)
}

pub open spec fn cell_types(n: nat) -> Seq<u8> {
    Seq::new(n, |i: int| HEXAHEDRON)
}

/// Stress components, one element after the other.
pub open spec fn flat_stress(stress: Seq<[Single; 6]>) -> Seq<Single> {
    Seq::new(6 * stress.len(), |i: int| stress[i / 6]@[i % 6])
}

pub open spec fn part_column(hex_part: Seq<usize>) -> Seq<i32> {
    Seq::new(hex_part.len(), |i: int| signed32(hex_part[i] as int) as i32)
}

pub open spec fn flag_column(eroded: Seq<bool>) -> Seq<i32> {
    Seq::new(
        eroded.len(),
        |i: int|
            if eroded[i] {
                1i32
            } else {
                0i32
            },
    )
}

/// The arrays of a `.vtu` file, in the order in which they are stored: points,
/// displacement, connectivity, offsets, types, plastic strain, stress, part and
/// eroded.
pub open spec fn array_at<P>(
    mesh: Mesh<P>,
    points: Seq<Single>,
    frame: Frame,
    k: int,
) -> Seq<u8> {
    if k == 0 {
        block(single_words(points), 4)
    } else if k == 1 {
        block(single_words(frame.displacement@), 4)
    } else if k == 2 {
        block(i64_words(connectivity(mesh.hexes@)), 8)
    } else if k == 3 {
        block(i64_words(cell_ends(mesh.hexes@.len())), 8)
    } else if k == 4 {
        block(u8_words(cell_types(mesh.hexes@.len())), 1)
    } else if k == 5 {
        block(single_words(frame.plastic_strain@), 4)
    } else if k == 6 {
        block(single_words(flat_stress(frame.stress@)), 4)
    } else if k == 7 {
        block(i32_words(part_column(mesh.hex_part@)), 4)
    } else {
        block(i32_words(flag_column(frame.eroded@)), 4)
    }
}

/// The first `k` arrays, one after the other.
pub open spec fn arrays<P>(mesh: Mesh<P>, points: Seq<Single>, frame: Frame, k: int) -> Seq<u8>
    decreases k,
{
    if k <= 0 {
        Seq::empty()
    } else {
        arrays(mesh, points, frame, k - 1) + array_at(mesh, points, frame, k - 1)
    }
}

/// Where array `k` starts.
pub open spec fn offset<P>(mesh: Mesh<P>, points: Seq<Single>, frame: Frame, k: int) -> nat {
    arrays(mesh, points, frame, k).len()
}

/// Every array stands in the data where its offset says.
pub proof fn law_offsets_point_at_arrays<P>(
    mesh: Mesh<P>,
    points: Seq<Single>,
    frame: Frame,
    k: int,
    n: int,
)
    requires
        0 <= k < n,
    ensures
        ({
            let data = arrays(mesh, points, frame, n);
            let at = offset(mesh, points, frame, k) as int;
            let a = array_at(mesh, points, frame, k);
            at + a.len() <= data.len() && data.subrange(at, at + a.len()) == a
        }),
    decreases n,
{
    let data = arrays(mesh, points, frame, n);
    let at = offset(mesh, points, frame, k) as int;
    let a = array_at(mesh, points, frame, k);
    if k == n - 1 {
        assert(data.subrange(at, at + a.len()) =~= a);
    } else {
        law_offsets_point_at_arrays(mesh, points, frame, k, n - 1);
        let before = arrays(mesh, points, frame, n - 1);
        assert(data.subrange(at, at + a.len()) =~= before.subrange(at, at + a.len()));
    }
}

/// The header of a `.vtu` file with given offsets of its arrays.
pub open spec fn header(points: nat, cells: nat, at: Seq<nat>) -> Seq<char> {
    "<?xml version=\"1.0\"?>\n<VTKFile type=\"UnstructuredGrid\" version=\"1.0\" byte_order=\"LittleEndian\" header_type=\"UInt64\">\n"@
        + "  <UnstructuredGrid>\n    <Piece NumberOfPoints=\""@ + decimal(points)
        + "\" NumberOfCells=\""@ + decimal(cells) + "\">\n"@
        + "      <Points>\n        <DataArray type=\"Float32\" NumberOfComponents=\"3\" format=\"appended\" offset=\""@
        + decimal(at[0]) + "\"/>\n      </Points>\n"@
        + "      <PointData Vectors=\"displacement\">\n        <DataArray type=\"Float32\" Name=\"displacement\" NumberOfComponents=\"3\" format=\"appended\" offset=\""@
        + decimal(at[1]) + "\"/>\n      </PointData>\n"@
        + "      <Cells>\n        <DataArray type=\"Int64\" Name=\"connectivity\" format=\"appended\" offset=\""@
        + decimal(at[2])
        + "\"/>\n        <DataArray type=\"Int64\" Name=\"offsets\" format=\"appended\" offset=\""@
        + decimal(at[3])
        + "\"/>\n        <DataArray type=\"UInt8\" Name=\"types\" format=\"appended\" offset=\""@
        + decimal(at[4]) + "\"/>\n      </Cells>\n"@
        + "      <CellData Scalars=\"plastic_strain\">\n        <DataArray type=\"Float32\" Name=\"plastic_strain\" format=\"appended\" offset=\""@
        + decimal(at[5])
        + "\"/>\n        <DataArray type=\"Float32\" Name=\"stress\" NumberOfComponents=\"6\" format=\"appended\" offset=\""@
        + decimal(at[6])
        + "\"/>\n        <DataArray type=\"Int32\" Name=\"part\" format=\"appended\" offset=\""@
        + decimal(at[7])
        + "\"/>\n        <DataArray type=\"Int32\" Name=\"eroded\" format=\"appended\" offset=\""@
        + decimal(at[8]) + "\"/>\n      </CellData>\n"@
        + "    </Piece>\n  </UnstructuredGrid>\n  <AppendedData encoding=\"raw\">\n   _"@
}

/// A `.vtu` file: its header, its arrays and its end, one after the other.
#[derive(Clone, Debug)]
pub struct Vtu {
    pub header: String,
    pub data: Vec<u8>,
    pub footer: String,
}

fn write_header(points: usize, cells: usize, at: &Vec<usize>) -> (s: String)
    requires
        at@.len() == 9,
    ensures
        s@ == header(
            points as nat,
            cells as nat,
            Seq::new(at@.len(), |i: int| at@[i] as nat),
        ),
{
    let mut s: String =
        "<?xml version=\"1.0\"?>\n<VTKFile type=\"UnstructuredGrid\" version=\"1.0\" byte_order=\"LittleEndian\" header_type=\"UInt64\">\n".to_string();
    s.append("  <UnstructuredGrid>\n    <Piece NumberOfPoints=\"");
    push_decimal(&mut s, points);
    s.append("\" NumberOfCells=\"");
    push_decimal(&mut s, cells);
    s.append("\">\n");
    s.append(
        "      <Points>\n        <DataArray type=\"Float32\" NumberOfComponents=\"3\" format=\"appended\" offset=\"",
    );
    push_decimal(&mut s, at[0]);
    s.append("\"/>\n      </Points>\n");
    s.append(
        "      <PointData Vectors=\"displacement\">\n        <DataArray type=\"Float32\" Name=\"displacement\" NumberOfComponents=\"3\" format=\"appended\" offset=\"",
    );
    push_decimal(&mut s, at[1]);
    s.append("\"/>\n      </PointData>\n");
    s.append(
        "      <Cells>\n        <DataArray type=\"Int64\" Name=\"connectivity\" format=\"appended\" offset=\"",
    );
    push_decimal(&mut s, at[2]);
    s.append(
        "\"/>\n        <DataArray type=\"Int64\" Name=\"offsets\" format=\"appended\" offset=\"",
    );
    push_decimal(&mut s, at[3]);
    s.append(
        "\"/>\n        <DataArray type=\"UInt8\" Name=\"types\" format=\"appended\" offset=\"",
    );
    push_decimal(&mut s, at[4]);
    s.append("\"/>\n      </Cells>\n");
    s.append(
        "      <CellData Scalars=\"plastic_strain\">\n        <DataArray type=\"Float32\" Name=\"plastic_strain\" format=\"appended\" offset=\"",
    );
    push_decimal(&mut s, at[5]);
    s.append(
        "\"/>\n        <DataArray type=\"Float32\" Name=\"stress\" NumberOfComponents=\"6\" format=\"appended\" offset=\"",
    );
    push_decimal(&mut s, at[6]);
    s.append(
        "\"/>\n        <DataArray type=\"Int32\" Name=\"part\" format=\"appended\" offset=\"",
    );
    push_decimal(&mut s, at[7]);
    s.append(
        "\"/>\n        <DataArray type=\"Int32\" Name=\"eroded\" format=\"appended\" offset=\"",
    );
    push_decimal(&mut s, at[8]);
    s.append("\"/>\n      </CellData>\n");
    s.append(
        "    </Piece>\n  </UnstructuredGrid>\n  <AppendedData encoding=\"raw\">\n   _",
    );
    s
}

fn connectivity_of(hexes: &Vec<[usize; 8]>) -> (r: Vec<i64>)
    ensures
        r@ == connectivity(hexes@),
{
    let mut r: Vec<i64> = Vec::new();
    let mut e: usize = 0;
    while e < hexes.len()
        invariant
            e <= hexes@.len(),
            r@ =~= connectivity(hexes@).take(8 * e),
        decreases hexes.len() - e,
    {
        let mut c: usize = 0;
        while c < 8
            invariant
                e < hexes@.len(),
                c <= 8,
                r@ =~= connectivity(hexes@).take(8 * e + c),
            decreases 8 - c,
        {
            r.push(to_signed64(hexes[e][c]));
            c += 1;
        }
        e += 1;
    }
    r
}

fn stress_of(stress: &Vec<[Single; 6]>) -> (r: Vec<Single>)
    ensures
        r@ == flat_stress(stress@),
{
    let mut r: Vec<Single> = Vec::new();
    let mut e: usize = 0;
    while e < stress.len()
        invariant
            e <= stress@.len(),
            r@ =~= flat_stress(stress@).take(6 * e),
        decreases stress.len() - e,
    {
        let mut c: usize = 0;
        while c < 6
            invariant
                e < stress@.len(),
                c <= 6,
                r@ =~= flat_stress(stress@).take(6 * e + c),
            decreases 6 - c,
        {
            r.push(stress[e][c]);
            c += 1;
        }
        e += 1;
    }
    r
}

fn cells_of(n: usize) -> (r: (Vec<i64>, Vec<u8>))
    requires
        8 * n <= i64::MAX,
    ensures
        r.0@ == cell_ends(n as nat),
        r.1@ == cell_types(n as nat),
{
    let mut ends: Vec<i64> = Vec::new();
    let mut types: Vec<u8> = Vec::new();
    let mut i: usize = 0;
    while i < n
        invariant
            i <= n,
            8 * n <= i64::MAX,
            ends@ =~= cell_ends(i as nat),
            types@ =~= cell_types(i as nat),
        decreases n - i,
    {
        ends.push(8 * (i as i64 + 1));
        types.push(HEXAHEDRON);
        i += 1;
    }
    (ends, types)
}

fn parts_of(hex_part: &Vec<usize>) -> (r: Vec<i32>)
    ensures
        r@ == part_column(hex_part@),
{
    let mut r: Vec<i32> = Vec::new();
    let mut i: usize = 0;
    while i < hex_part.len()
        invariant
            i <= hex_part@.len(),
            r@ =~= part_column(hex_part@).take(i as int),
        decreases hex_part.len() - i,
    {
        r.push(to_signed32(hex_part[i]));
        i += 1;
    }
    r
}

fn flags_of(eroded: &Vec<bool>) -> (r: Vec<i32>)
    ensures
        r@ == flag_column(eroded@),
{
    let mut r: Vec<i32> = Vec::new();
    let mut i: usize = 0;
    while i < eroded.len()
        invariant
            i <= eroded@.len(),
            r@ =~= flag_column(eroded@).take(i as int),
        decreases eroded.len() - i,
    {
        r.push(
            if eroded[i] {
                1
            } else {
                0
            },
        );
        i += 1;
    }
    r
}

/// One frame as a `.vtu` (unstructured grid, hexahedra) file. `points` are the
/// deformed positions, three coordinates per node.
pub fn write_vtu<P>(mesh: &Mesh<P>, points: &Vec<Single>, frame: &Frame) -> (r: Vtu)
    requires
        points@.len() == 3 * mesh.nodes@.len(),
        frame.displacement@.len() >= 3 * mesh.nodes@.len(),
        4 * points@.len() <= u64::MAX,
        4 * frame.displacement@.len() <= u64::MAX,
        64 * mesh.hexes@.len() <= i64::MAX,
        4 * frame.plastic_strain@.len() <= u64::MAX,
        24 * frame.stress@.len() <= u64::MAX,
        4 * mesh.hex_part@.len() <= u64::MAX,
        4 * frame.eroded@.len() <= u64::MAX,
    ensures
        r.data@ == arrays(*mesh, points@, *frame, 9),
        r.header@ == header(
            mesh.nodes@.len(),
            mesh.hexes@.len(),
            Seq::new(9, |k: int| offset(*mesh, points@, *frame, k)),
        ),
        r.footer@ == "\n  </AppendedData>\n</VTKFile>\n"@,
{
    let mut data: Vec<u8> = Vec::new();
    let mut at: Vec<usize> = Vec::new();
    assert(data@ =~= arrays(*mesh, points@, *frame, 0));
    at.push(data.len());
    push_f32(&mut data, points);
    assert(data@ == arrays(*mesh, points@, *frame, 1));
    at.push(data.len());
    push_f32(&mut data, &frame.displacement);
    assert(data@ == arrays(*mesh, points@, *frame, 2));
    let n: usize = mesh.hexes.len();
    let (ends, types): (Vec<i64>, Vec<u8>) = cells_of(n);
    at.push(data.len());
    push_i64(&mut data, &connectivity_of(&mesh.hexes));
    assert(data@ == arrays(*mesh, points@, *frame, 3));
    at.push(data.len());
    push_i64(&mut data, &ends);
    assert(data@ == arrays(*mesh, points@, *frame, 4));
    at.push(data.len());
    push_u8(&mut data, &types);
    assert(data@ == arrays(*mesh, points@, *frame, 5));
    at.push(data.len());
    push_f32(&mut data, &frame.plastic_strain);
    assert(data@ == arrays(*mesh, points@, *frame, 6));
    at.push(data.len());
    push_f32(&mut data, &stress_of(&frame.stress));
    assert(data@ == arrays(*mesh, points@, *frame, 7));
    at.push(data.len());
    push_i32(&mut data, &parts_of(&mesh.hex_part));
    assert(data@ == arrays(*mesh, points@, *frame, 8));
    at.push(data.len());
    push_i32(&mut data, &flags_of(&frame.eroded));
    assert(data@ == arrays(*mesh, points@, *frame, 9));
    assert(Seq::new(at@.len(), |i: int| at@[i] as nat) =~= Seq::new(
        9,
        |k: int| offset(*mesh, points@, *frame, k),
    ));
    let header: String = write_header(mesh.nodes.len(), n, &at);
    Vtu { header, data, footer: "\n  </AppendedData>\n</VTKFile>\n".to_string() }
}

// ---- series ----

/// The name of the file of frame `k`.
pub open spec fn frame_name(stem: Seq<char>, k: nat) -> Seq<char> {
    stem + "_"@ + decimal4(k) + ".vtu"@
}

/// The line that the series has for a frame.
pub open spec fn series_line(time: Seq<char>, name: Seq<char>) -> Seq<char> {
    "    <DataSet timestep=\""@ + time + "\" file=\""@ + name + "\"/>\n"@
}

/// The lines of the first `k` frames.
pub open spec fn series_lines(stem: Seq<char>, times: Seq<String>, k: int) -> Seq<char>
    decreases k,
{
    if k <= 0 {
        Seq::empty()
    } else {
        series_lines(stem, times, k - 1) + series_line(
            times[k - 1]@,
            frame_name(stem, (k - 1) as nat),
        )
    }
}

/// The name of the file of frame `k`.
pub fn name_of_frame(stem: &str, k: usize) -> (s: String)
    ensures
        s@ == frame_name(stem@, k as nat),
{
    let mut s: String = stem.to_string();
    s.append("_");
    push_decimal4(&mut s, k);
    s.append(".vtu");
    s
}

/// The `.pvd` file of a series: one entry per frame, with its time and the name
/// of its file.
pub fn write_series(stem: &str, times: &Vec<String>) -> (s: String)
    ensures
        s@
            == "<?xml version=\"1.0\"?>\n<VTKFile type=\"Collection\" version=\"1.0\" byte_order=\"LittleEndian\">\n  <Collection>\n"@
            + series_lines(stem@, times@, times@.len() as int)
            + "  </Collection>\n</VTKFile>\n"@,
{
    let mut s: String =
        "<?xml version=\"1.0\"?>\n<VTKFile type=\"Collection\" version=\"1.0\" byte_order=\"LittleEndian\">\n  <Collection>\n".to_string();
    let ghost start = s@;
    let mut k: usize = 0;
    assert(s@ =~= start + series_lines(stem@, times@, 0));
    while k < times.len()
        invariant
            k <= times@.len(),
            s@ == start + series_lines(stem@, times@, k as int),
        decreases times.len() - k,
    {
        let name: String = name_of_frame(stem, k);
        s.append("    <DataSet timestep=\"");
        s.append(&times[k]);
        s.append("\" file=\"");
        s.append(&name);
        s.append("\"/>\n");
        assert(s@ =~= start + series_lines(stem@, times@, k + 1));
        k += 1;
    }
    s.append("  </Collection>\n</VTKFile>\n");
    s
}

/// The last digits of a number in decimal with leading zeros spell it.
proof fn lemma_decimal4(k: nat)
    ensures
        digits_value(decimal4(k)) == k,
{
    law_decimal_reads_back(k);
    let d = decimal(k);
    reveal_with_fuel(digits_value, 4);
    if k < 10 {
        assert(d.len() == 1);
        assert(decimal4(k).drop_last() =~= seq!['0', '0', '0']);
        assert(seq!['0', '0', '0'].drop_last() =~= seq!['0', '0']);
        assert(seq!['0', '0'].drop_last() =~= seq!['0']);
        assert(seq!['0'].drop_last() =~= Seq::<char>::empty());
        assert(d.drop_last() =~= Seq::<char>::empty());
    } else if k < 100 {
        lemma_zeros(seq!['0', '0'], d);
    } else if k < 1000 {
        lemma_zeros(seq!['0'], d);
    }
}

proof fn lemma_zeros(z: Seq<char>, d: Seq<char>)
    requires
        forall|i: int| 0 <= i < z.len() ==> z[i] == '0',
    ensures
        digits_value(z + d) == digits_value(d),
    decreases z.len() + d.len(),
{
    if d.len() > 0 {
        assert((z + d).drop_last() =~= z + d.drop_last());
        lemma_zeros(z, d.drop_last());
    } else {
        assert(z + d =~= z);
        if z.len() > 0 {
            assert(z.drop_last() + d =~= z.drop_last());
            lemma_zeros(z.drop_last(), d);
        }
    }
}

/// The files of two frames of a series have different names.
pub proof fn law_frame_names_differ(stem: Seq<char>, a: nat, b: nat)
    requires
        frame_name(stem, a) == frame_name(stem, b),
    ensures
        a == b,
{
    let (p, q) = (frame_name(stem, a), frame_name(stem, b));
    let tail = ".vtu"@.len();
    let lead = (stem + "_"@).len() as int;
    assert(p.subrange(lead, p.len() - tail) =~= decimal4(a));
    assert(q.subrange(lead, q.len() - tail) =~= decimal4(b));
    lemma_decimal4(a);
    lemma_decimal4(b);
}

// ---- reading a file back ----

/// Entry `i` of the array of entries of `w` bytes at an offset of the data.
pub open spec fn entry(data: Seq<u8>, at: int, w: int, i: int) -> nat {
    le_value(data.subrange(at + 8 + i * w, at + 8 + i * w + w))
}

proof fn lemma_limits()
    ensures
        le_limit(1) == 0x100,
        le_limit(4) == 0x1_0000_0000,
        le_limit(8) == 0x1_0000_0000_0000_0000,
{
    reveal_with_fuel(le_limit, 9);
}

proof fn lemma_entry<P>(
    mesh: Mesh<P>,
    points: Seq<Single>,
    frame: Frame,
    k: int,
    v: Seq<nat>,
    w: nat,
    i: int,
)
    requires
        0 <= k < 9,
        array_at(mesh, points, frame, k) == block(v, w),
        v.len() * w < 0x1_0000_0000_0000_0000,
        0 <= i < v.len(),
        v[i] < le_limit(w),
    ensures
        entry(
            arrays(mesh, points, frame, 9),
            offset(mesh, points, frame, k) as int,
            w as int,
            i,
        ) == v[i],
{
    lemma_limits();
    law_offsets_point_at_arrays(mesh, points, frame, k, 9);
    law_block_reads_back(
        arrays(mesh, points, frame, 9),
        offset(mesh, points, frame, k) as int,
        v,
        w,
        i,
    );
}

/// What a `.vtu` file holds of the points, reads back: the coordinates behind the
/// first offset, the displacements behind the second, each as it is.
pub proof fn law_point_data_reads_back<P>(
    mesh: Mesh<P>,
    points: Seq<Single>,
    frame: Frame,
    i: int,
)
    requires
        4 * points.len() <= u64::MAX,
        4 * frame.displacement@.len() <= u64::MAX,
    ensures
        ({
            let data = arrays(mesh, points, frame, 9);
            &&& 0 <= i < points.len() ==> entry(
                data,
                offset(mesh, points, frame, 0) as int,
                4,
                i,
            ) == points[i].bits
            &&& 0 <= i < frame.displacement@.len() ==> entry(
                data,
                offset(mesh, points, frame, 1) as int,
                4,
                i,
            ) == frame.displacement@[i].bits
        }),
{
    lemma_limits();
    if 0 <= i < points.len() {
        lemma_entry(mesh, points, frame, 0, single_words(points), 4, i);
    }
    if 0 <= i < frame.displacement@.len() {
        lemma_entry(mesh, points, frame, 1, single_words(frame.displacement@), 4, i);
    }
}

/// What a `.vtu` file holds of the shape of element `e` reads back: its eight
/// nodes in their order, where they end, and that it is a hexahedron.
pub proof fn law_cells_read_back<P>(
    mesh: Mesh<P>,
    points: Seq<Single>,
    frame: Frame,
    e: int,
    c: int,
)
    requires
        64 * mesh.hexes@.len() <= u64::MAX,
        0 <= e < mesh.hexes@.len(),
        0 <= c < 8,
    ensures
        ({
            let data = arrays(mesh, points, frame, 9);
            &&& entry(data, offset(mesh, points, frame, 2) as int, 8, 8 * e + c)
                == mesh.hexes@[e]@[c]
            &&& entry(data, offset(mesh, points, frame, 3) as int, 8, e) == 8 * (e + 1)
            &&& entry(data, offset(mesh, points, frame, 4) as int, 1, e) == 12
        }),
{
    lemma_limits();
    let n = mesh.hexes@.len();
    let nodes = connectivity(mesh.hexes@);
    let x = mesh.hexes@[e]@[c] as int;
    assert((8 * e + c) / 8 == e && (8 * e + c) % 8 == c);
    assert(nodes[8 * e + c] == signed64(x) as i64);
    assert(i64_words(nodes)[8 * e + c] == x);
    lemma_entry(mesh, points, frame, 2, i64_words(nodes), 8, 8 * e + c);
    assert(i64_words(cell_ends(n))[e] == 8 * (e + 1));
    lemma_entry(mesh, points, frame, 3, i64_words(cell_ends(n)), 8, e);
    lemma_entry(mesh, points, frame, 4, u8_words(cell_types(n)), 1, e);
}

/// What a `.vtu` file holds of the state of element `e` reads back: its plastic
/// strain, the components of its stress, its part, and whether it is eroded.
pub proof fn law_cell_data_reads_back<P>(
    mesh: Mesh<P>,
    points: Seq<Single>,
    frame: Frame,
    e: int,
    c: int,
)
    requires
        0 <= e < frame.plastic_strain@.len(),
        e < frame.stress@.len(),
        e < frame.eroded@.len(),
        e < mesh.hex_part@.len(),
        0 <= c < 6,
        4 * frame.plastic_strain@.len() <= u64::MAX,
        24 * frame.stress@.len() <= u64::MAX,
        4 * frame.eroded@.len() <= u64::MAX,
        4 * mesh.hex_part@.len() <= u64::MAX,
        mesh.hex_part@[e] <= u32::MAX,
    ensures
        ({
            let data = arrays(mesh, points, frame, 9);
            &&& entry(data, offset(mesh, points, frame, 5) as int, 4, e)
                == frame.plastic_strain@[e].bits
            &&& entry(data, offset(mesh, points, frame, 6) as int, 4, 6 * e + c)
                == frame.stress@[e]@[c].bits
            &&& entry(data, offset(mesh, points, frame, 7) as int, 4, e) == mesh.hex_part@[e]
            &&& entry(data, offset(mesh, points, frame, 8) as int, 4, e) == (if frame.eroded@[e] {
                1nat
            } else {
                0
            })
        }),
{
    lemma_limits();
    lemma_entry(mesh, points, frame, 5, single_words(frame.plastic_strain@), 4, e);
    let stress = flat_stress(frame.stress@);
    assert((6 * e + c) / 6 == e && (6 * e + c) % 6 == c);
    assert(stress[6 * e + c] == frame.stress@[e]@[c]);
    lemma_entry(mesh, points, frame, 6, single_words(stress), 4, 6 * e + c);
    let parts = part_column(mesh.hex_part@);
    let p = mesh.hex_part@[e] as int;
    assert(parts[e] == signed32(p) as i32);
    assert(i32_words(parts)[e] == p);
    lemma_entry(mesh, points, frame, 7, i32_words(parts), 4, e);
    let flags = flag_column(frame.eroded@);
    assert(i32_words(flags)[e] == (if frame.eroded@[e] {
        1nat
    } else {
        0
    }));
    lemma_entry(mesh, points, frame, 8, i32_words(flags), 4, e);
}

/// The series names the frames in their order, numbered from zero, each with its
/// own time and the file of its own number.
pub proof fn law_series_names_each_frame(stem: Seq<char>, times: Seq<String>, k: int)
    requires
        0 <= k < times.len(),
    ensures
        series_lines(stem, times, 0) == Seq::<char>::empty(),
        series_lines(stem, times, k + 1) == series_lines(stem, times, k) + ("    <DataSet timestep=\""@
            + times[k]@ + "\" file=\""@ + (stem + "_"@ + decimal4(k as nat) + ".vtu"@)
            + "\"/>\n"@),
{
}

} // verus!
