//! Minimal Abaqus `.inp` reader (as exported by Gmsh): `*NODE`,
//! `*ELEMENT, type=C3D8` (hexahedra; one part per ELSET), `*ELEMENT,
//! type=CPS4` (quads, taken as contact faces; one face set per ELSET), `*NSET`.
//!
//! A node's position is kept as the text of its three coordinates.

use crate::indices::{is_picked, law_places_where, lemma_picked_grows, places_where};
use crate::mesh::{Mesh, Part};
use crate::text::{
    chars_of, first_at, integer64, lemma_split_is_never_empty, non_blank, non_blank_pieces, parse_integer, pieces, position_of,
    same_text, slice_of, split, string_of, texts, trim, trimmed, upper, upper_of,
};
use std::collections::HashMap;
use vstd::prelude::*;

verus! {

/// Why a file is refused: the line that could not be read.
#[derive(Clone, Debug)]
pub enum InpError {
    /// A node line whose number is not one.
    BadNode(String),
    /// An element line that refers to a node not defined before it.
    UnknownNode(String),
}

impl InpError {
    pub open spec fn text(self) -> Seq<char> {
        match self {
            InpError::BadNode(line) => "bad node line: "@ + line@,
            InpError::UnknownNode(line) => "unknown node in element line: "@ + line@,
        }
    }

    /// The message shown to the user.
    pub fn message(&self) -> (r: String)
        ensures
            r@ == self.text(),
    {
        match self {
            InpError::BadNode(line) => "bad node line: ".to_string().concat(line),
            InpError::UnknownNode(line) => "unknown node in element line: ".to_string().concat(
                line,
            ),
        }
    }
}

/// What has been read of a file.
#[verifier::ext_equal]
pub struct InpScan {
    /// Coordinate texts of each node.
    pub nodes: Seq<Seq<Seq<char>>>,
    /// Place of each node number among the nodes.
    pub index: Map<i64, usize>,
    pub hexes: Seq<Seq<usize>>,
    pub hex_part: Seq<usize>,
    pub parts: Seq<Seq<char>>,
    pub faces: Seq<Seq<usize>>,
    pub node_sets: Map<Seq<char>, Seq<usize>>,
    pub face_sets: Map<Seq<char>, Seq<usize>>,
    /// The section the current line belongs to, its element type and its set.
    pub section: Seq<char>,
    pub kind: Seq<char>,
    pub set_name: Seq<char>,
}

/// Where reading stands after some lines.
pub enum InpStep {
    Going(InpScan),
    BadNode(Seq<char>),
    UnknownNode(Seq<char>),
    /// An element line held no field at all.
    Stuck,
}

pub open spec fn start() -> InpScan {
    InpScan {
        nodes: Seq::empty(),
        index: Map::empty(),
        hexes: Seq::empty(),
        hex_part: Seq::empty(),
        parts: Seq::empty(),
        faces: Seq::empty(),
        node_sets: Map::empty(),
        face_sets: Map::empty(),
        section: Seq::empty(),
        kind: Seq::empty(),
        set_name: Seq::empty(),
    }
}

/// The value that the parameters `1..k` of a section line give a key: the last
/// one given counts.
pub open spec fn param(pieces: Seq<Seq<char>>, key: Seq<char>, k: int) -> Option<Seq<char>>
    decreases k,
{
    if k <= 1 {
        None
    } else {
        let p = trim(pieces[k - 1]);
        let at = first_at(p, '=');
        if at < p.len() && upper(trim(p.subrange(0, at))) == key {
            Some(trim(p.subrange(at + 1, p.len() as int)))
        } else {
            param(pieces, key, k - 1)
        }
    }
}

pub open spec fn or_nothing(value: Option<Seq<char>>) -> Seq<char> {
    match value {
        Some(v) => v,
        None => Seq::empty(),
    }
}

/// The state after a section line, given without its star.
pub open spec fn after_header(st: InpScan, rest: Seq<char>) -> InpScan {
    let p = split(rest, ',');
    let n = p.len() as int;
    InpScan {
        section: upper(trim(p[0])),
        kind: match param(p, "TYPE"@, n) {
            Some(v) => upper(v),
            None => Seq::empty(),
        },
        set_name: match param(p, "ELSET"@, n) {
            Some(v) => v,
            None => or_nothing(param(p, "NSET"@, n)),
        },
        ..st
    }
}

/// The place of the node that a field names.
pub open spec fn node_of(index: Map<i64, usize>, field: Seq<char>) -> Option<usize> {
    match integer64(field) {
        Some(id) => if index.dom().contains(id) {
            Some(index[id])
        } else {
            None
        },
        None => None,
    }
}

/// The places of the nodes that the fields name, if all are known.
pub open spec fn all_nodes(index: Map<i64, usize>, fields: Seq<Seq<char>>) -> Option<Seq<usize>>
    decreases fields.len(),
{
    if fields.len() == 0 {
        Some(Seq::empty())
    } else {
        match (all_nodes(index, fields.drop_last()), node_of(index, fields.last())) {
            (Some(s), Some(n)) => Some(s.push(n)),
            _ => None,
        }
    }
}

/// The places of those nodes that the fields name and that are known.
pub open spec fn known_nodes(index: Map<i64, usize>, fields: Seq<Seq<char>>) -> Seq<usize>
    decreases fields.len(),
{
    if fields.len() == 0 {
        Seq::empty()
    } else {
        let before = known_nodes(index, fields.drop_last());
        match node_of(index, fields.last()) {
            Some(n) => before.push(n),
            None => before,
        }
    }
}

pub open spec fn is_first_named(parts: Seq<Seq<char>>, name: Seq<char>, p: int) -> bool {
    &&& 0 <= p < parts.len()
    &&& parts[p] == name
    &&& forall|i: int| 0 <= i < p ==> #[trigger] parts[i] != name
}

/// The part of a name; one past the parts if there is none.
pub open spec fn part_place(parts: Seq<Seq<char>>, name: Seq<char>) -> int {
    if exists|p: int| is_first_named(parts, name, p) {
        choose|p: int| is_first_named(parts, name, p)
    } else {
        parts.len() as int
    }
}

/// A set as it stands, empty where there is none.
pub open spec fn set_or_empty(sets: Map<Seq<char>, Seq<usize>>, name: Seq<char>) -> Seq<usize> {
    if sets.dom().contains(name) {
        sets[name]
    } else {
        Seq::empty()
    }
}

/// The state after an element with the given nodes.
pub open spec fn after_element(st: InpScan, ids: Seq<usize>) -> InpScan {
    if st.kind == "C3D8"@ && ids.len() == 8 {
        let p = part_place(st.parts, st.set_name);
        InpScan {
            parts: if p < st.parts.len() {
                st.parts
            } else {
                st.parts.push(st.set_name)
            },
            hexes: st.hexes.push(ids),
            hex_part: st.hex_part.push(p as usize),
            ..st
        }
    } else if st.kind == "CPS4"@ && ids.len() == 4 {
        InpScan {
            faces: st.faces.push(ids),
            face_sets: st.face_sets.insert(
                st.set_name,
                set_or_empty(st.face_sets, st.set_name).push(st.faces.len() as usize),
            ),
            ..st
        }
    } else {
        st
    }
}

/// What a data line does.
pub open spec fn after_data(st: InpScan, line: Seq<char>) -> InpStep {
    let fields = non_blank(split(line, ','));
    if st.section == "NODE"@ {
        if fields.len() < 4 {
            InpStep::Going(st)
        } else {
            match integer64(fields[0]) {
                None => InpStep::BadNode(line),
                Some(id) => InpStep::Going(
                    InpScan {
                        nodes: st.nodes.push(fields.subrange(1, 4)),
                        index: st.index.insert(id, st.nodes.len() as usize),
                        ..st
                    },
                ),
            }
        }
    } else if st.section == "ELEMENT"@ {
        if fields.len() == 0 {
            InpStep::Stuck
        } else {
            match all_nodes(st.index, fields.drop_first()) {
                None => InpStep::UnknownNode(line),
                Some(ids) => InpStep::Going(after_element(st, ids)),
            }
        }
    } else if st.section == "NSET"@ {
        InpStep::Going(
            InpScan {
                node_sets: st.node_sets.insert(
                    st.set_name,
                    set_or_empty(st.node_sets, st.set_name) + known_nodes(st.index, fields),
                ),
                ..st
            },
        )
    } else {
        InpStep::Going(st)
    }
}

/// What a line does: blank lines and comments (`**`) nothing, a line that
/// starts with a star opens a section, any other is data of it.
pub open spec fn after_line(st: InpScan, raw: Seq<char>) -> InpStep {
    let line = trim(raw);
    if line.len() == 0 || (line.len() >= 2 && line[0] == '*' && line[1] == '*') {
        InpStep::Going(st)
    } else if line[0] == '*' {
        InpStep::Going(after_header(st, line.drop_first()))
    } else {
        after_data(st, line)
    }
}

/// Where reading stands after the first `k` lines.
pub open spec fn after_lines(lines: Seq<Seq<char>>, k: int) -> InpStep
    decreases k,
{
    if k <= 0 {
        InpStep::Going(start())
    } else {
        match after_lines(lines, k - 1) {
            InpStep::Going(st) => after_line(st, lines[k - 1]),
            stopped => stopped,
        }
    }
}

/// Where reading a text ends.
pub open spec fn outcome(text: Seq<char>) -> InpStep {
    let lines = split(text, '\n');
    after_lines(lines, lines.len() as int)
}

/// Once reading has stopped, further lines change nothing.
proof fn lemma_stopped(lines: Seq<Seq<char>>, k: int, n: int)
    requires
        0 <= k <= n,
        !(after_lines(lines, k) is Going),
    ensures
        after_lines(lines, n) == after_lines(lines, k),
    decreases n,
{
    if k < n {
        lemma_stopped(lines, k, n - 1);
    }
}

/// Node sets once each of the first `p` parts that has no node set of its name
/// was given one of its nodes.
pub open spec fn with_part_sets<P>(
    sets: Map<Seq<char>, Seq<usize>>,
    mesh: Mesh<P>,
    p: int,
) -> Map<Seq<char>, Seq<usize>>
    decreases p,
{
    if p <= 0 {
        sets
    } else {
        let before = with_part_sets(sets, mesh, p - 1);
        let name = mesh.parts[p - 1].name@;
        if before.dom().contains(name) {
            before
        } else {
            before.insert(name, mesh.node_list((p - 1) as usize))
        }
    }
}

/// Whether a mesh holds what was read of a file, sets of nodes aside.
pub open spec fn holds_scan(mesh: Mesh<[String; 3]>, st: InpScan) -> bool {
    &&& mesh.nodes@.len() == st.nodes.len()
    &&& forall|i: int|
        0 <= i < mesh.nodes@.len() ==> coordinates(#[trigger] mesh.nodes@[i]) == st.nodes[i]
    &&& mesh.hexes@.len() == st.hexes.len()
    &&& forall|i: int| 0 <= i < mesh.hexes@.len() ==> (#[trigger] mesh.hexes@[i])@ == st.hexes[i]
    &&& mesh.hex_part@ == st.hex_part
    &&& mesh.parts@.len() == st.parts.len()
    &&& forall|i: int|
        0 <= i < mesh.parts@.len() ==> (#[trigger] mesh.parts@[i]).name@ == st.parts[i]
    &&& mesh.faces@.len() == st.faces.len()
    &&& forall|i: int| 0 <= i < mesh.faces@.len() ==> (#[trigger] mesh.faces@[i])@ == st.faces[i]
    &&& mesh.face_sets@ == st.face_sets
}

/// The coordinate texts of a node.
pub open spec fn coordinates(node: [String; 3]) -> Seq<Seq<char>> {
    seq![node@[0]@, node@[1]@, node@[2]@]
}

struct Reader {
    mesh: Mesh<[String; 3]>,
    index: HashMap<i64, usize>,
    section: String,
    kind: String,
    set_name: String,
}

enum LineEnd {
    Read,
    BadNode,
    UnknownNode,
    Stuck,
}

impl Reader {
    spec fn reads(self, st: InpScan) -> bool {
        &&& holds_scan(self.mesh, st)
        &&& self.mesh.node_sets@ == st.node_sets
        &&& self.index@ == st.index
        &&& self.section@ == st.section
        &&& self.kind@ == st.kind
        &&& self.set_name@ == st.set_name
    }

    spec fn wf(self) -> bool {
        &&& self.mesh.wf()
        &&& forall|id: i64|
            self.index@.dom().contains(id) ==> #[trigger] self.index@[id] < self.mesh.nodes.len()
    }

    fn resolve(&self, field: &Vec<char>) -> (r: Option<usize>)
        requires
            self.wf(),
        ensures
            r == node_of(self.index@, field@),
            r matches Some(n) ==> n < self.mesh.nodes.len(),
    {
        broadcast use vstd::std_specs::hash::group_hash_axioms;

        match parse_integer(field) {
            None => None,
            Some(id) => match self.index.get(&id) {
                None => None,
                Some(n) => Some(*n),
            },
        }
    }

    fn resolve_all(&self, fields: &Vec<Vec<char>>) -> (r: Option<Vec<usize>>)
        requires
            self.wf(),
            fields@.len() > 0,
        ensures
            match r {
                Some(v) => all_nodes(self.index@, texts(fields@).drop_first()) == Some(v@)
                    && forall|i: int| 0 <= i < v@.len() ==> #[trigger] v@[i]
                    < self.mesh.nodes.len(),
                None => all_nodes(self.index@, texts(fields@).drop_first()) is None,
            },
    {
        let ghost all = texts(fields@).drop_first();
        let mut v: Vec<usize> = Vec::new();
        let mut i: usize = 1;
        let mut known: bool = true;
        assert(all.take(0) =~= Seq::<Seq<char>>::empty());
        while i < fields.len()
            invariant
                self.wf(),
                1 <= i <= fields@.len(),
                all == texts(fields@).drop_first(),
                known ==> all_nodes(self.index@, all.take(i - 1)) == Some(v@),
                !known ==> all_nodes(self.index@, all.take(i - 1)) is None,
                forall|k: int| 0 <= k < v@.len() ==> #[trigger] v@[k] < self.mesh.nodes.len(),
            decreases fields.len() - i,
        {
            assert(all.take(i as int).drop_last() =~= all.take(i - 1));
            assert(all.take(i as int).last() == fields@[i as int]@);
            match self.resolve(&fields[i]) {
                Some(n) => {
                    v.push(n);
                },
                None => {
                    known = false;
                },
            }
            i += 1;
        }
        assert(all.take(i - 1) =~= all);
        if known {
            Some(v)
        } else {
            None
        }
    }

    fn read_node(&mut self, fields: &Vec<Vec<char>>, id: i64, Ghost(st): Ghost<InpScan>)
        requires
            old(self).wf(),
            old(self).reads(st),
            fields@.len() >= 4,
        ensures
            final(self).wf(),
            final(self).reads(
                (InpScan {
                    nodes: st.nodes.push(texts(fields@).subrange(1, 4)),
                    index: st.index.insert(id, st.nodes.len() as usize),
                    ..st
                }),
            ),
    {
        broadcast use vstd::std_specs::hash::group_hash_axioms;

        let at: usize = self.mesh.nodes.len();
        self.index.insert(id, at);
        let node: [String; 3] = [
            string_of(&fields[1]),
            string_of(&fields[2]),
            string_of(&fields[3]),
        ];
        assert(coordinates(node) =~= texts(fields@).subrange(1, 4));
        let ghost was = self.mesh.nodes@;
        self.mesh.nodes.push(node);
        proof {
            assert forall|i: int| 0 <= i < self.mesh.nodes@.len() implies coordinates(
                #[trigger] self.mesh.nodes@[i],
            ) == st.nodes.push(texts(fields@).subrange(1, 4))[i] by {
                if i < was.len() {
                    assert(self.mesh.nodes@[i] == was[i]);
                    assert(coordinates(was[i]) == st.nodes[i]);
                }
            }
            assert forall|e: int, c: int|
                0 <= e < self.mesh.hexes.len() && 0 <= c
                    < 8 implies #[trigger] self.mesh.hexes[e]@[c] < self.mesh.nodes.len() by {
                assert(old(self).mesh.hexes[e]@[c] < was.len());
            }
            assert forall|f: int, q: int|
                0 <= f < self.mesh.faces.len() && 0 <= q
                    < 4 implies #[trigger] self.mesh.faces[f]@[q] < self.mesh.nodes.len() by {
                assert(old(self).mesh.faces[f]@[q] < was.len());
            }
            assert forall|name: Seq<char>, i: int|
                self.mesh.node_sets@.dom().contains(name) && 0 <= i
                    < self.mesh.node_sets@[name].len() implies #[trigger] self.mesh.node_sets@[name][i]
                < self.mesh.nodes.len() by {
                assert(old(self).mesh.node_sets@[name][i] < was.len());
            }
        }
    }

    fn read_hex(&mut self, ids: &Vec<usize>, Ghost(st): Ghost<InpScan>)
        requires
            old(self).wf(),
            old(self).reads(st),
            ids@.len() == 8,
            st.kind == "C3D8"@,
            forall|i: int| 0 <= i < ids@.len() ==> #[trigger] ids@[i] < old(
                self,
            ).mesh.nodes.len(),
        ensures
            final(self).wf(),
            final(self).reads(after_element(st, ids@)),
    {
        let ghost target = after_element(st, ids@);
        let ghost place = part_place(st.parts, st.set_name);
        let part: usize = match self.mesh.part_index(&self.set_name) {
            Some(p) => {
                proof {
                    assert(self.mesh.parts@[p as int].name@ == st.parts[p as int]);
                    assert forall|i: int| 0 <= i < p implies #[trigger] st.parts[i]
                        != st.set_name by {
                        assert(self.mesh.parts[i].name@ != st.set_name);
                    }
                    assert(is_first_named(st.parts, st.set_name, p as int));
                    let q = place;
                    assert(is_first_named(st.parts, st.set_name, q));
                    assert(q == p) by {
                        if q < p {
                            assert(st.parts[q] != st.set_name);
                        } else if p < q {
                            assert(st.parts[p as int] != st.set_name);
                        }
                    }
                }
                p
            },
            None => {
                proof {
                    if exists|q: int| is_first_named(st.parts, st.set_name, q) {
                        let q = choose|q: int| is_first_named(st.parts, st.set_name, q);
                        assert(self.mesh.parts[q].name@ == st.set_name);
                    }
                }
                let ghost was = self.mesh.parts@;
                let name: String = self.set_name.clone();
                self.mesh.parts.push(Part { name });
                assert forall|i: int| 0 <= i < self.mesh.parts@.len() implies (
                #[trigger] self.mesh.parts@[i]).name@ == target.parts[i] by {
                    if i < was.len() {
                        assert(self.mesh.parts@[i] == was[i]);
                        assert(was[i].name@ == st.parts[i]);
                    }
                }
                self.mesh.parts.len() - 1
            },
        };
        let ghost mid = self.mesh;
        let hex: [usize; 8] = [ids[0], ids[1], ids[2], ids[3], ids[4], ids[5], ids[6], ids[7]];
        assert(hex@ =~= ids@);
        self.mesh.hexes.push(hex);
        self.mesh.hex_part.push(part);
        proof {
            let was = old(self).mesh;
            assert forall|i: int| 0 <= i < self.mesh.hexes@.len() implies (
            #[trigger] self.mesh.hexes@[i])@ == target.hexes[i] by {
                if i < was.hexes@.len() {
                    assert(self.mesh.hexes@[i] == was.hexes@[i]);
                }
            }
            assert forall|i: int| 0 <= i < self.mesh.parts@.len() implies (
            #[trigger] self.mesh.parts@[i]).name@ == target.parts[i] by {
                assert(self.mesh.parts@[i] == mid.parts@[i]);
            }
            assert forall|e: int, c: int|
                0 <= e < self.mesh.hexes.len() && 0 <= c
                    < 8 implies #[trigger] self.mesh.hexes[e]@[c] < self.mesh.nodes.len() by {
                if e < was.hexes.len() {
                    assert(self.mesh.hexes[e] == was.hexes[e]);
                    assert(was.hexes[e]@[c] < was.nodes.len());
                } else {
                    assert(hex@[c] == ids@[c]);
                }
            }
            assert forall|e: int|
                0 <= e < self.mesh.hex_part.len() implies #[trigger] self.mesh.hex_part[e]
                < self.mesh.parts.len() by {
                if e < was.hex_part.len() {
                    assert(was.hex_part[e] < was.parts.len());
                }
            }
        }
    }

    fn read_quad(&mut self, ids: &Vec<usize>, Ghost(st): Ghost<InpScan>)
        requires
            old(self).wf(),
            old(self).reads(st),
            ids@.len() == 4,
            st.kind == "CPS4"@,
            st.kind != "C3D8"@,
            forall|i: int| 0 <= i < ids@.len() ==> #[trigger] ids@[i] < old(
                self,
            ).mesh.nodes.len(),
        ensures
            final(self).wf(),
            final(self).reads(after_element(st, ids@)),
    {
        let quad: [usize; 4] = [ids[0], ids[1], ids[2], ids[3]];
        assert(quad@ =~= ids@);
        self.mesh.faces.push(quad);
        let at: usize = self.mesh.faces.len() - 1;
        self.mesh.face_sets.push(&self.set_name, at);
        proof {
            let was = old(self).mesh;
            let target = after_element(st, ids@);
            assert(self.mesh.face_sets@ =~= target.face_sets);
            assert forall|i: int| 0 <= i < self.mesh.faces@.len() implies (
            #[trigger] self.mesh.faces@[i])@ == target.faces[i] by {
                if i < was.faces@.len() {
                    assert(self.mesh.faces@[i] == was.faces@[i]);
                }
            }
            assert forall|f: int, q: int|
                0 <= f < self.mesh.faces.len() && 0 <= q
                    < 4 implies #[trigger] self.mesh.faces[f]@[q] < self.mesh.nodes.len() by {
                if f < was.faces.len() {
                    assert(self.mesh.faces[f] == was.faces[f]);
                    assert(was.faces[f]@[q] < was.nodes.len());
                } else {
                    assert(quad@[q] == ids@[q]);
                }
            }
            assert forall|name: Seq<char>, i: int|
                self.mesh.face_sets@.dom().contains(name) && 0 <= i
                    < self.mesh.face_sets@[name].len() implies #[trigger] self.mesh.face_sets@[name][i]
                < self.mesh.faces.len() by {
                if name != st.set_name {
                    assert(was.face_sets@.dom().contains(name));
                    assert(was.face_sets@[name][i] < was.faces.len());
                } else if i < set_or_empty(st.face_sets, st.set_name).len() {
                    assert(was.face_sets@[name][i] < was.faces.len());
                }
            }
        }
    }

    fn read_set(&mut self, fields: &Vec<Vec<char>>, Ghost(st): Ghost<InpScan>)
        requires
            old(self).wf(),
            old(self).reads(st),
        ensures
            final(self).wf(),
            final(self).reads(
                (InpScan {
                    node_sets: st.node_sets.insert(
                        st.set_name,
                        set_or_empty(st.node_sets, st.set_name) + known_nodes(
                            st.index,
                            texts(fields@),
                        ),
                    ),
                    ..st
                }),
            ),
    {
        let ghost base = set_or_empty(st.node_sets, st.set_name);
        let ghost all = texts(fields@);
        self.mesh.node_sets.insert_if_absent(&self.set_name, Vec::new());
        let mut i: usize = 0;
        proof {
            assert(all.take(0) =~= Seq::<Seq<char>>::empty());
            assert(base + known_nodes(st.index, all.take(0)) =~= base);
            assert(self.mesh.node_sets@ =~= st.node_sets.insert(
                st.set_name,
                base + known_nodes(st.index, all.take(0)),
            ));
            let was = old(self).mesh;
            assert forall|name: Seq<char>, k: int|
                self.mesh.node_sets@.dom().contains(name) && 0 <= k
                    < self.mesh.node_sets@[name].len() implies #[trigger] self.mesh.node_sets@[name][k]
                < self.mesh.nodes.len() by {
                assert(was.node_sets@.dom().contains(name));
                assert(was.node_sets@[name][k] < was.nodes.len());
            }
        }
        while i < fields.len()
            invariant
                i <= fields@.len(),
                self.wf(),
                all == texts(fields@),
                base == set_or_empty(st.node_sets, st.set_name),
                self.reads(
                    (InpScan {
                        node_sets: st.node_sets.insert(
                            st.set_name,
                            base + known_nodes(st.index, all.take(i as int)),
                        ),
                        ..st
                    }),
                ),
            decreases fields.len() - i,
        {
            let ghost before = known_nodes(st.index, all.take(i as int));
            let ghost was = self.mesh;
            assert(all.take(i + 1).drop_last() =~= all.take(i as int));
            assert(all.take(i + 1).last() == fields@[i as int]@);
            match self.resolve(&fields[i]) {
                Some(n) => {
                    self.mesh.node_sets.push(&self.set_name, n);
                    proof {
                        let after = known_nodes(st.index, all.take(i + 1));
                        assert((base + before).push(n) =~= base + after);
                        assert(self.mesh.node_sets@ =~= st.node_sets.insert(
                            st.set_name,
                            base + after,
                        ));
                        assert forall|name: Seq<char>, k: int|
                            self.mesh.node_sets@.dom().contains(name) && 0 <= k
                                < self.mesh.node_sets@[name].len() implies #[trigger] self.mesh.node_sets@[name][k]
                            < self.mesh.nodes.len() by {
                            if name != st.set_name {
                                assert(was.node_sets@.dom().contains(name));
                                assert(was.node_sets@[name][k] < was.nodes.len());
                            } else if k < (base + before).len() {
                                assert(was.node_sets@.dom().contains(name));
                                assert(was.node_sets@[name][k] < was.nodes.len());
                            }
                        }
                    }
                },
                None => {},
            }
            i += 1;
        }
        assert(all.take(i as int) =~= all);
    }

    fn read_header(&mut self, rest: &Vec<char>, Ghost(st): Ghost<InpScan>)
        requires
            old(self).wf(),
            old(self).reads(st),
        ensures
            final(self).wf(),
            final(self).reads(after_header(st, rest@)),
    {
        let p: Vec<Vec<char>> = pieces(rest, ',');
        let ghost all = split(rest@, ',');
        proof {
            lemma_split_is_never_empty(rest@, ',');
            assert(texts(p@).len() == p@.len());
            assert(all[0] == p@[0]@);
        }
        self.section = upper_of(&string_of(&trimmed(&p[0])));
        let mut elset: Option<String> = None;
        let mut nset: Option<String> = None;
        let mut kind: Option<String> = None;
        let mut i: usize = 1;
        while i < p.len()
            invariant
                1 <= i <= p@.len(),
                all == texts(p@),
                opt_text(elset) == param(all, "ELSET"@, i as int),
                opt_text(nset) == param(all, "NSET"@, i as int),
                opt_text(kind) == param(all, "TYPE"@, i as int),
            decreases p.len() - i,
        {
            assert(all[i as int] == p@[i as int]@);
            let t: Vec<char> = trimmed(&p[i]);
            let at: usize = position_of(&t, '=');
            if at < t.len() {
                let key: String = upper_of(&string_of(&trimmed(&slice_of(&t, 0, at))));
                let value: String = string_of(&trimmed(&slice_of(&t, at + 1, t.len())));
                if same_text(&key, "ELSET") {
                    elset = Some(value.clone());
                }
                if same_text(&key, "NSET") {
                    nset = Some(value.clone());
                }
                if same_text(&key, "TYPE") {
                    kind = Some(value);
                }
            }
            i += 1;
        }
        self.kind = match kind {
            Some(v) => upper_of(&v),
            None => String::new(),
        };
        self.set_name = match elset {
            Some(v) => v,
            None => match nset {
                Some(v) => v,
                None => String::new(),
            },
        };
    }

    fn read_data(&mut self, line: &Vec<char>, Ghost(st): Ghost<InpScan>) -> (r: LineEnd)
        requires
            old(self).wf(),
            old(self).reads(st),
        ensures
            final(self).wf(),
            match after_data(st, line@) {
                InpStep::Going(next) => r is Read && final(self).reads(next),
                InpStep::BadNode(text) => r is BadNode && text == line@,
                InpStep::UnknownNode(text) => r is UnknownNode && text == line@,
                InpStep::Stuck => r is Stuck,
            },
    {
        let fields: Vec<Vec<char>> = non_blank_pieces(&pieces(line, ','));
        let ghost all = non_blank(split(line@, ','));
        assert(texts(fields@).len() == fields@.len());
        if same_text(&self.section, "NODE") {
            if fields.len() < 4 {
                return LineEnd::Read;
            }
            assert(all[0] == fields@[0]@);
            match parse_integer(&fields[0]) {
                None => LineEnd::BadNode,
                Some(id) => {
                    self.read_node(&fields, id, Ghost(st));
                    LineEnd::Read
                },
            }
        } else if same_text(&self.section, "ELEMENT") {
            if fields.len() == 0 {
                return LineEnd::Stuck;
            }
            match self.resolve_all(&fields) {
                None => LineEnd::UnknownNode,
                Some(ids) => {
                    let hex: bool = same_text(&self.kind, "C3D8");
                    if hex && ids.len() == 8 {
                        self.read_hex(&ids, Ghost(st));
                    } else if same_text(&self.kind, "CPS4") && ids.len() == 4 {
                        proof {
                            reveal_strlit("C3D8");
                            reveal_strlit("CPS4");
                            assert("C3D8"@[1] != "CPS4"@[1]);
                        }
                        self.read_quad(&ids, Ghost(st));
                    }
                    LineEnd::Read
                },
            }
        } else if same_text(&self.section, "NSET") {
            self.read_set(&fields, Ghost(st));
            LineEnd::Read
        } else {
            LineEnd::Read
        }
    }
}

spec fn opt_text(s: Option<String>) -> Option<Seq<char>> {
    match s {
        Some(v) => Some(v@),
        None => None,
    }
}

/// How reading a text ended.
enum TextEnd {
    Read(Reader),
    Refused(InpError),
    Stuck,
}

fn read_text(text: &str) -> (r: TextEnd)
    ensures
        match outcome(text@) {
            InpStep::Going(st) => r matches TextEnd::Read(reader) && reader.wf() && reader.reads(
                st,
            ),
            InpStep::BadNode(line) => r matches TextEnd::Refused(InpError::BadNode(l)) && l@
                == line,
            InpStep::UnknownNode(line) => r matches TextEnd::Refused(InpError::UnknownNode(l))
                && l@ == line,
            InpStep::Stuck => r is Stuck,
        },
{
    let lines: Vec<Vec<char>> = pieces(&chars_of(text), '\n');
    let ghost all = split(text@, '\n');
    let mut reader: Reader = Reader {
        mesh: Mesh::new(),
        index: HashMap::new(),
        section: String::new(),
        kind: String::new(),
        set_name: String::new(),
    };
    let ghost mut st = start();
    let mut i: usize = 0;
    while i < lines.len()
        invariant
            i <= lines@.len(),
            all == texts(lines@),
            all == split(text@, '\n'),
            reader.wf(),
            reader.reads(st),
            after_lines(all, i as int) == InpStep::Going(st),
        decreases lines.len() - i,
    {
        assert(all[i as int] == lines@[i as int]@);
        let line: Vec<char> = trimmed(&lines[i]);
        if line.len() == 0 || (line.len() >= 2 && line[0] == '*' && line[1] == '*') {
            assert(after_lines(all, i + 1) == InpStep::Going(st));
        } else if line[0] == '*' {
            let rest: Vec<char> = slice_of(&line, 1, line.len());
            assert(rest@ =~= line@.drop_first());
            reader.read_header(&rest, Ghost(st));
            proof {
                st = after_header(st, line@.drop_first());
            }
        } else {
            let end: LineEnd = reader.read_data(&line, Ghost(st));
            assert(after_lines(all, i + 1) == after_data(st, line@));
            match end {
                LineEnd::Read => {
                    proof {
                        st = after_data(st, line@)->Going_0;
                    }
                },
                LineEnd::BadNode => {
                    proof {
                        lemma_stopped(all, i + 1, all.len() as int);
                    }
                    return TextEnd::Refused(InpError::BadNode(string_of(&line)));
                },
                LineEnd::UnknownNode => {
                    proof {
                        lemma_stopped(all, i + 1, all.len() as int);
                    }
                    return TextEnd::Refused(InpError::UnknownNode(string_of(&line)));
                },
                LineEnd::Stuck => {
                    proof {
                        lemma_stopped(all, i + 1, all.len() as int);
                    }
                    return TextEnd::Stuck;
                },
            }
        }
        i += 1;
    }
    TextEnd::Read(reader)
}


/// Gives each part that has no node set of its name one of its nodes.
fn add_part_sets<P>(mesh: &mut Mesh<P>)
    requires
        old(mesh).wf(),
    ensures
        final(mesh).wf(),
        final(mesh).nodes == old(mesh).nodes,
        final(mesh).hexes == old(mesh).hexes,
        final(mesh).hex_part == old(mesh).hex_part,
        final(mesh).parts == old(mesh).parts,
        final(mesh).faces == old(mesh).faces,
        final(mesh).face_sets == old(mesh).face_sets,
        final(mesh).node_sets@ == with_part_sets(
            old(mesh).node_sets@,
            *old(mesh),
            old(mesh).parts.len() as int,
        ),
{
    let ghost was = *mesh;
    let mut p: usize = 0;
    while p < mesh.parts.len()
        invariant
            p <= mesh.parts.len(),
            was == *old(mesh),
            mesh.wf(),
            mesh.nodes == was.nodes,
            mesh.hexes == was.hexes,
            mesh.hex_part == was.hex_part,
            mesh.parts == was.parts,
            mesh.faces == was.faces,
            mesh.face_sets == was.face_sets,
            mesh.node_sets@ == with_part_sets(was.node_sets@, was, p as int),
        decreases mesh.parts.len() - p,
    {
        let ghost before = *mesh;
        let nodes: Vec<usize> = mesh.part_nodes(p);
        proof {
            mesh.lemma_part_nodes_exist(nodes@, p);
        }
        let ghost listed = nodes@;
        mesh.node_sets.insert_if_absent(&mesh.parts[p].name, nodes);
        proof {
            assert forall|name: Seq<char>, i: int|
                mesh.node_sets@.dom().contains(name) && 0 <= i
                    < mesh.node_sets@[name].len() implies #[trigger] mesh.node_sets@[name][i]
                < mesh.nodes.len() by {
                if before.node_sets@.dom().contains(name) {
                    assert(mesh.node_sets@[name] == before.node_sets@[name]);
                    assert(before.node_sets@[name][i] < before.nodes.len());
                } else {
                    assert(mesh.node_sets@[name] == listed);
                }
            }
        }
        p += 1;
    }
}

/// Reads a mesh from the text of a file.
///
/// Every part ends up with a node set of its name: the one the file gives, or
/// else its nodes.
pub fn read_inp(text: &str) -> (r: Result<Mesh<[String; 3]>, InpError>)
    requires
        !(outcome(text@) is Stuck),
    ensures
        match r {
            Ok(mesh) => outcome(text@) matches InpStep::Going(st) && mesh.wf() && holds_scan(
                mesh,
                st,
            ) && mesh.node_sets@ == with_part_sets(
                st.node_sets,
                mesh,
                mesh.parts.len() as int,
            ),
            Err(InpError::BadNode(line)) => outcome(text@) == InpStep::BadNode(line@),
            Err(InpError::UnknownNode(line)) => outcome(text@) == InpStep::UnknownNode(line@),
        },
{
    match read_text(text) {
        TextEnd::Read(reader) => {
            let mut mesh: Mesh<[String; 3]> = reader.mesh;
            let ghost was = mesh;
            add_part_sets(&mut mesh);
            proof {
                lemma_same_part_sets(was.node_sets@, was, mesh, mesh.parts.len() as int);
            }
            Ok(mesh)
        },
        TextEnd::Refused(e) => Err(e),
        TextEnd::Stuck => Ok(Mesh::new()),
    }
}

/// The sets given to parts depend on the elements and parts of a mesh alone.
proof fn lemma_same_part_sets<P>(
    sets: Map<Seq<char>, Seq<usize>>,
    a: Mesh<P>,
    b: Mesh<P>,
    p: int,
)
    requires
        0 <= p <= a.parts.len(),
        p <= usize::MAX,
        a.hexes == b.hexes,
        a.hex_part == b.hex_part,
        a.parts == b.parts,
        a.hexes.len() <= a.hex_part.len(),
    ensures
        with_part_sets(sets, a, p) == with_part_sets(sets, b, p),
    decreases p,
{
    if p > 0 {
        lemma_same_part_sets(sets, a, b, p - 1);
    }
}

/// Reads a mesh from the text of a file, if it can be read to its end: nothing
/// when an element line holds no field.
pub fn try_read_inp(text: &str) -> (r: Option<Result<Mesh<[String; 3]>, InpError>>)
    ensures
        r is None <==> outcome(text@) is Stuck,
        r matches Some(Ok(mesh)) ==> outcome(text@) matches InpStep::Going(st) && mesh.wf()
            && holds_scan(mesh, st) && mesh.node_sets@ == with_part_sets(
            st.node_sets,
            mesh,
            mesh.parts.len() as int,
        ),
        r matches Some(Err(InpError::BadNode(line))) ==> outcome(text@) == InpStep::BadNode(line@),
        r matches Some(Err(InpError::UnknownNode(line))) ==> outcome(text@)
            == InpStep::UnknownNode(line@),
{
    match read_text(text) {
        TextEnd::Stuck => None,
        _ => Some(read_inp(text)),
    }
}

/// Reading a mesh file leaves every part with a node set of its name.
pub proof fn law_every_part_has_a_set<P>(
    sets: Map<Seq<char>, Seq<usize>>,
    mesh: Mesh<P>,
    p: int,
    k: int,
)
    requires
        0 <= k < p <= mesh.parts.len(),
    ensures
        with_part_sets(sets, mesh, p).dom().contains(mesh.parts[k].name@),
    decreases p,
{
    if k < p - 1 {
        law_every_part_has_a_set(sets, mesh, p - 1, k);
    }
}

/// A node set that the file gives is kept as given.
pub proof fn law_given_sets_are_kept<P>(
    sets: Map<Seq<char>, Seq<usize>>,
    mesh: Mesh<P>,
    p: int,
    name: Seq<char>,
)
    requires
        0 <= p <= mesh.parts.len(),
        sets.dom().contains(name),
    ensures
        with_part_sets(sets, mesh, p).dom().contains(name),
        with_part_sets(sets, mesh, p)[name] == sets[name],
    decreases p,
{
    if p > 0 {
        law_given_sets_are_kept(sets, mesh, p - 1, name);
    }
}

/// What was read stays as it is when comments and blank lines follow: they
/// change nothing.
pub proof fn law_comments_change_nothing(st: InpScan, raw: Seq<char>)
    requires
        trim(raw).len() == 0 || (trim(raw).len() >= 2 && trim(raw)[0] == '*' && trim(raw)[1]
            == '*'),
    ensures
        after_line(st, raw) == InpStep::Going(st),
{
}

// ---- what a file says, line by line ----

/// Whether a line opens a section: it starts with one star.
pub open spec fn opens(raw: Seq<char>) -> bool {
    let line = trim(raw);
    line.len() > 0 && line[0] == '*' && !(line.len() > 1 && line[1] == '*')
}

/// Whether a line holds data: it is not blank and starts with no star.
pub open spec fn holds_data(raw: Seq<char>) -> bool {
    trim(raw).len() > 0 && trim(raw)[0] != '*'
}

/// The fields of a data line.
pub open spec fn fields_of(raw: Seq<char>) -> Seq<Seq<char>> {
    non_blank(split(trim(raw), ','))
}

/// The last line before `k` that opens a section; before all of them if none does.
pub open spec fn opening_before(lines: Seq<Seq<char>>, k: int) -> int
    decreases k,
{
    if k <= 0 {
        -1
    } else if opens(lines[k - 1]) {
        k - 1
    } else {
        opening_before(lines, k - 1)
    }
}

/// The pieces of a line that opens a section: its name, then its parameters.
pub open spec fn opening_pieces(raw: Seq<char>) -> Seq<Seq<char>> {
    split(trim(raw).drop_first(), ',')
}

/// Whether a parameter gives a key: what stands before its first equals sign is
/// the key, in whatever case.
pub open spec fn has_key(piece: Seq<char>, key: Seq<char>, at: int) -> bool {
    let p = trim(piece);
    &&& 0 <= at < p.len() && p[at] == '='
    &&& forall|i: int| 0 <= i < at ==> #[trigger] p[i] != '='
    &&& upper(trim(p.subrange(0, at))) == key
}

/// What a parameter gives its key: what stands behind the equals sign.
pub open spec fn value_at(piece: Seq<char>, at: int) -> Seq<char> {
    trim(trim(piece).subrange(at + 1, trim(piece).len() as int))
}

/// Whether parameter `i` is the last of the pieces before `k` that gives a key.
pub open spec fn is_last_given(
    pieces: Seq<Seq<char>>,
    key: Seq<char>,
    k: int,
    i: int,
    at: int,
) -> bool {
    &&& 1 <= i < k
    &&& has_key(pieces[i], key, at)
    &&& forall|j: int, b: int| i < j < k ==> !#[trigger] has_key(pieces[j], key, b)
}

/// What an opening line gives a key.
pub open spec fn value_of(pieces: Seq<Seq<char>>, key: Seq<char>) -> Option<Seq<char>> {
    if exists|i: int, at: int| is_last_given(pieces, key, pieces.len() as int, i, at) {
        let (i, at) = choose|i: int, at: int|
            is_last_given(pieces, key, pieces.len() as int, i, at);
        Some(value_at(pieces[i], at))
    } else {
        None
    }
}

/// The section that line `k` belongs to.
pub open spec fn section_in_force(lines: Seq<Seq<char>>, k: int) -> Seq<char> {
    let h = opening_before(lines, k);
    if h < 0 {
        Seq::empty()
    } else {
        upper(trim(opening_pieces(lines[h])[0]))
    }
}

/// The element type of the section that line `k` belongs to.
pub open spec fn type_in_force(lines: Seq<Seq<char>>, k: int) -> Seq<char> {
    let h = opening_before(lines, k);
    if h < 0 {
        Seq::empty()
    } else {
        match value_of(opening_pieces(lines[h]), "TYPE"@) {
            Some(v) => upper(v),
            None => Seq::empty(),
        }
    }
}

/// The set that the section of line `k` names: its ELSET, else its NSET.
pub open spec fn set_in_force(lines: Seq<Seq<char>>, k: int) -> Seq<char> {
    let h = opening_before(lines, k);
    if h < 0 {
        Seq::empty()
    } else {
        match value_of(opening_pieces(lines[h]), "ELSET"@) {
            Some(v) => v,
            None => match value_of(opening_pieces(lines[h]), "NSET"@) {
                Some(v) => v,
                None => Seq::empty(),
            },
        }
    }
}

/// The lines that define a node.
pub open spec fn node_lines(lines: Seq<Seq<char>>) -> spec_fn(int) -> bool {
    |l: int|
        holds_data(lines[l]) && section_in_force(lines, l) == "NODE"@ && fields_of(lines[l]).len()
            >= 4
}

/// The lines that hold a hexahedron: its number and eight nodes.
pub open spec fn hex_lines(lines: Seq<Seq<char>>) -> spec_fn(int) -> bool {
    |l: int|
        holds_data(lines[l]) && section_in_force(lines, l) == "ELEMENT"@ && type_in_force(lines, l)
            == "C3D8"@ && fields_of(lines[l]).len() == 9
}

/// The lines that hold a contact face: its number and four nodes.
pub open spec fn face_lines(lines: Seq<Seq<char>>) -> spec_fn(int) -> bool {
    |l: int|
        holds_data(lines[l]) && section_in_force(lines, l) == "ELEMENT"@ && type_in_force(lines, l)
            == "CPS4"@ && fields_of(lines[l]).len() == 5
}

/// The lines that list nodes of a set.
pub open spec fn set_lines(lines: Seq<Seq<char>>, name: Seq<char>) -> spec_fn(int) -> bool {
    |l: int|
        holds_data(lines[l]) && section_in_force(lines, l) == "NSET"@ && set_in_force(lines, l)
            == name
}

/// Whether line `m` is the last before `k` that defines the node of a number.
pub open spec fn defines(lines: Seq<Seq<char>>, k: int, id: i64, m: int) -> bool {
    &&& 0 <= m < k
    &&& node_lines(lines)(m)
    &&& integer64(fields_of(lines[m])[0]) == Some(id)
    &&& forall|i: int|
        m < i < k && #[trigger] node_lines(lines)(i) ==> integer64(fields_of(lines[i])[0]) != Some(
            id,
        )
}

/// Whether a field of line `k` names the node at a place: it is the number of a
/// node line before `k`, and the place is that of the last such line among the
/// node lines.
pub open spec fn names_node(lines: Seq<Seq<char>>, k: int, field: Seq<char>, n: usize) -> bool {
    match integer64(field) {
        Some(id) => exists|m: int| #[trigger]
            defines(lines, k, id, m) && n == places_where(m, node_lines(lines)).len(),
        None => false,
    }
}

proof fn lemma_section_names()
    ensures
        "NODE"@ != "ELEMENT"@,
        "NODE"@ != "NSET"@,
        "ELEMENT"@ != "NSET"@,
        "C3D8"@ != "CPS4"@,
        "NODE"@.len() > 0,
        "ELEMENT"@.len() > 0,
        "NSET"@.len() > 0,
{
    reveal_strlit("NODE");
    reveal_strlit("ELEMENT");
    reveal_strlit("NSET");
    reveal_strlit("C3D8");
    reveal_strlit("CPS4");
    assert("NODE"@[1] != "NSET"@[1]);
    assert("C3D8"@[1] != "CPS4"@[1]);
}

/// Of the parameters of an opening line the last that gives a key counts.
pub proof fn law_last_parameter_counts(pieces: Seq<Seq<char>>, key: Seq<char>, k: int)
    requires
        0 <= k <= pieces.len(),
    ensures
        match param(pieces, key, k) {
            None => forall|i: int, at: int|
                1 <= i < k ==> !#[trigger] has_key(pieces[i], key, at),
            Some(v) => exists|i: int, at: int| #[trigger]
                is_last_given(pieces, key, k, i, at) && v == value_at(pieces[i], at),
        },
    decreases k,
{
    if k > 1 {
        law_last_parameter_counts(pieces, key, k - 1);
        let p = trim(pieces[k - 1]);
        let at = first_at(p, '=');
        crate::text::lemma_first_at_bounds(p, '=');
        if at < p.len() && upper(trim(p.subrange(0, at))) == key {
            assert(has_key(pieces[k - 1], key, at));
            assert(is_last_given(pieces, key, k, k - 1, at));
        } else {
            assert forall|b: int| !#[trigger] has_key(pieces[k - 1], key, b) by {
                if has_key(pieces[k - 1], key, b) {
                    if b < at {
                        assert(p[b] != '=');
                    } else if at < b {
                        assert(p[at] != '=');
                    }
                }
            }
            match param(pieces, key, k - 1) {
                None => {},
                Some(v) => {
                    let (i, a) = choose|i: int, a: int| #[trigger]
                        is_last_given(pieces, key, k - 1, i, a) && v == value_at(pieces[i], a);
                    assert(is_last_given(pieces, key, k, i, a));
                },
            }
        }
    }
}

proof fn lemma_param(pieces: Seq<Seq<char>>, key: Seq<char>)
    ensures
        param(pieces, key, pieces.len() as int) == value_of(pieces, key),
{
    let n = pieces.len() as int;
    law_last_parameter_counts(pieces, key, n);
    match param(pieces, key, n) {
        None => {
            if exists|i: int, at: int| is_last_given(pieces, key, n, i, at) {
                let (i, at) = choose|i: int, at: int| is_last_given(pieces, key, n, i, at);
                assert(has_key(pieces[i], key, at));
            }
        },
        Some(v) => {
            let (i, a) = choose|i: int, a: int| #[trigger]
                is_last_given(pieces, key, n, i, a) && v == value_at(pieces[i], a);
            let (j, b) = choose|j: int, b: int| is_last_given(pieces, key, n, j, b);
            assert(is_last_given(pieces, key, n, j, b));
            assert(has_key(pieces[i], key, a) && has_key(pieces[j], key, b));
            assert(i == j);
            let p = trim(pieces[i]);
            if a < b {
                assert(p[a] != '=');
            } else if b < a {
                assert(p[b] != '=');
            }
        },
    }
}

/// The section, the element type and the set that a line belongs to are those of
/// the last opening line before it, whatever data and comments stand between.
pub proof fn law_sections_stay_in_force(lines: Seq<Seq<char>>, k: int) -> (st: InpScan)
    requires
        0 <= k <= lines.len(),
        after_lines(lines, k) is Going,
    ensures
        after_lines(lines, k) == InpStep::Going(st),
        st.section == section_in_force(lines, k),
        st.kind == type_in_force(lines, k),
        st.set_name == set_in_force(lines, k),
    decreases k,
{
    let st = after_lines(lines, k)->Going_0;
    if k > 0 {
        assert(after_lines(lines, k - 1) is Going);
        let was = law_sections_stay_in_force(lines, k - 1);
        let line = trim(lines[k - 1]);
        if opens(lines[k - 1]) {
            let p = opening_pieces(lines[k - 1]);
            lemma_param(p, "TYPE"@);
            lemma_param(p, "ELSET"@);
            lemma_param(p, "NSET"@);
            assert(st == after_header(was, line.drop_first()));
        } else if holds_data(lines[k - 1]) {
            assert(after_data(was, line) == InpStep::Going(st));
            assert(st.section == was.section);
            assert(st.kind == was.kind);
            assert(st.set_name == was.set_name);
        } else {
            assert(st == was);
        }
    }
    st
}

/// One more line that was read: what it was, and what it was read into.
proof fn lemma_line(lines: Seq<Seq<char>>, k: int) -> (r: (InpScan, InpScan))
    requires
        0 < k <= lines.len(),
        after_lines(lines, k) is Going,
    ensures
        after_lines(lines, k - 1) == InpStep::Going(r.0),
        after_lines(lines, k) == InpStep::Going(r.1),
        r.0.section == section_in_force(lines, k - 1),
        r.0.kind == type_in_force(lines, k - 1),
        r.0.set_name == set_in_force(lines, k - 1),
        !holds_data(lines[k - 1]) ==> {
            &&& r.1.nodes == r.0.nodes
            &&& r.1.index == r.0.index
            &&& r.1.hexes == r.0.hexes
            &&& r.1.hex_part == r.0.hex_part
            &&& r.1.parts == r.0.parts
            &&& r.1.faces == r.0.faces
            &&& r.1.node_sets == r.0.node_sets
            &&& r.1.face_sets == r.0.face_sets
        },
        holds_data(lines[k - 1]) ==> after_data(r.0, trim(lines[k - 1])) == InpStep::Going(r.1),
{
    assert(after_lines(lines, k - 1) is Going);
    let was = law_sections_stay_in_force(lines, k - 1);
    (was, after_lines(lines, k)->Going_0)
}

/// The nodes of a mesh are those of the node lines, in their order, each with its
/// three coordinates; and a number stands for the node of the last line that
/// defined it.
#[verifier::rlimit(60)]
pub proof fn law_nodes_are_those_of_the_node_lines(lines: Seq<Seq<char>>, k: int) -> (st: InpScan)
    requires
        0 <= k <= lines.len(),
        k <= usize::MAX,
        after_lines(lines, k) is Going,
    ensures
        after_lines(lines, k) == InpStep::Going(st),
        is_picked(st.nodes, k, node_lines(lines), |l: int| fields_of(lines[l]).subrange(1, 4)),
        forall|id: i64| #[trigger]
            st.index.dom().contains(id) ==> exists|m: int| #[trigger]
                defines(lines, k, id, m) && st.index[id] == places_where(
                    m,
                    node_lines(lines),
                ).len(),
        forall|id: i64, m: int| #[trigger]
            defines(lines, k, id, m) ==> st.index.dom().contains(id),
    decreases k,
{
    if k == 0 {
        start()
    } else {
        let (was, st) = lemma_line(lines, k);
        let before = law_nodes_are_those_of_the_node_lines(lines, k - 1);
        lemma_section_names();
        let l = k - 1;
        lemma_picked_grows(
            was.nodes,
            l,
            node_lines(lines),
            |l: int| fields_of(lines[l]).subrange(1, 4),
        );
        law_places_where(l, node_lines(lines));
        if node_lines(lines)(l) {
            let id = integer64(fields_of(lines[l])[0])->0;
            assert(st.nodes == was.nodes.push(fields_of(lines[l]).subrange(1, 4)));
            assert(st.index == was.index.insert(id, was.nodes.len() as usize));
            assert(defines(lines, k, id, l));
            assert forall|i: i64| #[trigger] st.index.dom().contains(i) implies exists|m: int|
                #[trigger]
                defines(lines, k, i, m) && st.index[i] == places_where(m, node_lines(lines)).len() by {
                if i == id {
                    assert(defines(lines, k, id, l));
                } else {
                    assert(was.index.dom().contains(i));
                    let m = choose|m: int| #[trigger]
                        defines(lines, l, i, m) && was.index[i] == places_where(
                            m,
                            node_lines(lines),
                        ).len();
                    assert(defines(lines, k, i, m));
                }
            }
            assert forall|i: i64, m: int| #[trigger]
                defines(lines, k, i, m) implies st.index.dom().contains(i) by {
                if m < l {
                    assert(defines(lines, l, i, m));
                }
            }
        } else {
            assert(st.nodes == was.nodes && st.index == was.index);
            assert forall|i: i64| #[trigger] st.index.dom().contains(i) implies exists|m: int|
                #[trigger]
                defines(lines, k, i, m) && st.index[i] == places_where(m, node_lines(lines)).len() by {
                assert(was.index.dom().contains(i));
                let m = choose|m: int| #[trigger]
                    defines(lines, l, i, m) && was.index[i] == places_where(
                        m,
                        node_lines(lines),
                    ).len();
                assert(defines(lines, k, i, m));
            }
            assert forall|i: i64, m: int| #[trigger]
                defines(lines, k, i, m) implies st.index.dom().contains(i) by {
                assert(defines(lines, l, i, m));
            }
        }
        st
    }
}

/// A field that names a node is resolved to its place, and no other field is.
pub proof fn law_fields_name_nodes(lines: Seq<Seq<char>>, k: int, field: Seq<char>) -> (st: InpScan)
    requires
        0 <= k <= lines.len(),
        k <= usize::MAX,
        after_lines(lines, k) is Going,
    ensures
        after_lines(lines, k) == InpStep::Going(st),
        match node_of(st.index, field) {
            Some(n) => names_node(lines, k, field, n),
            None => forall|n: usize| !#[trigger] names_node(lines, k, field, n),
        },
{
    let st = law_nodes_are_those_of_the_node_lines(lines, k);
    match node_of(st.index, field) {
        Some(n) => {
            let id = integer64(field)->0;
            assert(st.index.dom().contains(id));
        },
        None => {
            assert forall|n: usize| !#[trigger] names_node(lines, k, field, n) by {
                if names_node(lines, k, field, n) {
                    let id = integer64(field)->0;
                    let m = choose|m: int| #[trigger]
                        defines(lines, k, id, m) && n == places_where(m, node_lines(lines)).len();
                    assert(st.index.dom().contains(id));
                }
            }
        },
    }
    st
}

/// The nodes that fields name are all known, or one of them is not: the list has
/// as many, each resolved in its place.
pub proof fn law_every_field_is_resolved(index: Map<i64, usize>, fields: Seq<Seq<char>>)
    ensures
        match all_nodes(index, fields) {
            Some(ids) => ids.len() == fields.len() && forall|i: int|
                0 <= i < fields.len() ==> node_of(index, fields[i]) == Some(#[trigger] ids[i]),
            None => exists|i: int|
                0 <= i < fields.len() && node_of(index, #[trigger] fields[i]) is None,
        },
    decreases fields.len(),
{
    if fields.len() > 0 {
        let front = fields.drop_last();
        law_every_field_is_resolved(index, front);
        match all_nodes(index, front) {
            Some(ids) => {
                assert forall|i: int| 0 <= i < front.len() implies node_of(index, fields[i])
                    == Some(#[trigger] ids[i]) by {
                    assert(front[i] == fields[i]);
                }
                if node_of(index, fields.last()) is None {
                    assert(node_of(index, fields[fields.len() - 1]) is None);
                }
            },
            None => {
                let i = choose|i: int|
                    0 <= i < front.len() && node_of(index, #[trigger] front[i]) is None;
                assert(fields[i] == front[i]);
            },
        }
    }
}

/// Which fields name a node that is known.
pub open spec fn known_fields(index: Map<i64, usize>, fields: Seq<Seq<char>>) -> spec_fn(
    int,
) -> bool {
    |i: int| integer64(fields[i]) is Some && index.dom().contains(integer64(fields[i])->0)
}

/// The known nodes of a set line are those that its fields name, in their order,
/// those passed over that name none.
pub proof fn law_unknown_nodes_are_passed_over(index: Map<i64, usize>, fields: Seq<Seq<char>>)
    ensures
        is_picked(
            known_nodes(index, fields),
            fields.len() as int,
            known_fields(index, fields),
            |i: int| index[integer64(fields[i])->0],
        ),
    decreases fields.len(),
{
    let item = |i: int| index[integer64(fields[i])->0];
    if fields.len() > 0 {
        let front = fields.drop_last();
        let n = front.len() as int;
        law_unknown_nodes_are_passed_over(index, front);
        lemma_same_places(n, known_fields(index, front), known_fields(index, fields));
        let list = known_nodes(index, front);
        let places = places_where(n, known_fields(index, fields));
        law_places_where(n, known_fields(index, fields));
        assert forall|j: int| 0 <= j < list.len() implies #[trigger] list[j] == item(
            places[j],
        ) by {
            assert(0 <= places[j] < n);
            assert(front[places[j]] == fields[places[j]]);
        }
        lemma_picked_grows(list, n, known_fields(index, fields), item);
    }
}

/// Places depend on what holds before their end alone.
proof fn lemma_same_places(n: int, a: spec_fn(int) -> bool, b: spec_fn(int) -> bool)
    requires
        forall|i: int| 0 <= i < n ==> #[trigger] a(i) == b(i),
    ensures
        places_where(n, a) == places_where(n, b),
    decreases n,
{
    if n > 0 {
        lemma_same_places(n - 1, a, b);
        assert(a(n - 1) == b(n - 1));
    }
}

/// Whether element `j` is the first of a part, those before it being of earlier
/// parts.
pub open spec fn begins_part(hex_part: Seq<usize>, p: int, j: int) -> bool {
    &&& 0 <= j < hex_part.len()
    &&& hex_part[j] == p
    &&& forall|i: int| 0 <= i < j ==> #[trigger] hex_part[i] < p
}

/// Whether a part has an element, its first one after those of earlier parts.
pub open spec fn has_element(hex_part: Seq<usize>, p: int) -> bool {
    exists|j: int| #[trigger] begins_part(hex_part, p, j)
}

proof fn lemma_least_named(parts: Seq<Seq<char>>, name: Seq<char>, i: int) -> (p: int)
    requires
        0 <= i < parts.len(),
        parts[i] == name,
    ensures
        is_first_named(parts, name, p),
    decreases i,
{
    if is_first_named(parts, name, i) {
        i
    } else {
        let j = choose|j: int| 0 <= j < i && #[trigger] parts[j] == name;
        lemma_least_named(parts, name, j)
    }
}

/// Every hexahedron belongs to the part that the set of its section names: the
/// part's name is the set in force at the line of the element. There is one
/// element for each such line, in their order. No two parts have one name, and
/// every part has an element, the parts in the order of their first ones.
#[verifier::rlimit(60)]
pub proof fn law_hexahedra_belong_to_their_section(lines: Seq<Seq<char>>, k: int) -> (st: InpScan)
    requires
        0 <= k <= lines.len(),
        k <= usize::MAX,
        after_lines(lines, k) is Going,
    ensures
        after_lines(lines, k) == InpStep::Going(st),
        st.hexes.len() == places_where(k, hex_lines(lines)).len(),
        st.hex_part.len() == st.hexes.len(),
        st.parts.len() <= st.hexes.len(),
        forall|e: int|
            0 <= e < st.hex_part.len() ==> (#[trigger] st.hex_part[e]) < st.parts.len()
                && st.parts[st.hex_part[e] as int] == set_in_force(
                lines,
                places_where(k, hex_lines(lines))[e],
            ),
        forall|p: int, q: int|
            0 <= p < q < st.parts.len() ==> #[trigger] st.parts[p] != #[trigger] st.parts[q],
        forall|p: int|
            0 <= p < st.parts.len() ==> #[trigger] has_element(st.hex_part, p),
    decreases k,
{
    if k == 0 {
        start()
    } else {
        let (was, st) = lemma_line(lines, k);
        let before = law_hexahedra_belong_to_their_section(lines, k - 1);
        lemma_section_names();
        let l = k - 1;
        let fields = fields_of(lines[l]);
        law_places_where(l, hex_lines(lines));
        let places = places_where(k, hex_lines(lines));
        if holds_data(lines[l]) && section_in_force(lines, l) == "ELEMENT"@ {
            law_every_field_is_resolved(was.index, fields.drop_first());
        }
        if hex_lines(lines)(l) {
            let ids = all_nodes(was.index, fields.drop_first())->0;
            assert(st == after_element(was, ids));
            let name = was.set_name;
            let p = part_place(was.parts, name);
            if exists|q: int| is_first_named(was.parts, name, q) {
                assert(is_first_named(was.parts, name, p));
            } else {
                assert forall|i: int| 0 <= i < was.parts.len() implies #[trigger] was.parts[i]
                    != name by {
                    if was.parts[i] == name {
                        let q = lemma_least_named(was.parts, name, i);
                    }
                }
            }
            assert(st.hex_part == was.hex_part.push(p as usize));
            assert(places == places_where(l, hex_lines(lines)).push(l));
            assert forall|e: int| 0 <= e < st.hex_part.len() implies (#[trigger] st.hex_part[e])
                < st.parts.len() && st.parts[st.hex_part[e] as int] == set_in_force(
                lines,
                places[e],
            ) by {
                if e < was.hex_part.len() {
                    assert(st.hex_part[e] == was.hex_part[e]);
                    assert(st.parts[was.hex_part[e] as int] == was.parts[was.hex_part[e] as int]);
                }
            }
            assert forall|q: int| 0 <= q < st.parts.len() implies #[trigger] has_element(
                st.hex_part,
                q,
            ) by {
                if q < was.parts.len() {
                    assert(has_element(was.hex_part, q));
                    let j = choose|j: int| #[trigger] begins_part(was.hex_part, q, j);
                    assert forall|i: int| 0 <= i < j implies #[trigger] st.hex_part[i] < q by {
                        assert(was.hex_part[i] < q);
                    }
                    assert(begins_part(st.hex_part, q, j));
                } else {
                    let j = was.hex_part.len() as int;
                    assert forall|i: int| 0 <= i < j implies #[trigger] st.hex_part[i] < q by {
                        assert(was.hex_part[i] < was.parts.len());
                    }
                    assert(begins_part(st.hex_part, q, j));
                }
            }
        } else {
            assert(st.hexes == was.hexes && st.hex_part == was.hex_part && st.parts == was.parts);
        }
        st
    }
}

/// The corners of a hexahedron are the nodes that the fields of its line name,
/// in their order.
#[verifier::rlimit(60)]
pub proof fn law_corners_are_those_named(lines: Seq<Seq<char>>, k: int, e: int) -> (st: InpScan)
    requires
        0 <= k <= lines.len(),
        k <= usize::MAX,
        after_lines(lines, k) is Going,
        0 <= e < places_where(k, hex_lines(lines)).len(),
    ensures
        after_lines(lines, k) == InpStep::Going(st),
        st.hexes[e].len() == 8,
        ({
            let l = places_where(k, hex_lines(lines))[e];
            forall|c: int|
                0 <= c < 8 ==> names_node(
                    lines,
                    l,
                    fields_of(lines[l])[1 + c],
                    #[trigger] st.hexes[e][c],
                )
        }),
    decreases k,
{
    let (was, st) = lemma_line(lines, k);
    let before = law_hexahedra_belong_to_their_section(lines, k - 1);
    let now = law_hexahedra_belong_to_their_section(lines, k);
    lemma_section_names();
    let l = k - 1;
    let fields = fields_of(lines[l]);
    if holds_data(lines[l]) && section_in_force(lines, l) == "ELEMENT"@ {
        law_every_field_is_resolved(was.index, fields.drop_first());
    }
    if hex_lines(lines)(l) {
        let ids = all_nodes(was.index, fields.drop_first())->0;
        assert(st.hexes == was.hexes.push(ids));
        if e < was.hexes.len() {
            let x = law_corners_are_those_named(lines, k - 1, e);
            assert(st.hexes[e] == was.hexes[e]);
        } else {
            assert(places_where(k, hex_lines(lines))[e] == l);
            assert forall|c: int| 0 <= c < 8 implies names_node(
                lines,
                l,
                fields[1 + c],
                #[trigger] st.hexes[e][c],
            ) by {
                assert(node_of(was.index, fields.drop_first()[c]) == Some(ids[c]));
                let x = law_fields_name_nodes(lines, l, fields[1 + c]);
            }
        }
    } else {
        assert(st.hexes == was.hexes);
        let x = law_corners_are_those_named(lines, k - 1, e);
    }
    st
}

/// Whether the corners of a face are the nodes that the fields of a line name.
pub open spec fn is_face_of(lines: Seq<Seq<char>>, l: int, face: Seq<usize>) -> bool {
    &&& face.len() == 4
    &&& forall|c: int|
        0 <= c < 4 ==> names_node(lines, l, fields_of(lines[l])[1 + c], #[trigger] face[c])
}

/// Which faces were read in a section of a set.
pub open spec fn faces_of_set(lines: Seq<Seq<char>>, k: int, name: Seq<char>) -> spec_fn(
    int,
) -> bool {
    |f: int| set_in_force(lines, places_where(k, face_lines(lines))[f]) == name
}

/// There is one contact face for each line that holds one, in their order; its
/// corners are the nodes that the line names. A face set holds the faces read in
/// the sections of its name, all of them and in their order.
#[verifier::rlimit(60)]
pub proof fn law_faces_belong_to_their_section(lines: Seq<Seq<char>>, k: int) -> (st: InpScan)
    requires
        0 <= k <= lines.len(),
        k <= usize::MAX,
        after_lines(lines, k) is Going,
    ensures
        after_lines(lines, k) == InpStep::Going(st),
        st.faces.len() == places_where(k, face_lines(lines)).len(),
        forall|f: int|
            0 <= f < st.faces.len() ==> is_face_of(
                lines,
                places_where(k, face_lines(lines))[f],
                #[trigger] st.faces[f],
            ),
        forall|name: Seq<char>|
            is_picked(
                #[trigger] set_or_empty(st.face_sets, name),
                st.faces.len() as int,
                faces_of_set(lines, k, name),
                |f: int| f as usize,
            ),
    decreases k,
{
    if k == 0 {
        start()
    } else {
        let (was, st) = lemma_line(lines, k);
        let before = law_faces_belong_to_their_section(lines, k - 1);
        lemma_section_names();
        let l = k - 1;
        let fields = fields_of(lines[l]);
        law_places_where(l, face_lines(lines));
        let places = places_where(k, face_lines(lines));
        if holds_data(lines[l]) && section_in_force(lines, l) == "ELEMENT"@ {
            law_every_field_is_resolved(was.index, fields.drop_first());
        }
        if face_lines(lines)(l) {
            let ids = all_nodes(was.index, fields.drop_first())->0;
            let n = was.faces.len() as int;
            assert(st == after_element(was, ids));
            assert(st.faces == was.faces.push(ids));
            assert(places == places_where(l, face_lines(lines)).push(l));
            assert forall|f: int| 0 <= f < st.faces.len() implies is_face_of(
                lines,
                places[f],
                #[trigger] st.faces[f],
            ) by {
                if f < n {
                    assert(st.faces[f] == was.faces[f]);
                    assert(places_where(l, face_lines(lines))[f] == places[f]);
                } else {
                    assert forall|c: int| 0 <= c < 4 implies names_node(
                        lines,
                        l,
                        fields[1 + c],
                        #[trigger] st.faces[f][c],
                    ) by {
                        assert(node_of(was.index, fields.drop_first()[c]) == Some(ids[c]));
                        let x = law_fields_name_nodes(lines, l, fields[1 + c]);
                    }
                }
            }
            assert forall|name: Seq<char>|
                is_picked(
                    #[trigger] set_or_empty(st.face_sets, name),
                    st.faces.len() as int,
                    faces_of_set(lines, k, name),
                    |f: int| f as usize,
                ) by {
                let list = set_or_empty(was.face_sets, name);
                assert(is_picked(
                    list,
                    n,
                    faces_of_set(lines, l, name),
                    |f: int| f as usize,
                ));
                lemma_same_places(
                    n,
                    faces_of_set(lines, l, name),
                    faces_of_set(lines, k, name),
                );
                lemma_picked_grows(
                    list,
                    n,
                    faces_of_set(lines, k, name),
                    |f: int| f as usize,
                );
                assert(places[n] == l);
            }
        } else {
            assert(st.faces == was.faces && st.face_sets == was.face_sets);
            assert(places == places_where(l, face_lines(lines)));
            assert forall|name: Seq<char>|
                is_picked(
                    #[trigger] set_or_empty(st.face_sets, name),
                    st.faces.len() as int,
                    faces_of_set(lines, k, name),
                    |f: int| f as usize,
                ) by {
                lemma_same_places(
                    st.faces.len() as int,
                    faces_of_set(lines, l, name),
                    faces_of_set(lines, k, name),
                );
                assert(set_or_empty(was.face_sets, name) == set_or_empty(st.face_sets, name));
            }
        }
        st
    }
}

/// A face set is there where a face was read in a section of its name.
pub proof fn law_face_sets_are_those_named(lines: Seq<Seq<char>>, k: int, name: Seq<char>) -> (st:
    InpScan)
    requires
        0 <= k <= lines.len(),
        k <= usize::MAX,
        after_lines(lines, k) is Going,
    ensures
        after_lines(lines, k) == InpStep::Going(st),
        st.face_sets.dom().contains(name) <==> exists|l: int|
            0 <= l < k && #[trigger] face_lines(lines)(l) && set_in_force(lines, l) == name,
    decreases k,
{
    if k == 0 {
        start()
    } else {
        let (was, st) = lemma_line(lines, k);
        let before = law_face_sets_are_those_named(lines, k - 1, name);
        lemma_section_names();
        let l = k - 1;
        let fields = fields_of(lines[l]);
        if holds_data(lines[l]) && section_in_force(lines, l) == "ELEMENT"@ {
            law_every_field_is_resolved(was.index, fields.drop_first());
        }
        if face_lines(lines)(l) {
            let ids = all_nodes(was.index, fields.drop_first())->0;
            assert(st == after_element(was, ids));
        } else {
            assert(st.face_sets == was.face_sets);
        }
        st
    }
}

/// Whether a field of a line read under the name of a set names a node.
pub open spec fn lists(
    lines: Seq<Seq<char>>,
    k: int,
    name: Seq<char>,
    n: usize,
    l: int,
    i: int,
) -> bool {
    &&& 0 <= l < k
    &&& set_lines(lines, name)(l)
    &&& 0 <= i < fields_of(lines[l]).len()
    &&& names_node(lines, l, fields_of(lines[l])[i], n)
}

/// A node set is there where a data line was read under its name. Its nodes are
/// those that the fields of such lines name, and no others; a line adds its nodes
/// behind those that there were.
#[verifier::rlimit(60)]
pub proof fn law_node_sets_hold_what_was_listed(
    lines: Seq<Seq<char>>,
    k: int,
    name: Seq<char>,
) -> (st: InpScan)
    requires
        0 <= k <= lines.len(),
        k <= usize::MAX,
        after_lines(lines, k) is Going,
    ensures
        after_lines(lines, k) == InpStep::Going(st),
        st.node_sets.dom().contains(name) <==> exists|l: int|
            0 <= l < k && #[trigger] set_lines(lines, name)(l),
        forall|n: usize| #[trigger]
            set_or_empty(st.node_sets, name).contains(n) ==> exists|l: int, i: int| #[trigger]
                lists(lines, k, name, n, l, i),
        forall|n: usize, l: int, i: int| #[trigger]
            lists(lines, k, name, n, l, i) ==> set_or_empty(st.node_sets, name).contains(n),
        k > 0 ==> after_lines(lines, k - 1) is Going && set_or_empty(
            after_lines(lines, k - 1)->Going_0.node_sets,
            name,
        ).is_prefix_of(set_or_empty(st.node_sets, name)),
    decreases k,
{
    if k == 0 {
        start()
    } else {
        let (was, st) = lemma_line(lines, k);
        let before = law_node_sets_hold_what_was_listed(lines, k - 1, name);
        lemma_section_names();
        let l = k - 1;
        let fields = fields_of(lines[l]);
        let old_list = set_or_empty(was.node_sets, name);
        let new_list = set_or_empty(st.node_sets, name);
        if set_lines(lines, name)(l) {
            let more = known_nodes(was.index, fields);
            assert(new_list == old_list + more);
            law_unknown_nodes_are_passed_over(was.index, fields);
            law_places_where(fields.len() as int, known_fields(was.index, fields));
            let places = places_where(fields.len() as int, known_fields(was.index, fields));
            assert forall|n: usize| #[trigger] new_list.contains(n) implies exists|m: int, i: int|
                #[trigger]
                lists(lines, k, name, n, m, i) by {
                let j = choose|j: int| 0 <= j < new_list.len() && new_list[j] == n;
                if j < old_list.len() {
                    assert(old_list[j] == n);
                    assert(old_list.contains(n));
                    let (m, i) = choose|m: int, i: int| #[trigger]
                        lists(lines, l, name, n, m, i);
                    assert(lists(lines, k, name, n, m, i));
                } else {
                    let t = j - old_list.len();
                    assert(more[t] == n);
                    let i = places[t];
                    assert(known_fields(was.index, fields)(i));
                    let x = law_fields_name_nodes(lines, l, fields[i]);
                    assert(node_of(was.index, fields[i]) == Some(n));
                    assert(lists(lines, k, name, n, l, i));
                }
            }
            assert forall|n: usize, m: int, i: int| #[trigger]
                lists(lines, k, name, n, m, i) implies new_list.contains(n) by {
                if m < l {
                    assert(lists(lines, l, name, n, m, i));
                    let j = choose|j: int| 0 <= j < old_list.len() && old_list[j] == n;
                    assert(new_list[j] == n);
                } else {
                    let x = law_fields_name_nodes(lines, l, fields[i]);
                    assert(names_node(lines, l, fields[i], n));
                    assert(known_fields(was.index, fields)(i));
                    let t = choose|t: int| 0 <= t < places.len() && places[t] == i;
                    lemma_one_node(lines, l, fields[i], n, more[t]);
                    assert(more[t] == n);
                    assert(new_list[old_list.len() + t] == n);
                }
            }
        } else {
            assert(new_list == old_list);
            assert(st.node_sets.dom().contains(name) <==> was.node_sets.dom().contains(name));
            assert forall|n: usize| #[trigger] new_list.contains(n) implies exists|m: int, i: int|
                #[trigger]
                lists(lines, k, name, n, m, i) by {
                assert(old_list.contains(n));
                let (m, i) = choose|m: int, i: int| #[trigger] lists(lines, l, name, n, m, i);
                assert(lists(lines, k, name, n, m, i));
            }
            assert forall|n: usize, m: int, i: int| #[trigger]
                lists(lines, k, name, n, m, i) implies new_list.contains(n) by {
                assert(lists(lines, l, name, n, m, i));
            }
        }
        st
    }
}

/// A field names one node at most.
proof fn lemma_one_node(lines: Seq<Seq<char>>, k: int, field: Seq<char>, a: usize, b: usize)
    requires
        names_node(lines, k, field, a),
        names_node(lines, k, field, b),
    ensures
        a == b,
{
    let id = integer64(field)->0;
    let m = choose|m: int| #[trigger]
        defines(lines, k, id, m) && a == places_where(m, node_lines(lines)).len();
    let n = choose|n: int| #[trigger]
        defines(lines, k, id, n) && b == places_where(n, node_lines(lines)).len();
    assert(node_lines(lines)(m) && node_lines(lines)(n));
    assert(m == n);
}

/// Whether a line is refused for its node number.
pub open spec fn has_bad_number(lines: Seq<Seq<char>>, l: int) -> bool {
    node_lines(lines)(l) && integer64(fields_of(lines[l])[0]) is None
}

/// Whether a field names no node that was defined before its line.
pub open spec fn is_unknown(lines: Seq<Seq<char>>, l: int, i: int) -> bool {
    1 <= i < fields_of(lines[l]).len() && forall|n: usize|
        !#[trigger] names_node(lines, l, fields_of(lines[l])[i], n)
}

/// Whether a line is refused for a node of an element.
pub open spec fn has_unknown_node(lines: Seq<Seq<char>>, l: int) -> bool {
    &&& holds_data(lines[l])
    &&& section_in_force(lines, l) == "ELEMENT"@
    &&& exists|i: int| #[trigger] is_unknown(lines, l, i)
}

/// Whether a line of an element section has no field.
pub open spec fn has_no_field(lines: Seq<Seq<char>>, l: int) -> bool {
    &&& holds_data(lines[l])
    &&& section_in_force(lines, l) == "ELEMENT"@
    &&& fields_of(lines[l]).len() == 0
}

pub open spec fn is_refused(lines: Seq<Seq<char>>, l: int) -> bool {
    has_bad_number(lines, l) || has_unknown_node(lines, l) || has_no_field(lines, l)
}

pub open spec fn is_first_refused(lines: Seq<Seq<char>>, k: int, l: int) -> bool {
    0 <= l < k && is_refused(lines, l) && forall|i: int|
        0 <= i < l ==> !#[trigger] is_refused(lines, i)
}

/// Reading goes on to the end where no line is refused, and stops at the first
/// that is: the refusal holds that line, trimmed, and says what is wrong with it.
#[verifier::rlimit(60)]
pub proof fn law_first_bad_line_stops(lines: Seq<Seq<char>>, k: int)
    requires
        0 <= k <= lines.len(),
        k <= usize::MAX,
    ensures
        match after_lines(lines, k) {
            InpStep::Going(_) => forall|l: int| 0 <= l < k ==> !#[trigger] is_refused(lines, l),
            InpStep::BadNode(line) => exists|l: int| #[trigger]
                is_first_refused(lines, k, l) && has_bad_number(lines, l) && line == trim(
                    lines[l],
                ),
            InpStep::UnknownNode(line) => exists|l: int| #[trigger]
                is_first_refused(lines, k, l) && has_unknown_node(lines, l) && line == trim(
                    lines[l],
                ),
            InpStep::Stuck => exists|l: int| #[trigger]
                is_first_refused(lines, k, l) && has_no_field(lines, l),
        },
    decreases k,
{
    if k > 0 {
        law_first_bad_line_stops(lines, k - 1);
        let l = k - 1;
        match after_lines(lines, l) {
            InpStep::Going(was) => {
                let same = law_sections_stay_in_force(lines, l);
                lemma_section_names();
                let fields = fields_of(lines[l]);
                if holds_data(lines[l]) && section_in_force(lines, l) == "ELEMENT"@
                    && fields.len() > 0 {
                    let rest = fields.drop_first();
                    law_every_field_is_resolved(was.index, rest);
                    match all_nodes(was.index, rest) {
                        Some(ids) => {
                            assert forall|i: int| !#[trigger] is_unknown(lines, l, i) by {
                                if 1 <= i < fields.len() {
                                    assert(node_of(was.index, rest[i - 1]) == Some(ids[i - 1]));
                                    let x = law_fields_name_nodes(lines, l, fields[i]);
                                    assert(names_node(lines, l, fields[i], ids[i - 1]));
                                }
                            }
                        },
                        None => {
                            let i = choose|i: int|
                                0 <= i < rest.len() && node_of(was.index, #[trigger] rest[i]) is None;
                            let x = law_fields_name_nodes(lines, l, fields[i + 1]);
                            assert(is_unknown(lines, l, i + 1));
                        },
                    }
                }
                if is_refused(lines, l) {
                    assert(is_first_refused(lines, k, l));
                }
            },
            InpStep::BadNode(line) => {
                let i = choose|i: int| #[trigger]
                    is_first_refused(lines, l, i) && has_bad_number(lines, i) && line == trim(
                        lines[i],
                    );
                assert(is_first_refused(lines, k, i));
            },
            InpStep::UnknownNode(line) => {
                let i = choose|i: int| #[trigger]
                    is_first_refused(lines, l, i) && has_unknown_node(lines, i) && line == trim(
                        lines[i],
                    );
                assert(is_first_refused(lines, k, i));
            },
            InpStep::Stuck => {
                let i = choose|i: int| #[trigger]
                    is_first_refused(lines, l, i) && has_no_field(lines, i);
                assert(is_first_refused(lines, k, i));
            },
        }
    }
}

/// What a mesh read from a text holds: a node for each node line with its three
/// coordinates, and an element for each hexahedron's line, in the part named by
/// the set of its section.
#[verifier::rlimit(60)]
pub proof fn law_mesh_is_that_of_the_file(
    text: Seq<char>,
    mesh: Mesh<[String; 3]>,
    st: InpScan,
)
    requires
        split(text, '\n').len() <= usize::MAX,
        outcome(text) == InpStep::Going(st),
        holds_scan(mesh, st),
    ensures
        ({
            let lines = split(text, '\n');
            let nodes = places_where(lines.len() as int, node_lines(lines));
            let hexes = places_where(lines.len() as int, hex_lines(lines));
            let faces = places_where(lines.len() as int, face_lines(lines));
            &&& mesh.nodes@.len() == nodes.len()
            &&& forall|n: int, d: int|
                0 <= n < nodes.len() && 0 <= d < 3 ==> (#[trigger] mesh.nodes@[n]@[d])@ == fields_of(
                    lines[nodes[n]],
                )[1 + d]
            &&& mesh.hexes@.len() == hexes.len() && mesh.hex_part@.len() == hexes.len()
            &&& forall|e: int|
                0 <= e < hexes.len() ==> (#[trigger] mesh.hex_part@[e]) < mesh.parts@.len()
                    && mesh.parts@[mesh.hex_part@[e] as int].name@ == set_in_force(
                    lines,
                    hexes[e],
                )
            &&& forall|e: int, c: int|
                0 <= e < hexes.len() && 0 <= c < 8 ==> names_node(
                    lines,
                    hexes[e],
                    fields_of(lines[hexes[e]])[1 + c],
                    #[trigger] mesh.hexes@[e]@[c],
                )
            &&& forall|e: int, f: int|
                0 <= e < hexes.len() && 0 <= f < hexes.len() ==> ((#[trigger] mesh.hex_part@[e])
                    == (#[trigger] mesh.hex_part@[f]) <==> set_in_force(lines, hexes[e])
                    == set_in_force(lines, hexes[f]))
            &&& forall|p: int|
                0 <= p < mesh.parts@.len() ==> #[trigger] has_element(mesh.hex_part@, p)
            &&& mesh.faces@.len() == faces.len()
            &&& forall|f: int|
                0 <= f < faces.len() ==> is_face_of(lines, faces[f], (#[trigger] mesh.faces@[f])@)
            &&& forall|name: Seq<char>|
                is_picked(
                    #[trigger] set_or_empty(mesh.face_sets@, name),
                    faces.len() as int,
                    faces_of_set(lines, lines.len() as int, name),
                    |f: int| f as usize,
                )
        }),
{
    let lines = split(text, '\n');
    let k = lines.len() as int;
    let a = law_nodes_are_those_of_the_node_lines(lines, k);
    let b = law_hexahedra_belong_to_their_section(lines, k);
    let c = law_faces_belong_to_their_section(lines, k);
    let nodes = places_where(k, node_lines(lines));
    let hexes = places_where(k, hex_lines(lines));
    let faces = places_where(k, face_lines(lines));
    law_places_where(k, node_lines(lines));
    assert forall|n: int, d: int| 0 <= n < nodes.len() && 0 <= d < 3 implies (
    #[trigger] mesh.nodes@[n]@[d])@ == fields_of(lines[nodes[n]])[1 + d] by {
        assert(coordinates(mesh.nodes@[n]) == st.nodes[n]);
        assert(st.nodes[n] == fields_of(lines[nodes[n]]).subrange(1, 4));
        assert(node_lines(lines)(nodes[n]));
        assert(coordinates(mesh.nodes@[n])[d] == mesh.nodes@[n]@[d]@);
    }
    assert forall|e: int| 0 <= e < hexes.len() implies (#[trigger] mesh.hex_part@[e])
        < mesh.parts@.len() && mesh.parts@[mesh.hex_part@[e] as int].name@ == set_in_force(
        lines,
        hexes[e],
    ) by {
        assert(st.hex_part[e] < st.parts.len());
        assert(mesh.parts@[mesh.hex_part@[e] as int].name@ == st.parts[st.hex_part[e] as int]);
    }
    assert forall|e: int, c: int| 0 <= e < hexes.len() && 0 <= c < 8 implies names_node(
        lines,
        hexes[e],
        fields_of(lines[hexes[e]])[1 + c],
        #[trigger] mesh.hexes@[e]@[c],
    ) by {
        let x = law_corners_are_those_named(lines, k, e);
        assert(mesh.hexes@[e]@ == st.hexes[e]);
        assert(st.hexes[e][c] == mesh.hexes@[e]@[c]);
    }
    assert forall|e: int, f: int| 0 <= e < hexes.len() && 0 <= f < hexes.len() implies ((
    #[trigger] mesh.hex_part@[e]) == (#[trigger] mesh.hex_part@[f]) <==> set_in_force(
        lines,
        hexes[e],
    ) == set_in_force(lines, hexes[f])) by {
        let (p, q) = (st.hex_part[e] as int, st.hex_part[f] as int);
        assert(st.parts[p] == set_in_force(lines, hexes[e]));
        assert(st.parts[q] == set_in_force(lines, hexes[f]));
        if p < q {
            assert(st.parts[p] != st.parts[q]);
        } else if q < p {
            assert(st.parts[q] != st.parts[p]);
        }
    }
    assert forall|f: int| 0 <= f < faces.len() implies is_face_of(
        lines,
        faces[f],
        (#[trigger] mesh.faces@[f])@,
    ) by {
        assert(mesh.faces@[f]@ == st.faces[f]);
    }
}

/// A part without a node set of its name in the file gets its nodes: a node is in
/// the set where an element of the part has it. Names that are no part's stay as
/// they were.
pub proof fn law_part_sets_hold_the_nodes_of_the_part<P>(
    sets: Map<Seq<char>, Seq<usize>>,
    mesh: Mesh<P>,
    p: int,
    k: int,
)
    requires
        mesh.wf(),
        0 <= k < p <= mesh.parts.len(),
        mesh.parts.len() <= usize::MAX,
        !sets.dom().contains(mesh.parts[k].name@),
        forall|i: int|
            0 <= i < mesh.parts.len() && i != k ==> (#[trigger] mesh.parts[i]).name@
                != mesh.parts[k].name@,
    ensures
        with_part_sets(sets, mesh, p)[mesh.parts[k].name@] == mesh.node_list(k as usize),
        forall|name: Seq<char>|
            !sets.dom().contains(name) && (forall|i: int|
                0 <= i < p ==> (#[trigger] mesh.parts[i]).name@ != name)
                ==> !#[trigger] with_part_sets(sets, mesh, p).dom().contains(name),
    decreases p,
{
    if k < p - 1 {
        law_part_sets_hold_the_nodes_of_the_part(sets, mesh, p - 1, k);
        law_every_part_has_a_set(sets, mesh, p - 1, k);
        assert(mesh.parts[p - 1].name@ != mesh.parts[k].name@);
    } else {
        lemma_no_other_sets(sets, mesh, p - 1);
        assert(!with_part_sets(sets, mesh, p - 1).dom().contains(mesh.parts[k].name@));
        assert(mesh.parts[p - 1].name@ == mesh.parts[k].name@);
    }
    lemma_no_other_sets(sets, mesh, p);
}

proof fn lemma_no_other_sets<P>(sets: Map<Seq<char>, Seq<usize>>, mesh: Mesh<P>, p: int)
    requires
        0 <= p <= mesh.parts.len(),
    ensures
        forall|name: Seq<char>|
            !sets.dom().contains(name) && (forall|i: int|
                0 <= i < p ==> (#[trigger] mesh.parts[i]).name@ != name)
                ==> !#[trigger] with_part_sets(sets, mesh, p).dom().contains(name),
    decreases p,
{
    if p > 0 {
        lemma_no_other_sets(sets, mesh, p - 1);
        assert forall|name: Seq<char>|
            !sets.dom().contains(name) && (forall|i: int|
                0 <= i < p ==> (#[trigger] mesh.parts[i]).name@
                    != name) implies !#[trigger] with_part_sets(
            sets,
            mesh,
            p,
        ).dom().contains(name) by {
            assert(mesh.parts[p - 1].name@ != name);
            assert(!with_part_sets(sets, mesh, p - 1).dom().contains(name));
        }
    }
}

/// The message of a refused mesh file ends with the line that could not be read.
pub proof fn law_mesh_messages_show_the_line(line: String)
    ensures
        InpError::BadNode(line).text() == "bad node line: "@ + line@,
        InpError::UnknownNode(line).text() == "unknown node in element line: "@ + line@,
{
}

} // verus!
