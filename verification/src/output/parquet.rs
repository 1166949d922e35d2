//! Columnar tables for Parquet files: a table is a list of named columns of
//! equal length.

use crate::indices::places_where;
use crate::number::Real;
use crate::text::{chars_of, decimal, joined_by, push_decimal};
use vstd::prelude::*;

verus! {

/// One column of a table.
#[derive(Clone, Debug)]
pub enum Column {
    F64(Vec<Real>),
    I64(Vec<i64>),
    Str(Vec<String>),
}

/// What a column holds.
pub enum Cells {
    F64(Seq<Real>),
    I64(Seq<i64>),
    Str(Seq<Seq<char>>),
}

impl Column {
    /// What the column holds.
    pub open spec fn view(self) -> Cells {
        match self {
            Column::F64(v) => Cells::F64(v@),
            Column::I64(v) => Cells::I64(v@),
            Column::Str(v) => Cells::Str(Seq::new(v@.len(), |i: int| v@[i]@)),
        }
    }

    pub open spec fn rows(self) -> nat {
        match self {
            Column::F64(v) => v@.len(),
            Column::I64(v) => v@.len(),
            Column::Str(v) => v@.len(),
        }
    }

    pub fn len(&self) -> (n: usize)
        ensures
            n == self.rows(),
    {
        match self {
            Column::F64(v) => v.len(),
            Column::I64(v) => v.len(),
            Column::Str(v) => v.len(),
        }
    }

    pub fn is_empty(&self) -> (b: bool)
        ensures
            b == (self.rows() == 0),
    {
        self.len() == 0
    }

    pub open spec fn declaration(self, name: Seq<char>) -> Seq<char> {
        match self {
            Column::F64(_) => "required double "@ + name + ";"@,
            Column::I64(_) => "required int64 "@ + name + ";"@,
            Column::Str(_) => "required binary "@ + name + " (UTF8);"@,
        }
    }

    /// How a schema declares the column.
    pub fn type_decl(&self, name: &str) -> (s: String)
        ensures
            s@ == self.declaration(name@),
    {
        let mut s: String = match self {
            Column::F64(_) => "required double ".to_string(),
            Column::I64(_) => "required int64 ".to_string(),
            Column::Str(_) => "required binary ".to_string(),
        };
        s.append(name);
        match self {
            Column::Str(_) => {
                s.append(" (UTF8);");
            },
            _ => {
                s.append(";");
            },
        }
        s
    }
}

/// Why a table is refused.
#[derive(Clone, Debug)]
pub enum TableError {
    /// A column is not as long as the first.
    Rows { name: String, rows: usize, expected: usize },
    /// The schema is refused, with the reason.
    Schema(String),
}

impl TableError {
    pub open spec fn text(self) -> Seq<char> {
        match self {
            TableError::Rows { name, rows, expected } => "column '"@ + name@ + "' has "@ + decimal(
                rows as nat,
            ) + " rows, expected "@ + decimal(expected as nat),
            TableError::Schema(reason) => reason@,
        }
    }

    /// The message shown to the user.
    pub fn message(&self) -> (s: String)
        ensures
            s@ == self.text(),
    {
        match self {
            TableError::Rows { name, rows, expected } => {
                let mut s: String = "column '".to_string();
                s.append(name);
                s.append("' has ");
                push_decimal(&mut s, *rows);
                s.append(" rows, expected ");
                push_decimal(&mut s, *expected);
                s
            },
            TableError::Schema(reason) => reason.clone(),
        }
    }
}

/// Rows of a table: those of its first column.
pub open spec fn table_rows(columns: Seq<(String, Column)>) -> nat {
    if columns.len() == 0 {
        0
    } else {
        columns[0].1.rows()
    }
}

/// Whether every column is as long as the first.
pub open spec fn is_rectangular(columns: Seq<(String, Column)>) -> bool {
    forall|i: int| 0 <= i < columns.len() ==> (#[trigger] columns[i]).1.rows() == table_rows(columns)
}

/// The first column that is not as long as the first of all.
pub open spec fn is_ragged_at(columns: Seq<(String, Column)>, i: int) -> bool {
    &&& 0 <= i < columns.len()
    &&& columns[i].1.rows() != table_rows(columns)
    &&& forall|k: int|
        0 <= k < i ==> (#[trigger] columns[k]).1.rows() == table_rows(columns)
}

/// The rows of a table, or the first column that is not as long as the first.
pub fn check_rows(columns: &Vec<(String, Column)>) -> (r: Result<usize, TableError>)
    ensures
        match r {
            Ok(n) => is_rectangular(columns@) && n == table_rows(columns@),
            Err(TableError::Rows { name, rows, expected }) => exists|i: int| #[trigger]
                is_ragged_at(columns@, i) && name@ == columns@[i].0@ && rows
                    == columns@[i].1.rows() && expected == table_rows(columns@),
            Err(TableError::Schema(_)) => false,
        },
{
    let n: usize = if columns.len() == 0 {
        0
    } else {
        columns[0].1.len()
    };
    let mut i: usize = 0;
    while i < columns.len()
        invariant
            i <= columns@.len(),
            n == table_rows(columns@),
            forall|k: int| 0 <= k < i ==> (#[trigger] columns@[k]).1.rows() == n,
        decreases columns.len() - i,
    {
        let rows: usize = columns[i].1.len();
        if rows != n {
            assert(is_ragged_at(columns@, i as int));
            return Err(
                TableError::Rows { name: columns[i].0.clone(), rows, expected: n },
            );
        }
        i += 1;
    }
    Ok(n)
}

/// The declarations of the first `k` columns, with a space between two.
pub open spec fn declarations(columns: Seq<(String, Column)>, k: int) -> Seq<char>
    decreases k,
{
    if k <= 0 {
        Seq::empty()
    } else {
        let d = columns[k - 1].1.declaration(columns[k - 1].0@);
        if k == 1 {
            d
        } else {
            declarations(columns, k - 1) + " "@ + d
        }
    }
}

/// The schema of a table.
pub open spec fn schema_text(table: Seq<char>, columns: Seq<(String, Column)>) -> Seq<char> {
    "message "@ + table + " { "@ + declarations(columns, columns.len() as int) + " }"@
}

/// The schema of a table.
pub fn schema(table: &str, columns: &Vec<(String, Column)>) -> (s: String)
    ensures
        s@ == schema_text(table@, columns@),
{
    let mut s: String = "message ".to_string();
    s.append(table);
    s.append(" { ");
    let ghost start = s@;
    let mut i: usize = 0;
    assert(s@ =~= start + declarations(columns@, 0));
    while i < columns.len()
        invariant
            i <= columns@.len(),
            s@ == start + declarations(columns@, i as int),
        decreases columns.len() - i,
    {
        if i > 0 {
            s.append(" ");
        }
        let d: String = columns[i].1.type_decl(&columns[i].0);
        s.append(&d);
        assert(s@ =~= start + declarations(columns@, i + 1));
        i += 1;
    }
    s.append(" }");
    s
}

/// Why the schema parser refuses a text; nothing where it takes it.
pub uninterp spec fn schema_fault(text: Seq<char>) -> Option<Seq<char>>;

/// Number of opening braces of a text.
pub open spec fn braces(s: Seq<char>) -> nat
    decreases s.len(),
{
    if s.len() == 0 {
        0
    } else {
        braces(s.drop_last()) + (if s.last() == '{' {
            1nat
        } else {
            0
        })
    }
}

/// Whether the word "group" stands at `i` in a text, in letters of either case.
pub open spec fn is_group_at(s: Seq<char>, i: int) -> bool {
    &&& 0 <= i <= s.len() - 5
    &&& s[i] == 'g' || s[i] == 'G'
    &&& s[i + 1] == 'r' || s[i + 1] == 'R'
    &&& s[i + 2] == 'o' || s[i + 2] == 'O'
    &&& s[i + 3] == 'u' || s[i + 3] == 'U'
    &&& s[i + 4] == 'p' || s[i + 4] == 'P'
}

/// How often the word "group" starts in the first `k` places of a text.
pub open spec fn groups_before(s: Seq<char>, k: int) -> nat
    decreases k,
{
    if k <= 0 {
        0
    } else {
        groups_before(s, k - 1) + (if is_group_at(s, k - 1) {
            1nat
        } else {
            0
        })
    }
}

/// How often the word "group" stands in a text.
pub open spec fn groups(s: Seq<char>) -> nat {
    groups_before(s, s.len() as int)
}

/// The most groups that a schema nests: a stack of 2 MiB, as a thread has it,
/// ends at some 600.
pub const MOST_NESTED: usize = 512;

/// Whether a schema nests few groups: each takes the word and a brace.
pub open spec fn nests_few(s: Seq<char>) -> bool {
    braces(s) <= MOST_NESTED || groups(s) <= MOST_NESTED
}

/// Number of opening braces of a text.
fn count_braces(s: &str) -> (n: usize)
    ensures
        n == braces(s@),
{
    let v: Vec<char> = chars_of(s);
    let mut n: usize = 0;
    let mut i: usize = 0;
    assert(v@.take(0) =~= Seq::empty());
    while i < v.len()
        invariant
            i <= v@.len(),
            n <= i,
            n == braces(v@.take(i as int)),
        decreases v.len() - i,
    {
        assert(v@.take(i + 1).drop_last() =~= v@.take(i as int));
        if v[i] == '{' {
            n += 1;
        }
        i += 1;
    }
    assert(v@.take(i as int) =~= v@);
    n
}

/// How often the word "group" stands in a text.
fn count_groups(s: &str) -> (n: usize)
    ensures
        n == groups(s@),
{
    let v: Vec<char> = chars_of(s);
    let len: usize = v.len();
    let mut n: usize = 0;
    let mut i: usize = 0;
    while i < len
        invariant
            len == v@.len(),
            i <= len,
            n <= i,
            n == groups_before(v@, i as int),
        decreases len - i,
    {
        if len - i >= 5 && (v[i] == 'g' || v[i] == 'G') && (v[i + 1] == 'r' || v[i + 1] == 'R') && (
        v[i + 2] == 'o' || v[i + 2] == 'O') && (v[i + 3] == 'u' || v[i + 3] == 'U') && (v[i + 4]
            == 'p' || v[i + 4] == 'P') {
            n += 1;
        }
        i += 1;
    }
    n
}

/// `parquet::schema::parser::parse_message_type`: whether the text is a schema,
/// and the message of the error if it is not; both depend on the text alone.
/// The parser calls itself for every group inside another, which takes the word
/// "group" and an opening brace, so that many of both could exhaust its stack.
#[verifier::external_body]
fn parse_schema(text: &str) -> (r: Result<(), String>)
    requires
        nests_few(text@),
    ensures
        match r {
            Ok(()) => schema_fault(text@) is None,
            Err(e) => schema_fault(text@) == Some(e@),
        },
{
    match parquet::schema::parser::parse_message_type(text) {
        Ok(_) => Ok(()),
        Err(e) => Err(e.to_string()),
    }
}

/// The rows and the schema of a table to be written: every column as long as
/// the first, and a schema that Parquet takes.
pub fn check_table(table: &str, columns: &Vec<(String, Column)>) -> (r: Result<
    (usize, String),
    TableError,
>)
    requires
        nests_few(schema_text(table@, columns@)),
    ensures
        match r {
            Ok((n, s)) => is_rectangular(columns@) && n == table_rows(columns@) && s@
                == schema_text(table@, columns@) && schema_fault(s@) is None,
            Err(TableError::Rows { name, rows, expected }) => exists|i: int| #[trigger]
                is_ragged_at(columns@, i) && name@ == columns@[i].0@ && rows
                    == columns@[i].1.rows() && expected == table_rows(columns@),
            Err(TableError::Schema(reason)) => is_rectangular(columns@) && schema_fault(
                schema_text(table@, columns@),
            ) == Some(reason@),
        },
{
    match check_rows(columns) {
        Err(e) => Err(e),
        Ok(n) => {
            let s: String = schema(table, columns);
            match parse_schema(&s) {
                Ok(()) => Ok((n, s)),
                Err(reason) => Err(TableError::Schema(reason)),
            }
        },
    }
}

/// As [`check_table`]; nothing where the names of table and columns hold both
/// the word "group" and an opening brace so often that the schema is not handed
/// to the parser.
pub fn try_check_table(table: &str, columns: &Vec<(String, Column)>) -> (r: Option<
    Result<(usize, String), TableError>,
>)
    ensures
        r is None <==> !nests_few(schema_text(table@, columns@)),
        match r {
            None => true,
            Some(Ok((n, s))) => is_rectangular(columns@) && n == table_rows(columns@) && s@
                == schema_text(table@, columns@) && schema_fault(s@) is None,
            Some(Err(TableError::Rows { name, rows, expected })) => exists|i: int| #[trigger]
                is_ragged_at(columns@, i) && name@ == columns@[i].0@ && rows
                    == columns@[i].1.rows() && expected == table_rows(columns@),
            Some(Err(TableError::Schema(reason))) => is_rectangular(columns@) && schema_fault(
                schema_text(table@, columns@),
            ) == Some(reason@),
        },
{
    let text: String = schema(table, columns);
    if count_braces(&text) > MOST_NESTED && count_groups(&text) > MOST_NESTED {
        None
    } else {
        Some(check_table(table, columns))
    }
}

/// Rows per row group.
pub const ROW_GROUP: usize = 262144;

/// Number of row groups of a table; a table without rows has one, without rows.
pub open spec fn group_count(n: int) -> int {
    if n == 0 {
        1
    } else {
        (n + ROW_GROUP - 1) / (ROW_GROUP as int)
    }
}

/// Row group `g` of a table of `n` rows: from and to which row.
pub open spec fn group_span(n: int, g: int) -> (int, int) {
    (
        g * ROW_GROUP,
        if (g + 1) * ROW_GROUP < n {
            (g + 1) * ROW_GROUP
        } else {
            n
        },
    )
}

/// The row groups of a table of `n` rows.
pub fn row_groups(n: usize) -> (r: Vec<(usize, usize)>)
    ensures
        r@.len() == group_count(n as int),
        forall|g: int|
            0 <= g < r@.len() ==> (#[trigger] r@[g]).0 == group_span(n as int, g).0 && r@[g].1
                == group_span(n as int, g).1,
{
    let mut r: Vec<(usize, usize)> = Vec::new();
    if n == 0 {
        r.push((0, 0));
        return r;
    }
    let mut start: usize = 0;
    while start < n
        invariant
            n > 0,
            start <= n,
            start == n || start == r@.len() * ROW_GROUP,
            start < n ==> r@.len() * ROW_GROUP < n,
            start == n ==> r@.len() == group_count(n as int),
            forall|g: int|
                0 <= g < r@.len() ==> (#[trigger] r@[g]).0 == group_span(n as int, g).0 && r@[g].1
                    == group_span(n as int, g).1,
        decreases n - start,
    {
        let end: usize = if n - start > ROW_GROUP {
            start + ROW_GROUP
        } else {
            n
        };
        r.push((start, end));
        start = end;
    }
    r
}

/// The row groups of a table follow each other without gap or overlap, from
/// the first row to the last.
pub proof fn law_groups_partition_rows(n: int, g: int)
    requires
        n >= 0,
        0 <= g < group_count(n),
    ensures
        group_span(n, 0).0 == 0,
        group_span(n, group_count(n) - 1).1 == n,
        g + 1 < group_count(n) ==> group_span(n, g).1 == group_span(n, g + 1).0,
        0 <= group_span(n, g).1 - group_span(n, g).0 <= ROW_GROUP,
        n > 0 ==> group_span(n, g).0 < group_span(n, g).1,
{
}

// ---- what the schema and its limits are for ----

/// The declarations of a schema are those of the columns in their order, one
/// space between each two.
pub proof fn law_declarations_are_joined(columns: Seq<(String, Column)>, k: int)
    requires
        0 <= k <= columns.len(),
    ensures
        declarations(columns, k) == joined_by(
            Seq::new(k as nat, |i: int| columns[i].1.declaration(columns[i].0@)),
            ' ',
        ),
    decreases k,
{
    reveal_strlit(" ");
    let all = Seq::new(k as nat, |i: int| columns[i].1.declaration(columns[i].0@));
    if k > 1 {
        law_declarations_are_joined(columns, k - 1);
        assert(all.drop_last() =~= Seq::new(
            (k - 1) as nat,
            |i: int| columns[i].1.declaration(columns[i].0@),
        ));
        let before = declarations(columns, k - 1);
        assert(before + " "@ =~= before.push(' '));
    }
}

/// A column is declared by its name and the type of what it holds.
pub proof fn law_declarations_name_the_type(c: Column, name: Seq<char>)
    ensures
        c is F64 ==> c.declaration(name) == "required double "@ + name + ";"@,
        c is I64 ==> c.declaration(name) == "required int64 "@ + name + ";"@,
        c is Str ==> c.declaration(name) == "required binary "@ + name + " (UTF8);"@,
{
}

/// Braces and the word "group" are counted at every place where they stand.
pub proof fn law_braces_and_groups_are_counted(s: Seq<char>, k: int)
    requires
        0 <= k <= s.len(),
    ensures
        braces(s.take(k)) == places_where(k, |i: int| s[i] == '{').len(),
        groups_before(s, k) == places_where(k, |i: int| is_group_at(s, i)).len(),
    decreases k,
{
    if k > 0 {
        law_braces_and_groups_are_counted(s, k - 1);
        assert(s.take(k).drop_last() =~= s.take(k - 1));
        assert(s.take(k).last() == s[k - 1]);
    }
}

/// A table is ragged at the first column whose length is not that of the first of
/// all, and is rectangular where there is none.
pub proof fn law_ragged_tables(columns: Seq<(String, Column)>, i: int)
    requires
        is_ragged_at(columns, i),
    ensures
        0 < i < columns.len(),
        columns[i].1.rows() != columns[0].1.rows(),
        forall|k: int| 0 <= k < i ==> (#[trigger] columns[k]).1.rows() == columns[0].1.rows(),
        !is_rectangular(columns),
{
}

/// Row groups hold 262144 rows, all but the last, and a row is in the group of its
/// number over that.
pub proof fn law_rows_are_in_their_group(n: int, r: int)
    requires
        0 <= r < n,
    ensures
        0 <= r / 262144 < group_count(n),
        group_span(n, r / 262144).0 <= r < group_span(n, r / 262144).1,
        r / 262144 + 1 < group_count(n) ==> group_span(n, r / 262144).1 - group_span(
            n,
            r / 262144,
        ).0 == 262144,
{
}

/// The message of a ragged table names the column and both numbers of rows.
pub proof fn law_table_messages_name_the_column(name: String, rows: usize, expected: usize)
    ensures
        (TableError::Rows { name, rows, expected }).text() == "column '"@ + name@ + "' has "@
            + decimal(rows as nat) + " rows, expected "@ + decimal(expected as nat),
        TableError::Schema(name).text() == name@,
{
}

} // verus!
