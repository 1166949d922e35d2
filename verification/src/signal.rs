//! Crash signals: acceleration histories from test files or simulated
//! accelerometers, and what is read off them.

use crate::indices::{is_picked, lemma_picked_grows};
use crate::model::Accelerometer;
use crate::number::{fold_min, least_from, Real};
use crate::roundoff::{
    blend, combined, lemma_constant_is_filtered, lemma_filter_residue, lemma_output_bound,
    lemma_padded_bound, lemma_product_bound, lemma_product_units, lemma_swing_is_wide,
    near_filtered, near_output, near_padded, near_pass, near_passes, near_run, size, Coefficients,
};
use crate::solver::{FrameAxes, Motion, NodeHistory};
use crate::text::{
    chars_of, decimal, pieces, push_decimal, same_text, split, string_of, texts, trim, trimmed,
    words, words_of,
};
use vstd::prelude::*;

verus! {

/// An acceleration history, time 0 at first contact.
#[derive(Clone, Debug)]
pub struct Pulse {
    pub time: Vec<Real>,
    pub accel: Vec<Real>,
}

// ---- resampling ----

/// Where a time falls among ascending sample times.
#[derive(Clone, Copy, Debug, PartialEq, Eq, Structural)]
pub enum Place {
    /// Not after the first sample.
    Start,
    /// After the last sample.
    End,
    /// Between a sample and the next.
    Between(usize),
}

/// Whether a search that stands at sample `j` goes on at a time: the next
/// sample is before it.
pub open spec fn goes_on(t: Seq<Real>, at: Real, j: int) -> bool {
    j + 1 < t.len() && t[j + 1].below(at)
}

/// The sample at which a search that stands at `j` stops.
pub open spec fn stop(t: Seq<Real>, at: Real, j: int) -> int
    decreases t.len() - j,
{
    if goes_on(t, at, j) {
        stop(t, at, j + 1)
    } else {
        j
    }
}

/// The sample at which the search for the `k`-th time of a grid stops, each
/// search starting where the last one stopped.
pub open spec fn stop_at(t: Seq<Real>, grid: Seq<Real>, k: int) -> int
    decreases k + 1,
{
    if k < 0 {
        0
    } else {
        stop(t, grid[k], stop_at(t, grid, k - 1))
    }
}

/// Where a time falls whose search stopped at `j`.
pub open spec fn place_of(t: Seq<Real>, at: Real, j: int) -> Place {
    if j + 1 >= t.len() {
        Place::End
    } else if at.at_most(t[0]) {
        Place::Start
    } else {
        Place::Between(j as usize)
    }
}

/// Where each time of a grid falls among sample times.
pub fn locate(t: &Vec<Real>, grid: &Vec<Real>) -> (r: Vec<Place>)
    requires
        t@.len() > 0,
    ensures
        r@.len() == grid@.len(),
        forall|k: int|
            0 <= k < r@.len() ==> #[trigger] r@[k] == place_of(t@, grid@[k], stop_at(t@, grid@, k)),
{
    let mut r: Vec<Place> = Vec::new();
    let mut j: usize = 0;
    let mut k: usize = 0;
    while k < grid.len()
        invariant
            k <= grid@.len(),
            t@.len() > 0,
            r@.len() == k,
            j < t@.len(),
            j == stop_at(t@, grid@, k - 1),
            forall|i: int|
                0 <= i < k ==> #[trigger] r@[i] == place_of(
                    t@,
                    grid@[i],
                    stop_at(t@, grid@, i),
                ),
        decreases grid.len() - k,
    {
        let at: Real = grid[k];
        let ghost first = j as int;
        while j < t.len() - 1 && t[j + 1].lt(at)
            invariant
                j < t@.len(),
                stop(t@, at, first) == stop(t@, at, j as int),
            decreases t.len() - j,
        {
            j += 1;
        }
        assert(j == stop_at(t@, grid@, k as int));
        r.push(
            if j == t.len() - 1 {
                Place::End
            } else if at.le(t[0]) {
                Place::Start
            } else {
                Place::Between(j)
            },
        );
        k += 1;
    }
    r
}

/// Linear resampling of `(t, y)` onto a grid: the first or last value outside
/// the samples, and within them what `blend` makes of a time and the sample
/// before it.
pub fn resample<F: Fn(Real, usize) -> Real>(
    t: &Vec<Real>,
    y: &Vec<Real>,
    grid: &Vec<Real>,
    blend: F,
) -> (r: Vec<Real>)
    requires
        t@.len() > 0,
        t@.len() <= y@.len(),
        forall|at: Real, j: usize| j + 1 < t@.len() ==> #[trigger] call_requires(blend, (at, j)),
    ensures
        r@.len() == grid@.len(),
        forall|k: int|
            0 <= k < r@.len() ==> match place_of(t@, grid@[k], stop_at(t@, grid@, k)) {
                Place::Start => #[trigger] r@[k] == y@[0],
                Place::End => r@[k] == y@[t@.len() - 1],
                Place::Between(j) => call_ensures(blend, (grid@[k], j), r@[k]),
            },
{
    let places: Vec<Place> = locate(t, grid);
    let mut r: Vec<Real> = Vec::new();
    let mut k: usize = 0;
    while k < grid.len()
        invariant
            k <= grid@.len(),
            t@.len() > 0,
            t@.len() <= y@.len(),
            places@.len() == grid@.len(),
            forall|at: Real, j: usize|
                j + 1 < t@.len() ==> #[trigger] call_requires(blend, (at, j)),
            forall|k: int|
                0 <= k < places@.len() ==> #[trigger] places@[k] == place_of(
                    t@,
                    grid@[k],
                    stop_at(t@, grid@, k),
                ),
            r@.len() == k,
            forall|i: int|
                0 <= i < k ==> match place_of(t@, grid@[i], stop_at(t@, grid@, i)) {
                    Place::Start => #[trigger] r@[i] == y@[0],
                    Place::End => r@[i] == y@[t@.len() - 1],
                    Place::Between(j) => call_ensures(blend, (grid@[i], j), r@[i]),
                },
        decreases grid.len() - k,
    {
        proof {
            lemma_stop(t@, grid@, k as int);
            assert(places@[k as int] == place_of(
                t@,
                grid@[k as int],
                stop_at(t@, grid@, k as int),
            ));
        }
        let v: Real = match places[k] {
            Place::Start => y[0],
            Place::End => y[t.len() - 1],
            Place::Between(j) => blend(grid[k], j),
        };
        r.push(v);
        k += 1;
    }
    r
}

proof fn lemma_stop_range(t: Seq<Real>, at: Real, j: int)
    requires
        0 <= j < t.len(),
    ensures
        j <= stop(t, at, j) < t.len(),
        !goes_on(t, at, stop(t, at, j)),
        stop(t, at, j) > j ==> t[stop(t, at, j)].below(at),
    decreases t.len() - j,
{
    if goes_on(t, at, j) {
        lemma_stop_range(t, at, j + 1);
    }
}

proof fn lemma_stop(t: Seq<Real>, grid: Seq<Real>, k: int)
    requires
        t.len() > 0,
        k < grid.len(),
    ensures
        0 <= stop_at(t, grid, k) < t.len(),
    decreases k + 1,
{
    if k >= 0 {
        lemma_stop(t, grid, k - 1);
        lemma_stop_range(t, grid[k], stop_at(t, grid, k - 1));
    }
}

pub open spec fn ascends(s: Seq<Real>) -> bool {
    &&& forall|i: int| 0 <= i < s.len() ==> !(#[trigger] s[i]).nan()
    &&& forall|i: int, j: int|
        0 <= i <= j < s.len() ==> (#[trigger] s[i]).order() <= (#[trigger] s[j]).order()
}

/// On ascending times and an ascending grid, a time that falls between two
/// samples does: it is after the one and not after the other.
pub proof fn law_places_bracket(t: Seq<Real>, grid: Seq<Real>, k: int)
    requires
        0 < t.len() <= usize::MAX,
        0 <= k < grid.len(),
        ascends(t),
        ascends(grid),
    ensures
        place_of(t, grid[k], stop_at(t, grid, k)) matches Place::Between(j) ==> j + 1 < t.len()
            && t[j as int].order() <= grid[k].order() <= t[j + 1].order(),
        place_of(t, grid[k], stop_at(t, grid, k)) is Start ==> grid[k].order() <= t[0].order(),
        place_of(t, grid[k], stop_at(t, grid, k)) is End && t.len() > 1 ==> t.last().order()
            <= grid[k].order(),
{
    lemma_stop(t, grid, k);
    lemma_behind(t, grid, k);
    lemma_stop(t, grid, k - 1);
    lemma_stop_range(t, grid[k], stop_at(t, grid, k - 1));
    let j = stop_at(t, grid, k);
    assert(!t[j].nan() && !t[0].nan() && !grid[k].nan());
    if j + 1 < t.len() {
        assert(!t[j + 1].nan());
        if !grid[k].at_most(t[0]) {
            assert(t[0].order() < grid[k].order());
        }
    }
}

/// The sample at which a search stopped is the first one or before the time.
proof fn lemma_behind(t: Seq<Real>, grid: Seq<Real>, k: int)
    requires
        t.len() > 0,
        k < grid.len(),
        ascends(t),
        ascends(grid),
    ensures
        stop_at(t, grid, k) == 0 || (k >= 0 && t[stop_at(t, grid, k)].order() < grid[k].order()),
    decreases k + 1,
{
    if k >= 0 {
        lemma_behind(t, grid, k - 1);
        lemma_stop(t, grid, k - 1);
        let j = stop_at(t, grid, k - 1);
        lemma_stop_range(t, grid[k], j);
        if k > 0 {
            assert(grid[k - 1].order() <= grid[k].order());
        }
    }
}

// ---- reading files ----

/// A data row of a signal file.
#[derive(Clone, Debug)]
pub struct TsvRow {
    /// Number of the line, from 1.
    pub number: usize,
    pub line: String,
    /// The first two words of the line.
    pub time: Option<String>,
    pub value: Option<String>,
}

/// Whether a line of a signal file is skipped: it is blank or a comment (`#`).
pub open spec fn is_skipped(raw: Seq<char>) -> bool {
    trim(raw).len() == 0 || trim(raw)[0] == '#'
}

/// The data rows among the first `k` lines: number and trimmed text.
pub open spec fn data_rows(lines: Seq<Seq<char>>, k: int) -> Seq<(int, Seq<char>)>
    decreases k,
{
    if k <= 0 {
        Seq::empty()
    } else {
        let before = data_rows(lines, k - 1);
        if is_skipped(lines[k - 1]) {
            before
        } else {
            before.push((k, trim(lines[k - 1])))
        }
    }
}

/// Word `i` of a line, if there is one.
pub open spec fn word_at(line: Seq<char>, i: int) -> Option<Seq<char>> {
    if i < words(line).0.len() {
        Some(words(line).0[i])
    } else {
        None
    }
}

pub open spec fn opt_view(s: Option<String>) -> Option<Seq<char>> {
    match s {
        Some(v) => Some(v@),
        None => None,
    }
}

/// Whether a row is that of a line.
pub open spec fn is_row(r: TsvRow, row: (int, Seq<char>)) -> bool {
    &&& r.number == row.0
    &&& r.line@ == row.1
    &&& opt_view(r.time) == word_at(row.1, 0)
    &&& opt_view(r.value) == word_at(row.1, 1)
}

/// The data rows of a signal file: `time<TAB>value`, also with commas or other
/// white space between the two.
pub fn tsv_rows(text: &str) -> (r: Vec<TsvRow>)
    ensures
        ({
            let lines = split(text@, '\n');
            let rows = data_rows(lines, lines.len() as int);
            r@.len() == rows.len() && forall|i: int|
                0 <= i < r@.len() ==> is_row(#[trigger] r@[i], rows[i])
        }),
{
    let lines: Vec<Vec<char>> = pieces(&chars_of(text), '\n');
    let ghost all = split(text@, '\n');
    let mut r: Vec<TsvRow> = Vec::new();
    let mut k: usize = 0;
    assert(texts(lines@).len() == lines@.len());
    while k < lines.len()
        invariant
            k <= lines@.len(),
            all == texts(lines@),
            r@.len() == data_rows(all, k as int).len(),
            forall|i: int|
                0 <= i < r@.len() ==> is_row(#[trigger] r@[i], data_rows(all, k as int)[i]),
        decreases lines.len() - k,
    {
        assert(all[k as int] == lines@[k as int]@);
        let line: Vec<char> = trimmed(&lines[k]);
        if !(line.len() == 0 || line[0] == '#') {
            let w: Vec<Vec<char>> = words_of(&line);
            assert(texts(w@).len() == w@.len());
            let time: Option<String> = if w.len() > 0 {
                assert(texts(w@)[0] == w@[0]@);
                Some(string_of(&w[0]))
            } else {
                None
            };
            let value: Option<String> = if w.len() > 1 {
                assert(texts(w@)[1] == w@[1]@);
                Some(string_of(&w[1]))
            } else {
                None
            };
            r.push(TsvRow { number: k + 1, line: string_of(&line), time, value });
        }
        k += 1;
    }
    r
}

/// Why a signal file is refused.
#[derive(Clone, Debug)]
pub enum SignalError {
    BadTime { number: usize, line: String },
    BadValue { number: usize, line: String },
    TooShort,
}

impl SignalError {
    pub open spec fn text(self) -> Seq<char> {
        match self {
            SignalError::BadTime { number, line } => "line "@ + decimal(number as nat)
                + ": bad time '"@ + line@ + "'"@,
            SignalError::BadValue { number, line } => "line "@ + decimal(number as nat)
                + ": bad value '"@ + line@ + "'"@,
            SignalError::TooShort => "signal has fewer than 4 samples at t >= 0"@,
        }
    }

    /// The message shown to the user.
    pub fn message(&self) -> (s: String)
        ensures
            s@ == self.text(),
    {
        match self {
            SignalError::BadTime { number, line } => {
                let mut s: String = "line ".to_string();
                push_decimal(&mut s, *number);
                s.append(": bad time '");
                s.append(line);
                s.append("'");
                s
            },
            SignalError::BadValue { number, line } => {
                let mut s: String = "line ".to_string();
                push_decimal(&mut s, *number);
                s.append(": bad value '");
                s.append(line);
                s.append("'");
                s
            },
            SignalError::TooShort => "signal has fewer than 4 samples at t >= 0".to_string(),
        }
    }
}

/// Encoding of the time before which samples are dropped, -1e-12 s.
pub const FIRST_TIME: u64 = 0xbd71_9799_812d_ea11;

/// What the rows of a file give: the kept samples, or the first row that has no
/// time or no value.
pub enum TsvStep {
    Going(Seq<Real>, Seq<Real>),
    BadTime(int),
    BadValue(int),
}

/// What the first `k` rows give, with the numbers that their two words spell.
/// Samples before contact are dropped.
pub open spec fn after_rows(numbers: Seq<(Option<Real>, Option<Real>)>, k: int) -> TsvStep
    decreases k,
{
    if k <= 0 {
        TsvStep::Going(Seq::empty(), Seq::empty())
    } else {
        match after_rows(numbers, k - 1) {
            TsvStep::Going(time, accel) => match numbers[k - 1] {
                (None, _) => TsvStep::BadTime(k - 1),
                (Some(_), None) => TsvStep::BadValue(k - 1),
                (Some(t), Some(a)) => if t.below(Real { bits: FIRST_TIME }) {
                    TsvStep::Going(time, accel)
                } else {
                    TsvStep::Going(time.push(t), accel.push(a))
                },
            },
            stopped => stopped,
        }
    }
}

proof fn lemma_rows_stopped(numbers: Seq<(Option<Real>, Option<Real>)>, k: int, n: int)
    requires
        0 <= k <= n,
        !(after_rows(numbers, k) is Going),
    ensures
        after_rows(numbers, n) == after_rows(numbers, k),
    decreases n,
{
    if k < n {
        lemma_rows_stopped(numbers, k, n - 1);
    }
}

impl Pulse {
    /// There is a value for every time.
    pub open spec fn wf(self) -> bool {
        self.time@.len() == self.accel@.len()
    }

    /// The pulse of a file's rows, given the numbers that their words spell
    /// (the value in m/s²).
    pub fn parse_tsv(rows: &Vec<TsvRow>, numbers: &Vec<(Option<Real>, Option<Real>)>) -> (r: Result<
        Pulse,
        SignalError,
    >)
        requires
            rows@.len() == numbers@.len(),
        ensures
            match after_rows(numbers@, numbers@.len() as int) {
                TsvStep::Going(time, accel) => if time.len() < 4 {
                    r matches Err(SignalError::TooShort)
                } else {
                    r matches Ok(p) && p.time@ == time && p.accel@ == accel && p.wf()
                },
                TsvStep::BadTime(i) => r matches Err(SignalError::BadTime { number, line })
                    && number == rows@[i].number && line@ == rows@[i].line@,
                TsvStep::BadValue(i) => r matches Err(SignalError::BadValue { number, line })
                    && number == rows@[i].number && line@ == rows@[i].line@,
            },
    {
        let mut time: Vec<Real> = Vec::new();
        let mut accel: Vec<Real> = Vec::new();
        let first: Real = Real { bits: FIRST_TIME };
        let mut k: usize = 0;
        while k < numbers.len()
            invariant
                k <= numbers@.len(),
                rows@.len() == numbers@.len(),
                first == (Real { bits: FIRST_TIME }),
                time@.len() == accel@.len(),
                after_rows(numbers@, k as int) == TsvStep::Going(time@, accel@),
            decreases numbers.len() - k,
        {
            match numbers[k] {
                (None, _) => {
                    proof {
                        assert(after_rows(numbers@, k + 1) == TsvStep::BadTime(k as int));
                        lemma_rows_stopped(numbers@, k + 1, numbers@.len() as int);
                    }
                    return Err(
                        SignalError::BadTime { number: rows[k].number, line: rows[k].line.clone() },
                    );
                },
                (Some(_), None) => {
                    proof {
                        assert(after_rows(numbers@, k + 1) == TsvStep::BadValue(k as int));
                        lemma_rows_stopped(numbers@, k + 1, numbers@.len() as int);
                    }
                    return Err(
                        SignalError::BadValue {
                            number: rows[k].number,
                            line: rows[k].line.clone(),
                        },
                    );
                },
                (Some(t), Some(a)) => {
                    if !t.lt(first) {
                        time.push(t);
                        accel.push(a);
                    }
                },
            }
            k += 1;
        }
        if time.len() < 4 {
            Err(SignalError::TooShort)
        } else {
            Ok(Pulse { time, accel })
        }
    }
}

/// The kept samples of a file are those of rows not before contact: none is
/// before it.
pub proof fn law_no_sample_before_contact(
    numbers: Seq<(Option<Real>, Option<Real>)>,
    k: int,
    i: int,
)
    requires
        0 <= k <= numbers.len(),
        after_rows(numbers, k) matches TsvStep::Going(time, _) && 0 <= i < time.len(),
    ensures
        after_rows(numbers, k) matches TsvStep::Going(time, accel) && time.len() == accel.len()
            && !time[i].below(Real { bits: FIRST_TIME }),
    decreases k,
{
    if k > 0 {
        lemma_equal_lengths(numbers, k);
        lemma_equal_lengths(numbers, k - 1);
        let before = after_rows(numbers, k - 1);
        if before matches TsvStep::Going(time, _) && i < time.len() {
            law_no_sample_before_contact(numbers, k - 1, i);
        }
    }
}

proof fn lemma_equal_lengths(numbers: Seq<(Option<Real>, Option<Real>)>, k: int)
    ensures
        after_rows(numbers, k) matches TsvStep::Going(time, accel) ==> time.len() == accel.len(),
    decreases k,
{
    if k > 0 {
        lemma_equal_lengths(numbers, k - 1);
    }
}

/// The names of the files of a comma-separated list.
pub fn file_list(list: &str) -> (r: Vec<String>)
    ensures
        r@.len() == split(list@, ',').len(),
        forall|i: int| 0 <= i < r@.len() ==> (#[trigger] r@[i])@ == trim(split(list@, ',')[i]),
{
    let p: Vec<Vec<char>> = pieces(&chars_of(list), ',');
    let ghost all = split(list@, ',');
    assert(texts(p@).len() == p@.len());
    let mut r: Vec<String> = Vec::new();
    let mut i: usize = 0;
    while i < p.len()
        invariant
            i <= p@.len(),
            all == texts(p@),
            r@.len() == i,
            forall|k: int| 0 <= k < i ==> (#[trigger] r@[k])@ == trim(all[k]),
        decreases p.len() - i,
    {
        assert(all[i as int] == p@[i as int]@);
        r.push(string_of(&trimmed(&p[i])));
        i += 1;
    }
    r
}


// ---- simulated pulses ----

/// Why there is no pulse of an accelerometer.
#[derive(Clone, Debug)]
pub enum HistoryError {
    NoAccelerometer(String),
    NoNodes,
    Empty,
}

impl HistoryError {
    pub open spec fn text(self) -> Seq<char> {
        match self {
            HistoryError::NoAccelerometer(name) => "no accelerometer '"@ + name@ + "'"@,
            HistoryError::NoNodes => "accelerometer has no nodes"@,
            HistoryError::Empty => "accelerometer history is empty (set history_steps)"@,
        }
    }

    /// The message shown to the user.
    pub fn message(&self) -> (s: String)
        ensures
            s@ == self.text(),
    {
        match self {
            HistoryError::NoAccelerometer(name) => {
                let mut s: String = "no accelerometer '".to_string();
                s.append(name);
                s.append("'");
                s
            },
            HistoryError::NoNodes => "accelerometer has no nodes".to_string(),
            HistoryError::Empty =>
            "accelerometer history is empty (set history_steps)".to_string(),
        }
    }
}

/// Whether accelerometer `k` is the first of a name.
pub open spec fn is_first_of(accelerometers: Seq<Accelerometer>, name: Seq<char>, k: int) -> bool {
    &&& 0 <= k < accelerometers.len()
    &&& accelerometers[k].name@ == name
    &&& forall|i: int| 0 <= i < k ==> (#[trigger] accelerometers[i]).name@ != name
}

/// Whether row `i` of a history is a sample of a node of an accelerometer.
pub open spec fn is_sample_of(h: NodeHistory, k: usize, node: usize, i: int) -> bool {
    h.accelerometer@[i] == k && h.node@[i] == node
}

/// The times of the samples of a node of an accelerometer among the first `n`
/// rows of a history, and the accelerations along local x.
pub open spec fn samples_of(h: NodeHistory, k: usize, node: usize, n: int) -> (
    Seq<Real>,
    Seq<Real>,
)
    decreases n,
{
    if n <= 0 {
        (Seq::empty(), Seq::empty())
    } else {
        let (t, a) = samples_of(h, k, node, n - 1);
        if is_sample_of(h, k, node, n - 1) {
            (t.push(h.time@[n - 1]), a.push(h.local_acceleration@[n - 1]@[0]))
        } else {
            (t, a)
        }
    }
}

impl Pulse {
    /// The samples of a simulated accelerometer's local-x acceleration at its
    /// first node, as recorded.
    pub fn from_history(
        accelerometers: &Vec<Accelerometer>,
        h: &NodeHistory,
        accelerometer: &str,
    ) -> (r: Result<Pulse, HistoryError>)
        requires
            h.wf(),
        ensures
            match r {
                Err(HistoryError::NoAccelerometer(name)) => {
                    &&& name@ == accelerometer@
                    &&& forall|k: int|
                        0 <= k < accelerometers@.len() ==> (#[trigger] accelerometers@[k]).name@
                            != accelerometer@
                },
                Err(HistoryError::NoNodes) => exists|k: int| #[trigger]
                    is_first_of(accelerometers@, accelerometer@, k)
                        && accelerometers@[k].nodes@.len() == 0,
                Err(HistoryError::Empty) => exists|k: int| #[trigger]
                    is_first_of(accelerometers@, accelerometer@, k)
                        && accelerometers@[k].nodes@.len() > 0 && samples_of(
                        *h,
                        k as usize,
                        accelerometers@[k].nodes@[0],
                        h.time@.len() as int,
                    ).0.len() < 4,
                Ok(p) => p.wf() && p.time@.len() >= 4 && exists|k: int| #[trigger]
                    is_first_of(accelerometers@, accelerometer@, k)
                        && accelerometers@[k].nodes@.len() > 0 && (p.time@, p.accel@)
                        == samples_of(
                        *h,
                        k as usize,
                        accelerometers@[k].nodes@[0],
                        h.time@.len() as int,
                    ),
            },
    {
        let mut k: usize = 0;
        while k < accelerometers.len() && !same_text(&accelerometers[k].name, accelerometer)
            invariant
                k <= accelerometers@.len(),
                forall|i: int|
                    0 <= i < k ==> (#[trigger] accelerometers@[i]).name@ != accelerometer@,
            decreases accelerometers.len() - k,
        {
            k += 1;
        }
        if k == accelerometers.len() {
            return Err(HistoryError::NoAccelerometer(accelerometer.to_string()));
        }
        assert(is_first_of(accelerometers@, accelerometer@, k as int));
        if accelerometers[k].nodes.len() == 0 {
            return Err(HistoryError::NoNodes);
        }
        let node: usize = accelerometers[k].nodes[0];
        let mut time: Vec<Real> = Vec::new();
        let mut accel: Vec<Real> = Vec::new();
        let mut i: usize = 0;
        while i < h.time.len()
            invariant
                i <= h.time@.len(),
                h.wf(),
                time@.len() == accel@.len(),
                (time@, accel@) == samples_of(*h, k, node, i as int),
            decreases h.time.len() - i,
        {
            if h.accelerometer[i] == k && h.node[i] == node {
                time.push(h.time[i]);
                accel.push(h.local_acceleration[i][0]);
            }
            i += 1;
        }
        if time.len() < 4 {
            return Err(HistoryError::Empty);
        }
        Ok(Pulse { time, accel })
    }

    /// The pulse in the sign convention in which a crash deceleration is
    /// negative: turned around where its net velocity change `dv` is positive.
    pub fn forward(&self, dv: Real) -> (r: Pulse)
        ensures
            r.time@ == self.time@,
            r.accel@.len() == self.accel@.len(),
            forall|i: int|
                0 <= i < self.accel@.len() ==> #[trigger] r.accel@[i] == if Real::spec_zero().below(
                    dv,
                ) {
                    self.accel@[i].negated()
                } else {
                    self.accel@[i]
                },
    {
        let turn: bool = Real::zero().lt(dv);
        let mut accel: Vec<Real> = Vec::new();
        let mut i: usize = 0;
        while i < self.accel.len()
            invariant
                i <= self.accel@.len(),
                turn == Real::spec_zero().below(dv),
                accel@.len() == i,
                forall|k: int|
                    0 <= k < i ==> #[trigger] accel@[k] == if turn {
                        self.accel@[k].negated()
                    } else {
                        self.accel@[k]
                    },
            decreases self.accel.len() - i,
        {
            accel.push(
                if turn {
                    self.accel[i].neg()
                } else {
                    self.accel[i]
                },
            );
            i += 1;
        }
        Pulse { time: copy_reals(&self.time, self.time.len()), accel }
    }

    /// How many samples come before the first after a time.
    pub open spec fn lead_in(self, limit: Real, n: int) -> bool {
        &&& 0 <= n <= self.time@.len()
        &&& forall|i: int| 0 <= i < n ==> (#[trigger] self.time@[i]).at_most(limit)
        &&& n < self.time@.len() ==> !self.time@[n].at_most(limit)
    }

    /// The samples before the first that is after a time.
    pub fn truncated(&self, limit: Real) -> (r: Pulse)
        requires
            self.wf(),
        ensures
            r.wf(),
            self.lead_in(limit, r.time@.len() as int),
            r.time@ == self.time@.take(r.time@.len() as int),
            r.accel@ == self.accel@.take(r.time@.len() as int),
    {
        let mut n: usize = 0;
        while n < self.time.len() && self.time[n].le(limit)
            invariant
                n <= self.time@.len(),
                forall|i: int| 0 <= i < n ==> (#[trigger] self.time@[i]).at_most(limit),
            decreases self.time.len() - n,
        {
            n += 1;
        }
        Pulse { time: copy_reals(&self.time, n), accel: copy_reals(&self.accel, n) }
    }
}

/// The first `n` numbers of a list.
fn copy_reals(v: &Vec<Real>, n: usize) -> (r: Vec<Real>)
    requires
        n <= v@.len(),
    ensures
        r@ == v@.take(n as int),
        n == v@.len() ==> r@ == v@,
{
    let mut r: Vec<Real> = Vec::new();
    let mut i: usize = 0;
    while i < n
        invariant
            i <= n <= v@.len(),
            r@ =~= v@.take(i as int),
        decreases n - i,
    {
        r.push(v[i]);
        i += 1;
    }
    r
}

/// Turning a pulse around twice gives it back.
pub proof fn law_turning_twice(a: Real)
    ensures
        a.negated().negated() == a,
{
}

// ---- pulse metrics ----

/// Position and value of the greatest of the first `n` numbers above zero, the
/// first of equals; position 0 and zero where there is none.
pub open spec fn crest(x: Seq<Real>, n: int) -> (int, Real)
    decreases n,
{
    if n <= 0 {
        (0, Real::spec_zero())
    } else {
        let (i, m) = crest(x, n - 1);
        if m.below(x[n - 1]) {
            (n - 1, x[n - 1])
        } else {
            (i, m)
        }
    }
}

/// When the crush is greatest, and how great it is then.
pub fn max_crush(x: &Vec<Real>) -> (r: (usize, Real))
    ensures
        r.0 == crest(x@, x@.len() as int).0,
        r.1 == crest(x@, x@.len() as int).1,
        x@.len() > 0 ==> r.0 < x@.len(),
{
    let mut at: usize = 0;
    let mut m: Real = Real::zero();
    let mut i: usize = 0;
    while i < x.len()
        invariant
            i <= x@.len(),
            at == crest(x@, i as int).0,
            m == crest(x@, i as int).1,
            at == 0 || at < i,
        decreases x.len() - i,
    {
        if m.lt(x[i]) {
            at = i;
            m = x[i];
        }
        i += 1;
    }
    (at, m)
}

/// The greatest crush is at least every crush of the record, and is reached
/// where it is said to be, unless no crush is above zero.
pub proof fn law_max_crush_is_greatest(x: Seq<Real>, n: int, k: int)
    requires
        0 <= k < n <= x.len(),
        forall|i: int| 0 <= i < x.len() ==> !(#[trigger] x[i]).nan(),
    ensures
        x[k].order() <= crest(x, n).1.order(),
        0 <= crest(x, n).1.order(),
        0 < crest(x, n).1.order() ==> 0 <= crest(x, n).0 < n && x[crest(x, n).0] == crest(x, n).1,
    decreases n,
{
    lemma_crest(x, n - 1);
    assert(!x[n - 1].nan());
    if k < n - 1 {
        law_max_crush_is_greatest(x, n - 1, k);
    }
}

proof fn lemma_crest(x: Seq<Real>, n: int)
    requires
        0 <= n <= x.len(),
        forall|i: int| 0 <= i < x.len() ==> !(#[trigger] x[i]).nan(),
    ensures
        !crest(x, n).1.nan(),
        0 <= crest(x, n).1.order(),
        0 < crest(x, n).1.order() ==> 0 <= crest(x, n).0 < n && x[crest(x, n).0] == crest(x, n).1,
    decreases n,
{
    if n > 0 {
        lemma_crest(x, n - 1);
        assert(!x[n - 1].nan());
    }
}

/// Least velocity of a record and its most negative acceleration (or zero).
pub fn extremes(v: &Vec<Real>, accel: &Vec<Real>) -> (r: (Real, Real))
    ensures
        r.0 == least_from(Real::spec_infinity(), v@),
        r.1 == least_from(Real::spec_zero(), accel@),
{
    (fold_min(Real::infinity(), v), fold_min(Real::zero(), accel))
}

/// How a stretch between two samples counts towards the energy absorbed up to a
/// crush.
#[derive(Clone, Copy, Debug, PartialEq, Eq, Structural)]
pub enum Stretch {
    /// It does not go forward, and is passed over.
    Skipped,
    /// It lies before the crush.
    Whole,
    /// The crush falls within it, and nothing after it counts.
    Part,
    /// It lies beyond the crush, and so does all that follows.
    Beyond,
}

pub open spec fn stretch_of(c0: Real, c1: Real, d: Real) -> Stretch {
    if c1.at_most(c0) {
        Stretch::Skipped
    } else if c1.at_most(d) {
        Stretch::Whole
    } else if c0.below(d) {
        Stretch::Part
    } else {
        Stretch::Beyond
    }
}

/// The stretches that count towards the energy absorbed up to a crush.
#[derive(Clone, Debug)]
pub struct EnergyPlan {
    /// Those that count whole, by their first sample.
    pub whole: Vec<usize>,
    /// The one that counts up to the crush.
    pub part: Option<usize>,
}

/// Whether the stretches before `k` all lie before the crush or are passed
/// over.
pub open spec fn open_until(crush: Seq<Real>, d: Real, k: int) -> bool {
    forall|i: int|
        0 <= i < k ==> {
            let s = #[trigger] stretch_of(crush[i], crush[i + 1], d);
            s is Whole || s is Skipped
        }
}

/// The stretches before `k` that count whole.
pub open spec fn whole_before(crush: Seq<Real>, d: Real, k: int) -> Seq<usize>
    decreases k,
{
    if k <= 0 {
        Seq::empty()
    } else {
        let before = whole_before(crush, d, k - 1);
        if stretch_of(crush[k - 1], crush[k], d) is Whole {
            before.push((k - 1) as usize)
        } else {
            before
        }
    }
}

/// The first stretch that the crush falls within or that lies beyond it; the
/// number of stretches where there is none.
pub open spec fn is_cut(crush: Seq<Real>, d: Real, k: int) -> bool {
    &&& 0 <= k
    &&& k + 1 <= crush.len() || (k == 0 && crush.len() == 0)
    &&& open_until(crush, d, k)
    &&& k + 1 < crush.len() ==> {
        let s = stretch_of(crush[k], crush[k + 1], d);
        s is Part || s is Beyond
    }
}

/// The stretches of a force-crush record that count towards the energy
/// absorbed up to crush `d`: whole ones up to the first that goes past it, and
/// of that one the part before.
pub fn energy_plan(crush: &Vec<Real>, d: Real) -> (r: EnergyPlan)
    ensures
        exists|k: int|
            {
                &&& #[trigger] is_cut(crush@, d, k)
                &&& r.whole@ == whole_before(crush@, d, k)
                &&& r.part == if k + 1 < crush@.len() && stretch_of(
                    crush@[k],
                    crush@[k + 1],
                    d,
                ) is Part {
                    Some(k as usize)
                } else {
                    None
                }
            },
{
    let mut whole: Vec<usize> = Vec::new();
    if crush.len() == 0 {
        assert(is_cut(crush@, d, 0));
        return EnergyPlan { whole, part: None };
    }
    let mut k: usize = 0;
    while k < crush.len() - 1
        invariant
            0 < crush@.len(),
            k <= crush@.len() - 1,
            open_until(crush@, d, k as int),
            whole@ == whole_before(crush@, d, k as int),
        decreases crush.len() - k,
    {
        let (c0, c1): (Real, Real) = (crush[k], crush[k + 1]);
        if !c1.le(c0) {
            if c1.le(d) {
                whole.push(k);
            } else {
                assert(is_cut(crush@, d, k as int));
                let part: Option<usize> = if c0.lt(d) {
                    Some(k)
                } else {
                    None
                };
                return EnergyPlan { whole, part };
            }
        }
        k += 1;
    }
    assert(is_cut(crush@, d, k as int));
    EnergyPlan { whole, part: None }
}

/// The samples among the first `n` whose crush lies within a window.
pub open spec fn in_window(crush: Seq<Real>, x0: Real, x1: Real, n: int) -> Seq<usize>
    decreases n,
{
    if n <= 0 {
        Seq::empty()
    } else {
        let before = in_window(crush, x0, x1, n - 1);
        if x0.at_most(crush[n - 1]) && crush[n - 1].at_most(x1) {
            before.push((n - 1) as usize)
        } else {
            before
        }
    }
}

/// The samples whose crush lies within a window, where there are at least two.
pub fn crush_window(crush: &Vec<Real>, x0: Real, x1: Real) -> (r: Option<Vec<usize>>)
    ensures
        match r {
            Some(v) => v@ == in_window(crush@, x0, x1, crush@.len() as int) && v@.len() >= 2,
            None => in_window(crush@, x0, x1, crush@.len() as int).len() < 2,
        },
        r matches Some(v) ==> forall|i: int| 0 <= i < v@.len() ==> #[trigger] v@[i] < crush@.len(),
{
    let mut v: Vec<usize> = Vec::new();
    let mut i: usize = 0;
    while i < crush.len()
        invariant
            i <= crush@.len(),
            v@ == in_window(crush@, x0, x1, i as int),
            forall|k: int| 0 <= k < v@.len() ==> #[trigger] v@[k] < i,
        decreases crush.len() - i,
    {
        if x0.le(crush[i]) && crush[i].le(x1) {
            v.push(i);
        }
        i += 1;
    }
    if v.len() < 2 {
        None
    } else {
        Some(v)
    }
}

/// Samples reflected about each end of a signal of `n` samples before it is
/// filtered, at most all but the end one and at least one.
pub open spec fn padding(wanted: int, n: int) -> int {
    if n == 1 || wanted == 0 {
        1
    } else if wanted < n - 1 {
        wanted
    } else {
        n - 1
    }
}

/// Samples reflected about each end of a signal of `n` samples.
pub fn filter_padding(wanted: usize, n: usize) -> (pad: usize)
    requires
        n > 0,
    ensures
        pad == padding(wanted as int, n as int),
        n > 1 ==> 1 <= pad < n,
{
    let p: usize = if wanted < n - 1 {
        wanted
    } else {
        n - 1
    };
    if p < 1 {
        1
    } else {
        p
    }
}

// ---- integration and filtering ----

/// Running integral over `n` samples: it starts at `start`, and `next` gives
/// its value at a sample from that at the sample before.
pub fn integrate<T: Copy, F: Fn(T, usize) -> T>(n: usize, start: T, next: F) -> (r: Vec<T>)
    requires
        forall|x: T, i: usize| #[trigger] call_requires(next, (x, i)),
    ensures
        r@.len() == if n == 0 {
            1
        } else {
            n
        },
        r@[0] == start,
        forall|i: int| 1 <= i < r@.len() ==> call_ensures(next, (r@[i - 1], i as usize), #[trigger] r@[i]),
{
    let mut r: Vec<T> = Vec::new();
    let mut last: T = start;
    r.push(last);
    let mut i: usize = 1;
    while i < n
        invariant
            i == r@.len(),
            1 <= i,
            i <= n || i == 1,
            r@[0] == start,
            last == r@[i - 1],
            forall|x: T, i: usize| #[trigger] call_requires(next, (x, i)),
            forall|k: int|
                1 <= k < i ==> call_ensures(next, (r@[k - 1], k as usize), #[trigger] r@[k]),
        decreases n - i,
    {
        last = next(last, i);
        r.push(last);
        i += 1;
    }
    r
}

/// A signal with `pad` samples before and after it, each its mirror image about
/// the end: `mirror` gives the image of the second about the first.
pub open spec fn is_padded<T, M: Fn(T, T) -> T>(
    x: Seq<T>,
    pad: int,
    mirror: M,
    e: Seq<T>,
) -> bool {
    let n = x.len();
    &&& e.len() == n + 2 * pad
    &&& forall|i: int| 0 <= i < pad ==> call_ensures(mirror, (x[0], x[pad - i]), #[trigger] e[i])
    &&& forall|i: int| pad <= i < pad + n ==> #[trigger] e[i] == x[i - pad]
    &&& forall|i: int|
        pad + n <= i < n + 2 * pad ==> call_ensures(
            mirror,
            (x[n - 1], x[2 * n - 2 + pad - i]),
            #[trigger] e[i],
        )
}

/// A signal run through a filter of second order: the first two samples stay,
/// and `step` gives each of the others from three samples in and two out, the
/// latest first.
pub open spec fn is_run_through<T, S: Fn([T; 3], [T; 2]) -> T>(
    e: Seq<T>,
    step: S,
    y: Seq<T>,
) -> bool {
    &&& y.len() == e.len()
    &&& y[0] == e[0]
    &&& y[1] == e[1]
    &&& forall|i: int|
        2 <= i < y.len() ==> call_ensures(
            step,
            ([e[i], e[i - 1], e[i - 2]], [y[i - 1], y[i - 2]]),
            #[trigger] y[i],
        )
}

/// One pass of a filter over a signal: padded, run through, and cut to length.
pub open spec fn is_pass<T, M: Fn(T, T) -> T, S: Fn([T; 3], [T; 2]) -> T>(
    x: Seq<T>,
    pad: int,
    mirror: M,
    step: S,
    e: Seq<T>,
    y: Seq<T>,
    r: Seq<T>,
) -> bool {
    &&& is_padded(x, pad, mirror, e)
    &&& is_run_through(e, step, y)
    &&& r == y.subrange(pad, pad + x.len())
}

/// One pass of a filter over a signal, and what comes of it back to front.
fn pass_reversed<T: Copy, M: Fn(T, T) -> T, S: Fn([T; 3], [T; 2]) -> T>(
    x: &Vec<T>,
    pad: usize,
    mirror: &M,
    step: &S,
) -> (r: Vec<T>)
    requires
        x@.len() >= 4,
        1 <= pad < x@.len(),
        x@.len() + 2 * pad <= usize::MAX,
        forall|a: T, b: T| #[trigger] call_requires(*mirror, (a, b)),
        forall|a: [T; 3], b: [T; 2]| #[trigger] call_requires(*step, (a, b)),
    ensures
        r@.len() == x@.len(),
        exists|e: Seq<T>, y: Seq<T>| #[trigger]
            is_pass(x@, pad as int, *mirror, *step, e, y, r@.reverse()),
{
    let n: usize = x.len();
    let mut e: Vec<T> = Vec::new();
    let mut i: usize = 0;
    while i < pad
        invariant
            i <= pad,
            n == x@.len(),
            pad < n,
            forall|a: T, b: T| #[trigger] call_requires(*mirror, (a, b)),
            e@.len() == i,
            forall|k: int|
                0 <= k < i ==> call_ensures(*mirror, (x@[0], x@[pad - k]), #[trigger] e@[k]),
        decreases pad - i,
    {
        let m: T = mirror(x[0], x[pad - i]);
        e.push(m);
        i += 1;
    }
    let mut i: usize = 0;
    while i < n
        invariant
            i <= n,
            n == x@.len(),
            pad < n,
            n + 2 * pad <= usize::MAX,
            e@.len() == pad + i,
            forall|k: int|
                0 <= k < pad ==> call_ensures(*mirror, (x@[0], x@[pad - k]), #[trigger] e@[k]),
            forall|k: int| pad <= k < pad + i ==> #[trigger] e@[k] == x@[k - pad],
        decreases n - i,
    {
        e.push(x[i]);
        i += 1;
    }
    let mut i: usize = 1;
    while i <= pad
        invariant
            1 <= i <= pad + 1,
            n == x@.len(),
            pad < n,
            n + 2 * pad <= usize::MAX,
            forall|a: T, b: T| #[trigger] call_requires(*mirror, (a, b)),
            e@.len() == pad + n + (i - 1),
            forall|k: int|
                0 <= k < pad ==> call_ensures(*mirror, (x@[0], x@[pad - k]), #[trigger] e@[k]),
            forall|k: int| pad <= k < pad + n ==> #[trigger] e@[k] == x@[k - pad],
            forall|k: int|
                pad + n <= k < pad + n + (i - 1) ==> call_ensures(
                    *mirror,
                    (x@[n - 1], x@[2 * n - 2 + pad - k]),
                    #[trigger] e@[k],
                ),
        decreases pad + 1 - i,
    {
        let m: T = mirror(x[n - 1], x[n - 1 - i]);
        e.push(m);
        i += 1;
    }
    assert(is_padded(x@, pad as int, *mirror, e@));
    let total: usize = e.len();
    let mut y: Vec<T> = Vec::new();
    y.push(e[0]);
    y.push(e[1]);
    let mut i: usize = 2;
    while i < total
        invariant
            2 <= i <= total,
            total == e@.len(),
            y@.len() == i,
            forall|a: [T; 3], b: [T; 2]| #[trigger] call_requires(*step, (a, b)),
            y@[0] == e@[0],
            y@[1] == e@[1],
            forall|k: int|
                2 <= k < i ==> call_ensures(
                    *step,
                    ([e@[k], e@[k - 1], e@[k - 2]], [y@[k - 1], y@[k - 2]]),
                    #[trigger] y@[k],
                ),
        decreases total - i,
    {
        let ghost was = y@;
        let inputs: [T; 3] = [e[i], e[i - 1], e[i - 2]];
        let outputs: [T; 2] = [y[i - 1], y[i - 2]];
        let z: T = step(inputs, outputs);
        y.push(z);
        assert forall|k: int| 2 <= k < i + 1 implies call_ensures(
            *step,
            ([e@[k], e@[k - 1], e@[k - 2]], [y@[k - 1], y@[k - 2]]),
            #[trigger] y@[k],
        ) by {
            if k < i {
                assert(y@[k] == was[k]);
            } else {
                assert(inputs@ =~= [e@[k], e@[k - 1], e@[k - 2]]@);
                assert(outputs@ =~= [y@[k - 1], y@[k - 2]]@);
            }
        }
        i += 1;
    }
    let mut r: Vec<T> = Vec::new();
    let mut i: usize = 0;
    while i < n
        invariant
            i <= n,
            pad < n,
            total == n + 2 * pad,
            total == y@.len(),
            r@.len() == i,
            forall|k: int| 0 <= k < i ==> #[trigger] r@[k] == y@[pad + n - 1 - k],
        decreases n - i,
    {
        r.push(y[pad + (n - 1 - i)]);
        i += 1;
    }
    assert(r@.reverse() =~= y@.subrange(pad as int, pad + n));
    assert(is_pass(x@, pad as int, *mirror, *step, e@, y@, r@.reverse()));
    r
}

/// Whether a signal is what one pass of a filter makes of another.
pub open spec fn passes<T, M: Fn(T, T) -> T, S: Fn([T; 3], [T; 2]) -> T>(
    x: Seq<T>,
    pad: int,
    mirror: M,
    step: S,
    r: Seq<T>,
) -> bool {
    exists|e: Seq<T>, y: Seq<T>| #[trigger] is_pass(x, pad, mirror, step, e, y, r)
}

/// Whether a signal is another filtered: one pass forwards and one backwards; as
/// it is where it has fewer than four samples.
pub open spec fn is_filtered<T, M: Fn(T, T) -> T, S: Fn([T; 3], [T; 2]) -> T>(
    x: Seq<T>,
    wanted: int,
    mirror: M,
    step: S,
    r: Seq<T>,
) -> bool {
    if x.len() < 4 {
        r == x
    } else {
        let pad = padding(wanted, x.len() as int);
        exists|forth: Seq<T>|
            #![trigger forth.reverse()]
            passes(x, pad, mirror, step, forth) && passes(
                forth.reverse(),
                pad,
                mirror,
                step,
                r.reverse(),
            )
    }
}

/// A signal filtered without a shift in time: one pass forwards and one
/// backwards. `wanted` is the padding that the filter asks for. A signal of
/// fewer than four samples stays.
pub fn cfc_filter<T: Copy, M: Fn(T, T) -> T, S: Fn([T; 3], [T; 2]) -> T>(
    x: &Vec<T>,
    wanted: usize,
    mirror: M,
    step: S,
) -> (r: Vec<T>)
    requires
        3 * x@.len() <= usize::MAX,
        forall|a: T, b: T| #[trigger] call_requires(mirror, (a, b)),
        forall|a: [T; 3], b: [T; 2]| #[trigger] call_requires(step, (a, b)),
    ensures
        r@.len() == x@.len(),
        is_filtered(x@, wanted as int, mirror, step, r@),
{
    let n: usize = x.len();
    if n < 4 {
        let mut r: Vec<T> = Vec::new();
        let mut i: usize = 0;
        while i < n
            invariant
                i <= n,
                n == x@.len(),
                r@ =~= x@.take(i as int),
            decreases n - i,
        {
            r.push(x[i]);
            i += 1;
        }
        assert(r@ =~= x@);
        return r;
    }
    let pad: usize = filter_padding(wanted, n);
    let back: Vec<T> = pass_reversed(x, pad, &mirror, &step);
    let r: Vec<T> = pass_reversed(&back, pad, &mirror, &step);
    proof {
        let forth = back@.reverse();
        assert(forth.reverse() =~= back@);
        assert(passes(x@, pad as int, mirror, step, forth));
        assert(passes(forth.reverse(), pad as int, mirror, step, r@.reverse()));
    }
    r
}

/// The numbers that the samples of a signal stand for.
pub open spec fn values<T>(x: Seq<T>, value: spec_fn(T) -> real) -> Seq<real> {
    Seq::new(x.len(), |i: int| value(x[i]))
}

/// Whether the numbers of a signal are at most `s`.
pub open spec fn is_within<T>(x: Seq<T>, value: spec_fn(T) -> real, s: real) -> bool {
    forall|i: int| 0 <= i < x.len() ==> size(value(#[trigger] x[i])) <= s
}

/// Whether a mirror image is off by `t` at most, of numbers up to `limit`.
pub open spec fn mirrors_nearly<T, M: Fn(T, T) -> T>(
    mirror: M,
    value: spec_fn(T) -> real,
    t: real,
    limit: real,
) -> bool {
    forall|a: T, b: T, z: T| #[trigger]
        call_ensures(mirror, (a, b), z) && size(value(a)) <= limit && size(value(b)) <= limit
            ==> size(value(z) - (value(a) + value(a) - value(b))) <= t
}

/// Whether a step of a filter is off by `t` at most, of numbers up to `limit`.
pub open spec fn steps_nearly<T, S: Fn([T; 3], [T; 2]) -> T>(
    step: S,
    value: spec_fn(T) -> real,
    k: Coefficients,
    t: real,
    limit: real,
) -> bool {
    forall|b: [T; 3], a: [T; 2], z: T| #[trigger]
        call_ensures(step, (b, a), z) && is_within(b@, value, limit) && is_within(a@, value, limit)
            ==> size(
            value(z) - k.output(
                value(b@[0]),
                value(b@[1]),
                value(b@[2]),
                value(a@[0]),
                value(a@[1]),
            ),
        ) <= t
}

/// The samples of a padded signal, the images at its ends among them.
pub open spec fn padded_len(n: int, wanted: int) -> int {
    n + 2 * padding(wanted, n)
}

/// As far as sample `i`, a run through a filter is one of the numbers, and stays
/// within the swing of the filter.
proof fn lemma_run_is_near<T, S: Fn([T; 3], [T; 2]) -> T>(
    e: Seq<T>,
    step: S,
    y: Seq<T>,
    value: spec_fn(T) -> real,
    k: Coefficients,
    t: real,
    limit: real,
    s: real,
    i: int,
)
    requires
        e.len() >= 2,
        is_run_through(e, step, y),
        steps_nearly(step, value, k, t, limit),
        0 as real <= t,
        0 as real <= s,
        is_within(e, value, s + s + s + t),
        k.swing(e.len() as int, t, s) <= limit,
        0 <= i < y.len(),
    ensures
        forall|m: int| 0 <= m <= i ==> size(value(#[trigger] y[m])) <= k.swing(
            e.len() as int,
            t,
            s,
        ),
        forall|m: int| 2 <= m <= i ==> #[trigger] near_output(
            k,
            t,
            values(e, value),
            values(y, value),
            m,
        ),
    decreases i,
{
    let n = e.len() as int;
    let (re, ry) = (values(e, value), values(y, value));
    lemma_swing_is_wide(k, n, t, s);
    if i > 0 {
        lemma_run_is_near(e, step, y, value, k, t, limit, s, i - 1);
    }
    if i >= 2 {
        let (b, a) = ([e[i], e[i - 1], e[i - 2]], [y[i - 1], y[i - 2]]);
        assert(call_ensures(step, ([e[i], e[i - 1], e[i - 2]], [y[i - 1], y[i - 2]]), y[i]));
        assert forall|m: int| 0 <= m < b@.len() implies size(value(#[trigger] b@[m])) <= limit by {
            assert(b@[m] == e[i - m]);
            assert(size(value(e[i - m])) <= s + s + s + t);
        }
        assert forall|m: int| 0 <= m < a@.len() implies size(value(#[trigger] a@[m])) <= limit by {
            assert(a@[m] == y[i - 1 - m]);
            assert(size(value(y[i - 1 - m])) <= k.swing(n, t, s));
        }
        assert(is_within(b@, value, limit) && is_within(a@, value, limit));
        assert(near_output(k, t, re, ry, i));
    }
    assert forall|m: int| 0 <= m < n implies size(#[trigger] re[m]) <= s + s + s + t by {
        assert(size(value(e[m])) <= s + s + s + t);
    }
    lemma_output_bound(k, n, t, s, re, ry, i);
    assert(ry[i] == value(y[i]));
}

/// A pass over a signal is one over the numbers, and stays within the swing of
/// the filter.
proof fn lemma_pass_is_near<T, M: Fn(T, T) -> T, S: Fn([T; 3], [T; 2]) -> T>(
    x: Seq<T>,
    pad: int,
    mirror: M,
    step: S,
    r: Seq<T>,
    value: spec_fn(T) -> real,
    k: Coefficients,
    t: real,
    limit: real,
    s: real,
)
    requires
        1 <= pad < x.len(),
        passes(x, pad, mirror, step, r),
        mirrors_nearly(mirror, value, t, limit),
        steps_nearly(step, value, k, t, limit),
        0 as real <= t,
        0 as real <= s,
        is_within(x, value, s),
        k.swing(x.len() + 2 * pad, t, s) <= limit,
    ensures
        r.len() == x.len(),
        near_passes(values(x, value), pad, k, t, values(r, value)),
        is_within(r, value, k.swing(x.len() + 2 * pad, t, s)),
{
    let n = x.len() as int;
    let (e, y) = choose|e: Seq<T>, y: Seq<T>| #[trigger] is_pass(x, pad, mirror, step, e, y, r);
    let (rx, re, ry) = (values(x, value), values(e, value), values(y, value));
    lemma_swing_is_wide(k, n + 2 * pad, t, s);
    assert forall|i: int| 0 <= i < n implies size(#[trigger] rx[i]) <= s by {
        assert(size(value(x[i])) <= s);
    }
    assert forall|i: int| 0 <= i < pad implies size(
        #[trigger] re[i] - (rx[0] + rx[0] - rx[pad - i]),
    ) <= t by {
        assert(call_ensures(mirror, (x[0], x[pad - i]), e[i]));
        assert(size(value(x[0])) <= s && size(value(x[pad - i])) <= s);
    }
    assert forall|i: int| pad <= i < pad + n implies #[trigger] re[i] == rx[i - pad] by {
        assert(e[i] == x[i - pad]);
    }
    assert forall|i: int| pad + n <= i < n + 2 * pad implies size(
        #[trigger] re[i] - (rx[n - 1] + rx[n - 1] - rx[2 * n - 2 + pad - i]),
    ) <= t by {
        let m = 2 * n - 2 + pad - i;
        assert(call_ensures(mirror, (x[n - 1], x[m]), e[i]));
        assert(size(value(x[n - 1])) <= s && size(value(x[m])) <= s);
    }
    assert(near_padded(rx, pad, t, re));
    lemma_padded_bound(rx, pad, t, re, s);
    assert forall|i: int| 0 <= i < e.len() implies size(value(#[trigger] e[i])) <= s + s + s + t by {
        assert(size(re[i]) <= s + s + s + t);
    }
    lemma_run_is_near(e, step, y, value, k, t, limit, s, y.len() - 1);
    assert(near_run(k, t, re, ry));
    assert(values(r, value) =~= ry.subrange(pad, pad + n));
    assert(near_pass(rx, pad, k, t, re, ry, values(r, value)));
    assert forall|i: int| 0 <= i < r.len() implies size(value(#[trigger] r[i])) <= k.swing(
        n + 2 * pad,
        t,
        s,
    ) by {
        assert(r[i] == y[pad + i]);
    }
}

/// A signal filtered is the numbers filtered.
proof fn lemma_filter_is_near<T, M: Fn(T, T) -> T, S: Fn([T; 3], [T; 2]) -> T>(
    x: Seq<T>,
    wanted: int,
    mirror: M,
    step: S,
    r: Seq<T>,
    value: spec_fn(T) -> real,
    k: Coefficients,
    t: real,
    limit: real,
    s: real,
)
    requires
        wanted >= 0,
        x.len() >= 4,
        is_filtered(x, wanted, mirror, step, r),
        mirrors_nearly(mirror, value, t, limit),
        steps_nearly(step, value, k, t, limit),
        0 as real <= t,
        0 as real <= s,
        is_within(x, value, s),
        k.settled(padded_len(x.len() as int, wanted), t, s) <= limit,
    ensures
        r.len() == x.len(),
        near_filtered(
            values(x, value),
            padding(wanted, x.len() as int),
            k,
            t,
            values(r, value),
        ),
{
    let pad = padding(wanted, x.len() as int);
    let n = x.len() + 2 * pad;
    let forth = choose|forth: Seq<T>|
        #![trigger forth.reverse()]
        passes(x, pad, mirror, step, forth) && passes(
            forth.reverse(),
            pad,
            mirror,
            step,
            r.reverse(),
        );
    let swing = k.swing(n, t, s);
    lemma_swing_is_wide(k, n, t, s);
    lemma_swing_is_wide(k, n, t, swing);
    lemma_pass_is_near(x, pad, mirror, step, forth, value, k, t, limit, s);
    let back = forth.reverse();
    assert forall|i: int| 0 <= i < back.len() implies size(value(#[trigger] back[i])) <= swing by {
        assert(back[i] == forth[forth.len() - 1 - i]);
    }
    lemma_pass_is_near(back, pad, mirror, step, r.reverse(), value, k, t, limit, swing);
    let g = values(forth, value);
    assert(g.reverse() =~= values(back, value));
    assert(values(r, value).reverse() =~= values(r.reverse(), value));
}

/// A constant passes a filter whose coefficients add up to one, its ends among
/// it, up to what the round-off of two operations settles to: nothing where
/// there is none.
pub proof fn law_constants_pass<T, M: Fn(T, T) -> T, S: Fn([T; 3], [T; 2]) -> T>(
    x: Seq<T>,
    wanted: int,
    mirror: M,
    step: S,
    r: Seq<T>,
    value: spec_fn(T) -> real,
    k: Coefficients,
    t: real,
    limit: real,
    c: real,
)
    requires
        wanted >= 0,
        is_filtered(x, wanted, mirror, step, r),
        mirrors_nearly(mirror, value, t, limit),
        steps_nearly(step, value, k, t, limit),
        k.keeps_constants(),
        0 as real <= t,
        forall|i: int| 0 <= i < x.len() ==> value(#[trigger] x[i]) == c,
        k.settled(padded_len(x.len() as int, wanted), t, size(c)) <= limit,
    ensures
        r.len() == x.len(),
        forall|i: int|
            0 <= i < r.len() ==> size(value(#[trigger] r[i]) - c) <= k.settled(
                padded_len(x.len() as int, wanted),
                t + t,
                0 as real,
            ),
        t == 0 as real ==> forall|i: int| 0 <= i < r.len() ==> value(#[trigger] r[i]) == c,
{
    let (n, one, none) = (x.len() as int, 1 as real, 0 as real);
    let total = padded_len(n, wanted);
    let u = combined(one, none, t);
    lemma_product_units(t);
    assert(u == t + t);
    if n > 0 {
        lemma_swing_is_wide(k, total, u, none);
        lemma_swing_is_wide(k, total, u, k.swing(total, u, none));
    }
    if n >= 4 {
        let pad = padding(wanted, n);
        lemma_filter_is_near(x, wanted, mirror, step, r, value, k, t, limit, size(c));
        let flat = Seq::new(n as nat, |i: int| c);
        lemma_constant_is_filtered(c, n, pad, k, t);
        let (rx, rr) = (values(x, value), values(r, value));
        lemma_product_units(c);
        assert forall|i: int| 0 <= i < rx.len() implies size(
            #[trigger] rx[i] - blend(one, none, flat[i], flat[i]),
        ) <= none by {
            assert(value(x[i]) == c);
        }
        lemma_filter_residue(flat, flat, rx, pad, k, t, one, none, none, flat, flat, rr);
        assert forall|i: int| 0 <= i < r.len() implies size(value(#[trigger] r[i]) - c)
            <= k.settled(total, t + t, none) by {
            assert(size(rr[i] - blend(one, none, flat[i], flat[i])) <= k.settled(total, u, none));
        }
    }
    if t == 0 as real {
        lemma_nothing_settles(k, total);
    }
}

/// Linear combinations pass a filter: what it makes of a combination of two
/// signals is the combination of what it makes of them, up to what the round-off
/// settles to. `eta` is how far the combination itself is off; where nothing is
/// off, nothing is left.
pub proof fn law_filter_is_linear<T, M: Fn(T, T) -> T, S: Fn([T; 3], [T; 2]) -> T>(
    x: Seq<T>,
    y: Seq<T>,
    z: Seq<T>,
    alpha: real,
    beta: real,
    eta: real,
    wanted: int,
    mirror: M,
    step: S,
    fx: Seq<T>,
    fy: Seq<T>,
    fz: Seq<T>,
    value: spec_fn(T) -> real,
    k: Coefficients,
    t: real,
    limit: real,
    s: real,
)
    requires
        wanted >= 0,
        x.len() == z.len(),
        y.len() == z.len(),
        is_filtered(x, wanted, mirror, step, fx),
        is_filtered(y, wanted, mirror, step, fy),
        is_filtered(z, wanted, mirror, step, fz),
        mirrors_nearly(mirror, value, t, limit),
        steps_nearly(step, value, k, t, limit),
        0 as real <= t,
        0 as real <= s,
        0 as real <= eta,
        is_within(x, value, s),
        is_within(y, value, s),
        is_within(z, value, s),
        k.settled(padded_len(z.len() as int, wanted), t, s) <= limit,
        forall|i: int|
            0 <= i < z.len() ==> size(
                value(#[trigger] z[i]) - blend(alpha, beta, value(x[i]), value(y[i])),
            ) <= eta,
    ensures
        fx.len() == z.len(),
        fy.len() == z.len(),
        fz.len() == z.len(),
        forall|i: int|
            0 <= i < fz.len() ==> size(
                value(#[trigger] fz[i]) - blend(alpha, beta, value(fx[i]), value(fy[i])),
            ) <= k.settled(
                padded_len(z.len() as int, wanted),
                combined(alpha, beta, t),
                eta,
            ),
        t == 0 as real && eta == 0 as real ==> forall|i: int|
            0 <= i < fz.len() ==> value(#[trigger] fz[i]) == blend(
                alpha,
                beta,
                value(fx[i]),
                value(fy[i]),
            ),
{
    let n = z.len() as int;
    let total = padded_len(n, wanted);
    let u = combined(alpha, beta, t);
    lemma_product_bound(alpha, t, size(alpha), t);
    lemma_product_bound(beta, t, size(beta), t);
    if n > 0 {
        lemma_swing_is_wide(k, total, u, eta);
        lemma_swing_is_wide(k, total, u, k.swing(total, u, eta));
    }
    if n >= 4 {
        let pad = padding(wanted, n);
        lemma_filter_is_near(x, wanted, mirror, step, fx, value, k, t, limit, s);
        lemma_filter_is_near(y, wanted, mirror, step, fy, value, k, t, limit, s);
        lemma_filter_is_near(z, wanted, mirror, step, fz, value, k, t, limit, s);
        let (rx, ry, rz) = (values(x, value), values(y, value), values(z, value));
        let (gx, gy, gz) = (values(fx, value), values(fy, value), values(fz, value));
        assert forall|i: int| 0 <= i < rz.len() implies size(
            #[trigger] rz[i] - blend(alpha, beta, rx[i], ry[i]),
        ) <= eta by {
            assert(size(value(z[i]) - blend(alpha, beta, value(x[i]), value(y[i]))) <= eta);
        }
        lemma_filter_residue(rx, ry, rz, pad, k, t, alpha, beta, eta, gx, gy, gz);
        assert forall|i: int| 0 <= i < fz.len() implies size(
            value(#[trigger] fz[i]) - blend(alpha, beta, value(fx[i]), value(fy[i])),
        ) <= k.settled(total, u, eta) by {
            assert(size(gz[i] - blend(alpha, beta, gx[i], gy[i])) <= k.settled(total, u, eta));
        }
    }
    if t == 0 as real && eta == 0 as real {
        lemma_product_units(size(alpha));
        lemma_product_units(size(beta));
        lemma_nothing_settles(k, total);
    }
}

/// Of nothing, without round-off, nothing is left.
proof fn lemma_nothing_settles(k: Coefficients, n: int)
    ensures
        k.settled(n, 0 as real, 0 as real) == 0 as real,
{
    lemma_product_units(1 as real + k.feed());
    lemma_product_units(k.reach(n));
}

// ---- what the operations are for ----

/// The rows of a history that sample a node of an accelerometer.
pub open spec fn rows_of(h: NodeHistory, k: usize, node: usize) -> spec_fn(int) -> bool {
    |r: int| h.accelerometer@[r] == k && h.node@[r] == node
}

/// A pulse has one sample for every row of the history that is of its
/// accelerometer and node, in their order and none left out: the time of the row,
/// and the acceleration along local x.
pub proof fn law_pulse_is_the_local_acceleration(h: NodeHistory, k: usize, node: usize, n: int)
    requires
        0 <= n <= h.time@.len(),
    ensures
        is_picked(
            samples_of(h, k, node, n).0,
            n,
            rows_of(h, k, node),
            |r: int| h.time@[r],
        ),
        is_picked(
            samples_of(h, k, node, n).1,
            n,
            rows_of(h, k, node),
            |r: int| h.local_acceleration@[r]@[0],
        ),
    decreases n,
{
    if n > 0 {
        law_pulse_is_the_local_acceleration(h, k, node, n - 1);
        let (t, a) = samples_of(h, k, node, n - 1);
        lemma_picked_grows(t, n - 1, rows_of(h, k, node), |r: int| h.time@[r]);
        lemma_picked_grows(
            a,
            n - 1,
            rows_of(h, k, node),
            |r: int| h.local_acceleration@[r]@[0],
        );
    }
}

/// Recording a motion and taking the pulse gives the acceleration of the motion
/// turned into the frame of the accelerometer, along its x axis, at the time of
/// the recording.
pub proof fn law_pulse_of_a_recorded_motion<
    F: Fn(usize) -> Motion,
    H: Fn([[Real; 3]; 3], [Real; 3]) -> [Real; 3],
>(
    h: NodeHistory,
    k: usize,
    node: usize,
    n: int,
    j: int,
    r: int,
    t: Real,
    step: usize,
    frame: Option<FrameAxes>,
    motion: F,
    turn: H,
) -> (a: ([Real; 3], [Real; 3]))
    requires
        0 <= n <= h.time@.len(),
        0 <= j < samples_of(h, k, node, n).0.len(),
        r == crate::indices::places_where(n, rows_of(h, k, node))[j],
        h.is_sample(r, t, step, k, node, frame, motion, turn),
    ensures
        exists|m: Motion| #[trigger] call_ensures(motion, (node,), m) && m.acceleration == a.0,
        frame matches Some(f) ==> call_ensures(turn, (f.axes, a.0), a.1),
        frame is None ==> a.1 == a.0,
        samples_of(h, k, node, n).0[j] == t,
        samples_of(h, k, node, n).1[j] == a.1@[0],
{
    law_pulse_is_the_local_acceleration(h, k, node, n);
    let m = crate::solver::law_samples_are_the_motion(
        h,
        r,
        t,
        step,
        k,
        node,
        frame,
        motion,
        turn,
    );
    assert(samples_of(h, k, node, n).0[j] == h.time@[r]);
    (m.acceleration, h.local_acceleration@[r])
}

/// Which rows of a signal file are kept: those whose time is not before contact.
pub open spec fn kept_rows(numbers: Seq<(Option<Real>, Option<Real>)>) -> spec_fn(int) -> bool {
    |r: int| !numbers[r].0->0.below(Real { bits: 0xbd71_9799_812d_ea11 })
}

/// Reading the rows of a signal file goes on while every row has a time and a
/// value, and keeps the samples whose time is not below -1e-12 s, time with time
/// and value with value. It stops at the first row that lacks one: its time, if
/// that is missing.
pub proof fn law_rows_of_a_signal(numbers: Seq<(Option<Real>, Option<Real>)>, k: int)
    requires
        0 <= k <= numbers.len(),
    ensures
        match after_rows(numbers, k) {
            TsvStep::Going(time, accel) => {
                &&& forall|i: int|
                    0 <= i < k ==> (#[trigger] numbers[i]).0 is Some && numbers[i].1 is Some
                &&& is_picked(time, k, kept_rows(numbers), |r: int| numbers[r].0->0)
                &&& is_picked(accel, k, kept_rows(numbers), |r: int| numbers[r].1->0)
            },
            TsvStep::BadTime(i) => 0 <= i < k && numbers[i].0 is None && forall|j: int|
                0 <= j < i ==> (#[trigger] numbers[j]).0 is Some && numbers[j].1 is Some,
            TsvStep::BadValue(i) => 0 <= i < k && numbers[i].0 is Some && numbers[i].1 is None
                && forall|j: int|
                0 <= j < i ==> (#[trigger] numbers[j]).0 is Some && numbers[j].1 is Some,
        },
    decreases k,
{
    if k > 0 {
        law_rows_of_a_signal(numbers, k - 1);
        match after_rows(numbers, k - 1) {
            TsvStep::Going(time, accel) => {
                lemma_picked_grows(time, k - 1, kept_rows(numbers), |r: int| numbers[r].0->0);
                lemma_picked_grows(accel, k - 1, kept_rows(numbers), |r: int| numbers[r].1->0);
            },
            _ => {},
        }
    }
}

/// The lines of a signal file that hold data.
pub open spec fn data_lines(lines: Seq<Seq<char>>) -> spec_fn(int) -> bool {
    |r: int| trim(lines[r]).len() > 0 && trim(lines[r])[0] != '#'
}

/// The data rows of a signal file are its lines but for blank ones and comments,
/// trimmed, in order, and numbered from one.
pub proof fn law_data_rows(lines: Seq<Seq<char>>, k: int)
    requires
        0 <= k <= lines.len(),
    ensures
        is_picked(
            data_rows(lines, k),
            k,
            data_lines(lines),
            |r: int| (r + 1, trim(lines[r])),
        ),
    decreases k,
{
    if k > 0 {
        law_data_rows(lines, k - 1);
        lemma_picked_grows(
            data_rows(lines, k - 1),
            k - 1,
            data_lines(lines),
            |r: int| (r + 1, trim(lines[r])),
        );
    }
}

/// The time of a data row is its first word and the value its second, where the
/// line has them.
pub proof fn law_words_of_a_row(r: TsvRow, row: (int, Seq<char>))
    requires
        is_row(r, row),
    ensures
        r.number == row.0,
        r.line@ == row.1,
        r.time is Some <==> words(row.1).0.len() >= 1,
        r.value is Some <==> words(row.1).0.len() >= 2,
        r.time matches Some(t) ==> t@ == words(row.1).0[0],
        r.value matches Some(v) ==> v@ == words(row.1).0[1],
{
}

/// A pulse cut at a time keeps its samples up to the first after that time.
pub proof fn law_truncation(p: Pulse, limit: Real, n: int)
    requires
        p.lead_in(limit, n),
        !limit.nan(),
        forall|i: int| 0 <= i < p.time@.len() ==> !(#[trigger] p.time@[i]).nan(),
    ensures
        0 <= n <= p.time@.len(),
        forall|i: int| 0 <= i < n ==> (#[trigger] p.time@[i]).order() <= limit.order(),
        n < p.time@.len() ==> p.time@[n].order() > limit.order(),
{
    assert forall|i: int| 0 <= i < n implies (#[trigger] p.time@[i]).order() <= limit.order() by {
        assert(p.time@[i].at_most(limit));
    }
    if n < p.time@.len() {
        assert(!p.time@[n].nan());
    }
}

/// The time of greatest crush is the first at which it is reached.
pub proof fn law_max_crush_is_the_first(x: Seq<Real>, n: int, k: int)
    requires
        0 <= n <= x.len(),
        forall|i: int| 0 <= i < x.len() ==> !(#[trigger] x[i]).nan(),
        0 <= k < crest(x, n).0,
    ensures
        x[k].order() < crest(x, n).1.order(),
    decreases n,
{
    if n > 0 {
        lemma_crest(x, n - 1);
        assert(!x[n - 1].nan());
        if crest(x, n - 1).1.below(x[n - 1]) {
            if k < n - 1 {
                law_max_crush_is_greatest(x, n - 1, k);
            }
        } else {
            law_max_crush_is_the_first(x, n - 1, k);
        }
    }
}

/// How a stretch of a record counts, by where its ends lie.
pub proof fn law_stretches(c0: Real, c1: Real, d: Real)
    requires
        !c0.nan(),
        !c1.nan(),
        !d.nan(),
    ensures
        stretch_of(c0, c1, d) is Skipped <==> c1.order() <= c0.order(),
        stretch_of(c0, c1, d) is Whole <==> c0.order() < c1.order() <= d.order(),
        stretch_of(c0, c1, d) is Part <==> c0.order() < d.order() < c1.order(),
        stretch_of(c0, c1, d) is Beyond <==> d.order() <= c0.order() < c1.order(),
{
}

/// Which stretches of a record go forward and end before a crush.
pub open spec fn whole_stretches(crush: Seq<Real>, d: Real) -> spec_fn(int) -> bool {
    |i: int| crush[i].order() < crush[i + 1].order() <= d.order()
}

/// The stretches that count whole towards the energy absorbed up to a crush are
/// all that go forward and end before it, up to the first that goes past it, and
/// no record stretch after that counts.
pub proof fn law_energy_counts_whole_stretches(crush: Seq<Real>, d: Real, k: int)
    requires
        0 <= k,
        k < crush.len() || k == 0,
        !d.nan(),
        forall|i: int| 0 <= i < crush.len() ==> !(#[trigger] crush[i]).nan(),
    ensures
        is_picked(
            whole_before(crush, d, k),
            k,
            whole_stretches(crush, d),
            |i: int| i as usize,
        ),
        is_cut(crush, d, k) ==> {
            &&& forall|i: int|
                0 <= i < k ==> (#[trigger] crush[i]).order() >= crush[i + 1].order() || crush[i
                    + 1].order() <= d.order()
            &&& k + 1 < crush.len() ==> crush[k].order() < crush[k + 1].order() && d.order()
                < crush[k + 1].order()
            &&& k + 1 >= crush.len() ==> k + 1 == crush.len() || crush.len() == 0
        },
    decreases k,
{
    if k > 0 {
        law_energy_counts_whole_stretches(crush, d, k - 1);
        assert(!crush[k - 1].nan() && !crush[k].nan());
        law_stretches(crush[k - 1], crush[k], d);
        lemma_picked_grows(
            whole_before(crush, d, k - 1),
            k - 1,
            whole_stretches(crush, d),
            |i: int| i as usize,
        );
    }
    if is_cut(crush, d, k) {
        assert forall|i: int| 0 <= i < k implies (#[trigger] crush[i]).order() >= crush[i
            + 1].order() || crush[i + 1].order() <= d.order() by {
            assert(!crush[i].nan() && !crush[i + 1].nan());
            let s = stretch_of(crush[i], crush[i + 1], d);
            assert(s is Whole || s is Skipped);
            law_stretches(crush[i], crush[i + 1], d);
        }
        if k + 1 < crush.len() {
            assert(!crush[k].nan() && !crush[k + 1].nan());
            law_stretches(crush[k], crush[k + 1], d);
        }
    }
}

/// Which samples of a record lie within a window of crush, its ends among it.
pub open spec fn windowed(crush: Seq<Real>, x0: Real, x1: Real) -> spec_fn(int) -> bool {
    |i: int| x0.order() <= crush[i].order() <= x1.order()
}

/// The samples of a window are all whose crush lies within it, in order.
pub proof fn law_window_holds_its_samples(crush: Seq<Real>, x0: Real, x1: Real, n: int)
    requires
        0 <= n <= crush.len(),
        !x0.nan(),
        !x1.nan(),
        forall|i: int| 0 <= i < crush.len() ==> !(#[trigger] crush[i]).nan(),
    ensures
        is_picked(
            in_window(crush, x0, x1, n),
            n,
            windowed(crush, x0, x1),
            |i: int| i as usize,
        ),
    decreases n,
{
    if n > 0 {
        law_window_holds_its_samples(crush, x0, x1, n - 1);
        assert(!crush[n - 1].nan());
        lemma_picked_grows(
            in_window(crush, x0, x1, n - 1),
            n - 1,
            windowed(crush, x0, x1),
            |i: int| i as usize,
        );
    }
}

/// The padding of a signal is as wanted, but at least one sample and at most all
/// but one.
pub proof fn law_padding(wanted: int, n: int)
    requires
        n > 1,
        wanted >= 0,
    ensures
        1 <= padding(wanted, n) <= n - 1,
        1 <= wanted <= n - 1 ==> padding(wanted, n) == wanted,
        wanted > n - 1 ==> padding(wanted, n) == n - 1,
{
}

/// A padded signal holds the signal in its middle, and is odd about either end of
/// it: what stands as far on both sides of an end has the end's value for its mean.
/// Here `value` gives the numbers, and mirroring is exact.
pub proof fn law_padding_is_odd_about_the_ends<T, M: Fn(T, T) -> T>(
    x: Seq<T>,
    pad: int,
    mirror: M,
    value: spec_fn(T) -> int,
    e: Seq<T>,
    i: int,
    j: int,
)
    requires
        is_padded(x, pad, mirror, e),
        forall|a: T, b: T, c: T| #[trigger]
            call_ensures(mirror, (a, b), c) ==> value(c) == 2 * value(a) - value(b),
        0 < pad < x.len(),
        0 <= i < x.len(),
        0 <= j <= pad,
    ensures
        e.len() == x.len() + 2 * pad,
        e[pad + i] == x[i],
        value(e[pad - j]) + value(e[pad + j]) == 2 * value(x[0]),
        value(e[pad + x.len() - 1 + j]) + value(e[pad + x.len() - 1 - j]) == 2 * value(x.last()),
{
    let n = x.len() as int;
    assert(e[pad + i] == x[i]);
    assert(e[pad + j] == x[j]);
    assert(e[pad + (n - 1 - j)] == x[n - 1 - j]);
    if j > 0 {
        assert(call_ensures(mirror, (x[0], x[pad - (pad - j)]), e[pad - j]));
        let k = pad + n - 1 + j;
        assert(call_ensures(mirror, (x[n - 1], x[2 * n - 2 + pad - k]), e[k]));
        assert(2 * n - 2 + pad - k == n - 1 - j);
    } else {
        assert(e[pad] == x[0]);
        assert(e[pad + n - 1] == x[n - 1]);
    }
}

/// One pass of a filter: each sample from the second on comes of the latest three
/// samples of the padded signal, and of the two before it that came out, with
/// weights that are the same throughout; what is given is cut to where the signal
/// stood. Here the filter is linear and exact.
pub proof fn law_passes_weigh_the_latest_samples<
    T,
    M: Fn(T, T) -> T,
    S: Fn([T; 3], [T; 2]) -> T,
>(
    x: Seq<T>,
    pad: int,
    mirror: M,
    step: S,
    value: spec_fn(T) -> int,
    b: (int, int, int),
    a: (int, int),
    r: Seq<T>,
) -> (w: (Seq<T>, Seq<T>))
    requires
        passes(x, pad, mirror, step, r),
        0 <= pad,
        x.len() >= 4,
        forall|u: [T; 3], v: [T; 2], y: T| #[trigger]
            call_ensures(step, (u, v), y) ==> value(y) == b.0 * value(u@[0]) + b.1 * value(u@[1])
                + b.2 * value(u@[2]) - a.0 * value(v@[0]) - a.1 * value(v@[1]),
    ensures
        is_padded(x, pad, mirror, w.0),
        w.1.len() == w.0.len() == x.len() + 2 * pad,
        w.1[0] == w.0[0],
        w.1[1] == w.0[1],
        forall|i: int|
            2 <= i < w.1.len() ==> value(#[trigger] w.1[i]) == b.0 * value(w.0[i]) + b.1 * value(
                w.0[i - 1],
            ) + b.2 * value(w.0[i - 2]) - a.0 * value(w.1[i - 1]) - a.1 * value(w.1[i - 2]),
        r.len() == x.len(),
        forall|i: int| 0 <= i < r.len() ==> #[trigger] r[i] == w.1[pad + i],
{
    let (e, y) = choose|e: Seq<T>, y: Seq<T>| #[trigger]
        is_pass(x, pad, mirror, step, e, y, r);
    assert forall|i: int| 2 <= i < y.len() implies value(#[trigger] y[i]) == b.0 * value(e[i])
        + b.1 * value(e[i - 1]) + b.2 * value(e[i - 2]) - a.0 * value(y[i - 1]) - a.1 * value(
        y[i - 2],
    ) by {
        assert(call_ensures(
            step,
            ([e[i], e[i - 1], e[i - 2]], [y[i - 1], y[i - 2]]),
            y[i],
        ));
    }
    (e, y)
}

/// A filtered signal comes of two passes, one forwards and one backwards over what
/// the first gave; a signal of fewer than four samples stays as it is.
pub proof fn law_filtering_goes_forth_and_back<
    T,
    M: Fn(T, T) -> T,
    S: Fn([T; 3], [T; 2]) -> T,
>(x: Seq<T>, wanted: int, mirror: M, step: S, r: Seq<T>) -> (forth: Seq<T>)
    requires
        is_filtered(x, wanted, mirror, step, r),
    ensures
        x.len() < 4 ==> r == x,
        x.len() >= 4 ==> {
            let pad: int = if wanted == 0 {
                1
            } else if wanted < x.len() - 1 {
                wanted
            } else {
                x.len() - 1
            };
            &&& passes(x, pad, mirror, step, forth)
            &&& passes(forth.reverse(), pad, mirror, step, r.reverse())
        },
{
    if x.len() < 4 {
        x
    } else {
        let pad = padding(wanted, x.len() as int);
        choose|forth: Seq<T>|
            #![trigger forth.reverse()]
            passes(x, pad, mirror, step, forth) && passes(
                forth.reverse(),
                pad,
                mirror,
                step,
                r.reverse(),
            )
    }
}

/// On two or more ascending samples and an ascending grid, each time has the place
/// where it falls: the start where it is not after the first sample, the end where
/// it is after the last, and else between the last sample before it and the next.
pub proof fn law_times_have_their_place(t: Seq<Real>, grid: Seq<Real>, k: int)
    requires
        1 < t.len() <= usize::MAX,
        0 <= k < grid.len(),
        ascends(t),
        ascends(grid),
    ensures
        ({
            let p = place_of(t, grid[k], stop_at(t, grid, k));
            let x = grid[k].order();
            &&& p is Start <==> x <= t[0].order()
            &&& p is End <==> t[t.len() - 1].order() < x
            &&& p is Between <==> t[0].order() < x <= t[t.len() - 1].order()
            &&& p matches Place::Between(j) ==> j + 1 < t.len() && t[j as int].order() < x <= t[j
                + 1].order()
        }),
{
    lemma_stop(t, grid, k);
    lemma_behind(t, grid, k);
    lemma_stop(t, grid, k - 1);
    lemma_stop_range(t, grid[k], stop_at(t, grid, k - 1));
    let j = stop_at(t, grid, k);
    let last = t.len() - 1;
    assert(!t[0].nan() && !grid[k].nan() && !t[last].nan() && !t[j].nan());
    assert(t[0].order() <= t[last].order());
    if j < last {
        assert(!t[j + 1].nan());
        assert(t[j + 1].order() <= t[last].order());
    }
}

/// The message of a refused signal file names the line by its number and as it
/// stands.
pub proof fn law_signal_messages_name_the_line(number: usize, line: String)
    ensures
        (SignalError::BadTime { number, line }).text() == "line "@ + decimal(number as nat)
            + ": bad time '"@ + line@ + "'"@,
        (SignalError::BadValue { number, line }).text() == "line "@ + decimal(number as nat)
            + ": bad value '"@ + line@ + "'"@,
        HistoryError::NoAccelerometer(line).text() == "no accelerometer '"@ + line@ + "'"@,
{
}

} // verus!
