//! CSV ingestion and independent input diagnostics.
//!
//! Diagnostics are reported separately so that one problem never masks
//! another:
//! - `nonfinite_rows`: rows dropped because x or y is not finite;
//! - `duplicate_x`: distinct repeated x coordinates (fitting is still
//!   allowed, but the rows are flagged);
//! - `nonmonotonic_pairs`: adjacent rows that break the ordering; a
//!   decreasing sequence is a legal order and breaks none;
//! - `too_few_rows`: fewer than eight finite rows, too few for a fit;
//! - parse errors per row.

use crate::binary64::Binary64;
use crate::json::optional_text;
use crate::notation::{reading_text, writes, Notation, Script};
use crate::series::{breaks, direction, examine, lemma_descents, lemma_repeated_unique, lists_repeated, repeated};
use crate::text::{
    chars_of, line_seq, lines, pieces, split, string_of, trim, trimmed, views, Class,
};
use vstd::prelude::*;

verus! {

/// The version of the loader.
pub const LOADER_VERSION: &'static str = "csv-loader-v1.0.0";

/// The least number of finite rows that a fit needs.
pub const MIN_ROWS: usize = 8;

// ---------------------------------------------------------------- fields

/// The texts of a sequence of strings.
pub open spec fn texts(v: Seq<String>) -> Seq<Seq<char>> {
    v.map_values(|s: String| s@)
}

/// A field without surrounding white space, and then without quotes.
pub open spec fn field_text(s: Seq<char>) -> Seq<char> {
    trimmed(trimmed(s, Class::White), Class::One('"'))
}

/// The fields of a line.
pub open spec fn field_seq(line: Seq<char>) -> Seq<Seq<char>> {
    pieces(line, Class::Column).map_values(|s: Seq<char>| field_text(s))
}

fn fields_of(line: &[char]) -> (r: Vec<String>)
    ensures
        texts(r@) == field_seq(line@),
{
    let parts: Vec<&[char]> = split(line, Class::Column);
    let mut r: Vec<String> = Vec::new();
    for i in 0..parts.len()
        invariant
            texts(r@) == views(parts@).take(i as int).map_values(|s: Seq<char>| field_text(s)),
    {
        let f: &[char] = trim(trim(parts[i], Class::White), Class::One('"'));
        let ghost before = r@;
        r.push(string_of(f));
        proof {
            assert(views(parts@)[i as int] == parts@[i as int]@);
            assert(views(parts@).take(i + 1) =~= views(parts@).take(i as int).push(
                parts@[i as int]@,
            ));
            assert(texts(r@) =~= texts(before).push(f@));
            assert(texts(r@) =~= views(parts@).take(i + 1).map_values(
                |s: Seq<char>| field_text(s),
            ));
        }
    }
    assert(views(parts@).take(parts@.len() as int) =~= views(parts@));
    r
}

/// The fields of a line: cut at commas, semicolons and tabs, each without
/// surrounding white space and quotes.
pub fn split_fields(line: &str) -> (r: Vec<String>)
    ensures
        texts(r@) == field_seq(line@),
{
    let cs: Vec<char> = chars_of(line);
    fields_of(cs.as_slice())
}

// ---------------------------------------------------------------- places

/// The numbers below `n` for which `p` holds, in increasing order.
pub open spec fn places(n: nat, p: spec_fn(int) -> bool) -> Seq<int>
    decreases n,
{
    if n == 0 {
        Seq::empty()
    } else {
        let before = places((n - 1) as nat, p);
        if p(n - 1) {
            before.push(n - 1)
        } else {
            before
        }
    }
}

/// `places` holds the right numbers, each once, in order.
pub proof fn lemma_places(n: nat, p: spec_fn(int) -> bool)
    ensures
        places(n, p).len() <= n,
        forall|k: int| 0 <= k < places(n, p).len() ==> 0 <= #[trigger] places(n, p)[k] < n,
        forall|k: int| 0 <= k < places(n, p).len() ==> p(#[trigger] places(n, p)[k]),
        forall|j: int, k: int|
            0 <= j < k < places(n, p).len() ==> #[trigger] places(n, p)[j] < #[trigger] places(
                n,
                p,
            )[k],
        forall|i: int| 0 <= i < n && #[trigger] p(i) ==> places(n, p).contains(i),
    decreases n,
{
    if n > 0 {
        let m = (n - 1) as nat;
        lemma_places(m, p);
        let a = places(m, p);
        let b = places(n, p);
        assert forall|i: int| 0 <= i < n && #[trigger] p(i) implies b.contains(i) by {
            if i == n - 1 {
                assert(b[b.len() - 1] == i);
            } else {
                assert(a.contains(i));
                let k = choose|k: int| 0 <= k < a.len() && a[k] == i;
                assert(b[k] == i);
            }
        }
    }
}

// ---------------------------------------------------------------- table

/// A line that is neither blank nor a comment.
pub open spec fn is_record(line: Seq<char>) -> bool {
    let t = trimmed(line, Class::White);
    t.len() > 0 && t[0] != '#'
}

/// The positions of the records among the lines of a text, the header first.
pub open spec fn record_places(text: Seq<char>) -> Seq<int> {
    places(line_seq(text).len(), |i: int| is_record(line_seq(text)[i]))
}

/// The records of a text, the header first.
pub open spec fn records(text: Seq<char>) -> Seq<Seq<char>> {
    record_places(text).map_values(|i: int| line_seq(text)[i])
}

/// The line numbers of the records below the header, counted from one.
pub open spec fn row_numbers(text: Seq<char>) -> Seq<usize> {
    Seq::new(
        (records(text).len() - 1) as nat,
        |i: int| (record_places(text)[i + 1] + 1) as usize,
    )
}

/// Why a text is no table.
pub open spec fn table_fault(text: Seq<char>) -> Option<Seq<char>> {
    if records(text).len() == 0 {
        Some("empty CSV"@)
    } else if field_seq(records(text)[0]).len() < 2 {
        Some("header must contain at least two columns"@)
    } else {
        None
    }
}

/// The cells of a table, below its header.
pub struct Table {
    pub x_header: String,
    pub y_header: String,
    pub rows: Vec<Vec<String>>,
    /// The line of the text, counted from one, that each row stands on.
    pub numbers: Vec<usize>,
}

impl Table {
    /// The table holds the fields of the records of `text`.
    pub open spec fn reads(self, text: Seq<char>) -> bool {
        &&& table_fault(text) is None
        &&& self.x_header@ == field_seq(records(text)[0])[0]
        &&& self.y_header@ == field_seq(records(text)[0])[1]
        &&& self.rows@.len() == records(text).len() - 1
        &&& forall|i: int|
            0 <= i < self.rows@.len() ==> texts((#[trigger] self.rows@[i])@) == field_seq(
                records(text)[i + 1],
            )
        &&& self.numbers@ == row_numbers(text)
    }
}

/// The fields of the records of a text, and the line that each stands on,
/// counted from one.
fn record_fields(text: &str) -> (r: (Vec<Vec<String>>, Vec<usize>))
    ensures
        r.0@.len() == records(text@).len(),
        r.1@.len() == records(text@).len(),
        forall|i: int|
            0 <= i < r.0@.len() ==> texts((#[trigger] r.0@[i])@) == field_seq(records(text@)[i]),
        forall|i: int| 0 <= i < r.1@.len() ==> (#[trigger] r.1@[i]) == record_places(text@)[i] + 1,
{
    let cs: Vec<char> = chars_of(text);
    let ls: Vec<&[char]> = lines(cs.as_slice());
    let mut r: Vec<Vec<String>> = Vec::new();
    let mut numbers: Vec<usize> = Vec::new();
    let ghost all = line_seq(text@);
    let ghost keep = |i: int| is_record(line_seq(text@)[i]);
    for i in 0..ls.len()
        invariant
            all == line_seq(text@),
            all == views(ls@),
            keep == (|i: int| is_record(line_seq(text@)[i])),
            r@.len() == places(i as nat, keep).len(),
            numbers@.len() == r@.len(),
            forall|j: int|
                0 <= j < r@.len() ==> texts((#[trigger] r@[j])@) == field_seq(
                    all[places(i as nat, keep)[j]],
                ),
            forall|j: int|
                0 <= j < numbers@.len() ==> (#[trigger] numbers@[j]) == places(i as nat, keep)[j]
                    + 1,
    {
        let t: &[char] = trim(ls[i], Class::White);
        let ghost before = r@;
        let ghost counted = numbers@;
        let ghost old_places = places(i as nat, keep);
        proof {
            assert(all[i as int] == ls@[i as int]@);
            assert(keep(i as int) == is_record(all[i as int]));
        }
        if t.len() > 0 && t[0] != '#' {
            let f: Vec<String> = fields_of(ls[i]);
            r.push(f);
            numbers.push(i + 1);
            proof {
                assert(places((i + 1) as nat, keep) == old_places.push(i as int));
                assert forall|j: int| 0 <= j < r@.len() implies texts((#[trigger] r@[j])@)
                    == field_seq(all[places((i + 1) as nat, keep)[j]]) by {
                    if j < before.len() {
                        assert(r@[j] == before[j]);
                    }
                }
                assert forall|j: int| 0 <= j < numbers@.len() implies (#[trigger] numbers@[j])
                    == places((i + 1) as nat, keep)[j] + 1 by {
                    if j < counted.len() {
                        assert(numbers@[j] == counted[j]);
                    }
                }
            }
        }
    }
    assert(record_places(text@) == places(all.len(), keep));
    (r, numbers)
}

/// The header and the cells of a CSV text.  Blank lines and lines that begin
/// with `#` are skipped.
pub fn read_table(text: &str) -> (res: Result<Table, String>)
    ensures
        match table_fault(text@) {
            Some(m) => res matches Err(e) && e@ == m,
            None => res matches Ok(t) && t.reads(text@),
        },
{
    let (mut all, mut numbers): (Vec<Vec<String>>, Vec<usize>) = record_fields(text);
    if all.len() == 0 {
        return Err("empty CSV".to_owned());
    }
    let ghost whole = all@;
    let ghost counted = numbers@;
    let header: Vec<String> = all.remove(0);
    let _: usize = numbers.remove(0);
    assert(texts(whole[0]@) == field_seq(records(text@)[0]));
    if header.len() < 2 {
        return Err("header must contain at least two columns".to_owned());
    }
    let x_header: String = header[0].clone();
    let y_header: String = header[1].clone();
    let t: Table = Table { x_header, y_header, rows: all, numbers };
    proof {
        assert(texts(header@)[0] == header@[0]@ && texts(header@)[1] == header@[1]@);
        assert forall|i: int| 0 <= i < t.rows@.len() implies texts((#[trigger] t.rows@[i])@)
            == field_seq(records(text@)[i + 1]) by {
            assert(t.rows@[i] == whole[i + 1]);
        }
        assert forall|i: int| 0 <= i < t.numbers@.len() implies #[trigger] t.numbers@[i]
            == row_numbers(text@)[i] by {
            assert(t.numbers@[i] == counted[i + 1]);
        }
        assert(t.numbers@ =~= row_numbers(text@));
    }
    Ok(t)
}

// ---------------------------------------------------------------- readings

/// What the cells of one row hold.
pub enum Reading {
    /// Fewer than two cells.
    Short,
    /// The first cell is no number, for the reason given.
    BadX(String),
    /// The second cell is no number, for the reason given.
    BadY(String),
    /// Two numbers.
    Pair(Binary64, Binary64),
}

impl Reading {
    /// Two finite numbers.
    pub open spec fn kept(self) -> bool {
        self matches Reading::Pair(x, y) && x.finite() && y.finite()
    }

    /// Two numbers, not both finite.
    pub open spec fn nonfinite(self) -> bool {
        self matches Reading::Pair(x, y) && !(x.finite() && y.finite())
    }

    /// Not two numbers.
    pub open spec fn faulty(self) -> bool {
        !(self is Pair)
    }

    /// The report on a row that does not hold two numbers.
    pub open spec fn fault(self) -> Seq<char> {
        match self {
            Reading::Short => "expected 2 numeric columns"@,
            Reading::BadX(e) => "x parse error: "@ + e@,
            Reading::BadY(e) => "y parse error: "@ + e@,
            Reading::Pair(_, _) => Seq::empty(),
        }
    }

    /// The first number of a pair.
    pub open spec fn x(self) -> Binary64 {
        self->Pair_0
    }

    /// The second number of a pair.
    pub open spec fn y(self) -> Binary64 {
        self->Pair_1
    }
}

/// The positions of the rows that are kept.
pub open spec fn kept_places(rs: Seq<Reading>) -> Seq<int> {
    places(rs.len(), |i: int| rs[i].kept())
}

/// The positions of the rows that are dropped for a number that is not finite.
pub open spec fn nonfinite_places(rs: Seq<Reading>) -> Seq<int> {
    places(rs.len(), |i: int| rs[i].nonfinite())
}

/// The positions of the rows that do not hold two numbers.
pub open spec fn fault_places(rs: Seq<Reading>) -> Seq<int> {
    places(rs.len(), |i: int| rs[i].faulty())
}

// ---------------------------------------------------------------- spectrum

/// The findings on a table, each independent of the others.
pub struct Diagnostics {
    pub rows_read: usize,
    pub rows_kept: usize,
    pub parse_errors: Vec<(usize, String)>,
    pub nonfinite_rows: Vec<usize>,
    pub duplicate_x: Vec<Binary64>,
    pub nonmonotonic_pairs: Vec<(usize, Binary64, Binary64)>,
    /// "increasing", "decreasing", or nothing.
    pub monotonic: Option<String>,
    pub too_few_rows: bool,
}

/// A curve with its findings.
pub struct Spectrum {
    pub x: Vec<Binary64>,
    pub y: Vec<Binary64>,
    /// The row of the CSV text, counted from one over all its lines, for each
    /// kept point.
    pub source_rows: Vec<usize>,
    pub diagnostics: Diagnostics,
    pub x_header: String,
    pub y_header: String,
}

impl Diagnostics {
    /// The findings are those on the rows `rs`, which stand on the lines `nos`,
    /// and of which the coordinates `x` were kept.
    pub open spec fn judges(self, rs: Seq<Reading>, nos: Seq<usize>, x: Seq<Binary64>) -> bool {
        &&& self.rows_read == rs.len()
        &&& self.rows_kept == x.len()
        &&& self.parse_errors@.len() == fault_places(rs).len()
        &&& forall|k: int|
            0 <= k < self.parse_errors@.len() ==> (#[trigger] self.parse_errors@[k]).0
                == nos[fault_places(rs)[k]] && self.parse_errors@[k].1@
                == rs[fault_places(rs)[k]].fault()
        &&& self.nonfinite_rows@ == nonfinite_places(rs).map_values(|i: int| nos[i])
        &&& lists_repeated(x, self.duplicate_x@)
        &&& self.nonmonotonic_pairs@ == breaks(x)
        &&& match self.monotonic {
            Some(s) => direction(x) == Some(s@),
            None => direction(x) is None,
        }
        &&& self.too_few_rows == (x.len() < MIN_ROWS)
    }
}

impl Spectrum {
    /// The curve and its findings are those of the rows `rs`, which stand on the
    /// lines `nos`.
    pub open spec fn tells(self, rs: Seq<Reading>, nos: Seq<usize>) -> bool {
        &&& self.x@ == kept_places(rs).map_values(|i: int| rs[i].x())
        &&& self.y@ == kept_places(rs).map_values(|i: int| rs[i].y())
        &&& self.source_rows@ == kept_places(rs).map_values(|i: int| nos[i])
        &&& self.diagnostics.judges(rs, nos, self.x@)
    }
}

fn joined(a: &str, b: &str) -> (r: String)
    ensures
        r@ == a@ + b@,
{
    let mut r: String = a.to_owned();
    r.append(b);
    r
}

/// The curve and the findings of a table whose rows hold `readings` and stand on
/// the lines `numbers`.
pub fn diagnose(
    x_header: String,
    y_header: String,
    readings: &Vec<Reading>,
    numbers: &Vec<usize>,
) -> (sp: Spectrum)
    requires
        numbers@.len() == readings@.len(),
    ensures
        sp.tells(readings@, numbers@),
        sp.x_header == x_header,
        sp.y_header == y_header,
{
    let mut x: Vec<Binary64> = Vec::new();
    let mut y: Vec<Binary64> = Vec::new();
    let mut source_rows: Vec<usize> = Vec::new();
    let mut parse_errors: Vec<(usize, String)> = Vec::new();
    let mut nonfinite_rows: Vec<usize> = Vec::new();
    let ghost rs = readings@;
    let ghost nos = numbers@;
    let ghost kp = |i: int| rs[i].kept();
    let ghost np = |i: int| rs[i].nonfinite();
    let ghost fp = |i: int| rs[i].faulty();
    assert(places(0, kp).map_values(|i: int| rs[i].x()) =~= Seq::empty());
    assert(places(0, kp).map_values(|i: int| rs[i].y()) =~= Seq::empty());
    assert(places(0, kp).map_values(|i: int| nos[i]) =~= Seq::empty());
    assert(places(0, np).map_values(|i: int| nos[i]) =~= Seq::empty());
    for n in 0..readings.len()
        invariant
            rs == readings@,
            nos == numbers@,
            nos.len() == rs.len(),
            kp == (|i: int| rs[i].kept()),
            np == (|i: int| rs[i].nonfinite()),
            fp == (|i: int| rs[i].faulty()),
            x@ == places(n as nat, kp).map_values(|i: int| rs[i].x()),
            y@ == places(n as nat, kp).map_values(|i: int| rs[i].y()),
            source_rows@ == places(n as nat, kp).map_values(|i: int| nos[i]),
            nonfinite_rows@ == places(n as nat, np).map_values(|i: int| nos[i]),
            parse_errors@.len() == places(n as nat, fp).len(),
            forall|k: int|
                0 <= k < parse_errors@.len() ==> (#[trigger] parse_errors@[k]).0
                    == nos[places(n as nat, fp)[k]] && parse_errors@[k].1@ == rs[places(n as nat, fp)[k]].fault(),
    {
        let row: usize = numbers[n];
        let ghost errors = parse_errors@;
        match &readings[n] {
            Reading::Short => {
                parse_errors.push((row, "expected 2 numeric columns".to_owned()));
            },
            Reading::BadX(e) => {
                parse_errors.push((row, joined("x parse error: ", e.as_str())));
            },
            Reading::BadY(e) => {
                parse_errors.push((row, joined("y parse error: ", e.as_str())));
            },
            Reading::Pair(a, b) => {
                if a.is_finite() && b.is_finite() {
                    x.push(*a);
                    y.push(*b);
                    source_rows.push(row);
                } else {
                    nonfinite_rows.push(row);
                }
            },
        }
        proof {
            let m = (n + 1) as nat;
            assert(kp(n as int) == rs[n as int].kept());
            assert(np(n as int) == rs[n as int].nonfinite());
            assert(fp(n as int) == rs[n as int].faulty());
            assert(x@ =~= places(m, kp).map_values(|i: int| rs[i].x()));
            assert(y@ =~= places(m, kp).map_values(|i: int| rs[i].y()));
            assert(source_rows@ =~= places(m, kp).map_values(|i: int| nos[i]));
            assert(nonfinite_rows@ =~= places(m, np).map_values(|i: int| nos[i]));
            assert forall|k: int| 0 <= k < parse_errors@.len() implies (
            #[trigger] parse_errors@[k]).0 == nos[places(m, fp)[k]] && parse_errors@[k].1@
                == rs[places(m, fp)[k]].fault() by {
                if k < errors.len() {
                    assert(parse_errors@[k] == errors[k]);
                }
            }
        }
    }
    proof {
        lemma_places(rs.len(), kp);
    }
    let rows_kept: usize = x.len();
    let duplicate_x: Vec<Binary64> = repeated(&x);
    let (monotonic, nonmonotonic_pairs) = examine(&x);
    let diagnostics: Diagnostics = Diagnostics {
        rows_read: readings.len(),
        rows_kept,
        parse_errors,
        nonfinite_rows,
        duplicate_x,
        nonmonotonic_pairs,
        monotonic,
        too_few_rows: rows_kept < MIN_ROWS,
    };
    Spectrum { x, y, source_rows, diagnostics, x_header, y_header }
}

// ---------------------------------------------------------------- parsing

/// `N` reads `s` as `out`.
pub open spec fn reads_as<N: Notation>(s: Seq<char>, out: Result<Binary64, String>) -> bool {
    exists|t: &str| t@ == s && #[trigger] call_ensures(N::parse, (t,), out)
}

/// `N` reads the cells `f` of a row as `r`.  The second cell is read where the
/// first is a number.
pub open spec fn row_reads_as<N: Notation>(f: Seq<Seq<char>>, r: Reading) -> bool {
    match r {
        Reading::Short => f.len() < 2,
        Reading::BadX(e) => f.len() >= 2 && reads_as::<N>(f[0], Err(e)),
        Reading::BadY(e) => f.len() >= 2 && reads_as::<N>(f[1], Err(e)) && exists|x: Binary64|
            #[trigger] reads_as::<N>(f[0], Ok(x)),
        Reading::Pair(x, y) => f.len() >= 2 && reads_as::<N>(f[0], Ok(x)) && reads_as::<N>(
            f[1],
            Ok(y),
        ),
    }
}

/// `N` reads the rows of the table in `text` as `rs`.
pub open spec fn table_reads_as<N: Notation>(text: Seq<char>, rs: Seq<Reading>) -> bool {
    &&& rs.len() == records(text).len() - 1
    &&& forall|i: int|
        0 <= i < rs.len() ==> row_reads_as::<N>(
            field_seq(records(text)[i + 1]),
            #[trigger] rs[i],
        )
}

/// Reading the CSV text `text` yields `res`: the reason why it is no table, or
/// the curve and the findings of its rows.
pub open spec fn parses_as<N: Notation>(text: Seq<char>, res: Result<Spectrum, String>) -> bool {
    match table_fault(text) {
        Some(m) => res matches Err(e) && e@ == m,
        None => res matches Ok(sp) && sp.x_header@ == field_seq(records(text)[0])[0]
            && sp.y_header@ == field_seq(records(text)[0])[1] && exists|rs: Seq<Reading>|
            #[trigger] table_reads_as::<N>(text, rs) && sp.tells(rs, row_numbers(text)),
    }
}

fn read_row<N: Notation>(cells: &Vec<String>) -> (r: Reading)
    ensures
        row_reads_as::<N>(texts(cells@), r),
{
    if cells.len() < 2 {
        return Reading::Short;
    }
    assert(texts(cells@)[0] == cells@[0]@ && texts(cells@)[1] == cells@[1]@);
    let first: Result<Binary64, String> = N::parse(cells[0].as_str());
    match first {
        Err(e) => {
            assert(reads_as::<N>(texts(cells@)[0], Err(e)));
            Reading::BadX(e)
        },
        Ok(x) => {
            assert(reads_as::<N>(texts(cells@)[0], Ok(x)));
            let second: Result<Binary64, String> = N::parse(cells[1].as_str());
            match second {
                Err(e) => {
                    assert(reads_as::<N>(texts(cells@)[1], Err(e)));
                    Reading::BadY(e)
                },
                Ok(y) => {
                    assert(reads_as::<N>(texts(cells@)[1], Ok(y)));
                    Reading::Pair(x, y)
                },
            }
        },
    }
}

/// Reads a CSV text.
pub fn parse_csv<N: Notation>(text: &str) -> (res: Result<Spectrum, String>)
    ensures
        parses_as::<N>(text@, res),
{
    let table: Table = match read_table(text) {
        Ok(t) => t,
        Err(e) => {
            return Err(e);
        },
    };
    let mut readings: Vec<Reading> = Vec::new();
    for i in 0..table.rows.len()
        invariant
            table.reads(text@),
            readings@.len() == i,
            forall|j: int|
                0 <= j < i ==> row_reads_as::<N>(
                    field_seq(records(text@)[j + 1]),
                    #[trigger] readings@[j],
                ),
    {
        let r: Reading = read_row::<N>(&table.rows[i]);
        assert(texts(table.rows@[i as int]@) == field_seq(records(text@)[i + 1]));
        readings.push(r);
    }
    assert(table_reads_as::<N>(text@, readings@));
    Ok(diagnose(table.x_header, table.y_header, &readings, &table.numbers))
}

// -------------------------------------------------------------------------- laws

proof fn lemma_three_ways(
    n: nat,
    p: spec_fn(int) -> bool,
    q: spec_fn(int) -> bool,
    r: spec_fn(int) -> bool,
)
    requires
        forall|i: int| 0 <= i < n ==> #[trigger] p(i) || q(i) || r(i),
        forall|i: int|
            0 <= i < n ==> !(#[trigger] p(i) && q(i)) && !(p(i) && r(i)) && !(q(i) && r(i)),
    ensures
        places(n, p).len() + places(n, q).len() + places(n, r).len() == n,
    decreases n,
{
    if n > 0 {
        lemma_three_ways((n - 1) as nat, p, q, r);
        assert(p(n - 1) || q(n - 1) || r(n - 1));
    }
}

/// Every row is kept, dropped for a number that is not finite, or reported as
/// not holding two numbers: one of the three.
pub proof fn law_every_row_is_accounted_for(rs: Seq<Reading>)
    ensures
        kept_places(rs).len() + nonfinite_places(rs).len() + fault_places(rs).len() == rs.len(),
        forall|i: int|
            0 <= i < rs.len() ==> {
                let kept = kept_places(rs).contains(i);
                let nonfinite = nonfinite_places(rs).contains(i);
                let faulty = fault_places(rs).contains(i);
                &&& kept == (#[trigger] rs[i]).kept()
                &&& nonfinite == rs[i].nonfinite()
                &&& faulty == rs[i].faulty()
                &&& kept || nonfinite || faulty
                &&& !(kept && nonfinite) && !(kept && faulty) && !(nonfinite && faulty)
            },
{
    let kp = |i: int| rs[i].kept();
    let np = |i: int| rs[i].nonfinite();
    let fp = |i: int| rs[i].faulty();
    assert(kept_places(rs) == places(rs.len(), kp));
    assert(nonfinite_places(rs) == places(rs.len(), np));
    assert(fault_places(rs) == places(rs.len(), fp));
    lemma_places(rs.len(), kp);
    lemma_places(rs.len(), np);
    lemma_places(rs.len(), fp);
    lemma_three_ways(rs.len(), kp, np, fp);
    assert forall|i: int| 0 <= i < rs.len() implies {
        let kept = kept_places(rs).contains(i);
        let nonfinite = nonfinite_places(rs).contains(i);
        let faulty = fault_places(rs).contains(i);
        &&& kept == (#[trigger] rs[i]).kept()
        &&& nonfinite == rs[i].nonfinite()
        &&& faulty == rs[i].faulty()
        &&& kept || nonfinite || faulty
        &&& !(kept && nonfinite) && !(kept && faulty) && !(nonfinite && faulty)
    } by {
        assert(kp(i) == rs[i].kept() && np(i) == rs[i].nonfinite() && fp(i) == rs[i].faulty());
    }
}

/// The findings on the order, the repetitions and the number of the points
/// depend on the kept coordinates alone: rows that are dropped or faulty mask
/// none of them.
pub proof fn law_findings_are_independent(
    a: Diagnostics,
    rs: Seq<Reading>,
    nos: Seq<usize>,
    b: Diagnostics,
    qs: Seq<Reading>,
    mos: Seq<usize>,
    x: Seq<Binary64>,
)
    requires
        a.judges(rs, nos, x),
        b.judges(qs, mos, x),
    ensures
        a.nonmonotonic_pairs@ == b.nonmonotonic_pairs@,
        a.too_few_rows == b.too_few_rows,
        a.rows_kept == b.rows_kept,
        a.monotonic is Some == b.monotonic is Some,
        a.monotonic matches Some(s) ==> s@ == b.monotonic->0@,
        lists_repeated(x, a.duplicate_x@) && lists_repeated(x, b.duplicate_x@),
{
}

/// Two or more coordinates have a direction, increasing or decreasing, exactly
/// where no step breaks their order.
pub proof fn law_direction_iff_nothing_breaks(x: Seq<Binary64>)
    requires
        x.len() >= 2,
    ensures
        direction(x) is Some <==> breaks(x).len() == 0,
{
    lemma_descents(x);
}

// ----------------------------------------------------------------- determinacy

proof fn lemma_same_places(n: nat, p: spec_fn(int) -> bool, q: spec_fn(int) -> bool)
    requires
        forall|i: int| 0 <= i < n ==> #[trigger] p(i) == q(i),
    ensures
        places(n, p) == places(n, q),
    decreases n,
{
    if n > 0 {
        lemma_same_places((n - 1) as nat, p, q);
        assert(p(n - 1) == q(n - 1));
    }
}

/// The rows hold the same.
spec fn same_reading(a: Reading, b: Reading) -> bool {
    match (a, b) {
        (Reading::Short, Reading::Short) => true,
        (Reading::BadX(e), Reading::BadX(f)) => e@ == f@,
        (Reading::BadY(e), Reading::BadY(f)) => e@ == f@,
        (Reading::Pair(x, y), Reading::Pair(v, w)) => x == v && y == w,
        _ => false,
    }
}

proof fn lemma_reads_once<N: Notation>(s: Script, t: Seq<char>, out: Result<Binary64, String>)
    requires
        writes::<N>(s),
        reads_as::<N>(t, out),
    ensures
        (s.parse)(t) == reading_text(out),
{
    let u = choose|u: &str| u@ == t && #[trigger] call_ensures(N::parse, (u,), out);
    assert(call_ensures(N::parse, (u,), out));
}

proof fn lemma_row_reads_once<N: Notation>(s: Script, f: Seq<Seq<char>>, a: Reading, b: Reading)
    requires
        writes::<N>(s),
        row_reads_as::<N>(f, a),
        row_reads_as::<N>(f, b),
    ensures
        same_reading(a, b),
{
    if f.len() >= 2 {
        lemma_row_parts::<N>(s, f, a);
        lemma_row_parts::<N>(s, f, b);
    }
}

/// What a row holds, by what its first two cells are read as.
pub proof fn lemma_row_parts<N: Notation>(s: Script, f: Seq<Seq<char>>, r: Reading)
    requires
        writes::<N>(s),
        f.len() >= 2,
        row_reads_as::<N>(f, r),
    ensures
        match (s.parse)(f[0]) {
            Err(e) => r matches Reading::BadX(d) && d@ == e,
            Ok(x) => match (s.parse)(f[1]) {
                Err(e) => r matches Reading::BadY(d) && d@ == e,
                Ok(y) => r == Reading::Pair(x, y),
            },
        },
{
    match r {
        Reading::Short => {},
        Reading::BadX(e) => {
            lemma_reads_once::<N>(s, f[0], Err(e));
        },
        Reading::BadY(e) => {
            let x = choose|x: Binary64| #[trigger] reads_as::<N>(f[0], Ok(x));
            lemma_reads_once::<N>(s, f[0], Ok(x));
            lemma_reads_once::<N>(s, f[1], Err(e));
        },
        Reading::Pair(x, y) => {
            lemma_reads_once::<N>(s, f[0], Ok(x));
            lemma_reads_once::<N>(s, f[1], Ok(y));
        },
    }
}

/// The curves and their findings are the same.
pub open spec fn same_spectrum(a: Spectrum, b: Spectrum) -> bool {
    let d = a.diagnostics;
    let e = b.diagnostics;
    &&& a.x@ == b.x@
    &&& a.y@ == b.y@
    &&& a.source_rows@ == b.source_rows@
    &&& a.x_header@ == b.x_header@
    &&& a.y_header@ == b.y_header@
    &&& d.rows_read == e.rows_read
    &&& d.rows_kept == e.rows_kept
    &&& d.parse_errors@.len() == e.parse_errors@.len()
    &&& forall|k: int|
        0 <= k < d.parse_errors@.len() ==> (#[trigger] d.parse_errors@[k]).0
            == e.parse_errors@[k].0 && d.parse_errors@[k].1@ == e.parse_errors@[k].1@
    &&& d.nonfinite_rows@ == e.nonfinite_rows@
    &&& d.duplicate_x@ == e.duplicate_x@
    &&& d.nonmonotonic_pairs@ == e.nonmonotonic_pairs@
    &&& optional_text(d.monotonic) == optional_text(e.monotonic)
    &&& d.too_few_rows == e.too_few_rows
}

/// A text is read in one way: whenever it is read, the curve and its findings
/// are the same.
pub proof fn law_text_is_read_in_one_way<N: Notation>(
    s: Script,
    text: Seq<char>,
    a: Spectrum,
    b: Spectrum,
)
    requires
        writes::<N>(s),
        parses_as::<N>(text, Ok(a)),
        parses_as::<N>(text, Ok(b)),
    ensures
        same_spectrum(a, b),
{
    let nos = row_numbers(text);
    let rs = choose|rs: Seq<Reading>| #[trigger]
        table_reads_as::<N>(text, rs) && a.tells(rs, nos);
    let qs = choose|qs: Seq<Reading>| #[trigger]
        table_reads_as::<N>(text, qs) && b.tells(qs, nos);
    assert forall|i: int| 0 <= i < rs.len() implies #[trigger] same_reading(rs[i], qs[i]) by {
        assert(row_reads_as::<N>(field_seq(records(text)[i + 1]), rs[i]));
        assert(row_reads_as::<N>(field_seq(records(text)[i + 1]), qs[i]));
        lemma_row_reads_once::<N>(s, field_seq(records(text)[i + 1]), rs[i], qs[i]);
    }
    let n = rs.len();
    let kp = |i: int| rs[i].kept();
    let kq = |i: int| qs[i].kept();
    let np = |i: int| rs[i].nonfinite();
    let nq = |i: int| qs[i].nonfinite();
    let fp = |i: int| rs[i].faulty();
    let fq = |i: int| qs[i].faulty();
    assert forall|i: int| 0 <= i < n implies #[trigger] kp(i) == kq(i) by {
        assert(same_reading(rs[i], qs[i]));
    }
    assert forall|i: int| 0 <= i < n implies #[trigger] np(i) == nq(i) by {
        assert(same_reading(rs[i], qs[i]));
    }
    assert forall|i: int| 0 <= i < n implies #[trigger] fp(i) == fq(i) by {
        assert(same_reading(rs[i], qs[i]));
    }
    lemma_same_places(n, kp, kq);
    lemma_same_places(n, np, nq);
    lemma_same_places(n, fp, fq);
    assert(kept_places(rs) == places(n, kp) && kept_places(qs) == places(n, kq));
    assert(nonfinite_places(rs) == places(n, np) && nonfinite_places(qs) == places(n, nq));
    assert(fault_places(rs) == places(n, fp) && fault_places(qs) == places(n, fq));
    lemma_places(n, kp);
    lemma_places(n, fp);
    let ks = kept_places(rs);
    let fs = fault_places(rs);
    assert forall|k: int| 0 <= k < ks.len() implies rs[#[trigger] ks[k]].x() == qs[ks[k]].x()
        && rs[ks[k]].y() == qs[ks[k]].y() by {
        assert(kp(ks[k]));
        assert(same_reading(rs[ks[k]], qs[ks[k]]));
    }
    assert(a.x@ =~= b.x@);
    assert(a.y@ =~= b.y@);
    assert forall|k: int| 0 <= k < fs.len() implies rs[#[trigger] fs[k]].fault()
        == qs[fs[k]].fault() by {
        assert(same_reading(rs[fs[k]], qs[fs[k]]));
    }
    let d = a.diagnostics;
    let e = b.diagnostics;
    assert forall|k: int| 0 <= k < d.parse_errors@.len() implies (#[trigger] d.parse_errors@[k]).0
        == e.parse_errors@[k].0 && d.parse_errors@[k].1@ == e.parse_errors@[k].1@ by {
        assert(rs[fs[k]].fault() == qs[fs[k]].fault());
        assert(e.parse_errors@[k].0 == nos[fs[k]]);
    }
    lemma_repeated_unique(a.x@, d.duplicate_x@, e.duplicate_x@);
}

proof fn lemma_all_places(n: nat, p: spec_fn(int) -> bool)
    requires
        forall|i: int| 0 <= i < n ==> #[trigger] p(i),
    ensures
        places(n, p).len() == n,
        forall|i: int| 0 <= i < n ==> #[trigger] places(n, p)[i] == i,
    decreases n,
{
    if n > 0 {
        lemma_all_places((n - 1) as nat, p);
        assert(p(n - 1));
    }
}

/// Where no line is blank or a comment, the rows below the header are numbered
/// from two on.
pub proof fn law_rows_follow_the_header(text: Seq<char>, i: int)
    requires
        forall|k: int| 0 <= k < line_seq(text).len() ==> is_record(#[trigger] line_seq(text)[k]),
        line_seq(text).len() <= usize::MAX,
        0 <= i < line_seq(text).len() - 1,
    ensures
        row_numbers(text).len() == line_seq(text).len() - 1,
        row_numbers(text)[i] == i + 2,
{
    let n = line_seq(text).len();
    let p = |k: int| is_record(line_seq(text)[k]);
    assert(record_places(text) == places(n, p));
    lemma_all_places(n, p);
}

} // verus!
