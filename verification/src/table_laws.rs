//! Laws of the reading of tables: what is written as a table is read back, and what
//! is told of a curve is so.

use crate::binary64::Binary64;
use crate::data::{
    fault_places, field_seq, field_text, is_record, kept_places, law_every_row_is_accounted_for,
    lemma_places, lemma_row_parts, nonfinite_places, parses_as, places, reads_as, record_places,
    records, row_numbers, row_reads_as, table_reads_as, Reading, Spectrum,
};
use crate::notation::{writes, Notation, Script};
use crate::series::{
    first_of_repeated, greater_at, law_breaks_are_the_descents, law_direction_is_told, less_at,
    repeats, told_at,
};
use crate::text::{
    is_white, lemma_first_at_is, line_seq, pieces, trimmed, trimmed_end, trimmed_start,
    without_return, Class,
};
use vstd::prelude::*;

verus! {

// ---------------------------------------------------------------------------- texts

/// No member of `k` stands in `s`.
pub open spec fn free_of(s: Seq<char>, k: Class) -> bool {
    forall|i: int| 0 <= i < s.len() ==> !k.has(#[trigger] s[i])
}

/// All of `s` are members of `k`.
pub open spec fn all_of(s: Seq<char>, k: Class) -> bool {
    forall|i: int| 0 <= i < s.len() ==> k.has(#[trigger] s[i])
}

/// Neither the first nor the last character of `s` is a member of `k`.
pub open spec fn edged(s: Seq<char>, k: Class) -> bool {
    s.len() > 0 && !k.has(s[0]) && !k.has(s.last())
}

/// The parts `ps` with `c` between every two.
pub open spec fn joined_by(ps: Seq<Seq<char>>, c: char) -> Seq<char>
    decreases ps.len(),
{
    if ps.len() == 0 {
        Seq::empty()
    } else if ps.len() == 1 {
        ps[0]
    } else {
        ps[0] + seq![c] + joined_by(ps.skip(1), c)
    }
}

/// Parts that are joined by a separator are cut apart again.
pub proof fn law_parts_are_cut_apart(ps: Seq<Seq<char>>, k: Class, c: char)
    requires
        ps.len() > 0,
        k.has(c),
        forall|i: int| 0 <= i < ps.len() ==> free_of(#[trigger] ps[i], k),
    ensures
        pieces(joined_by(ps, c), k) == ps,
    decreases ps.len(),
{
    let s = joined_by(ps, c);
    let n = ps[0].len() as int;
    assert(free_of(ps[0], k));
    if ps.len() == 1 {
        lemma_first_at_is(s, k, n);
        assert(pieces(s, k) =~= seq![s]);
        assert(ps =~= seq![ps[0]]);
    } else {
        let rest = ps.skip(1);
        assert forall|i: int| 0 <= i < rest.len() implies free_of(#[trigger] rest[i], k) by {
            assert(rest[i] == ps[i + 1]);
        }
        law_parts_are_cut_apart(rest, k, c);
        assert forall|j: int| 0 <= j < n implies !k.has(#[trigger] s[j]) by {
            assert(s[j] == ps[0][j]);
        }
        assert(s[n] == c);
        lemma_first_at_is(s, k, n);
        assert(s.take(n) =~= ps[0]);
        assert(s.skip(n + 1) =~= joined_by(rest, c));
        assert(pieces(s, k) =~= seq![ps[0]] + rest);
        assert(ps =~= seq![ps[0]] + rest);
    }
}

proof fn lemma_trimmed_start(a: Seq<char>, s: Seq<char>, k: Class)
    requires
        all_of(a, k),
        s.len() > 0,
        !k.has(s[0]),
    ensures
        trimmed_start(a + s, k) == s,
    decreases a.len(),
{
    if a.len() > 0 {
        assert((a + s)[0] == a[0]);
        assert((a + s).skip(1) =~= a.skip(1) + s);
        assert forall|i: int| 0 <= i < a.skip(1).len() implies k.has(#[trigger] a.skip(1)[i]) by {
            assert(a.skip(1)[i] == a[i + 1]);
        }
        lemma_trimmed_start(a.skip(1), s, k);
    } else {
        assert(a + s =~= s);
    }
}

proof fn lemma_trimmed_end(s: Seq<char>, b: Seq<char>, k: Class)
    requires
        all_of(b, k),
        s.len() > 0,
        !k.has(s.last()),
    ensures
        trimmed_end(s + b, k) == s,
    decreases b.len(),
{
    if b.len() > 0 {
        assert((s + b).last() == b.last());
        assert((s + b).drop_last() =~= s + b.drop_last());
        assert forall|i: int| 0 <= i < b.drop_last().len() implies k.has(
            #[trigger] b.drop_last()[i],
        ) by {
            assert(b.drop_last()[i] == b[i]);
        }
        lemma_trimmed_end(s, b.drop_last(), k);
    } else {
        assert(s + b =~= s);
    }
}

/// What stands around a text is taken off, and nothing of the text.
pub proof fn law_surroundings_are_taken_off(a: Seq<char>, s: Seq<char>, b: Seq<char>, k: Class)
    requires
        all_of(a, k),
        all_of(b, k),
        edged(s, k),
    ensures
        trimmed(a + s + b, k) == s,
{
    assert(a + s + b =~= a + (s + b));
    assert((s + b)[0] == s[0]);
    lemma_trimmed_start(a, s + b, k);
    lemma_trimmed_end(s, b, k);
}

/// A cell is read without the white space around it.
pub proof fn law_cell_without_surroundings(a: Seq<char>, s: Seq<char>, b: Seq<char>)
    requires
        all_of(a, Class::White),
        all_of(b, Class::White),
        edged(s, Class::White),
        edged(s, Class::One('"')),
    ensures
        field_text(a + s + b) == s,
{
    law_surroundings_are_taken_off(a, s, b, Class::White);
    let e = Seq::<char>::empty();
    law_surroundings_are_taken_off(e, s, e, Class::One('"'));
    assert(e + s + e =~= s);
}

/// A cell in quotes is read without them, and without the white space around them.
pub proof fn law_cell_without_quotes(a: Seq<char>, s: Seq<char>, b: Seq<char>)
    requires
        all_of(a, Class::White),
        all_of(b, Class::White),
        edged(s, Class::One('"')),
    ensures
        field_text(a + (seq!['"'] + s + seq!['"']) + b) == s,
{
    let q = seq!['"'];
    let t = q + s + q;
    assert(t[0] == '"' && t.last() == '"');
    assert(!is_white('"'));
    law_surroundings_are_taken_off(a, t, b, Class::White);
    law_surroundings_are_taken_off(q, s, q, Class::One('"'));
}

/// The cells of a line may be separated by commas, semicolons or tabs, and are read
/// back in order.
pub proof fn law_cells_are_read_back(cells: Seq<Seq<char>>, c: char)
    requires
        cells.len() > 0,
        c == ',' || c == ';' || c == '\t',
        forall|i: int|
            0 <= i < cells.len() ==> free_of(#[trigger] cells[i], Class::Column) && edged(
                cells[i],
                Class::White,
            ) && edged(cells[i], Class::One('"')),
    ensures
        field_seq(joined_by(cells, c)) == cells,
{
    law_parts_are_cut_apart(cells, Class::Column, c);
    let e = Seq::<char>::empty();
    assert forall|i: int| 0 <= i < cells.len() implies field_text(#[trigger] cells[i])
        == cells[i] by {
        law_cell_without_surroundings(e, cells[i], e);
        assert(e + cells[i] + e =~= cells[i]);
    }
    assert(field_seq(joined_by(cells, c)) =~= cells);
}

/// The lines `ls`, each with its end.
pub open spec fn written_lines(ls: Seq<Seq<char>>, carriage: bool) -> Seq<char>
    decreases ls.len(),
{
    if ls.len() == 0 {
        Seq::empty()
    } else {
        let end = if carriage {
            seq!['\r', '\n']
        } else {
            seq!['\n']
        };
        ls[0] + end + written_lines(ls.skip(1), carriage)
    }
}

/// Lines are read back, whether they end in a line feed or in a carriage return and a
/// line feed.
pub proof fn law_lines_are_read_back(ls: Seq<Seq<char>>, carriage: bool)
    requires
        forall|i: int| 0 <= i < ls.len() ==> free_of(#[trigger] ls[i], Class::One('\n')),
        forall|i: int|
            0 <= i < ls.len() ==> (#[trigger] ls[i]).len() > 0 ==> ls[i].last() != '\r',
    ensures
        line_seq(written_lines(ls, carriage)) == ls,
    decreases ls.len(),
{
    let s = written_lines(ls, carriage);
    if ls.len() > 0 {
        let rest = ls.skip(1);
        assert forall|i: int| 0 <= i < rest.len() implies free_of(
            #[trigger] rest[i],
            Class::One('\n'),
        ) && (rest[i].len() > 0 ==> rest[i].last() != '\r') by {
            assert(rest[i] == ls[i + 1]);
        }
        law_lines_are_read_back(rest, carriage);
        assert(free_of(ls[0], Class::One('\n')));
        let more = if carriage {
            1int
        } else {
            0int
        };
        let n = ls[0].len() + more;
        let k = Class::One('\n');
        assert forall|j: int| 0 <= j < n implies !k.has(#[trigger] s[j]) by {
            if j < ls[0].len() {
                assert(s[j] == ls[0][j]);
            } else {
                assert(s[j] == '\r');
            }
        }
        assert(s[n] == '\n');
        lemma_first_at_is(s, k, n);
        if carriage {
            assert(s.take(n) =~= ls[0].push('\r'));
            assert(ls[0].push('\r').drop_last() =~= ls[0]);
        } else {
            assert(s.take(n) =~= ls[0]);
        }
        assert(without_return(s.take(n)) == ls[0]);
        assert(s.skip(n + 1) =~= written_lines(rest, carriage));
        assert(line_seq(s) =~= seq![ls[0]] + rest);
        assert(ls =~= seq![ls[0]] + rest);
    } else {
        assert(line_seq(s) =~= ls);
    }
}

/// A line is a comment if its first character that is no white space is the number
/// sign; a line of white space is blank; every other line is a record.
pub proof fn law_what_is_a_record(a: Seq<char>, c: char, rest: Seq<char>)
    requires
        all_of(a, Class::White),
        !is_white(c),
    ensures
        !is_record(a),
        is_record(a + seq![c] + rest) <==> c != '#',
{
    lemma_all_trimmed(a);
    let s = seq![c] + rest;
    assert(a + seq![c] + rest =~= a + s);
    lemma_trimmed_start(a, s, Class::White);
    lemma_end_keeps_first(s);
}

proof fn lemma_all_trimmed(a: Seq<char>)
    requires
        all_of(a, Class::White),
    ensures
        trimmed(a, Class::White).len() == 0,
    decreases a.len(),
{
    if a.len() > 0 {
        assert(Class::White.has(a[0]));
        assert forall|i: int| 0 <= i < a.skip(1).len() implies Class::White.has(
            #[trigger] a.skip(1)[i],
        ) by {
            assert(a.skip(1)[i] == a[i + 1]);
        }
        lemma_all_trimmed(a.skip(1));
    }
}

proof fn lemma_end_keeps_first(s: Seq<char>)
    requires
        s.len() > 0,
        !is_white(s[0]),
    ensures
        trimmed_end(s, Class::White).len() > 0,
        trimmed_end(s, Class::White)[0] == s[0],
    decreases s.len(),
{
    if is_white(s.last()) {
        assert(s.len() > 1);
        assert(s.drop_last()[0] == s[0]);
        lemma_end_keeps_first(s.drop_last());
    }
}

// --------------------------------------------------------------------------- curves

/// What is told of a curve.  Its coordinates and values are finite and as many as the
/// rows kept; rows that are not kept are listed; the curve is too short with fewer
/// than eight points; the direction told is that of the coordinates, and every
/// coordinate that occurs twice, and no other, is listed as such.
pub proof fn law_what_is_told_of_a_curve<N: Notation>(text: Seq<char>, sp: Spectrum)
    requires
        parses_as::<N>(text, Ok(sp)),
    ensures
        ({
            let x = sp.x@;
            let d = sp.diagnostics;
            let up = forall|i: int| 0 < i < x.len() ==> !#[trigger] less_at(x, i);
            let down = forall|i: int| 0 < i < x.len() ==> !#[trigger] greater_at(x, i);
            &&& sp.y@.len() == x.len()
            &&& sp.source_rows@.len() == x.len()
            &&& forall|i: int| 0 <= i < x.len() ==> (#[trigger] x[i]).finite()
            &&& forall|i: int| 0 <= i < x.len() ==> (#[trigger] sp.y@[i]).finite()
            &&& d.rows_kept == x.len()
            &&& d.rows_read == records(text).len() - 1
            &&& d.rows_read == d.rows_kept + d.nonfinite_rows@.len() + d.parse_errors@.len()
            &&& d.too_few_rows <==> x.len() < 8
            &&& (d.monotonic matches Some(s) && s@ == "increasing"@) <==> x.len() >= 2 && up
            &&& (d.monotonic matches Some(s) && s@ == "decreasing"@) <==> x.len() >= 2 && down
                && !up
            &&& d.monotonic is None <==> x.len() < 2 || (!up && !down)
            &&& down ==> d.nonmonotonic_pairs@.len() == 0
            &&& forall|i: int|
                0 < i < x.len() && !down && #[trigger] less_at(x, i) ==> told_at(
                    d.nonmonotonic_pairs@,
                    i,
                )
            &&& forall|k: int|
                0 <= k < d.nonmonotonic_pairs@.len() ==> {
                    let e = #[trigger] d.nonmonotonic_pairs@[k];
                    &&& 0 < e.0 < x.len()
                    &&& e.1 == x[e.0 - 1]
                    &&& e.2 == x[e.0 as int]
                    &&& e.2.value() < e.1.value()
                }
            &&& forall|i: int, j: int|
                0 <= i < j < x.len() && (#[trigger] x[i]).value() == (#[trigger] x[j]).value()
                    ==> exists|a: int|
                    0 <= a < d.duplicate_x@.len() && (#[trigger] d.duplicate_x@[a]).value()
                        == x[i].value()
            &&& forall|a: int|
                0 <= a < d.duplicate_x@.len() ==> exists|i: int, j: int|
                    0 <= i < j < x.len() && #[trigger] x[i] == (#[trigger] d.duplicate_x@[a])
                        && (#[trigger] x[j]).value() == x[i].value()
            &&& forall|a: int, b: int|
                0 <= a < b < d.duplicate_x@.len() ==> (#[trigger] d.duplicate_x@[a]).value() < (
                #[trigger] d.duplicate_x@[b]).value()
        }),
{
    let rs = choose|rs: Seq<Reading>|
        #[trigger] table_reads_as::<N>(text, rs) && sp.tells(rs, row_numbers(text));
    let ks = kept_places(rs);
    let x = sp.x@;
    let p = |i: int| rs[i].kept();
    lemma_places(rs.len(), p);
    assert forall|i: int| 0 <= i < x.len() implies (#[trigger] x[i]).finite() by {
        assert(p(places(rs.len(), p)[i]));
        assert(rs[ks[i]].kept());
    }
    assert forall|i: int| 0 <= i < x.len() implies (#[trigger] sp.y@[i]).finite() by {
        assert(p(places(rs.len(), p)[i]));
        assert(rs[ks[i]].kept());
    }
    law_every_row_is_accounted_for(rs);
    assert(nonfinite_places(rs).map_values(|i: int| row_numbers(text)[i]).len()
        == nonfinite_places(rs).len());
    law_direction_is_told(x);
    assert(sp.x.len() == x.len());
    law_breaks_are_the_descents(x);
    let dup = sp.diagnostics.duplicate_x@;
    assert forall|a: int| 0 <= a < dup.len() implies exists|i: int, j: int|
        0 <= i < j < x.len() && #[trigger] x[i] == (#[trigger] dup[a]) && (#[trigger] x[j]).value()
            == x[i].value() by {
        assert(first_of_repeated(x, dup[a]));
        let (i, j) = choose|i: int, j: int| #[trigger] repeats(x, i, j) && x[i] == dup[a];
        assert(x[i] == dup[a] && x[j].value() == x[i].value());
    }
}

/// The line `i` below the header holds the numbers `x` and `y` in its first two
/// cells, as `N` reads them.
pub open spec fn row_holds<N: Notation>(text: Seq<char>, i: int, x: Binary64, y: Binary64) -> bool {
    let cells = field_seq(records(text)[i + 1]);
    &&& 0 <= i < records(text).len() - 1
    &&& cells.len() >= 2
    &&& reads_as::<N>(cells[0], Ok(x))
    &&& reads_as::<N>(cells[1], Ok(y))
}

/// Every point of a curve comes from a row: its coordinate stands in the first cell,
/// its value in the second, and the row told for it is that row's.
pub proof fn law_points_come_from_rows<N: Notation>(text: Seq<char>, sp: Spectrum, k: int)
    requires
        parses_as::<N>(text, Ok(sp)),
        0 <= k < sp.x@.len(),
    ensures
        exists|i: int| #[trigger]
            row_holds::<N>(text, i, sp.x@[k], sp.y@[k]) && sp.source_rows@[k] == row_numbers(
                text,
            )[i],
{
    let rs = choose|rs: Seq<Reading>|
        #[trigger] table_reads_as::<N>(text, rs) && sp.tells(rs, row_numbers(text));
    let p = |i: int| rs[i].kept();
    lemma_places(rs.len(), p);
    let i = kept_places(rs)[k];
    assert(p(places(rs.len(), p)[k]));
    assert(rs[i].kept());
    assert(row_reads_as::<N>(field_seq(records(text)[i + 1]), rs[i]));
    assert(row_holds::<N>(text, i, sp.x@[k], sp.y@[k]));
}

/// Every row has its place, by what its first two cells are read as.  A row with
/// fewer cells, or with one that is no number, is listed with the reason; a row with
/// a number that is not finite is listed as such; every other row is a point.
pub proof fn law_every_row_has_its_place<N: Notation>(
    s: Script,
    text: Seq<char>,
    sp: Spectrum,
    i: int,
)
    requires
        writes::<N>(s),
        parses_as::<N>(text, Ok(sp)),
        0 <= i < records(text).len() - 1,
    ensures
        ({
            let cells = field_seq(records(text)[i + 1]);
            let no = row_numbers(text)[i];
            let d = sp.diagnostics;
            if cells.len() < 2 {
                listed(d.parse_errors@, no, "expected 2 numeric columns"@)
            } else {
                match ((s.parse)(cells[0]), (s.parse)(cells[1])) {
                    (Err(e), _) => listed(d.parse_errors@, no, "x parse error: "@ + e),
                    (Ok(_), Err(e)) => listed(d.parse_errors@, no, "y parse error: "@ + e),
                    (Ok(x), Ok(y)) => if x.finite() && y.finite() {
                        exists|k: int|
                            0 <= k < sp.x@.len() && #[trigger] sp.x@[k] == x && sp.y@[k] == y
                                && sp.source_rows@[k] == no
                    } else {
                        d.nonfinite_rows@.contains(no)
                    },
                }
            }
        }),
{
    let nos = row_numbers(text);
    let rs = choose|rs: Seq<Reading>|
        #[trigger] table_reads_as::<N>(text, rs) && sp.tells(rs, nos);
    let cells = field_seq(records(text)[i + 1]);
    let r = rs[i];
    let d = sp.diagnostics;
    assert(row_reads_as::<N>(cells, r));
    if cells.len() >= 2 {
        lemma_row_parts::<N>(s, cells, r);
    }
    law_every_row_is_accounted_for(rs);
    if r.kept() {
        let ks = kept_places(rs);
        assert(ks.contains(i));
        let k = choose|k: int| 0 <= k < ks.len() && ks[k] == i;
        assert(sp.x@[k] == r.x() && sp.y@[k] == r.y() && sp.source_rows@[k] == nos[i]);
    } else if r.nonfinite() {
        let ks = nonfinite_places(rs);
        assert(ks.contains(i));
        let k = choose|k: int| 0 <= k < ks.len() && ks[k] == i;
        assert(d.nonfinite_rows@[k] == nos[i]);
    } else {
        let ks = fault_places(rs);
        assert(ks.contains(i));
        let k = choose|k: int| 0 <= k < ks.len() && ks[k] == i;
        assert(d.parse_errors@[k].0 == nos[i] && d.parse_errors@[k].1@ == r.fault());
        assert(listed(d.parse_errors@, nos[i], r.fault()));
    }
}

/// The row `no` is listed with the reason `e`.
pub open spec fn listed(v: Seq<(usize, String)>, no: usize, e: Seq<char>) -> bool {
    exists|k: int| 0 <= k < v.len() && (#[trigger] v[k]).0 == no && v[k].1@ == e
}

/// The number of a row is that of its line in the text, counted from one; rows are
/// numbered in ascending order.
pub proof fn law_rows_are_numbered_by_line(text: Seq<char>, i: int)
    requires
        line_seq(text).len() < usize::MAX,
        0 <= i < records(text).len() - 1,
    ensures
        1 <= row_numbers(text)[i] <= line_seq(text).len(),
        line_seq(text)[row_numbers(text)[i] - 1] == records(text)[i + 1],
        i + 1 < records(text).len() - 1 ==> row_numbers(text)[i] < row_numbers(text)[i + 1],
{
    let p = |k: int| is_record(line_seq(text)[k]);
    lemma_places(line_seq(text).len(), p);
    assert(record_places(text) == places(line_seq(text).len(), p));
    assert(0 <= record_places(text)[i + 1] < line_seq(text).len());
    if i + 1 < records(text).len() - 1 {
        assert(record_places(text)[i + 1] < record_places(text)[i + 2]);
        assert(record_places(text)[i + 2] < line_seq(text).len());
    }
}

} // verus!
