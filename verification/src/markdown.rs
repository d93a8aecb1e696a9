//! `esql --md`: a client's machine-readable rows turned into markdown tables.
//!
//! The client still runs the query and prints the rows; this only re-draws what
//! it printed, so there is no dialect here and nothing that speaks to a server.

use crate::text::{
    chars_of, copy, cviews, extend, join, join_of, lines, lines_of, split, split_of, string_of,
    trim, trimmed,
};
use vstd::prelude::*;

verus! {

/// The shape a client prints its rows in.
#[derive(Clone, Copy, PartialEq, Eq, Debug, Structural)]
pub enum Rows {
    /// RFC 4180, as psql's and sqlite3's CSV modes write it.
    Csv,
    /// mysql's `--batch`: tabs between fields, with `\n`, `\t` and `\\`
    /// escaped inside a value.
    Tsv,
}

// ---------------------------------------------------------------------------
// reading CSV
// ---------------------------------------------------------------------------

/// The records of CSV text read from character `i` on, given the records
/// finished, the record and field being read, and whether inside quotes.
/// `""` inside quotes is a quote; a `\r` before a `\n` outside quotes is
/// dropped, as sqlite3 ends a record with `\r\n`.
pub open spec fn csv_from(
    s: Seq<char>,
    i: int,
    recs: Seq<Seq<Seq<char>>>,
    rec: Seq<Seq<char>>,
    field: Seq<char>,
    quoted: bool,
) -> Seq<Seq<Seq<char>>>
    decreases s.len() - i,
{
    if i < 0 || i >= s.len() {
        if field.len() > 0 || rec.len() > 0 {
            recs.push(rec.push(field))
        } else {
            recs
        }
    } else {
        let c = s[i];
        if quoted {
            if c == '"' {
                if i + 1 < s.len() && s[i + 1] == '"' {
                    csv_from(s, i + 2, recs, rec, field.push('"'), true)
                } else {
                    csv_from(s, i + 1, recs, rec, field, false)
                }
            } else {
                csv_from(s, i + 1, recs, rec, field.push(c), true)
            }
        } else if c == '"' {
            csv_from(s, i + 1, recs, rec, field, true)
        } else if c == ',' {
            csv_from(s, i + 1, recs, rec.push(field), seq![], false)
        } else if c == '\r' && i + 1 < s.len() && s[i + 1] == '\n' {
            csv_from(s, i + 1, recs, rec, field, false)
        } else if c == '\n' {
            csv_from(s, i + 1, recs.push(rec.push(field)), seq![], seq![], false)
        } else {
            csv_from(s, i + 1, recs, rec, field.push(c), false)
        }
    }
}

pub open spec fn csv_spec(s: Seq<char>) -> Seq<Seq<Seq<char>>> {
    csv_from(s, 0, seq![], seq![], seq![], false)
}

pub open spec fn rec_views(v: Seq<Vec<Vec<char>>>) -> Seq<Seq<Seq<char>>> {
    v.map_values(|r: Vec<Vec<char>>| cviews(r@))
}

fn csv_of(s: &[char]) -> (r: Vec<Vec<Vec<char>>>)
    ensures
        rec_views(r@) == csv_spec(s@),
{
    let mut recs: Vec<Vec<Vec<char>>> = Vec::new();
    let mut rec: Vec<Vec<char>> = Vec::new();
    let mut field: Vec<char> = Vec::new();
    let mut quoted = false;
    let mut i: usize = 0;
    assert(rec_views(recs@) =~= Seq::<Seq<Seq<char>>>::empty());
    assert(cviews(rec@) =~= Seq::<Seq<char>>::empty());
    assert(field@ =~= Seq::<char>::empty());
    while i < s.len()
        invariant
            i <= s@.len(),
            csv_from(s@, i as int, rec_views(recs@), cviews(rec@), field@, quoted) == csv_spec(
                s@,
            ),
        decreases s@.len() - i,
    {
        let c = s[i];
        if quoted {
            if c == '"' {
                if i + 1 < s.len() && s[i + 1] == '"' {
                    field.push('"');
                    i = i + 2;
                } else {
                    quoted = false;
                    i = i + 1;
                }
            } else {
                field.push(c);
                i = i + 1;
            }
        } else if c == '"' {
            quoted = true;
            i = i + 1;
        } else if c == ',' {
            let ghost before = cviews(rec@);
            let f = field;
            rec.push(f);
            field = Vec::new();
            assert(cviews(rec@) =~= before.push(f@));
            assert(field@ =~= Seq::<char>::empty());
            i = i + 1;
        } else if c == '\r' && i + 1 < s.len() && s[i + 1] == '\n' {
            i = i + 1;
        } else if c == '\n' {
            let ghost before = cviews(rec@);
            let ghost rs = rec_views(recs@);
            let f = field;
            rec.push(f);
            assert(cviews(rec@) =~= before.push(f@));
            let r = rec;
            recs.push(r);
            assert(rec_views(recs@) =~= rs.push(before.push(f@)));
            rec = Vec::new();
            field = Vec::new();
            assert(cviews(rec@) =~= Seq::<Seq<char>>::empty());
            assert(field@ =~= Seq::<char>::empty());
            i = i + 1;
        } else {
            field.push(c);
            i = i + 1;
        }
    }
    if field.len() > 0 || rec.len() > 0 {
        let ghost before = cviews(rec@);
        let ghost rs = rec_views(recs@);
        let f = field;
        rec.push(f);
        assert(cviews(rec@) =~= before.push(f@));
        recs.push(rec);
        assert(rec_views(recs@) =~= rs.push(before.push(f@)));
    }
    recs
}

// ---------------------------------------------------------------------------
// reading TSV
// ---------------------------------------------------------------------------

/// mysql's escapes undone from character `i` on: `\n`, `\t`, `\0` (nothing),
/// any other escaped character itself, and a lone backslash at the end kept.
pub open spec fn unescape_from(s: Seq<char>, i: int) -> Seq<char>
    decreases s.len() - i,
{
    if i < 0 || i >= s.len() {
        seq![]
    } else if s[i] != '\\' {
        seq![s[i]] + unescape_from(s, i + 1)
    } else if i + 1 >= s.len() {
        seq!['\\']
    } else {
        let d = s[i + 1];
        (if d == 'n' {
            seq!['\n']
        } else if d == 't' {
            seq!['\t']
        } else if d == '0' {
            seq![]
        } else {
            seq![d]
        }) + unescape_from(s, i + 2)
    }
}

pub open spec fn unescape_spec(s: Seq<char>) -> Seq<char> {
    unescape_from(s, 0)
}

pub fn unescape(v: &[char]) -> (r: Vec<char>)
    ensures
        r@ == unescape_spec(v@),
{
    let mut out: Vec<char> = Vec::new();
    let mut i: usize = 0;
    while i < v.len()
        invariant
            i <= v@.len(),
            out@ + unescape_from(v@, i as int) == unescape_spec(v@),
        decreases v@.len() - i,
    {
        let c = v[i];
        let ghost before = out@;
        if c != '\\' {
            out.push(c);
            assert(before + unescape_from(v@, i as int) =~= out@ + unescape_from(v@, i + 1));
            i = i + 1;
        } else if i + 1 >= v.len() {
            out.push('\\');
            assert(before + unescape_from(v@, i as int) =~= out@ + unescape_from(v@, i + 1));
            i = i + 1;
        } else {
            let d = v[i + 1];
            if d == 'n' {
                out.push('\n');
            } else if d == 't' {
                out.push('\t');
            } else if d == '0' {
            } else {
                out.push(d);
            }
            assert(before + unescape_from(v@, i as int) =~= out@ + unescape_from(v@, i + 2));
            i = i + 2;
        }
    }
    assert(out@ + unescape_from(v@, i as int) =~= out@);
    out
}

/// The records of mysql's `--batch` output: one per line, tab-separated,
/// each value unescaped.
pub open spec fn tsv_spec(s: Seq<char>) -> Seq<Seq<Seq<char>>> {
    lines(s).map_values(|l: Seq<char>| split(l, '\t').map_values(|f: Seq<char>| unescape_spec(f)))
}

fn tsv_of(s: &[char]) -> (r: Vec<Vec<Vec<char>>>)
    ensures
        rec_views(r@) == tsv_spec(s@),
{
    let ls = lines_of(s);
    let mut recs: Vec<Vec<Vec<char>>> = Vec::new();
    let mut i: usize = 0;
    while i < ls.len()
        invariant
            i <= ls@.len(),
            cviews(ls@) == lines(s@),
            rec_views(recs@) == tsv_spec(s@).take(i as int),
        decreases ls@.len() - i,
    {
        let parts = split_of(ls[i].as_slice(), '\t');
        let ghost want = split(ls@[i as int]@, '\t').map_values(|f: Seq<char>| unescape_spec(f));
        let mut rec: Vec<Vec<char>> = Vec::new();
        let mut j: usize = 0;
        while j < parts.len()
            invariant
                j <= parts@.len(),
                cviews(parts@) == split(ls@[i as int]@, '\t'),
                want == split(ls@[i as int]@, '\t').map_values(|f: Seq<char>| unescape_spec(f)),
                cviews(rec@) == want.take(j as int),
            decreases parts@.len() - j,
        {
            let ghost before = cviews(rec@);
            assert(cviews(parts@)[j as int] == parts@[j as int]@);
            rec.push(unescape(parts[j].as_slice()));
            assert(cviews(rec@) =~= before.push(want[j as int]));
            j = j + 1;
            assert(want.take(j as int) =~= want.take(j - 1).push(want[j - 1]));
        }
        assert(want.take(parts@.len() as int) =~= want);
        let ghost rs = rec_views(recs@);
        recs.push(rec);
        assert(cviews(ls@)[i as int] == ls@[i as int]@);
        assert(rec_views(recs@) =~= rs.push(want));
        i = i + 1;
        assert(tsv_spec(s@).take(i as int) =~= tsv_spec(s@).take(i - 1).push(want));
    }
    assert(tsv_spec(s@).take(ls@.len() as int) =~= tsv_spec(s@));
    recs
}

// ---------------------------------------------------------------------------
// drawing
// ---------------------------------------------------------------------------

/// A backslash before every `|`, which would otherwise end the cell.
pub open spec fn escape_pipes(s: Seq<char>) -> Seq<char>
    decreases s.len(),
{
    if s.len() == 0 {
        seq![]
    } else {
        escape_pipes(s.drop_last()) + if s.last() == '|' {
            seq!['\\', '|']
        } else {
            seq![s.last()]
        }
    }
}

/// A value as one markdown cell: a row cannot hold a newline, so each line
/// is trimmed and the lines are joined with `<br>`.
pub open spec fn cell_spec(v: Seq<char>) -> Seq<char> {
    escape_pipes(join(lines(v).map_values(|l: Seq<char>| trim(l)), "<br>"@))
}

fn cell(v: &[char]) -> (r: Vec<char>)
    ensures
        r@ == cell_spec(v@),
{
    let ls = lines_of(v);
    let ghost want = lines(v@).map_values(|l: Seq<char>| trim(l));
    let mut parts: Vec<Vec<char>> = Vec::new();
    let mut i: usize = 0;
    while i < ls.len()
        invariant
            i <= ls@.len(),
            cviews(ls@) == lines(v@),
            want == lines(v@).map_values(|l: Seq<char>| trim(l)),
            cviews(parts@) == want.take(i as int),
        decreases ls@.len() - i,
    {
        let ghost before = cviews(parts@);
        assert(cviews(ls@)[i as int] == ls@[i as int]@);
        parts.push(trimmed(ls[i].as_slice()));
        assert(cviews(parts@) =~= before.push(want[i as int]));
        i = i + 1;
        assert(want.take(i as int) =~= want.take(i - 1).push(want[i - 1]));
    }
    assert(want.take(ls@.len() as int) =~= want);
    let joined = join_of(&parts, chars_of("<br>").as_slice());
    let mut r: Vec<char> = Vec::new();
    let mut k: usize = 0;
    while k < joined.len()
        invariant
            k <= joined@.len(),
            r@ == escape_pipes(joined@.take(k as int)),
        decreases joined@.len() - k,
    {
        assert(joined@.take(k + 1).drop_last() =~= joined@.take(k as int));
        if joined[k] == '|' {
            r.push('\\');
        }
        r.push(joined[k]);
        k = k + 1;
        assert(r@ =~= escape_pipes(joined@.take(k as int)));
    }
    assert(joined@.take(joined@.len() as int) =~= joined@);
    r
}

/// The width of column `j` over some rows: the longest cell, and never
/// under 3, so the rule below the header is a valid one.
pub open spec fn col_width(rows: Seq<Seq<Seq<char>>>, j: int) -> nat
    decreases rows.len(),
{
    if rows.len() == 0 {
        3
    } else {
        let w = col_width(rows.drop_last(), j);
        let l = rows.last()[j].len();
        if l > w {
            l
        } else {
            w
        }
    }
}

/// `n` copies of `c`.
pub open spec fn run(c: char, n: nat) -> Seq<char> {
    Seq::new(n, |i: int| c)
}

/// One drawn row: each cell padded to its column's width.
pub open spec fn line_spec(r: Seq<Seq<char>>, widths: Seq<nat>) -> Seq<char> {
    "| "@ + join(
        Seq::new(r.len(), |j: int| r[j] + run(' ', (widths[j] - r[j].len()) as nat)),
        " | "@,
    ) + " |\n"@
}

/// The drawn rows after the first.
pub open spec fn body_lines(rows: Seq<Seq<Seq<char>>>, widths: Seq<nat>) -> Seq<char>
    decreases rows.len(),
{
    if rows.len() == 0 {
        seq![]
    } else {
        body_lines(rows.drop_last(), widths) + line_spec(rows.last(), widths)
    }
}

/// Whether every record has `n` fields.
pub open spec fn all_width(rows: Seq<Seq<Seq<char>>>, n: int) -> bool {
    forall|i: int| 0 <= i < rows.len() ==> (#[trigger] rows[i]).len() == n
}

/// One table, padded so the raw text reads as well in a terminal as
/// rendered: the header, a rule of dashes, then every other record.
pub open spec fn table_spec(recs: Seq<Seq<Seq<char>>>) -> Seq<char> {
    let cells = recs.map_values(|r: Seq<Seq<char>>| r.map_values(|v: Seq<char>| cell_spec(v)));
    let n = cells[0].len();
    let widths = Seq::new(n, |j: int| col_width(cells, j));
    let rule = Seq::new(n, |j: int| run('-', widths[j]));
    line_spec(cells[0], widths) + line_spec(rule, widths) + body_lines(cells.drop_first(), widths)
}

proof fn lemma_col_width_ge(rows: Seq<Seq<Seq<char>>>, j: int, i: int)
    requires
        0 <= i < rows.len(),
    ensures
        col_width(rows, j) >= rows[i][j].len(),
        col_width(rows, j) >= 3,
    decreases rows.len(),
{
    lemma_col_width_min(rows.drop_last(), j);
    if i < rows.len() - 1 {
        lemma_col_width_ge(rows.drop_last(), j, i);
        assert(rows.drop_last()[i] == rows[i]);
    }
}

proof fn lemma_col_width_min(rows: Seq<Seq<Seq<char>>>, j: int)
    ensures
        col_width(rows, j) >= 3,
    decreases rows.len(),
{
    if rows.len() > 0 {
        lemma_col_width_min(rows.drop_last(), j);
    }
}

fn pad_to(c: &[char], w: usize) -> (r: Vec<char>)
    requires
        c@.len() <= w,
    ensures
        r@ == c@ + run(' ', (w - c@.len()) as nat),
{
    let mut r = copy(c);
    while r.len() < w
        invariant
            c@.len() <= r@.len() <= w,
            r@ == c@ + run(' ', (r@.len() - c@.len()) as nat),
        decreases w - r@.len(),
    {
        r.push(' ');
        assert(r@ =~= c@ + run(' ', (r@.len() - c@.len()) as nat));
    }
    r
}

fn line_of(r: &Vec<Vec<char>>, widths: &Vec<usize>) -> (out: Vec<char>)
    requires
        r@.len() == widths@.len(),
        forall|j: int| 0 <= j < r@.len() ==> (#[trigger] r@[j])@.len() <= widths@[j],
    ensures
        out@ == line_spec(cviews(r@), widths@.map_values(|w: usize| w as nat)),
{
    let ghost ws = widths@.map_values(|w: usize| w as nat);
    let ghost want = Seq::new(
        r@.len(),
        |j: int| cviews(r@)[j] + run(' ', (ws[j] - cviews(r@)[j].len()) as nat),
    );
    let mut parts: Vec<Vec<char>> = Vec::new();
    let mut j: usize = 0;
    while j < r.len()
        invariant
            j <= r@.len(),
            r@.len() == widths@.len(),
            forall|k: int| 0 <= k < r@.len() ==> (#[trigger] r@[k])@.len() <= widths@[k],
            ws == widths@.map_values(|w: usize| w as nat),
            want == Seq::new(
                r@.len(),
                |k: int| cviews(r@)[k] + run(' ', (ws[k] - cviews(r@)[k].len()) as nat),
            ),
            cviews(parts@) == want.take(j as int),
        decreases r@.len() - j,
    {
        let ghost before = cviews(parts@);
        assert(r@[j as int]@.len() <= widths@[j as int]);
        let p = pad_to(r[j].as_slice(), widths[j]);
        parts.push(p);
        assert(want[j as int] =~= r@[j as int]@ + run(
            ' ',
            (widths@[j as int] - r@[j as int]@.len()) as nat,
        ));
        assert(cviews(parts@) =~= before.push(want[j as int]));
        j = j + 1;
        assert(want.take(j as int) =~= want.take(j - 1).push(want[j - 1]));
    }
    assert(want.take(r@.len() as int) =~= want);
    let mut out = chars_of("| ");
    extend(&mut out, join_of(&parts, chars_of(" | ").as_slice()).as_slice());
    extend(&mut out, chars_of(" |\n").as_slice());
    out
}

fn table(recs: &Vec<Vec<Vec<char>>>) -> (r: Vec<char>)
    requires
        recs@.len() > 0,
        all_width(rec_views(recs@), rec_views(recs@)[0].len() as int),
    ensures
        r@ == table_spec(rec_views(recs@)),
{
    let ghost rv = rec_views(recs@);
    let ghost cells_v = rv.map_values(|r: Seq<Seq<char>>| r.map_values(|v: Seq<char>| cell_spec(v)));
    let mut cells: Vec<Vec<Vec<char>>> = Vec::new();
    let mut i: usize = 0;
    while i < recs.len()
        invariant
            i <= recs@.len(),
            rv == rec_views(recs@),
            cells_v == rv.map_values(|r: Seq<Seq<char>>| r.map_values(|v: Seq<char>| cell_spec(v))),
            rec_views(cells@) == cells_v.take(i as int),
        decreases recs@.len() - i,
    {
        let ghost want = cells_v[i as int];
        assert(rv[i as int] == cviews(recs@[i as int]@));
        let mut row: Vec<Vec<char>> = Vec::new();
        let mut j: usize = 0;
        while j < recs[i].len()
            invariant
                i < recs@.len(),
                j <= recs@[i as int]@.len(),
                rv == rec_views(recs@),
                want == rv[i as int].map_values(|v: Seq<char>| cell_spec(v)),
                cviews(row@) == want.take(j as int),
            decreases recs@[i as int]@.len() - j,
        {
            let ghost before = cviews(row@);
            assert(rv[i as int][j as int] == recs@[i as int]@[j as int]@);
            row.push(cell(recs[i][j].as_slice()));
            assert(cviews(row@) =~= before.push(want[j as int]));
            j = j + 1;
            assert(want.take(j as int) =~= want.take(j - 1).push(want[j - 1]));
        }
        assert(want.take(recs@[i as int]@.len() as int) =~= want);
        let ghost cs = rec_views(cells@);
        cells.push(row);
        assert(rec_views(cells@) =~= cs.push(want));
        i = i + 1;
        assert(cells_v.take(i as int) =~= cells_v.take(i - 1).push(cells_v[i - 1]));
    }
    assert(cells_v.take(recs@.len() as int) =~= cells_v);
    let n = cells[0].len();
    assert(rec_views(cells@)[0] == cviews(cells@[0]@));
    assert(forall|k: int| 0 <= k < cells_v.len() ==> (#[trigger] cells_v[k]).len() == n) by {
        assert forall|k: int| 0 <= k < cells_v.len() implies (#[trigger] cells_v[k]).len() == n by {
            assert(rv[k].len() == rv[0].len());
        }
    }
    let mut widths: Vec<usize> = Vec::new();
    let mut j: usize = 0;
    while j < n
        invariant
            j <= n,
            widths@.len() == j,
            forall|k: int| 0 <= k < j ==> #[trigger] widths@[k] == 3,
        decreases n - j,
    {
        widths.push(3);
        j = j + 1;
    }
    let mut i: usize = 0;
    while i < cells.len()
        invariant
            i <= cells@.len(),
            widths@.len() == n,
            rec_views(cells@) == cells_v,
            forall|k: int| 0 <= k < cells_v.len() ==> (#[trigger] cells_v[k]).len() == n,
            forall|k: int| 0 <= k < n ==> #[trigger] widths@[k] == col_width(
                cells_v.take(i as int),
                k,
            ),
        decreases cells@.len() - i,
    {
        assert(cells_v[i as int] == cviews(cells@[i as int]@));
        assert(cells_v.take(i + 1).drop_last() =~= cells_v.take(i as int));
        let mut j: usize = 0;
        while j < n
            invariant
                i < cells@.len(),
                j <= n,
                widths@.len() == n,
                rec_views(cells@) == cells_v,
                cells_v[i as int].len() == n,
                cells@[i as int]@.len() == n,
                cells_v.take(i + 1).drop_last() == cells_v.take(i as int),
                cells_v.take(i + 1).last() == cells_v[i as int],
                forall|k: int| 0 <= k < j ==> #[trigger] widths@[k] == col_width(
                    cells_v.take(i + 1),
                    k,
                ),
                forall|k: int| j <= k < n ==> #[trigger] widths@[k] == col_width(
                    cells_v.take(i as int),
                    k,
                ),
            decreases n - j,
        {
            assert(cells_v[i as int][j as int] == cells@[i as int]@[j as int]@);
            assert(cells_v.take(i + 1).last() == cells_v[i as int]);
            let l = cells[i][j].len();
            if l > widths[j] {
                widths.set(j, l);
            }
            j = j + 1;
        }
        i = i + 1;
    }
    assert(cells_v.take(cells@.len() as int) =~= cells_v);
    let ghost ws = widths@.map_values(|w: usize| w as nat);
    assert(ws =~= Seq::new(n as nat, |k: int| col_width(cells_v, k)));
    assert forall|r: int, k: int| 0 <= r < cells_v.len() && 0 <= k < n implies (
    #[trigger] cells_v[r][k]).len() <= ws[k] by {
        lemma_col_width_ge(cells_v, k, r);
    }
    let mut rule: Vec<Vec<char>> = Vec::new();
    let mut j: usize = 0;
    while j < n
        invariant
            j <= n,
            widths@.len() == n,
            rule@.len() == j,
            forall|k: int| 0 <= k < j ==> (#[trigger] rule@[k])@ == run('-', widths@[k] as nat),
        decreases n - j,
    {
        let mut d: Vec<char> = Vec::new();
        while d.len() < widths[j]
            invariant
                j < widths@.len(),
                d@.len() <= widths@[j as int],
                d@ == run('-', d@.len()),
            decreases widths@[j as int] - d@.len(),
        {
            d.push('-');
            assert(d@ =~= run('-', d@.len()));
        }
        rule.push(d);
        j = j + 1;
    }
    assert(cviews(rule@) =~= Seq::new(n as nat, |k: int| run('-', ws[k])));
    let ghost rule_v = cviews(rule@);
    assert(cells_v[0] == cviews(cells@[0]@));
    assert forall|k: int| 0 <= k < cells@[0]@.len() implies (#[trigger] cells@[0]@[k])@.len()
        <= widths@[k] by {
        assert(cells_v[0][k] == cells@[0]@[k]@);
        assert(ws[k] == widths@[k]);
    }
    let mut out = line_of(&cells[0], &widths);
    proof {
        assert forall|k: int| 0 <= k < rule@.len() implies (#[trigger] rule@[k])@.len()
            <= widths@[k] by {
            assert(rule@[k]@ == run('-', widths@[k] as nat));
        }
    }
    extend(&mut out, line_of(&rule, &widths).as_slice());
    let ghost head = out@;
    let mut i: usize = 1;
    while i < cells.len()
        invariant
            1 <= i <= cells@.len(),
            widths@.len() == n,
            rec_views(cells@) == cells_v,
            ws == widths@.map_values(|w: usize| w as nat),
            forall|r: int, k: int| 0 <= r < cells_v.len() && 0 <= k < n ==> (
            #[trigger] cells_v[r][k]).len() <= ws[k],
            forall|k: int| 0 <= k < cells_v.len() ==> (#[trigger] cells_v[k]).len() == n,
            out@ == head + body_lines(cells_v.subrange(1, i as int), ws),
        decreases cells@.len() - i,
    {
        assert(cells_v[i as int] == cviews(cells@[i as int]@));
        assert forall|k: int| 0 <= k < cells@[i as int]@.len() implies (
        #[trigger] cells@[i as int]@[k])@.len() <= widths@[k] by {
            assert(cells_v[i as int][k] == cells@[i as int]@[k]@);
        }
        let l = line_of(&cells[i], &widths);
        let ghost before = out@;
        extend(&mut out, l.as_slice());
        assert(cells_v.subrange(1, i + 1).drop_last() =~= cells_v.subrange(1, i as int));
        assert(cells_v.subrange(1, i + 1).last() == cells_v[i as int]);
        i = i + 1;
    }
    assert(cells_v.subrange(1, cells@.len() as int) =~= cells_v.drop_first());
    out
}

/// Consecutive records grouped into tables: a change in the number of fields
/// starts the next one, since a client prints results back to back.
pub open spec fn groups(recs: Seq<Seq<Seq<char>>>) -> Seq<Seq<Seq<Seq<char>>>>
    decreases recs.len(),
{
    if recs.len() == 0 {
        seq![]
    } else {
        let g = groups(recs.drop_last());
        let r = recs.last();
        if g.len() > 0 && g.last()[0].len() == r.len() {
            g.update(g.len() - 1, g.last().push(r))
        } else {
            g.push(seq![r])
        }
    }
}

/// Every result as a markdown table, a blank line between them.
pub open spec fn render_spec(out: Seq<char>, rows: Rows) -> Seq<char> {
    let recs = match rows {
        Rows::Csv => csv_spec(out),
        Rows::Tsv => tsv_spec(out),
    };
    join(groups(recs).map_values(|t: Seq<Seq<Seq<char>>>| table_spec(t)), seq!['\n'])
}

proof fn lemma_groups_shape(recs: Seq<Seq<Seq<char>>>)
    ensures
        forall|k: int|
            0 <= k < groups(recs).len() ==> (#[trigger] groups(recs)[k]).len() > 0 && all_width(
                groups(recs)[k],
                groups(recs)[k][0].len() as int,
            ),
    decreases recs.len(),
{
    if recs.len() > 0 {
        lemma_groups_shape(recs.drop_last());
        let g = groups(recs.drop_last());
        let r = recs.last();
        if g.len() > 0 && g.last()[0].len() == r.len() {
            let t = g.last().push(r);
            assert(t[0] == g.last()[0]);
            assert forall|i: int| 0 <= i < t.len() implies (#[trigger] t[i]).len() == t[0].len() by {
                if i < t.len() - 1 {
                    assert(t[i] == g.last()[i]);
                }
            }
        }
    }
}

/// Every result in `out` as a markdown table, a blank line between them.
/// Two results of the same width print as one table.
pub fn render(out: &str, rows: Rows) -> (r: String)
    ensures
        r@ == render_spec(out@, rows),
{
    let s = chars_of(out);
    let recs = match rows {
        Rows::Csv => csv_of(s.as_slice()),
        Rows::Tsv => tsv_of(s.as_slice()),
    };
    let ghost rv = rec_views(recs@);
    let mut tables: Vec<Vec<Vec<Vec<char>>>> = Vec::new();
    let mut i: usize = 0;
    while i < recs.len()
        invariant
            i <= recs@.len(),
            rv == rec_views(recs@),
            tables@.map_values(|t: Vec<Vec<Vec<char>>>| rec_views(t@)) == groups(
                rv.take(i as int),
            ),
        decreases recs@.len() - i,
    {
        let ghost g = tables@.map_values(|t: Vec<Vec<Vec<char>>>| rec_views(t@));
        assert(rv.take(i + 1).drop_last() =~= rv.take(i as int));
        assert(rv.take(i + 1).last() == rv[i as int]);
        assert(rv[i as int] == cviews(recs@[i as int]@));
        let r = copy_record(&recs[i]);
        let n = tables.len();
        let joins = if n > 0 {
            assert(g[n - 1] == rec_views(tables@[n - 1]@));
            proof {
                lemma_groups_shape(rv.take(i as int));
            }
            tables[n - 1].len() > 0 && tables[n - 1][0].len() == r.len()
        } else {
            false
        };
        if joins {
            assert(g.last()[0] == cviews(tables@[n - 1]@[0]@));
            let mut t = tables.pop().unwrap();
            let ghost tv = rec_views(t@);
            t.push(r);
            assert(rec_views(t@) =~= tv.push(rv[i as int]));
            tables.push(t);
            assert(tables@.map_values(|t: Vec<Vec<Vec<char>>>| rec_views(t@)) =~= g.update(
                n - 1,
                g.last().push(rv[i as int]),
            ));
        } else {
            proof {
                if n > 0 {
                    lemma_groups_shape(rv.take(i as int));
                    assert(g.last()[0] == cviews(tables@[n - 1]@[0]@));
                }
            }
            let t = vec![r];
            assert(rec_views(t@) =~= seq![rv[i as int]]);
            tables.push(t);
            assert(tables@.map_values(|t: Vec<Vec<Vec<char>>>| rec_views(t@)) =~= g.push(
                seq![rv[i as int]],
            ));
        }
        i = i + 1;
    }
    assert(rv.take(recs@.len() as int) =~= rv);
    let ghost gs = groups(rv);
    proof {
        lemma_groups_shape(rv);
    }
    let mut drawn: Vec<Vec<char>> = Vec::new();
    let mut k: usize = 0;
    while k < tables.len()
        invariant
            k <= tables@.len(),
            tables@.map_values(|t: Vec<Vec<Vec<char>>>| rec_views(t@)) == gs,
            gs == groups(rv),
            forall|q: int|
                0 <= q < gs.len() ==> (#[trigger] gs[q]).len() > 0 && all_width(
                    gs[q],
                    gs[q][0].len() as int,
                ),
            cviews(drawn@) == gs.map_values(|t: Seq<Seq<Seq<char>>>| table_spec(t)).take(
                k as int,
            ),
        decreases tables@.len() - k,
    {
        assert(gs[k as int] == rec_views(tables@[k as int]@));
        let d = table(&tables[k]);
        let ghost before = cviews(drawn@);
        drawn.push(d);
        let ghost all = gs.map_values(|t: Seq<Seq<Seq<char>>>| table_spec(t));
        assert(cviews(drawn@) =~= before.push(all[k as int]));
        k = k + 1;
        assert(all.take(k as int) =~= all.take(k - 1).push(all[k - 1]));
    }
    let ghost all = gs.map_values(|t: Seq<Seq<Seq<char>>>| table_spec(t));
    assert(all.take(tables@.len() as int) =~= all);
    let nl = vec!['\n'];
    assert(nl@ =~= seq!['\n']);
    string_of(join_of(&drawn, nl.as_slice()).as_slice())
}

fn copy_record(r: &Vec<Vec<char>>) -> (c: Vec<Vec<char>>)
    ensures
        cviews(c@) == cviews(r@),
{
    let mut c: Vec<Vec<char>> = Vec::new();
    let mut i: usize = 0;
    while i < r.len()
        invariant
            i <= r@.len(),
            cviews(c@) == cviews(r@).take(i as int),
        decreases r@.len() - i,
    {
        let ghost before = cviews(c@);
        c.push(copy(r[i].as_slice()));
        assert(cviews(c@) =~= before.push(r@[i as int]@));
        i = i + 1;
        assert(cviews(r@).take(i as int) =~= cviews(r@).take(i - 1).push(r@[i - 1]@));
    }
    assert(cviews(r@).take(r@.len() as int) =~= cviews(r@));
    c
}

// ---------------------------------------------------------------------------
// what reading CSV promises
// ---------------------------------------------------------------------------

/// A value's inside under RFC 4180 quoting: each quote doubled.
pub open spec fn doubled(v: Seq<char>) -> Seq<char>
    decreases v.len(),
{
    if v.len() == 0 {
        seq![]
    } else {
        (if v[0] == '"' {
            seq!['"', '"']
        } else {
            seq![v[0]]
        }) + doubled(v.drop_first())
    }
}

/// A value as a CSV writer quotes it: in quotes, each quote inside doubled.
pub open spec fn rfc_quoted(v: Seq<char>) -> Seq<char> {
    seq!['"'] + doubled(v) + seq!['"']
}

/// Reading the doubled inside of `v` and its closing quote from `i` adds
/// exactly `v` to the field and leaves the quotes.
proof fn lemma_read_doubled(
    s: Seq<char>,
    i: int,
    recs: Seq<Seq<Seq<char>>>,
    rec: Seq<Seq<char>>,
    field: Seq<char>,
    v: Seq<char>,
)
    requires
        0 <= i,
        i + doubled(v).len() < s.len(),
        s.subrange(i, i + doubled(v).len()) == doubled(v),
        s[i + doubled(v).len()] == '"',
        i + doubled(v).len() + 1 < s.len() ==> s[i + doubled(v).len() + 1] != '"',
    ensures
        csv_from(s, i, recs, rec, field, true) == csv_from(
            s,
            i + doubled(v).len() + 1,
            recs,
            rec,
            field + v,
            false,
        ),
    decreases v.len(),
{
    let d = doubled(v);
    if v.len() == 0 {
        assert(field + v =~= field);
    } else {
        let head: Seq<char> = if v[0] == '"' {
            seq!['"', '"']
        } else {
            seq![v[0]]
        };
        let rest = doubled(v.drop_first());
        assert(d == head + rest);
        let j = i + head.len();
        assert(s[i] == d[0]);
        assert(s.subrange(j, j + rest.len()) =~= rest) by {
            assert forall|k: int| 0 <= k < rest.len() implies s.subrange(j, j + rest.len())[k] == rest[k] by {
                assert(s[j + k] == s.subrange(i, i + d.len())[head.len() + k]);
                assert(d[head.len() + k] == rest[k]);
            }
        }
        if v[0] == '"' {
            assert(s[i + 1] == d[1]);
            assert(field.push('"') + v.drop_first() =~= field + v);
        } else {
            assert(field.push(v[0]) + v.drop_first() =~= field + v);
        }
        lemma_read_doubled(s, j, recs, rec, if v[0] == '"' {
            field.push('"')
        } else {
            field.push(v[0])
        }, v.drop_first());
    }
}

/// CSV reading undoes RFC 4180 quoting: a line holding one quoted value
/// reads back as one record of exactly that value, whatever it holds -
/// commas, line breaks, and quotes, each doubled quote read as one.
pub proof fn lemma_quoted_value_reads_back(v: Seq<char>)
    ensures
        csv_spec(rfc_quoted(v) + seq!['\n']) == seq![seq![v]],
{
    let s = rfc_quoted(v) + seq!['\n'];
    let d = doubled(v);
    let n: int = d.len() as int + 1;
    assert(s[0] == '"');
    assert(s.subrange(1, 1 + d.len() as int) =~= d);
    assert(s[n] == '"');
    assert(s[n + 1] == '\n');
    let e0 = Seq::<Seq<Seq<char>>>::empty();
    let e1 = Seq::<Seq<char>>::empty();
    let e2 = Seq::<char>::empty();
    assert(csv_spec(s) == csv_from(s, 1, e0, e1, e2, true));
    lemma_read_doubled(s, 1, e0, e1, e2, v);
    assert(e2 + v =~= v);
    assert(csv_from(s, n + 1, e0, e1, v, false) == csv_from(s, n + 2, e0.push(e1.push(v)), e1, e2, false));
    assert(n + 2 == s.len());
    assert(e0.push(e1.push(v)) =~= seq![seq![v]]);
}

/// One CSV record of quoted values: each quoted, separated by commas,
/// ended by a line break.
pub open spec fn quoted_line(vs: Seq<Seq<char>>) -> Seq<char>
    decreases vs.len(),
{
    if vs.len() <= 1 {
        if vs.len() == 0 {
            seq!['\n']
        } else {
            rfc_quoted(vs[0]) + seq!['\n']
        }
    } else {
        rfc_quoted(vs[0]) + seq![','] + quoted_line(vs.drop_first())
    }
}

/// Records of quoted values, one line each.
pub open spec fn quoted_table(rows: Seq<Seq<Seq<char>>>) -> Seq<char>
    decreases rows.len(),
{
    if rows.len() == 0 {
        seq![]
    } else {
        quoted_line(rows[0]) + quoted_table(rows.drop_first())
    }
}

proof fn lemma_sub_split(s: Seq<char>, i: int, a: Seq<char>, b: Seq<char>)
    requires
        0 <= i,
        i + a.len() + b.len() <= s.len(),
        s.subrange(i, i + a.len() + b.len()) == a + b,
    ensures
        s.subrange(i, i + a.len()) == a,
        s.subrange(i + a.len(), i + a.len() + b.len()) == b,
{
    assert forall|k: int| 0 <= k < a.len() implies s.subrange(i, i + a.len())[k] == a[k] by {
        assert(s[i + k] == s.subrange(i, i + a.len() + b.len())[k]);
        assert((a + b)[k] == a[k]);
    }
    assert forall|k: int| 0 <= k < b.len() implies s.subrange(i + a.len(), i + a.len() + b.len())[k] == b[k] by {
        assert(s[i + a.len() + k] == s.subrange(i, i + a.len() + b.len())[a.len() + k]);
        assert((a + b)[a.len() + k] == b[k]);
    }
    assert(s.subrange(i, i + a.len()) =~= a);
    assert(s.subrange(i + a.len(), i + a.len() + b.len()) =~= b);
}

/// Reading one quoted value from the start of a field, and the comma or
/// line break after it.
proof fn lemma_read_quoted_field(
    s: Seq<char>,
    i: int,
    recs: Seq<Seq<Seq<char>>>,
    rec: Seq<Seq<char>>,
    v: Seq<char>,
    sep: char,
)
    requires
        0 <= i,
        sep == ',' || sep == '\n',
        i + rfc_quoted(v).len() + 1 <= s.len(),
        s.subrange(i, i + rfc_quoted(v).len() + 1) == rfc_quoted(v) + seq![sep],
    ensures
        csv_from(s, i, recs, rec, seq![], false) == if sep == ',' {
            csv_from(s, i + rfc_quoted(v).len() + 1, recs, rec.push(v), seq![], false)
        } else {
            csv_from(s, i + rfc_quoted(v).len() + 1, recs.push(rec.push(v)), seq![], seq![], false)
        },
{
    let d = doubled(v);
    let q = rfc_quoted(v);
    let all = q + seq![sep];
    let n: int = d.len() as int;
    assert(all.len() == d.len() + 3);
    assert(s[i] == s.subrange(i, i + all.len())[0]);
    assert(all[0] == '"');
    assert forall|k: int| 0 <= k < d.len() implies s.subrange(i + 1, i + 1 + d.len())[k] == d[k] by {
        assert(s[i + 1 + k] == s.subrange(i, i + all.len())[1 + k]);
        assert(all[1 + k] == d[k]);
    }
    assert(s.subrange(i + 1, i + 1 + d.len()) =~= d);
    assert(s[i + 1 + d.len()] == s.subrange(i, i + all.len())[1 + n]);
    assert(all[1 + n] == '"');
    assert(s[i + 2 + d.len()] == s.subrange(i, i + all.len())[2 + n]);
    assert(all[2 + n] == sep);
    let e = Seq::<char>::empty();
    lemma_read_doubled(s, i + 1, recs, rec, e, v);
    assert(e + v =~= v);
}

/// Reading one record of quoted values adds exactly those values as a
/// record.
proof fn lemma_read_quoted_line(s: Seq<char>, i: int, recs: Seq<Seq<Seq<char>>>, rec: Seq<Seq<char>>, vs: Seq<Seq<char>>)
    requires
        0 <= i,
        vs.len() > 0,
        i + quoted_line(vs).len() <= s.len(),
        s.subrange(i, i + quoted_line(vs).len()) == quoted_line(vs),
    ensures
        csv_from(s, i, recs, rec, seq![], false) == csv_from(
            s,
            i + quoted_line(vs).len(),
            recs.push(rec + vs),
            seq![],
            seq![],
            false,
        ),
    decreases vs.len(),
{
    let q = rfc_quoted(vs[0]);
    if vs.len() == 1 {
        assert(quoted_line(vs) == q + seq!['\n']);
        lemma_read_quoted_field(s, i, recs, rec, vs[0], '\n');
        assert(rec.push(vs[0]) =~= rec + vs);
    } else {
        let rest = quoted_line(vs.drop_first());
        assert(quoted_line(vs) == (q + seq![',']) + rest);
        lemma_sub_split(s, i, q + seq![','], rest);
        lemma_read_quoted_field(s, i, recs, rec, vs[0], ',');
        let j = i + q.len() + 1;
        lemma_read_quoted_line(s, j, recs, rec.push(vs[0]), vs.drop_first());
        assert(rec.push(vs[0]) + vs.drop_first() =~= rec + vs);
    }
}

proof fn lemma_read_quoted_table(s: Seq<char>, i: int, recs: Seq<Seq<Seq<char>>>, rows: Seq<Seq<Seq<char>>>)
    requires
        0 <= i,
        forall|k: int| 0 <= k < rows.len() ==> (#[trigger] rows[k]).len() > 0,
        i + quoted_table(rows).len() <= s.len(),
        s.subrange(i, i + quoted_table(rows).len()) == quoted_table(rows),
    ensures
        csv_from(s, i, recs, seq![], seq![], false) == csv_from(
            s,
            i + quoted_table(rows).len(),
            recs + rows,
            seq![],
            seq![],
            false,
        ),
    decreases rows.len(),
{
    if rows.len() == 0 {
        assert(recs + rows =~= recs);
    } else {
        let l = quoted_line(rows[0]);
        let rest = quoted_table(rows.drop_first());
        lemma_sub_split(s, i, l, rest);
        let e = Seq::<Seq<char>>::empty();
        lemma_read_quoted_line(s, i, recs, e, rows[0]);
        assert(e + rows[0] =~= rows[0]);
        assert forall|k: int| 0 <= k < rows.drop_first().len() implies (#[trigger] rows.drop_first()[k]).len() > 0 by {
            assert(rows.drop_first()[k] == rows[k + 1]);
        }
        lemma_read_quoted_table(s, i + l.len(), recs.push(rows[0]), rows.drop_first());
        assert(recs.push(rows[0]) + rows.drop_first() =~= recs + rows);
    }
}

/// CSV text written by quoting every value (RFC 4180) reads back as
/// exactly the records written, each value whole: commas, line breaks and
/// quotes inside values included.
pub proof fn lemma_quoted_table_reads_back(rows: Seq<Seq<Seq<char>>>)
    requires
        forall|k: int| 0 <= k < rows.len() ==> (#[trigger] rows[k]).len() > 0,
    ensures
        csv_spec(quoted_table(rows)) == rows,
{
    let s = quoted_table(rows);
    assert(s.subrange(0, s.len() as int) =~= s);
    let e0 = Seq::<Seq<Seq<char>>>::empty();
    lemma_read_quoted_table(s, 0, e0, rows);
    assert(e0 + rows =~= rows);
}

/// A value CSV can carry without quotes: no quote, comma, carriage
/// return or line break in it.
pub open spec fn bare_value(v: Seq<char>) -> bool {
    forall|k: int| 0 <= k < v.len() ==> #[trigger] v[k] != '"' && v[k] != ',' && v[k] != '\r' && v[k] != '\n'
}

/// One CSV record of bare values, separated by commas and ended by a line
/// break.
pub open spec fn bare_line(vs: Seq<Seq<char>>) -> Seq<char>
    decreases vs.len(),
{
    if vs.len() <= 1 {
        if vs.len() == 0 {
            seq!['\n']
        } else {
            vs[0] + seq!['\n']
        }
    } else {
        vs[0] + seq![','] + bare_line(vs.drop_first())
    }
}

proof fn lemma_read_bare(
    s: Seq<char>,
    i: int,
    recs: Seq<Seq<Seq<char>>>,
    rec: Seq<Seq<char>>,
    field: Seq<char>,
    v: Seq<char>,
)
    requires
        0 <= i,
        bare_value(v),
        i + v.len() <= s.len(),
        s.subrange(i, i + v.len()) == v,
    ensures
        csv_from(s, i, recs, rec, field, false) == csv_from(s, i + v.len(), recs, rec, field + v, false),
    decreases v.len(),
{
    if v.len() == 0 {
        assert(field + v =~= field);
    } else {
        assert(s[i] == s.subrange(i, i + v.len())[0]);
        assert(s.subrange(i + 1, i + v.len()) =~= v.drop_first()) by {
            assert forall|k: int| 0 <= k < v.len() - 1 implies s.subrange(i + 1, i + v.len())[k] == v.drop_first()[k] by {
                assert(s[i + 1 + k] == s.subrange(i, i + v.len())[k + 1]);
            }
        }
        assert(v[0] != '"' && v[0] != ',' && v[0] != '\r' && v[0] != '\n');
        assert forall|k: int| 0 <= k < v.drop_first().len() implies #[trigger] v.drop_first()[k] != '"' && v.drop_first()[k] != ','
            && v.drop_first()[k] != '\r' && v.drop_first()[k] != '\n' by {
            assert(v.drop_first()[k] == v[k + 1]);
        }
        lemma_read_bare(s, i + 1, recs, rec, field.push(v[0]), v.drop_first());
        assert(field.push(v[0]) + v.drop_first() =~= field + v);
    }
}

proof fn lemma_read_bare_line(s: Seq<char>, i: int, recs: Seq<Seq<Seq<char>>>, rec: Seq<Seq<char>>, vs: Seq<Seq<char>>)
    requires
        0 <= i,
        vs.len() > 0,
        forall|k: int| 0 <= k < vs.len() ==> bare_value(#[trigger] vs[k]),
        i + bare_line(vs).len() <= s.len(),
        s.subrange(i, i + bare_line(vs).len()) == bare_line(vs),
    ensures
        csv_from(s, i, recs, rec, seq![], false) == csv_from(
            s,
            i + bare_line(vs).len(),
            recs.push(rec + vs),
            seq![],
            seq![],
            false,
        ),
    decreases vs.len(),
{
    let v = vs[0];
    let e = Seq::<char>::empty();
    let sep: char = if vs.len() == 1 { '\n' } else { ',' };
    let rest: Seq<char> = if vs.len() == 1 { seq![] } else { bare_line(vs.drop_first()) };
    assert(bare_line(vs) =~= (v + seq![sep]) + rest);
    lemma_sub_split(s, i, v + seq![sep], rest);
    lemma_sub_split(s, i, v, seq![sep]);
    lemma_read_bare(s, i, recs, rec, e, v);
    assert(e + v =~= v);
    let j = i + v.len();
    assert(s[j] == s.subrange(j, j + 1)[0]);
    assert(s[j] == sep);
    if vs.len() == 1 {
        assert(rec.push(v) =~= rec + vs);
    } else {
        assert forall|k: int| 0 <= k < vs.drop_first().len() implies bare_value(#[trigger] vs.drop_first()[k]) by {
            assert(vs.drop_first()[k] == vs[k + 1]);
        }
        lemma_read_bare_line(s, j + 1, recs, rec.push(v), vs.drop_first());
        assert(rec.push(v) + vs.drop_first() =~= rec + vs);
    }
}

/// A CSV line of bare values (none holding a quote, comma or line break)
/// reads back as one record of exactly those values.
pub proof fn lemma_bare_line_reads_back(vs: Seq<Seq<char>>)
    requires
        vs.len() > 0,
        forall|k: int| 0 <= k < vs.len() ==> bare_value(#[trigger] vs[k]),
    ensures
        csv_spec(bare_line(vs)) == seq![vs],
{
    let s = bare_line(vs);
    assert(s.subrange(0, s.len() as int) =~= s);
    let e0 = Seq::<Seq<Seq<char>>>::empty();
    let e1 = Seq::<Seq<char>>::empty();
    lemma_read_bare_line(s, 0, e0, e1, vs);
    assert(e1 + vs =~= vs);
    assert(e0.push(vs) =~= seq![vs]);
}

} // verus!
