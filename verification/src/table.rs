//! Pipe tables: a header row, a separator row and body rows.
use crate::inline::{inline_runs, parse_chars};
use crate::model::{row_view, rows_view, run_views, Cell, RunV, Table};
use crate::text::{char_views, push_chars, split, split_chars, to_chars, trim, trimmed};
use vstd::prelude::*;
use vstd::slice::slice_subrange;

verus! {

/// Each text without the white space at its ends.
pub open spec fn trim_each(v: Seq<Seq<char>>) -> Seq<Seq<char>> {
    Seq::new(v.len(), |i: int| trim(v[i]))
}

/// What stands between the pipes at the ends of a trimmed row; the pipe at its end
/// may be missing.
pub open spec fn row_inner(t: Seq<char>) -> Seq<char> {
    if t.len() > 1 && t.last() == '|' {
        t.subrange(1, t.len() - 1)
    } else {
        t.skip(1)
    }
}

/// The trimmed cells of a pipe row `| a | b |`, or `None` for another line.
pub open spec fn row_cells(line: Seq<char>) -> Option<Seq<Seq<char>>> {
    let t = trim(line);
    if t.len() == 0 || t[0] != '|' {
        None
    } else {
        Some(trim_each(split(row_inner(t), '|')))
    }
}

/// A separator cell: dashes and colons, with at least one dash.
pub open spec fn separator_cell(cell: Seq<char>) -> bool {
    let c = trim(cell);
    &&& c.contains('-')
    &&& forall|i: int| 0 <= i < c.len() ==> #[trigger] c[i] == '-' || c[i] == ':'
}

/// A separator row: there are cells, and all are separator cells.
pub open spec fn separator(cells: Seq<Seq<char>>) -> bool {
    &&& cells.len() > 0
    &&& forall|i: int| 0 <= i < cells.len() ==> #[trigger] separator_cell(cells[i])
}

/// The lines begin a table: a pipe row and a separator row.
pub open spec fn table_start(lines: Seq<Seq<char>>) -> bool {
    &&& lines.len() >= 2
    &&& row_cells(lines[0]) is Some
    &&& row_cells(lines[1]) matches Some(cells) && separator(cells)
}

/// A table row of `cols` cells; missing ones are empty and more are left out.
pub open spec fn row_of(cells: Seq<Seq<char>>, cols: nat) -> Seq<Seq<RunV>> {
    Seq::new(
        cols,
        |i: int|
            inline_runs(
                if i < cells.len() {
                    cells[i]
                } else {
                    Seq::empty()
                },
            ),
    )
}

/// The rows of the lines from `i` on, as far as they are pipe rows.
pub open spec fn body_rows(lines: Seq<Seq<char>>, i: int, cols: nat) -> Seq<Seq<Seq<RunV>>>
    decreases lines.len() - i,
{
    if i < 0 || i >= lines.len() {
        Seq::empty()
    } else {
        match row_cells(lines[i]) {
            None => Seq::empty(),
            Some(cells) => seq![row_of(cells, cols)] + body_rows(lines, i + 1, cols),
        }
    }
}

/// The table that the lines hold: they begin with a header row and a separator row
/// of one length.
pub open spec fn table_of(lines: Seq<Seq<char>>) -> Option<Seq<Seq<Seq<RunV>>>> {
    if lines.len() < 2 {
        None
    } else {
        match (row_cells(lines[0]), row_cells(lines[1])) {
            (Some(header), Some(sep)) => if separator(sep) && sep.len() == header.len() {
                Some(
                    seq![row_of(header, header.len())] + body_rows(lines, 2, header.len()),
                )
            } else {
                None
            },
            _ => None,
        }
    }
}

/// Split `| a | b |` into trimmed cells, or `None` if the line is no pipe row.
pub fn split_row(line: &[char]) -> (r: Option<Vec<Vec<char>>>)
    ensures
        match r {
            Some(cells) => row_cells(line@) == Some(char_views(cells@)),
            None => row_cells(line@) is None,
        },
{
    let t = trimmed(line);
    let n: usize = t.len();
    if n == 0 || t[0] != '|' {
        return None;
    }
    let inner = if n > 1 && t[n - 1] == '|' {
        slice_subrange(t, 1, n - 1)
    } else {
        slice_subrange(t, 1, n)
    };
    assert(inner@ =~= row_inner(t@));
    let raw = split_chars(inner, '|');
    let m: usize = raw.len();
    let mut cells: Vec<Vec<char>> = Vec::new();
    for i in 0..m
        invariant
            m == raw@.len(),
            cells@.len() == i,
            forall|k: int| 0 <= k < i ==> #[trigger] cells@[k]@ == trim(raw@[k]@),
    {
        cells.push(to_vec(trimmed(raw[i].as_slice())));
    }
    assert(char_views(cells@) =~= trim_each(char_views(raw@)));
    Some(cells)
}

/// The characters of a slice as a vector.
fn to_vec(s: &[char]) -> (r: Vec<char>)
    ensures
        r@ == s@,
{
    let mut v: Vec<char> = Vec::new();
    push_chars(&mut v, s);
    assert(v@ =~= s@);
    v
}

fn is_separator_cell(cell: &[char]) -> (r: bool)
    ensures
        r == separator_cell(cell@),
{
    let c = trimmed(cell);
    let n: usize = c.len();
    let mut dash = false;
    for i in 0..n
        invariant
            n == c@.len(),
            c@ == trim(cell@),
            dash ==> c@.contains('-'),
            !dash ==> forall|k: int| 0 <= k < i ==> #[trigger] c@[k] != '-',
            forall|k: int| 0 <= k < i ==> #[trigger] c@[k] == '-' || c@[k] == ':',
    {
        if c[i] == '-' {
            assert(c@[i as int] == '-');
            dash = true;
        } else if c[i] != ':' {
            assert(c@[i as int] != '-' && c@[i as int] != ':');
            return false;
        }
    }
    dash
}

/// Whether the cells make up a separator row.
pub fn is_separator(cells: &Vec<Vec<char>>) -> (r: bool)
    ensures
        r == separator(char_views(cells@)),
{
    let n: usize = cells.len();
    let ghost v = char_views(cells@);
    if n == 0 {
        return false;
    }
    for i in 0..n
        invariant
            n == cells@.len(),
            v == char_views(cells@),
            forall|k: int| 0 <= k < i ==> #[trigger] separator_cell(v[k]),
    {
        if !is_separator_cell(cells[i].as_slice()) {
            assert(!separator_cell(v[i as int]));
            return false;
        }
    }
    true
}

/// The characters of each line.
pub open spec fn str_views(lines: Seq<&str>) -> Seq<Seq<char>> {
    Seq::new(lines.len(), |i: int| lines[i]@)
}

/// The lines as vectors of characters.
fn line_chars(lines: &[&str]) -> (r: Vec<Vec<char>>)
    ensures
        char_views(r@) == str_views(lines@),
{
    let n: usize = lines.len();
    let mut out: Vec<Vec<char>> = Vec::new();
    for i in 0..n
        invariant
            n == lines@.len(),
            out@.len() == i,
            forall|k: int| 0 <= k < i ==> #[trigger] out@[k]@ == lines@[k]@,
    {
        out.push(to_chars(lines[i]));
    }
    assert(char_views(out@) =~= str_views(lines@));
    out
}

/// Whether `lines` begin a table: a pipe row followed by a separator row
/// (`| :--- | --- |`).
pub fn is_table_start(lines: &[&str]) -> (r: bool)
    ensures
        r == table_start(str_views(lines@)),
{
    let v = line_chars(lines);
    starts_table(&v, 0)
}

/// Whether a table begins at line `i`.
pub fn starts_table(lines: &Vec<Vec<char>>, i: usize) -> (r: bool)
    requires
        i <= lines@.len(),
    ensures
        r == table_start(char_views(lines@).skip(i as int)),
{
    if lines.len() - i < 2 {
        return false;
    }
    let ghost v = char_views(lines@).skip(i as int);
    assert(v[0] == lines@[i as int]@);
    assert(v[1] == lines@[i + 1]@);
    if split_row(lines[i].as_slice()).is_none() {
        return false;
    }
    match split_row(lines[i + 1].as_slice()) {
        Some(cells) => is_separator(&cells),
        None => false,
    }
}

/// Parse a table from `lines`: the header, the separator and the body rows. `None`
/// if the first two lines are not a header and a separator with as many cells.
/// Short and long body rows are padded and cut to the header's column count.
pub fn parse_table(lines: &[&str]) -> (r: Option<Table>)
    ensures
        match r {
            Some(t) => table_of(str_views(lines@)) == Some(t@),
            None => table_of(str_views(lines@)) is None,
        },
{
    let v = line_chars(lines);
    assert(char_views(v@).subrange(0, v@.len() as int) =~= char_views(v@));
    table_at(&v, 0, v.len())
}

/// The row of these cells.
fn make_row(cells: &Vec<Vec<char>>, cols: usize) -> (r: Vec<Cell>)
    ensures
        row_view(r@) == row_of(char_views(cells@), cols as nat),
{
    let mut row: Vec<Cell> = Vec::new();
    let ghost v = char_views(cells@);
    for i in 0..cols
        invariant
            v == char_views(cells@),
            row@.len() == i,
            forall|k: int|
                0 <= k < i ==> run_views(#[trigger] row@[k]@) == row_of(v, cols as nat)[k],
    {
        let cell = if i < cells.len() {
            parse_chars(cells[i].as_slice())
        } else {
            let none: Vec<char> = Vec::new();
            assert(none@ =~= Seq::<char>::empty());
            parse_chars(none.as_slice())
        };
        row.push(cell);
    }
    assert(row_view(row@) =~= row_of(v, cols as nat));
    row
}

/// The table in the lines from `i` to `j`.
pub fn table_at(lines: &Vec<Vec<char>>, i: usize, j: usize) -> (r: Option<Table>)
    requires
        i <= j <= lines@.len(),
    ensures
        match r {
            Some(t) => table_of(char_views(lines@).subrange(i as int, j as int)) == Some(t@),
            None => table_of(char_views(lines@).subrange(i as int, j as int)) is None,
        },
{
    let ghost v = char_views(lines@).subrange(i as int, j as int);
    if j - i < 2 {
        return None;
    }
    assert(v[0] == lines@[i as int]@);
    assert(v[1] == lines@[i + 1]@);
    let header = match split_row(lines[i].as_slice()) {
        Some(h) => h,
        None => return None,
    };
    let sep = match split_row(lines[i + 1].as_slice()) {
        Some(s) => s,
        None => return None,
    };
    if !is_separator(&sep) || sep.len() != header.len() {
        return None;
    }
    let cols: usize = header.len();
    let mut rows: Vec<Vec<Cell>> = Vec::new();
    rows.push(make_row(&header, cols));
    let ghost goal = table_of(v).unwrap();
    let mut k: usize = i + 2;
    assert(rows_view(rows@) =~= seq![row_of(char_views(header@), cols as nat)]);
    while k < j
        invariant
            i + 2 <= k <= j <= lines@.len(),
            v == char_views(lines@).subrange(i as int, j as int),
            table_of(v) == Some(goal),
            rows_view(rows@) + body_rows(v, k - i, cols as nat) == goal,
        decreases j - k,
    {
        assert(v[k - i] == lines@[k as int]@);
        match split_row(lines[k].as_slice()) {
            None => {
                assert(rows_view(rows@) + body_rows(v, k - i, cols as nat) =~= rows_view(rows@));
                return Some(Table { rows });
            },
            Some(cells) => {
                let ghost before = rows_view(rows@);
                let row = make_row(&cells, cols);
                rows.push(row);
                assert(rows_view(rows@) =~= before.push(row_of(char_views(cells@), cols as nat)));
                assert(rows_view(rows@) + body_rows(v, k - i + 1, cols as nat) =~= before + (seq![
                    row_of(char_views(cells@), cols as nat),
                ] + body_rows(v, k - i + 1, cols as nat)));
            },
        }
        k = k + 1;
    }
    assert(rows_view(rows@) + body_rows(v, k - i, cols as nat) =~= rows_view(rows@));
    Some(Table { rows })
}

} // verus!
