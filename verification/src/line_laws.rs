//! Reading back lines and table rows.
use crate::inline_laws::{law_inline_round_trip, runs_hold, runs_inert};
use crate::model::{columns_of, normal_form, RunV};
use crate::render::{cell_texts, pipe_line, runs_markdown, separator_cells, table_lines};
use crate::table::{
    body_rows, row_cells, row_inner, row_of, separator, separator_cell, table_of, trim_each,
};
use crate::text::{
    find_char, join, lemma_find_char, lines, split, strip_cr, trim, trim_end, trim_start,
    white_space,
};
use vstd::prelude::*;

verus! {

/// Each line and a line feed behind it.
pub open spec fn unlines(ls: Seq<Seq<char>>) -> Seq<char>
    decreases ls.len(),
{
    if ls.len() == 0 {
        Seq::empty()
    } else {
        unlines(ls.drop_last()) + ls.last() + seq!['\n']
    }
}

/// A line that reads back: it holds no line feed and no carriage return at its end.
pub open spec fn line_holds(l: Seq<char>) -> bool {
    &&& !l.contains('\n')
    &&& l.len() > 0 ==> l.last() != '\r'
}

/// All lines read back.
pub open spec fn lines_hold(ls: Seq<Seq<char>>) -> bool {
    forall|i: int| 0 <= i < ls.len() ==> line_holds(#[trigger] ls[i])
}

/// The first line of a text.
proof fn lemma_first_line(l: Seq<char>, rest: Seq<char>)
    requires
        line_holds(l),
    ensures
        lines(l + seq!['\n'] + rest) == seq![l] + lines(rest),
{
    let s = l + seq!['\n'] + rest;
    let k = l.len() as int;
    assert(s[k] == '\n');
    lemma_find_char(s, '\n', 0);
    assert forall|j: int| 0 <= j < k implies #[trigger] s[j] != '\n' by {
        assert(s[j] == l[j]);
        assert(l.contains(l[j]));
    }
    assert(find_char(s, '\n', 0) == Some(k));
    assert(s.take(k) =~= l);
    assert(strip_cr(l) == l);
    assert(s.skip(k + 1) =~= rest);
}

/// A line ends at a line feed, and at a carriage return and a line feed in the same way; the
/// last line needs neither.
pub proof fn law_line_ends(l: Seq<char>, rest: Seq<char>)
    requires
        !l.contains('\n'),
    ensures
        lines(l + seq!['\r', '\n'] + rest) == seq![l] + lines(rest),
        l.len() == 0 || l.last() != '\r' ==> lines(l + seq!['\n'] + rest) == seq![l] + lines(rest),
        l.len() > 0 ==> lines(l) == seq![l],
        lines(Seq::<char>::empty()).len() == 0,
{
    let w = l.push('\r');
    let s = w + seq!['\n'] + rest;
    assert(l + seq!['\r', '\n'] + rest =~= s);
    let k = w.len() as int;
    assert(s[k] == '\n');
    lemma_find_char(s, '\n', 0);
    assert forall|j: int| 0 <= j < k implies #[trigger] s[j] != '\n' by {
        if j < l.len() {
            assert(s[j] == l[j]);
            assert(l.contains(l[j]));
        }
    }
    assert(find_char(s, '\n', 0) == Some(k));
    assert(s.take(k) =~= w);
    assert(w.drop_last() =~= l);
    assert(strip_cr(w) == l);
    assert(s.skip(k + 1) =~= rest);
    if l.len() == 0 || l.last() != '\r' {
        lemma_first_line(l, rest);
    }
    if l.len() > 0 {
        lemma_find_char(l, '\n', 0);
        if let Some(q) = find_char(l, '\n', 0) {
            assert(l.contains(l[q]));
        }
    }
}

/// Lines that are joined to a text are the text's lines.
pub proof fn lemma_lines(ls: Seq<Seq<char>>, rest: Seq<char>)
    requires
        lines_hold(ls),
    ensures
        lines(unlines(ls) + rest) == ls + lines(rest),
    decreases ls.len(),
{
    if ls.len() == 0 {
        assert(unlines(ls) + rest =~= rest);
        assert(ls + lines(rest) =~= lines(rest));
    } else {
        let init = ls.drop_last();
        let l = ls.last();
        assert(line_holds(ls[ls.len() - 1]));
        assert forall|i: int| 0 <= i < init.len() implies line_holds(#[trigger] init[i]) by {
            assert(line_holds(ls[i]));
        }
        let tail = l + seq!['\n'] + rest;
        lemma_lines(init, tail);
        lemma_first_line(l, rest);
        assert(unlines(ls) + rest =~= unlines(init) + tail);
        assert(init + (seq![l] + lines(rest)) =~= ls + lines(rest));
    }
}

/// The lines of two texts, one behind the other.
pub proof fn lemma_unlines_add(a: Seq<Seq<char>>, b: Seq<Seq<char>>)
    ensures
        unlines(a + b) == unlines(a) + unlines(b),
    decreases b.len(),
{
    if b.len() == 0 {
        assert(a + b =~= a);
        assert(unlines(a) + unlines(b) =~= unlines(a));
    } else {
        lemma_unlines_add(a, b.drop_last());
        assert((a + b).drop_last() =~= a + b.drop_last());
        assert(unlines(a) + (unlines(b.drop_last()) + b.last() + seq!['\n']) =~= unlines(a)
            + unlines(b.drop_last()) + b.last() + seq!['\n']);
    }
}

/// Lines joined by line feeds, with one more at the end.
pub proof fn lemma_join_lines(ls: Seq<Seq<char>>)
    requires
        ls.len() > 0,
    ensures
        join(ls, "\n"@) + seq!['\n'] == unlines(ls),
    decreases ls.len(),
{
    reveal_strlit("\n");
    assert("\n"@ =~= seq!['\n']);
    if ls.len() == 1 {
        assert(ls.drop_last() =~= Seq::<Seq<char>>::empty());
        assert(unlines(ls.drop_last()) =~= Seq::<char>::empty());
        assert(unlines(ls) =~= ls[0] + seq!['\n']);
    } else {
        lemma_join_lines(ls.drop_last());
    }
}

// ---------------------------------------------------------------------------
// Rows
// ---------------------------------------------------------------------------

/// A text without white space at its ends.
pub open spec fn tidy(s: Seq<char>) -> bool {
    s.len() > 0 ==> !white_space(s[0]) && !white_space(s.last())
}

/// Trimming leaves a tidy text as it is.
pub proof fn lemma_tidy(s: Seq<char>)
    requires
        tidy(s),
    ensures
        trim(s) == s,
        trim_start(s) == s,
        trim_end(s) == s,
{
}

/// A tidy text between spaces is trimmed to the text.
proof fn lemma_padded(s: Seq<char>)
    requires
        tidy(s),
    ensures
        trim(seq![' '] + s + seq![' ']) == s,
{
    let w = seq![' '] + s + seq![' '];
    let x = s + seq![' '];
    assert(w.skip(1) =~= x);
    assert(trim_start(w) == trim_start(x));
    if s.len() > 0 {
        assert(x[0] == s[0]);
        assert(trim_start(x) == x);
        assert(x.drop_last() =~= s);
        assert(trim_end(x) == trim_end(s));
        lemma_tidy(s);
    } else {
        assert(x =~= seq![' ']);
        assert(x.skip(1) =~= Seq::<char>::empty());
        assert(trim_start(x) == trim_start(x.skip(1)));
        assert(trim_start(Seq::<char>::empty()) == Seq::<char>::empty());
        assert(trim_end(Seq::<char>::empty()) == Seq::<char>::empty());
        assert(s =~= Seq::<char>::empty());
    }
}

/// A text that does not hold `c` is one piece.
pub proof fn lemma_split_one(s: Seq<char>, c: char)
    requires
        !s.contains(c),
    ensures
        split(s, c) == seq![s],
{
    lemma_find_char(s, c, 0);
    if let Some(k) = find_char(s, c, 0) {
        assert(s.contains(s[k]));
    }
}

/// The pieces of two texts with `c` between them.
pub proof fn lemma_split_add(a: Seq<char>, c: char, b: Seq<char>)
    ensures
        split(a + seq![c] + b, c) == split(a, c) + split(b, c),
    decreases a.len(),
{
    let s = a + seq![c] + b;
    lemma_find_char(s, c, 0);
    lemma_find_char(a, c, 0);
    assert(s[a.len() as int] == c);
    match find_char(a, c, 0) {
        None => {
            assert forall|j: int| 0 <= j < a.len() implies #[trigger] s[j] != c by {
                assert(a[j] != c);
            }
            assert(find_char(s, c, 0) == Some(a.len() as int));
            assert(s.take(a.len() as int) =~= a);
            assert(s.skip(a.len() + 1int) =~= b);
        },
        Some(k) => {
            assert(s[k] == a[k]);
            assert forall|j: int| 0 <= j < k implies #[trigger] s[j] != c by {
                assert(a[j] != c);
            }
            assert(find_char(s, c, 0) == Some(k));
            let rest = a.skip(k + 1);
            lemma_split_add(rest, c, b);
            assert(s.take(k) =~= a.take(k));
            assert(s.skip(k + 1) =~= rest + seq![c] + b);
            assert(seq![a.take(k)] + (split(rest, c) + split(b, c)) =~= seq![a.take(k)] + split(
                rest,
                c,
            ) + split(b, c));
        },
    }
}

/// Each text between spaces.
pub open spec fn padded(cells: Seq<Seq<char>>) -> Seq<Seq<char>> {
    Seq::new(cells.len(), |i: int| seq![' '] + cells[i] + seq![' '])
}

/// Cells that read back: tidy and without a pipe.
pub open spec fn cells_hold(cells: Seq<Seq<char>>) -> bool {
    forall|i: int|
        0 <= i < cells.len() ==> tidy(#[trigger] cells[i]) && !cells[i].contains('|')
}

/// The pieces between the pipes of a row are its cells, between spaces.
proof fn lemma_split_cells(cells: Seq<Seq<char>>)
    requires
        cells.len() > 0,
        cells_hold(cells),
    ensures
        split(seq![' '] + join(cells, " | "@) + seq![' '], '|') == padded(cells),
    decreases cells.len(),
{
    reveal_strlit(" | ");
    let last = cells.last();
    let w = seq![' '] + last + seq![' '];
    assert(!cells[cells.len() - 1].contains('|'));
    assert(!w.contains('|')) by {
        if w.contains('|') {
            let i = choose|i: int| 0 <= i < w.len() && w[i] == '|';
            assert(last[i - 1] == '|');
        }
    }
    lemma_split_one(w, '|');
    if cells.len() == 1 {
        assert(padded(cells) =~= seq![w]);
    } else {
        let init = cells.drop_last();
        assert forall|i: int| 0 <= i < init.len() implies tidy(#[trigger] init[i])
            && !init[i].contains('|') by {
            assert(tidy(cells[i]));
        }
        lemma_split_cells(init);
        let a = seq![' '] + join(init, " | "@) + seq![' '];
        lemma_split_add(a, '|', w);
        assert(seq![' '] + join(cells, " | "@) + seq![' '] =~= a + seq!['|'] + w) by {
            assert(" | "@ =~= seq![' ', '|', ' ']);
        }
        assert(padded(cells) =~= padded(init) + seq![w]);
    }
}

/// A row that is written from its cells has these cells.
pub proof fn lemma_row_reads(cells: Seq<Seq<char>>)
    requires
        cells.len() > 0,
        cells_hold(cells),
    ensures
        row_cells(pipe_line(cells)) == Some(cells),
        trim(pipe_line(cells)) == pipe_line(cells),
        pipe_line(cells)[0] == '|',
        pipe_line(cells).last() == '|',
        pipe_line(cells).len() > 0,
{
    reveal_strlit("| ");
    reveal_strlit(" |");
    let j = join(cells, " | "@);
    let t = pipe_line(cells);
    assert(t.len() == j.len() + 4);
    assert(t[0] == '|');
    assert(t.last() == '|');
    lemma_tidy(t);
    assert(row_inner(t) =~= seq![' '] + j + seq![' ']);
    lemma_split_cells(cells);
    assert forall|i: int| 0 <= i < cells.len() implies #[trigger] trim_each(padded(cells))[i]
        == cells[i] by {
        assert(tidy(cells[i]));
        lemma_padded(cells[i]);
    }
    assert(trim_each(padded(cells)) =~= cells);
}

/// The separator row is one.
proof fn lemma_separator(cols: nat)
    requires
        cols > 0,
    ensures
        cells_hold(separator_cells(cols)),
        separator(separator_cells(cols)),
        separator_cells(cols).len() == cols,
{
    reveal_strlit("---");
    let cells = separator_cells(cols);
    let d = "---"@;
    assert(tidy(d));
    lemma_tidy(d);
    assert(!d.contains('|')) by {
        if d.contains('|') {
            let i = choose|i: int| 0 <= i < d.len() && d[i] == '|';
        }
    }
    assert(d[0] == '-');
    assert(separator_cell(d));
    assert forall|i: int| 0 <= i < cells.len() implies #[trigger] separator_cell(cells[i]) by {}
}

// ---------------------------------------------------------------------------
// Tables
// ---------------------------------------------------------------------------

/// The content of a cell that reads back: its runs do, and its markdown has no white space
/// at its ends, no pipe and no line feed.
pub open spec fn cell_holds(runs: Seq<RunV>) -> bool {
    let m = runs_markdown(runs, true);
    &&& normal_form(runs)
    &&& runs_hold(runs, true)
    &&& runs_inert(m, 0, runs, true, 0)
    &&& tidy(m)
    &&& !m.contains('|')
    &&& !m.contains('\n')
}

/// A row that reads back: it has as many cells as the header, and they do.
pub open spec fn row_holds(row: Seq<Seq<RunV>>, cols: nat) -> bool {
    &&& row.len() == cols
    &&& forall|i: int| 0 <= i < row.len() ==> cell_holds(#[trigger] row[i])
}

/// A table that reads back: it has a header with a cell, and all rows do.
pub open spec fn table_holds(rows: Seq<Seq<Seq<RunV>>>) -> bool {
    &&& rows.len() > 0
    &&& columns_of(rows) > 0
    &&& forall|i: int| 0 <= i < rows.len() ==> row_holds(#[trigger] rows[i], columns_of(rows))
}

/// The cells of a row that reads back.
proof fn lemma_cells(row: Seq<Seq<RunV>>, cols: nat)
    requires
        row_holds(row, cols),
        cols > 0,
    ensures
        cells_hold(cell_texts(row)),
        row_of(cell_texts(row), cols) == row,
        row_cells(pipe_line(cell_texts(row))) == Some(cell_texts(row)),
{
    let cells = cell_texts(row);
    assert forall|i: int| 0 <= i < cells.len() implies tidy(#[trigger] cells[i])
        && !cells[i].contains('|') by {
        assert(cell_holds(row[i]));
    }
    assert forall|i: int| 0 <= i < cols implies #[trigger] row_of(cells, cols)[i] == row[i] by {
        assert(cell_holds(row[i]));
        law_inline_round_trip(row[i], true);
    }
    assert(row_of(cells, cols) =~= row);
    lemma_row_reads(cells);
}

/// The rows below the separator read back.
proof fn lemma_body(rows: Seq<Seq<Seq<RunV>>>, i: int)
    requires
        table_holds(rows),
        2 <= i <= rows.len() + 1,
    ensures
        body_rows(table_lines(rows), i, columns_of(rows)) == rows.skip(i - 1),
    decreases rows.len() + 1 - i,
{
    let ls = table_lines(rows);
    let cols = columns_of(rows);
    if i < ls.len() {
        lemma_body(rows, i + 1);
        assert(row_holds(rows[i - 1], cols));
        lemma_cells(rows[i - 1], cols);
        assert(ls[i] == pipe_line(cell_texts(rows[i - 1])));
        assert(seq![rows[i - 1]] + rows.skip(i) =~= rows.skip(i - 1));
    } else {
        assert(rows.skip(i - 1) =~= Seq::<Seq<Seq<RunV>>>::empty());
    }
}

/// The lines of a table parse to the table again.
pub proof fn law_table_round_trip(rows: Seq<Seq<Seq<RunV>>>)
    requires
        table_holds(rows),
    ensures
        table_of(table_lines(rows)) == Some(rows),
{
    let ls = table_lines(rows);
    let cols = columns_of(rows);
    assert(row_holds(rows[0], cols));
    lemma_cells(rows[0], cols);
    lemma_separator(cols);
    lemma_row_reads(separator_cells(cols));
    assert(ls[0] == pipe_line(cell_texts(rows[0])));
    assert(ls[1] == pipe_line(separator_cells(cols)));
    lemma_body(rows, 2);
    assert(seq![rows[0]] + rows.skip(1) =~= rows);
}

/// A text joined from pieces holds no character that neither they nor what is between
/// them holds.
pub proof fn lemma_join_free(parts: Seq<Seq<char>>, sep: Seq<char>, c: char)
    requires
        forall|i: int| 0 <= i < parts.len() ==> !(#[trigger] parts[i]).contains(c),
        !sep.contains(c),
    ensures
        !join(parts, sep).contains(c),
    decreases parts.len(),
{
    let j = join(parts, sep);
    if parts.len() == 1 {
        assert(!parts[0].contains(c));
    } else if parts.len() > 1 {
        let init = parts.drop_last();
        assert forall|i: int| 0 <= i < init.len() implies !(#[trigger] init[i]).contains(c) by {
            assert(!parts[i].contains(c));
        }
        lemma_join_free(init, sep, c);
        let a = join(init, sep);
        let b = parts.last();
        assert(!parts[parts.len() - 1].contains(c));
        if j.contains(c) {
            let i = choose|i: int| 0 <= i < j.len() && j[i] == c;
            if i < a.len() {
                assert(a[i] == c);
            } else if i < a.len() + sep.len() {
                assert(sep[i - a.len()] == c);
            } else {
                assert(b[i - a.len() - sep.len()] == c);
            }
        }
    }
}

/// A row of cells without line feeds is a line.
proof fn lemma_pipe_line_holds(cells: Seq<Seq<char>>)
    requires
        forall|i: int| 0 <= i < cells.len() ==> !(#[trigger] cells[i]).contains('\n'),
    ensures
        line_holds(pipe_line(cells)),
{
    reveal_strlit("| ");
    reveal_strlit(" |");
    reveal_strlit(" | ");
    let sep = " | "@;
    assert(!sep.contains('\n')) by {
        if sep.contains('\n') {
            let i = choose|i: int| 0 <= i < sep.len() && sep[i] == '\n';
        }
    }
    lemma_join_free(cells, sep, '\n');
    let j = join(cells, sep);
    let t = pipe_line(cells);
    assert(t.last() == '|');
    if t.contains('\n') {
        let i = choose|i: int| 0 <= i < t.len() && t[i] == '\n';
        if 2 <= i < 2 + j.len() {
            assert(j[i - 2] == '\n');
        }
    }
}

/// The lines of a table are lines, and pipe rows.
pub proof fn lemma_table_lines(rows: Seq<Seq<Seq<RunV>>>)
    requires
        table_holds(rows),
    ensures
        lines_hold(table_lines(rows)),
        table_lines(rows).len() >= 2,
        forall|i: int|
            0 <= i < table_lines(rows).len() ==> row_cells(#[trigger] table_lines(rows)[i]) is Some
                && table_lines(rows)[i].len() > 0 && table_lines(rows)[i][0] == '|'
                && trim(table_lines(rows)[i]) == table_lines(rows)[i],
        row_cells(table_lines(rows)[1]) == Some(separator_cells(columns_of(rows))),
        separator(separator_cells(columns_of(rows))),
{
    let ls = table_lines(rows);
    let cols = columns_of(rows);
    lemma_separator(cols);
    lemma_row_reads(separator_cells(cols));
    assert forall|i: int| 0 <= i < ls.len() implies row_cells(#[trigger] ls[i]) is Some && ls[i].len()
        > 0 && ls[i][0] == '|' && trim(ls[i]) == ls[i] && line_holds(ls[i]) by {
        if i == 1 {
            let cells = separator_cells(cols);
            reveal_strlit("---");
            assert forall|k: int| 0 <= k < cells.len() implies !(#[trigger] cells[k]).contains(
                '\n',
            ) by {
                if cells[k].contains('\n') {
                    let q = choose|q: int| 0 <= q < cells[k].len() && cells[k][q] == '\n';
                }
            }
            lemma_pipe_line_holds(cells);
        } else {
            let r = if i == 0 {
                0
            } else {
                i - 1
            };
            assert(row_holds(rows[r], cols));
            lemma_cells(rows[r], cols);
            lemma_row_reads(cell_texts(rows[r]));
            let cells = cell_texts(rows[r]);
            assert forall|k: int| 0 <= k < cells.len() implies !(#[trigger] cells[k]).contains(
                '\n',
            ) by {
                assert(cell_holds(rows[r][k]));
            }
            lemma_pipe_line_holds(cells);
        }
    }
}

} // verus!
