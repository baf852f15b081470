//! White space that means nothing: at the ends of lines, and blank lines between blocks.
use crate::line_laws::{lemma_lines, lines_hold, unlines};
use crate::markdown::{
    break_of, heading, lemma_table_end, levels_at, list_item, nodes_from, parsed, table_end,
    thematic_break, TOC_PLACEHOLDER,
};
use crate::table::{body_rows, row_cells, table_of, table_start};
use crate::text::{indent_width, lines, trim, trim_end, trim_start, unindent, white_space};
use vstd::prelude::*;

verus! {

/// What is indented only starts with white space.
pub proof fn lemma_unindent_trim(s: Seq<char>)
    ensures
        trim_start(unindent(s)) == trim_start(s),
    decreases s.len(),
{
    if s.len() > 0 && (s[0] == ' ' || s[0] == '\t') {
        lemma_unindent_trim(s.skip(1));
    }
}

/// What is trimmed at its end does not end with white space.
pub proof fn lemma_trim_end_last(s: Seq<char>)
    ensures
        trim_end(s).len() > 0 ==> !white_space(trim_end(s).last()),
    decreases s.len(),
{
    if s.len() > 0 && white_space(s.last()) {
        lemma_trim_end_last(s.drop_last());
    }
}

/// Only white space is trimmed away.
proof fn lemma_trim_end_blank(s: Seq<char>)
    requires
        trim_end(s).len() == 0,
    ensures
        forall|i: int| 0 <= i < s.len() ==> white_space(#[trigger] s[i]),
    decreases s.len(),
{
    if s.len() > 0 {
        lemma_trim_end_blank(s.drop_last());
        assert forall|i: int| 0 <= i < s.len() implies white_space(#[trigger] s[i]) by {
            if i < s.len() - 1 {
                assert(white_space(s.drop_last()[i]));
            }
        }
    }
}

/// White space alone is trimmed away.
proof fn lemma_trim_start_blank(s: Seq<char>)
    requires
        forall|i: int| 0 <= i < s.len() ==> white_space(#[trigger] s[i]),
    ensures
        trim_start(s).len() == 0,
    decreases s.len(),
{
    if s.len() > 0 {
        assert(white_space(s[0]));
        let t = s.skip(1);
        assert forall|i: int| 0 <= i < t.len() implies white_space(#[trigger] t[i]) by {
            assert(white_space(s[i + 1]));
        }
        lemma_trim_start_blank(t);
    }
}

/// The content of a line that is not blank: it is not empty and does not end with white
/// space.
pub proof fn lemma_line_content(line: Seq<char>)
    requires
        trim(line).len() > 0,
    ensures
        trim_end(unindent(line)).len() > 0,
        !white_space(trim_end(unindent(line)).last()),
{
    let t = unindent(line);
    lemma_unindent_trim(line);
    lemma_trim_end_last(t);
    if trim_end(t).len() == 0 {
        lemma_trim_end_blank(t);
        lemma_trim_start_blank(t);
        assert(false);
    }
}

// ---------------------------------------------------------------------------
// Ends of lines
// ---------------------------------------------------------------------------

/// Spaces and tabs.
pub open spec fn padding(s: Seq<char>) -> bool {
    forall|i: int| 0 <= i < s.len() ==> #[trigger] s[i] == ' ' || s[i] == '\t'
}

/// The line `b` is the line `a` with spaces and tabs at its end.
pub open spec fn padded(a: Seq<char>, b: Seq<char>) -> bool {
    &&& a.len() <= b.len()
    &&& b.take(a.len() as int) == a
    &&& padding(b.skip(a.len() as int))
}

/// The line is blank.
pub open spec fn blank(line: Seq<char>) -> bool {
    trim(line).len() == 0
}

/// One space or tab more at the end, seen from the front.
proof fn lemma_push_front(s: Seq<char>, c: char)
    requires
        c == ' ' || c == '\t',
    ensures
        trim_end(trim_start(s.push(c))) == trim_end(trim_start(s)),
        trim_end(unindent(s.push(c))) == trim_end(unindent(s)),
        unindent(s).len() > 0 ==> indent_width(s.push(c)) == indent_width(s),
    decreases s.len(),
{
    let t = s.push(c);
    assert(t.drop_last() =~= s);
    if s.len() == 0 {
        assert(t.skip(1) =~= Seq::<char>::empty());
        assert(s =~= Seq::<char>::empty());
    } else {
        assert(t[0] == s[0]);
        assert(t.skip(1) =~= s.skip(1).push(c));
        lemma_push_front(s.skip(1), c);
    }
}

/// One space or tab more at the end makes no thematic break of a line, nor undoes one.
proof fn lemma_push_break(s: Seq<char>, c: char, marker: char)
    requires
        c == ' ' || c == '\t',
        marker != c,
    ensures
        break_of(s.push(c), marker) == break_of(s, marker),
{
    let t = s.push(c);
    assert(t.drop_last() =~= s);
    if break_of(t, marker) {
        assert forall|i: int| 0 <= i < s.len() implies #[trigger] s[i] == marker || s[i] == ' '
            || s[i] == '\t' by {
            assert(t[i] == s[i]);
        }
    }
}

/// Spaces and tabs at the end of a line change nothing that is read from it.
proof fn lemma_padded_reads(a: Seq<char>, b: Seq<char>)
    requires
        padded(a, b),
    ensures
        trim(b) == trim(a),
        row_cells(b) == row_cells(a),
        thematic_break(b) == thematic_break(a),
        trim_end(unindent(b)) == trim_end(unindent(a)),
        !blank(a) ==> indent_width(b) == indent_width(a),
    decreases b.len(),
{
    if a.len() == b.len() {
        assert(b.take(a.len() as int) =~= b);
    } else {
        let c = b.last();
        let init = b.drop_last();
        let n = a.len() as int;
        assert(b.skip(n)[b.len() - n - 1] == c);
        assert(init.take(n) =~= a);
        assert forall|i: int| 0 <= i < init.skip(n).len() implies #[trigger] init.skip(n)[i] == ' '
            || init.skip(n)[i] == '\t' by {
            assert(init.skip(n)[i] == b.skip(n)[i]);
        }
        lemma_padded_reads(a, init);
        assert(init.push(c) =~= b);
        lemma_push_front(init, c);
        lemma_push_break(init, c, '-');
        lemma_push_break(init, c, '*');
        lemma_push_break(init, c, '_');
        if !blank(a) {
            lemma_line_content(init);
            assert(unindent(init).len() > 0);
        }
    }
}

// ---------------------------------------------------------------------------
// Blank lines
// ---------------------------------------------------------------------------

/// A blank line may stand before the `i`-th line: the lines before and behind it are not
/// both pipe rows, which it would part.
pub open spec fn may_part(ls: Seq<Seq<char>>, i: int) -> bool {
    i <= 0 || i >= ls.len() || row_cells(ls[i - 1]) is None || row_cells(ls[i]) is None
}

/// The lines of `b` from `j` on are those of `a` from `i` on, with spaces and tabs at their
/// ends and with blank lines put in where they part no two pipe rows.
pub open spec fn spread(a: Seq<Seq<char>>, b: Seq<Seq<char>>, i: int, j: int) -> bool
    decreases b.len() - j,
{
    if j >= b.len() {
        i >= a.len()
    } else {
        ||| i < a.len() && padded(a[i], b[j]) && spread(a, b, i + 1, j + 1)
        ||| blank(b[j]) && may_part(a, i) && spread(a, b, i, j + 1)
    }
}

/// Behind a pipe row the rows go on on both sides, or end on both sides.
proof fn lemma_spread_rows(a: Seq<Seq<char>>, b: Seq<Seq<char>>, i: int, j: int)
    requires
        1 <= i <= a.len(),
        0 <= j <= b.len(),
        row_cells(a[i - 1]) is Some,
        spread(a, b, i, j),
    ensures
        table_end(a, i) - i == table_end(b, j) - j,
        i <= table_end(a, i) <= a.len(),
        j <= table_end(b, j) <= b.len(),
        spread(a, b, table_end(a, i), table_end(b, j)),
        forall|k: int|
            0 <= k < table_end(a, i) - i ==> row_cells(#[trigger] a[i + k]) == row_cells(b[j + k]),
    decreases b.len() - j,
{
    lemma_table_end(a, i);
    lemma_table_end(b, j);
    if i < a.len() && row_cells(a[i]) is Some {
        assert(padded(a[i], b[j]));
        lemma_padded_reads(a[i], b[j]);
        lemma_spread_rows(a, b, i + 1, j + 1);
        assert forall|k: int| 0 <= k < table_end(a, i) - i implies row_cells(#[trigger] a[i + k])
            == row_cells(b[j + k]) by {
            if k > 0 {
                assert(a[i + k] == a[i + 1 + (k - 1)]);
                assert(b[j + k] == b[j + 1 + (k - 1)]);
            }
        }
    } else if j < b.len() && i < a.len() && padded(a[i], b[j]) {
        lemma_padded_reads(a[i], b[j]);
    }
}

/// Rows with the same cells make the same table.
proof fn lemma_same_rows(x: Seq<Seq<char>>, y: Seq<Seq<char>>, i: int, cols: nat)
    requires
        x.len() == y.len(),
        forall|k: int| 0 <= k < x.len() ==> row_cells(#[trigger] x[k]) == row_cells(y[k]),
        0 <= i <= x.len(),
    ensures
        body_rows(x, i, cols) == body_rows(y, i, cols),
    decreases x.len() - i,
{
    if i < x.len() {
        assert(row_cells(x[i]) == row_cells(y[i]));
        lemma_same_rows(x, y, i + 1, cols);
    }
}

/// Rows with the same cells make the same table.
proof fn lemma_same_table(x: Seq<Seq<char>>, y: Seq<Seq<char>>)
    requires
        x.len() == y.len(),
        forall|k: int| 0 <= k < x.len() ==> row_cells(#[trigger] x[k]) == row_cells(y[k]),
    ensures
        table_of(x) == table_of(y),
{
    if x.len() >= 2 {
        assert(row_cells(x[0]) == row_cells(y[0]));
        assert(row_cells(x[1]) == row_cells(y[1]));
        if let Some(header) = row_cells(x[0]) {
            lemma_same_rows(x, y, 2, header.len());
        }
    }
}

/// A table begins on both sides or on neither, and behind its first two lines both go on
/// alike.
proof fn lemma_spread_start(a: Seq<Seq<char>>, b: Seq<Seq<char>>, i: int, j: int)
    requires
        0 <= i < a.len(),
        0 <= j < b.len(),
        padded(a[i], b[j]),
        spread(a, b, i + 1, j + 1),
    ensures
        table_start(a.skip(i)) == table_start(b.skip(j)),
        table_start(a.skip(i)) ==> i + 2 <= a.len() && j + 2 <= b.len() && spread(a, b, i + 2, j + 2)
            && row_cells(a[i + 1]) == row_cells(b[j + 1]) && row_cells(a[i + 1]) is Some,
{
    lemma_padded_reads(a[i], b[j]);
    let (x, y) = (a.skip(i), b.skip(j));
    assert(x[0] == a[i] && y[0] == b[j]);
    if x.len() >= 2 {
        assert(x[1] == a[i + 1]);
    }
    if y.len() >= 2 {
        assert(y[1] == b[j + 1]);
    }
    if i + 1 < a.len() && j + 1 < b.len() && padded(a[i + 1], b[j + 1]) {
        lemma_padded_reads(a[i + 1], b[j + 1]);
    }
}

/// Lines that are spread read as the same nodes.
proof fn lemma_spread_reads(
    a: Seq<Seq<char>>,
    b: Seq<Seq<char>>,
    i: int,
    j: int,
    open: Seq<nat>,
)
    requires
        0 <= i <= a.len(),
        0 <= j <= b.len(),
        spread(a, b, i, j),
    ensures
        nodes_from(a, i, open) == nodes_from(b, j, open),
    decreases b.len() - j,
{
    let none = Seq::<nat>::empty();
    if j >= b.len() {
    } else if i < a.len() && padded(a[i], b[j]) && spread(a, b, i + 1, j + 1) {
        lemma_padded_reads(a[i], b[j]);
        lemma_spread_start(a, b, i, j);
        lemma_spread_reads(a, b, i + 1, j + 1, open);
        lemma_spread_reads(a, b, i + 1, j + 1, none);
        if blank(a[i]) || thematic_break(a[i]) || trim(a[i]) == TOC_PLACEHOLDER@ {
        } else if table_start(a.skip(i)) {
            lemma_spread_rows(a, b, i + 2, j + 2);
            let (e, f) = (table_end(a, i + 2), table_end(b, j + 2));
            let (x, y) = (a.subrange(i, e), b.subrange(j, f));
            assert forall|k: int| 0 <= k < x.len() implies row_cells(#[trigger] x[k]) == row_cells(
                y[k],
            ) by {
                if k == 1 {
                    assert(x[k] == a[i + 1] && y[k] == b[j + 1]);
                } else if k >= 2 {
                    assert(x[k] == a[i + 2 + (k - 2)]);
                    assert(y[k] == b[j + 2 + (k - 2)]);
                }
            }
            lemma_same_table(x, y);
            lemma_spread_reads(a, b, e, f, none);
        } else {
            let content = trim_end(unindent(a[i]));
            if heading(content) is None && list_item(content) is Some {
                let levels = levels_at(open, indent_width(a[i]));
                lemma_spread_reads(a, b, i + 1, j + 1, levels);
            }
        }
    } else {
        lemma_spread_reads(a, b, i, j + 1, open);
    }
}

/// Spaces and tabs at the ends of lines, and blank lines that part no two pipe rows, mean
/// nothing: the text with them is parsed to the same model.
pub proof fn law_spacing(md: Seq<char>, spaced: Seq<char>)
    requires
        spread(lines(md), lines(spaced), 0, 0),
    ensures
        parsed(spaced) == parsed(md),
{
    lemma_spread_reads(lines(md), lines(spaced), 0, 0, Seq::empty());
}

/// As [`law_spacing`], of texts that are put together from lines.
pub proof fn law_spaced_lines(ls: Seq<Seq<char>>, spaced: Seq<Seq<char>>)
    requires
        lines_hold(ls),
        lines_hold(spaced),
        spread(ls, spaced, 0, 0),
    ensures
        parsed(unlines(spaced)) == parsed(unlines(ls)),
{
    let none = Seq::<char>::empty();
    lemma_lines(ls, none);
    lemma_lines(spaced, none);
    assert(unlines(ls) + none =~= unlines(ls));
    assert(unlines(spaced) + none =~= unlines(spaced));
    assert(lines(none) =~= Seq::<Seq<char>>::empty());
    assert(ls + lines(none) =~= ls);
    assert(spaced + lines(none) =~= spaced);
    law_spacing(unlines(ls), unlines(spaced));
}

} // verus!
