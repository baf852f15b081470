//! The table syntax: rows of cells between pipes, under a header and a separator.
use crate::inline::inline_runs;
use crate::line_laws::{
    lemma_join_free, lemma_lines, lemma_split_add, lemma_split_one, line_holds, unlines,
};
use crate::markdown::{
    heading, leading, leading_digits, list_item, nodes_from, parsed, thematic_break,
    TOC_PLACEHOLDER,
};
use crate::model::{BlockKind, BlockV, NodeV, RunV};
use crate::roundtrip::lemma_table_stops;
use crate::table::{
    body_rows, row_cells, row_inner, row_of, separator, separator_cell, table_of, table_start,
    trim_each,
};
use crate::text::{join, lines, split, trim, trim_end, trim_start, unindent, white_space};
use vstd::prelude::*;

verus! {

/// A line of cells, each with whatever spaces it has around it, between pipes.
pub open spec fn piped(ps: Seq<Seq<char>>) -> Seq<char> {
    seq!['|'] + join(ps, seq!['|']) + seq!['|']
}

/// The same line without the pipe at its end.
pub open spec fn piped_open(ps: Seq<Seq<char>>) -> Seq<char> {
    seq!['|'] + join(ps, seq!['|'])
}

/// Cells that a line can hold: some, and none with a pipe or a line feed.
pub open spec fn writable_cells(ps: Seq<Seq<char>>) -> bool {
    &&& ps.len() > 0
    &&& forall|i: int|
        0 <= i < ps.len() ==> !(#[trigger] ps[i]).contains('|') && !ps[i].contains('\n')
}

/// The cells without the white space around them.
pub open spec fn trimmed_cells(ps: Seq<Seq<char>>) -> Seq<Seq<char>> {
    Seq::new(ps.len(), |i: int| trim(ps[i]))
}

proof fn lemma_split_join(ps: Seq<Seq<char>>)
    requires
        writable_cells(ps),
    ensures
        split(join(ps, seq!['|']), '|') == ps,
    decreases ps.len(),
{
    let last = ps[ps.len() - 1];
    assert(!last.contains('|'));
    lemma_split_one(last, '|');
    if ps.len() == 1 {
        assert(seq![last] =~= ps);
    } else {
        let init = ps.drop_last();
        assert forall|i: int| 0 <= i < init.len() implies !(#[trigger] init[i]).contains('|')
            && !init[i].contains('\n') by {
            assert(init[i] == ps[i]);
        }
        lemma_split_join(init);
        lemma_split_add(join(init, seq!['|']), '|', last);
        assert(init + seq![last] =~= ps);
    }
}

/// A line of cells between pipes has these cells, trimmed; the pipe at its end may be
/// missing.
pub proof fn law_row(ps: Seq<Seq<char>>)
    requires
        writable_cells(ps),
    ensures
        row_cells(piped(ps)) == Some(trimmed_cells(ps)),
        ps.last().len() > 0 && !white_space(ps.last().last()) ==> row_cells(piped_open(ps)) == Some(
            trimmed_cells(ps),
        ),
{
    let j = join(ps, seq!['|']);
    lemma_split_join(ps);
    let t = piped(ps);
    assert(t[0] == '|' && t.last() == '|');
    assert(trim(t) == t);
    assert(row_inner(t) =~= j);
    assert(trim_each(ps) =~= trimmed_cells(ps));
    let last = ps.last();
    if last.len() > 0 && !white_space(last.last()) {
        let u = piped_open(ps);
        assert(u[0] == '|');
        lemma_join_last(ps);
        assert(u.last() == last.last());
        assert(last.last() != '|') by {
            assert(!ps[ps.len() - 1].contains('|'));
            assert(last.contains(last[last.len() - 1]));
        }
        assert(trim(u) == u);
        assert(row_inner(u) =~= j);
    }
}

proof fn lemma_join_last(ps: Seq<Seq<char>>)
    requires
        ps.len() > 0,
        ps.last().len() > 0,
    ensures
        join(ps, seq!['|']).len() > 0,
        join(ps, seq!['|']).last() == ps.last().last(),
{
}

proof fn lemma_piped_line(ps: Seq<Seq<char>>)
    requires
        writable_cells(ps),
    ensures
        line_holds(piped(ps)),
        piped(ps).len() > 0,
        piped(ps)[0] == '|',
        trim(piped(ps)) == piped(ps),
{
    let sep = seq!['|'];
    let j = join(ps, sep);
    assert(!sep.contains('\n'));
    assert forall|i: int| 0 <= i < ps.len() implies !(#[trigger] ps[i]).contains('\n') by {}
    lemma_join_free(ps, sep, '\n');
    let t = piped(ps);
    assert(t.last() == '|');
    if t.contains('\n') {
        let i = choose|i: int| 0 <= i < t.len() && t[i] == '\n';
        assert(t[i] == j[i - 1]);
        assert(j.contains(j[i - 1]));
    }
}

/// A separator: dashes, with a colon at an end where the column is aligned.
pub open spec fn separates(p: Seq<char>) -> bool {
    let c = trim(p);
    &&& c.contains('-')
    &&& forall|i: int| 0 <= i < c.len() ==> #[trigger] c[i] == '-' || c[i] == ':'
}

/// The lines of a table: the header, the separators and the rows.
pub open spec fn piped_lines(
    header: Seq<Seq<char>>,
    seps: Seq<Seq<char>>,
    rows: Seq<Seq<Seq<char>>>,
) -> Seq<Seq<char>> {
    seq![piped(header), piped(seps)] + Seq::new(rows.len(), |i: int| piped(rows[i]))
}

/// A row of a table with as many cells as the header: those that are missing are empty, and
/// those beyond are left out.
pub open spec fn fitted_row(ps: Seq<Seq<char>>, cols: nat) -> Seq<Seq<RunV>> {
    Seq::new(
        cols,
        |j: int|
            inline_runs(
                if j < ps.len() {
                    trim(ps[j])
                } else {
                    Seq::empty()
                },
            ),
    )
}

/// The table that such lines hold.
pub open spec fn piped_table(header: Seq<Seq<char>>, rows: Seq<Seq<Seq<char>>>) -> Seq<
    Seq<Seq<RunV>>,
> {
    seq![fitted_row(header, header.len())] + Seq::new(
        rows.len(),
        |i: int| fitted_row(rows[i], header.len()),
    )
}

proof fn lemma_fitted(ps: Seq<Seq<char>>, cols: nat)
    ensures
        row_of(trimmed_cells(ps), cols) == fitted_row(ps, cols),
{
    assert(row_of(trimmed_cells(ps), cols) =~= fitted_row(ps, cols));
}

proof fn lemma_body(
    header: Seq<Seq<char>>,
    seps: Seq<Seq<char>>,
    rows: Seq<Seq<Seq<char>>>,
    i: int,
)
    requires
        0 <= i <= rows.len(),
        forall|k: int| 0 <= k < rows.len() ==> writable_cells(#[trigger] rows[k]),
    ensures
        body_rows(piped_lines(header, seps, rows), i + 2, header.len()) == Seq::new(
            rows.len(),
            |k: int| fitted_row(rows[k], header.len()),
        ).skip(i),
    decreases rows.len() - i,
{
    let ls = piped_lines(header, seps, rows);
    let all = Seq::new(rows.len(), |k: int| fitted_row(rows[k], header.len()));
    if i < rows.len() {
        lemma_body(header, seps, rows, i + 1);
        assert(writable_cells(rows[i]));
        law_row(rows[i]);
        lemma_fitted(rows[i], header.len());
        assert(ls[i + 2] == piped(rows[i]));
        assert(seq![all[i]] + all.skip(i + 1) =~= all.skip(i));
    } else {
        assert(all.skip(i) =~= Seq::<Seq<Seq<RunV>>>::empty());
    }
}

/// A header, a separator under each of its cells, and rows below make a table of all of
/// them, each cell with the runs of its text.
pub proof fn law_table(header: Seq<Seq<char>>, seps: Seq<Seq<char>>, rows: Seq<Seq<Seq<char>>>)
    requires
        writable_cells(header),
        writable_cells(seps),
        seps.len() == header.len(),
        forall|i: int| 0 <= i < seps.len() ==> separates(#[trigger] seps[i]),
        forall|k: int| 0 <= k < rows.len() ==> writable_cells(#[trigger] rows[k]),
    ensures
        parsed(unlines(piped_lines(header, seps, rows))) == seq![
            NodeV::Table(piped_table(header, rows)),
        ],
{
    let ls = piped_lines(header, seps, rows);
    let n = ls.len() as int;
    let cols = header.len();
    assert(ls[0] == piped(header) && ls[1] == piped(seps));
    assert forall|i: int| 0 <= i < ls.len() implies line_holds(#[trigger] ls[i]) by {
        if i == 0 {
            lemma_piped_line(header);
        } else if i == 1 {
            lemma_piped_line(seps);
        } else {
            assert(writable_cells(rows[i - 2]));
            lemma_piped_line(rows[i - 2]);
        }
    }
    let none = Seq::<char>::empty();
    lemma_lines(ls, none);
    assert(unlines(ls) + none =~= unlines(ls));
    assert(lines(none) =~= Seq::<Seq<char>>::empty());
    assert(ls + lines(none) =~= ls);
    law_row(header);
    law_row(seps);
    lemma_piped_line(header);
    reveal_strlit("<!-- gdoc:toc -->");
    assert(TOC_PLACEHOLDER@[0] == '<');
    assert(!thematic_break(ls[0]));
    let sc = trimmed_cells(seps);
    assert(separator(sc)) by {
        assert forall|i: int| 0 <= i < sc.len() implies #[trigger] separator_cell(sc[i]) by {
            assert(separates(seps[i]));
            lemma_trim_twice(seps[i]);
        }
    }
    assert(ls.skip(0) =~= ls);
    assert(table_start(ls.skip(0)));
    assert forall|k: int| 2 <= k < n implies row_cells(#[trigger] ls[k]) is Some by {
        assert(writable_cells(rows[k - 2]));
        law_row(rows[k - 2]);
    }
    lemma_table_stops(ls, 2, n);
    assert(ls.subrange(0, n) =~= ls);
    lemma_body(header, seps, rows, 0);
    lemma_fitted(header, cols);
    let all = Seq::new(rows.len(), |k: int| fitted_row(rows[k], cols));
    assert(all.skip(0) =~= all);
    assert(table_of(ls) == Some(piped_table(header, rows)));
    let open = Seq::<nat>::empty();
    assert(nodes_from(ls, n, open) =~= Seq::<NodeV>::empty());
    assert(nodes_from(ls, 0, open) =~= seq![NodeV::Table(piped_table(header, rows))]);
}

/// Two lines of cells.
proof fn lemma_two_lines(a: Seq<Seq<char>>, b: Seq<Seq<char>>)
    requires
        writable_cells(a),
        writable_cells(b),
    ensures
        lines(unlines(seq![piped(a), piped(b)])) == seq![piped(a), piped(b)],
{
    let ls = seq![piped(a), piped(b)];
    lemma_piped_line(a);
    lemma_piped_line(b);
    assert forall|i: int| 0 <= i < ls.len() implies line_holds(#[trigger] ls[i]) by {}
    let none = Seq::<char>::empty();
    lemma_lines(ls, none);
    assert(unlines(ls) + none =~= unlines(ls));
    assert(lines(none) =~= Seq::<Seq<char>>::empty());
    assert(ls + lines(none) =~= ls);
}

/// Under a separator row of another length than the header there is no table, and nothing
/// else either.
pub proof fn law_uneven(header: Seq<Seq<char>>, seps: Seq<Seq<char>>)
    requires
        writable_cells(header),
        writable_cells(seps),
        seps.len() != header.len(),
        forall|i: int| 0 <= i < seps.len() ==> separates(#[trigger] seps[i]),
    ensures
        table_of(seq![piped(header), piped(seps)]) is None,
        parsed(unlines(seq![piped(header), piped(seps)])).len() == 0,
{
    let ls = seq![piped(header), piped(seps)];
    lemma_two_lines(header, seps);
    law_row(header);
    law_row(seps);
    lemma_piped_line(header);
    reveal_strlit("<!-- gdoc:toc -->");
    assert(TOC_PLACEHOLDER@[0] == '<');
    assert(!thematic_break(ls[0]));
    let sc = trimmed_cells(seps);
    assert(separator(sc)) by {
        assert forall|i: int| 0 <= i < sc.len() implies #[trigger] separator_cell(sc[i]) by {
            assert(separates(seps[i]));
            lemma_trim_twice(seps[i]);
        }
    }
    assert(ls.skip(0) =~= ls);
    assert(table_start(ls.skip(0)));
    lemma_table_stops(ls, 2, 2);
    assert(ls.subrange(0, 2) =~= ls);
    let open = Seq::<nat>::empty();
    assert(nodes_from(ls, 2, open) =~= Seq::<NodeV>::empty());
}

/// A row of cells with a line below it that is no separator is a paragraph, and so is that
/// line.
pub proof fn law_no_separator(a: Seq<Seq<char>>, b: Seq<Seq<char>>, i: int)
    requires
        writable_cells(a),
        writable_cells(b),
        0 <= i < b.len(),
        !separates(b[i]),
    ensures
        !table_start(seq![piped(a), piped(b)]),
        parsed(unlines(seq![piped(a), piped(b)])) == seq![
            NodeV::Para(
                BlockV { kind: BlockKind::Normal, depth: 0, runs: inline_runs(piped(a)) },
            ),
            NodeV::Para(
                BlockV { kind: BlockKind::Normal, depth: 0, runs: inline_runs(piped(b)) },
            ),
        ],
{
    let ls = seq![piped(a), piped(b)];
    lemma_two_lines(a, b);
    law_row(b);
    lemma_trim_twice(b[i]);
    assert(!separator_cell(trimmed_cells(b)[i]));
    assert(ls.skip(0) =~= ls);
    assert(ls.skip(1) =~= seq![piped(b)]);
    lemma_pipe_text(a);
    lemma_pipe_text(b);
    let open = Seq::<nat>::empty();
    assert(nodes_from(ls, 2, open) =~= Seq::<NodeV>::empty());
    let second = nodes_from(ls, 1, open);
    assert(second =~= seq![second[0]]);
    let all = nodes_from(ls, 0, open);
    assert(all =~= seq![all[0], second[0]]);
}

/// A line that begins with a pipe is no other construct.
proof fn lemma_pipe_text(ps: Seq<Seq<char>>)
    requires
        writable_cells(ps),
    ensures
        ({
            let t = piped(ps);
            &&& trim(t).len() > 0
            &&& !thematic_break(t)
            &&& trim(t) != TOC_PLACEHOLDER@
            &&& trim_end(unindent(t)) == t
            &&& heading(t) is None
            &&& list_item(t) is None
        }),
{
    let t = piped(ps);
    lemma_piped_line(ps);
    assert(t.last() == '|');
    reveal_strlit("<!-- gdoc:toc -->");
    assert(TOC_PLACEHOLDER@[0] == '<');
    assert(unindent(t) == t);
    assert(trim_end(t) == t);
    assert(leading(t, '#') == 0);
    assert(leading_digits(t) == 0);
}

proof fn lemma_trim_twice(s: Seq<char>)
    ensures
        trim(trim(s)) == trim(s),
{
    let t = trim(s);
    lemma_start_first(s);
    lemma_end_kept(trim_start(s));
    if t.len() > 0 {
        assert(t[0] == trim_start(s)[0]);
    }
}

proof fn lemma_start_first(s: Seq<char>)
    ensures
        trim_start(s).len() > 0 ==> !white_space(trim_start(s)[0]),
    decreases s.len(),
{
    if s.len() > 0 && white_space(s[0]) {
        lemma_start_first(s.skip(1));
    }
}

proof fn lemma_end_kept(s: Seq<char>)
    ensures
        trim_end(s).len() > 0 ==> !white_space(trim_end(s).last()) && trim_end(s)[0] == s[0],
        trim_end(s).len() <= s.len(),
    decreases s.len(),
{
    if s.len() > 0 && white_space(s.last()) {
        lemma_end_kept(s.drop_last());
    }
}

} // verus!
