//! What is written for each part of a model.
use crate::markdown::leading;
use crate::model::{list_kind_of, BlockKind, BlockV, NodeV, RunV, TextStyle};
use crate::nodes::{des_sequence, des_split, DesV};
use crate::place_laws::paras;
use crate::render::{
    block_markdown, cell_texts, escape_char, escaped, gap, indent_unit, node_markdown, pipe_line,
    plain_text, rendered, run_markdown, runs_markdown, separator_cells, stars, table_lines,
};
use crate::row_laws::piped;
use crate::sync::paragraph_runs;
use crate::syntax_laws::{hashes, lemma_three, three_of};
use crate::text::{join, repeat};
use vstd::prelude::*;

verus! {

// ---------------------------------------------------------------------------
// Blocks
// ---------------------------------------------------------------------------

/// That many spaces.
pub open spec fn spaces(n: nat) -> Seq<char> {
    Seq::new(n, |i: int| ' ')
}

/// A text that is a marker on its own: a thematic break, the placeholder of a table of
/// contents, or one to six hashes.
pub open spec fn marker_alone(s: Seq<char>) -> bool {
    ||| three_of(s, '-')
    ||| three_of(s, '*')
    ||| three_of(s, '_')
    ||| s == "<!-- gdoc:toc -->"@
    ||| (1 <= s.len() <= 6 && s == hashes(s.len()))
}

/// Each kind of paragraph is written with its marker: bullets and checkboxes are indented by
/// two columns a level, numbers by three, and a normal text that would be a marker is put
/// behind a backslash.
pub proof fn law_block_written(b: BlockV)
    ensures
        ({
            let s = runs_markdown(b.runs, false);
            let line = block_markdown(b);
            match b.kind {
                BlockKind::Bullet => line == spaces(2 * b.depth as nat) + seq!['*', ' '] + s,
                BlockKind::Number => line == spaces(3 * b.depth as nat) + seq!['1', '.', ' '] + s,
                BlockKind::Checkbox => line == spaces(2 * b.depth as nat) + seq![
                    '-',
                    ' ',
                    '[',
                    ' ',
                    ']',
                    ' ',
                ] + s,
                BlockKind::Heading(n) => line == hashes(n as nat) + seq![' '] + s,
                BlockKind::Normal => line == if marker_alone(s) {
                    seq!['\\'] + s
                } else {
                    s
                },
            }
        }),
{
    reveal_strlit("1. ");
    reveal_strlit("- [ ] ");
    reveal_strlit("* ");
    let s = runs_markdown(b.runs, false);
    let line = block_markdown(b);
    let d = b.depth as nat;
    let u = indent_unit(b.kind);
    assert(u == 2 ==> d * u == 2 * d) by (nonlinear_arith);
    assert(u == 3 ==> d * u == 3 * d) by (nonlinear_arith);
    if list_kind_of(b.kind) {
        assert(repeat(' ', d * u) =~= spaces(d * u));
    }
    match b.kind {
        BlockKind::Bullet => {
            assert(line =~= spaces(2 * b.depth as nat) + seq!['*', ' '] + s);
        },
        BlockKind::Number => {
            assert(line =~= spaces(3 * b.depth as nat) + seq!['1', '.', ' '] + s);
        },
        BlockKind::Checkbox => {
            assert(line =~= spaces(2 * b.depth as nat) + seq!['-', ' ', '[', ' ', ']', ' '] + s);
        },
        BlockKind::Heading(n) => {
            assert(line =~= hashes(n as nat) + seq![' '] + s);
        },
        BlockKind::Normal => {
            lemma_three(s, '-');
            lemma_three(s, '*');
            lemma_three(s, '_');
            reveal_strlit("<!-- gdoc:toc -->");
            lemma_hashes_alone(s);
        },
    }
}

proof fn lemma_hashes_alone(s: Seq<char>)
    ensures
        leading(s, '#') == s.len() <==> s == hashes(s.len()),
    decreases s.len(),
{
    if s.len() > 0 {
        let rest = s.skip(1);
        lemma_hashes_alone(rest);
        lemma_leading_bound(rest);
        if s == hashes(s.len()) {
            assert(s[0] == '#');
            assert(rest =~= hashes(rest.len()));
        } else if s[0] == '#' && rest == hashes(rest.len()) {
            assert(s =~= hashes(s.len())) by {
                assert forall|i: int| 0 <= i < s.len() implies s[i] == '#' by {
                    if i > 0 {
                        assert(s[i] == rest[i - 1]);
                    }
                }
            }
        }
    } else {
        assert(s =~= hashes(0));
    }
}

proof fn lemma_leading_bound(s: Seq<char>)
    ensures
        leading(s, '#') <= s.len(),
    decreases s.len(),
{
    if s.len() > 0 && s[0] == '#' {
        lemma_leading_bound(s.skip(1));
    }
}

/// A list item of any kind.
pub open spec fn item_node(n: NodeV) -> bool {
    n matches NodeV::Para(b) && (b.kind is Bullet || b.kind is Number || b.kind is Checkbox)
}

/// Every node is written on lines of its own, with a blank line before it unless it is a list
/// item behind another.
pub proof fn law_nodes_written(nodes: Seq<NodeV>, n: NodeV)
    ensures
        rendered(seq![n]) == node_markdown(n) + seq!['\n'],
        nodes.len() > 0 ==> rendered(nodes.push(n)) == rendered(nodes) + (if item_node(
            nodes.last(),
        ) && item_node(n) {
            Seq::empty()
        } else {
            seq!['\n']
        }) + node_markdown(n) + seq!['\n'],
        node_markdown(NodeV::Rule) == seq!['-', '-', '-'],
        node_markdown(NodeV::Toc) == "<!-- gdoc:toc -->"@,
{
    reveal_strlit("\n");
    reveal_strlit("\n\n");
    reveal_strlit("---");
    reveal_strlit("<!-- gdoc:toc -->");
    assert("\n"@ =~= seq!['\n']);
    assert("\n\n"@ =~= seq!['\n', '\n']);
    assert("---"@ =~= seq!['-', '-', '-']);
    assert(rendered(seq![n]) =~= node_markdown(n) + seq!['\n']);
    if nodes.len() > 0 {
        let more = nodes.push(n);
        assert(more.drop_last() =~= nodes);
        assert(more[more.len() - 2] == nodes.last());
        let sep = if item_node(nodes.last()) && item_node(n) {
            Seq::<char>::empty()
        } else {
            seq!['\n']
        };
        assert(gap(nodes.last(), n) =~= seq!['\n'] + sep);
        assert(rendered(more) =~= rendered(nodes) + sep + node_markdown(n) + seq!['\n']);
    }
}

// ---------------------------------------------------------------------------
// Runs
// ---------------------------------------------------------------------------

/// A character that is written behind a backslash.
pub open spec fn escapes(c: char, in_table: bool) -> bool {
    ||| c == '\\'
    ||| c == '*'
    ||| c == '~'
    ||| c == '['
    ||| c == ']'
    ||| c == '!'
    ||| (c == '|' && in_table)
}

/// A text is written character by character, with a backslash before those that would mean
/// something, and before no other.
pub proof fn law_escaped(a: Seq<char>, c: char, in_table: bool)
    ensures
        escaped(Seq::empty(), in_table).len() == 0,
        escaped(a.push(c), in_table) == escaped(a, in_table) + if escapes(c, in_table) {
            seq!['\\', c]
        } else {
            seq![c]
        },
    decreases a.len(),
{
    let t = a.push(c);
    let last = if escapes(c, in_table) {
        seq!['\\', c]
    } else {
        seq![c]
    };
    if a.len() == 0 {
        assert(t.skip(1) =~= Seq::<char>::empty());
        assert(escaped(t.skip(1), in_table) =~= Seq::<char>::empty());
        assert(escaped(t, in_table) =~= last);
        assert(escaped(a, in_table) + last =~= last);
    } else {
        assert(t[0] == a[0]);
        assert(t.skip(1) =~= a.skip(1).push(c));
        law_escaped(a.skip(1), c, in_table);
        assert(escaped(t, in_table) =~= escape_char(a[0], in_table) + (escaped(
            a.skip(1),
            in_table,
        ) + last));
        assert(escaped(t, in_table) =~= escaped(a, in_table) + last);
    }
}

/// The delimiter of a style.
pub open spec fn stars_of(style: TextStyle) -> Seq<char> {
    if style.bold && style.italic {
        seq!['*', '*', '*']
    } else if style.bold {
        seq!['*', '*']
    } else if style.italic {
        seq!['*']
    } else {
        Seq::empty()
    }
}

/// A run is written with its asterisks, its tildes around them, and its link around these; an
/// inline object is written as its placeholder.
pub proof fn law_run_written(r: RunV, in_table: bool)
    ensures
        ({
            let stars = stars_of(r.style);
            let inner = stars + escaped(r.text, in_table) + stars;
            let struck = if r.style.strikethrough {
                seq!['~', '~'] + inner + seq!['~', '~']
            } else {
                inner
            };
            run_markdown(r, in_table) == match (r.object, r.link) {
                (Some(d), _) => "![](gdoc:"@ + d + seq![')'],
                (None, Some(url)) => seq!['['] + struck + seq![']', '('] + url + seq![')'],
                (None, None) => struck,
            }
        }),
{
    reveal_strlit("](");
    assert("]("@ =~= seq![']', '(']);
    let n = stars(r.style.bold, r.style.italic);
    assert(repeat('*', n) =~= stars_of(r.style));
    assert(repeat('~', 2) =~= seq!['~', '~']);
}

// ---------------------------------------------------------------------------
// Tables
// ---------------------------------------------------------------------------

/// The cells with a space at each side.
pub open spec fn spaced(cells: Seq<Seq<char>>) -> Seq<Seq<char>> {
    Seq::new(cells.len(), |i: int| seq![' '] + cells[i] + seq![' '])
}

proof fn lemma_piped(cells: Seq<Seq<char>>)
    requires
        cells.len() > 0,
    ensures
        pipe_line(cells) == piped(spaced(cells)),
    decreases cells.len(),
{
    reveal_strlit("| ");
    reveal_strlit(" |");
    reveal_strlit(" | ");
    assert("| "@ =~= seq!['|', ' ']);
    assert(" |"@ =~= seq![' ', '|']);
    assert(" | "@ =~= seq![' ', '|', ' ']);
    lemma_spaced_join(cells);
    assert(pipe_line(cells) =~= piped(spaced(cells)));
}

proof fn lemma_spaced_join(cells: Seq<Seq<char>>)
    requires
        cells.len() > 0,
    ensures
        seq![' '] + join(cells, " | "@) + seq![' '] == join(spaced(cells), seq!['|']),
    decreases cells.len(),
{
    reveal_strlit(" | ");
    assert(" | "@ =~= seq![' ', '|', ' ']);
    let all = spaced(cells);
    if cells.len() > 1 {
        let init = cells.drop_last();
        lemma_spaced_join(init);
        assert(all.drop_last() =~= spaced(init));
        assert(all.last() == seq![' '] + cells.last() + seq![' ']);
        assert(seq![' '] + join(cells, " | "@) + seq![' '] =~= join(spaced(init), seq!['|'])
            + seq!['|'] + all.last());
    } else {
        assert(seq![' '] + join(cells, " | "@) + seq![' '] =~= all[0]);
    }
}

/// A table is written as its rows between pipes, with a row of dashes under the first.
pub proof fn law_table_written(rows: Seq<Seq<Seq<RunV>>>, i: int)
    requires
        0 <= i < rows.len(),
        forall|k: int| 0 <= k < rows.len() ==> (#[trigger] rows[k]).len() > 0,
    ensures
        node_markdown(NodeV::Table(rows)) == join(table_lines(rows), seq!['\n']),
        table_lines(rows).len() == rows.len() + 1,
        table_lines(rows)[if i == 0 {
            0
        } else {
            i + 1
        }] == piped(
            Seq::new(
                rows[i].len(),
                |j: int| seq![' '] + runs_markdown(rows[i][j], true) + seq![' '],
            ),
        ),
        table_lines(rows)[1] == piped(
            Seq::new(rows[0].len(), |j: int| seq![' ', '-', '-', '-', ' ']),
        ),
{
    reveal_strlit("\n");
    assert("\n"@ =~= seq!['\n']);
    assert(rows[0].len() > 0 && rows[i].len() > 0);
    let cells = cell_texts(rows[i]);
    lemma_piped(cells);
    assert(spaced(cells) =~= Seq::new(
        rows[i].len(),
        |j: int| seq![' '] + runs_markdown(rows[i][j], true) + seq![' '],
    ));
    reveal_strlit("---");
    let seps = separator_cells(rows[0].len());
    lemma_piped(seps);
    let dashes = Seq::new(rows[0].len(), |j: int| seq![' ', '-', '-', '-', ' ']);
    assert forall|j: int| 0 <= j < dashes.len() implies spaced(seps)[j] == dashes[j] by {
        assert(spaced(seps)[j] =~= dashes[j]);
    }
    assert(spaced(seps) =~= dashes);
}

// ---------------------------------------------------------------------------
// Plain text, and cutting at barriers
// ---------------------------------------------------------------------------

/// The plain text of nodes is that of each in turn: the text and a line feed of a paragraph,
/// and nothing of a table, a rule or a table of contents.
pub proof fn law_plain_text(nodes: Seq<NodeV>, n: NodeV)
    ensures
        plain_text(Seq::empty()).len() == 0,
        plain_text(nodes.push(n)) == plain_text(nodes) + match n {
            NodeV::Para(b) => b.text().push('\n'),
            _ => Seq::empty(),
        },
{
    let more = nodes.push(n);
    assert(more.drop_last() =~= nodes);
    if let NodeV::Para(b) = n {
        assert(b.text() + seq!['\n'] =~= b.text().push('\n'));
    }
}

/// Paragraphs alone are one run, and a barrier cuts a model in two.
pub proof fn law_cut(bs: Seq<BlockV>, front: Seq<NodeV>, x: NodeV, back: Seq<NodeV>)
    requires
        !(x is Para),
    ensures
        paragraph_runs(paras(bs)) == seq![bs],
        paragraph_runs(front + seq![x] + back) == paragraph_runs(front) + paragraph_runs(back),
    decreases bs.len() + back.len(),
{
    lemma_one_run(bs);
    lemma_cut(front, x, back);
}

proof fn lemma_one_run(bs: Seq<BlockV>)
    ensures
        paragraph_runs(paras(bs)) == seq![bs],
    decreases bs.len(),
{
    let ns = paras(bs);
    if bs.len() == 0 {
        assert(bs =~= Seq::<BlockV>::empty());
        assert(paragraph_runs(ns) =~= seq![bs]);
    } else {
        lemma_one_run(bs.drop_last());
        assert(ns.drop_last() =~= paras(bs.drop_last()));
        assert(bs.drop_last().push(bs.last()) =~= bs);
        assert(paragraph_runs(ns) =~= seq![bs]);
    }
}

proof fn lemma_runs_some(ns: Seq<NodeV>)
    ensures
        paragraph_runs(ns).len() > 0,
    decreases ns.len(),
{
    if ns.len() > 0 {
        lemma_runs_some(ns.drop_last());
    }
}

proof fn lemma_cut(front: Seq<NodeV>, x: NodeV, back: Seq<NodeV>)
    requires
        !(x is Para),
    ensures
        paragraph_runs(front + seq![x] + back) == paragraph_runs(front) + paragraph_runs(back),
    decreases back.len(),
{
    let all = front + seq![x] + back;
    lemma_runs_some(front);
    if back.len() == 0 {
        assert(all.drop_last() =~= front);
        assert(paragraph_runs(all) =~= paragraph_runs(front) + paragraph_runs(back));
    } else {
        lemma_cut(front, x, back.drop_last());
        lemma_runs_some(back.drop_last());
        assert(all.drop_last() =~= front + seq![x] + back.drop_last());
        let (f, b) = (paragraph_runs(front), paragraph_runs(back.drop_last()));
        assert((f + b).last() == b.last());
        assert((f + b).drop_last() =~= f + b.drop_last());
        assert(paragraph_runs(all) =~= f + paragraph_runs(back));
    }
}

/// What a barrier of a model is in the shape of a document.
pub open spec fn barrier_shape(x: NodeV) -> DesV {
    match x {
        NodeV::Table(rows) => DesV::Table(rows),
        NodeV::Toc => DesV::Toc,
        _ => DesV::Rule,
    }
}

/// A model has the shape of a document: its runs of paragraphs, and its barriers between
/// them.
pub proof fn law_shape(bs: Seq<BlockV>, front: Seq<NodeV>, x: NodeV, back: Seq<NodeV>)
    requires
        !(x is Para),
    ensures
        des_sequence(paras(bs)) == seq![DesV::Paras(bs)],
        des_sequence(front + seq![x] + back) == des_sequence(front) + seq![barrier_shape(x)]
            + des_sequence(back),
{
    lemma_one_shape(bs);
    lemma_shape(front, x, back);
    let (fd, fr) = des_split(front);
    let (bd, br) = des_split(back);
    assert(des_sequence(front + seq![x] + back) =~= des_sequence(front) + seq![barrier_shape(x)]
        + des_sequence(back));
}

proof fn lemma_one_shape(bs: Seq<BlockV>)
    ensures
        des_split(paras(bs)) == (Seq::<DesV>::empty(), bs),
    decreases bs.len(),
{
    let ns = paras(bs);
    if bs.len() == 0 {
        assert(bs =~= Seq::<BlockV>::empty());
    } else {
        lemma_one_shape(bs.drop_last());
        assert(ns.drop_last() =~= paras(bs.drop_last()));
        assert(bs.drop_last().push(bs.last()) =~= bs);
    }
}

proof fn lemma_shape(front: Seq<NodeV>, x: NodeV, back: Seq<NodeV>)
    requires
        !(x is Para),
    ensures
        ({
            let (fd, fr) = des_split(front);
            let (bd, br) = des_split(back);
            des_split(front + seq![x] + back) == (
                fd.push(DesV::Paras(fr)).push(barrier_shape(x)) + bd,
                br,
            )
        }),
    decreases back.len(),
{
    let all = front + seq![x] + back;
    let (fd, fr) = des_split(front);
    let head = fd.push(DesV::Paras(fr)).push(barrier_shape(x));
    if back.len() == 0 {
        assert(all.drop_last() =~= front);
        assert(head + Seq::<DesV>::empty() =~= head);
    } else {
        lemma_shape(front, x, back.drop_last());
        assert(all.drop_last() =~= front + seq![x] + back.drop_last());
        assert(all.last() == back.last());
        let (bd, br) = des_split(back.drop_last());
        if !(back.last() is Para) {
            let y = barrier_shape(back.last());
            assert((head + bd).push(DesV::Paras(br)).push(y) =~= head + bd.push(
                DesV::Paras(br),
            ).push(y));
        }
    }
}

} // verus!
