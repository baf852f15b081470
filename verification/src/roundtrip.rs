//! The round trip: the markdown of a model parses to the model again.
use crate::inline::{inline_content, inline_runs};
use crate::inline_laws::{
    bare, contents, law_inline_round_trip, lemma_contents_normalize, lemma_first_char,
    lemma_inert_raise, lemma_no_closing, lemma_runs_read, lemma_text_behind, run_content, run_holds,
    runs_hold, runs_inert,
};
use crate::line_laws::{
    law_table_round_trip, lemma_join_lines, lemma_lines, lemma_table_lines, lemma_tidy,
    lemma_unlines_add, line_holds, lines_hold, table_holds, tidy, unlines,
};
use crate::markdown::{
    break_of, close_levels, count, depth_of, heading, leading, leading_digits, levels_at, list_item,
    nodes_from, ordered_item, parsed, table_end, task_marker, thematic_break, TOC_PLACEHOLDER,
};
use crate::model::{
    atoms, list_kind_of, normal_form, plain_style, BlockKind, BlockV, NodeV, RunV, MAX_DEPTH,
};
use crate::render::{
    block_markdown, block_marker, body_markdown, gap, indent_unit, is_item, item_marker,
    marked_text, node_markdown, rendered, run_markdown, runs_markdown, special, table_lines,
};
use crate::table::{row_cells, table_start};
use crate::text::{indent_width, lines, repeat, trim, trim_end, trim_start, unindent, white_space};
use vstd::prelude::*;

verus! {

/// A paragraph that reads back. Its runs do and hold no line feed, and its markdown is a
/// line of its own kind: what the line parser would trim or take for another block is not
/// in it.
pub open spec fn paragraph_holds(b: BlockV) -> bool {
    let s = runs_markdown(b.runs, false);
    &&& normal_form(b.runs)
    &&& runs_hold(b.runs, false)
    &&& !s.contains('\n')
    &&& s.len() > 0 ==> !white_space(s.last())
    &&& match b.kind {
        BlockKind::Heading(n) => {
            &&& 1 <= n <= 6
            &&& b.depth == 0
            &&& runs_inert(s, 0, b.runs, false, 0)
        },
        BlockKind::Normal => {
            &&& b.depth == 0
            &&& s.len() > 0
            &&& s[0] != ' ' && s[0] != '\t'
            &&& if block_marker(s) {
                // Behind the backslash that keeps it from being read as a marker.
                &&& s[0] != '*'
                &&& runs_inert(seq!['\\'] + s, 1, b.runs, false, 2)
            } else {
                &&& runs_inert(s, 0, b.runs, false, 0)
                &&& trim(s) != TOC_PLACEHOLDER@
                &&& heading(s) is None
                &&& list_item(s) is None
            }
        },
        _ => {
            &&& s.len() > 0
            &&& !thematic_break(block_markdown(b))
            &&& runs_inert(s, 0, b.runs, false, 0)
        },
    }
}

/// A node that reads back.
pub open spec fn node_holds(n: NodeV) -> bool {
    match n {
        NodeV::Para(b) => paragraph_holds(b),
        NodeV::Table(rows) => table_holds(rows),
        NodeV::Rule => true,
        NodeV::Toc => true,
    }
}

/// A node whose markdown is made of lines: it holds no line feed of its own.
pub open spec fn node_lined(n: NodeV) -> bool {
    match n {
        NodeV::Para(b) => {
            let s = runs_markdown(b.runs, false);
            &&& !s.contains('\n')
            &&& s.len() > 0 ==> s.last() != '\r'
        },
        NodeV::Table(rows) => table_holds(rows),
        NodeV::Rule => true,
        NodeV::Toc => true,
    }
}

/// The columns that a list item is indented by.
pub open spec fn item_width(b: BlockV) -> nat {
    b.depth as nat * indent_unit(b.kind)
}

/// The open list levels behind the first `k` nodes: an item opens or closes levels by its
/// indentation, and every other node closes all.
pub open spec fn nesting(nodes: Seq<NodeV>, k: int) -> Seq<nat>
    decreases k,
{
    if k <= 0 {
        Seq::empty()
    } else {
        match nodes[k - 1] {
            NodeV::Para(b) => if list_kind_of(b.kind) {
                levels_at(nesting(nodes, k - 1), item_width(b))
            } else {
                Seq::empty()
            },
            _ => Seq::empty(),
        }
    }
}

/// A list item has the level that these open list levels give.
pub open spec fn level_agrees(n: NodeV, levels: Seq<nat>) -> bool {
    match n {
        NodeV::Para(b) => list_kind_of(b.kind) ==> depth_of(levels) == b.depth,
        _ => true,
    }
}

/// The levels of the list items are those that their indentation gives.
pub open spec fn nested(nodes: Seq<NodeV>) -> bool {
    forall|k: int|
        0 <= k < nodes.len() ==> level_agrees(#[trigger] nodes[k], nesting(nodes, k + 1))
}

/// A model that reads back: its nodes do, and its list items are nested as they are
/// indented.
pub open spec fn model_holds(nodes: Seq<NodeV>) -> bool {
    &&& forall|k: int| 0 <= k < nodes.len() ==> node_holds(#[trigger] nodes[k])
    &&& nested(nodes)
}

/// The lines of a node.
pub open spec fn node_lines(n: NodeV) -> Seq<Seq<char>> {
    match n {
        NodeV::Table(rows) => table_lines(rows),
        _ => seq![node_markdown(n)],
    }
}

/// What stands between two nodes: a blank line, but none between list items.
pub open spec fn gap_lines(a: NodeV, b: NodeV) -> Seq<Seq<char>> {
    if is_item(a) && is_item(b) {
        Seq::empty()
    } else {
        seq![Seq::empty()]
    }
}

/// The lines of the first `k` nodes, with the blank lines between them.
pub open spec fn doc_lines(nodes: Seq<NodeV>, k: int) -> Seq<Seq<char>>
    decreases k,
{
    if k <= 0 {
        Seq::empty()
    } else if k == 1 {
        node_lines(nodes[0])
    } else {
        doc_lines(nodes, k - 1) + gap_lines(nodes[k - 2], nodes[k - 1]) + node_lines(nodes[k - 1])
    }
}

// ---------------------------------------------------------------------------
// Lines of a rendered model
// ---------------------------------------------------------------------------

/// What reads back is made of lines.
pub proof fn lemma_lined(n: NodeV)
    requires
        node_holds(n),
    ensures
        node_lined(n),
{
    assert(white_space('\r'));
}

/// A node's markdown with a line feed behind it is its lines.
proof fn lemma_node_lines(n: NodeV)
    requires
        node_lined(n),
    ensures
        node_markdown(n) + seq!['\n'] == unlines(node_lines(n)),
{
    match n {
        NodeV::Table(rows) => {
            lemma_table_lines(rows);
            lemma_join_lines(table_lines(rows));
        },
        _ => {
            let m = node_markdown(n);
            let ls = seq![m];
            assert(ls.drop_last() =~= Seq::<Seq<char>>::empty());
            assert(unlines(ls.drop_last()) =~= Seq::<char>::empty());
            assert(unlines(ls) =~= m + seq!['\n']);
        },
    }
}

/// The markdown of the first nodes with a line feed behind it is their lines.
proof fn lemma_body_lines(nodes: Seq<NodeV>, k: int)
    requires
        1 <= k <= nodes.len(),
        forall|i: int| 0 <= i < nodes.len() ==> node_lined(#[trigger] nodes[i]),
    ensures
        body_markdown(nodes.take(k)) + seq!['\n'] == unlines(doc_lines(nodes, k)),
    decreases k,
{
    let t = nodes.take(k);
    assert(t.last() == nodes[k - 1]);
    assert(node_lined(nodes[k - 1]));
    lemma_node_lines(nodes[k - 1]);
    if k == 1 {
        assert(t[0] == nodes[0]);
    } else {
        let init = nodes.take(k - 1);
        assert(t.drop_last() =~= init);
        assert(t[t.len() - 2] == nodes[k - 2]);
        lemma_body_lines(nodes, k - 1);
        let a = nodes[k - 2];
        let b = nodes[k - 1];
        let g = gap_lines(a, b);
        let lf = seq!['\n'];
        reveal_strlit("\n");
        reveal_strlit("\n\n");
        assert(gap(a, b) =~= lf + unlines(g)) by {
            if is_item(a) && is_item(b) {
                assert(unlines(g) =~= Seq::<char>::empty());
            } else {
                assert(g.drop_last() =~= Seq::<Seq<char>>::empty());
                assert(unlines(g.drop_last()) =~= Seq::<char>::empty());
                assert(unlines(g) =~= lf);
            }
        }
        lemma_unlines_add(doc_lines(nodes, k - 1), g);
        lemma_unlines_add(doc_lines(nodes, k - 1) + g, node_lines(b));
        let body = body_markdown(init);
        assert(body_markdown(t) + lf =~= (body + lf) + unlines(g) + (node_markdown(b) + lf));
    }
}

/// The lines of a node are lines.
proof fn lemma_node_lines_hold(n: NodeV)
    requires
        node_lined(n),
    ensures
        lines_hold(node_lines(n)),
        node_lines(n).len() > 0,
{
    match n {
        NodeV::Table(rows) => {
            lemma_table_lines(rows);
        },
        NodeV::Rule => {
            reveal_strlit("---");
            let m = "---"@;
            if m.contains('\n') {
                let i = choose|i: int| 0 <= i < m.len() && m[i] == '\n';
            }
        },
        NodeV::Toc => {
            reveal_strlit("<!-- gdoc:toc -->");
            let m = TOC_PLACEHOLDER@;
            if m.contains('\n') {
                let i = choose|i: int| 0 <= i < m.len() && m[i] == '\n';
            }
        },
        NodeV::Para(b) => {
            let m = block_markdown(b);
            let s = runs_markdown(b.runs, false);
            lemma_head_free(b);
            if m.contains('\n') {
                let i = choose|i: int| 0 <= i < m.len() && m[i] == '\n';
                let h = m.len() - s.len();
                if i >= h {
                    assert(m[i] == s[i - h]);
                }
            }
            if m.len() > 0 && m.last() == '\r' {
                if s.len() > 0 {
                    assert(m.last() == s.last());
                }
            }
        },
    }
}

/// What a paragraph's line has before its runs.
pub open spec fn line_head(b: BlockV) -> Seq<char> {
    let s = runs_markdown(b.runs, false);
    if list_kind_of(b.kind) {
        repeat(' ', item_width(b)) + item_marker(b.kind)
    } else if let BlockKind::Heading(n) = b.kind {
        repeat('#', n as nat) + seq![' ']
    } else if block_marker(s) {
        seq!['\\']
    } else {
        Seq::empty()
    }
}

/// A paragraph's line is its head and its runs, and the head holds no line break.
proof fn lemma_head_free(b: BlockV)
    ensures
        block_markdown(b) == line_head(b) + runs_markdown(b.runs, false),
        forall|i: int|
            0 <= i < line_head(b).len() ==> (#[trigger] line_head(b)[i]) != '\n' && line_head(b)[i]
                != '\r',
{
    reveal_strlit("1. ");
    reveal_strlit("- [ ] ");
    reveal_strlit("* ");
    let s = runs_markdown(b.runs, false);
    assert(block_markdown(b) =~= line_head(b) + s);
    let h = line_head(b);
    let w = item_width(b);
    assert forall|i: int| 0 <= i < h.len() implies (#[trigger] h[i]) != '\n' && h[i] != '\r' by {
        if list_kind_of(b.kind) {
            if i < w {
                assert(h[i] == ' ');
            } else {
                assert(h[i] == item_marker(b.kind)[i - w]);
            }
        }
    }
}

/// The lines of the first nodes are lines.
pub proof fn lemma_doc_lines_hold(nodes: Seq<NodeV>, k: int)
    requires
        0 <= k <= nodes.len(),
        forall|i: int| 0 <= i < nodes.len() ==> node_lined(#[trigger] nodes[i]),
    ensures
        lines_hold(doc_lines(nodes, k)),
    decreases k,
{
    if k >= 1 {
        lemma_doc_lines_hold(nodes, k - 1);
        assert(node_lined(nodes[k - 1]));
        lemma_node_lines_hold(nodes[k - 1]);
        if k >= 2 {
            let a = doc_lines(nodes, k - 1);
            let g = gap_lines(nodes[k - 2], nodes[k - 1]);
            let c = node_lines(nodes[k - 1]);
            let all = a + g + c;
            assert forall|i: int| 0 <= i < all.len() implies line_holds(#[trigger] all[i]) by {
                if i < a.len() {
                    assert(line_holds(a[i]));
                } else if i >= a.len() + g.len() {
                    assert(line_holds(c[i - a.len() - g.len()]));
                }
            }
        }
    }
}

/// The lines of a rendered model.
pub proof fn lemma_rendered_lines(nodes: Seq<NodeV>)
    requires
        nodes.len() > 0,
        forall|i: int| 0 <= i < nodes.len() ==> node_lined(#[trigger] nodes[i]),
    ensures
        lines(rendered(nodes)) == doc_lines(nodes, nodes.len() as int),
{
    let n = nodes.len() as int;
    assert(nodes.take(n) =~= nodes);
    lemma_body_lines(nodes, n);
    lemma_doc_lines_hold(nodes, n);
    reveal_strlit("\n");
    assert("\n"@ =~= seq!['\n']);
    let ls = doc_lines(nodes, n);
    lemma_lines(ls, Seq::empty());
    assert(unlines(ls) + Seq::<char>::empty() =~= unlines(ls));
    assert(lines(Seq::<char>::empty()) =~= Seq::<Seq<char>>::empty());
    assert(ls + Seq::<Seq<char>>::empty() =~= ls);
}

// ---------------------------------------------------------------------------
// One line
// ---------------------------------------------------------------------------

/// A text that ends without white space is trimmed at its front alone.
proof fn lemma_trim_front(s: Seq<char>)
    requires
        s.len() > 0,
        !white_space(s.last()),
    ensures
        trim(s) == trim_start(s),
        trim(s).len() > 0,
        trim_start(s).last() == s.last(),
    decreases s.len(),
{
    if white_space(s[0]) {
        let t = s.skip(1);
        assert(s.len() > 1) by {
            if s.len() == 1 {
                assert(s[0] == s.last());
            }
        }
        assert(t.last() == s.last());
        lemma_trim_front(t);
        assert(trim_start(s) == trim_start(t));
    }
}

/// Spaces at the front are indentation.
proof fn lemma_indent(k: nat, x: Seq<char>)
    requires
        x.len() > 0,
        !white_space(x[0]),
    ensures
        unindent(repeat(' ', k) + x) == x,
        indent_width(repeat(' ', k) + x) == k,
        trim_start(repeat(' ', k) + x) == x,
    decreases k,
{
    let s = repeat(' ', k) + x;
    if k == 0 {
        assert(s =~= x);
    } else {
        let r = repeat(' ', (k - 1) as nat);
        assert(s[0] == ' ');
        assert(s.skip(1) =~= r + x);
        lemma_indent((k - 1) as nat, x);
    }
}

/// A thematic break has no other characters.
proof fn lemma_no_break(line: Seq<char>, i: int)
    requires
        0 <= i < line.len(),
        line[i] != '-' && line[i] != '*' && line[i] != '_' && line[i] != ' ' && line[i] != '\t',
    ensures
        !thematic_break(line),
{
}

/// Leading hashes.
proof fn lemma_hashes(n: nat, x: Seq<char>)
    requires
        x.len() > 0 ==> x[0] != '#',
    ensures
        leading(repeat('#', n) + x, '#') == n,
    decreases n,
{
    let s = repeat('#', n) + x;
    if n == 0 {
        assert(s =~= x);
    } else {
        assert(s.skip(1) =~= repeat('#', (n - 1) as nat) + x);
        lemma_hashes((n - 1) as nat, x);
    }
}

/// A heading's line is read as the heading.
proof fn lemma_heading_line(n: u8, s: Seq<char>)
    requires
        1 <= n <= 6,
        s.len() > 0 ==> !white_space(s.last()),
    ensures
        ({
            let line = repeat('#', n as nat) + seq![' '] + s;
            &&& trim(line).len() > 0
            &&& !thematic_break(line)
            &&& trim(line) != TOC_PLACEHOLDER@
            &&& row_cells(line) is None
            &&& heading(trim_end(unindent(line))) == Some((n, s))
        }),
{
    let h = repeat('#', n as nat);
    let line = h + seq![' '] + s;
    assert(line[0] == '#');
    assert(unindent(line) == line);
    lemma_no_break(line, 0);
    reveal_strlit("<!-- gdoc:toc -->");
    assert(trim_start(line) == line);
    if s.len() > 0 {
        assert(line.last() == s.last());
        assert(trim_end(line) == line);
        let x = seq![' '] + s;
        assert(line =~= h + x);
        lemma_hashes(n as nat, x);
        assert(line[n as int] == ' ');
        assert(line.skip(n + 1) =~= s);
    } else {
        assert(line.last() == ' ');
        assert(line.drop_last() =~= h);
        assert(h.last() == '#');
        assert(trim_end(h) == h);
        assert(trim_end(line) == h);
        assert(h =~= h + Seq::<char>::empty());
        lemma_hashes(n as nat, Seq::empty());
        assert(s =~= Seq::<char>::empty());
    }
}

/// The text behind a marker starts no task marker.
proof fn lemma_no_task(runs: Seq<RunV>)
    requires
        runs_hold(runs, false),
    ensures
        !task_marker(runs_markdown(runs, false)),
{
    let s = runs_markdown(runs, false);
    if task_marker(s) {
        assert(runs.len() > 0);
        let r = runs[0];
        let w = run_markdown(r, false);
        assert(run_holds(runs[0], false));
        lemma_first_char(r, false);
        assert(s == w + runs_markdown(runs.skip(1), false));
        assert(w.len() > 0 && w[0] == s[0]);
        assert(r.object is None && r.link is Some);
        let x = marked_text(r, false);
        lemma_no_closing(r, false);
        reveal_strlit("](");
        assert(w.len() == 1 + x.len() + 2 + r.link->0.len() + 1);
        assert(s[2] == w[2] && s[3] == w[3]);
        if x.len() >= 2 {
            assert(w[2] == x[1]);
            assert(x.contains(x[1]));
        } else {
            assert(x.len() == 1);
            assert(w[3] == '(');
        }
    }
}

/// A list item's line is read as the item.
proof fn lemma_item_line(b: BlockV)
    requires
        list_kind_of(b.kind),
        paragraph_holds(b),
    ensures
        ({
            let s = runs_markdown(b.runs, false);
            let line = block_markdown(b);
            let content = trim_end(unindent(line));
            &&& trim(line).len() > 0
            &&& trim(line) != TOC_PLACEHOLDER@
            &&& row_cells(line) is None
            &&& heading(content) is None
            &&& list_item(content) == Some((b.kind, s))
            &&& indent_width(line) == item_width(b)
        }),
{
    reveal_strlit("1. ");
    reveal_strlit("- [ ] ");
    reveal_strlit("* ");
    reveal_strlit("<!-- gdoc:toc -->");
    let s = runs_markdown(b.runs, false);
    let mk = item_marker(b.kind);
    let x = mk + s;
    let line = block_markdown(b);
    assert(line =~= repeat(' ', item_width(b)) + x);
    assert(x[0] == mk[0]);
    assert(!white_space(x[0]));
    lemma_indent(item_width(b), x);
    assert(line.last() == s.last());
    assert(x.last() == s.last());
    assert(trim_end(x) == x);
    lemma_trim_front(line);
    assert(leading(x, '#') == 0);
    if b.kind is Number {
        assert(x[0] == '1' && x[1] == '.' && x[2] == ' ');
        let y = x.skip(1);
        assert(y[0] == '.');
        assert(leading_digits(y) == 0);
        assert(leading_digits(x) == 1);
        assert(x.skip(3) =~= s);
        assert(ordered_item(x) == Some(s));
    } else if b.kind is Checkbox {
        assert(x[0] == '-' && x[1] == ' ');
        let y = x.skip(2);
        assert(y[0] == '[' && y[1] == ' ' && y[2] == ']' && y[3] == ' ');
        assert(x.skip(6) =~= s);
    } else {
        assert(x[0] == '*' && x[1] == ' ');
        assert(x.skip(2) =~= s);
        lemma_no_task(b.runs);
    }
}

/// The backslash before a paragraph that would be read as a marker is read as escaping its
/// first character.
proof fn lemma_escaped_paragraph(b: BlockV)
    requires
        b.kind is Normal,
        paragraph_holds(b),
        block_marker(runs_markdown(b.runs, false)),
    ensures
        inline_runs(seq!['\\'] + runs_markdown(b.runs, false)) == b.runs,
{
    let s = runs_markdown(b.runs, false);
    let m = seq!['\\'] + s;
    let runs = b.runs;
    assert(runs.len() > 0);
    let r = runs[0];
    let w = run_markdown(r, false);
    let rest = runs.skip(1);
    assert(run_holds(runs[0], false));
    lemma_first_char(r, false);
    assert(s == w + runs_markdown(rest, false));
    assert(s[0] == w[0]);
    reveal_strlit("<!-- gdoc:toc -->");
    // The first character belongs to text without marks.
    assert(s[0] == '-' || s[0] == '_' || s[0] == '#' || s[0] == '<') by {
        if 1 <= s.len() <= 6 && leading(s, '#') == s.len() {
            assert(s[0] == '#');
        }
    }
    assert(bare(r));
    let t = r.text;
    assert(!special(t[0], false));
    let end = 1 + w.len() as int;
    assert(m.skip(1) =~= s);
    assert(seq![r] + rest =~= runs);
    lemma_text_behind(m, r, rest);
    assert(inline_content(m, 0, plain_style(), None) == atoms(t, plain_style(), None)
        + inline_content(m, end, plain_style(), None));
    assert(m.skip(end) =~= runs_markdown(rest, false));
    assert forall|i: int| 0 <= i < rest.len() implies run_holds(#[trigger] rest[i], false) by {
        assert(run_holds(runs[i + 1], false));
    }
    lemma_inert_raise(m, end, rest, false, 2, end);
    lemma_runs_read(m, end, rest, false);
    assert(run_content(r) == atoms(t, plain_style(), None));
    assert(contents(runs) == run_content(r) + contents(rest));
    lemma_contents_normalize(runs);
}

/// A normal paragraph's line is read as the paragraph, where no table begins.
proof fn lemma_normal_line(b: BlockV)
    requires
        b.kind is Normal,
        paragraph_holds(b),
    ensures
        ({
            let line = block_markdown(b);
            &&& trim(line).len() > 0
            &&& !thematic_break(line)
            &&& trim(line) != TOC_PLACEHOLDER@
            &&& trim_end(unindent(line)) == line
            &&& heading(line) is None
            &&& list_item(line) is None
            &&& inline_runs(line) == b.runs
        }),
{
    let s = runs_markdown(b.runs, false);
    let line = block_markdown(b);
    reveal_strlit("<!-- gdoc:toc -->");
    assert(line.last() == s.last());
    lemma_trim_front(line);
    if block_marker(s) {
        assert(line =~= seq!['\\'] + s);
        assert(line[0] == '\\');
        lemma_no_break(line, 0);
        assert(trim_start(line) == line);
        assert(unindent(line) == line);
        assert(trim_end(line) == line);
        assert(leading(line, '#') == 0);
        assert(leading_digits(line) == 0);
        lemma_escaped_paragraph(b);
    } else {
        assert(line == s);
        assert(unindent(line) == line);
        assert(trim_end(line) == line);
        law_inline_round_trip(b.runs, false);
    }
}

// ---------------------------------------------------------------------------
// The document
// ---------------------------------------------------------------------------

/// The blank line is none of the constructs.
pub proof fn lemma_blank()
    ensures
        trim(Seq::<char>::empty()) == Seq::<char>::empty(),
        row_cells(Seq::<char>::empty()) is None,
{
    let e = Seq::<char>::empty();
    assert(trim_start(e) == e);
    assert(trim_end(e) == e);
}

/// The lines are those of the node from `i` on, up to `j`, where the lines end, a blank
/// line follows, or the node is a list item.
pub open spec fn node_stands(ls: Seq<Seq<char>>, i: int, j: int, n: NodeV) -> bool {
    &&& 0 <= i <= j <= ls.len()
    &&& ls.subrange(i, j) == node_lines(n)
    &&& j < ls.len() && !is_item(n) ==> ls[j].len() == 0
}

/// The open list levels behind a node.
pub open spec fn levels_behind(open: Seq<nat>, n: NodeV) -> Seq<nat> {
    match n {
        NodeV::Para(b) => if list_kind_of(b.kind) {
            levels_at(open, item_width(b))
        } else {
            Seq::empty()
        },
        _ => Seq::empty(),
    }
}

/// Where there is no separator row below a line, no table begins.
proof fn lemma_no_table(ls: Seq<Seq<char>>, i: int)
    requires
        0 <= i < ls.len(),
        row_cells(ls[i]) is None || i + 1 == ls.len() || ls[i + 1].len() == 0,
    ensures
        !table_start(ls.skip(i)),
{
    let t = ls.skip(i);
    assert(t[0] == ls[i]);
    if t.len() >= 2 {
        assert(t[1] == ls[i + 1]);
        if ls[i + 1].len() == 0 {
            assert(ls[i + 1] =~= Seq::<char>::empty());
            lemma_blank();
        }
    }
}

/// A table's lines are read to their end.
pub proof fn lemma_table_stops(ls: Seq<Seq<char>>, q: int, j: int)
    requires
        0 <= q <= j <= ls.len(),
        forall|k: int| q <= k < j ==> row_cells(#[trigger] ls[k]) is Some,
        j < ls.len() ==> row_cells(ls[j]) is None,
    ensures
        table_end(ls, q) == j,
    decreases j - q,
{
    if q < j {
        assert(row_cells(ls[q]) is Some);
        lemma_table_stops(ls, q + 1, j);
    }
}

/// A table's lines are read as the table.
proof fn lemma_table_reads(
    ls: Seq<Seq<char>>,
    i: int,
    j: int,
    rows: Seq<Seq<Seq<RunV>>>,
    open: Seq<nat>,
)
    requires
        table_holds(rows),
        node_stands(ls, i, j, NodeV::Table(rows)),
    ensures
        nodes_from(ls, i, open) == seq![NodeV::Table(rows)] + nodes_from(ls, j, Seq::empty()),
{
    let w = table_lines(rows);
    lemma_table_lines(rows);
    law_table_round_trip(rows);
    assert(ls.subrange(i, j) == w);
    assert forall|k: int| 0 <= k < w.len() implies ls[i + k] == #[trigger] w[k] by {
        assert(ls.subrange(i, j)[k] == w[k]);
    }
    assert(ls[i + 0] == w[0]);
    assert(ls[i + 1] == w[1]);
    assert(row_cells(w[0]) is Some && w[0][0] == '|' && trim(w[0]) == w[0]);
    lemma_no_break(ls[i], 0);
    reveal_strlit("<!-- gdoc:toc -->");
    let t = ls.skip(i);
    assert(t[0] == ls[i] && t[1] == ls[i + 1]);
    assert(table_start(t));
    assert forall|k: int| i + 2 <= k < j implies row_cells(#[trigger] ls[k]) is Some by {
        assert(ls[i + (k - i)] == w[k - i]);
    }
    if j < ls.len() {
        assert(ls[j] =~= Seq::<char>::empty());
        lemma_blank();
    }
    lemma_table_stops(ls, i + 2, j);
}

/// A node's lines are read as the node; a list item gets the level that its indentation
/// gives.
pub proof fn lemma_node_reads(ls: Seq<Seq<char>>, i: int, j: int, n: NodeV, open: Seq<nat>)
    requires
        node_holds(n),
        node_stands(ls, i, j, n),
        level_agrees(n, levels_behind(open, n)),
    ensures
        nodes_from(ls, i, open) == seq![n] + nodes_from(ls, j, levels_behind(open, n)),
{
    if let NodeV::Table(rows) = n {
        lemma_table_reads(ls, i, j, rows, open);
    } else {
        let line = node_markdown(n);
        assert(node_lines(n) == seq![line]);
        assert(ls.subrange(i, j).len() == 1);
        assert(ls.subrange(i, j)[0] == line);
        assert(ls[i] == line);
        match n {
            NodeV::Rule => {
                reveal_strlit("---");
                assert(tidy(line));
                lemma_tidy(line);
                reveal_with_fuel(count, 4);
                assert(line.drop_last().drop_last().drop_last() =~= Seq::<char>::empty());
                assert(break_of(line, '-'));
            },
            NodeV::Toc => {
                reveal_strlit("<!-- gdoc:toc -->");
                assert(tidy(line));
                lemma_tidy(line);
                lemma_no_break(line, 0);
            },
            NodeV::Para(b) => {
                if list_kind_of(b.kind) {
                    lemma_item_line(b);
                    lemma_no_table(ls, i);
                    law_inline_round_trip(b.runs, false);
                } else if let BlockKind::Heading(k) = b.kind {
                    let s = runs_markdown(b.runs, false);
                    lemma_heading_line(k, s);
                    lemma_no_table(ls, i);
                    law_inline_round_trip(b.runs, false);
                } else {
                    lemma_normal_line(b);
                    lemma_no_table(ls, i);
                }
            },
            _ => {},
        }
    }
}

/// The lines of the first nodes come first.
proof fn lemma_doc_prefix(nodes: Seq<NodeV>, k: int, n: int)
    requires
        0 <= k <= n <= nodes.len(),
    ensures
        doc_lines(nodes, k).len() <= doc_lines(nodes, n).len(),
        doc_lines(nodes, n).take(doc_lines(nodes, k).len() as int) == doc_lines(nodes, k),
    decreases n - k,
{
    let a = doc_lines(nodes, k);
    if k == n {
        assert(a.take(a.len() as int) =~= a);
    } else {
        lemma_doc_prefix(nodes, k, n - 1);
        let b = doc_lines(nodes, n - 1);
        let c = doc_lines(nodes, n);
        if n == 1 {
            assert(a =~= Seq::<Seq<char>>::empty());
            assert(c.take(0) =~= a);
        } else {
            assert(c.take(a.len() as int) =~= b.take(a.len() as int));
        }
    }
}

/// A blank line stands between the nodes before and at `k`.
pub open spec fn blank_before(nodes: Seq<NodeV>, k: int) -> bool {
    k > 0 && !(is_item(nodes[k - 1]) && is_item(nodes[k]))
}

/// The lines of the `k`-th node stand in the document, behind those of the nodes before it
/// and a blank line where there is one.
pub proof fn lemma_node_place(nodes: Seq<NodeV>, k: int)
    requires
        0 <= k < nodes.len(),
    ensures
        ({
            let ls = doc_lines(nodes, nodes.len() as int);
            let at = doc_lines(nodes, k).len() as int;
            let j = doc_lines(nodes, k + 1).len() as int;
            let i = j - node_lines(nodes[k]).len();
            &&& node_stands(ls, i, j, nodes[k])
            &&& blank_before(nodes, k) ==> i == at + 1 && ls[at].len() == 0
            &&& !blank_before(nodes, k) ==> i == at
        }),
{
    let n = nodes.len() as int;
    let ls = doc_lines(nodes, n);
    let at = doc_lines(nodes, k).len() as int;
    let node = nodes[k];
    lemma_doc_prefix(nodes, k + 1, n);
    let upto = doc_lines(nodes, k + 1);
    let j = upto.len() as int;
    let own = node_lines(node);
    let i = j - own.len();
    assert forall|q: int| 0 <= q < j implies #[trigger] ls[q] == upto[q] by {
        assert(ls.take(j)[q] == upto[q]);
    }
    let w = ls.subrange(i, j);
    assert forall|q: int| 0 <= q < own.len() implies #[trigger] w[q] == own[q] by {
        assert(ls[i + q] == upto[i + q]);
    }
    assert(w =~= own);
    if j < ls.len() && !is_item(node) {
        if k + 1 == n {
            assert(upto == ls);
        }
        lemma_doc_prefix(nodes, k + 2, n);
        let more = doc_lines(nodes, k + 2);
        let g = gap_lines(node, nodes[k + 1]);
        assert(g[0].len() == 0);
        assert(more == upto + g + node_lines(nodes[k + 1]));
        assert(more[j] == g[0]);
        assert(ls.take(more.len() as int)[j] == more[j]);
    }
    if blank_before(nodes, k) {
        let g = gap_lines(nodes[k - 1], node);
        assert(upto == doc_lines(nodes, k) + g + own);
        assert(upto[at] == g[0]);
    } else if k > 0 {
        assert(upto == doc_lines(nodes, k) + Seq::<Seq<char>>::empty() + own);
    }
}

/// The lines from the `k`-th node on are read as the nodes from there on.
proof fn lemma_doc_reads(nodes: Seq<NodeV>, k: int)
    requires
        model_holds(nodes),
        0 <= k <= nodes.len(),
    ensures
        nodes_from(
            doc_lines(nodes, nodes.len() as int),
            doc_lines(nodes, k).len() as int,
            nesting(nodes, k),
        ) == nodes.skip(k),
    decreases nodes.len() - k,
{
    let n = nodes.len() as int;
    let ls = doc_lines(nodes, n);
    let at = doc_lines(nodes, k).len() as int;
    if k == n {
        assert(nodes.skip(n) =~= Seq::<NodeV>::empty());
    } else {
        lemma_doc_reads(nodes, k + 1);
        let node = nodes[k];
        let open = nesting(nodes, k);
        let j = doc_lines(nodes, k + 1).len() as int;
        let i = j - node_lines(node).len();
        lemma_node_place(nodes, k);
        assert(node_holds(nodes[k]));
        assert(levels_behind(open, node) == nesting(nodes, k + 1));
        assert(level_agrees(nodes[k], nesting(nodes, k + 1)));
        lemma_node_reads(ls, i, j, node, open);
        assert(seq![node] + nodes.skip(k + 1) =~= nodes.skip(k));
        if blank_before(nodes, k) {
            assert(ls[at] =~= Seq::<char>::empty());
            lemma_blank();
            assert(nodes_from(ls, at, open) == nodes_from(ls, i, open));
        }
    }
}

/// The markdown of a model parses to the model again.
pub proof fn law_round_trip(nodes: Seq<NodeV>)
    requires
        model_holds(nodes),
    ensures
        parsed(rendered(nodes)) == nodes,
{
    if nodes.len() == 0 {
        reveal_strlit("\n");
        let s = rendered(nodes);
        assert(s =~= seq!['\n']);
        let e = Seq::<char>::empty();
        lemma_lines(seq![e], e);
        assert(seq![e].drop_last() =~= Seq::<Seq<char>>::empty());
        assert(unlines(seq![e].drop_last()) =~= e);
        assert(unlines(seq![e]) + e =~= s);
        assert(lines(e) =~= Seq::<Seq<char>>::empty());
        let ls = lines(s);
        assert(ls =~= seq![e]);
        lemma_blank();
        assert(nodes_from(ls, 1, Seq::empty()) =~= Seq::<NodeV>::empty());
        assert(nodes_from(ls, 0, Seq::empty()) == nodes_from(ls, 1, Seq::empty()));
        assert(nodes =~= Seq::<NodeV>::empty());
    } else {
        assert forall|i: int| 0 <= i < nodes.len() implies node_lined(#[trigger] nodes[i]) by {
            assert(node_holds(nodes[i]));
            lemma_lined(nodes[i]);
        }
        lemma_rendered_lines(nodes);
        lemma_doc_reads(nodes, 0);
        assert(nodes.skip(0) =~= nodes);
    }
}

// ---------------------------------------------------------------------------
// Nesting
// ---------------------------------------------------------------------------

/// List items that go one level deeper at a time: an item is at the top, or it follows an
/// item that is indented by as many columns a level, and is at most one level below that.
pub open spec fn steps_down(nodes: Seq<NodeV>, k: int) -> bool {
    match nodes[k] {
        NodeV::Para(b) => list_kind_of(b.kind) ==> {
            &&& b.depth <= MAX_DEPTH
            &&& b.depth > 0 ==> k > 0 && match nodes[k - 1] {
                NodeV::Para(a) => {
                    &&& list_kind_of(a.kind)
                    &&& indent_unit(a.kind) == indent_unit(b.kind)
                    &&& b.depth <= a.depth + 1
                },
                _ => false,
            }
        },
        _ => true,
    }
}

/// The levels from 0 to `d`, each `unit` columns deeper.
pub open spec fn even_levels(d: nat, unit: nat) -> Seq<nat> {
    Seq::new(d + 1, |i: int| (i * unit) as nat)
}

/// Closing the levels below the `w`-th.
proof fn lemma_close(d: nat, w: nat, unit: nat)
    requires
        unit > 0,
        w <= d,
    ensures
        close_levels(even_levels(d, unit), w * unit) == even_levels(w, unit),
    decreases d,
{
    let open = even_levels(d, unit);
    assert(open.last() == d * unit);
    if w < d {
        assert(w * unit < d * unit) by (nonlinear_arith)
            requires
                w < d,
                unit > 0,
        ;
        assert(open.drop_last() =~= even_levels((d - 1) as nat, unit));
        lemma_close((d - 1) as nat, w, unit);
    }
}

/// The levels at an item that is at most one level deeper than the last.
proof fn lemma_even(d: nat, w: nat, unit: nat)
    requires
        unit > 0,
        w <= d + 1,
    ensures
        levels_at(even_levels(d, unit), w * unit) == even_levels(w, unit),
{
    let open = even_levels(d, unit);
    if w <= d {
        lemma_close(d, w, unit);
        assert(even_levels(w, unit).last() == w * unit);
    } else {
        assert(open.last() == d * unit);
        assert(d * unit < w * unit) by (nonlinear_arith)
            requires
                d < w,
                unit > 0,
        ;
        assert(open.push(w * unit) =~= even_levels(w, unit));
    }
}

/// The levels behind a list item whose list goes down one level at a time.
proof fn lemma_nesting(nodes: Seq<NodeV>, k: int)
    requires
        0 <= k < nodes.len(),
        forall|i: int| 0 <= i < nodes.len() ==> #[trigger] steps_down(nodes, i),
    ensures
        nodes[k] matches NodeV::Para(b) ==> (list_kind_of(b.kind) ==> nesting(nodes, k + 1)
            == even_levels(b.depth as nat, indent_unit(b.kind))),
    decreases k,
{
    assert(steps_down(nodes, k));
    if let NodeV::Para(b) = nodes[k] {
        if list_kind_of(b.kind) {
            let open = nesting(nodes, k);
            let unit = indent_unit(b.kind);
            if k > 0 {
                lemma_nesting(nodes, k - 1);
            }
            if b.depth == 0 {
                assert(item_width(b) == 0) by (nonlinear_arith)
                    requires
                        item_width(b) == b.depth as nat * unit,
                        b.depth == 0,
                ;
                if open.len() > 0 {
                    let a = nodes[k - 1]->Para_0;
                    lemma_even(a.depth as nat, 0, indent_unit(a.kind));
                    assert(0 * indent_unit(a.kind) == 0);
                    assert(even_levels(0, indent_unit(a.kind)) =~= even_levels(0, unit));
                } else {
                    assert(open =~= Seq::<nat>::empty());
                    assert(levels_at(open, 0) =~= even_levels(0, unit));
                }
            } else {
                let a = nodes[k - 1]->Para_0;
                lemma_even(a.depth as nat, b.depth as nat, unit);
            }
        }
    }
}

/// A model whose lists go down one level at a time has its list items nested as they are
/// indented.
pub proof fn law_nested(nodes: Seq<NodeV>)
    requires
        forall|k: int| 0 <= k < nodes.len() ==> #[trigger] steps_down(nodes, k),
    ensures
        nested(nodes),
{
    assert forall|k: int| 0 <= k < nodes.len() implies level_agrees(
        #[trigger] nodes[k],
        nesting(nodes, k + 1),
    ) by {
        lemma_nesting(nodes, k);
        assert(steps_down(nodes, k));
    }
}

} // verus!
