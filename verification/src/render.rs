//! Model to markdown, and model to the plain text of a document body.
use crate::markdown::{
    count_leading, is_thematic_break, leading, parsed, thematic_break, TOC_PLACEHOLDER,
};
use crate::model::{
    columns_of, is_list, list_kind_of, node_views, row_view, run_views, Block, BlockKind, BlockV,
    Cell, DocModel, Node, NodeV, Run, RunV, Table,
};
use crate::roundtrip::{law_round_trip, model_holds};
use crate::text::{
    char_views, join, joined, push_chars, push_repeat, push_str, repeat, spells, to_chars, to_text,
};
use vstd::prelude::*;

verus! {

/// A character that the inline parser would interpret.
pub open spec fn special(c: char, in_table: bool) -> bool {
    c == '\\' || c == '*' || c == '~' || c == '[' || c == ']' || c == '!' || (in_table && c == '|')
}

/// A character, behind a backslash where it is special.
pub open spec fn escape_char(c: char, in_table: bool) -> Seq<char> {
    if special(c, in_table) {
        seq!['\\', c]
    } else {
        seq![c]
    }
}

/// A text with its special characters escaped.
pub open spec fn escaped(t: Seq<char>, in_table: bool) -> Seq<char>
    decreases t.len(),
{
    if t.len() == 0 {
        Seq::empty()
    } else {
        escape_char(t[0], in_table) + escaped(t.skip(1), in_table)
    }
}

/// How many asterisks a style is written with.
pub open spec fn stars(bold: bool, italic: bool) -> nat {
    if bold && italic {
        3
    } else if bold {
        2
    } else if italic {
        1
    } else {
        0
    }
}

/// `s` between two copies of `m`.
pub open spec fn enclosed(m: Seq<char>, s: Seq<char>) -> Seq<char> {
    m + s + m
}

/// A run's text with its emphasis and strike marks.
pub open spec fn marked_text(r: RunV, in_table: bool) -> Seq<char> {
    let s = enclosed(
        repeat('*', stars(r.style.bold, r.style.italic)),
        escaped(r.text, in_table),
    );
    if r.style.strikethrough {
        enclosed(repeat('~', 2), s)
    } else {
        s
    }
}

/// A run as markdown.
pub open spec fn run_markdown(r: RunV, in_table: bool) -> Seq<char> {
    match r.object {
        Some(desc) => "![](gdoc:"@ + desc + seq![')'],
        None => match r.link {
            Some(url) => seq!['['] + marked_text(r, in_table) + "]("@ + url + seq![')'],
            None => marked_text(r, in_table),
        },
    }
}

/// Runs as markdown.
pub open spec fn runs_markdown(runs: Seq<RunV>, in_table: bool) -> Seq<char>
    decreases runs.len(),
{
    if runs.len() == 0 {
        Seq::empty()
    } else {
        run_markdown(runs[0], in_table) + runs_markdown(runs.skip(1), in_table)
    }
}

/// The cells of a row as markdown.
pub open spec fn cell_texts(row: Seq<Seq<RunV>>) -> Seq<Seq<char>> {
    Seq::new(row.len(), |i: int| runs_markdown(row[i], true))
}

/// A line of cells between pipes.
pub open spec fn pipe_line(cells: Seq<Seq<char>>) -> Seq<char> {
    "| "@ + join(cells, " | "@) + " |"@
}

/// The cells of the separator row under a header of `cols` cells.
pub open spec fn separator_cells(cols: nat) -> Seq<Seq<char>> {
    Seq::new(
        if cols == 0 {
            1
        } else {
            cols
        },
        |i: int| "---"@,
    )
}

/// The lines of a table: the header, the separator row and the other rows.
pub open spec fn table_lines(rows: Seq<Seq<Seq<RunV>>>) -> Seq<Seq<char>> {
    Seq::new(
        if rows.len() == 0 {
            0
        } else {
            rows.len() + 1
        },
        |i: int|
            if i == 0 {
                pipe_line(cell_texts(rows[0]))
            } else if i == 1 {
                pipe_line(separator_cells(columns_of(rows)))
            } else {
                pipe_line(cell_texts(rows[i - 1]))
            },
    )
}

/// A paragraph text that would be read as a rule, a table of contents or an empty
/// heading.
pub open spec fn block_marker(s: Seq<char>) -> bool {
    ||| thematic_break(s)
    ||| s == TOC_PLACEHOLDER@
    ||| (1 <= s.len() <= 6 && leading(s, '#') == s.len())
}

/// The marker of a list item of this kind.
pub open spec fn item_marker(kind: BlockKind) -> Seq<char> {
    if kind is Number {
        "1. "@
    } else if kind is Checkbox {
        "- [ ] "@
    } else {
        "* "@
    }
}

/// The columns that one nesting level is indented by.
pub open spec fn indent_unit(kind: BlockKind) -> nat {
    if kind is Number {
        3
    } else {
        2
    }
}

/// A paragraph as markdown.
pub open spec fn block_markdown(b: BlockV) -> Seq<char> {
    let s = runs_markdown(b.runs, false);
    if list_kind_of(b.kind) {
        repeat(' ', b.depth as nat * indent_unit(b.kind)) + item_marker(b.kind) + s
    } else if let BlockKind::Heading(n) = b.kind {
        repeat('#', n as nat) + seq![' '] + s
    } else if block_marker(s) {
        seq!['\\'] + s
    } else {
        s
    }
}

/// A node as markdown.
pub open spec fn node_markdown(n: NodeV) -> Seq<char> {
    match n {
        NodeV::Para(b) => block_markdown(b),
        NodeV::Table(rows) => join(table_lines(rows), "\n"@),
        NodeV::Rule => "---"@,
        NodeV::Toc => TOC_PLACEHOLDER@,
    }
}

/// The node is a list item.
pub open spec fn is_item(n: NodeV) -> bool {
    n matches NodeV::Para(b) && list_kind_of(b.kind)
}

/// What stands between two nodes: a blank line, but none between list items.
pub open spec fn gap(a: NodeV, b: NodeV) -> Seq<char> {
    if is_item(a) && is_item(b) {
        "\n"@
    } else {
        "\n\n"@
    }
}

/// The nodes as markdown with the gaps between them.
pub open spec fn body_markdown(nodes: Seq<NodeV>) -> Seq<char>
    decreases nodes.len(),
{
    if nodes.len() == 0 {
        Seq::empty()
    } else if nodes.len() == 1 {
        node_markdown(nodes[0])
    } else {
        body_markdown(nodes.drop_last()) + gap(nodes[nodes.len() - 2], nodes.last())
            + node_markdown(nodes.last())
    }
}

/// The markdown of a model.
pub open spec fn rendered(nodes: Seq<NodeV>) -> Seq<char> {
    body_markdown(nodes) + "\n"@
}

/// The plain text that a document body with these nodes holds: each paragraph's text
/// and a line feed. Tables, rules and tables of contents add none.
pub open spec fn plain_text(nodes: Seq<NodeV>) -> Seq<char>
    decreases nodes.len(),
{
    if nodes.len() == 0 {
        Seq::empty()
    } else {
        plain_text(nodes.drop_last()) + match nodes.last() {
            NodeV::Para(b) => b.text() + seq!['\n'],
            _ => Seq::empty(),
        }
    }
}

/// Append `text` with the characters escaped that the inline parser would interpret.
fn escape_inline(out: &mut Vec<char>, text: &str, in_table: bool)
    ensures
        final(out)@ == old(out)@ + escaped(text@, in_table),
{
    let cs = to_chars(text);
    let n: usize = cs.len();
    assert(cs@.skip(0) =~= cs@);
    for i in 0..n
        invariant
            n == cs@.len(),
            cs@ == text@,
            out@ + escaped(cs@.skip(i as int), in_table) == old(out)@ + escaped(text@, in_table),
    {
        let c = cs[i];
        let ghost before = out@;
        let ghost rest = cs@.skip(i as int);
        if c == '\\' || c == '*' || c == '~' || c == '[' || c == ']' || c == '!' || (in_table && c
            == '|') {
            out.push('\\');
        }
        out.push(c);
        assert(rest.skip(1) =~= cs@.skip(i + 1));
        assert(out@ =~= before + escape_char(c, in_table));
        assert(out@ + escaped(rest.skip(1), in_table) =~= before + (escape_char(c, in_table)
            + escaped(rest.skip(1), in_table)));
    }
    assert(out@ + escaped(cs@.skip(n as int), in_table) =~= out@);
}

/// Append a run's text with its emphasis marks.
fn push_starred(out: &mut Vec<char>, r: &Run, in_table: bool)
    ensures
        final(out)@ == old(out)@ + enclosed(
            repeat('*', stars(r.style.bold, r.style.italic)),
            escaped(r.text@, in_table),
        ),
{
    let k: usize = if r.style.bold && r.style.italic {
        3
    } else if r.style.bold {
        2
    } else if r.style.italic {
        1
    } else {
        0
    };
    push_repeat(out, '*', k);
    escape_inline(out, r.text.as_str(), in_table);
    push_repeat(out, '*', k);
    proof {
        let m = repeat('*', k as nat);
        let e = escaped(r.text@, in_table);
        assert(old(out)@ + m + e + m =~= old(out)@ + enclosed(m, e));
    }
}

/// Append a run's text with its emphasis and strike marks.
fn push_marked(out: &mut Vec<char>, r: &Run, in_table: bool)
    ensures
        final(out)@ == old(out)@ + marked_text(r@, in_table),
{
    if r.style.strikethrough {
        push_repeat(out, '~', 2);
        push_starred(out, r, in_table);
        push_repeat(out, '~', 2);
        proof {
            let m = repeat('~', 2);
            let e = enclosed(
                repeat('*', stars(r.style.bold, r.style.italic)),
                escaped(r.text@, in_table),
            );
            assert(old(out)@ + m + e + m =~= old(out)@ + enclosed(m, e));
        }
    } else {
        push_starred(out, r, in_table);
    }
}

/// Append a run as markdown.
fn push_run_md(out: &mut Vec<char>, r: &Run, in_table: bool)
    ensures
        final(out)@ == old(out)@ + run_markdown(r@, in_table),
{
    if let Some(desc) = &r.object {
        push_str(out, "![](gdoc:");
        push_str(out, desc.as_str());
        out.push(')');
        assert(out@ =~= old(out)@ + ("![](gdoc:"@ + desc@ + seq![')']));
        return;
    }
    match &r.link {
        Some(url) => {
            out.push('[');
            push_marked(out, r, in_table);
            push_str(out, "](");
            push_str(out, url.as_str());
            out.push(')');
            proof {
                let m = marked_text(r@, in_table);
                assert(out@ =~= old(out)@ + (seq!['['] + m + "]("@ + url@ + seq![')']));
            }
        },
        None => push_marked(out, r, in_table),
    }
}

/// A run as markdown, in the flavor with asterisks.
pub fn run_md(r: &Run, in_table: bool) -> (s: String)
    ensures
        s@ == run_markdown(r@, in_table),
{
    let mut out: Vec<char> = Vec::new();
    push_run_md(&mut out, r, in_table);
    assert(out@ =~= run_markdown(r@, in_table));
    to_text(out.as_slice())
}

/// Append runs as markdown.
fn push_runs_md(out: &mut Vec<char>, runs: &[Run], in_table: bool)
    ensures
        final(out)@ == old(out)@ + runs_markdown(run_views(runs@), in_table),
{
    let n: usize = runs.len();
    let ghost all = run_views(runs@);
    assert(all.skip(0) =~= all);
    for i in 0..n
        invariant
            n == runs@.len(),
            all == run_views(runs@),
            out@ + runs_markdown(all.skip(i as int), in_table) == old(out)@ + runs_markdown(
                all,
                in_table,
            ),
    {
        let ghost before = out@;
        let ghost rest = all.skip(i as int);
        push_run_md(out, &runs[i], in_table);
        assert(rest.skip(1) =~= all.skip(i + 1));
        assert(out@ + runs_markdown(rest.skip(1), in_table) =~= before + (run_markdown(
            rest[0],
            in_table,
        ) + runs_markdown(rest.skip(1), in_table)));
    }
    assert(out@ + runs_markdown(all.skip(n as int), in_table) =~= out@);
}

/// Runs as markdown.
pub fn runs_md(runs: &[Run], in_table: bool) -> (r: Vec<char>)
    ensures
        r@ == runs_markdown(run_views(runs@), in_table),
{
    let mut out: Vec<char> = Vec::new();
    push_runs_md(&mut out, runs, in_table);
    assert(out@ =~= runs_markdown(run_views(runs@), in_table));
    out
}

/// A line of cells between pipes.
fn line_md(cells: &Vec<Vec<char>>) -> (r: Vec<char>)
    ensures
        r@ == pipe_line(char_views(cells@)),
{
    let mut line: Vec<char> = Vec::new();
    push_str(&mut line, "| ");
    let mid = joined(cells, " | ");
    push_chars(&mut line, mid.as_slice());
    push_str(&mut line, " |");
    assert(line@ =~= pipe_line(char_views(cells@)));
    line
}

/// A row of cells as a line.
fn row_md(row: &[Cell]) -> (r: Vec<char>)
    ensures
        r@ == pipe_line(cell_texts(row_view(row@))),
{
    let n: usize = row.len();
    let mut cells: Vec<Vec<char>> = Vec::new();
    for i in 0..n
        invariant
            n == row@.len(),
            cells@.len() == i,
            forall|k: int|
                0 <= k < i ==> #[trigger] cells@[k]@ == runs_markdown(run_views(row@[k]@), true),
    {
        cells.push(runs_md(row[i].as_slice(), true));
    }
    assert(char_views(cells@) =~= cell_texts(row_view(row@)));
    line_md(&cells)
}

/// A table as markdown.
fn table_md(t: &Table) -> (r: Vec<char>)
    ensures
        r@ == join(table_lines(t@), "\n"@),
{
    let n: usize = t.rows.len();
    let mut ls: Vec<Vec<char>> = Vec::new();
    let ghost goal = table_lines(t@);
    for i in 0..n
        invariant
            n == t.rows@.len(),
            goal == table_lines(t@),
            ls@.len() == if i == 0 {
                0
            } else {
                i + 1
            },
            forall|k: int| 0 <= k < ls@.len() ==> #[trigger] ls@[k]@ == goal[k],
    {
        let line = row_md(t.rows[i].as_slice());
        assert(line@ == pipe_line(cell_texts(t@[i as int])));
        ls.push(line);
        if i == 0 {
            let cols: usize = t.columns();
            let m: usize = if cols == 0 {
                1
            } else {
                cols
            };
            let mut cells: Vec<Vec<char>> = Vec::new();
            for k in 0..m
                invariant
                    cells@.len() == k,
                    forall|q: int| 0 <= q < k ==> #[trigger] cells@[q]@ == "---"@,
            {
                cells.push(to_chars("---"));
            }
            assert(char_views(cells@) =~= separator_cells(columns_of(t@)));
            ls.push(line_md(&cells));
        }
    }
    assert(char_views(ls@) =~= goal);
    joined(&ls, "\n")
}

/// Whether a paragraph's text would be read as a block marker of its own (a rule, a
/// table of contents or an empty heading), so that it needs a backslash.
fn reparses_as_block_marker(s: &[char]) -> (r: bool)
    ensures
        r == block_marker(s@),
{
    if is_thematic_break(s) || spells(s, TOC_PLACEHOLDER) {
        return true;
    }
    let n: usize = s.len();
    1 <= n && n <= 6 && count_leading(s, '#') == n
}

/// Append a paragraph as markdown.
fn push_block_md(out: &mut Vec<char>, b: &Block)
    ensures
        final(out)@ == old(out)@ + block_markdown(b@),
{
    if is_list(&b.kind) {
        let unit: usize = match b.kind {
            BlockKind::Number => 3,
            _ => 2,
        };
        let depth: usize = b.depth as usize;
        assert(depth * unit <= 255 * 3 && depth * unit == b.depth as nat * indent_unit(b.kind))
            by (nonlinear_arith)
            requires
                depth <= 255,
                unit <= 3,
                depth == b.depth,
                unit == indent_unit(b.kind),
        ;
        push_repeat(out, ' ', depth * unit);
        match b.kind {
            BlockKind::Number => push_str(out, "1. "),
            BlockKind::Checkbox => push_str(out, "- [ ] "),
            _ => push_str(out, "* "),
        }
        push_runs_md(out, b.runs.as_slice(), false);
        assert(out@ =~= old(out)@ + block_markdown(b@));
        return;
    }
    if let BlockKind::Heading(n) = b.kind {
        push_repeat(out, '#', n as usize);
        out.push(' ');
        push_runs_md(out, b.runs.as_slice(), false);
        assert(out@ =~= old(out)@ + block_markdown(b@));
        return;
    }
    let s = runs_md(b.runs.as_slice(), false);
    if reparses_as_block_marker(s.as_slice()) {
        out.push('\\');
    }
    push_chars(out, s.as_slice());
    assert(out@ =~= old(out)@ + block_markdown(b@));
}

/// Append a node as markdown.
fn push_node_md(out: &mut Vec<char>, node: &Node)
    ensures
        final(out)@ == old(out)@ + node_markdown(node@),
{
    match node {
        Node::Para(b) => push_block_md(out, b),
        Node::Table(t) => {
            let s = table_md(t);
            push_chars(out, s.as_slice());
        },
        Node::Rule => push_str(out, "---"),
        Node::Toc => push_str(out, TOC_PLACEHOLDER),
    }
}

fn node_is_item(node: &Node) -> (r: bool)
    ensures
        r == is_item(node@),
{
    match node {
        Node::Para(b) => is_list(&b.kind),
        _ => false,
    }
}

/// Serialize a model to markdown: headings `#`, bullets `* `, numbers `1. `, tasks
/// `- [ ] `, `**`/`*`/`~~`, `[text](url)`, pipe tables, `---` rules, and inline
/// objects as `![](gdoc:<descriptor>)` placeholders. A model that markdown can hold is
/// what the result parses to.
pub fn model_to_markdown(model: &DocModel) -> (r: String)
    ensures
        r@ == rendered(node_views(model@)),
        model_holds(node_views(model@)) ==> parsed(r@) == node_views(model@),
{
    let n: usize = model.len();
    let ghost all = node_views(model@);
    let mut out: Vec<char> = Vec::new();
    assert(all.take(0) =~= Seq::<NodeV>::empty());
    for i in 0..n
        invariant
            n == model@.len(),
            all == node_views(model@),
            out@ == body_markdown(all.take(i as int)),
    {
        if i > 0 {
            if node_is_item(&model[i - 1]) && node_is_item(&model[i]) {
                push_str(&mut out, "\n");
            } else {
                push_str(&mut out, "\n\n");
            }
        }
        push_node_md(&mut out, &model[i]);
        proof {
            let cur = all.take(i + 1);
            assert(cur.drop_last() =~= all.take(i as int));
            assert(cur.last() == model@[i as int]@);
            if i > 0 {
                assert(cur[cur.len() - 2] == model@[i - 1]@);
            } else {
                assert(cur.len() == 1);
                assert(out@ =~= node_markdown(cur[0]));
            }
        }
    }
    assert(all.take(n as int) =~= all);
    push_str(&mut out, "\n");
    proof {
        if model_holds(all) {
            law_round_trip(all);
        }
    }
    to_text(out.as_slice())
}

/// Render a model to the plain text that a document body holds.
pub fn model_to_plain(model: &DocModel) -> (r: String)
    ensures
        r@ == plain_text(node_views(model@)),
{
    let n: usize = model.len();
    let ghost all = node_views(model@);
    let mut out = String::new();
    assert(all.take(0) =~= Seq::<NodeV>::empty());
    assert(out@ =~= plain_text(all.take(0)));
    for i in 0..n
        invariant
            n == model@.len(),
            all == node_views(model@),
            out@ == plain_text(all.take(i as int)),
    {
        let ghost before = out@;
        if let Node::Para(b) = &model[i] {
            let text = b.text();
            out.append(text.as_str());
            out.push('\n');
            assert(out@ =~= before + (b@.text() + seq!['\n']));
        }
        proof {
            let cur = all.take(i + 1);
            assert(cur.drop_last() =~= all.take(i as int));
            assert(cur.last() == model@[i as int]@);
            assert(before + Seq::<char>::empty() =~= before);
        }
    }
    assert(all.take(n as int) =~= all);
    out
}

} // verus!
