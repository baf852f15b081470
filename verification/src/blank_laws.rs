//! Models that markdown does not hold in full: what is lost, and what is never made up.
use crate::line_laws::{lemma_lines, unlines};
use crate::markdown::{
    break_of, count, heading, leading, levels_at, nodes_from, parsed, thematic_break,
    TOC_PLACEHOLDER,
};
use crate::model::{list_kind_of, BlockKind, BlockV, NodeV, RunV};
use crate::render::{
    block_markdown, block_marker, escaped, is_item, item_marker, node_markdown, rendered,
    run_markdown, runs_markdown,
};
use crate::roundtrip::{
    blank_before, doc_lines, gap_lines, item_width, lemma_blank, lemma_doc_lines_hold, lemma_lined,
    lemma_node_place, lemma_node_reads, lemma_rendered_lines, level_agrees, levels_behind,
    model_holds, nesting, node_holds, node_lined, node_lines,
};
use crate::spacing_laws::padding;
use crate::syntax_laws::{law_line_by_line, level_off, levels_off, no_row, one_by_one};
use crate::table::table_start;
use crate::text::{
    find_char, indent_width, lemma_find_char, lines, repeat, trim, trim_end, trim_start, unindent,
    white_space,
};
use vstd::prelude::*;

verus! {

// ---------------------------------------------------------------------------
// Blank paragraphs
// ---------------------------------------------------------------------------

/// A run of spaces and tabs without marks.
pub open spec fn blank_run(r: RunV) -> bool {
    &&& r.object is None
    &&& r.link is None
    &&& !r.style.bold && !r.style.italic && !r.style.strikethrough
    &&& padding(r.text)
}

/// A normal paragraph that is empty, or holds only spaces and tabs.
pub open spec fn blank_paragraph(n: NodeV) -> bool {
    n matches NodeV::Para(b) && b.kind is Normal && forall|i: int|
        0 <= i < b.runs.len() ==> blank_run(#[trigger] b.runs[i])
}

/// The nodes without the blank paragraphs.
pub open spec fn kept(nodes: Seq<NodeV>) -> Seq<NodeV>
    decreases nodes.len(),
{
    if nodes.len() == 0 {
        nodes
    } else if blank_paragraph(nodes.last()) {
        kept(nodes.drop_last())
    } else {
        kept(nodes.drop_last()).push(nodes.last())
    }
}

proof fn lemma_blank_text(t: Seq<char>)
    requires
        padding(t),
    ensures
        escaped(t, false) == t,
    decreases t.len(),
{
    if t.len() > 0 {
        let rest = t.skip(1);
        assert(t[0] == ' ' || t[0] == '\t');
        assert forall|i: int| 0 <= i < rest.len() implies #[trigger] rest[i] == ' ' || rest[i]
            == '\t' by {
            assert(rest[i] == t[i + 1]);
        }
        lemma_blank_text(rest);
        assert(escaped(t, false) =~= t);
    }
}

proof fn lemma_blank_runs(runs: Seq<RunV>)
    requires
        forall|i: int| 0 <= i < runs.len() ==> blank_run(#[trigger] runs[i]),
    ensures
        padding(runs_markdown(runs, false)),
    decreases runs.len(),
{
    if runs.len() > 0 {
        let r = runs[0];
        let rest = runs.skip(1);
        assert(blank_run(runs[0]));
        assert forall|i: int| 0 <= i < rest.len() implies blank_run(#[trigger] rest[i]) by {
            assert(blank_run(runs[i + 1]));
        }
        lemma_blank_runs(rest);
        lemma_blank_text(r.text);
        assert(repeat('*', 0) =~= Seq::<char>::empty());
        let m = run_markdown(r, false);
        assert(m =~= r.text);
        let more = runs_markdown(rest, false);
        let all = m + more;
        assert forall|i: int| 0 <= i < all.len() implies #[trigger] all[i] == ' ' || all[i]
            == '\t' by {
            if i < m.len() {
                assert(all[i] == r.text[i]);
            } else {
                assert(all[i] == more[i - m.len()]);
            }
        }
    }
}

proof fn lemma_padding_trims(t: Seq<char>)
    requires
        padding(t),
    ensures
        trim_start(t).len() == 0,
        trim(t).len() == 0,
    decreases t.len(),
{
    if t.len() > 0 {
        let rest = t.skip(1);
        assert(t[0] == ' ' || t[0] == '\t');
        assert forall|i: int| 0 <= i < rest.len() implies #[trigger] rest[i] == ' ' || rest[i]
            == '\t' by {
            assert(rest[i] == t[i + 1]);
        }
        lemma_padding_trims(rest);
    }
}

/// The line of a blank paragraph is blank.
proof fn lemma_blank_line(n: NodeV)
    requires
        blank_paragraph(n),
    ensures
        node_lined(n),
        node_lines(n).len() == 1,
        trim(node_lines(n)[0]).len() == 0,
{
    let b = n->Para_0;
    let s = runs_markdown(b.runs, false);
    lemma_blank_runs(b.runs);
    lemma_padding_trims(s);
    reveal_strlit("<!-- gdoc:toc -->");
    assert(!block_marker(s)) by {
        if thematic_break(s) {
            lemma_no_marker(s, '-');
            lemma_no_marker(s, '*');
            lemma_no_marker(s, '_');
        }
        if s == TOC_PLACEHOLDER@ {
            assert(s[0] == '<');
        }
        if s.len() > 0 {
            assert(s[0] == ' ' || s[0] == '\t');
        }
    }
    assert(!s.contains('\n'));
}

/// Spaces and tabs hold no marker.
proof fn lemma_no_marker(s: Seq<char>, c: char)
    requires
        padding(s),
        c != ' ',
        c != '\t',
    ensures
        count(s, c) == 0,
    decreases s.len(),
{
    if s.len() > 0 {
        let init = s.drop_last();
        assert forall|i: int| 0 <= i < init.len() implies #[trigger] init[i] == ' ' || init[i]
            == '\t' by {
            assert(init[i] == s[i]);
        }
        lemma_no_marker(init, c);
        assert(s[s.len() - 1] == ' ' || s[s.len() - 1] == '\t');
    }
}

/// The nodes that are kept of the first `k` come first.
proof fn lemma_kept_prefix(nodes: Seq<NodeV>, k: int)
    requires
        0 <= k <= nodes.len(),
    ensures
        kept(nodes.take(k)).len() <= kept(nodes).len(),
        kept(nodes).take(kept(nodes.take(k)).len() as int) == kept(nodes.take(k)),
    decreases nodes.len(),
{
    if k == nodes.len() {
        assert(nodes.take(k) =~= nodes);
        assert(kept(nodes).take(kept(nodes).len() as int) =~= kept(nodes));
    } else {
        let init = nodes.drop_last();
        assert(init.take(k) =~= nodes.take(k));
        lemma_kept_prefix(init, k);
        let m = kept(nodes.take(k)).len() as int;
        assert(kept(nodes).take(m) =~= kept(init).take(m));
    }
}

/// The lines from the `k`-th node on are read as the nodes that are kept from there on.
proof fn lemma_kept_reads(nodes: Seq<NodeV>, k: int)
    requires
        model_holds(kept(nodes)),
        forall|i: int|
            0 <= i < nodes.len() ==> blank_paragraph(#[trigger] nodes[i]) || node_holds(nodes[i]),
        0 <= k <= nodes.len(),
    ensures
        ({
            let m = kept(nodes.take(k)).len() as int;
            nodes_from(
                doc_lines(nodes, nodes.len() as int),
                doc_lines(nodes, k).len() as int,
                nesting(kept(nodes), m),
            ) == kept(nodes).skip(m)
        }),
    decreases nodes.len() - k,
{
    let n = nodes.len() as int;
    let ls = doc_lines(nodes, n);
    let at = doc_lines(nodes, k).len() as int;
    let some = kept(nodes);
    let m = kept(nodes.take(k)).len() as int;
    lemma_kept_prefix(nodes, k);
    if k == n {
        assert(nodes.take(n) =~= nodes);
        assert(some.skip(m) =~= Seq::<NodeV>::empty());
    } else {
        lemma_kept_reads(nodes, k + 1);
        lemma_kept_prefix(nodes, k + 1);
        let node = nodes[k];
        let open = nesting(some, m);
        let j = doc_lines(nodes, k + 1).len() as int;
        let i = j - node_lines(node).len();
        lemma_node_place(nodes, k);
        assert(nodes.take(k + 1).drop_last() =~= nodes.take(k));
        assert(nodes.take(k + 1).last() == node);
        let m2 = kept(nodes.take(k + 1)).len() as int;
        if blank_paragraph(node) {
            lemma_blank_line(node);
            assert(m2 == m);
            assert(ls.subrange(i, j)[0] == node_lines(node)[0]);
            assert(ls[i] == node_lines(node)[0]);
            assert(nodes_from(ls, i, open) == nodes_from(ls, j, open));
        } else {
            assert(m2 == m + 1);
            assert(some.take(m2)[m] == some[m]);
            assert(some[m] == node);
            assert(node_holds(nodes[k]));
            assert(nesting(some, m + 1) == levels_behind(open, node));
            assert(level_agrees(some[m], nesting(some, m + 1)));
            lemma_node_reads(ls, i, j, node, open);
            assert(seq![node] + some.skip(m + 1) =~= some.skip(m));
        }
        if blank_before(nodes, k) {
            assert(ls[at] =~= Seq::<char>::empty());
            lemma_blank();
            assert(nodes_from(ls, at, open) == nodes_from(ls, i, open));
        }
    }
}

/// Among nodes that read back, blank paragraphs are left out and change nothing else: the
/// markdown parses to the other nodes.
pub proof fn law_blank_left_out(nodes: Seq<NodeV>)
    requires
        nodes.len() > 0,
        model_holds(kept(nodes)),
        forall|i: int|
            0 <= i < nodes.len() ==> blank_paragraph(#[trigger] nodes[i]) || node_holds(nodes[i]),
    ensures
        parsed(rendered(nodes)) == kept(nodes),
{
    assert forall|i: int| 0 <= i < nodes.len() implies node_lined(#[trigger] nodes[i]) by {
        if blank_paragraph(nodes[i]) {
            lemma_blank_line(nodes[i]);
        } else {
            lemma_lined(nodes[i]);
        }
    }
    lemma_rendered_lines(nodes);
    lemma_kept_reads(nodes, 0);
    assert(nodes.take(0) =~= Seq::<NodeV>::empty());
    assert(kept(nodes).skip(0) =~= kept(nodes));
}

// ---------------------------------------------------------------------------
// Nothing is made up
// ---------------------------------------------------------------------------

/// What a node is to the structure of a document: a rule, a table of contents, a table or a
/// heading with its level; other paragraphs are nothing.
pub open spec fn mark_of(n: NodeV) -> Seq<NodeV> {
    match n {
        NodeV::Para(b) => match b.kind {
            BlockKind::Heading(_) => seq![
                NodeV::Para(BlockV { kind: b.kind, depth: 0, runs: Seq::empty() }),
            ],
            _ => Seq::empty(),
        },
        _ => seq![n],
    }
}

/// The structure of nodes.
pub open spec fn marks_in(ns: Seq<NodeV>) -> Seq<NodeV>
    decreases ns.len(),
{
    if ns.len() == 0 {
        Seq::empty()
    } else {
        marks_in(ns.drop_last()) + mark_of(ns.last())
    }
}

proof fn lemma_marks_add(a: Seq<NodeV>, b: Seq<NodeV>)
    ensures
        marks_in(a + b) == marks_in(a) + marks_in(b),
    decreases b.len(),
{
    if b.len() == 0 {
        assert(a + b =~= a);
        assert(marks_in(a) + marks_in(b) =~= marks_in(a));
    } else {
        lemma_marks_add(a, b.drop_last());
        assert((a + b).drop_last() =~= a + b.drop_last());
        assert(marks_in(a) + (marks_in(b.drop_last()) + mark_of(b.last())) =~= marks_in(a)
            + marks_in(b.drop_last()) + mark_of(b.last()));
    }
}

proof fn lemma_marks_level(ns: Seq<NodeV>)
    ensures
        marks_in(levels_off(ns)) == marks_in(ns),
    decreases ns.len(),
{
    if ns.len() > 0 {
        lemma_marks_level(ns.drop_last());
        assert(levels_off(ns).drop_last() =~= levels_off(ns.drop_last()));
        assert(mark_of(level_off(ns.last())) == mark_of(ns.last()));
    }
}

/// The text neither begins nor ends with white space, and begins with neither a hash nor a
/// pipe, unless it is nothing but a marker.
pub open spec fn plain_start(s: Seq<char>) -> bool {
    s.len() > 0 ==> {
        &&& !white_space(s[0])
        &&& !white_space(s.last())
        &&& s[0] != '|'
        &&& s[0] == '#' ==> forall|i: int| 0 <= i < s.len() ==> #[trigger] s[i] == '#'
        &&& s[0] == '#' ==> s.len() <= 6
    }
}

/// A node of a text whose structure survives: paragraphs of any text, headings of any text,
/// list items that hold more than markers, rules and tables of contents.
pub open spec fn plain_node(n: NodeV) -> bool {
    &&& node_lined(n)
    &&& match n {
        NodeV::Para(b) => {
            let s = runs_markdown(b.runs, false);
            match b.kind {
                BlockKind::Normal => plain_start(s),
                BlockKind::Heading(n) => 1 <= n <= 6,
                _ => exists|i: int|
                    0 <= i < s.len() && #[trigger] s[i] != '-' && s[i] != '*' && s[i] != '_'
                        && !white_space(s[i]),
            }
        },
        NodeV::Table(_) => false,
        _ => true,
    }
}

/// What a single line is to the structure.
proof fn lemma_line_mark(t: Seq<char>)
    requires
        !t.contains('\n'),
    ensures
        marks_in(parsed(t)) == if trim(t).len() == 0 {
            Seq::empty()
        } else if thematic_break(t) {
            seq![NodeV::Rule]
        } else if trim(t) == TOC_PLACEHOLDER@ {
            seq![NodeV::Toc]
        } else {
            match heading(trim_end(unindent(t))) {
                Some((level, _)) => seq![
                    NodeV::Para(
                        BlockV { kind: BlockKind::Heading(level), depth: 0, runs: Seq::empty() },
                    ),
                ],
                None => Seq::empty(),
            }
        },
{
    let none = Seq::<nat>::empty();
    reveal_with_fuel(marks_in, 2);
    if t.len() == 0 {
        assert(lines(t) =~= Seq::<Seq<char>>::empty());
        lemma_blank();
        assert(t =~= Seq::<char>::empty());
        assert(parsed(t) =~= Seq::<NodeV>::empty());
    } else {
        lemma_find_char(t, '\n', 0);
        if let Some(k) = find_char(t, '\n', 0) {
            assert(t.contains(t[k]));
        }
        let ls = seq![t];
        assert(lines(t) == ls);
        assert(ls.skip(0) =~= ls);
        assert(!table_start(ls.skip(0)));
        let levels = levels_at(none, indent_width(t));
        assert(nodes_from(ls, 1, none) =~= Seq::<NodeV>::empty());
        assert(nodes_from(ls, 1, levels) =~= Seq::<NodeV>::empty());
        let all = nodes_from(ls, 0, none);
        if trim(t).len() > 0 {
            assert(all.len() == 1);
            assert(all.drop_last() =~= Seq::<NodeV>::empty());
            assert(marks_in(all) =~= mark_of(all[0]));
        } else {
            assert(all =~= Seq::<NodeV>::empty());
        }
    }
}

proof fn lemma_same_hashes(s: Seq<char>)
    requires
        forall|i: int| 0 <= i < s.len() ==> #[trigger] s[i] == '#',
    ensures
        leading(s, '#') == s.len(),
    decreases s.len(),
{
    if s.len() > 0 {
        assert(s[0] == '#');
        let rest = s.skip(1);
        assert forall|i: int| 0 <= i < rest.len() implies #[trigger] rest[i] == '#' by {
            assert(rest[i] == s[i + 1]);
        }
        lemma_same_hashes(rest);
    }
}

proof fn lemma_normal_mark(b: BlockV)
    requires
        plain_node(NodeV::Para(b)),
        b.kind is Normal,
    ensures
        ({
            let line = block_markdown(b);
            &&& no_row(line)
            &&& marks_in(parsed(line)) == Seq::<NodeV>::empty()
        }),
{
    let s = runs_markdown(b.runs, false);
    let line = block_markdown(b);
    assert(!line.contains('\n')) by {
        if line.contains('\n') {
            let i = choose|i: int| 0 <= i < line.len() && line[i] == '\n';
            if block_marker(s) {
                if i > 0 {
                    assert(line[i] == s[i - 1]);
                }
            } else {
                assert(line[i] == s[i]);
            }
        }
    }
    lemma_line_mark(line);
    if s.len() > 0 {
        if s[0] == '#' {
            lemma_same_hashes(s);
        }
        assert(line[0] != '#');
        assert(line.last() == s.last());
        assert(trim_start(line) == line);
        assert(trim_end(line) == line);
        assert(unindent(line) == line);
        assert(leading(line, '#') == 0);
        reveal_strlit("<!-- gdoc:toc -->");
        if block_marker(s) {
            assert(line[0] == '\\');
            assert(!thematic_break(line));
        }
    } else {
        assert(s =~= Seq::<char>::empty());
        assert(!thematic_break(s));
        assert(TOC_PLACEHOLDER@.len() > 0) by {
            reveal_strlit("<!-- gdoc:toc -->");
        }
        assert(line =~= s);
        lemma_blank();
    }
}

/// A text that begins without white space is trimmed at its end alone.
proof fn lemma_trim_keeps(t: Seq<char>, k: int)
    requires
        0 <= k < t.len(),
        !white_space(t[k]),
    ensures
        k < trim_end(t).len() <= t.len(),
        trim_end(t) == t.take(trim_end(t).len() as int),
    decreases t.len(),
{
    if white_space(t.last()) {
        lemma_trim_keeps(t.drop_last(), k);
        let n = trim_end(t).len() as int;
        assert(t.drop_last().take(n) =~= t.take(n));
    } else {
        assert(t.take(t.len() as int) =~= t);
    }
}

proof fn lemma_hash_leading(n: nat, t: Seq<char>)
    requires
        n <= t.len(),
        forall|i: int| 0 <= i < n ==> #[trigger] t[i] == '#',
        n < t.len() ==> t[n as int] != '#',
    ensures
        leading(t, '#') == n,
    decreases n,
{
    if n > 0 {
        let rest = t.skip(1);
        assert(t[0] == '#');
        assert forall|i: int| 0 <= i < n - 1 implies #[trigger] rest[i] == '#' by {
            assert(rest[i] == t[i + 1]);
        }
        lemma_hash_leading((n - 1) as nat, rest);
    }
}

proof fn lemma_heading_mark(b: BlockV, n: u8)
    requires
        plain_node(NodeV::Para(b)),
        b.kind == BlockKind::Heading(n),
    ensures
        ({
            let line = block_markdown(b);
            &&& no_row(line)
            &&& marks_in(parsed(line)) == mark_of(NodeV::Para(b))
        }),
{
    let s = runs_markdown(b.runs, false);
    let line = block_markdown(b);
    let h = n as int;
    assert(line[0] == '#' && line[h - 1] == '#' && line[h] == ' ');
    assert(!line.contains('\n')) by {
        if line.contains('\n') {
            let i = choose|i: int| 0 <= i < line.len() && line[i] == '\n';
            if i > h {
                assert(line[i] == s[i - h - 1]);
            }
        }
    }
    lemma_line_mark(line);
    assert(trim_start(line) == line);
    assert(unindent(line) == line);
    lemma_trim_keeps(line, h - 1);
    let content = trim_end(line);
    let m = content.len() as int;
    assert(content =~= line.take(m));
    assert(content[0] == '#');
    lemma_hash_leading(n as nat, content);
    reveal_strlit("<!-- gdoc:toc -->");
    assert(!thematic_break(line));
}

proof fn lemma_indent_trims(w: nat, x: Seq<char>)
    requires
        x.len() > 0,
        !white_space(x[0]),
    ensures
        trim_start(repeat(' ', w) + x) == x,
        unindent(repeat(' ', w) + x) == x,
    decreases w,
{
    let t = repeat(' ', w) + x;
    if w == 0 {
        assert(t =~= x);
    } else {
        assert(t[0] == ' ');
        assert(t.skip(1) =~= repeat(' ', (w - 1) as nat) + x);
        lemma_indent_trims((w - 1) as nat, x);
    }
}

proof fn lemma_item_mark(b: BlockV)
    requires
        plain_node(NodeV::Para(b)),
        list_kind_of(b.kind),
    ensures
        ({
            let line = block_markdown(b);
            &&& no_row(line)
            &&& marks_in(parsed(line)) == Seq::<NodeV>::empty()
        }),
{
    reveal_strlit("1. ");
    reveal_strlit("- [ ] ");
    reveal_strlit("* ");
    reveal_strlit("<!-- gdoc:toc -->");
    let s = runs_markdown(b.runs, false);
    let w = item_width(b);
    let head = item_marker(b.kind);
    let x = head + s;
    let line = block_markdown(b);
    assert(line =~= repeat(' ', w) + x);
    assert(x[0] == head[0]);
    lemma_indent_trims(w, x);
    let q = choose|i: int|
        0 <= i < s.len() && #[trigger] s[i] != '-' && s[i] != '*' && s[i] != '_' && !white_space(
            s[i],
        );
    let at = w + head.len() + q;
    assert(line[at] == s[q]);
    assert(!thematic_break(line));
    assert(!line.contains('\n')) by {
        if line.contains('\n') {
            let i = choose|i: int| 0 <= i < line.len() && line[i] == '\n';
            if i < w {
                assert(line[i] == ' ');
            } else if i < w + head.len() {
                assert(line[i] == head[i - w]);
            } else {
                assert(line[i] == s[i - w - head.len()]);
            }
        }
    }
    lemma_line_mark(line);
    assert(x[0] != '#' && x[0] != '<' && x[0] != '|' && !white_space(x[0]));
    lemma_trim_keeps(x, 0);
    let content = trim_end(x);
    assert(content[0] == x[0]);
    assert(leading(content, '#') == 0);
}

proof fn lemma_node_mark(n: NodeV)
    requires
        plain_node(n),
    ensures
        node_lines(n) == seq![node_markdown(n)],
        no_row(node_markdown(n)),
        marks_in(parsed(node_markdown(n))) == mark_of(n),
{
    match n {
        NodeV::Para(b) => {
            if list_kind_of(b.kind) {
                lemma_item_mark(b);
            } else if let BlockKind::Heading(k) = b.kind {
                lemma_heading_mark(b, k);
            } else {
                lemma_normal_mark(b);
            }
        },
        NodeV::Rule => {
            reveal_strlit("---");
            let t = "---"@;
            lemma_line_mark(t);
            assert(trim(t) == t);
            reveal_with_fuel(count, 4);
            assert(t.drop_last().drop_last().drop_last() =~= Seq::<char>::empty());
            assert(break_of(t, '-'));
        },
        NodeV::Toc => {
            reveal_strlit("<!-- gdoc:toc -->");
            let t = TOC_PLACEHOLDER@;
            assert(!t.contains('\n'));
            lemma_line_mark(t);
            assert(trim(t) == t);
            assert(t[0] == '<');
            assert(!thematic_break(t));
        },
        NodeV::Table(_) => {},
    }
}

proof fn lemma_one_by_one_add(a: Seq<Seq<char>>, b: Seq<Seq<char>>)
    ensures
        one_by_one(a + b) == one_by_one(a) + one_by_one(b),
    decreases a.len(),
{
    if a.len() == 0 {
        assert(a + b =~= b);
        assert(one_by_one(a) + one_by_one(b) =~= one_by_one(b));
    } else {
        assert((a + b)[0] == a[0]);
        assert((a + b).skip(1) =~= a.skip(1) + b);
        lemma_one_by_one_add(a.skip(1), b);
        let x = levels_off(parsed(a[0]));
        assert(x + (one_by_one(a.skip(1)) + one_by_one(b)) =~= x + one_by_one(a.skip(1))
            + one_by_one(b));
    }
}

proof fn lemma_one_line_marks(t: Seq<char>)
    ensures
        marks_in(one_by_one(seq![t])) == marks_in(parsed(t)),
{
    let x = levels_off(parsed(t));
    let none = Seq::<Seq<char>>::empty();
    assert(seq![t].skip(1) =~= none);
    assert(one_by_one(none) =~= Seq::<NodeV>::empty());
    assert(one_by_one(seq![t]) =~= x);
    lemma_marks_level(parsed(t));
}

proof fn lemma_doc_marks(nodes: Seq<NodeV>, k: int)
    requires
        forall|i: int| 0 <= i < nodes.len() ==> plain_node(#[trigger] nodes[i]),
        0 <= k <= nodes.len(),
    ensures
        marks_in(one_by_one(doc_lines(nodes, k))) == marks_in(nodes.take(k)),
        forall|i: int|
            0 <= i < doc_lines(nodes, k).len() ==> no_row(#[trigger] doc_lines(nodes, k)[i]),
    decreases k,
{
    if k == 0 {
        assert(nodes.take(0) =~= Seq::<NodeV>::empty());
        assert(one_by_one(doc_lines(nodes, 0)) =~= Seq::<NodeV>::empty());
    } else {
        lemma_doc_marks(nodes, k - 1);
        let n = nodes[k - 1];
        assert(plain_node(nodes[k - 1]));
        lemma_node_mark(n);
        let line = node_markdown(n);
        lemma_one_line_marks(line);
        assert(nodes.take(k).drop_last() =~= nodes.take(k - 1));
        let before = doc_lines(nodes, k - 1);
        let ls = doc_lines(nodes, k);
        if k == 1 {
            assert(marks_in(nodes.take(0)) =~= Seq::<NodeV>::empty());
            assert(nodes.take(0) =~= Seq::<NodeV>::empty());
            assert(marks_in(nodes.take(1)) =~= mark_of(n));
        } else {
            let g = gap_lines(nodes[k - 2], n);
            lemma_blank();
            let e = Seq::<char>::empty();
            assert(!e.contains('\n'));
            assert(marks_in(one_by_one(g)) =~= Seq::<NodeV>::empty()) by {
                if is_item(nodes[k - 2]) && is_item(n) {
                    assert(one_by_one(g) =~= Seq::<NodeV>::empty());
                } else {
                    lemma_one_line_marks(e);
                    lemma_line_mark(e);
                    assert(g =~= seq![e]);
                }
            }
            lemma_one_by_one_add(before + g, seq![line]);
            lemma_one_by_one_add(before, g);
            lemma_marks_add(one_by_one(before + g), one_by_one(seq![line]));
            lemma_marks_add(one_by_one(before), one_by_one(g));
            assert(marks_in(one_by_one(before)) + marks_in(one_by_one(g)) =~= marks_in(
                one_by_one(before),
            ));
        }
        assert forall|i: int| 0 <= i < ls.len() implies no_row(#[trigger] ls[i]) by {
            if k > 1 && i < before.len() {
                assert(ls[i] == before[i]);
            } else if i < ls.len() - 1 {
                assert(ls[i] =~= Seq::<char>::empty());
                lemma_blank();
            } else {
                assert(ls[i] == line);
            }
        }
    }
}

/// The markdown of a model parses to just the rules, the tables of contents and the headings
/// that the model has, in their order: none is made up, whatever text the paragraphs and the
/// headings hold, and none is lost.
pub proof fn law_structure_kept(nodes: Seq<NodeV>)
    requires
        nodes.len() > 0,
        forall|i: int| 0 <= i < nodes.len() ==> plain_node(#[trigger] nodes[i]),
    ensures
        marks_in(parsed(rendered(nodes))) == marks_in(nodes),
{
    assert forall|i: int| 0 <= i < nodes.len() implies node_lined(#[trigger] nodes[i]) by {
        assert(plain_node(nodes[i]));
    }
    let n = nodes.len() as int;
    let ls = doc_lines(nodes, n);
    lemma_rendered_lines(nodes);
    lemma_doc_marks(nodes, n);
    lemma_doc_lines_hold(nodes, n);
    law_line_by_line(ls);
    let none = Seq::<char>::empty();
    lemma_lines(ls, none);
    assert(unlines(ls) + none =~= unlines(ls));
    assert(lines(none) =~= Seq::<Seq<char>>::empty());
    assert(ls + lines(none) =~= ls);
    assert(parsed(rendered(nodes)) == parsed(unlines(ls)));
    lemma_marks_level(parsed(unlines(ls)));
    assert(nodes.take(n) =~= nodes);
}

} // verus!
