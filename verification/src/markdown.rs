//! Markdown to model: block structure with relative list nesting.
use crate::inline::{inline_runs, parse_chars};
use crate::model::{node_views, Block, BlockKind, BlockV, DocModel, Node, NodeV, MAX_DEPTH};
use crate::table::{row_cells, split_row, starts_table, table_at, table_of, table_start};
use crate::text::{
    ascii_digit, char_views, indent_width, lines, spells, split_lines, to_chars, trim, trim_end,
    trimmed, trimmed_end, unindent,
};
use vstd::prelude::*;
use vstd::slice::slice_subrange;

verus! {

/// The line that stands for a table of contents.
pub const TOC_PLACEHOLDER: &'static str = "<!-- gdoc:toc -->";

/// How often `c` occurs in `s`.
pub open spec fn count(s: Seq<char>, c: char) -> nat
    decreases s.len(),
{
    if s.len() == 0 {
        0
    } else {
        count(s.drop_last(), c) + if s.last() == c {
            1nat
        } else {
            0nat
        }
    }
}

/// A line of three or more of one marker character, with spaces and tabs allowed.
pub open spec fn break_of(line: Seq<char>, marker: char) -> bool {
    &&& count(line, marker) >= 3
    &&& forall|i: int|
        0 <= i < line.len() ==> #[trigger] line[i] == marker || line[i] == ' ' || line[i] == '\t'
}

/// A thematic break: `---`, `***` or `___`, spaces allowed.
pub open spec fn thematic_break(line: Seq<char>) -> bool {
    break_of(line, '-') || break_of(line, '*') || break_of(line, '_')
}

/// How many characters at the front are `c`.
pub open spec fn leading(s: Seq<char>, c: char) -> nat
    decreases s.len(),
{
    if s.len() > 0 && s[0] == c {
        1 + leading(s.skip(1), c)
    } else {
        0
    }
}

/// How many characters at the front are decimal digits.
pub open spec fn leading_digits(s: Seq<char>) -> nat
    decreases s.len(),
{
    if s.len() > 0 && ascii_digit(s[0]) {
        1 + leading_digits(s.skip(1))
    } else {
        0
    }
}

/// The level and text of a heading: one to six hashes, then a space and the text, or
/// nothing.
pub open spec fn heading(content: Seq<char>) -> Option<(u8, Seq<char>)> {
    let h = leading(content, '#');
    if 1 <= h <= 6 && content.len() == h {
        Some((h as u8, Seq::empty()))
    } else if 1 <= h <= 6 && h < content.len() && content[h as int] == ' ' {
        Some((h as u8, content.skip(h + 1int)))
    } else {
        None
    }
}

/// The text behind an ordered-list marker: digits, a dot or a closing bracket, and a
/// space.
pub open spec fn ordered_item(content: Seq<char>) -> Option<Seq<char>> {
    let d = leading_digits(content);
    if d > 0 && d + 1 < content.len() && (content[d as int] == '.' || content[d as int] == ')')
        && content[d + 1int] == ' ' {
        Some(content.skip(d + 2int))
    } else {
        None
    }
}

/// A task marker: `[ ] `, `[x] ` or `[X] `.
pub open spec fn task_marker(s: Seq<char>) -> bool {
    &&& s.len() >= 4
    &&& s[0] == '['
    &&& s[1] == ' ' || s[1] == 'x' || s[1] == 'X'
    &&& s[2] == ']'
    &&& s[3] == ' '
}

/// The kind and text of a list item.
pub open spec fn list_item(content: Seq<char>) -> Option<(BlockKind, Seq<char>)> {
    if content.len() >= 2 && (content[0] == '-' || content[0] == '*') && content[1] == ' ' {
        if task_marker(content.skip(2)) {
            Some((BlockKind::Checkbox, content.skip(6)))
        } else {
            Some((BlockKind::Bullet, content.skip(2)))
        }
    } else {
        match ordered_item(content) {
            Some(rest) => Some((BlockKind::Number, rest)),
            None => None,
        }
    }
}

/// The open list levels, given by their indent widths, without those that are
/// indented further than `width`.
pub open spec fn close_levels(open: Seq<nat>, width: nat) -> Seq<nat>
    decreases open.len(),
{
    if open.len() > 0 && width < open.last() {
        close_levels(open.drop_last(), width)
    } else {
        open
    }
}

/// The open list levels at an item that is indented by `width`: every increase in
/// indentation opens one level.
pub open spec fn levels_at(open: Seq<nat>, width: nat) -> Seq<nat> {
    let kept = close_levels(open, width);
    if kept.len() == 0 || width > kept.last() {
        kept.push(width)
    } else {
        kept
    }
}

/// The nesting level of an item at these open levels.
pub open spec fn depth_of(levels: Seq<nat>) -> u8 {
    if levels.len() - 1 < MAX_DEPTH {
        (levels.len() - 1) as u8
    } else {
        MAX_DEPTH
    }
}

/// The first line from `j` on that is no pipe row.
pub open spec fn table_end(ls: Seq<Seq<char>>, j: int) -> int
    decreases ls.len() - j,
{
    if 0 <= j < ls.len() && row_cells(ls[j]) is Some {
        table_end(ls, j + 1)
    } else {
        j
    }
}

/// The rows of a table end behind where the search begins.
pub proof fn lemma_table_end(ls: Seq<Seq<char>>, j: int)
    requires
        0 <= j <= ls.len(),
    ensures
        j <= table_end(ls, j) <= ls.len(),
    decreases ls.len() - j,
{
    if j < ls.len() && row_cells(ls[j]) is Some {
        lemma_table_end(ls, j + 1);
    }
}

/// A paragraph node.
pub open spec fn para(kind: BlockKind, depth: u8, text: Seq<char>) -> NodeV {
    NodeV::Para(BlockV { kind, depth, runs: inline_runs(text) })
}

/// The nodes of the lines from `i` on, where `open` holds the indent widths of the
/// open list levels. Blank lines separate nothing but end a table.
pub open spec fn nodes_from(ls: Seq<Seq<char>>, i: int, open: Seq<nat>) -> Seq<NodeV>
    decreases ls.len() - i,
{
    proof {
        if 0 <= i && i + 2 <= ls.len() {
            lemma_table_end(ls, i + 2);
        }
    }
    if i < 0 || i >= ls.len() {
        Seq::empty()
    } else if trim(ls[i]).len() == 0 {
        nodes_from(ls, i + 1, open)
    } else if thematic_break(ls[i]) {
        seq![NodeV::Rule] + nodes_from(ls, i + 1, Seq::empty())
    } else if trim(ls[i]) == TOC_PLACEHOLDER@ {
        seq![NodeV::Toc] + nodes_from(ls, i + 1, Seq::empty())
    } else if table_start(ls.skip(i)) {
        let j = table_end(ls, i + 2);
        match table_of(ls.subrange(i, j)) {
            Some(t) => seq![NodeV::Table(t)] + nodes_from(ls, j, Seq::empty()),
            None => nodes_from(ls, j, Seq::empty()),
        }
    } else {
        let content = trim_end(unindent(ls[i]));
        if let Some((level, rest)) = heading(content) {
            seq![para(BlockKind::Heading(level), 0, rest)] + nodes_from(ls, i + 1, Seq::empty())
        } else if let Some((kind, rest)) = list_item(content) {
            let levels = levels_at(open, indent_width(ls[i]));
            seq![para(kind, depth_of(levels), rest)] + nodes_from(ls, i + 1, levels)
        } else {
            seq![para(BlockKind::Normal, 0, content)] + nodes_from(ls, i + 1, Seq::empty())
        }
    }
}

/// The model of a markdown text.
pub open spec fn parsed(md: Seq<char>) -> Seq<NodeV> {
    nodes_from(lines(md), 0, Seq::empty())
}

/// Whether the line is a thematic break with this marker.
fn is_break_of(line: &[char], marker: char) -> (r: bool)
    ensures
        r == break_of(line@, marker),
{
    let n: usize = line.len();
    let mut hits: usize = 0;
    assert(line@.take(0) =~= Seq::<char>::empty());
    for i in 0..n
        invariant
            n == line@.len(),
            hits <= i,
            hits == count(line@.take(i as int), marker),
            forall|k: int|
                0 <= k < i ==> #[trigger] line@[k] == marker || line@[k] == ' ' || line@[k] == '\t',
    {
        let c = line[i];
        if c != marker && c != ' ' && c != '\t' {
            assert(line@[i as int] == c);
            return false;
        }
        assert(line@.take(i + 1).drop_last() =~= line@.take(i as int));
        if c == marker {
            hits = hits + 1;
        }
    }
    assert(line@.take(n as int) =~= line@);
    hits >= 3
}

/// Whether the line is a thematic break: three or more of one of `-`, `*` and `_`,
/// spaces and tabs allowed.
pub fn is_thematic_break(line: &[char]) -> (r: bool)
    ensures
        r == thematic_break(line@),
{
    is_break_of(line, '-') || is_break_of(line, '*') || is_break_of(line, '_')
}

/// How many characters at the front are `c`.
pub fn count_leading(s: &[char], c: char) -> (r: usize)
    ensures
        r == leading(s@, c),
        r <= s@.len(),
{
    let n: usize = s.len();
    let mut k: usize = 0;
    assert(s@.skip(0) =~= s@);
    while k < n && s[k] == c
        invariant
            n == s@.len(),
            k <= n,
            leading(s@, c) == k + leading(s@.skip(k as int), c),
        decreases n - k,
    {
        assert(s@.skip(k as int).skip(1) =~= s@.skip(k + 1));
        k = k + 1;
    }
    k
}

/// The level of a heading and where its text begins.
fn parse_heading(content: &[char]) -> (r: Option<(u8, usize)>)
    ensures
        match r {
            Some((level, at)) => at <= content@.len() && heading(content@) == Some(
                (level, content@.skip(at as int)),
            ),
            None => heading(content@) is None,
        },
{
    let n: usize = content.len();
    let h: usize = count_leading(content, '#');
    if h < 1 || h > 6 {
        return None;
    }
    if h == n {
        assert(content@.skip(n as int) =~= Seq::<char>::empty());
        return Some((h as u8, n));
    }
    if content[h] == ' ' {
        Some((h as u8, h + 1))
    } else {
        None
    }
}

/// Where the text behind an ordered-list marker begins.
fn strip_ordered_marker(content: &[char]) -> (r: Option<usize>)
    ensures
        match r {
            Some(at) => at <= content@.len() && ordered_item(content@) == Some(
                content@.skip(at as int),
            ),
            None => ordered_item(content@) is None,
        },
{
    let n: usize = content.len();
    let mut d: usize = 0;
    assert(content@.skip(0) =~= content@);
    while d < n && '0' <= content[d] && content[d] <= '9'
        invariant
            n == content@.len(),
            d <= n,
            leading_digits(content@) == d + leading_digits(content@.skip(d as int)),
        decreases n - d,
    {
        assert(content@.skip(d as int).skip(1) =~= content@.skip(d + 1));
        d = d + 1;
    }
    if d == 0 || n - d < 2 {
        return None;
    }
    if (content[d] == '.' || content[d] == ')') && content[d + 1] == ' ' {
        Some(d + 2)
    } else {
        None
    }
}

/// The kind of a list item and where its text begins.
fn parse_list_marker(content: &[char]) -> (r: Option<(BlockKind, usize)>)
    ensures
        match r {
            Some((kind, at)) => at <= content@.len() && list_item(content@) == Some(
                (kind, content@.skip(at as int)),
            ),
            None => list_item(content@) is None,
        },
{
    let n: usize = content.len();
    if n >= 2 && (content[0] == '-' || content[0] == '*') && content[1] == ' ' {
        let ghost rest = content@.skip(2);
        if n >= 6 && content[2] == '[' && (content[3] == ' ' || content[3] == 'x' || content[3]
            == 'X') && content[4] == ']' && content[5] == ' ' {
            assert(rest[0] == '[' && rest[2] == ']' && rest[3] == ' ');
            assert(rest[1] == content@[3]);
            return Some((BlockKind::Checkbox, 6));
        }
        assert(!task_marker(rest)) by {
            if rest.len() >= 4 {
                assert(rest[0] == content@[2] && rest[1] == content@[3] && rest[2] == content@[4]
                    && rest[3] == content@[5]);
            }
        }
        return Some((BlockKind::Bullet, 2));
    }
    match strip_ordered_marker(content) {
        Some(at) => Some((BlockKind::Number, at)),
        None => None,
    }
}

/// The indent widths of the open list levels.
pub open spec fn level_views(open: Seq<u128>) -> Seq<nat> {
    Seq::new(open.len(), |i: int| open[i] as nat)
}

/// Where the indentation of a line ends, and its width in columns.
fn measure_indent(raw: &[char]) -> (r: (usize, u128))
    ensures
        r.0 <= raw@.len(),
        raw@.skip(r.0 as int) == unindent(raw@),
        r.1 == indent_width(raw@),
{
    let n: usize = raw.len();
    let mut k: usize = 0;
    let mut width: u128 = 0;
    assert(raw@.skip(0) =~= raw@);
    while k < n && (raw[k] == ' ' || raw[k] == '\t')
        invariant
            n == raw@.len(),
            k <= n,
            width <= 4 * k,
            unindent(raw@) == unindent(raw@.skip(k as int)),
            indent_width(raw@) == width + indent_width(raw@.skip(k as int)),
        decreases n - k,
    {
        assert(raw@.skip(k as int).skip(1) =~= raw@.skip(k + 1));
        width = width + if raw[k] == '\t' {
            4
        } else {
            1
        };
        k = k + 1;
    }
    (k, width)
}

/// Update the open list levels for an item that is indented by `width`; returns its
/// nesting level.
fn open_level(open: &mut Vec<u128>, width: u128) -> (r: u8)
    ensures
        level_views(final(open)@) == levels_at(level_views(old(open)@), width as nat),
        r == depth_of(level_views(final(open)@)),
{
    let ghost before = level_views(open@);
    while open.len() > 0 && width < open[open.len() - 1]
        invariant
            close_levels(before, width as nat) == close_levels(level_views(open@), width as nat),
        decreases open@.len(),
    {
        let ghost was = level_views(open@);
        open.pop();
        assert(level_views(open@) =~= was.drop_last());
    }
    if open.len() == 0 || width > open[open.len() - 1] {
        let ghost kept = level_views(open@);
        open.push(width);
        assert(level_views(open@) =~= kept.push(width as nat));
    }
    let deep: usize = open.len() - 1;
    if deep < 8 {
        deep as u8
    } else {
        MAX_DEPTH
    }
}

/// The node of a paragraph whose markdown is `text`.
fn block(kind: BlockKind, depth: u8, text: &[char]) -> (r: Node)
    ensures
        r@ == para(kind, depth, text@),
{
    Node::Para(Block { kind, depth, runs: parse_chars(text) })
}

/// Append a node.
proof fn lemma_push_node(before: Seq<Node>, n: Node, rest: Seq<NodeV>)
    ensures
        node_views(before.push(n)) + rest == node_views(before) + (seq![n@] + rest),
{
    assert(node_views(before.push(n)) + rest =~= node_views(before) + (seq![n@] + rest));
}

/// Parse markdown into the model: block structure and inline runs.
///
/// List nesting is relative: every increase in indentation is one deeper level, by
/// however many columns, and a decrease returns to the level that was indented as
/// far.
pub fn markdown_to_model(md: &str) -> (r: DocModel)
    ensures
        node_views(r@) == parsed(md@),
{
    let cs = to_chars(md);
    let ls_exec = split_lines(cs.as_slice());
    let ghost ls = char_views(ls_exec@);
    let n: usize = ls_exec.len();
    let mut nodes: Vec<Node> = Vec::new();
    let mut open: Vec<u128> = Vec::new();
    let mut i: usize = 0;
    assert(level_views(open@) =~= Seq::<nat>::empty());
    assert(node_views(nodes@) + parsed(md@) =~= parsed(md@));
    while i < n
        invariant
            n == ls_exec@.len(),
            ls == char_views(ls_exec@),
            i <= n,
            node_views(nodes@) + nodes_from(ls, i as int, level_views(open@)) == parsed(md@),
        decreases n - i,
    {
        let raw = ls_exec[i].as_slice();
        let ghost before = nodes@;
        assert(ls[i as int] == raw@);
        let bare = trimmed(raw);
        if bare.len() == 0 {
            i = i + 1;
            continue;
        }
        if is_thematic_break(raw) {
            open.clear();
            assert(level_views(open@) =~= Seq::<nat>::empty());
            nodes.push(Node::Rule);
            proof {
                lemma_push_node(before, Node::Rule, nodes_from(ls, i + 1, Seq::empty()));
            }
            i = i + 1;
            continue;
        }
        if spells(bare, TOC_PLACEHOLDER) {
            open.clear();
            assert(level_views(open@) =~= Seq::<nat>::empty());
            nodes.push(Node::Toc);
            proof {
                lemma_push_node(before, Node::Toc, nodes_from(ls, i + 1, Seq::empty()));
            }
            i = i + 1;
            continue;
        }
        if starts_table(&ls_exec, i) {
            let mut j: usize = i + 2;
            while j < n && split_row(ls_exec[j].as_slice()).is_some()
                invariant
                    n == ls_exec@.len(),
                    ls == char_views(ls_exec@),
                    i + 2 <= j <= n,
                    table_end(ls, i + 2) == table_end(ls, j as int),
                decreases n - j,
            {
                assert(ls[j as int] == ls_exec@[j as int]@);
                j = j + 1;
            }
            assert(j < n ==> ls[j as int] == ls_exec@[j as int]@);
            assert(table_end(ls, j as int) == j);
            open.clear();
            assert(level_views(open@) =~= Seq::<nat>::empty());
            if let Some(table) = table_at(&ls_exec, i, j) {
                nodes.push(Node::Table(table));
                proof {
                    lemma_push_node(
                        before,
                        Node::Table(table),
                        nodes_from(ls, j as int, Seq::empty()),
                    );
                }
            }
            i = j;
            continue;
        }
        let (at, width) = measure_indent(raw);
        let m: usize = raw.len();
        let body = slice_subrange(raw, at, m);
        assert(body@ =~= raw@.skip(at as int));
        let content = trimmed_end(body);
        let len: usize = content.len();
        if let Some((level, start)) = parse_heading(content) {
            let rest = slice_subrange(content, start, len);
            assert(rest@ =~= content@.skip(start as int));
            open.clear();
            assert(level_views(open@) =~= Seq::<nat>::empty());
            let node = block(BlockKind::Heading(level), 0, rest);
            nodes.push(node);
            proof {
                lemma_push_node(before, node, nodes_from(ls, i + 1, Seq::empty()));
            }
        } else if let Some((kind, start)) = parse_list_marker(content) {
            let rest = slice_subrange(content, start, len);
            assert(rest@ =~= content@.skip(start as int));
            let depth = open_level(&mut open, width);
            let node = block(kind, depth, rest);
            nodes.push(node);
            proof {
                lemma_push_node(before, node, nodes_from(ls, i + 1, level_views(open@)));
            }
        } else {
            open.clear();
            assert(level_views(open@) =~= Seq::<nat>::empty());
            let node = block(BlockKind::Normal, 0, content);
            nodes.push(node);
            proof {
                lemma_push_node(before, node, nodes_from(ls, i + 1, Seq::empty()));
            }
        }
        i = i + 1;
    }
    assert(node_views(nodes@) + nodes_from(ls, n as int, level_views(open@)) =~= node_views(
        nodes@,
    ));
    nodes
}

} // verus!
