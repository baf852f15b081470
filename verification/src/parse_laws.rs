//! What every parsed markdown text has in common.
use crate::inline::{
    delim, inline_content, inline_runs, lemma_link_at, lemma_object_at, lemma_wrap_from, link_at,
    object_at, wrap_from,
};
use crate::markdown::{
    depth_of, heading, lemma_table_end, levels_at, list_item, nodes_from, para, parsed, table_end,
    task_marker, thematic_break, TOC_PLACEHOLDER,
};
use crate::model::{
    absorb_all, lemma_absorb_all_normal, list_kind_of, normal_form, plain_style, BlockKind, BlockV,
    NodeV, RunV, TextStyle, MAX_DEPTH,
};
use crate::spacing_laws::lemma_line_content;
use crate::table::{body_rows, row_cells, row_of, table_of, table_start};
use crate::text::{indent_width, lines, trim, trim_end, unindent, white_space};
use vstd::prelude::*;

verus! {

/// The table has a header row with a cell, and every row has as many cells.
pub open spec fn rectangular(rows: Seq<Seq<Seq<RunV>>>) -> bool {
    &&& rows.len() > 0
    &&& rows[0].len() > 0
    &&& forall|i: int| 0 <= i < rows.len() ==> (#[trigger] rows[i]).len() == rows[0].len()
}

/// The runs of each cell of a row are in normal form.
pub open spec fn row_normal(row: Seq<Seq<RunV>>) -> bool {
    forall|j: int| 0 <= j < row.len() ==> normal_form(#[trigger] row[j])
}

/// The runs of each cell of a table are in normal form.
pub open spec fn cells_normal(rows: Seq<Seq<Seq<RunV>>>) -> bool {
    forall|i: int| 0 <= i < rows.len() ==> row_normal(#[trigger] rows[i])
}

/// The kind, the level and the runs of a paragraph that was parsed.
pub open spec fn block_shaped(b: BlockV) -> bool {
    &&& b.kind matches BlockKind::Heading(n) ==> 1 <= n <= 6
    &&& b.depth <= MAX_DEPTH
    &&& b.depth > 0 ==> list_kind_of(b.kind)
    &&& normal_form(b.runs)
    &&& b.runs.len() == 0 ==> b.kind is Heading
}

/// The shape of a node that was parsed.
pub open spec fn node_shaped(n: NodeV) -> bool {
    match n {
        NodeV::Para(b) => block_shaped(b),
        NodeV::Table(rows) => rectangular(rows) && cells_normal(rows),
        _ => true,
    }
}

/// Markdown that is not empty holds something.
proof fn lemma_content_starts(s: Seq<char>, p: int, style: TextStyle, link: Option<Seq<char>>)
    requires
        0 <= p < s.len(),
    ensures
        inline_content(s, p, style, link).len() > 0,
        inline_content(s, p, style, link)[0].text.len() > 0,
    decreases s.len(), s.len() - p,
{
    lemma_object_at(s, p);
    lemma_link_at(s, p);
    lemma_wrap_from(s, p, 0);
    if object_at(s, p) is Some {
    } else if let Some(l) = link_at(s, p) {
        lemma_content_starts(
            s.subrange(l.text.from, l.text.to),
            0,
            style,
            Some(s.subrange(l.url.from, l.url.to)),
        );
    } else if let Some((k, sp)) = wrap_from(s, p, 0) {
        lemma_content_starts(s.subrange(sp.from, sp.to), 0, delim(k).styled(style), link);
    }
}

/// Runs of which the first is not empty do not vanish.
proof fn lemma_absorb_some(out: Seq<RunV>, rs: Seq<RunV>)
    requires
        rs.len() > 0,
        rs[0].text.len() > 0,
    ensures
        absorb_all(out, rs).len() > 0,
    decreases rs.len(),
{
    if rs.len() > 1 {
        lemma_absorb_some(out, rs.drop_last());
    } else {
        assert(rs.drop_last() =~= Seq::<RunV>::empty());
        assert(absorb_all(out, rs.drop_last()) == out);
    }
}

/// Parsed runs are in normal form, and there are some unless the text is empty.
pub proof fn law_inline_shape(s: Seq<char>)
    ensures
        normal_form(inline_runs(s)),
        s.len() > 0 ==> inline_runs(s).len() > 0,
{
    let rs = inline_content(s, 0, plain_style(), None);
    lemma_absorb_all_normal(Seq::empty(), rs);
    if s.len() > 0 {
        lemma_content_starts(s, 0, plain_style(), None);
        lemma_absorb_some(Seq::empty(), rs);
    }
}

/// The cells of a parsed row are in normal form.
proof fn lemma_row_normal(cells: Seq<Seq<char>>, cols: nat)
    ensures
        row_of(cells, cols).len() == cols,
        row_normal(row_of(cells, cols)),
{
    let row = row_of(cells, cols);
    assert forall|j: int| 0 <= j < row.len() implies normal_form(#[trigger] row[j]) by {
        law_inline_shape(
            if j < cells.len() {
                cells[j]
            } else {
                Seq::empty()
            },
        );
    }
}

/// The body rows have as many cells as they should, in normal form.
proof fn lemma_body_rows(ls: Seq<Seq<char>>, i: int, cols: nat)
    ensures
        forall|k: int|
            0 <= k < body_rows(ls, i, cols).len() ==> (#[trigger] body_rows(
                ls,
                i,
                cols,
            )[k]).len() == cols && row_normal(body_rows(ls, i, cols)[k]),
    decreases ls.len() - i,
{
    if 0 <= i < ls.len() && row_cells(ls[i]) is Some {
        lemma_body_rows(ls, i + 1, cols);
        lemma_row_normal(row_cells(ls[i])->0, cols);
        let rest = body_rows(ls, i + 1, cols);
        let all = body_rows(ls, i, cols);
        assert forall|k: int| 0 <= k < all.len() implies (#[trigger] all[k]).len() == cols
            && row_normal(all[k]) by {
            if k > 0 {
                assert(all[k] == rest[k - 1]);
            }
        }
    }
}

/// A parsed table is rectangular, and the runs of its cells are in normal form.
pub proof fn law_table_shape(ls: Seq<Seq<char>>)
    ensures
        table_of(ls) matches Some(rows) ==> rectangular(rows) && cells_normal(rows),
{
    if let Some(rows) = table_of(ls) {
        let header = row_cells(ls[0])->0;
        let body = body_rows(ls, 2, header.len());
        lemma_row_normal(header, header.len());
        lemma_body_rows(ls, 2, header.len());
        assert forall|i: int| 0 <= i < rows.len() implies (#[trigger] rows[i]).len()
            == rows[0].len() && row_normal(rows[i]) by {
            if i > 0 {
                assert(rows[i] == body[i - 1]);
            }
        }
    }
}

/// A list item has text behind its marker.
proof fn lemma_item_text(content: Seq<char>)
    requires
        content.len() > 0,
        !white_space(content.last()),
    ensures
        list_item(content) matches Some((_, text)) ==> text.len() > 0,
{
    let n = content.len() as int;
    if content.len() >= 2 && (content[0] == '-' || content[0] == '*') && content[1] == ' ' {
        if task_marker(content.skip(2)) {
            assert(content.skip(2)[3] == content[5]);
        }
    }
}

/// Every node is shaped.
pub open spec fn all_shaped(nodes: Seq<NodeV>) -> bool {
    forall|k: int| 0 <= k < nodes.len() ==> node_shaped(#[trigger] nodes[k])
}

proof fn lemma_shaped_cons(n: NodeV, rest: Seq<NodeV>)
    requires
        node_shaped(n),
        all_shaped(rest),
    ensures
        all_shaped(seq![n] + rest),
{
    let all = seq![n] + rest;
    assert forall|k: int| 0 <= k < all.len() implies node_shaped(#[trigger] all[k]) by {
        if k > 0 {
            assert(node_shaped(rest[k - 1]));
        }
    }
}

/// The nodes of lines are shaped.
proof fn lemma_nodes_shaped(ls: Seq<Seq<char>>, i: int, open: Seq<nat>)
    requires
        0 <= i <= ls.len(),
    ensures
        all_shaped(nodes_from(ls, i, open)),
    decreases ls.len() - i,
{
    if i < ls.len() {
        let none = Seq::<nat>::empty();
        lemma_nodes_shaped(ls, i + 1, open);
        lemma_nodes_shaped(ls, i + 1, none);
        let rest = nodes_from(ls, i + 1, none);
        if trim(ls[i]).len() == 0 {
        } else if thematic_break(ls[i]) {
            lemma_shaped_cons(NodeV::Rule, rest);
        } else if trim(ls[i]) == TOC_PLACEHOLDER@ {
            lemma_shaped_cons(NodeV::Toc, rest);
        } else if table_start(ls.skip(i)) {
            lemma_table_end(ls, i + 2);
            let j = table_end(ls, i + 2);
            lemma_nodes_shaped(ls, j, none);
            law_table_shape(ls.subrange(i, j));
            if let Some(t) = table_of(ls.subrange(i, j)) {
                lemma_shaped_cons(NodeV::Table(t), nodes_from(ls, j, none));
            }
        } else {
            let content = trim_end(unindent(ls[i]));
            lemma_line_content(ls[i]);
            lemma_item_text(content);
            law_inline_shape(content);
            if let Some((level, text)) = heading(content) {
                law_inline_shape(text);
                lemma_shaped_cons(para(BlockKind::Heading(level), 0, text), rest);
            } else if let Some((kind, text)) = list_item(content) {
                law_inline_shape(text);
                let levels = levels_at(open, indent_width(ls[i]));
                lemma_nodes_shaped(ls, i + 1, levels);
                lemma_shaped_cons(
                    para(kind, depth_of(levels), text),
                    nodes_from(ls, i + 1, levels),
                );
            } else {
                lemma_shaped_cons(para(BlockKind::Normal, 0, content), rest);
            }
        }
    }
}

/// Every table of a parsed text is rectangular, every heading has a level from one to six,
/// and only list items are nested, no deeper than the limit. All runs are in normal form,
/// and only a heading may have none.
pub proof fn law_parsed_shape(md: Seq<char>)
    ensures
        all_shaped(parsed(md)),
{
    lemma_nodes_shaped(lines(md), 0, Seq::empty());
}

} // verus!
