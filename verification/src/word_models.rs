//! Models of words: their markdown always parses to the model again.
use crate::inline_laws::{inert, run_holds, runs_hold, runs_inert};
use crate::line_laws::{cell_holds, lemma_tidy, row_holds, tidy};
use crate::markdown::{
    break_of, heading, leading, leading_digits, list_item, parsed, thematic_break, TOC_PLACEHOLDER,
};
use crate::model::{columns_of, normal_form, object_run, BlockKind, BlockV, NodeV, RunV};
use crate::parse_laws::rectangular;
use crate::render::{
    block_markdown, block_marker, escape_char, escaped, indent_unit, item_marker, marked_text,
    rendered, run_markdown, runs_markdown, stars,
};
use crate::roundtrip::{
    law_nested, law_round_trip, model_holds, node_holds, paragraph_holds, steps_down,
};
use crate::text::repeat;
use vstd::prelude::*;

verus! {

/// An ASCII letter.
pub open spec fn letter(c: char) -> bool {
    'a' <= c <= 'z' || 'A' <= c <= 'Z'
}

/// A character of an address: an ASCII letter or digit, a slash or a dot.
pub open spec fn address_char(c: char) -> bool {
    letter(c) || '0' <= c <= '9' || c == '/' || c == '.'
}

/// One or more letters.
pub open spec fn word(t: Seq<char>) -> bool {
    &&& t.len() > 0
    &&& forall|i: int| 0 <= i < t.len() ==> letter(#[trigger] t[i])
}

/// One or more characters of an address.
pub open spec fn address(t: Seq<char>) -> bool {
    &&& t.len() > 0
    &&& forall|i: int| 0 <= i < t.len() ==> address_char(#[trigger] t[i])
}

/// A run of a word, with any marks and with or without a link to an address, or an object
/// whose descriptor is an address.
pub open spec fn word_run(r: RunV) -> bool {
    match r.object {
        Some(d) => r == object_run(d) && address(d),
        None => word(r.text) && (r.link matches Some(url) ==> address(url)),
    }
}

/// Runs of words in normal form.
pub open spec fn word_runs(runs: Seq<RunV>) -> bool {
    &&& normal_form(runs)
    &&& forall|i: int| 0 <= i < runs.len() ==> word_run(#[trigger] runs[i])
}

/// A paragraph of words. Only a heading may have none, and only list items are nested.
pub open spec fn word_block(b: BlockV) -> bool {
    &&& word_runs(b.runs)
    &&& match b.kind {
        BlockKind::Heading(n) => 1 <= n <= 6 && b.depth == 0,
        BlockKind::Normal => b.runs.len() > 0 && b.depth == 0,
        _ => b.runs.len() > 0,
    }
}

/// A table row of words.
pub open spec fn word_row(row: Seq<Seq<RunV>>) -> bool {
    forall|j: int| 0 <= j < row.len() ==> word_runs(#[trigger] row[j])
}

/// A node of words: a paragraph, a rectangular table, a rule or a table of contents.
pub open spec fn word_node(n: NodeV) -> bool {
    match n {
        NodeV::Para(b) => word_block(b),
        NodeV::Table(rows) => rectangular(rows) && forall|i: int|
            0 <= i < rows.len() ==> word_row(#[trigger] rows[i]),
        _ => true,
    }
}

/// A model of words whose lists go down one level at a time.
pub open spec fn word_model(nodes: Seq<NodeV>) -> bool {
    forall|k: int| 0 <= k < nodes.len() ==> word_node(#[trigger] nodes[k]) && steps_down(nodes, k)
}

// ---------------------------------------------------------------------------
// Characters of the markdown
// ---------------------------------------------------------------------------

/// A character that the markdown of words can hold.
pub open spec fn inky(c: char) -> bool {
    address_char(c) || c == '*' || c == '~' || c == '[' || c == ']' || c == '(' || c == ')' || c
        == '!' || c == ':'
}

/// All characters are inky.
pub open spec fn all_inky(s: Seq<char>) -> bool {
    forall|i: int| 0 <= i < s.len() ==> inky(#[trigger] s[i])
}

/// A character that the markdown of a run can start with.
pub open spec fn opening(c: char) -> bool {
    letter(c) || c == '*' || c == '~' || c == '[' || c == '!'
}

/// The text holds a letter.
pub open spec fn lettered(s: Seq<char>) -> bool {
    exists|i: int| 0 <= i < s.len() && letter(#[trigger] s[i])
}

proof fn lemma_inky_add(a: Seq<char>, b: Seq<char>)
    ensures
        all_inky(a) && all_inky(b) ==> all_inky(a + b),
        lettered(a) || lettered(b) ==> lettered(a + b),
{
    if all_inky(a) && all_inky(b) {
        assert forall|i: int| 0 <= i < (a + b).len() implies inky(#[trigger] (a + b)[i]) by {
            if i < a.len() {
                assert(inky(a[i]));
            } else {
                assert(inky(b[i - a.len()]));
            }
        }
    }
    if lettered(a) {
        let i = choose|i: int| 0 <= i < a.len() && letter(#[trigger] a[i]);
        assert(letter((a + b)[i]));
    }
    if lettered(b) {
        let i = choose|i: int| 0 <= i < b.len() && letter(#[trigger] b[i]);
        assert((a + b)[a.len() + i] == b[i]);
    }
}

/// A word needs no escape.
proof fn lemma_word_escaped(t: Seq<char>, in_table: bool)
    requires
        forall|i: int| 0 <= i < t.len() ==> letter(#[trigger] t[i]),
    ensures
        escaped(t, in_table) == t,
    decreases t.len(),
{
    if t.len() > 0 {
        let rest = t.skip(1);
        assert(letter(t[0]));
        assert forall|i: int| 0 <= i < rest.len() implies letter(#[trigger] rest[i]) by {
            assert(letter(t[i + 1]));
        }
        lemma_word_escaped(rest, in_table);
        assert(escape_char(t[0], in_table) + rest =~= t);
    } else {
        assert(escaped(t, in_table) =~= t);
    }
}

/// The marked text of a word.
proof fn lemma_marked_inky(r: RunV, in_table: bool)
    requires
        word(r.text),
    ensures
        all_inky(marked_text(r, in_table)),
        lettered(marked_text(r, in_table)),
        marked_text(r, in_table).len() > 0,
        opening(marked_text(r, in_table)[0]),
{
    lemma_word_escaped(r.text, in_table);
    let m = repeat('*', stars(r.style.bold, r.style.italic));
    let w = repeat('~', 2);
    assert(letter(r.text[0]));
    assert(all_inky(m) && all_inky(w) && all_inky(r.text) && lettered(r.text));
    lemma_inky_add(m, r.text);
    lemma_inky_add(m + r.text, m);
    let s = m + r.text + m;
    assert(opening(s[0])) by {
        if m.len() > 0 {
            assert(s[0] == m[0]);
        } else {
            assert(s[0] == r.text[0]);
        }
    }
    lemma_inky_add(w, s);
    lemma_inky_add(w + s, w);
    if r.style.strikethrough {
        assert((w + s + w)[0] == w[0]);
    }
}

/// The markdown of a run of words.
proof fn lemma_run_inky(r: RunV, in_table: bool)
    requires
        word_run(r),
    ensures
        all_inky(run_markdown(r, in_table)),
        lettered(run_markdown(r, in_table)),
        run_markdown(r, in_table).len() > 0,
        opening(run_markdown(r, in_table)[0]),
{
    let close = seq![')'];
    assert(all_inky(close));
    match r.object {
        Some(d) => {
            reveal_strlit("![](gdoc:");
            let head = "![](gdoc:"@;
            assert(all_inky(d)) by {
                assert forall|i: int| 0 <= i < d.len() implies inky(#[trigger] d[i]) by {
                    assert(address_char(d[i]));
                }
            }
            assert(all_inky(head));
            assert(letter(head[4]));
            lemma_inky_add(head, d);
            lemma_inky_add(head + d, close);
            assert((head + d + close)[0] == head[0]);
        },
        None => {
            lemma_marked_inky(r, in_table);
            if let Some(url) = r.link {
                reveal_strlit("](");
                let open = seq!['['];
                let m = marked_text(r, in_table);
                assert(all_inky(url)) by {
                    assert forall|i: int| 0 <= i < url.len() implies inky(#[trigger] url[i]) by {
                        assert(address_char(url[i]));
                    }
                }
                assert(all_inky("]("@) && all_inky(open));
                lemma_inky_add(open, m);
                lemma_inky_add(open + m, "]("@);
                lemma_inky_add(open + m + "]("@, url);
                lemma_inky_add(open + m + "]("@ + url, close);
                assert((open + m + "]("@ + url + close)[0] == '[');
            }
        },
    }
}

/// The markdown of runs of words.
proof fn lemma_runs_inky(runs: Seq<RunV>, in_table: bool)
    requires
        forall|i: int| 0 <= i < runs.len() ==> word_run(#[trigger] runs[i]),
    ensures
        all_inky(runs_markdown(runs, in_table)),
        runs.len() > 0 ==> lettered(runs_markdown(runs, in_table)) && runs_markdown(
            runs,
            in_table,
        ).len() > 0 && opening(runs_markdown(runs, in_table)[0]),
        runs.len() == 0 ==> runs_markdown(runs, in_table).len() == 0,
    decreases runs.len(),
{
    if runs.len() > 0 {
        let rest = runs.skip(1);
        assert(word_run(runs[0]));
        assert forall|i: int| 0 <= i < rest.len() implies word_run(#[trigger] rest[i]) by {
            assert(word_run(runs[i + 1]));
        }
        lemma_run_inky(runs[0], in_table);
        lemma_runs_inky(rest, in_table);
        let a = run_markdown(runs[0], in_table);
        let b = runs_markdown(rest, in_table);
        lemma_inky_add(a, b);
        assert((a + b)[0] == a[0]);
    }
}

// ---------------------------------------------------------------------------
// Words read back
// ---------------------------------------------------------------------------

/// Where there is no underscore, none opens an emphasis.
proof fn lemma_inky_inert(m: Seq<char>, p: int, runs: Seq<RunV>, in_table: bool, lo: int)
    requires
        all_inky(m),
        0 <= p,
        0 <= lo,
        p + runs_markdown(runs, in_table).len() <= m.len(),
    ensures
        runs_inert(m, p, runs, in_table, lo),
    decreases runs.len(),
{
    if runs.len() > 0 {
        let end = p + run_markdown(runs[0], in_table).len();
        lemma_inky_inert(m, end, runs.skip(1), in_table, lo);
        let a = if p < lo {
            lo
        } else {
            p
        };
        assert(inert(m, a, end)) by {
            assert forall|q: int| a <= q < end implies (#[trigger] m[q]) != '_' by {
                assert(inky(m[q]));
            }
        }
    }
}

/// A run of words reads back.
proof fn lemma_run_holds(r: RunV, in_table: bool)
    requires
        word_run(r),
    ensures
        run_holds(r, in_table),
{
    match r.object {
        Some(d) => {
            if d.contains(')') {
                let i = choose|i: int| 0 <= i < d.len() && d[i] == ')';
                assert(address_char(d[i]));
            }
        },
        None => {
            lemma_word_escaped(r.text, in_table);
            assert(letter(r.text[r.text.len() - 1]));
            if r.text.contains('*') {
                let i = choose|i: int| 0 <= i < r.text.len() && r.text[i] == '*';
                assert(letter(r.text[i]));
            }
            if r.text.contains(']') {
                let i = choose|i: int| 0 <= i < r.text.len() && r.text[i] == ']';
                assert(letter(r.text[i]));
            }
            if let Some(url) = r.link {
                if url.contains(')') {
                    let i = choose|i: int| 0 <= i < url.len() && url[i] == ')';
                    assert(address_char(url[i]));
                }
            }
            assert forall|q: int| 0 <= q < r.text.len() implies (#[trigger] r.text[q]) != '_' by {
                assert(letter(r.text[q]));
            }
        },
    }
}

/// Runs of words read back.
proof fn lemma_runs_hold(runs: Seq<RunV>, in_table: bool)
    requires
        word_runs(runs),
    ensures
        runs_hold(runs, in_table),
        all_inky(runs_markdown(runs, in_table)),
        runs_inert(runs_markdown(runs, in_table), 0, runs, in_table, 0),
        tidy(runs_markdown(runs, in_table)),
        !runs_markdown(runs, in_table).contains('\n'),
        !runs_markdown(runs, in_table).contains('|'),
{
    let m = runs_markdown(runs, in_table);
    assert forall|i: int| 0 <= i < runs.len() implies run_holds(#[trigger] runs[i], in_table) by {
        assert(word_run(runs[i]));
        lemma_run_holds(runs[i], in_table);
    }
    lemma_runs_inky(runs, in_table);
    lemma_inky_inert(m, 0, runs, in_table, 0);
    if m.len() > 0 {
        assert(inky(m[0]) && inky(m[m.len() - 1]));
    }
    assert forall|i: int| 0 <= i < m.len() implies (#[trigger] m[i]) != '\n' && m[i] != '|' by {
        assert(inky(m[i]));
    }
}

/// A line with a letter is no thematic break.
proof fn lemma_lettered_no_break(s: Seq<char>)
    requires
        lettered(s),
    ensures
        !thematic_break(s),
{
    let i = choose|i: int| 0 <= i < s.len() && letter(#[trigger] s[i]);
    assert(!break_of(s, '-') && !break_of(s, '*') && !break_of(s, '_'));
}

/// A paragraph of words reads back.
proof fn lemma_word_block(b: BlockV)
    requires
        word_block(b),
    ensures
        paragraph_holds(b),
{
    let s = runs_markdown(b.runs, false);
    lemma_runs_hold(b.runs, false);
    lemma_runs_inky(b.runs, false);
    match b.kind {
        BlockKind::Heading(n) => {},
        BlockKind::Normal => {
            reveal_strlit("<!-- gdoc:toc -->");
            lemma_lettered_no_break(s);
            lemma_tidy(s);
            assert(s[0] != '#' && s[0] != '<');
            assert(leading(s, '#') == 0);
            assert(TOC_PLACEHOLDER@[0] == '<');
            assert(!block_marker(s));
            if s.len() > 1 {
                assert(inky(s[1]));
            }
            assert(leading_digits(s) == 0);
            assert(heading(s) is None && list_item(s) is None);
        },
        _ => {
            let head = repeat(' ', b.depth as nat * indent_unit(b.kind)) + item_marker(b.kind);
            lemma_inky_add(head, s);
            assert(block_markdown(b) == head + s);
            lemma_lettered_no_break(block_markdown(b));
        },
    }
}

/// A model of words, with letters alone in its text and simple addresses in its links and
/// objects, reads back: its markdown parses to the model again.
pub proof fn law_word_model(nodes: Seq<NodeV>)
    requires
        word_model(nodes),
    ensures
        model_holds(nodes),
        parsed(rendered(nodes)) == nodes,
{
    assert forall|k: int| 0 <= k < nodes.len() implies node_holds(#[trigger] nodes[k]) by {
        assert(word_node(nodes[k]));
        match nodes[k] {
            NodeV::Para(b) => {
                lemma_word_block(b);
            },
            NodeV::Table(rows) => {
                assert forall|i: int| 0 <= i < rows.len() implies row_holds(
                    #[trigger] rows[i],
                    columns_of(rows),
                ) by {
                    let row = rows[i];
                    assert(word_row(row));
                    assert forall|j: int| 0 <= j < row.len() implies cell_holds(
                        #[trigger] row[j],
                    ) by {
                        assert(word_runs(row[j]));
                        lemma_runs_hold(row[j], true);
                    }
                }
            },
            _ => {},
        }
    }
    assert forall|k: int| 0 <= k < nodes.len() implies #[trigger] steps_down(nodes, k) by {
        assert(word_node(nodes[k]));
    }
    law_nested(nodes);
    law_round_trip(nodes);
}

} // verus!
