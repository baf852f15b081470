//! The block syntax: what each line of markdown stands for.
use crate::inline::inline_runs;
use crate::line_laws::{lemma_lines, line_holds, lines_hold, unlines};
use crate::markdown::{
    break_of, close_levels, count, depth_of, heading, leading, leading_digits, levels_at, list_item,
    nodes_from, parsed, thematic_break, TOC_PLACEHOLDER,
};
use crate::model::{BlockKind, BlockV, NodeV};
use crate::spacing_laws::padding;
use crate::table::{row_cells, table_start};
use crate::text::{
    find_char, indent_width, lemma_find_char, lines, trim, trim_end, trim_start, unindent,
    white_space,
};
use vstd::prelude::*;

verus! {

// ---------------------------------------------------------------------------
// One line
// ---------------------------------------------------------------------------

/// A text of one line that neither begins nor ends with white space.
pub open spec fn framed(t: Seq<char>) -> bool {
    &&& t.len() > 0
    &&& !white_space(t[0])
    &&& !white_space(t.last())
    &&& !t.contains('\n')
}

/// A text of one line that is not empty and does not end with white space.
pub open spec fn ends_well(t: Seq<char>) -> bool {
    &&& t.len() > 0
    &&& !white_space(t.last())
    &&& !t.contains('\n')
}

/// A paragraph of this kind, at the top level, with the runs of this text.
pub open spec fn reads_as(md: Seq<char>, kind: BlockKind, text: Seq<char>) -> bool {
    parsed(md) == seq![NodeV::Para(BlockV { kind, depth: 0, runs: inline_runs(text) })]
}

/// A text without a line feed is one line.
proof fn lemma_one(t: Seq<char>)
    requires
        t.len() > 0,
        !t.contains('\n'),
    ensures
        lines(t) == seq![t],
{
    lemma_find_char(t, '\n', 0);
    if let Some(k) = find_char(t, '\n', 0) {
        assert(t.contains(t[k]));
    }
}

/// Nothing is trimmed from a text that neither begins nor ends with white space.
proof fn lemma_framed(t: Seq<char>)
    requires
        framed(t),
    ensures
        trim(t) == t,
        unindent(t) == t,
        trim_end(t) == t,
        indent_width(t) == 0,
{
}

/// What a line that is neither indented nor padded reads as.
proof fn lemma_line(t: Seq<char>)
    requires
        framed(t),
    ensures
        thematic_break(t) ==> parsed(t) == seq![NodeV::Rule],
        !thematic_break(t) && t == "<!-- gdoc:toc -->"@ ==> parsed(t) == seq![NodeV::Toc],
        !thematic_break(t) && t != TOC_PLACEHOLDER@ ==> match heading(t) {
            Some((level, rest)) => reads_as(t, BlockKind::Heading(level), rest),
            None => match list_item(t) {
                Some((kind, rest)) => reads_as(t, kind, rest),
                None => reads_as(t, BlockKind::Normal, t),
            },
        },
{
    lemma_one(t);
    lemma_framed(t);
    let ls = seq![t];
    let none = Seq::<nat>::empty();
    assert(ls.skip(0) =~= ls);
    assert(!table_start(ls.skip(0)));
    let levels = levels_at(none, 0);
    assert(levels =~= seq![0nat]);
    assert(nodes_from(ls, 1, none) =~= Seq::<NodeV>::empty());
    assert(nodes_from(ls, 1, levels) =~= Seq::<NodeV>::empty());
    let all = nodes_from(ls, 0, none);
    assert(all.len() == 1);
    assert(all =~= seq![all[0]]);
}

/// A line that begins with something else than a marker is no thematic break and no table of
/// contents.
proof fn lemma_begins(t: Seq<char>)
    requires
        t.len() > 0,
        t[0] != '-',
        t[0] != '*',
        t[0] != '_',
        t[0] != ' ',
        t[0] != '\t',
    ensures
        !thematic_break(t),
{
}

proof fn lemma_toc_begins()
    ensures
        TOC_PLACEHOLDER@.len() == 17,
        TOC_PLACEHOLDER@[0] == '<',
        TOC_PLACEHOLDER@ == "<!-- gdoc:toc -->"@,
{
    reveal_strlit("<!-- gdoc:toc -->");
}

/// A table of contents stands where its placeholder does.
pub proof fn law_toc()
    ensures
        parsed("<!-- gdoc:toc -->"@) == seq![NodeV::Toc],
{
    reveal_strlit("<!-- gdoc:toc -->");
    let t = "<!-- gdoc:toc -->"@;
    assert(!t.contains('\n'));
    lemma_toc_begins();
    lemma_begins(t);
    lemma_line(t);
}

proof fn lemma_leading_digits(d: Seq<char>, rest: Seq<char>)
    requires
        forall|i: int| 0 <= i < d.len() ==> '0' <= #[trigger] d[i] <= '9',
    ensures
        leading_digits(d + rest) == d.len() + leading_digits(rest),
    decreases d.len(),
{
    let s = d + rest;
    if d.len() == 0 {
        assert(s =~= rest);
    } else {
        assert(s[0] == d[0]);
        assert(s.skip(1) =~= d.skip(1) + rest);
        lemma_leading_digits(d.skip(1), rest);
    }
}

/// Digits, any number of them, then a dot or a closing bracket and a space, begin a numbered
/// list item with the text behind them.
pub proof fn law_numbered(d: Seq<char>, p: char, t: Seq<char>)
    requires
        d.len() > 0,
        forall|i: int| 0 <= i < d.len() ==> '0' <= #[trigger] d[i] <= '9',
        p == '.' || p == ')',
        ends_well(t),
    ensures
        reads_as(d + seq![p, ' '] + t, BlockKind::Number, t),
{
    let line = d + seq![p, ' '] + t;
    let n = d.len() as int;
    let rest = seq![p, ' '] + t;
    assert(line =~= d + rest);
    lemma_leading_digits(d, rest);
    assert(rest[0] == p);
    assert(leading_digits(rest) == 0);
    assert(line[0] == d[0]);
    assert(line[n] == p && line[n + 1] == ' ');
    assert(line.last() == t.last());
    assert(!line.contains('\n')) by {
        if line.contains('\n') {
            let i = choose|i: int| 0 <= i < line.len() && line[i] == '\n';
            if i < n {
                assert(line[i] == d[i]);
            } else if i >= n + 2 {
                assert(line[i] == t[i - n - 2]);
            }
        }
    }
    assert(!white_space(line[0]));
    lemma_begins(line);
    lemma_toc_begins();
    lemma_line(line);
    assert(leading(line, '#') == 0);
    assert(line.skip(n + 2) =~= t);
}

/// Digits without such a marker behind them are text.
pub proof fn law_digits_alone(d: Seq<char>, t: Seq<char>)
    requires
        d.len() > 0,
        forall|i: int| 0 <= i < d.len() ==> '0' <= #[trigger] d[i] <= '9',
        ends_well(t),
        !('0' <= t[0] <= '9'),
        t.len() == 1 || t[1] != ' ' || (t[0] != '.' && t[0] != ')'),
    ensures
        reads_as(d + t, BlockKind::Normal, d + t),
{
    let line = d + t;
    let n = d.len() as int;
    lemma_leading_digits(d, t);
    assert(leading_digits(t) == 0);
    assert(line[0] == d[0]);
    assert(line[n] == t[0]);
    assert(line.last() == t.last());
    if t.len() > 1 {
        assert(line[n + 1] == t[1]);
    }
    assert(!line.contains('\n')) by {
        if line.contains('\n') {
            let i = choose|i: int| 0 <= i < line.len() && line[i] == '\n';
            if i < n {
                assert(line[i] == d[i]);
            } else {
                assert(line[i] == t[i - n]);
            }
        }
    }
    lemma_begins(line);
    lemma_toc_begins();
    lemma_line(line);
    assert(leading(line, '#') == 0);
}

/// A dash or an asterisk and a space begin a bullet with the text behind them, unless the
/// text is a task or the line a thematic break.
pub proof fn law_bullet(m: char, t: Seq<char>, i: int)
    requires
        m == '-' || m == '*',
        ends_well(t),
        0 <= i < t.len(),
        t[i] != m,
        t[i] != ' ',
        t[i] != '\t',
        t[0] != '[',
    ensures
        reads_as(seq![m, ' '] + t, BlockKind::Bullet, t),
{
    let line = seq![m, ' '] + t;
    assert(line[0] == m && line[1] == ' ');
    assert(line.last() == t.last());
    assert(!line.contains('\n')) by {
        if line.contains('\n') {
            let k = choose|k: int| 0 <= k < line.len() && line[k] == '\n';
            if k >= 2 {
                assert(line[k] == t[k - 2]);
            }
        }
    }
    assert(line[i + 2] == t[i]);
    lemma_toc_begins();
    assert(!break_of(line, '-') && !break_of(line, '*') && !break_of(line, '_'));
    lemma_line(line);
    assert(leading(line, '#') == 0);
    assert(line.skip(2) =~= t);
}

/// Behind the marker of a bullet, a box that is empty or ticked makes a checkbox with the text
/// behind the box.
pub proof fn law_task(m: char, c: char, t: Seq<char>)
    requires
        m == '-' || m == '*',
        c == ' ' || c == 'x' || c == 'X',
        ends_well(t),
    ensures
        reads_as(seq![m, ' ', '[', c, ']', ' '] + t, BlockKind::Checkbox, t),
{
    let line = seq![m, ' ', '[', c, ']', ' '] + t;
    assert(line[0] == m && line[1] == ' ' && line[2] == '[' && line[3] == c && line[4] == ']'
        && line[5] == ' ');
    assert(line.last() == t.last());
    assert(!line.contains('\n')) by {
        if line.contains('\n') {
            let k = choose|k: int| 0 <= k < line.len() && line[k] == '\n';
            if k >= 6 {
                assert(line[k] == t[k - 6]);
            }
        }
    }
    lemma_toc_begins();
    assert(!break_of(line, '-') && !break_of(line, '*') && !break_of(line, '_'));
    lemma_line(line);
    assert(leading(line, '#') == 0);
    assert(line.skip(2)[0] == '[' && line.skip(2)[1] == c && line.skip(2)[2] == ']'
        && line.skip(2)[3] == ' ');
    assert(line.skip(6) =~= t);
}

/// A bullet whose text begins with a bracket that is no box is a bullet.
pub proof fn law_no_task(m: char, t: Seq<char>)
    requires
        m == '-' || m == '*',
        ends_well(t),
        t[0] == '[',
        t.len() < 4 || (t[1] != ' ' && t[1] != 'x' && t[1] != 'X') || t[2] != ']' || t[3] != ' ',
    ensures
        reads_as(seq![m, ' '] + t, BlockKind::Bullet, t),
{
    let line = seq![m, ' '] + t;
    assert(line[0] == m && line[1] == ' ' && line[2] == '[');
    assert(line.last() == t.last());
    assert(!line.contains('\n')) by {
        if line.contains('\n') {
            let k = choose|k: int| 0 <= k < line.len() && line[k] == '\n';
            if k >= 2 {
                assert(line[k] == t[k - 2]);
            }
        }
    }
    lemma_toc_begins();
    assert(!break_of(line, '-') && !break_of(line, '*') && !break_of(line, '_'));
    lemma_line(line);
    assert(leading(line, '#') == 0);
    assert(line.skip(2) =~= t);
}

/// That many hashes.
pub open spec fn hashes(n: nat) -> Seq<char> {
    Seq::new(n, |i: int| '#')
}

proof fn lemma_leading_hashes(n: nat, rest: Seq<char>)
    ensures
        leading(hashes(n) + rest, '#') == n + leading(rest, '#'),
    decreases n,
{
    let s = hashes(n) + rest;
    if n == 0 {
        assert(s =~= rest);
    } else {
        assert(s[0] == '#');
        assert(s.skip(1) =~= hashes((n - 1) as nat) + rest);
        lemma_leading_hashes((n - 1) as nat, rest);
    }
}

/// One to six hashes and a space begin a heading of that level; more hashes than six, or
/// hashes without a space, begin a text.
pub proof fn law_heading(n: nat, t: Seq<char>)
    requires
        n > 0,
        ends_well(t),
    ensures
        n <= 6 ==> reads_as(hashes(n) + seq![' '] + t, BlockKind::Heading(n as u8), t),
        n > 6 ==> reads_as(
            hashes(n) + seq![' '] + t,
            BlockKind::Normal,
            hashes(n) + seq![' '] + t,
        ),
        t[0] != '#' && t[0] != ' ' ==> reads_as(hashes(n) + t, BlockKind::Normal, hashes(n) + t),
        n <= 6 ==> reads_as(hashes(n), BlockKind::Heading(n as u8), Seq::empty()),
{
    lemma_toc_begins();
    let rest = seq![' '] + t;
    let line = hashes(n) + seq![' '] + t;
    assert(line =~= hashes(n) + rest);
    lemma_leading_hashes(n, rest);
    assert(rest[0] == ' ');
    assert(leading(rest, '#') == 0);
    assert(line[0] == '#' && line[n as int] == ' ');
    assert(line.last() == t.last());
    assert(!line.contains('\n')) by {
        if line.contains('\n') {
            let k = choose|k: int| 0 <= k < line.len() && line[k] == '\n';
            if k > n {
                assert(line[k] == t[k - n - 1]);
            }
        }
    }
    lemma_begins(line);
    lemma_line(line);
    assert(line.skip(n + 1int) =~= t);
    assert(leading_digits(line) == 0);
    assert(list_item(line) is None);
    if t[0] != '#' && t[0] != ' ' {
        let line = hashes(n) + t;
        lemma_leading_hashes(n, t);
        assert(leading(t, '#') == 0);
        assert(line[0] == '#' && line[n as int] == t[0]);
        assert(line.last() == t.last());
        assert(!line.contains('\n')) by {
            if line.contains('\n') {
                let k = choose|k: int| 0 <= k < line.len() && line[k] == '\n';
                if k >= n {
                    assert(line[k] == t[k - n]);
                }
            }
        }
        lemma_begins(line);
        lemma_line(line);
        assert(leading_digits(line) == 0);
        assert(list_item(line) is None);
    }
    let bare = hashes(n);
    let none = Seq::<char>::empty();
    assert(bare =~= bare + none);
    lemma_leading_hashes(n, none);
    assert(bare[0] == '#' && bare.last() == '#');
    assert(!bare.contains('\n'));
    lemma_begins(bare);
    lemma_line(bare);
}

/// A line that begins with no marker is normal text.
pub proof fn law_plain(t: Seq<char>)
    requires
        framed(t),
        t[0] != '#',
        t[0] != '-',
        t[0] != '*',
        t[0] != '_',
        t[0] != '<',
        !('0' <= t[0] <= '9'),
    ensures
        reads_as(t, BlockKind::Normal, t),
{
    lemma_begins(t);
    lemma_toc_begins();
    lemma_line(t);
    assert(leading(t, '#') == 0);
    assert(leading_digits(t) == 0);
}

/// A dash or an asterisk without a space behind it begins a text, unless the line is a
/// thematic break.
pub proof fn law_no_bullet(m: char, t: Seq<char>, i: int)
    requires
        m == '-' || m == '*',
        ends_well(t),
        t[0] != ' ',
        0 <= i < t.len(),
        t[i] != m,
        t[i] != ' ',
        t[i] != '\t',
    ensures
        reads_as(seq![m] + t, BlockKind::Normal, seq![m] + t),
{
    let line = seq![m] + t;
    assert(line[0] == m && line[1] == t[0]);
    assert(line.last() == t.last());
    assert(line[i + 1] == t[i]);
    assert(!line.contains('\n')) by {
        if line.contains('\n') {
            let k = choose|k: int| 0 <= k < line.len() && line[k] == '\n';
            if k >= 1 {
                assert(line[k] == t[k - 1]);
            }
        }
    }
    lemma_toc_begins();
    assert(!break_of(line, '-') && !break_of(line, '*') && !break_of(line, '_'));
    lemma_line(line);
    assert(leading(line, '#') == 0);
    assert(leading_digits(line) == 0);
}

// ---------------------------------------------------------------------------
// Thematic breaks
// ---------------------------------------------------------------------------

/// The line is made of the marker, spaces and tabs, and the marker stands at three places.
pub open spec fn three_of(t: Seq<char>, c: char) -> bool {
    &&& forall|i: int| 0 <= i < t.len() ==> #[trigger] t[i] == c || t[i] == ' ' || t[i] == '\t'
    &&& exists|i: int, j: int, k: int|
        0 <= i < j && j < k < t.len() && #[trigger] t[i] == c && #[trigger] t[j] == c
            && #[trigger] t[k] == c
}

proof fn lemma_count_take(t: Seq<char>, c: char, a: int, b: int)
    requires
        0 <= a <= b <= t.len(),
    ensures
        count(t.take(a), c) <= count(t.take(b), c),
    decreases b,
{
    if a < b {
        lemma_count_take(t, c, a, b - 1);
        assert(t.take(b).drop_last() =~= t.take(b - 1));
    }
}

proof fn lemma_count_at(t: Seq<char>, c: char, i: int)
    requires
        0 <= i < t.len(),
        t[i] == c,
    ensures
        count(t.take(i + 1), c) == count(t.take(i), c) + 1,
{
    assert(t.take(i + 1).drop_last() =~= t.take(i));
}

/// The last place of a character.
proof fn lemma_last_of(t: Seq<char>, c: char) -> (i: int)
    requires
        count(t, c) > 0,
    ensures
        0 <= i < t.len(),
        t[i] == c,
        count(t.take(i), c) == count(t, c) - 1,
    decreases t.len(),
{
    if t.last() == c {
        assert(t.drop_last() =~= t.take(t.len() - 1));
        t.len() - 1
    } else {
        let i = lemma_last_of(t.drop_last(), c);
        assert(t.drop_last().take(i) =~= t.take(i));
        i
    }
}

pub proof fn lemma_three(t: Seq<char>, c: char)
    ensures
        break_of(t, c) == three_of(t, c),
{
    if three_of(t, c) {
        let (i, j, k) = choose|i: int, j: int, k: int|
            0 <= i < j && j < k < t.len() && #[trigger] t[i] == c && #[trigger] t[j] == c
                && #[trigger] t[k] == c;
        lemma_count_at(t, c, i);
        lemma_count_take(t, c, i + 1, j);
        lemma_count_at(t, c, j);
        lemma_count_take(t, c, j + 1, k);
        lemma_count_at(t, c, k);
        lemma_count_take(t, c, k + 1, t.len() as int);
        assert(t.take(t.len() as int) =~= t);
    }
    if break_of(t, c) {
        let k = lemma_last_of(t, c);
        let j = lemma_last_of(t.take(k), c);
        assert(t.take(k).take(j) =~= t.take(j));
        let i = lemma_last_of(t.take(j), c);
        assert(t[i] == c && t[j] == c && t[k] == c);
    }
}

/// A line is a rule just where it is made of one of the markers, at least three times, and of
/// spaces and tabs.
pub proof fn law_break(t: Seq<char>)
    requires
        framed(t),
    ensures
        parsed(t) == seq![NodeV::Rule] <==> three_of(t, '-') || three_of(t, '*') || three_of(t, '_'),
{
    lemma_three(t, '-');
    lemma_three(t, '*');
    lemma_three(t, '_');
    lemma_toc_begins();
    lemma_line(t);
    if !thematic_break(t) {
        assert(parsed(t)[0] != NodeV::Rule);
    }
}

// ---------------------------------------------------------------------------
// Lines together
// ---------------------------------------------------------------------------

/// The node without its nesting level.
pub open spec fn level_off(n: NodeV) -> NodeV {
    match n {
        NodeV::Para(b) => NodeV::Para(BlockV { depth: 0, ..b }),
        _ => n,
    }
}

/// The nodes without their nesting levels.
pub open spec fn levels_off(ns: Seq<NodeV>) -> Seq<NodeV> {
    Seq::new(ns.len(), |i: int| level_off(ns[i]))
}

/// What each of the lines reads as when it stands alone, without nesting levels.
pub open spec fn one_by_one(ls: Seq<Seq<char>>) -> Seq<NodeV>
    decreases ls.len(),
{
    if ls.len() == 0 {
        Seq::empty()
    } else {
        levels_off(parsed(ls[0])) + one_by_one(ls.skip(1))
    }
}

/// A line that begins with no pipe, behind its indentation, is no row.
pub open spec fn no_row(line: Seq<char>) -> bool {
    trim(line).len() == 0 || trim(line)[0] != '|'
}

proof fn lemma_alone(ls: Seq<Seq<char>>, i: int, open: Seq<nat>)
    requires
        0 <= i < ls.len(),
        !ls[i].contains('\n'),
        no_row(ls[i]),
    ensures
        exists|then: Seq<nat>|
            levels_off(nodes_from(ls, i, open)) == levels_off(parsed(ls[i])) + levels_off(
                #[trigger] nodes_from(ls, i + 1, then),
            ),
{
    let t = ls[i];
    let none = Seq::<nat>::empty();
    assert(ls.skip(i)[0] == t);
    assert(!table_start(ls.skip(i)));
    if t.len() == 0 {
        assert(trim(t).len() == 0);
        assert(parsed(t) =~= Seq::<NodeV>::empty());
        let rest = nodes_from(ls, i + 1, open);
        assert(levels_off(nodes_from(ls, i, open)) =~= levels_off(parsed(t)) + levels_off(rest));
    } else {
        lemma_one(t);
        let one = seq![t];
        assert(one.skip(0)[0] == t);
        assert(!table_start(one.skip(0)));
        assert(nodes_from(one, 1, none).len() == 0);
        assert(nodes_from(one, 1, levels_at(none, indent_width(t))).len() == 0);
        let here = nodes_from(one, 0, none);
        if trim(t).len() == 0 {
            assert(here =~= Seq::<NodeV>::empty());
            let rest = nodes_from(ls, i + 1, open);
            assert(levels_off(nodes_from(ls, i, open)) =~= levels_off(here) + levels_off(rest));
        } else {
            let content = trim_end(unindent(t));
            let listed = !thematic_break(t) && trim(t) != TOC_PLACEHOLDER@ && heading(content)
                is None && list_item(content) is Some;
            let then = if listed {
                levels_at(open, indent_width(t))
            } else {
                none
            };
            let rest = nodes_from(ls, i + 1, then);
            let all = nodes_from(ls, i, open);
            assert(here.len() == 1);
            assert(all =~= seq![all[0]] + rest);
            assert(level_off(all[0]) == level_off(here[0]));
            assert(levels_off(all) =~= levels_off(here) + levels_off(rest));
        }
    }
}

proof fn lemma_one_by_one(ls: Seq<Seq<char>>, i: int, open: Seq<nat>)
    requires
        0 <= i <= ls.len(),
        forall|k: int| 0 <= k < ls.len() ==> !(#[trigger] ls[k]).contains('\n') && no_row(ls[k]),
    ensures
        levels_off(nodes_from(ls, i, open)) == one_by_one(ls.skip(i)),
    decreases ls.len() - i,
{
    if i < ls.len() {
        lemma_alone(ls, i, open);
        let then = choose|then: Seq<nat>|
            levels_off(nodes_from(ls, i, open)) == levels_off(parsed(ls[i])) + levels_off(
                #[trigger] nodes_from(ls, i + 1, then),
            );
        lemma_one_by_one(ls, i + 1, then);
        assert(ls.skip(i)[0] == ls[i]);
        assert(ls.skip(i).skip(1) =~= ls.skip(i + 1));
    } else {
        assert(levels_off(nodes_from(ls, i, open)) =~= Seq::<NodeV>::empty());
    }
}

/// Lines of which none is a table row read one by one: each as it does alone, but for the
/// nesting levels.
pub proof fn law_line_by_line(ls: Seq<Seq<char>>)
    requires
        lines_hold(ls),
        forall|k: int| 0 <= k < ls.len() ==> no_row(#[trigger] ls[k]),
    ensures
        levels_off(parsed(unlines(ls))) == one_by_one(ls),
{
    let none = Seq::<char>::empty();
    lemma_lines(ls, none);
    assert(unlines(ls) + none =~= unlines(ls));
    assert(ls + lines(none) =~= ls);
    assert forall|k: int| 0 <= k < ls.len() implies !(#[trigger] ls[k]).contains('\n') && no_row(
        ls[k],
    ) by {
        assert(line_holds(ls[k]));
    }
    assert(ls.skip(0) =~= ls);
    lemma_one_by_one(ls, 0, Seq::empty());
}

/// A line on which no list goes on: it is not blank and no list item.
pub open spec fn divides(t: Seq<char>) -> bool {
    &&& parsed(t).len() == 1
    &&& parsed(t)[0] matches NodeV::Para(b) ==> b.kind is Normal || b.kind is Heading
}

/// A line without a line feed that is no row, somewhere among others.
proof fn lemma_step(ls: Seq<Seq<char>>, i: int, open: Seq<nat>)
    requires
        0 <= i < ls.len(),
        !ls[i].contains('\n'),
        no_row(ls[i]),
        divides(ls[i]),
    ensures
        nodes_from(ls, i, open) == parsed(ls[i]) + nodes_from(ls, i + 1, Seq::empty()),
{
    let t = ls[i];
    let none = Seq::<nat>::empty();
    assert(ls.skip(i)[0] == t);
    assert(!table_start(ls.skip(i)));
    if t.len() == 0 {
        assert(parsed(t) =~= Seq::<NodeV>::empty());
    }
    lemma_one(t);
    let one = seq![t];
    assert(one.skip(0)[0] == t);
    assert(!table_start(one.skip(0)));
    assert(nodes_from(one, 1, none).len() == 0);
    assert(nodes_from(one, 1, levels_at(none, indent_width(t))).len() == 0);
    let here = nodes_from(one, 0, none);
    assert(trim(t).len() > 0);
    let content = trim_end(unindent(t));
    if !thematic_break(t) && trim(t) != TOC_PLACEHOLDER@ && heading(content) is None {
        if let Some((kind, rest)) = list_item(content) {
            assert(here[0] is Para);
            assert(here[0]->Para_0.kind == kind);
        }
    }
    assert(here =~= seq![here[0]]);
    let all = nodes_from(ls, i, open);
    let rest = nodes_from(ls, i + 1, none);
    assert(all =~= seq![all[0]] + rest);
    assert(all[0] == here[0]);
}

/// The lines of the front are read as they are without what follows them.
proof fn lemma_front_reads(front: Seq<Seq<char>>, more: Seq<Seq<char>>, i: int, open: Seq<nat>)
    requires
        0 <= i <= front.len(),
        forall|k: int| 0 <= k < front.len() ==> no_row(#[trigger] front[k]),
    ensures
        exists|then: Seq<nat>|
            nodes_from(front + more, i, open) == nodes_from(front, i, open)
                + #[trigger] nodes_from(front + more, front.len() as int, then),
    decreases front.len() - i,
{
    let ls = front + more;
    let n = front.len() as int;
    if i == n {
        assert(nodes_from(front, i, open) =~= Seq::<NodeV>::empty());
        let rest = nodes_from(ls, n, open);
        assert(nodes_from(front, i, open) + rest =~= rest);
    } else {
        let t = front[i];
        assert(ls[i] == t);
        assert(no_row(front[i]));
        assert(ls.skip(i)[0] == t && front.skip(i)[0] == t);
        assert(!table_start(ls.skip(i)) && !table_start(front.skip(i)));
        let none = Seq::<nat>::empty();
        let content = trim_end(unindent(t));
        let next = if trim(t).len() == 0 {
            open
        } else if !thematic_break(t) && trim(t) != TOC_PLACEHOLDER@ && heading(content) is None
            && list_item(content) is Some {
            levels_at(open, indent_width(t))
        } else {
            none
        };
        lemma_front_reads(front, more, i + 1, next);
        let then = choose|then: Seq<nat>|
            nodes_from(ls, i + 1, next) == nodes_from(front, i + 1, next) + #[trigger] nodes_from(
                ls,
                n,
                then,
            );
        let (a, b) = (nodes_from(ls, i, open), nodes_from(front, i, open));
        let tail = nodes_from(ls, n, then);
        assert(a =~= b + tail);
    }
}

/// The lines of the back are read as they are without what stands before them.
proof fn lemma_back_reads(front: Seq<Seq<char>>, back: Seq<Seq<char>>, i: int, open: Seq<nat>)
    requires
        0 <= i <= back.len(),
        forall|k: int| 0 <= k < back.len() ==> no_row(#[trigger] back[k]),
    ensures
        nodes_from(front + back, front.len() + i, open) == nodes_from(back, i, open),
    decreases back.len() - i,
{
    let ls = front + back;
    let n = front.len() as int;
    if i < back.len() {
        let t = back[i];
        assert(ls[n + i] == t);
        assert(no_row(back[i]));
        assert(ls.skip(n + i)[0] == t && back.skip(i)[0] == t);
        assert(!table_start(ls.skip(n + i)) && !table_start(back.skip(i)));
        lemma_back_reads(front, back, i + 1, open);
        lemma_back_reads(front, back, i + 1, Seq::empty());
        lemma_back_reads(front, back, i + 1, levels_at(open, indent_width(t)));
    } else {
        assert(nodes_from(back, i, open) =~= Seq::<NodeV>::empty());
        assert(nodes_from(ls, n + i, open) =~= Seq::<NodeV>::empty());
    }
}

/// A paragraph, a heading, a rule or a table of contents ends every list: what stands before
/// it and what stands behind it read as if they stood alone.
pub proof fn law_divided(front: Seq<Seq<char>>, t: Seq<char>, back: Seq<Seq<char>>)
    requires
        lines_hold(front),
        line_holds(t),
        lines_hold(back),
        forall|k: int| 0 <= k < front.len() ==> no_row(#[trigger] front[k]),
        no_row(t),
        forall|k: int| 0 <= k < back.len() ==> no_row(#[trigger] back[k]),
        divides(t),
    ensures
        parsed(unlines(front + seq![t] + back)) == parsed(unlines(front)) + parsed(t) + parsed(
            unlines(back),
        ),
{
    let none = Seq::<char>::empty();
    let open = Seq::<nat>::empty();
    let ls = front + seq![t] + back;
    let more = seq![t] + back;
    assert(ls =~= front + more);
    let n = front.len() as int;
    assert forall|k: int| 0 <= k < ls.len() implies line_holds(#[trigger] ls[k]) by {
        if k < n {
            assert(ls[k] == front[k]);
        } else if k > n {
            assert(ls[k] == back[k - n - 1]);
        }
    }
    lemma_lines(ls, none);
    lemma_lines(front, none);
    lemma_lines(back, none);
    assert(unlines(ls) + none =~= unlines(ls));
    assert(unlines(front) + none =~= unlines(front));
    assert(unlines(back) + none =~= unlines(back));
    assert(ls + lines(none) =~= ls);
    assert(front + lines(none) =~= front);
    assert(back + lines(none) =~= back);
    lemma_front_reads(front, more, 0, open);
    let then = choose|then: Seq<nat>|
        nodes_from(ls, 0, open) == nodes_from(front, 0, open) + #[trigger] nodes_from(ls, n, then);
    assert(ls[n] == t);
    lemma_step(ls, n, then);
    let head = front + seq![t];
    assert(head + back =~= ls);
    lemma_back_reads(head, back, 0, open);
    assert(nodes_from(ls, n + 1, open) == nodes_from(back, 0, open));
    assert(parsed(unlines(ls)) =~= parsed(unlines(front)) + parsed(t) + parsed(unlines(back)));
}

// ---------------------------------------------------------------------------
// Levels
// ---------------------------------------------------------------------------

/// How wide spaces and tabs are: a tab is as wide as four spaces.
pub open spec fn columns(s: Seq<char>) -> nat
    decreases s.len(),
{
    if s.len() == 0 {
        0
    } else {
        columns(s.drop_last()) + if s.last() == '\t' {
            4nat
        } else {
            1nat
        }
    }
}

/// Indentation in front of a text that does not begin with white space.
proof fn lemma_indented(s: Seq<char>, t: Seq<char>)
    requires
        padding(s),
        framed(t),
    ensures
        indent_width(s + t) == columns(s),
        unindent(s + t) == t,
        trim(s + t) == t,
    decreases s.len(),
{
    if s.len() == 0 {
        assert(s + t =~= t);
        lemma_framed(t);
    } else {
        let c = s[0];
        let rest = s.skip(1);
        assert((s + t)[0] == c);
        assert((s + t).skip(1) =~= rest + t);
        assert forall|i: int| 0 <= i < rest.len() implies #[trigger] rest[i] == ' ' || rest[i]
            == '\t' by {
            assert(rest[i] == s[i + 1]);
        }
        lemma_indented(rest, t);
        lemma_columns_front(s);
        assert(trim_start(s + t) == trim_start(rest + t));
    }
}

proof fn lemma_columns_front(s: Seq<char>)
    requires
        s.len() > 0,
    ensures
        columns(s) == columns(s.skip(1)) + if s[0] == '\t' {
            4nat
        } else {
            1nat
        },
    decreases s.len(),
{
    if s.len() == 1 {
        assert(s.drop_last() =~= Seq::<char>::empty());
        assert(s.skip(1) =~= Seq::<char>::empty());
    } else {
        lemma_columns_front(s.drop_last());
        assert(s.drop_last().skip(1) =~= s.skip(1).drop_last());
    }
}

/// The stack of open levels grows to its end.
spec fn rising(l: Seq<nat>) -> bool {
    forall|i: int, j: int| 0 <= i < j < l.len() ==> l[i] < l[j]
}

proof fn lemma_closed(l: Seq<nat>, w: nat)
    requires
        rising(l),
    ensures
        close_levels(l, w).len() <= l.len(),
        close_levels(l, w) == l.take(close_levels(l, w).len() as int),
        forall|i: int| 0 <= i < l.len() && #[trigger] l[i] <= w ==> i < close_levels(l, w).len(),
        close_levels(l, w).len() > 0 ==> close_levels(l, w).last() <= w,
    decreases l.len(),
{
    if l.len() > 0 && w < l.last() {
        let m = l.drop_last();
        lemma_closed(m, w);
        let k = close_levels(m, w).len() as int;
        assert(m.take(k) =~= l.take(k));
        assert forall|i: int| 0 <= i < l.len() && #[trigger] l[i] <= w implies i < close_levels(
            l,
            w,
        ).len() by {
            if i < l.len() - 1 {
                assert(m[i] == l[i]);
            }
        }
    } else {
        assert(l.take(l.len() as int) =~= l);
    }
}

proof fn lemma_levels(l: Seq<nat>, w: nat)
    requires
        rising(l),
    ensures
        rising(levels_at(l, w)),
        levels_at(l, w).len() > 0,
        levels_at(l, w).last() == w,
        l.len() > 0 && w > l.last() ==> levels_at(l, w) == l.push(w),
        l.len() > 0 && w == l.last() ==> levels_at(l, w) == l,
        forall|k: int|
            0 <= k < l.len() && #[trigger] l[k] <= w ==> k < levels_at(l, w).len() && levels_at(
                l,
                w,
            ).take(k + 1) == l.take(k + 1),
        forall|k: int|
            0 <= k < l.len() && #[trigger] l[k] == w ==> levels_at(l, w) == l.take(k + 1),
{
    lemma_closed(l, w);
    let kept = close_levels(l, w);
    let all = levels_at(l, w);
    assert forall|k: int| 0 <= k < l.len() && #[trigger] l[k] <= w implies k < all.len()
        && all.take(k + 1) == l.take(k + 1) by {
        assert(all.take(k + 1) =~= l.take(k + 1));
    }
    assert forall|k: int| 0 <= k < l.len() && #[trigger] l[k] == w implies all == l.take(k + 1) by {
        let n = kept.len() as int;
        assert(kept[n - 1] == l[n - 1]);
        if n - 1 > k {
            assert(l[k] < l[n - 1]);
        }
        assert(all =~= l.take(k + 1));
    }
}

/// The open levels behind the first `n` items of a list with these indentations.
spec fn open_at(ws: Seq<nat>, n: int) -> Seq<nat>
    decreases n,
{
    if n <= 0 {
        Seq::empty()
    } else {
        levels_at(open_at(ws, n - 1), ws[n - 1])
    }
}

proof fn lemma_open(ws: Seq<nat>, n: int)
    requires
        0 <= n <= ws.len(),
    ensures
        rising(open_at(ws, n)),
        n > 0 ==> open_at(ws, n).len() > 0 && open_at(ws, n).last() == ws[n - 1],
    decreases n,
{
    if n > 0 {
        lemma_open(ws, n - 1);
        lemma_levels(open_at(ws, n - 1), ws[n - 1]);
    }
}

/// What is open at an item stays open while the items are not indented less.
proof fn lemma_stays_open(ws: Seq<nat>, j: int, k: int)
    requires
        0 <= j <= k < ws.len(),
        forall|m: int| j <= m <= k ==> ws[j] <= #[trigger] ws[m],
    ensures
        open_at(ws, j + 1).len() <= open_at(ws, k + 1).len(),
        open_at(ws, k + 1).take(open_at(ws, j + 1).len() as int) == open_at(ws, j + 1),
        ws[k] == ws[j] ==> open_at(ws, k + 1) == open_at(ws, j + 1),
    decreases k - j,
{
    lemma_open(ws, j + 1);
    let base = open_at(ws, j + 1);
    let n = base.len() as int;
    if j == k {
        assert(base.take(n) =~= base);
    } else {
        lemma_stays_open(ws, j, k - 1);
        lemma_open(ws, k);
        let before = open_at(ws, k);
        assert(before.take(n)[n - 1] == before[n - 1]);
        assert(before[n - 1] == ws[j]);
        assert(ws[j] <= ws[k]);
        lemma_levels(before, ws[k]);
        let after = open_at(ws, k + 1);
        assert(after.take(n) == before.take(n));
    }
}

/// The level of a node, where it is a paragraph.
pub open spec fn level_of(n: NodeV) -> int {
    match n {
        NodeV::Para(b) => b.depth as int,
        _ => 0,
    }
}

/// An item of a list: a dash, a space and a text that is no box and no marker.
pub open spec fn dash_item(t: Seq<char>) -> Seq<char> {
    seq!['-', ' '] + t
}

/// A line of a list is read as its item.
proof fn lemma_list_line(ind: Seq<char>, t: Seq<char>)
    requires
        padding(ind),
        framed(t),
        t[0] != '-',
        t[0] != '[',
    ensures
        ({
            let line = ind + dash_item(t);
            &&& trim(line).len() > 0
            &&& !thematic_break(line)
            &&& trim(line) != TOC_PLACEHOLDER@
            &&& row_cells(line) is None
            &&& trim_end(unindent(line)) == dash_item(t)
            &&& indent_width(line) == columns(ind)
            &&& heading(dash_item(t)) is None
            &&& list_item(dash_item(t)) == Some((BlockKind::Bullet, t))
        }),
{
    let item = dash_item(t);
    let line = ind + item;
    assert(item[0] == '-' && item[1] == ' ' && item[2] == t[0]);
    assert(item.last() == t.last());
    assert(!item.contains('\n')) by {
        if item.contains('\n') {
            let k = choose|k: int| 0 <= k < item.len() && item[k] == '\n';
            if k >= 2 {
                assert(item[k] == t[k - 2]);
            }
        }
    }
    lemma_indented(ind, item);
    lemma_framed(item);
    let n = ind.len() as int;
    assert(line[n + 2] == t[0] && line[n] == '-');
    assert(!break_of(line, '-') && !break_of(line, '*') && !break_of(line, '_'));
    lemma_toc_begins();
    assert(leading(item, '#') == 0);
    assert(item.skip(2) =~= t);
}

proof fn lemma_list_nodes(
    ls: Seq<Seq<char>>,
    inds: Seq<Seq<char>>,
    ts: Seq<Seq<char>>,
    ws: Seq<nat>,
    i: int,
)
    requires
        0 <= i <= ls.len(),
        list_lines(ls, inds, ts),
        ws == Seq::new(ls.len(), |k: int| columns(inds[k])),
    ensures
        ({
            let ns = nodes_from(ls, i, open_at(ws, i));
            &&& ns.len() == ls.len() - i
            &&& forall|k: int|
                i <= k < ls.len() ==> #[trigger] ns[k - i] == NodeV::Para(
                    BlockV {
                        kind: BlockKind::Bullet,
                        depth: depth_of(open_at(ws, k + 1)),
                        runs: inline_runs(ts[k]),
                    },
                )
        }),
    decreases ls.len() - i,
{
    if i < ls.len() {
        lemma_list_nodes(ls, inds, ts, ws, i + 1);
        assert(ls[i] == inds[i] + dash_item(ts[i]));
        lemma_list_line(inds[i], ts[i]);
        assert(ls.skip(i)[0] == ls[i]);
        assert(!table_start(ls.skip(i)));
        let rest = nodes_from(ls, i + 1, open_at(ws, i + 1));
        let ns = nodes_from(ls, i, open_at(ws, i));
        assert(open_at(ws, i + 1) == levels_at(open_at(ws, i), ws[i]));
        assert forall|k: int| i <= k < ls.len() implies #[trigger] ns[k - i] == NodeV::Para(
            BlockV {
                kind: BlockKind::Bullet,
                depth: depth_of(open_at(ws, k + 1)),
                runs: inline_runs(ts[k]),
            },
        ) by {
            if k > i {
                assert(ns[k - i] == rest[k - i - 1]);
                assert(rest[k - (i + 1)] == ns[k - i]);
            }
        }
    }
}

/// The lines are items of lists, each with its indentation and its text.
pub open spec fn list_lines(
    ls: Seq<Seq<char>>,
    inds: Seq<Seq<char>>,
    ts: Seq<Seq<char>>,
) -> bool {
    &&& inds.len() == ls.len()
    &&& ts.len() == ls.len()
    &&& forall|k: int|
        0 <= k < ls.len() ==> #[trigger] ls[k] == inds[k] + dash_item(ts[k]) && padding(inds[k])
            && framed(ts[k]) && ts[k][0] != '-' && ts[k][0] != '['
}

/// List items read as what they hold, and are nested as they are indented: the first is at
/// the top; one that is indented further than the item before it is one level below that, up
/// to eight; one that is indented as an earlier item, with nothing between them indented
/// less, is on the level of that item.
pub proof fn law_levels(ls: Seq<Seq<char>>, inds: Seq<Seq<char>>, ts: Seq<Seq<char>>)
    requires
        ls.len() > 0,
        list_lines(ls, inds, ts),
    ensures
        ({
            let ns = parsed(unlines(ls));
            &&& ns.len() == ls.len()
            &&& forall|k: int|
                0 <= k < ns.len() ==> level_off(#[trigger] ns[k]) == NodeV::Para(
                    BlockV { kind: BlockKind::Bullet, depth: 0, runs: inline_runs(ts[k]) },
                )
            &&& level_of(ns[0]) == 0
            &&& forall|k: int|
                0 < k < ns.len() && columns(inds[k]) > columns(inds[k - 1]) ==> level_of(
                    #[trigger] ns[k],
                ) == if level_of(ns[k - 1]) < 8 {
                    level_of(ns[k - 1]) + 1
                } else {
                    8
                }
            &&& forall|j: int, k: int|
                0 <= j < k < ns.len() && columns(inds[j]) == columns(inds[k]) && (forall|m: int|
                    j <= m <= k ==> columns(inds[j]) <= columns(#[trigger] inds[m])) ==> level_of(
                    #[trigger] ns[j],
                ) == level_of(#[trigger] ns[k])
        }),
{
    let none = Seq::<char>::empty();
    assert forall|k: int| 0 <= k < ls.len() implies line_holds(
        #[trigger] ls[k],
    ) by {
        let line = ls[k];
        assert(line == inds[k] + dash_item(ts[k]));
        let n = inds[k].len() as int;
        assert(line.last() == ts[k].last());
        if line.contains('\n') {
            let q = choose|q: int| 0 <= q < line.len() && line[q] == '\n';
            if q < n {
                assert(line[q] == inds[k][q]);
            } else if q >= n + 2 {
                assert(line[q] == ts[k][q - n - 2]);
            }
        }
    }
    lemma_lines(ls, none);
    assert(unlines(ls) + none =~= unlines(ls));
    assert(ls + lines(none) =~= ls);
    let ws = Seq::new(ls.len(), |k: int| columns(inds[k]));
    lemma_list_nodes(ls, inds, ts, ws, 0);
    let ns = parsed(unlines(ls));
    assert forall|k: int| 0 <= k < ns.len() implies #[trigger] ns[k] == NodeV::Para(
        BlockV {
            kind: BlockKind::Bullet,
            depth: depth_of(open_at(ws, k + 1)),
            runs: inline_runs(ts[k]),
        },
    ) by {
        assert(ns[k - 0] == ns[k]);
    }
    assert(open_at(ws, 0) =~= Seq::<nat>::empty());
    assert(open_at(ws, 1) =~= seq![ws[0]]);
    assert forall|k: int|
        0 < k < ns.len() && columns(inds[k]) > columns(inds[k - 1]) implies level_of(
        #[trigger] ns[k],
    ) == if level_of(ns[k - 1]) < 8 {
        level_of(ns[k - 1]) + 1
    } else {
        8
    } by {
        lemma_open(ws, k);
        lemma_levels(open_at(ws, k), ws[k]);
    }
    assert forall|j: int, k: int|
        0 <= j < k < ns.len() && columns(inds[j]) == columns(inds[k]) && (forall|m: int|
            j <= m <= k ==> columns(inds[j]) <= columns(#[trigger] inds[m])) implies level_of(
        #[trigger] ns[j],
    ) == level_of(#[trigger] ns[k]) by {
        assert forall|m: int| j <= m <= k implies ws[j] <= #[trigger] ws[m] by {
            assert(columns(inds[j]) <= columns(inds[m]));
        }
        lemma_stays_open(ws, j, k);
    }
}

} // verus!
