//! Nested lists: the tabs that the style pass puts in are gone once the lists are made.
//!
//! A list item gets a tab for each level, and the request that makes the items a list takes
//! the tabs at the start of its paragraphs out again.
use crate::apply::splice_in;
use crate::blocks::{block_script, dirty, lemma_para_start, para_start, Pass};
use crate::diff::{char_script, EditStep};
use crate::model::{list_kind_of, BlockV, RunV};
use crate::request::{shifted, RequestV};
use crate::style_laws::lemma_list_kind;
use crate::style_pass::{
    block_requests, inline_from, inline_requests, lemma_depth_front, lemma_list_end,
    lemma_total_depth, list_end, list_preset, list_requests, paragraph_requests, restyle_requests,
    run_requests, style_from, tab_requests, total_depth,
};
use crate::sync::{blocks_plain, creates_none, edits_reach, lemma_sift, reached_text, sift, UnitV};
use crate::sync_laws::{all_still, lemma_inline_effect, lemma_still, still};
use crate::text::{repeat, utf16_len};
use crate::text_laws::{
    applied16, applies16, apply_all16, char_units, lemma_utf16_add, lemma_utf16_length, utf16,
};
use crate::text_pass::{body_requests, script_requests, step_requests, text_requests};
use vstd::prelude::*;

verus! {

/// The units without the tabs at the start of each paragraph; `fresh` tells that a
/// paragraph starts at the front.
pub open spec fn untabbed(s: Seq<u16>, fresh: bool) -> Seq<u16>
    decreases s.len(),
{
    if s.len() == 0 {
        s
    } else if fresh && s[0] == 9 {
        untabbed(s.skip(1), true)
    } else {
        seq![s[0]] + untabbed(s.skip(1), s[0] == 10)
    }
}

/// The request refers to places that a body of these units has.
pub open spec fn list_applies16(body: Seq<u16>, r: RequestV) -> bool {
    match r {
        RequestV::Bullets { start, end, .. } => 1 <= start <= end <= body.len() + 1,
        _ => applies16(body, r),
    }
}

/// The body after one request, in units. Making a list takes the tabs at the start of its
/// paragraphs.
pub open spec fn list_applied16(body: Seq<u16>, r: RequestV) -> Seq<u16> {
    match r {
        RequestV::Bullets { start, end, .. } => body.take(start - 1) + untabbed(
            body.subrange(start - 1, end - 1),
            true,
        ) + body.skip(end - 1),
        _ => applied16(body, r),
    }
}

/// The body after the requests, in units; `None` if one refers to a place that the body
/// does not have when its turn comes.
pub open spec fn list_apply_all16(body: Seq<u16>, rs: Seq<RequestV>) -> Option<Seq<u16>>
    decreases rs.len(),
{
    if rs.len() == 0 {
        Some(body)
    } else {
        match list_apply_all16(body, rs.drop_last()) {
            None => None,
            Some(b) => if list_applies16(b, rs.last()) {
                Some(list_applied16(b, rs.last()))
            } else {
                None
            },
        }
    }
}

pub proof fn lemma_list_apply_add(body: Seq<u16>, a: Seq<RequestV>, b: Seq<RequestV>)
    ensures
        list_apply_all16(body, a + b) == match list_apply_all16(body, a) {
            None => None,
            Some(mid) => list_apply_all16(mid, b),
        },
    decreases b.len(),
{
    if b.len() == 0 {
        assert(a + b =~= a);
    } else {
        lemma_list_apply_add(body, a, b.drop_last());
        assert((a + b).drop_last() =~= a + b.drop_last());
    }
}

proof fn lemma_list_apply_one(body: Seq<u16>, r: RequestV)
    requires
        list_applies16(body, r),
    ensures
        list_apply_all16(body, seq![r]) == Some(list_applied16(body, r)),
{
    reveal_with_fuel(list_apply_all16, 2);
    assert(seq![r].drop_last() =~= Seq::<RequestV>::empty());
}

/// Where no list is made, the requests do what they do to plain text.
proof fn lemma_no_lists(body: Seq<u16>, rs: Seq<RequestV>)
    requires
        forall|i: int| 0 <= i < rs.len() ==> !((#[trigger] rs[i]) is Bullets),
    ensures
        list_apply_all16(body, rs) == apply_all16(body, rs),
    decreases rs.len(),
{
    if rs.len() > 0 {
        let init = rs.drop_last();
        assert forall|i: int| 0 <= i < init.len() implies !((#[trigger] init[i]) is Bullets) by {
            assert(!(rs[i] is Bullets));
        }
        lemma_no_lists(body, init);
        assert(!(rs[rs.len() - 1] is Bullets));
    }
}

// ---------------------------------------------------------------------------
// Paragraphs in units
// ---------------------------------------------------------------------------

/// The text has no tab at its start or behind a line feed.
pub open spec fn tame(t: Seq<char>) -> bool {
    forall|i: int| 0 <= i < t.len() && (#[trigger] t[i]) == '\t' ==> i > 0 && t[i - 1] != '\n'
}

/// All list items are tame.
pub open spec fn all_tame(bs: Seq<BlockV>) -> bool {
    forall|k: int|
        0 <= k < bs.len() && list_kind_of((#[trigger] bs[k]).kind) ==> tame(bs[k].text())
}

/// A paragraph in units, with its line feed.
pub open spec fn line_units(b: BlockV) -> Seq<u16> {
    utf16(b.text()) + seq![10u16]
}

/// The paragraphs from `i` to `j` in units.
pub open spec fn lines_units(bs: Seq<BlockV>, i: int, j: int) -> Seq<u16>
    decreases j - i,
{
    if i >= j {
        Seq::empty()
    } else {
        line_units(bs[i]) + lines_units(bs, i + 1, j)
    }
}

/// Tabs in units.
pub open spec fn tab_units(n: nat) -> Seq<u16> {
    Seq::new(n, |i: int| 9u16)
}

/// The paragraphs from `i` to `j` in units, each behind a tab for each level.
pub open spec fn tabbed_units(bs: Seq<BlockV>, i: int, j: int) -> Seq<u16>
    decreases j - i,
{
    if i >= j {
        Seq::empty()
    } else {
        tab_units(bs[i].depth as nat) + line_units(bs[i]) + tabbed_units(bs, i + 1, j)
    }
}

proof fn lemma_one_unit(c: char)
    requires
        c == '\n' || c == '\t',
    ensures
        utf16(seq![c]) == seq![c as u16],
{
    reveal_with_fuel(utf16, 2);
    assert(seq![c].drop_last() =~= Seq::<char>::empty());
    assert(utf16(seq![c]) =~= seq![c as u16]);
}

pub proof fn lemma_tab_units(n: nat)
    ensures
        utf16(repeat('\t', n)) == tab_units(n),
    decreases n,
{
    let r = repeat('\t', n);
    if n > 0 {
        lemma_tab_units((n - 1) as nat);
        assert(r.drop_last() =~= repeat('\t', (n - 1) as nat));
        assert(utf16(r) =~= tab_units(n));
    } else {
        assert(utf16(r) =~= tab_units(n));
    }
}

proof fn lemma_lines_add(bs: Seq<BlockV>, i: int, j: int, k: int)
    requires
        i <= j <= k,
    ensures
        lines_units(bs, i, k) == lines_units(bs, i, j) + lines_units(bs, j, k),
    decreases j - i,
{
    if i < j {
        lemma_lines_add(bs, i + 1, j, k);
        assert(line_units(bs[i]) + (lines_units(bs, i + 1, j) + lines_units(bs, j, k))
            =~= line_units(bs[i]) + lines_units(bs, i + 1, j) + lines_units(bs, j, k));
    } else {
        assert(lines_units(bs, i, j) + lines_units(bs, j, k) =~= lines_units(bs, j, k));
    }
}

proof fn lemma_line_len(b: BlockV)
    ensures
        line_units(b).len() == utf16_len(b.text()) + 1,
{
    lemma_utf16_length(b.text());
}

proof fn lemma_lines_len(bs: Seq<BlockV>, i: int)
    requires
        0 <= i <= bs.len(),
    ensures
        lines_units(bs, 0, i).len() == para_start(bs, i) - 1,
    decreases i,
{
    if i > 0 {
        lemma_lines_len(bs, i - 1);
        lemma_lines_add(bs, 0, i - 1, i);
        lemma_line_len(bs[i - 1]);
        assert(lines_units(bs, i, i) =~= Seq::<u16>::empty());
        assert(lines_units(bs, i - 1, i) =~= line_units(bs[i - 1]));
    }
}

/// The plain text of blocks in units.
proof fn lemma_plain_units(bs: Seq<BlockV>)
    ensures
        utf16(blocks_plain(bs)) == lines_units(bs, 0, bs.len() as int),
    decreases bs.len(),
{
    let n = bs.len() as int;
    if n > 0 {
        let init = bs.drop_last();
        lemma_plain_units(init);
        lemma_same_lines(bs, init, 0, n - 1);
        lemma_utf16_add(blocks_plain(init), bs.last().text());
        lemma_utf16_add(blocks_plain(init) + bs.last().text(), seq!['\n']);
        lemma_one_unit('\n');
        lemma_lines_add(bs, 0, n - 1, n);
        assert(lines_units(bs, n, n) =~= Seq::<u16>::empty());
        assert(lines_units(bs, n - 1, n) =~= line_units(bs[n - 1]));
        assert(utf16(blocks_plain(bs)) =~= lines_units(bs, 0, n));
    } else {
        assert(utf16(blocks_plain(bs)) =~= lines_units(bs, 0, n));
    }
}

proof fn lemma_same_lines(a: Seq<BlockV>, b: Seq<BlockV>, i: int, j: int)
    requires
        0 <= i,
        j <= a.len(),
        j <= b.len(),
        forall|k: int| i <= k < j ==> a[k] == b[k],
    ensures
        lines_units(a, i, j) == lines_units(b, i, j),
    decreases j - i,
{
    if i < j {
        lemma_same_lines(a, b, i + 1, j);
    }
}

// ---------------------------------------------------------------------------
// Tabs in and out
// ---------------------------------------------------------------------------

/// The tab requests put the tabs before the items.
proof fn lemma_tabs_in(bs: Seq<BlockV>, i: int, j: int, front: Seq<u16>, back: Seq<u16>)
    requires
        0 <= i <= j <= bs.len(),
        front.len() == para_start(bs, i) - 1,
    ensures
        list_apply_all16(front + lines_units(bs, i, j) + back, tab_requests(bs, i, j)) == Some(
            front + tabbed_units(bs, i, j) + back,
        ),
        tabbed_units(bs, i, j).len() == lines_units(bs, i, j).len() + total_depth(bs, i, j),
    decreases j - i,
{
    if i < j {
        let line = line_units(bs[i]);
        lemma_line_len(bs[i]);
        lemma_depth_front(bs, i, j);
        lemma_tabs_in(bs, i + 1, j, front + line, back);
        let rest = tab_requests(bs, i + 1, j);
        let whole = front + lines_units(bs, i, j) + back;
        assert(whole =~= (front + line) + lines_units(bs, i + 1, j) + back);
        let mid = (front + line) + tabbed_units(bs, i + 1, j) + back;
        let d = bs[i].depth as nat;
        if d > 0 {
            lemma_tab_units(d);
            lemma_para_start(bs, i, i);
            let put = RequestV::Insert { index: para_start(bs, i), text: repeat('\t', d) };
            assert(tab_requests(bs, i, j) =~= rest + seq![put]);
            lemma_list_apply_add(whole, rest, seq![put]);
            lemma_list_apply_one(mid, put);
            assert(splice_in(mid, front.len() as int, tab_units(d)) =~= front + tabbed_units(
                bs,
                i,
                j,
            ) + back);
        } else {
            assert(mid =~= front + tabbed_units(bs, i, j) + back);
        }
    } else {
        assert(front + lines_units(bs, i, j) + back =~= front + tabbed_units(bs, i, j) + back);
    }
}

/// Tabs at the start of a paragraph go.
proof fn lemma_untab_tabs(n: nat, rest: Seq<u16>)
    ensures
        untabbed(tab_units(n) + rest, true) == untabbed(rest, true),
    decreases n,
{
    let s = tab_units(n) + rest;
    if n > 0 {
        lemma_untab_tabs((n - 1) as nat, rest);
        assert(s.skip(1) =~= tab_units((n - 1) as nat) + rest);
    } else {
        assert(s =~= rest);
    }
}

/// What is no tab at the start of a paragraph stays.
proof fn lemma_untab_line(u: Seq<u16>, rest: Seq<u16>, fresh: bool)
    requires
        fresh && u.len() > 0 ==> u[0] != 9,
        forall|k: int| 0 < k < u.len() && (#[trigger] u[k]) == 9 ==> u[k - 1] != 10,
    ensures
        untabbed(u + seq![10u16] + rest, fresh) == u + seq![10u16] + untabbed(rest, true),
    decreases u.len(),
{
    let s = u + seq![10u16] + rest;
    if u.len() > 0 {
        let tail = u.skip(1);
        assert forall|k: int| 0 < k < tail.len() && (#[trigger] tail[k]) == 9 implies tail[k - 1]
            != 10 by {
            assert(u[k + 1] == 9);
        }
        if tail.len() > 0 {
            assert(tail[0] == u[1]);
        }
        lemma_untab_line(tail, rest, u[0] == 10);
        assert(s.skip(1) =~= tail + seq![10u16] + rest);
        assert(untabbed(s, fresh) =~= u + seq![10u16] + untabbed(rest, true));
    } else {
        assert(s.skip(1) =~= rest);
        assert(untabbed(s, fresh) =~= u + seq![10u16] + untabbed(rest, true));
    }
}

/// The units of a character are no line feed and no tab, unless it is one.
proof fn lemma_plain_char(c: char)
    ensures
        forall|k: int|
            0 <= k < char_units(c).len() ==> (c != '\n' ==> (#[trigger] char_units(c)[k]) != 10) && (c
                != '\t' ==> char_units(c)[k] != 9),
{
    let x = c as u32;
    assert(x <= 0x10ffff);
    if x >= 0x10000 {
        let high = 0xd800 + (x - 0x10000) / 0x400;
        let low = 0xdc00 + (x - 0x10000) % 0x400;
        assert(0xd800 <= high <= 0xdbff);
        assert(0xdc00 <= low <= 0xdfff);
        assert(char_units(c) == seq![high as u16, low as u16]);
    } else {
        assert(char_units(c) == seq![x as u16]);
        assert(x as u16 == x);
    }
}

/// The units of a tame text have no tab at their start or behind a line feed.
pub proof fn lemma_tame_units(t: Seq<char>)
    requires
        tame(t),
    ensures
        utf16(t).len() > 0 ==> utf16(t)[0] != 9,
        forall|k: int| 0 < k < utf16(t).len() && (#[trigger] utf16(t)[k]) == 9 ==> utf16(t)[k - 1]
            != 10,
        t.len() > 0 ==> utf16(t).len() > 0 && (utf16(t).last() == 10 ==> t.last() == '\n'),
    decreases t.len(),
{
    if t.len() > 0 {
        let init = t.drop_last();
        let c = t.last();
        let own = char_units(c);
        let before = utf16(init);
        assert(tame(init)) by {
            assert forall|i: int| 0 <= i < init.len() && (#[trigger] init[i]) == '\t' implies i > 0
                && init[i - 1] != '\n' by {
                assert(t[i] == '\t');
            }
        }
        lemma_tame_units(init);
        assert(utf16(t) =~= before + own);
        lemma_plain_char(c);
        assert(own.len() > 0);
        assert(utf16(t).last() == own[own.len() - 1]);
        if init.len() == 0 {
            assert(before =~= Seq::<u16>::empty());
            assert(t[0] == c);
        }
        assert forall|k: int| 0 < k < utf16(t).len() && (#[trigger] utf16(t)[k]) == 9 implies utf16(
            t,
        )[k - 1] != 10 by {
            if k < before.len() {
                assert(before[k] == 9);
            } else {
                let q = k - before.len();
                assert(own[q] == 9);
                assert(c == '\t');
                if q > 0 {
                    assert(own[q - 1] != 10);
                } else {
                    assert(t[t.len() - 1] == '\t');
                    assert(t[t.len() - 2] == init.last());
                    assert(utf16(t)[k - 1] == before.last());
                }
            }
        }
        if before.len() > 0 {
            assert(utf16(t)[0] == before[0]);
        } else {
            assert(utf16(t)[0] == own[0]);
        }
    }
}

/// Making the list takes the tabs of its items.
proof fn lemma_tabs_out(bs: Seq<BlockV>, i: int, j: int)
    requires
        0 <= i <= j <= bs.len(),
        forall|k: int| i <= k < j ==> tame((#[trigger] bs[k]).text()),
    ensures
        untabbed(tabbed_units(bs, i, j), true) == lines_units(bs, i, j),
    decreases j - i,
{
    if i < j {
        lemma_tabs_out(bs, i + 1, j);
        let u = utf16(bs[i].text());
        let rest = tabbed_units(bs, i + 1, j);
        assert(tame(bs[i].text()));
        lemma_tame_units(bs[i].text());
        lemma_untab_tabs(bs[i].depth as nat, u + seq![10u16] + rest);
        lemma_untab_line(u, rest, true);
        assert(tabbed_units(bs, i, j) =~= tab_units(bs[i].depth as nat) + (u + seq![10u16] + rest));
    }
}

/// Rebuilding a list leaves the text as it was.
proof fn lemma_list_still(bs: Seq<BlockV>, i: int, j: int)
    requires
        0 <= i < j <= bs.len(),
        forall|k: int| i <= k < j ==> tame((#[trigger] bs[k]).text()),
    ensures
        list_apply_all16(utf16(blocks_plain(bs)), list_requests(bs, i, j)) == Some(
            utf16(blocks_plain(bs)),
        ),
{
    let n = bs.len() as int;
    let body = utf16(blocks_plain(bs));
    lemma_plain_units(bs);
    lemma_lines_add(bs, 0, i, n);
    lemma_lines_add(bs, i, j, n);
    lemma_lines_add(bs, 0, j, n);
    lemma_lines_len(bs, i);
    lemma_lines_len(bs, j);
    lemma_lines_len(bs, n);
    lemma_lines_add(bs, 0, i, j);
    let front = lines_units(bs, 0, i);
    let back = lines_units(bs, j, n);
    let mine = lines_units(bs, i, j);
    assert(body =~= front + mine + back);
    let rs = list_requests(bs, i, j);
    let tabs = tab_requests(bs, i, j);
    let head = rs.take(2);
    let make = rs[rs.len() - 1];
    assert(rs =~= head + tabs + seq![make]);
    lemma_no_lists(body, head);
    assert(list_apply_all16(body, head) == Some(body)) by {
        reveal_with_fuel(apply_all16, 3);
        assert(head.drop_last().drop_last() =~= Seq::<RequestV>::empty());
    }
    lemma_list_apply_add(body, head, tabs);
    lemma_tabs_in(bs, i, j, front, back);
    let mid = front + tabbed_units(bs, i, j) + back;
    lemma_list_apply_add(body, head + tabs, seq![make]);
    lemma_total_depth(bs, i, i, i, j);
    lemma_para_start(bs, i, j);
    let start = para_start(bs, i);
    let end = para_start(bs, j) + total_depth(bs, i, j);
    assert(make == (RequestV::Bullets { start, end, preset: list_preset(bs[i].kind) }));
    lemma_list_apply_one(mid, make);
    lemma_tabs_out(bs, i, j);
    assert(mid.take(start - 1) =~= front);
    assert(mid.subrange(start - 1, end - 1) =~= tabbed_units(bs, i, j));
    assert(mid.skip(end - 1) =~= back);
}

/// Requests that change no text and make no list leave it as it is.
proof fn lemma_still_lists(body: Seq<u16>, rs: Seq<RequestV>)
    requires
        all_still(rs),
        forall|i: int| 0 <= i < rs.len() ==> !((#[trigger] rs[i]) is Bullets),
    ensures
        list_apply_all16(body, rs) == Some(body),
{
    lemma_no_lists(body, rs);
    lemma_still(body, rs);
}

proof fn lemma_style_still(bs: Seq<BlockV>, set: Seq<bool>, i: int)
    requires
        0 <= i <= bs.len(),
        all_tame(bs),
    ensures
        list_apply_all16(utf16(blocks_plain(bs)), style_from(bs, set, i)) == Some(
            utf16(blocks_plain(bs)),
        ),
    decreases bs.len() - i,
{
    let body = utf16(blocks_plain(bs));
    if i < bs.len() {
        lemma_list_end(bs, bs[i].kind, i + 1);
        if list_kind_of(bs[i].kind) {
            let j = list_end(bs, bs[i].kind, i + 1);
            lemma_style_still(bs, set, j);
            assert forall|k: int| i <= k < j implies tame((#[trigger] bs[k]).text()) by {
                if i < k {
                    lemma_list_kind(bs, bs[i].kind, i + 1, k);
                }
            }
            lemma_list_still(bs, i, j);
            lemma_list_apply_add(body, list_requests(bs, i, j), style_from(bs, set, j));
            lemma_list_apply_add(body, Seq::empty(), style_from(bs, set, j));
        } else {
            lemma_style_still(bs, set, i + 1);
            let own = block_requests(bs[i].kind, para_start(bs, i), para_start(bs, i + 1));
            assert forall|k: int| 0 <= k < own.len() implies still(#[trigger] own[k]) && !(
            own[k] is Bullets) by {}
            lemma_still_lists(body, own);
            lemma_list_apply_add(body, own, style_from(bs, set, i + 1));
            lemma_list_apply_add(body, Seq::empty(), style_from(bs, set, i + 1));
        }
    }
}

/// The paragraph-style pass leaves the text of a document as it was: every tab that it
/// puts in is gone once its lists are made.
pub proof fn law_style_keeps_text(cur: Seq<BlockV>, des: Seq<BlockV>)
    requires
        all_tame(des),
    ensures
        list_apply_all16(utf16(blocks_plain(des)), paragraph_requests(cur, des)) == Some(
            utf16(blocks_plain(des)),
        ),
{
    lemma_style_still(des, dirty(Pass::Paragraph, block_script(cur, des), cur, des), 0);
}

/// No request makes a list.
pub open spec fn no_lists(rs: Seq<RequestV>) -> bool {
    forall|i: int| 0 <= i < rs.len() ==> !((#[trigger] rs[i]) is Bullets)
}

proof fn lemma_no_lists_add(a: Seq<RequestV>, b: Seq<RequestV>)
    requires
        no_lists(a),
        no_lists(b),
    ensures
        no_lists(a + b),
{
    assert forall|i: int| 0 <= i < (a + b).len() implies !((#[trigger] (a + b)[i]) is Bullets) by {
        if i < a.len() {
            assert(!(a[i] is Bullets));
        } else {
            assert(!(b[i - a.len()] is Bullets));
        }
    }
}

proof fn lemma_script_no_lists(
    steps: Seq<EditStep>,
    old: Seq<char>,
    new: Seq<char>,
    k: int,
    m: int,
)
    ensures
        no_lists(script_requests(steps, old, new, k, m)),
    decreases m - k,
{
    if k < m {
        lemma_script_no_lists(steps, old, new, k + 1, m);
        lemma_no_lists_add(
            script_requests(steps, old, new, k + 1, m),
            step_requests(steps, old, new, k),
        );
    }
}

/// Text edits make no list.
proof fn lemma_edits_no_lists(u: UnitV)
    ensures
        no_lists(u.edits()),
{
    let old = blocks_plain(u.cur);
    let new = blocks_plain(u.des);
    let steps = char_script(old, new);
    lemma_script_no_lists(steps, old, new, 0, steps.len() as int);
    let texts = text_requests(old, new);
    let raw = if u.final_newline {
        body_requests(old, new)
    } else {
        texts
    };
    assert forall|i: int| 0 <= i < raw.len() implies !((#[trigger] raw[i]) is Bullets) by {
        assert(!(texts[i] is Bullets));
    }
    lemma_sift(raw);
    assert forall|i: int| 0 <= i < sift(raw).len() implies !((#[trigger] sift(raw)[i]) is Bullets) by {
        let k = choose|k: int| 0 <= k < raw.len() && raw[k] == sift(raw)[i];
        assert(!(raw[k] is Bullets));
    }
}

proof fn lemma_runs_no_lists(runs: Seq<RunV>, start: int, i: int)
    requires
        0 <= i <= runs.len(),
    ensures
        no_lists(run_requests(runs, start, i)),
    decreases runs.len() - i,
{
    if i < runs.len() {
        lemma_runs_no_lists(runs, start, i + 1);
    }
}

proof fn lemma_inline_no_lists(bs: Seq<BlockV>, set: Seq<bool>, i: int)
    requires
        0 <= i <= bs.len(),
    ensures
        no_lists(inline_from(bs, set, i)),
    decreases bs.len() - i,
{
    if i < bs.len() {
        lemma_inline_no_lists(bs, set, i + 1);
        let start = para_start(bs, i);
        lemma_runs_no_lists(bs[i].runs, start, 0);
        let own = restyle_requests(bs[i], start);
        let inner = run_requests(bs[i].runs, start, 0);
        assert forall|k: int| 0 <= k < own.len() implies !((#[trigger] own[k]) is Bullets) by {
            if k > 0 {
                assert(own[k] == inner[k - 1]);
            }
        }
        lemma_no_lists_add(own, inline_from(bs, set, i + 1));
        lemma_no_lists_add(Seq::empty(), inline_from(bs, set, i + 1));
    }
}

/// All requests of a region together bring its text to what it should be, as far as the
/// text edits do: the style passes leave it alone.
pub proof fn law_region_reached(u: UnitV)
    requires
        u.start == 1,
        u.final_newline,
        edits_reach(u),
        all_tame(u.des),
        creates_none(u),
    ensures
        list_apply_all16(utf16(blocks_plain(u.cur)), u.requests()) == Some(
            utf16(reached_text(u)),
        ),
{
    let body = utf16(blocks_plain(u.cur));
    let edits = u.edits();
    let styles = paragraph_requests(u.cur, u.des);
    let inlines = inline_requests(u.cur, u.des);
    let set = dirty(Pass::Inline, block_script(u.cur, u.des), u.cur, u.des);
    let all = edits + styles + inlines;
    assert(u.requests() =~= all) by {
        assert forall|i: int| 0 <= i < all.len() implies shifted(all[i], 0) == all[i] by {}
    }
    lemma_edits_no_lists(u);
    lemma_no_lists(body, edits);
    lemma_list_apply_add(body, edits, styles);
    lemma_list_apply_add(body, edits + styles, inlines);
    let text = utf16(reached_text(u));
    if u.des.len() == 0 {
        assert(styles =~= Seq::<RequestV>::empty());
        assert(inlines =~= Seq::<RequestV>::empty());
    } else {
        law_style_keeps_text(u.cur, u.des);
        lemma_inline_effect(u.des, set, 0);
        lemma_inline_no_lists(u.des, set, 0);
        lemma_still_lists(text, inlines);
    }
}

} // verus!
