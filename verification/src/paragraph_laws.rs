//! Laws of the paragraph-style pass: what the paragraphs of a text look like after it.
use crate::apply::splice_in;
use crate::blocks::{block_script, dirty, para_start, Pass};
use crate::diff::{lemma_at_monotonic, new_at, EditStep};
use crate::list_laws::{all_tame, lemma_tab_units, lemma_tame_units, tab_units, tame};
use crate::model::{list_kind_of, BlockKind, BlockV};
use crate::request::RequestV;
use crate::style_laws::{law_flags, lemma_list_kind};
use crate::style_pass::{
    any_set, block_requests, lemma_depth_front, lemma_list_end, list_end, list_preset,
    list_requests, named_style, paragraph_requests, style_from, tab_requests, total_depth,
};
use crate::text::repeat;
use crate::text_laws::{lemma_utf16_length, utf16};
use crate::wire_laws::{law_masks, masked};
use vstd::prelude::*;

verus! {

/// A paragraph: its units without the line feed, its named style, and where it is a list
/// item, the preset of its list and its level.
#[verifier::ext_equal]
pub struct Paragraph {
    pub text: Seq<u16>,
    pub named: Seq<char>,
    pub list: Option<(Seq<char>, nat)>,
}

/// The index at which the `k`-th paragraph starts; each takes up its units and a line feed.
pub open spec fn paragraph_at(ps: Seq<Paragraph>, k: int) -> int
    decreases k,
{
    if k <= 0 {
        1
    } else {
        paragraph_at(ps, k - 1) + ps[k - 1].text.len() + 1
    }
}

/// The range from `start` to `end` reaches into the `k`-th paragraph.
pub open spec fn reaches(ps: Seq<Paragraph>, k: int, start: int, end: int) -> bool {
    start < paragraph_at(ps, k + 1) && paragraph_at(ps, k) < end
}

/// How many tabs the units start with.
pub open spec fn leading_tabs(s: Seq<u16>) -> nat
    decreases s.len(),
{
    if s.len() > 0 && s[0] == 9 {
        1 + leading_tabs(s.skip(1))
    } else {
        0
    }
}

/// The `k`-th paragraph after a request. Text without a line feed goes into the paragraph
/// where it is inserted. Making a list gives each of its paragraphs a level for each tab
/// that it starts with, and takes the tabs.
pub open spec fn paragraph_after(ps: Seq<Paragraph>, r: RequestV, k: int) -> Paragraph {
    let p = ps[k];
    let at = paragraph_at(ps, k);
    match r {
        RequestV::Insert { index, text } => if at <= index < paragraph_at(ps, k + 1) {
            Paragraph { text: splice_in(p.text, index - at, utf16(text)), ..p }
        } else {
            p
        },
        RequestV::NoBullets { start, end } => if reaches(ps, k, start, end) {
            Paragraph { list: None, ..p }
        } else {
            p
        },
        RequestV::Paragraph { start, end, named, fields } => if reaches(ps, k, start, end)
            && masked(fields, "namedStyleType"@) {
            Paragraph { named, ..p }
        } else {
            p
        },
        RequestV::Bullets { start, end, preset } => if reaches(ps, k, start, end) {
            let n = leading_tabs(p.text);
            Paragraph { text: p.text.skip(n as int), list: Some((preset, n)), ..p }
        } else {
            p
        },
        _ => p,
    }
}

/// The paragraphs after a request that deletes nothing.
pub open spec fn paragraphs_after(ps: Seq<Paragraph>, r: RequestV) -> Seq<Paragraph> {
    Seq::new(ps.len(), |k: int| paragraph_after(ps, r, k))
}

/// The paragraphs after the requests.
pub open spec fn all_after(ps: Seq<Paragraph>, rs: Seq<RequestV>) -> Seq<Paragraph>
    decreases rs.len(),
{
    if rs.len() == 0 {
        ps
    } else {
        paragraphs_after(all_after(ps, rs.drop_last()), rs.last())
    }
}

/// The paragraphs hold the texts of the blocks.
pub open spec fn hold_texts(ps: Seq<Paragraph>, bs: Seq<BlockV>) -> bool {
    &&& ps.len() == bs.len()
    &&& forall|k: int| 0 <= k < bs.len() ==> (#[trigger] ps[k]).text == utf16(bs[k].text())
}

/// The list that a block belongs to, and its level there.
pub open spec fn list_of(b: BlockV) -> Option<(Seq<char>, nat)> {
    if list_kind_of(b.kind) {
        Some((list_preset(b.kind), b.depth as nat))
    } else {
        None
    }
}

/// The paragraph of a block with the style that the block should have.
pub open spec fn styled_as(b: BlockV) -> Paragraph {
    Paragraph { text: utf16(b.text()), named: named_style(b.kind), list: list_of(b) }
}

/// The blocks from `a` to `b` are items of one list.
pub open spec fn one_list(bs: Seq<BlockV>, a: int, b: int) -> bool {
    &&& list_kind_of(bs[a].kind)
    &&& forall|k: int| a <= k <= b ==> (#[trigger] bs[k]).kind == bs[a].kind
}

/// The block is styled afresh: it needs work, or an item of its list does.
pub open spec fn restyled(bs: Seq<BlockV>, set: Seq<bool>, k: int) -> bool {
    exists|m: int|
        0 <= m < bs.len() && #[trigger] set[m] && (m == k || (m < k && one_list(bs, m, k)) || (k < m
            && one_list(bs, k, m)))
}

// ---------------------------------------------------------------------------
// Places
// ---------------------------------------------------------------------------

pub proof fn lemma_after_add(ps: Seq<Paragraph>, a: Seq<RequestV>, b: Seq<RequestV>)
    ensures
        all_after(ps, a + b) == all_after(all_after(ps, a), b),
    decreases b.len(),
{
    if b.len() == 0 {
        assert(a + b =~= a);
    } else {
        lemma_after_add(ps, a, b.drop_last());
        assert((a + b).drop_last() =~= a + b.drop_last());
    }
}

proof fn lemma_after_one(ps: Seq<Paragraph>, r: RequestV)
    ensures
        all_after(ps, seq![r]) == paragraphs_after(ps, r),
{
    reveal_with_fuel(all_after, 2);
    assert(seq![r].drop_last() =~= Seq::<RequestV>::empty());
}

/// Later paragraphs start further on.
proof fn lemma_at_grows(ps: Seq<Paragraph>, k: int, l: int)
    requires
        0 <= k <= l,
    ensures
        k < l ==> paragraph_at(ps, k) < paragraph_at(ps, l),
    decreases l,
{
    if k < l {
        lemma_at_grows(ps, k, l - 1);
    }
}

/// Where a paragraph starts depends on the texts before it.
proof fn lemma_at_same(ps: Seq<Paragraph>, qs: Seq<Paragraph>, k: int)
    requires
        forall|i: int| 0 <= i < k ==> (#[trigger] ps[i]).text == qs[i].text,
    ensures
        paragraph_at(ps, k) == paragraph_at(qs, k),
    decreases k,
{
    if k > 0 {
        lemma_at_same(ps, qs, k - 1);
        assert(ps[k - 1].text == qs[k - 1].text);
    }
}

/// The paragraphs start where the blocks do.
proof fn lemma_at_block(ps: Seq<Paragraph>, bs: Seq<BlockV>, k: int)
    requires
        hold_texts(ps, bs),
        0 <= k <= bs.len(),
    ensures
        paragraph_at(ps, k) == para_start(bs, k),
    decreases k,
{
    if k > 0 {
        lemma_at_block(ps, bs, k - 1);
        assert(ps[k - 1].text == utf16(bs[k - 1].text()));
        lemma_utf16_length(bs[k - 1].text());
    }
}

/// A range from one paragraph to another reaches into those between them.
proof fn lemma_reaches(ps: Seq<Paragraph>, i: int, j: int, k: int)
    requires
        0 <= i <= j,
        0 <= k,
    ensures
        reaches(ps, k, paragraph_at(ps, i), paragraph_at(ps, j)) == (i <= k < j),
{
    if k < i {
        lemma_at_grows(ps, k + 1, i);
    } else {
        lemma_at_grows(ps, i, k + 1);
    }
    if k < j {
        lemma_at_grows(ps, k, j);
    } else {
        lemma_at_grows(ps, j, k);
    }
}

// ---------------------------------------------------------------------------
// One paragraph, one list
// ---------------------------------------------------------------------------

/// Taking the paragraphs from `i` to `j` out of their lists and naming them.
proof fn lemma_named(ps: Seq<Paragraph>, i: int, j: int, name: Seq<char>, fields: Seq<char>)
    requires
        0 <= i <= j <= ps.len(),
        masked(fields, "namedStyleType"@),
    ensures
        ({
            let (start, end) = (paragraph_at(ps, i), paragraph_at(ps, j));
            all_after(
                ps,
                seq![
                    RequestV::NoBullets { start, end },
                    RequestV::Paragraph { start, end, named: name, fields },
                ],
            ) == Seq::new(
                ps.len(),
                |k: int|
                    if i <= k < j {
                        Paragraph { named: name, list: None, ..ps[k] }
                    } else {
                        ps[k]
                    },
            )
        }),
{
    let (start, end) = (paragraph_at(ps, i), paragraph_at(ps, j));
    let a = RequestV::NoBullets { start, end };
    let b = RequestV::Paragraph { start, end, named: name, fields };
    let mid = paragraphs_after(ps, a);
    lemma_after_one(ps, a);
    lemma_after_one(mid, b);
    lemma_after_add(ps, seq![a], seq![b]);
    assert(seq![a] + seq![b] =~= seq![a, b]);
    lemma_at_same(ps, mid, i);
    lemma_at_same(ps, mid, j);
    let out = paragraphs_after(mid, b);
    let goal = Seq::new(
        ps.len(),
        |k: int|
            if i <= k < j {
                Paragraph { named: name, list: None, ..ps[k] }
            } else {
                ps[k]
            },
    );
    assert forall|k: int| 0 <= k < ps.len() implies out[k] == goal[k] by {
        lemma_reaches(ps, i, j, k);
        lemma_reaches(mid, i, j, k);
    }
    assert(out =~= goal);
}

/// The paragraphs with tabs before the texts of those from `i` to `j`.
pub open spec fn tabbed(ps: Seq<Paragraph>, bs: Seq<BlockV>, i: int, j: int) -> Seq<Paragraph> {
    Seq::new(
        ps.len(),
        |k: int|
            if i <= k < j {
                Paragraph { text: tab_units(bs[k].depth as nat) + ps[k].text, ..ps[k] }
            } else {
                ps[k]
            },
    )
}

/// The tab requests put a tab for each level before the text of each item.
proof fn lemma_tabbed(ps: Seq<Paragraph>, bs: Seq<BlockV>, i: int, j: int)
    requires
        hold_texts(ps, bs),
        0 <= i <= j <= bs.len(),
    ensures
        all_after(ps, tab_requests(bs, i, j)) == tabbed(ps, bs, i, j),
        paragraph_at(tabbed(ps, bs, i, j), j) == para_start(bs, j) + total_depth(bs, i, j),
    decreases j - i,
{
    lemma_at_block(ps, bs, i);
    lemma_at_block(ps, bs, j);
    let goal = tabbed(ps, bs, i, j);
    if i < j {
        lemma_tabbed(ps, bs, i + 1, j);
        lemma_depth_front(bs, i, j);
        let rest = tab_requests(bs, i + 1, j);
        let mid = tabbed(ps, bs, i + 1, j);
        let d = bs[i].depth as nat;
        lemma_at_same(ps, mid, i);
        lemma_at_grows(mid, i, i + 1);
        lemma_at_later(mid, goal, i, j, d as int);
        if d > 0 {
            let put = RequestV::Insert { index: para_start(bs, i), text: repeat('\t', d) };
            lemma_tab_units(d);
            assert(tab_requests(bs, i, j) =~= rest + seq![put]);
            lemma_after_add(ps, rest, seq![put]);
            lemma_after_one(mid, put);
            let out = paragraphs_after(mid, put);
            assert forall|k: int| 0 <= k < ps.len() implies out[k] == goal[k] by {
                if k < i {
                    lemma_at_grows(mid, k + 1, i);
                } else if i < k {
                    lemma_at_grows(mid, i, k);
                } else {
                    let t = mid[i].text;
                    assert(splice_in(t, 0, tab_units(d)) =~= tab_units(d) + t);
                }
            }
            assert(out =~= goal);
        } else {
            assert forall|k: int| 0 <= k < ps.len() implies mid[k] == goal[k] by {
                if k == i {
                    assert(tab_units(0) + ps[i].text =~= ps[i].text);
                }
            }
            assert(mid =~= goal);
        }
    } else {
        assert(goal =~= ps);
        assert(total_depth(bs, i, j) == 0);
    }
}

/// Where one paragraph has `d` units more, the later ones start by as much further on.
proof fn lemma_at_later(ps: Seq<Paragraph>, qs: Seq<Paragraph>, i: int, k: int, d: int)
    requires
        0 <= i < k,
        qs[i].text.len() == ps[i].text.len() + d,
        forall|m: int| 0 <= m < k && m != i ==> (#[trigger] qs[m]).text == ps[m].text,
    ensures
        paragraph_at(qs, k) == paragraph_at(ps, k) + d,
    decreases k,
{
    if i < k - 1 {
        lemma_at_later(ps, qs, i, k - 1, d);
        assert(qs[k - 1].text == ps[k - 1].text);
    } else {
        lemma_at_same(qs, ps, i);
    }
}

/// The tabs in front of a text that starts with none.
proof fn lemma_leading_tabs(n: nat, t: Seq<u16>)
    requires
        t.len() > 0 ==> t[0] != 9,
    ensures
        leading_tabs(tab_units(n) + t) == n,
        (tab_units(n) + t).skip(n as int) == t,
    decreases n,
{
    let s = tab_units(n) + t;
    assert(s.skip(n as int) =~= t);
    if n > 0 {
        lemma_leading_tabs((n - 1) as nat, t);
        assert(s.skip(1) =~= tab_units((n - 1) as nat) + t);
    } else {
        assert(s =~= t);
    }
}

/// Rebuilding a list gives each item its style, its list and its level.
proof fn lemma_list_styled(ps: Seq<Paragraph>, bs: Seq<BlockV>, i: int, j: int)
    requires
        hold_texts(ps, bs),
        0 <= i < j <= bs.len(),
        list_kind_of(bs[i].kind),
        forall|k: int| i <= k < j ==> (#[trigger] bs[k]).kind == bs[i].kind && tame(bs[k].text()),
    ensures
        all_after(ps, list_requests(bs, i, j)) == Seq::new(
            ps.len(),
            |k: int|
                if i <= k < j {
                    styled_as(bs[k])
                } else {
                    ps[k]
                },
        ),
{
    let rs = list_requests(bs, i, j);
    let (start, end) = (para_start(bs, i), para_start(bs, j));
    lemma_at_block(ps, bs, i);
    lemma_at_block(ps, bs, j);
    let head = rs.take(2);
    let tabs = tab_requests(bs, i, j);
    let make = rs[rs.len() - 1];
    assert(rs =~= head + tabs + seq![make]);
    let name = "NORMAL_TEXT"@;
    let fields = rs[1]->Paragraph_fields;
    assert(head =~= seq![
        RequestV::NoBullets { start, end },
        RequestV::Paragraph { start, end, named: name, fields },
    ]);
    law_masks();
    lemma_named(ps, i, j, name, fields);
    let named = all_after(ps, head);
    assert(hold_texts(named, bs)) by {
        assert forall|k: int| 0 <= k < bs.len() implies (#[trigger] named[k]).text == utf16(
            bs[k].text(),
        ) by {
            assert(ps[k].text == utf16(bs[k].text()));
        }
    }
    lemma_tabbed(named, bs, i, j);
    let mid = tabbed(named, bs, i, j);
    lemma_after_add(ps, head, tabs);
    lemma_after_add(ps, head + tabs, seq![make]);
    lemma_after_one(mid, make);
    lemma_at_block(named, bs, i);
    lemma_at_same(mid, named, i);
    let out = paragraphs_after(mid, make);
    let goal = Seq::new(
        ps.len(),
        |k: int|
            if i <= k < j {
                styled_as(bs[k])
            } else {
                ps[k]
            },
    );
    assert forall|k: int| 0 <= k < ps.len() implies out[k] == goal[k] by {
        lemma_reaches(mid, i, j, k);
        if i <= k < j {
            assert(bs[k].kind == bs[i].kind && tame(bs[k].text()));
            lemma_tame_units(bs[k].text());
            assert(named[k].text == utf16(bs[k].text()));
            lemma_leading_tabs(bs[k].depth as nat, utf16(bs[k].text()));
            assert(named_style(bs[k].kind) == name);
            assert(out[k] =~= goal[k]);
        }
    }
    assert(out =~= goal);
}

// ---------------------------------------------------------------------------
// The whole pass
// ---------------------------------------------------------------------------

/// The `k`-th paragraph after the pass.
pub open spec fn outcome(
    ps: Seq<Paragraph>,
    bs: Seq<BlockV>,
    set: Seq<bool>,
    k: int,
) -> Paragraph {
    if restyled(bs, set, k) {
        styled_as(bs[k])
    } else {
        ps[k]
    }
}

/// In a list that begins at `i` and ends before `j`, an item is restyled where a flag of the
/// list is set.
proof fn lemma_list_restyled(bs: Seq<BlockV>, set: Seq<bool>, i: int, j: int, k: int)
    requires
        0 <= i <= k < j <= bs.len(),
        list_kind_of(bs[i].kind),
        i > 0 ==> bs[i - 1].kind != bs[i].kind,
        j < bs.len() ==> bs[j].kind != bs[i].kind,
        forall|m: int| i <= m < j ==> (#[trigger] bs[m]).kind == bs[i].kind,
    ensures
        restyled(bs, set, k) == any_set(set, i, j),
{
    assert(bs[k].kind == bs[i].kind);
    if any_set(set, i, j) {
        let m = choose|m: int| i <= m < j && #[trigger] set[m];
        assert(bs[m].kind == bs[i].kind);
        assert(set[m] && (m == k || (m < k && one_list(bs, m, k)) || (k < m && one_list(bs, k, m))));
    }
    if restyled(bs, set, k) {
        let m = choose|m: int|
            0 <= m < bs.len() && #[trigger] set[m] && (m == k || (m < k && one_list(bs, m, k)) || (k
                < m && one_list(bs, k, m)));
        if m < i {
            assert(bs[i - 1].kind == bs[m].kind && bs[i].kind == bs[m].kind);
        }
        if j <= m {
            assert(bs[j].kind == bs[k].kind);
        }
        assert(i <= m < j && set[m]);
    }
}

proof fn lemma_pass(ps: Seq<Paragraph>, bs: Seq<BlockV>, set: Seq<bool>, i: int)
    requires
        hold_texts(ps, bs),
        all_tame(bs),
        0 <= i <= bs.len(),
        0 < i < bs.len() && list_kind_of(bs[i].kind) ==> bs[i - 1].kind != bs[i].kind,
    ensures
        ({
            let out = all_after(ps, style_from(bs, set, i));
            &&& out.len() == ps.len()
            &&& forall|k: int| 0 <= k < i ==> (#[trigger] out[k]) == ps[k]
            &&& forall|k: int| i <= k < bs.len() ==> (#[trigger] out[k]) == outcome(ps, bs, set, k)
        }),
    decreases bs.len() - i,
{
    if i < bs.len() {
        let kind = bs[i].kind;
        lemma_list_end(bs, kind, i + 1);
        let j = if list_kind_of(kind) {
            list_end(bs, kind, i + 1)
        } else {
            i + 1
        };
        let rest = style_from(bs, set, j);
        let worked = if list_kind_of(kind) {
            any_set(set, i, j)
        } else {
            set[i]
        };
        let own = if !worked {
            Seq::empty()
        } else if list_kind_of(kind) {
            list_requests(bs, i, j)
        } else {
            block_requests(kind, para_start(bs, i), para_start(bs, i + 1))
        };
        assert(style_from(bs, set, i) == own + rest);
        let mid = all_after(ps, own);
        assert(mid == Seq::new(
            ps.len(),
            |k: int|
                if worked && i <= k < j {
                    styled_as(bs[k])
                } else {
                    ps[k]
                },
        )) by {
            if !worked {
                assert(mid =~= Seq::new(
                    ps.len(),
                    |k: int|
                        if worked && i <= k < j {
                            styled_as(bs[k])
                        } else {
                            ps[k]
                        },
                ));
            } else if list_kind_of(kind) {
                assert forall|k: int| i <= k < j implies (#[trigger] bs[k]).kind == kind && tame(
                    bs[k].text(),
                ) by {
                    if i < k {
                        lemma_list_kind(bs, kind, i + 1, k);
                    }
                }
                lemma_list_styled(ps, bs, i, j);
                assert(mid =~= Seq::new(
                    ps.len(),
                    |k: int|
                        if worked && i <= k < j {
                            styled_as(bs[k])
                        } else {
                            ps[k]
                        },
                ));
            } else {
                lemma_at_block(ps, bs, i);
                lemma_at_block(ps, bs, i + 1);
                law_masks();
                lemma_named(ps, i, i + 1, named_style(kind), own[1]->Paragraph_fields);
                assert(own =~= seq![
                    RequestV::NoBullets { start: para_start(bs, i), end: para_start(bs, i + 1) },
                    RequestV::Paragraph {
                        start: para_start(bs, i),
                        end: para_start(bs, i + 1),
                        named: named_style(kind),
                        fields: own[1]->Paragraph_fields,
                    },
                ]);
                assert(ps[i].text == utf16(bs[i].text()));
                assert(mid =~= Seq::new(
                    ps.len(),
                    |k: int|
                        if worked && i <= k < j {
                            styled_as(bs[k])
                        } else {
                            ps[k]
                        },
                ));
            }
        }
        assert(hold_texts(mid, bs)) by {
            assert forall|k: int| 0 <= k < bs.len() implies (#[trigger] mid[k]).text == utf16(
                bs[k].text(),
            ) by {
                assert(ps[k].text == utf16(bs[k].text()));
            }
        }
        if list_kind_of(kind) {
            lemma_list_stops(bs, kind, i + 1);
        }
        lemma_after_add(ps, own, rest);
        if j < bs.len() && list_kind_of(bs[j].kind) {
            lemma_other_kind(bs, i, j);
        }
        lemma_pass(mid, bs, set, j);
        let out = all_after(mid, rest);
        assert forall|k: int| i <= k < bs.len() implies (#[trigger] out[k]) == outcome(
            ps,
            bs,
            set,
            k,
        ) by {
            if k < j {
                assert(out[k] == mid[k]);
                if list_kind_of(kind) {
                    assert forall|m: int| i <= m < j implies (#[trigger] bs[m]).kind == kind by {
                        if i < m {
                            lemma_list_kind(bs, kind, i + 1, m);
                        }
                    }
                    lemma_list_restyled(bs, set, i, j, k);
                } else {
                    lemma_alone(bs, set, i);
                }
            } else {
                assert(out[k] == outcome(mid, bs, set, k));
                assert(mid[k] == ps[k]);
            }
        }
        assert forall|k: int| 0 <= k < i implies (#[trigger] out[k]) == ps[k] by {
            assert(out[k] == mid[k]);
        }
    }
}

/// A list stops at a block of another kind.
proof fn lemma_list_stops(bs: Seq<BlockV>, kind: BlockKind, j: int)
    requires
        0 <= j <= bs.len(),
    ensures
        list_end(bs, kind, j) < bs.len() ==> bs[list_end(bs, kind, j)].kind != kind,
    decreases bs.len() - j,
{
    if j < bs.len() && bs[j].kind == kind {
        lemma_list_stops(bs, kind, j + 1);
    }
}

/// The block before the one where the scan goes on is of another kind.
proof fn lemma_other_kind(bs: Seq<BlockV>, i: int, j: int)
    requires
        0 <= i < j < bs.len(),
        list_kind_of(bs[j].kind),
        j == if list_kind_of(bs[i].kind) {
            list_end(bs, bs[i].kind, i + 1)
        } else {
            i + 1
        },
    ensures
        bs[j - 1].kind != bs[j].kind,
{
    if list_kind_of(bs[i].kind) {
        lemma_list_stops(bs, bs[i].kind, i + 1);
        if i < j - 1 {
            lemma_list_kind(bs, bs[i].kind, i + 1, j - 1);
        }
    }
}

/// A paragraph that is no list item is restyled where its own flag is set.
proof fn lemma_alone(bs: Seq<BlockV>, set: Seq<bool>, i: int)
    requires
        0 <= i < bs.len(),
        !list_kind_of(bs[i].kind),
    ensures
        restyled(bs, set, i) == set[i],
{
    if set[i] {
        assert(set[i] && i == i);
    }
    if restyled(bs, set, i) {
        let m = choose|m: int|
            0 <= m < bs.len() && #[trigger] set[m] && (m == i || (m < i && one_list(bs, m, i)) || (i
                < m && one_list(bs, i, m)));
        if m < i {
            assert(bs[i].kind == bs[m].kind);
        }
    }
}

/// After the paragraph pass every paragraph that needed work, or of whose list an item did,
/// has its named style, and where it is a list item, its list and its level; one that is no
/// list item is in none. Every other paragraph is as it was, and so is all text.
pub proof fn law_paragraph_styles(bs: Seq<BlockV>, set: Seq<bool>, ps: Seq<Paragraph>, i: int)
    requires
        hold_texts(ps, bs),
        all_tame(bs),
        0 <= i < bs.len(),
    ensures
        all_after(ps, style_from(bs, set, 0))[i] == if restyled(bs, set, i) {
            styled_as(bs[i])
        } else {
            ps[i]
        },
        set[i] ==> restyled(bs, set, i),
{
    lemma_pass(ps, bs, set, 0);
    if set[i] {
        assert(set[i] && i == i);
    }
}

/// When a list is made, each of its items starts with a tab for each of its levels.
pub proof fn law_tabs_are_levels(bs: Seq<BlockV>, ps: Seq<Paragraph>, i: int, j: int, k: int)
    requires
        hold_texts(ps, bs),
        all_tame(bs),
        0 <= i <= k < j <= bs.len(),
        one_list(bs, i, j - 1),
    ensures
        ({
            let rs = list_requests(bs, i, j);
            &&& rs.last() is Bullets
            &&& leading_tabs(all_after(ps, rs.drop_last())[k].text) == bs[k].depth
        }),
{
    let rs = list_requests(bs, i, j);
    let (start, end) = (para_start(bs, i), para_start(bs, j));
    lemma_at_block(ps, bs, i);
    lemma_at_block(ps, bs, j);
    let head = rs.take(2);
    let tabs = tab_requests(bs, i, j);
    let fields = rs[1]->Paragraph_fields;
    assert(rs.drop_last() =~= head + tabs);
    assert(head =~= seq![
        RequestV::NoBullets { start, end },
        RequestV::Paragraph { start, end, named: "NORMAL_TEXT"@, fields },
    ]);
    law_masks();
    lemma_named(ps, i, j, "NORMAL_TEXT"@, fields);
    let named = all_after(ps, head);
    assert(hold_texts(named, bs)) by {
        assert forall|m: int| 0 <= m < bs.len() implies (#[trigger] named[m]).text == utf16(
            bs[m].text(),
        ) by {
            assert(ps[m].text == utf16(bs[m].text()));
        }
    }
    lemma_tabbed(named, bs, i, j);
    lemma_after_add(ps, head, tabs);
    assert(bs[k].kind == bs[i].kind);
    lemma_tame_units(bs[k].text());
    assert(named[k].text == utf16(bs[k].text()));
    lemma_leading_tabs(bs[k].depth as nat, utf16(bs[k].text()));
}

/// Where every paragraph that is left alone has its style already, all have theirs after the
/// pass from `cur` to `des`.
pub proof fn law_all_styled(cur: Seq<BlockV>, des: Seq<BlockV>, ps: Seq<Paragraph>)
    requires
        hold_texts(ps, des),
        all_tame(des),
        ({
            let set = dirty(Pass::Paragraph, block_script(cur, des), cur, des);
            forall|k: int|
                0 <= k < des.len() && !restyled(des, set, k) ==> (#[trigger] ps[k]) == styled_as(
                    des[k],
                )
        }),
    ensures
        all_after(ps, paragraph_requests(cur, des)) == Seq::new(
            des.len(),
            |k: int| styled_as(des[k]),
        ),
{
    let set = dirty(Pass::Paragraph, block_script(cur, des), cur, des);
    lemma_pass(ps, des, set, 0);
    let out = all_after(ps, paragraph_requests(cur, des));
    assert(out =~= Seq::new(des.len(), |k: int| styled_as(des[k]))) by {
        assert forall|k: int| 0 <= k < des.len() implies out[k] == styled_as(des[k]) by {
            assert(out[k] == outcome(ps, des, set, k));
        }
    }
}

/// A paragraph that was inserted takes no style from its neighbours: whatever style and list
/// it landed in, it has its own named style after the pass, and its own list and level or
/// none.
pub proof fn law_inserted_styled(
    steps: Seq<EditStep>,
    cur: Seq<BlockV>,
    des: Seq<BlockV>,
    ps: Seq<Paragraph>,
    k: int,
    t: int,
)
    requires
        hold_texts(ps, des),
        all_tame(des),
        new_at(steps, steps.len() as int) == des.len(),
        0 <= k < steps.len(),
        steps[k].kind is Insert,
        0 <= t < steps[k].new_len,
    ensures
        ({
            let i = new_at(steps, k) + t;
            all_after(ps, style_from(des, dirty(Pass::Paragraph, steps, cur, des), 0))[i]
                == styled_as(des[i])
        }),
{
    law_flags(Pass::Paragraph, steps, cur, des, k, t);
    lemma_at_monotonic(steps, 0, k);
    lemma_at_monotonic(steps, k + 1, steps.len() as int);
    law_paragraph_styles(
        des,
        dirty(Pass::Paragraph, steps, cur, des),
        ps,
        new_at(steps, k) + t,
    );
}

} // verus!
