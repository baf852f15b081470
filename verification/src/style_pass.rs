//! The paragraph-style pass (headings and lists) and the inline-style pass (marks and
//! links).
use crate::blocks::{
    block_script, diff_blocks, dirty, dirty_blocks, lemma_no_flags, lemma_para_start, para_start,
    paragraph_ranges, Pass,
};
use crate::model::{
    block_views, is_list, list_kind_of, plain_style, runs_text, Block, BlockKind, BlockV, RunV,
    TextStyle,
};
use crate::request::{
    all_within, create_bullets, delete_bullets, indices_within, insert_text, lemma_within_add,
    name_style, request_views, style_request, update_text_style, Range, Request, RequestV,
    PARAGRAPH_FIELDS,
};
use crate::text::{lemma_utf16_len_add, push_repeat, repeat, to_chars, to_text, u16_len, utf16_len};
use vstd::prelude::*;

verus! {

pub const BULLET_PRESET: &'static str = "BULLET_DISC_CIRCLE_SQUARE";

pub const NUMBER_PRESET: &'static str = "NUMBERED_DECIMAL_ALPHA_ROMAN";

pub const CHECKBOX_PRESET: &'static str = "BULLET_CHECKBOX";

/// A number in decimal digits.
pub open spec fn decimal(n: nat) -> Seq<char>
    decreases n,
{
    let digit = ('0' as u32 + n % 10) as char;
    if n < 10 {
        seq![digit]
    } else {
        decimal(n / 10).push(digit)
    }
}

/// The character of a decimal digit.
fn digit_char(d: u8) -> (r: char)
    requires
        d < 10,
    ensures
        r == ('0' as u32 + d as nat % 10) as char,
{
    match d {
        0 => '0',
        1 => '1',
        2 => '2',
        3 => '3',
        4 => '4',
        5 => '5',
        6 => '6',
        7 => '7',
        8 => '8',
        _ => '9',
    }
}

/// Append a number in decimal digits.
fn push_decimal(out: &mut Vec<char>, n: u8)
    ensures
        final(out)@ == old(out)@ + decimal(n as nat),
    decreases n,
{
    if n >= 10 {
        push_decimal(out, n / 10);
    }
    out.push(digit_char(n % 10));
    assert(out@ =~= old(out)@ + decimal(n as nat)) by {
        assert((n % 10) as nat % 10 == n as nat % 10);
        assert((n / 10) as nat == n as nat / 10);
        if n >= 10 {
            assert(out@ =~= old(out)@ + decimal(n as nat / 10).push(out@.last()));
        } else {
            assert(out@ =~= old(out)@ + seq![out@.last()]);
        }
    }
}

/// The named style of a paragraph that is no list item.
pub open spec fn named_style(kind: BlockKind) -> Seq<char> {
    match kind {
        BlockKind::Heading(n) => "HEADING_"@ + decimal(n as nat),
        _ => "NORMAL_TEXT"@,
    }
}

/// The list preset of a list item.
pub open spec fn list_preset(kind: BlockKind) -> Seq<char> {
    match kind {
        BlockKind::Number => NUMBER_PRESET@,
        BlockKind::Checkbox => CHECKBOX_PRESET@,
        _ => BULLET_PRESET@,
    }
}

/// The requests for a paragraph that is no list item: out of its list, and its named
/// style.
pub open spec fn block_requests(kind: BlockKind, start: int, end: int) -> Seq<RequestV> {
    seq![
        RequestV::NoBullets { start, end },
        RequestV::Paragraph { start, end, named: named_style(kind), fields: PARAGRAPH_FIELDS@ },
    ]
}

/// The first block from `j` on that is not of this kind.
pub open spec fn list_end(bs: Seq<BlockV>, kind: BlockKind, j: int) -> int
    decreases bs.len() - j,
{
    if 0 <= j < bs.len() && bs[j].kind == kind {
        list_end(bs, kind, j + 1)
    } else {
        j
    }
}

/// A list ends behind where the search begins.
pub proof fn lemma_list_end(bs: Seq<BlockV>, kind: BlockKind, j: int)
    requires
        0 <= j <= bs.len(),
    ensures
        j <= list_end(bs, kind, j) <= bs.len(),
    decreases bs.len() - j,
{
    if j < bs.len() && bs[j].kind == kind {
        lemma_list_end(bs, kind, j + 1);
    }
}

/// The nesting levels of the blocks from `i` to `j`, added up.
pub open spec fn total_depth(bs: Seq<BlockV>, i: int, j: int) -> int
    decreases j - i,
{
    if i >= j {
        0
    } else {
        total_depth(bs, i, j - 1) + bs[j - 1].depth
    }
}

/// The sum over a part is no greater than the sum over the whole.
pub proof fn lemma_total_depth(bs: Seq<BlockV>, a: int, i: int, j: int, b: int)
    requires
        a <= i <= j <= b,
    ensures
        0 <= total_depth(bs, i, j) <= total_depth(bs, a, b),
    decreases b - a,
{
    if j < b {
        lemma_total_depth(bs, a, i, j, b - 1);
    } else if i < j {
        lemma_total_depth(bs, a, i, j - 1, b - 1);
    } else if a < i {
        lemma_total_depth(bs, a, i - 1, i - 1, b - 1);
    }
}

/// The requests that put the nesting tabs before the list items from `i` to `j`, the
/// last one first.
pub open spec fn tab_requests(bs: Seq<BlockV>, i: int, j: int) -> Seq<RequestV>
    decreases j - i,
{
    if i >= j {
        Seq::empty()
    } else {
        let rest = tab_requests(bs, i + 1, j);
        if bs[i].depth > 0 {
            rest.push(
                RequestV::Insert {
                    index: para_start(bs, i),
                    text: repeat('\t', bs[i].depth as nat),
                },
            )
        } else {
            rest
        }
    }
}

/// The requests that rebuild the list of the items from `i` to `j`: the range is taken
/// out of its lists, each item gets a tab per level, and one request makes it a list,
/// which consumes the tabs.
pub open spec fn list_requests(bs: Seq<BlockV>, i: int, j: int) -> Seq<RequestV> {
    let start = para_start(bs, i);
    let end = para_start(bs, j);
    seq![
        RequestV::NoBullets { start, end },
        RequestV::Paragraph { start, end, named: "NORMAL_TEXT"@, fields: PARAGRAPH_FIELDS@ },
    ] + tab_requests(bs, i, j) + seq![
        RequestV::Bullets {
            start,
            end: end + total_depth(bs, i, j),
            preset: list_preset(bs[i].kind),
        },
    ]
}

/// Some flag from `i` to `j` is set.
pub open spec fn any_set(flags: Seq<bool>, i: int, j: int) -> bool {
    exists|k: int| i <= k < j && #[trigger] flags[k]
}

/// The paragraph-style requests for the blocks from `i` on: for each block that is no
/// list item and needs work, and for each list of which an item needs work.
pub open spec fn style_from(bs: Seq<BlockV>, flags: Seq<bool>, i: int) -> Seq<RequestV>
    decreases bs.len() - i,
{
    proof {
        if 0 <= i < bs.len() {
            lemma_list_end(bs, bs[i].kind, i + 1);
        }
    }
    if i < 0 || i >= bs.len() {
        Seq::empty()
    } else if list_kind_of(bs[i].kind) {
        let j = list_end(bs, bs[i].kind, i + 1);
        (if any_set(flags, i, j) {
            list_requests(bs, i, j)
        } else {
            Seq::empty()
        }) + style_from(bs, flags, j)
    } else {
        (if flags[i] {
            block_requests(bs[i].kind, para_start(bs, i), para_start(bs, i + 1))
        } else {
            Seq::empty()
        }) + style_from(bs, flags, i + 1)
    }
}

/// The paragraph-style requests from `cur` to `des`.
pub open spec fn paragraph_requests(cur: Seq<BlockV>, des: Seq<BlockV>) -> Seq<RequestV> {
    style_from(des, dirty(Pass::Paragraph, block_script(cur, des), cur, des), 0)
}

/// The indices of the blocks and the tabs that they get fit in a `usize`.
pub open spec fn blocks_fit(bs: Seq<BlockV>) -> bool {
    para_start(bs, bs.len() as int) + total_depth(bs, 0, bs.len() as int) <= usize::MAX
}

/// Append the requests for a paragraph that is no list item.
fn style_block(out: &mut Vec<Request>, kind: BlockKind, range: Range)
    ensures
        request_views(final(out)@) == request_views(old(out)@) + block_requests(
            kind,
            range.start_index as int,
            range.end_index as int,
        ),
{
    out.push(delete_bullets(range));
    let named = match kind {
        BlockKind::Heading(n) => {
            let mut cs = to_chars("HEADING_");
            push_decimal(&mut cs, n);
            to_text(cs.as_slice())
        },
        _ => "NORMAL_TEXT".to_owned(),
    };
    out.push(name_style(range, named));
    assert(request_views(out@) =~= request_views(old(out)@) + block_requests(
        kind,
        range.start_index as int,
        range.end_index as int,
    ));
}

/// Append the requests that rebuild the list of the items from `i` to `j`.
fn rebuild_list_run(out: &mut Vec<Request>, desired: &[Block], ranges: &Vec<Range>, i: usize, j: usize)
    requires
        i < j <= desired@.len(),
        blocks_fit(block_views(desired@)),
        ranges@.len() == desired@.len(),
        forall|k: int|
            0 <= k < ranges@.len() ==> (#[trigger] ranges@[k]).start_index == para_start(
                block_views(desired@),
                k,
            ) && ranges@[k].end_index == para_start(block_views(desired@), k + 1),
    ensures
        request_views(final(out)@) == request_views(old(out)@) + list_requests(
            block_views(desired@),
            i as int,
            j as int,
        ),
{
    let ghost bs = block_views(desired@);
    let start: usize = ranges[i].start_index;
    let end: usize = ranges[j - 1].end_index;
    let range = Range { start_index: start, end_index: end };
    out.push(delete_bullets(range));
    out.push(name_style(range, "NORMAL_TEXT".to_owned()));
    let ghost head = request_views(out@);
    assert(head =~= request_views(old(out)@) + seq![
        RequestV::NoBullets { start: start as int, end: end as int },
        RequestV::Paragraph {
            start: start as int,
            end: end as int,
            named: "NORMAL_TEXT"@,
            fields: PARAGRAPH_FIELDS@,
        },
    ]);
    let mut tabs: usize = 0;
    let mut k: usize = j;
    assert(head + tab_requests(bs, j as int, j as int) =~= head);
    proof {
        lemma_para_start(bs, 0, bs.len() as int);
    }
    while k > i
        invariant
            i <= k <= j <= desired@.len(),
            bs == block_views(desired@),
            blocks_fit(bs),
            para_start(bs, bs.len() as int) >= 1,
            ranges@.len() == desired@.len(),
            forall|q: int|
                0 <= q < ranges@.len() ==> (#[trigger] ranges@[q]).start_index == para_start(bs, q),
            tabs == total_depth(bs, k as int, j as int),
            request_views(out@) == head + tab_requests(bs, k as int, j as int),
        decreases k,
    {
        let ghost before = request_views(out@);
        k = k - 1;
        let depth: usize = desired[k].depth as usize;
        assert(bs[k as int].depth == depth);
        if depth > 0 {
            let mut cs: Vec<char> = Vec::new();
            push_repeat(&mut cs, '\t', depth);
            assert(cs@ =~= repeat('\t', depth as nat));
            let at: usize = ranges[k].start_index;
            out.push(insert_text(at, to_text(cs.as_slice())));
            assert(request_views(out@) =~= before.push(
                RequestV::Insert {
                    index: para_start(bs, k as int),
                    text: repeat('\t', depth as nat),
                },
            ));
        }
        assert(request_views(out@) =~= head + tab_requests(bs, k as int, j as int));
        proof {
            lemma_total_depth(bs, 0, k as int, j as int, bs.len() as int);
            lemma_depth_front(bs, k as int, j as int);
        }
        tabs = tabs + depth;
    }
    proof {
        lemma_total_depth(bs, 0, i as int, j as int, bs.len() as int);
        lemma_para_start(bs, j as int, bs.len() as int);
    }
    let preset = match desired[i].kind {
        BlockKind::Number => NUMBER_PRESET,
        BlockKind::Checkbox => CHECKBOX_PRESET,
        _ => BULLET_PRESET,
    };
    let ghost before = request_views(out@);
    out.push(create_bullets(Range { start_index: start, end_index: end + tabs }, preset));
    assert(bs[i as int].kind == desired@[i as int].kind);
    assert(request_views(out@) =~= before.push(
        RequestV::Bullets {
            start: start as int,
            end: end + total_depth(bs, i as int, j as int),
            preset: list_preset(bs[i as int].kind),
        },
    ));
    assert(request_views(out@) =~= request_views(old(out)@) + list_requests(
        bs,
        i as int,
        j as int,
    ));
}

/// The sum of the levels, with its first term taken out.
pub proof fn lemma_depth_front(bs: Seq<BlockV>, i: int, j: int)
    requires
        i < j,
    ensures
        total_depth(bs, i, j) == bs[i].depth + total_depth(bs, i + 1, j),
    decreases j - i,
{
    if i < j - 1 {
        lemma_depth_front(bs, i, j - 1);
    } else {
        assert(total_depth(bs, i, j) == total_depth(bs, i, i) + bs[i].depth);
        assert(total_depth(bs, i, i) == 0);
        assert(total_depth(bs, i + 1, j) == 0);
    }
}

/// The paragraph-style requests for the blocks that need work.
pub fn style_requests_for(desired: &[Block], flags: &[bool]) -> (r: Vec<Request>)
    requires
        flags@.len() == desired@.len(),
        blocks_fit(block_views(desired@)),
    ensures
        request_views(r@) == style_from(block_views(desired@), flags@, 0),
{
    let ghost bs = block_views(desired@);
    proof {
        lemma_total_depth(bs, 0, 0, 0, bs.len() as int);
    }
    let ranges = paragraph_ranges(desired);
    let n: usize = desired.len();
    let mut out: Vec<Request> = Vec::new();
    let mut i: usize = 0;
    assert(request_views(out@) + style_from(bs, flags@, 0) =~= style_from(bs, flags@, 0));
    while i < n
        invariant
            n == desired@.len(),
            i <= n,
            flags@.len() == n,
            bs == block_views(desired@),
            blocks_fit(bs),
            ranges@.len() == n,
            forall|k: int|
                0 <= k < ranges@.len() ==> (#[trigger] ranges@[k]).start_index == para_start(bs, k)
                    && ranges@[k].end_index == para_start(bs, k + 1),
            request_views(out@) + style_from(bs, flags@, i as int) == style_from(bs, flags@, 0),
        decreases n - i,
    {
        let kind = desired[i].kind;
        let ghost before = request_views(out@);
        assert(bs[i as int].kind == kind);
        if is_list(&kind) {
            let mut any = flags[i];
            let mut j: usize = i + 1;
            while j < n && desired[j].kind == kind
                invariant
                    n == desired@.len(),
                    flags@.len() == n,
                    i < j <= n,
                    bs == block_views(desired@),
                    list_end(bs, kind, i + 1) == list_end(bs, kind, j as int),
                    any == any_set(flags@, i as int, j as int),
                decreases n - j,
            {
                assert(bs[j as int].kind == kind);
                let set = flags[j];
                proof {
                    if any {
                        let w = choose|k: int| i <= k < j && #[trigger] flags@[k];
                        assert(i <= w < j + 1 && flags@[w]);
                    }
                    if set {
                        assert(i <= j < j + 1 && flags@[j as int]);
                    }
                }
                any = any || set;
                j = j + 1;
            }
            assert(j < n ==> bs[j as int].kind != kind);
            assert(list_end(bs, kind, j as int) == j);
            if any {
                rebuild_list_run(&mut out, desired, &ranges, i, j);
                assert(request_views(out@) + style_from(bs, flags@, j as int) =~= before + (
                list_requests(bs, i as int, j as int) + style_from(bs, flags@, j as int)));
            } else {
                assert(before + (Seq::<RequestV>::empty() + style_from(bs, flags@, j as int))
                    =~= before + style_from(bs, flags@, j as int));
            }
            i = j;
        } else {
            if flags[i] {
                style_block(&mut out, kind, ranges[i]);
                assert(request_views(out@) + style_from(bs, flags@, i + 1) =~= before + (
                block_requests(kind, para_start(bs, i as int), para_start(bs, i + 1)) + style_from(
                    bs,
                    flags@,
                    i + 1,
                )));
            } else {
                assert(before + (Seq::<RequestV>::empty() + style_from(bs, flags@, i + 1))
                    =~= before + style_from(bs, flags@, i + 1));
            }
            i = i + 1;
        }
    }
    assert(request_views(out@) + style_from(bs, flags@, n as int) =~= request_views(out@));
    out
}

/// Where no block needs work, there is no paragraph-style request.
pub proof fn lemma_style_none(bs: Seq<BlockV>, flags: Seq<bool>, i: int)
    requires
        0 <= i <= bs.len(),
        flags.len() == bs.len(),
        forall|k: int| 0 <= k < flags.len() ==> !(#[trigger] flags[k]),
    ensures
        style_from(bs, flags, i) == Seq::<RequestV>::empty(),
    decreases bs.len() - i,
{
    if i < bs.len() {
        lemma_list_end(bs, bs[i].kind, i + 1);
        let j = if list_kind_of(bs[i].kind) {
            list_end(bs, bs[i].kind, i + 1)
        } else {
            i + 1
        };
        lemma_style_none(bs, flags, j);
        assert(!any_set(flags, i, j));
        assert(style_from(bs, flags, i) =~= Seq::<RequestV>::empty());
    }
}

/// The tab requests stay within the paragraphs.
proof fn lemma_tabs_within(bs: Seq<BlockV>, i: int, j: int)
    requires
        0 <= i <= j <= bs.len(),
    ensures
        all_within(tab_requests(bs, i, j), para_start(bs, bs.len() as int)),
    decreases j - i,
{
    if i < j {
        lemma_tabs_within(bs, i + 1, j);
        lemma_para_start(bs, i, bs.len() as int);
    }
}

/// The paragraph-style requests stay within the paragraphs and their tabs.
pub proof fn lemma_style_within(bs: Seq<BlockV>, flags: Seq<bool>, i: int)
    requires
        0 <= i <= bs.len(),
    ensures
        all_within(
            style_from(bs, flags, i),
            para_start(bs, bs.len() as int) + total_depth(bs, 0, bs.len() as int),
        ),
    decreases bs.len() - i,
{
    let n = bs.len() as int;
    let max = para_start(bs, n) + total_depth(bs, 0, n);
    if i < n {
        lemma_list_end(bs, bs[i].kind, i + 1);
        if list_kind_of(bs[i].kind) {
            let j = list_end(bs, bs[i].kind, i + 1);
            lemma_style_within(bs, flags, j);
            lemma_tabs_within(bs, i, j);
            lemma_para_start(bs, i, j);
            lemma_para_start(bs, j, n);
            lemma_total_depth(bs, 0, i, j, n);
            let start = para_start(bs, i);
            let end = para_start(bs, j);
            let head = seq![
                RequestV::NoBullets { start, end },
                RequestV::Paragraph {
                    start,
                    end,
                    named: "NORMAL_TEXT"@,
                    fields: PARAGRAPH_FIELDS@,
                },
            ];
            let tabs = tab_requests(bs, i, j);
            assert forall|k: int| 0 <= k < tabs.len() implies indices_within(
                #[trigger] tabs[k],
                max,
            ) by {
                assert(indices_within(tabs[k], para_start(bs, n)));
            }
            let last = seq![
                RequestV::Bullets {
                    start,
                    end: end + total_depth(bs, i, j),
                    preset: list_preset(bs[i].kind),
                },
            ];
            lemma_within_add(head, tabs, max);
            lemma_within_add(head + tabs, last, max);
            lemma_within_add(list_requests(bs, i, j), style_from(bs, flags, j), max);
            lemma_within_add(Seq::empty(), style_from(bs, flags, j), max);
        } else {
            lemma_style_within(bs, flags, i + 1);
            lemma_para_start(bs, i, i + 1);
            lemma_para_start(bs, i + 1, n);
            lemma_total_depth(bs, 0, 0, 0, n);
            lemma_within_add(
                block_requests(bs[i].kind, para_start(bs, i), para_start(bs, i + 1)),
                style_from(bs, flags, i + 1),
                max,
            );
            lemma_within_add(Seq::empty(), style_from(bs, flags, i + 1), max);
        }
    }
}

/// Heading and list requests for blocks that were inserted or whose kind or level
/// changed. Paragraphs that are no list items are handled one by one. A list is a run
/// of items of one kind; if anything in it changed, it is rebuilt as a whole. Every
/// rebuilt list keeps its text, so all requests count in the same indices.
pub fn style_requests(current: &[Block], desired: &[Block]) -> (r: Vec<Request>)
    requires
        blocks_fit(block_views(desired@)),
    ensures
        request_views(r@) == paragraph_requests(block_views(current@), block_views(desired@)),
        block_views(current@) == block_views(desired@) ==> r@.len() == 0,
        all_within(
            request_views(r@),
            para_start(block_views(desired@), desired@.len() as int) + total_depth(
                block_views(desired@),
                0,
                desired@.len() as int,
            ),
        ),
{
    let steps = diff_blocks(current, desired);
    let flags = dirty_blocks(Pass::Paragraph, steps.as_slice(), current, desired);
    proof {
        lemma_style_within(block_views(desired@), flags@, 0);
        if block_views(current@) == block_views(desired@) {
            lemma_no_flags(
                Pass::Paragraph,
                steps@,
                block_views(current@),
                block_views(desired@),
                steps@.len() as int,
            );
            lemma_style_none(block_views(desired@), flags@, 0);
        }
    }
    let r = style_requests_for(desired, flags.as_slice());
    assert(request_views(r@).len() == r@.len());
    r
}

// ---------------------------------------------------------------------------
// Inline-style pass
// ---------------------------------------------------------------------------

/// The requests that set the marks and links of the runs from `i` on, in a paragraph
/// whose text starts at `start`. A plain run needs none.
pub open spec fn run_requests(runs: Seq<RunV>, start: int, i: int) -> Seq<RequestV>
    decreases runs.len() - i,
{
    if i < 0 || i >= runs.len() {
        Seq::empty()
    } else {
        let r = runs[i];
        let from = start + utf16_len(runs_text(runs.take(i)));
        let to = start + utf16_len(runs_text(runs.take(i + 1)));
        (if from < to && !r.plain() {
            seq![style_request(from, to, r.style, r.link)]
        } else {
            Seq::empty()
        }) + run_requests(runs, start, i + 1)
    }
}

/// The requests that restyle a paragraph whose text starts at `start`: all of it is
/// cleared, then each run that carries a mark or a link is set. An empty paragraph
/// needs none.
pub open spec fn restyle_requests(b: BlockV, start: int) -> Seq<RequestV> {
    let len = utf16_len(b.text());
    if len == 0 {
        Seq::empty()
    } else {
        seq![style_request(start, start + len, plain_style(), None)] + run_requests(
            b.runs,
            start,
            0,
        )
    }
}

/// The inline-style requests for the blocks from `i` on.
pub open spec fn inline_from(bs: Seq<BlockV>, flags: Seq<bool>, i: int) -> Seq<RequestV>
    decreases bs.len() - i,
{
    if i < 0 || i >= bs.len() {
        Seq::empty()
    } else {
        (if flags[i] {
            restyle_requests(bs[i], para_start(bs, i))
        } else {
            Seq::empty()
        }) + inline_from(bs, flags, i + 1)
    }
}

/// The inline-style requests from `cur` to `des`.
pub open spec fn inline_requests(cur: Seq<BlockV>, des: Seq<BlockV>) -> Seq<RequestV> {
    inline_from(des, dirty(Pass::Inline, block_script(cur, des), cur, des), 0)
}

/// The text of the first runs is a prefix of the text of all.
proof fn lemma_runs_text_take(runs: Seq<RunV>, i: int)
    requires
        0 <= i < runs.len(),
    ensures
        runs_text(runs.take(i + 1)) == runs_text(runs.take(i)) + runs[i].text,
        utf16_len(runs_text(runs.take(i + 1))) == utf16_len(runs_text(runs.take(i))) + utf16_len(
            runs[i].text,
        ),
        utf16_len(runs_text(runs.take(i + 1))) <= utf16_len(runs_text(runs)),
    decreases runs.len() - i,
{
    assert(runs.take(i + 1).drop_last() =~= runs.take(i));
    lemma_utf16_len_add(runs_text(runs.take(i)), runs[i].text);
    if i + 1 < runs.len() {
        lemma_runs_text_take(runs, i + 1);
    } else {
        assert(runs.take(i + 1) =~= runs);
    }
}

/// Append the requests that restyle a paragraph whose text starts at `start`.
fn restyle(out: &mut Vec<Request>, b: &Block, start: usize)
    requires
        start + utf16_len(b@.text()) <= usize::MAX,
    ensures
        request_views(final(out)@) == request_views(old(out)@) + restyle_requests(
            b@,
            start as int,
        ),
{
    let text = b.text();
    let len: usize = u16_len(text.as_str());
    if len == 0 {
        assert(request_views(out@) + Seq::<RequestV>::empty() =~= request_views(out@));
        return;
    }
    let ghost before = request_views(out@);
    out.push(
        update_text_style(
            Range { start_index: start, end_index: start + len },
            TextStyle { bold: false, italic: false, strikethrough: false },
            None,
        ),
    );
    let ghost runs = b@.runs;
    let ghost goal = before + restyle_requests(b@, start as int);
    assert(request_views(out@) + run_requests(runs, start as int, 0) =~= goal);
    let n: usize = b.runs.len();
    let mut off: usize = 0;
    assert(runs.take(0) =~= Seq::<RunV>::empty());
    for i in 0..n
        invariant
            n == b.runs@.len(),
            runs == b@.runs,
            start + utf16_len(b@.text()) <= usize::MAX,
            off == utf16_len(runs_text(runs.take(i as int))),
            off <= utf16_len(b@.text()),
            request_views(out@) + run_requests(runs, start as int, i as int) == goal,
    {
        let ghost mid = request_views(out@);
        proof {
            lemma_runs_text_take(runs, i as int);
        }
        let run = &b.runs[i];
        assert(runs[i as int] == run@);
        let len: usize = u16_len(run.text.as_str());
        let ghost rest = run_requests(runs, start as int, i + 1);
        if len > 0 && !run.is_plain() {
            let url = match &run.link {
                Some(u) => Some(u.as_str()),
                None => None,
            };
            let range = Range { start_index: start + off, end_index: start + off + len };
            out.push(update_text_style(range, run.style, url));
            assert(request_views(out@) =~= mid.push(
                style_request(start + off, start + off + len, run@.style, run@.link),
            ));
            assert(request_views(out@) + rest =~= mid + (seq![
                style_request(start + off, start + off + len, run@.style, run@.link),
            ] + rest));
        } else {
            assert(mid + (Seq::<RequestV>::empty() + rest) =~= mid + rest);
        }
        off = off + len;
    }
    assert(request_views(out@) + run_requests(runs, start as int, n as int) =~= request_views(
        out@,
    ));
}

/// The inline-style requests for the blocks that need work.
pub fn inline_requests_for(desired: &[Block], flags: &[bool]) -> (r: Vec<Request>)
    requires
        flags@.len() == desired@.len(),
        para_start(block_views(desired@), desired@.len() as int) <= usize::MAX,
    ensures
        request_views(r@) == inline_from(block_views(desired@), flags@, 0),
{
    let ghost bs = block_views(desired@);
    let ranges = paragraph_ranges(desired);
    let n: usize = desired.len();
    let mut out: Vec<Request> = Vec::new();
    assert(request_views(out@) + inline_from(bs, flags@, 0) =~= inline_from(bs, flags@, 0));
    for i in 0..n
        invariant
            n == desired@.len(),
            flags@.len() == n,
            bs == block_views(desired@),
            para_start(bs, n as int) <= usize::MAX,
            ranges@.len() == n,
            forall|k: int|
                0 <= k < ranges@.len() ==> (#[trigger] ranges@[k]).start_index == para_start(bs, k),
            request_views(out@) + inline_from(bs, flags@, i as int) == inline_from(bs, flags@, 0),
    {
        let ghost before = request_views(out@);
        let ghost rest = inline_from(bs, flags@, i + 1);
        proof {
            lemma_para_start(bs, i + 1, n as int);
        }
        assert(bs[i as int] == desired@[i as int]@);
        if flags[i] {
            restyle(&mut out, &desired[i], ranges[i].start_index);
            assert(request_views(out@) + rest =~= before + (restyle_requests(
                bs[i as int],
                para_start(bs, i as int),
            ) + rest));
        } else {
            assert(before + (Seq::<RequestV>::empty() + rest) =~= before + rest);
        }
    }
    assert(request_views(out@) + inline_from(bs, flags@, n as int) =~= request_views(out@));
    out
}

/// Where no block needs work, there is no inline-style request.
pub proof fn lemma_inline_none(bs: Seq<BlockV>, flags: Seq<bool>, i: int)
    requires
        0 <= i <= bs.len(),
        flags.len() == bs.len(),
        forall|k: int| 0 <= k < flags.len() ==> !(#[trigger] flags[k]),
    ensures
        inline_from(bs, flags, i) == Seq::<RequestV>::empty(),
    decreases bs.len() - i,
{
    if i < bs.len() {
        lemma_inline_none(bs, flags, i + 1);
        assert(inline_from(bs, flags, i) =~= Seq::<RequestV>::empty());
    }
}

/// The requests of a paragraph's runs stay within the paragraph.
proof fn lemma_runs_within(runs: Seq<RunV>, start: int, i: int)
    requires
        0 <= start,
        0 <= i <= runs.len(),
    ensures
        all_within(run_requests(runs, start, i), start + utf16_len(runs_text(runs))),
    decreases runs.len() - i,
{
    if i < runs.len() {
        lemma_runs_within(runs, start, i + 1);
        lemma_runs_text_take(runs, i);
        let max = start + utf16_len(runs_text(runs));
        let from = start + utf16_len(runs_text(runs.take(i)));
        let to = start + utf16_len(runs_text(runs.take(i + 1)));
        lemma_within_add(
            seq![style_request(from, to, runs[i].style, runs[i].link)],
            run_requests(runs, start, i + 1),
            max,
        );
        lemma_within_add(Seq::empty(), run_requests(runs, start, i + 1), max);
    }
}

/// The inline-style requests stay within the paragraphs.
pub proof fn lemma_inline_within(bs: Seq<BlockV>, flags: Seq<bool>, i: int)
    requires
        0 <= i <= bs.len(),
    ensures
        all_within(inline_from(bs, flags, i), para_start(bs, bs.len() as int)),
    decreases bs.len() - i,
{
    let n = bs.len() as int;
    let max = para_start(bs, n);
    if i < n {
        lemma_inline_within(bs, flags, i + 1);
        lemma_para_start(bs, i, i);
        lemma_para_start(bs, i + 1, n);
        let start = para_start(bs, i);
        let len = utf16_len(bs[i].text());
        let own = run_requests(bs[i].runs, start, 0);
        lemma_runs_within(bs[i].runs, start, 0);
        assert forall|k: int| 0 <= k < own.len() implies indices_within(#[trigger] own[k], max) by {
            assert(indices_within(own[k], start + len));
        }
        lemma_within_add(seq![style_request(start, start + len, plain_style(), None)], own, max);
        lemma_within_add(restyle_requests(bs[i], start), inline_from(bs, flags, i + 1), max);
        lemma_within_add(Seq::empty(), inline_from(bs, flags, i + 1), max);
    }
}

/// `updateTextStyle` requests for paragraphs that were inserted or that gained or lost
/// marks. The whole text of such a paragraph is cleared first, so that removed and
/// inherited marks go, then each styled run is set.
pub fn inline_style_requests(current: &[Block], desired: &[Block]) -> (r: Vec<Request>)
    requires
        para_start(block_views(desired@), desired@.len() as int) <= usize::MAX,
    ensures
        request_views(r@) == inline_requests(block_views(current@), block_views(desired@)),
        block_views(current@) == block_views(desired@) ==> r@.len() == 0,
        all_within(
            request_views(r@),
            para_start(block_views(desired@), desired@.len() as int),
        ),
{
    let steps = diff_blocks(current, desired);
    let flags = dirty_blocks(Pass::Inline, steps.as_slice(), current, desired);
    proof {
        lemma_inline_within(block_views(desired@), flags@, 0);
        if block_views(current@) == block_views(desired@) {
            lemma_no_flags(
                Pass::Inline,
                steps@,
                block_views(current@),
                block_views(desired@),
                steps@.len() as int,
            );
            lemma_inline_none(block_views(desired@), flags@, 0);
        }
    }
    let r = inline_requests_for(desired, flags.as_slice());
    assert(request_views(r@).len() == r@.len());
    r
}

} // verus!
