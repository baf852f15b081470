//! Incremental sync over paragraph segments.
use crate::blocks::{lemma_para_start, para_start};
use crate::list_laws::{law_region_reached, list_apply_all16, tame};
use crate::model::{
    block_views, copy_blocks, list_kind_of, node_views, Block, BlockV, DocModel, Node, NodeV,
    OBJECT_SENTINEL,
};
use crate::object_laws::{edits_around, inserts_none, lemma_no_object};
use crate::render::plain_text;
use crate::request::{
    all_within, indices_within, request_views, shift_all, shift_request, Request, RequestV,
};
use crate::style_pass::{
    inline_requests, inline_style_requests, lemma_total_depth, paragraph_requests, style_requests,
    total_depth,
};
use crate::sync_laws::{lemma_final_stays, lemma_one_run, lemma_unit_effect};
use crate::text::{lemma_find_char, lemma_utf16_len_add, position, to_chars, u16_len, utf16_len};
use crate::text_laws::{
    all_proper, all_spare, applied16, apply_all16, lemma_apply_one16, lemma_utf16_length, proper,
    spares, utf16,
};
use crate::text_pass::{
    body_requests, diff_to_requests, doc_text_requests, ends_line, text_requests,
};
use vstd::prelude::*;

verus! {

/// A run of consecutive paragraphs between barriers or document ends, with its start
/// index in the document.
#[derive(Debug)]
pub struct ParaSegment {
    pub start_index: usize,
    pub blocks: Vec<Block>,
}

/// What a [`ParaSegment`] holds.
#[verifier::ext_equal]
pub struct SegmentV {
    pub start: int,
    pub blocks: Seq<BlockV>,
}

impl View for ParaSegment {
    type V = SegmentV;

    open spec fn view(&self) -> SegmentV {
        SegmentV { start: self.start_index as int, blocks: block_views(self.blocks@) }
    }
}

impl Clone for ParaSegment {
    fn clone(&self) -> (r: ParaSegment)
        ensures
            r@ == self@,
    {
        ParaSegment {
            start_index: self.start_index,
            blocks: copy_blocks(self.blocks.as_slice()),
        }
    }
}

/// What each segment holds.
pub open spec fn segment_views(s: Seq<ParaSegment>) -> Seq<SegmentV> {
    Seq::new(s.len(), |i: int| s[i]@)
}

/// What each list of blocks holds.
pub open spec fn list_views(s: Seq<Vec<Block>>) -> Seq<Seq<BlockV>> {
    Seq::new(s.len(), |i: int| block_views(s[i]@))
}

/// The paragraph runs of a model, cut at its barriers.
pub open spec fn paragraph_runs(nodes: Seq<NodeV>) -> Seq<Seq<BlockV>>
    decreases nodes.len(),
{
    if nodes.len() == 0 {
        seq![Seq::empty()]
    } else {
        let before = paragraph_runs(nodes.drop_last());
        match nodes.last() {
            NodeV::Para(b) => before.drop_last().push(before.last().push(b)),
            _ => before.push(Seq::empty()),
        }
    }
}

/// How many barriers there are.
pub open spec fn barrier_count(nodes: Seq<NodeV>) -> nat
    decreases nodes.len(),
{
    if nodes.len() == 0 {
        0
    } else {
        barrier_count(nodes.drop_last()) + if nodes.last().barrier() {
            1nat
        } else {
            0nat
        }
    }
}

/// There is one more paragraph run than there are barriers.
pub proof fn law_run_count(nodes: Seq<NodeV>)
    ensures
        paragraph_runs(nodes).len() == barrier_count(nodes) + 1,
    decreases nodes.len(),
{
    if nodes.len() > 0 {
        law_run_count(nodes.drop_last());
    }
}

/// Split a model into its paragraph runs: one more than it has barriers.
pub fn split_paragraph_runs(model: &DocModel) -> (r: Vec<Vec<Block>>)
    ensures
        list_views(r@) == paragraph_runs(node_views(model@)),
        r@.len() == barrier_count(node_views(model@)) + 1,
{
    let ghost all = node_views(model@);
    let n: usize = model.len();
    let mut runs: Vec<Vec<Block>> = Vec::new();
    let mut cur: Vec<Block> = Vec::new();
    assert(all.take(0) =~= Seq::<NodeV>::empty());
    assert(block_views(cur@) =~= Seq::<BlockV>::empty());
    assert(list_views(runs@).push(block_views(cur@)) =~= paragraph_runs(all.take(0)));
    for i in 0..n
        invariant
            n == model@.len(),
            all == node_views(model@),
            list_views(runs@).push(block_views(cur@)) == paragraph_runs(all.take(i as int)),
    {
        let ghost before = list_views(runs@);
        let ghost was = block_views(cur@);
        assert(all.take(i + 1).drop_last() =~= all.take(i as int));
        assert(all.take(i + 1).last() == model@[i as int]@);
        match &model[i] {
            Node::Para(b) => {
                cur.push(b.clone());
                assert(block_views(cur@) =~= was.push(b@));
                assert(before.push(was).drop_last() =~= before);
            },
            _ => {
                runs.push(cur);
                cur = Vec::new();
                assert(block_views(cur@) =~= Seq::<BlockV>::empty());
                assert(list_views(runs@) =~= before.push(was));
            },
        }
    }
    let ghost before = list_views(runs@);
    runs.push(cur);
    assert(list_views(runs@) =~= before.push(block_views(cur@)));
    assert(all.take(n as int) =~= all);
    proof {
        law_run_count(all);
        assert(list_views(runs@).len() == runs@.len());
    }
    runs
}

/// The plain text of blocks: each one's text and a line feed.
pub open spec fn blocks_plain(bs: Seq<BlockV>) -> Seq<char>
    decreases bs.len(),
{
    if bs.len() == 0 {
        Seq::empty()
    } else {
        blocks_plain(bs.drop_last()) + bs.last().text() + seq!['\n']
    }
}

/// The plain text ends where the paragraph behind the last one would start.
pub proof fn lemma_plain_len(bs: Seq<BlockV>)
    ensures
        utf16_len(blocks_plain(bs)) + 1 == para_start(bs, bs.len() as int),
    decreases bs.len(),
{
    if bs.len() > 0 {
        let init = bs.drop_last();
        lemma_plain_len(init);
        lemma_para_start_prefix(bs, init, init.len() as int);
        lemma_utf16_len_add(blocks_plain(init), bs.last().text());
        lemma_utf16_len_add(blocks_plain(init) + bs.last().text(), seq!['\n']);
        assert(utf16_len(seq!['\n']) == 1) by {
            reveal_with_fuel(utf16_len, 2);
            assert(seq!['\n'].drop_last() =~= Seq::<char>::empty());
        }
    }
}

/// Where a paragraph starts depends on those before it alone.
pub proof fn lemma_para_start_prefix(a: Seq<BlockV>, b: Seq<BlockV>, i: int)
    requires
        0 <= i <= a.len(),
        i <= b.len(),
        forall|k: int| 0 <= k < i ==> a[k] == b[k],
    ensures
        para_start(a, i) == para_start(b, i),
    decreases i,
{
    if i > 0 {
        lemma_para_start_prefix(a, b, i - 1);
    }
}

/// The plain text of blocks: each one's text and a line feed.
fn blocks_to_plain(blocks: &[Block]) -> (r: String)
    ensures
        r@ == blocks_plain(block_views(blocks@)),
{
    let ghost all = block_views(blocks@);
    let n: usize = blocks.len();
    let mut out = String::new();
    assert(all.take(0) =~= Seq::<BlockV>::empty());
    assert(out@ =~= blocks_plain(all.take(0)));
    for i in 0..n
        invariant
            n == blocks@.len(),
            all == block_views(blocks@),
            out@ == blocks_plain(all.take(i as int)),
    {
        let ghost before = out@;
        let text = blocks[i].text();
        out.append(text.as_str());
        out.push('\n');
        assert(all.take(i + 1).drop_last() =~= all.take(i as int));
        assert(all.take(i + 1).last() == blocks@[i as int]@);
        assert(out@ =~= before + text@ + seq!['\n']);
    }
    assert(all.take(n as int) =~= all);
    out
}

/// One contiguous editable region, a paragraph segment or a table cell, with its start
/// index, what it holds and what it should hold. `final_newline` tells that the region
/// ends with a line feed that cannot be moved.
pub struct EditUnit {
    pub start_index: usize,
    pub cur: Vec<Block>,
    pub des: Vec<Block>,
    pub final_newline: bool,
}

/// What an [`EditUnit`] holds.
#[verifier::ext_equal]
pub struct UnitV {
    pub start: int,
    pub cur: Seq<BlockV>,
    pub des: Seq<BlockV>,
    pub final_newline: bool,
}

impl View for EditUnit {
    type V = UnitV;

    open spec fn view(&self) -> UnitV {
        UnitV {
            start: self.start_index as int,
            cur: block_views(self.cur@),
            des: block_views(self.des@),
            final_newline: self.final_newline,
        }
    }
}

/// The request can be made: it inserts no inline object, which cannot be created, and
/// deletes no empty range.
pub open spec fn feasible(r: RequestV) -> bool {
    match r {
        RequestV::Insert { text, .. } => !text.contains(OBJECT_SENTINEL),
        RequestV::Delete { start, end } => start < end,
        _ => true,
    }
}

/// The requests that can be made, in their order.
pub open spec fn sift(rs: Seq<RequestV>) -> Seq<RequestV>
    decreases rs.len(),
{
    if rs.len() == 0 {
        rs
    } else if feasible(rs.last()) {
        sift(rs.drop_last()).push(rs.last())
    } else {
        sift(rs.drop_last())
    }
}

/// Sifted requests are feasible and among the given ones.
pub proof fn lemma_sift(rs: Seq<RequestV>)
    ensures
        forall|i: int|
            0 <= i < sift(rs).len() ==> feasible(#[trigger] sift(rs)[i]) && rs.contains(
                sift(rs)[i],
            ),
        sift(rs).len() <= rs.len(),
    decreases rs.len(),
{
    if rs.len() > 0 {
        let init = rs.drop_last();
        lemma_sift(init);
        assert forall|i: int| 0 <= i < sift(rs).len() implies feasible(#[trigger] sift(rs)[i])
            && rs.contains(sift(rs)[i]) by {
            if i < sift(init).len() {
                assert(init.contains(sift(init)[i]));
                let k = choose|k: int| 0 <= k < init.len() && init[k] == sift(init)[i];
                assert(rs[k] == sift(rs)[i]);
            } else {
                assert(rs[rs.len() - 1] == sift(rs)[i]);
            }
        }
    }
}

impl UnitV {
    /// The text edits of the region, in indices from 1.
    pub open spec fn edits(self) -> Seq<RequestV> {
        let old = blocks_plain(self.cur);
        let new = blocks_plain(self.des);
        sift(
            if self.final_newline {
                body_requests(old, new)
            } else {
                text_requests(old, new)
            },
        )
    }

    /// The requests that bring the region to what it should hold: the text edits, then
    /// the paragraph styles, then the inline styles, all moved to where it starts.
    pub open spec fn requests(self) -> Seq<RequestV> {
        shift_all(
            self.edits() + paragraph_requests(self.cur, self.des) + inline_requests(
                self.cur,
                self.des,
            ),
            self.start - 1,
        )
    }

    /// The indices of the region, before and after, fit in a `usize`.
    pub open spec fn fits(self) -> bool {
        &&& 1 <= self.start
        &&& self.start + para_start(self.cur, self.cur.len() as int) <= usize::MAX
        &&& self.start + para_start(self.des, self.des.len() as int) + total_depth(
            self.des,
            0,
            self.des.len() as int,
        ) <= usize::MAX
    }
}

/// What the text of the region comes to: a region that had paragraphs keeps its last line
/// feed, also where it should have none.
pub open spec fn reached_text(u: UnitV) -> Seq<char> {
    if u.cur.len() > 0 && u.des.len() == 0 {
        seq!['\n']
    } else {
        blocks_plain(u.des)
    }
}

/// No text edit of the region would create an inline object, which cannot be done.
pub open spec fn creates_none(u: UnitV) -> bool {
    inserts_none(body_requests(blocks_plain(u.cur), blocks_plain(u.des)))
}

/// The text edits bring the region's text to what it should be, unless an inline object
/// would have to be created. None has to where one stretch of the text is replaced by text
/// without an object, as where the new text holds none at all.
pub open spec fn edits_reach(u: UnitV) -> bool {
    u.final_newline ==> {
        &&& edits_around(blocks_plain(u.cur), blocks_plain(u.des)) ==> creates_none(u)
        &&& !blocks_plain(u.des).contains(OBJECT_SENTINEL) ==> creates_none(u)
        &&& creates_none(u) ==> apply_all16(utf16(blocks_plain(u.cur)), u.edits()) == Some(
            utf16(reached_text(u)),
        )
    }
}

/// The region's final line feed stays: the text edits insert nothing behind it and delete
/// nothing up to it, and every deletion among all requests ends before it. The styles that
/// follow keep to the new text and the tabs of its list items.
pub open spec fn keeps_region(u: UnitV) -> bool {
    u.final_newline ==> {
        &&& u.cur.len() > 0 ==> all_spare(u.edits(), utf16_len(blocks_plain(u.cur)) as int)
        &&& forall|i: int|
            0 <= i < u.requests().len() ==> ((#[trigger] u.requests()[i]) matches RequestV::Delete {
                end,
                ..
            } ==> end < u.start + utf16_len(blocks_plain(u.cur)))
        &&& all_within(
            paragraph_requests(u.cur, u.des),
            para_start(u.des, u.des.len() as int) + total_depth(u.des, 0, u.des.len() as int),
        )
        &&& all_within(inline_requests(u.cur, u.des), para_start(u.des, u.des.len() as int))
    }
}

/// Whether the request can be made.
fn is_feasible(r: &Request) -> (b: bool)
    ensures
        b == feasible(r@),
{
    match r {
        Request::InsertText(it) => {
            let cs = to_chars(it.text.as_str());
            proof {
                lemma_find_char(cs@, OBJECT_SENTINEL, 0);
            }
            match position(cs.as_slice(), OBJECT_SENTINEL, 0) {
                Some(k) => {
                    assert(it.text@[k as int] == OBJECT_SENTINEL);
                    false
                },
                None => true,
            }
        },
        Request::DeleteContentRange(d) => d.range.start_index < d.range.end_index,
        _ => true,
    }
}

/// Append the requests that can be made.
fn sift_requests(reqs: Vec<Request>) -> (r: Vec<Request>)
    ensures
        request_views(r@) == sift(request_views(reqs@)),
{
    let ghost all = request_views(reqs@);
    let ghost src = reqs@;
    let mut out: Vec<Request> = Vec::new();
    assert(all.take(0) =~= Seq::<RequestV>::empty());
    assert(request_views(out@) =~= sift(all.take(0)));
    for r in it: reqs
        invariant
            it.seq() == src,
            all == request_views(src),
            request_views(out@) == sift(all.take(it.index())),
    {
        let ghost before = request_views(out@);
        assert(r == src[it.index()]);
        assert(all.take(it.index() + 1).drop_last() =~= all.take(it.index()));
        assert(all.take(it.index() + 1).last() == r@);
        if is_feasible(&r) {
            out.push(r);
            assert(request_views(out@) =~= before.push(r@));
        }
    }
    assert(all.take(all.len() as int) =~= all);
    out
}

/// Append the requests `add`, each moved up by `d` indices.
fn extend_shifted(out: &mut Vec<Request>, add: Vec<Request>, d: usize)
    requires
        all_within(request_views(add@), usize::MAX - d),
    ensures
        request_views(final(out)@) == request_views(old(out)@) + shift_all(
            request_views(add@),
            d as int,
        ),
{
    let ghost all = request_views(add@);
    let ghost src = add@;
    let ghost before = request_views(out@);
    assert(before + shift_all(all, d as int).take(0) =~= before);
    for r in it: add
        invariant
            it.seq() == src,
            all == request_views(src),
            all_within(all, usize::MAX - d),
            request_views(out@) == before + shift_all(all, d as int).take(it.index()),
    {
        let ghost mid = request_views(out@);
        assert(r == src[it.index()]);
        assert(indices_within(all[it.index()], usize::MAX - d));
        out.push(shift_request(r, d));
        assert(request_views(out@) =~= mid.push(shift_all(all, d as int)[it.index()]));
        assert(shift_all(all, d as int).take(it.index() + 1) =~= shift_all(all, d as int).take(
            it.index(),
        ).push(shift_all(all, d as int)[it.index()]));
    }
    assert(shift_all(all, d as int).take(all.len() as int) =~= shift_all(all, d as int));
}

/// Where no edit would create an inline object, all can be made.
proof fn lemma_sift_all(rs: Seq<RequestV>, new: Seq<char>)
    requires
        all_proper(rs, new),
        inserts_none(rs),
    ensures
        sift(rs) == rs,
    decreases rs.len(),
{
    if rs.len() > 0 {
        let init = rs.drop_last();
        assert forall|i: int| 0 <= i < init.len() implies proper(#[trigger] init[i], new) by {
            assert(proper(rs[i], new));
        }
        assert forall|i: int| 0 <= i < init.len() implies ((
        #[trigger] init[i]) matches RequestV::Insert { text, .. } ==> !text.contains(
            OBJECT_SENTINEL,
        )) by {
            assert(init[i] == rs[i]);
        }
        lemma_sift_all(init, new);
        assert(proper(rs[rs.len() - 1], new));
        assert(feasible(rs.last()));
        assert(init.push(rs.last()) =~= rs);
    }
}

/// Clearing a text that is cleared already takes no edit.
proof fn lemma_sift_clear(old: Seq<char>, rs: Seq<RequestV>)
    requires
        rs == seq![RequestV::Delete { start: 1, end: utf16_len(old) as int }],
        apply_all16(utf16(old), rs) == Some(utf16(seq!['\n'])),
    ensures
        apply_all16(utf16(old), sift(rs)) == Some(utf16(seq!['\n'])),
{
    reveal_with_fuel(sift, 2);
    assert(rs.drop_last() =~= Seq::<RequestV>::empty());
    if feasible(rs[0]) {
        assert(sift(rs) =~= rs);
    } else {
        assert(sift(rs) =~= Seq::<RequestV>::empty());
        lemma_apply_one16(utf16(old), rs[0]);
        lemma_utf16_length(old);
        assert(applied16(utf16(old), rs[0]) =~= utf16(old));
    }
}

/// Sifted requests spare what the given ones do, and a text of no characters has nothing to
/// delete.
proof fn lemma_sift_spares(rs: Seq<RequestV>, old: Seq<char>)
    requires
        all_within(rs, utf16_len(old) + 1int),
        ends_line(old) ==> all_spare(rs, utf16_len(old) as int),
    ensures
        ends_line(old) ==> all_spare(sift(rs), utf16_len(old) as int),
        all_within(sift(rs), utf16_len(old) + 1int),
{
    let l = utf16_len(old) as int;
    lemma_sift(rs);
    assert forall|i: int| 0 <= i < sift(rs).len() implies indices_within(
        #[trigger] sift(rs)[i],
        l + 1,
    ) && (ends_line(old) ==> spares(sift(rs)[i], l)) by {
        let k = choose|k: int| 0 <= k < rs.len() && rs[k] == sift(rs)[i];
        assert(indices_within(rs[k], l + 1));
        assert(ends_line(old) ==> spares(rs[k], l));
    }
}

/// Requests within a bound are within a greater one.
proof fn lemma_widen(rs: Seq<RequestV>, a: int, b: int)
    requires
        all_within(rs, a),
        a <= b,
    ensures
        all_within(rs, b),
{
    assert forall|i: int| 0 <= i < rs.len() implies indices_within(#[trigger] rs[i], b) by {
        assert(indices_within(rs[i], a));
    }
}

/// The requests that bring a region to what it should hold.
pub fn sync_unit(u: &EditUnit) -> (r: Vec<Request>)
    requires
        u@.fits(),
    ensures
        request_views(r@) == u@.requests(),
        // A region that holds what it should needs no request.
        u@.cur == u@.des ==> r@.len() == 0,
        edits_reach(u@),
        keeps_region(u@),
{
    let ghost cur = u@.cur;
    let ghost des = u@.des;
    let d: usize = u.start_index - 1;
    let cur_text = blocks_to_plain(u.cur.as_slice());
    let des_text = blocks_to_plain(u.des.as_slice());
    proof {
        lemma_plain_len(cur);
        lemma_para_start(des, 0, des.len() as int);
        lemma_total_depth(des, 0, 0, 0, des.len() as int);
    }
    let edits = if u.final_newline {
        doc_text_requests(cur_text.as_str(), des_text.as_str())
    } else {
        diff_to_requests(cur_text.as_str(), des_text.as_str())
    };
    let ghost raw = request_views(edits@);
    proof {
        if !des_text@.contains(OBJECT_SENTINEL) {
            lemma_no_object(cur_text@, des_text@);
        }
        if u.final_newline && creates_none(u@) {
            if cur.len() > 0 && des.len() == 0 {
                lemma_sift_clear(cur_text@, raw);
            } else {
                lemma_sift_all(raw, des_text@);
            }
        }
    }
    let edits = sift_requests(edits);
    proof {
        if u.final_newline {
            lemma_sift_spares(raw, cur_text@);
        }
    }
    let styles = style_requests(u.cur.as_slice(), u.des.as_slice());
    let inlines = inline_style_requests(u.cur.as_slice(), u.des.as_slice());
    proof {
        let max = usize::MAX - d;
        assert forall|i: int| 0 <= i < edits@.len() implies indices_within(
            #[trigger] request_views(edits@)[i],
            max,
        ) by {
            lemma_sift(raw);
            let r = sift(raw)[i];
            let k = choose|k: int| 0 <= k < raw.len() && raw[k] == r;
            assert(indices_within(raw[k], utf16_len(cur_text@) + 1int));
        }
        lemma_widen(
            request_views(styles@),
            para_start(des, des.len() as int) + total_depth(des, 0, des.len() as int),
            max,
        );
        lemma_widen(request_views(inlines@), para_start(des, des.len() as int), max);
    }
    let mut out: Vec<Request> = Vec::new();
    extend_shifted(&mut out, edits, d);
    extend_shifted(&mut out, styles, d);
    extend_shifted(&mut out, inlines, d);
    assert(request_views(out@) =~= u@.requests());
    proof {
        if u.final_newline {
            lemma_final_stays(u@);
        }
        if cur == des {
            assert(request_views(edits@).len() == 0) by {
                lemma_sift(raw);
            }
            assert(request_views(styles@).len() == 0);
            assert(request_views(inlines@).len() == 0);
            assert(request_views(out@).len() == out@.len());
        }
    }
    out
}

/// The region of a segment that should hold the blocks `des`.
pub open spec fn segment_unit(seg: SegmentV, des: Seq<BlockV>) -> UnitV {
    UnitV { start: seg.start, cur: seg.blocks, des, final_newline: true }
}

/// The smaller of two lengths.
pub open spec fn shorter(a: nat, b: nat) -> int {
    if a < b {
        a as int
    } else {
        b as int
    }
}

/// The requests of the segments from the `i`-th to the `n`-th, the last segment first.
pub open spec fn segment_requests(
    cur: Seq<SegmentV>,
    des: Seq<Seq<BlockV>>,
    i: int,
    n: int,
) -> Seq<RequestV>
    decreases n - i,
{
    if i >= n {
        Seq::empty()
    } else {
        segment_requests(cur, des, i + 1, n) + segment_unit(cur[i], des[i]).requests()
    }
}

/// The indices of all segments that have a counterpart fit in a `usize`.
pub open spec fn segments_fit(cur: Seq<SegmentV>, des: Seq<Seq<BlockV>>) -> bool {
    forall|i: int|
        0 <= i < shorter(cur.len(), des.len()) ==> (#[trigger] segment_unit(cur[i], des[i])).fits()
}

/// Append requests.
pub fn extend_requests(out: &mut Vec<Request>, add: Vec<Request>)
    ensures
        request_views(final(out)@) == request_views(old(out)@) + request_views(add@),
{
    let mut add = add;
    let ghost all = request_views(add@);
    out.append(&mut add);
    assert(request_views(out@) =~= request_views(old(out)@) + all);
}

/// Incremental sync over paragraph segments. Segments pair by position; what stands
/// between them is kept. They are processed last first, so that no segment's edits
/// move the indices of those before it. Every segment ends at a barrier or at the end
/// of the document, so its last line feed cannot be moved.
pub fn sync_core(current: &[ParaSegment], desired: &[Vec<Block>]) -> (r: Vec<Request>)
    requires
        segments_fit(segment_views(current@), list_views(desired@)),
    ensures
        request_views(r@) == segment_requests(
            segment_views(current@),
            list_views(desired@),
            0,
            shorter(current@.len(), desired@.len()),
        ),
        // Segments that hold what they should need no request.
        (forall|i: int|
            0 <= i < shorter(current@.len(), desired@.len()) ==> (#[trigger] segment_views(
                current@,
            )[i]).blocks == list_views(desired@)[i]) ==> r@.len() == 0,
        // The text edits of each segment give the desired text, and its final line feed
        // stays.
        forall|i: int|
            0 <= i < shorter(current@.len(), desired@.len()) ==> {
                let u = #[trigger] segment_unit(segment_views(current@)[i], list_views(desired@)[i]);
                edits_reach(u) && keeps_region(u)
            },
{
    let ghost cur = segment_views(current@);
    let ghost des = list_views(desired@);
    let n: usize = if current.len() < desired.len() {
        current.len()
    } else {
        desired.len()
    };
    let ghost same = forall|i: int|
        0 <= i < shorter(current@.len(), desired@.len()) ==> (#[trigger] cur[i]).blocks == des[i];
    let mut out: Vec<Request> = Vec::new();
    let mut i: usize = n;
    assert(request_views(out@) =~= Seq::<RequestV>::empty());
    while i > 0
        invariant
            i <= n,
            n <= current@.len(),
            n <= desired@.len(),
            n == shorter(current@.len(), desired@.len()),
            cur == segment_views(current@),
            des == list_views(desired@),
            segments_fit(cur, des),
            same == (forall|i: int|
                0 <= i < shorter(current@.len(), desired@.len()) ==> (#[trigger] cur[i]).blocks
                    == des[i]),
            same ==> out@.len() == 0,
            forall|k: int|
                i <= k < n ==> {
                    let u = #[trigger] segment_unit(cur[k], des[k]);
                    edits_reach(u) && keeps_region(u)
                },
            request_views(out@) == segment_requests(cur, des, i as int, n as int),
        decreases i,
    {
        i = i - 1;
        let unit = EditUnit {
            start_index: current[i].start_index,
            cur: copy_blocks(current[i].blocks.as_slice()),
            des: copy_blocks(desired[i].as_slice()),
            final_newline: true,
        };
        proof {
            assert(segment_unit(cur[i as int], des[i as int]).fits());
            assert(unit@ =~= segment_unit(cur[i as int], des[i as int]));
            if same {
                assert(cur[i as int].blocks == des[i as int]);
            }
        }
        let reqs = sync_unit(&unit);
        extend_requests(&mut out, reqs);
        assert(same ==> request_views(out@).len() == 0);
        assert(request_views(out@).len() == out@.len());
    }
    out
}

/// The index at which the `i`-th of the paragraph runs starts, when nothing stands
/// between them.
pub open spec fn run_start(runs: Seq<Seq<BlockV>>, i: int) -> int
    decreases i,
{
    if i <= 0 {
        1
    } else {
        run_start(runs, i - 1) + para_start(runs[i - 1], runs[i - 1].len() as int) - 1
    }
}

/// The paragraph runs as segments, when nothing stands between them.
pub open spec fn run_segments(runs: Seq<Seq<BlockV>>) -> Seq<SegmentV> {
    Seq::new(runs.len(), |i: int| SegmentV { start: run_start(runs, i), blocks: runs[i] })
}

/// The requests from one model to another.
pub open spec fn model_requests(cur: Seq<NodeV>, des: Seq<NodeV>) -> Seq<RequestV> {
    let a = run_segments(paragraph_runs(cur));
    let b = paragraph_runs(des);
    segment_requests(a, b, 0, shorter(a.len(), b.len()))
}

/// The indices of the models fit in a `usize`.
pub open spec fn models_fit(cur: Seq<NodeV>, des: Seq<NodeV>) -> bool {
    let runs = paragraph_runs(cur);
    &&& run_start(runs, runs.len() as int) <= usize::MAX
    &&& segments_fit(run_segments(runs), paragraph_runs(des))
}

/// Later runs start further on.
proof fn lemma_run_start(runs: Seq<Seq<BlockV>>, i: int, j: int)
    requires
        0 <= i <= j,
    ensures
        1 <= run_start(runs, i) <= run_start(runs, j),
    decreases j,
{
    if i < j {
        lemma_run_start(runs, i, j - 1);
        lemma_para_start(runs[j - 1], 0, runs[j - 1].len() as int);
    } else if j > 0 {
        lemma_run_start(runs, i - 1, j - 1);
        lemma_para_start(runs[j - 1], 0, runs[j - 1].len() as int);
    }
}

/// Incremental sync between two models in memory, for a document without tables:
/// paragraph indices follow from the text alone. A document with tables is synced from
/// its own indices, see [`crate::api::sync_doc`].
pub fn sync_requests(current: &DocModel, desired: &DocModel) -> (r: Vec<Request>)
    requires
        models_fit(node_views(current@), node_views(desired@)),
    ensures
        request_views(r@) == model_requests(node_views(current@), node_views(desired@)),
        // A model is brought to itself by no request.
        node_views(current@) == node_views(desired@) ==> r@.len() == 0,
        // Applied to the text of a document without barriers, the requests give the
        // desired text, unless an inline object would have to be created. Nested list
        // items take tabs, which are gone once the lists are made.
        level(node_views(current@)) && tame_model(node_views(desired@)) && creates_none(
            body_unit(node_views(current@), node_views(desired@)),
        ) ==> list_apply_all16(
            utf16(plain_text(node_views(current@))),
            request_views(r@),
        ) == Some(utf16(reached_plain(node_views(current@), node_views(desired@)))),
        // Where none is nested, making a list changes no text.
        level(node_views(current@)) && flat(node_views(desired@)) && creates_none(
            body_unit(node_views(current@), node_views(desired@)),
        ) ==> apply_all16(
            utf16(plain_text(node_views(current@))),
            request_views(r@),
        ) == Some(utf16(reached_plain(node_views(current@), node_views(desired@)))),
        // No object has to be created where one stretch of the text is replaced by text
        // without one.
        level(node_views(current@)) && level(node_views(desired@)) && edits_around(
            plain_text(node_views(current@)),
            plain_text(node_views(desired@)),
        ) ==> creates_none(body_unit(node_views(current@), node_views(desired@))),
{
    let runs = split_paragraph_runs(current);
    let des = split_paragraph_runs(desired);
    let ghost rs = list_views(runs@);
    let ghost n = rs.len() as int;
    let ghost src = runs@;
    let mut idx: usize = 1;
    let mut segs: Vec<ParaSegment> = Vec::new();
    for blocks in it: runs
        invariant
            it.seq() == src,
            rs == list_views(src),
            n == rs.len(),
            run_start(rs, n) <= usize::MAX,
            idx == run_start(rs, it.index()),
            segs@.len() == it.index(),
            forall|k: int| 0 <= k < it.index() ==> (#[trigger] segs@[k])@ == run_segments(rs)[k],
    {
        proof {
            lemma_run_start(rs, it.index() + 1, n);
            assert(rs[it.index()] == block_views(blocks@));
            lemma_para_start(block_views(blocks@), 0, blocks@.len() as int);
            lemma_run_start(rs, it.index(), it.index());
        }
        let len: usize = blocks_len(blocks.as_slice());
        segs.push(ParaSegment { start_index: idx, blocks });
        assert(segs@[it.index()]@ =~= run_segments(rs)[it.index()]);
        idx = idx + len;
    }
    assert(segment_views(segs@) =~= run_segments(rs));
    let r = sync_core(segs.as_slice(), des.as_slice());
    proof {
        let cur = node_views(current@);
        let want = node_views(desired@);
        if level(cur) && level(want) {
            lemma_one_run(cur);
            lemma_one_run(want);
            let u = segment_unit(run_segments(rs)[0], list_views(des@)[0]);
            assert(u == body_unit(cur, want));
            assert(segment_requests(run_segments(rs), list_views(des@), 1, 1)
                =~= Seq::<RequestV>::empty());
            assert(request_views(r@) =~= u.requests());
            if tame_model(want) && creates_none(u) {
                assert forall|k: int|
                    0 <= k < u.des.len() && list_kind_of((#[trigger] u.des[k]).kind) implies tame(
                    u.des[k].text(),
                ) by {
                    assert(want[k] == NodeV::Para(u.des[k]));
                }
                law_region_reached(u);
            }
            if flat(want) && creates_none(u) {
                assert forall|k: int| 0 <= k < u.des.len() implies (#[trigger] u.des[k]).depth
                    == 0 by {
                    assert(want[k] == NodeV::Para(u.des[k]));
                }
                lemma_unit_effect(u, utf16(blocks_plain(u.cur)));
            }
        }
    }
    r
}

/// The one region of a document without barriers.
pub open spec fn body_unit(cur: Seq<NodeV>, des: Seq<NodeV>) -> UnitV {
    segment_unit(run_segments(paragraph_runs(cur))[0], paragraph_runs(des)[0])
}

/// A model of paragraphs alone, or of nothing.
pub open spec fn level(nodes: Seq<NodeV>) -> bool {
    barrier_count(nodes) == 0
}

/// A model of paragraphs alone, in which no list item has a tab of its own at the start of a
/// line.
pub open spec fn tame_model(nodes: Seq<NodeV>) -> bool {
    &&& level(nodes)
    &&& forall|k: int|
        0 <= k < nodes.len() ==> ((#[trigger] nodes[k]) matches NodeV::Para(b) ==> (list_kind_of(
            b.kind,
        ) ==> tame(b.text())))
}

/// A model of paragraphs alone, none of them nested.
pub open spec fn flat(nodes: Seq<NodeV>) -> bool {
    &&& level(nodes)
    &&& forall|k: int|
        0 <= k < nodes.len() ==> ((#[trigger] nodes[k]) matches NodeV::Para(b) ==> b.depth == 0)
}

/// The text that a document with the model `cur` comes to when it should hold `des`: that
/// of `des`, or one line feed where paragraphs should all go, since the last one stays.
pub open spec fn reached_plain(cur: Seq<NodeV>, des: Seq<NodeV>) -> Seq<char> {
    if cur.len() > 0 && des.len() == 0 {
        seq!['\n']
    } else {
        plain_text(des)
    }
}

/// How many indices the blocks take up.
fn blocks_len(blocks: &[Block]) -> (r: usize)
    requires
        para_start(block_views(blocks@), blocks@.len() as int) <= usize::MAX,
    ensures
        r == para_start(block_views(blocks@), blocks@.len() as int) - 1,
{
    let ghost bs = block_views(blocks@);
    let n: usize = blocks.len();
    let mut len: usize = 0;
    for i in 0..n
        invariant
            n == blocks@.len(),
            bs == block_views(blocks@),
            para_start(bs, n as int) <= usize::MAX,
            len == para_start(bs, i as int) - 1,
    {
        proof {
            lemma_para_start(bs, i + 1, n as int);
            lemma_para_start(bs, 0, i as int);
            assert(bs[i as int] == blocks@[i as int]@);
        }
        let text = blocks[i].text();
        len = len + u16_len(text.as_str()) + 1;
    }
    len
}

} // verus!
