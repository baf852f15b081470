//! The structural pass: whole tables, rules and tables of contents, and the dimensions
//! of tables.
use crate::diff::{
    diff_slices, edit_script, kept, lemma_at_monotonic, lemma_step_bounds, new_at, old_at,
    slice_script, EditStep, StepKind,
};
use crate::gate::string_views;
use crate::json::{copy_json, json_views, object1, with, Json, JsonV};
use crate::model::{columns_of, node_views, DocModel, Node, NodeV};
use crate::nodes::{
    cur_views, des_sequence, des_views, desired_sequence, grid_columns, grid_views, CurNode,
    CurNodeV, DesNode, DesV,
};
use crate::order::{descending_order, key_views, order_of};
use crate::shortest::{fewest_changes, law_fewest_changes, law_tight};
use crate::sync::{barrier_count, shorter};
use vstd::prelude::*;

verus! {

/// A barrier between paragraph runs.
#[derive(Debug, Clone, Copy, PartialEq, Eq, Hash, PartialOrd, Ord, Structural)]
pub enum BarrierKind {
    Table,
    Rule,
    Toc,
}

/// A number for each kind.
pub open spec fn kind_number(kind: BarrierKind) -> u128 {
    match kind {
        BarrierKind::Table => 0,
        BarrierKind::Rule => 1,
        BarrierKind::Toc => 2,
    }
}

/// A number for each kind.
fn number_kind(kind: BarrierKind) -> (r: u128)
    ensures
        r == kind_number(kind),
{
    match kind {
        BarrierKind::Table => 0,
        BarrierKind::Rule => 1,
        BarrierKind::Toc => 2,
    }
}

/// A barrier of the document with its indices.
#[derive(Debug, Clone, Copy, PartialEq, Eq, Structural)]
pub struct Barrier {
    pub kind: BarrierKind,
    pub start: usize,
    pub end: usize,
}

/// The barrier that a node of the document is.
pub open spec fn node_barrier(n: CurNodeV) -> Option<Barrier> {
    match n {
        CurNodeV::Paras(_) => None,
        CurNodeV::Table { start, end, .. } => Some(
            Barrier { kind: BarrierKind::Table, start: start as usize, end: end as usize },
        ),
        CurNodeV::Rule { start, end } => Some(
            Barrier { kind: BarrierKind::Rule, start: start as usize, end: end as usize },
        ),
        CurNodeV::Toc { start, end } => Some(
            Barrier { kind: BarrierKind::Toc, start: start as usize, end: end as usize },
        ),
    }
}

/// The barriers of the document.
pub open spec fn barriers_of(nodes: Seq<CurNodeV>) -> Seq<Barrier>
    decreases nodes.len(),
{
    if nodes.len() == 0 {
        Seq::empty()
    } else {
        match node_barrier(nodes.last()) {
            Some(b) => barriers_of(nodes.drop_last()).push(b),
            None => barriers_of(nodes.drop_last()),
        }
    }
}

/// The barriers of a model.
pub open spec fn barrier_nodes(nodes: Seq<NodeV>) -> Seq<NodeV>
    decreases nodes.len(),
{
    if nodes.len() == 0 {
        Seq::empty()
    } else if nodes.last().barrier() {
        barrier_nodes(nodes.drop_last()).push(nodes.last())
    } else {
        barrier_nodes(nodes.drop_last())
    }
}

/// The kind of a barrier of a model.
pub open spec fn node_kind(n: NodeV) -> BarrierKind {
    match n {
        NodeV::Table(_) => BarrierKind::Table,
        NodeV::Toc => BarrierKind::Toc,
        _ => BarrierKind::Rule,
    }
}

/// The numbers of the kinds of the document's barriers.
pub open spec fn cur_numbers(bs: Seq<Barrier>) -> Seq<u128> {
    Seq::new(bs.len(), |i: int| kind_number(bs[i].kind))
}

/// The numbers of the kinds of a model's barriers.
pub open spec fn des_numbers(ns: Seq<NodeV>) -> Seq<u128> {
    Seq::new(ns.len(), |i: int| kind_number(node_kind(ns[i])))
}

/// The edit script between the barriers of the document and those of the model.
pub open spec fn barrier_script(cur: Seq<CurNodeV>, model: Seq<NodeV>) -> Seq<EditStep> {
    slice_script(cur_numbers(barriers_of(cur)), des_numbers(barrier_nodes(model)))
}

/// For each of the model's barriers that the first `k` steps cover, the document's
/// barrier that it stays.
pub open spec fn matches_of(steps: Seq<EditStep>, k: int) -> Seq<Option<int>>
    decreases k,
{
    if k <= 0 {
        Seq::empty()
    } else {
        matches_of(steps, k - 1) + Seq::new(
            steps[k - 1].new_len as nat,
            |t: int|
                if steps[k - 1].kind is Equal {
                    Some(old_at(steps, k - 1) + t)
                } else {
                    None
                },
        )
    }
}

/// Which of the document's barriers that the first `k` steps cover have to go.
pub open spec fn gone_of(steps: Seq<EditStep>, k: int) -> Seq<bool>
    decreases k,
{
    if k <= 0 {
        Seq::empty()
    } else {
        gone_of(steps, k - 1) + Seq::new(
            steps[k - 1].old_len as nat,
            |t: int| !(steps[k - 1].kind is Equal),
        )
    }
}

/// For each of the model's barriers, the document's barrier that it stays.
pub open spec fn all_matches(steps: Seq<EditStep>) -> Seq<Option<int>> {
    matches_of(steps, steps.len() as int)
}

/// Which of the document's barriers have to go.
pub open spec fn all_gone(steps: Seq<EditStep>) -> Seq<bool> {
    gone_of(steps, steps.len() as int)
}

/// A number as JSON.
pub open spec fn json_number(n: int) -> JsonV {
    JsonV::Number(n as u64)
}

/// The request to delete a range.
pub open spec fn delete_op(start: int, end: int) -> JsonV {
    JsonV::Object(
        seq![
            (
                "deleteContentRange"@,
                JsonV::Object(
                    seq![
                        (
                            "range"@,
                            JsonV::Object(
                                seq![
                                    ("startIndex"@, json_number(start)),
                                    ("endIndex"@, json_number(end)),
                                ],
                            ),
                        ),
                    ],
                ),
            ),
        ],
    )
}

/// The request to insert an empty table.
pub open spec fn insert_op(rows: int, columns: int, index: int) -> JsonV {
    JsonV::Object(
        seq![
            (
                "insertTable"@,
                JsonV::Object(
                    seq![
                        ("rows"@, json_number(rows)),
                        ("columns"@, json_number(columns)),
                        ("location"@, JsonV::Object(seq![("index"@, json_number(index))])),
                    ],
                ),
            ),
        ],
    )
}

/// The deletions of the first `n` barriers of the document, with the index of each.
pub open spec fn deletions(bs: Seq<Barrier>, gone: Seq<bool>, n: int) -> Seq<(int, JsonV)>
    decreases n,
{
    if n <= 0 {
        Seq::empty()
    } else if gone[n - 1] {
        deletions(bs, gone, n - 1).push(
            (
                bs[n - 1].start as int,
                delete_op(bs[n - 1].start as int, bs[n - 1].end as int),
            ),
        )
    } else {
        deletions(bs, gone, n - 1)
    }
}

/// Where the first of the model's barriers from the `j`-th on that stays starts in the
/// document; `end` where none stays.
pub open spec fn next_kept(bs: Seq<Barrier>, ms: Seq<Option<int>>, j: int, end: int) -> int
    decreases ms.len() - j,
{
    if j < 0 || j >= ms.len() {
        end
    } else {
        match ms[j] {
            Some(i) => bs[i].start as int,
            None => next_kept(bs, ms, j + 1, end),
        }
    }
}

/// The insertions of the first `n` barriers of the model, with the index of each: tables
/// that the document does not have go before the next barrier that stays.
pub open spec fn insertions(
    bs: Seq<Barrier>,
    ns: Seq<NodeV>,
    ms: Seq<Option<int>>,
    end: int,
    n: int,
) -> Seq<(int, JsonV)>
    decreases n,
{
    if n <= 0 {
        Seq::empty()
    } else {
        let before = insertions(bs, ns, ms, end, n - 1);
        match (ms[n - 1], ns[n - 1]) {
            (None, NodeV::Table(rows)) => {
                let at = next_kept(bs, ms, n, end);
                before.push((at, insert_op(rows.len() as int, columns_of(rows) as int, at)))
            },
            _ => before,
        }
    }
}

/// The warnings for the first `n` barriers of the model: rules and tables of contents
/// that the document does not have cannot be created.
pub open spec fn barrier_warnings(ns: Seq<NodeV>, ms: Seq<Option<int>>, n: int) -> Seq<Seq<char>>
    decreases n,
{
    if n <= 0 {
        Seq::empty()
    } else {
        let before = barrier_warnings(ns, ms, n - 1);
        match (ms[n - 1], node_kind(ns[n - 1])) {
            (None, BarrierKind::Rule) => before.push(
                "a horizontal rule (`---`) can't be created via the API; left out"@,
            ),
            (None, BarrierKind::Toc) => before.push(
                "a table of contents can't be created via the API; left out"@,
            ),
            _ => before,
        }
    }
}

/// The barrier can be had: it is a table or the document has it.
pub open spec fn creatable(n: NodeV, m: Option<int>) -> bool {
    m is Some || n is Table
}

/// The first `n` nodes of the model without the barriers that cannot be created.
pub open spec fn achievable(nodes: Seq<NodeV>, ms: Seq<Option<int>>, n: int) -> Seq<NodeV>
    decreases n,
{
    if n <= 0 {
        Seq::empty()
    } else {
        let before = achievable(nodes, ms, n - 1);
        let node = nodes[n - 1];
        if node.barrier() && !creatable(node, ms[barrier_count(nodes.take(n - 1)) as int]) {
            before
        } else {
            before.push(node)
        }
    }
}

/// The requests with the indices that they are ordered by.
pub open spec fn tagged_ops(
    cur: Seq<CurNodeV>,
    model: Seq<NodeV>,
    append_pos: int,
    steps: Seq<EditStep>,
) -> Seq<(int, JsonV)> {
    let bs = barriers_of(cur);
    let ns = barrier_nodes(model);
    let ms = all_matches(steps);
    deletions(bs, all_gone(steps), bs.len() as int) + insertions(
        bs,
        ns,
        ms,
        append_pos,
        ns.len() as int,
    )
}

/// The indices of tagged requests.
pub open spec fn tag_keys(tagged: Seq<(int, JsonV)>) -> Seq<int> {
    Seq::new(tagged.len(), |i: int| tagged[i].0)
}

/// The requests in the order of descending indices.
pub open spec fn ordered_ops(tagged: Seq<(int, JsonV)>) -> Seq<JsonV> {
    Seq::new(tagged.len(), |i: int| tagged[order_of(tag_keys(tagged))[i]].1)
}

/// What reconciling the barriers along these steps gives: the requests, the model that
/// can be reached, and the warnings.
pub open spec fn reconciled(
    cur: Seq<CurNodeV>,
    model: Seq<NodeV>,
    append_pos: int,
    steps: Seq<EditStep>,
) -> (Seq<JsonV>, Seq<NodeV>, Seq<Seq<char>>) {
    let ns = barrier_nodes(model);
    let ms = all_matches(steps);
    (
        ordered_ops(tagged_ops(cur, model, append_pos, steps)),
        achievable(model, ms, model.len() as int),
        barrier_warnings(ns, ms, ns.len() as int),
    )
}

/// The barriers of the document.
fn current_barriers(nodes: &[CurNode]) -> (r: Vec<Barrier>)
    ensures
        r@ == barriers_of(cur_views(nodes@)),
{
    let ghost all = cur_views(nodes@);
    let n: usize = nodes.len();
    let mut out: Vec<Barrier> = Vec::new();
    assert(all.take(0) =~= Seq::<CurNodeV>::empty());
    for i in 0..n
        invariant
            n == nodes@.len(),
            all == cur_views(nodes@),
            out@ == barriers_of(all.take(i as int)),
    {
        assert(all.take(i + 1).drop_last() =~= all.take(i as int));
        assert(all.take(i + 1).last() == nodes@[i as int]@);
        match &nodes[i] {
            CurNode::Paras(_) => {},
            CurNode::Table { start_index, end_index, .. } => {
                out.push(
                    Barrier { kind: BarrierKind::Table, start: *start_index, end: *end_index },
                );
            },
            CurNode::Rule { start_index, end_index } => {
                out.push(
                    Barrier { kind: BarrierKind::Rule, start: *start_index, end: *end_index },
                );
            },
            CurNode::Toc { start_index, end_index } => {
                out.push(Barrier { kind: BarrierKind::Toc, start: *start_index, end: *end_index });
            },
        }
    }
    assert(all.take(n as int) =~= all);
    out
}

/// The places of the barriers of a model.
fn desired_barrier_nodes(model: &DocModel) -> (r: Vec<usize>)
    ensures
        r@.len() == barrier_nodes(node_views(model@)).len(),
        r@.len() == barrier_count(node_views(model@)),
        forall|j: int|
            0 <= j < r@.len() ==> (#[trigger] r@[j]) < model@.len() && model@[r@[j] as int]@
                == barrier_nodes(node_views(model@))[j],
{
    let ghost all = node_views(model@);
    let n: usize = model.len();
    let mut out: Vec<usize> = Vec::new();
    assert(all.take(0) =~= Seq::<NodeV>::empty());
    for i in 0..n
        invariant
            n == model@.len(),
            all == node_views(model@),
            out@.len() == barrier_nodes(all.take(i as int)).len(),
            out@.len() == barrier_count(all.take(i as int)),
            forall|j: int|
                0 <= j < out@.len() ==> (#[trigger] out@[j]) < model@.len() && model@[out@[j] as int]@
                    == barrier_nodes(all.take(i as int))[j],
    {
        assert(all.take(i + 1).drop_last() =~= all.take(i as int));
        assert(all.take(i + 1).last() == model@[i as int]@);
        if model[i].is_barrier() {
            out.push(i);
        }
    }
    assert(all.take(n as int) =~= all);
    out
}

/// The kind of a barrier of a model.
fn kind_of_node(n: &Node) -> (r: BarrierKind)
    ensures
        r == node_kind(n@),
{
    match n {
        Node::Table(_) => BarrierKind::Table,
        Node::Toc => BarrierKind::Toc,
        _ => BarrierKind::Rule,
    }
}

/// Optional positions as integers.
pub open spec fn match_views(v: Seq<Option<usize>>) -> Seq<Option<int>> {
    Seq::new(
        v.len(),
        |i: int|
            match v[i] {
                Some(k) => Some(k as int),
                None => None,
            },
    )
}

/// Matches and deletions are as many as the steps cover.
proof fn lemma_match_len(steps: Seq<EditStep>, k: int)
    requires
        0 <= k <= steps.len(),
    ensures
        matches_of(steps, k).len() == new_at(steps, k),
        gone_of(steps, k).len() == old_at(steps, k),
    decreases k,
{
    if k > 0 {
        lemma_match_len(steps, k - 1);
    }
}

/// A match lies in the document.
proof fn lemma_match_bounds<T>(steps: Seq<EditStep>, old: Seq<T>, new: Seq<T>, k: int)
    requires
        edit_script(steps, old, new),
        0 <= k <= steps.len(),
    ensures
        forall|j: int|
            0 <= j < matches_of(steps, k).len() ==> ((#[trigger] matches_of(steps, k)[j]) matches Some(
                i,
            ) ==> 0 <= i < old_at(steps, k) && old_at(steps, k) <= old.len()),
    decreases k,
{
    if k > 0 {
        lemma_match_bounds(steps, old, new, k - 1);
        lemma_step_bounds(steps, old, new, k - 1);
        assert(steps[k - 1].shaped());
        let a = matches_of(steps, k - 1);
        assert forall|j: int| 0 <= j < matches_of(steps, k).len() implies ((
        #[trigger] matches_of(steps, k)[j]) matches Some(i) ==> 0 <= i < old_at(steps, k)
            && old_at(steps, k) <= old.len()) by {
            if j < a.len() {
                assert(matches_of(steps, k)[j] == a[j]);
            }
        }
    }
}

/// Append `n` matches: the positions from `o` on where `same`, else none.
fn push_matches(ms: &mut Vec<Option<usize>>, same: bool, o: usize, n: usize)
    requires
        same ==> o + n <= usize::MAX,
    ensures
        match_views(final(ms)@) == match_views(old(ms)@) + Seq::new(
            n as nat,
            |t: int|
                if same {
                    Some(o + t)
                } else {
                    None
                },
        ),
{
    let ghost before = match_views(ms@);
    let ghost add = Seq::new(
        n as nat,
        |t: int|
            if same {
                Some(o + t)
            } else {
                None
            },
    );
    assert(before + add.take(0) =~= before);
    for t in 0..n
        invariant
            same ==> o + n <= usize::MAX,
            add == Seq::new(
                n as nat,
                |t: int|
                    if same {
                        Some(o + t)
                    } else {
                        None
                    },
            ),
            match_views(ms@) == before + add.take(t as int),
    {
        let ghost mid = match_views(ms@);
        if same {
            ms.push(Some(o + t));
        } else {
            ms.push(None);
        }
        assert(match_views(ms@) =~= mid.push(add[t as int]));
        assert(add.take(t + 1) =~= add.take(t as int).push(add[t as int]));
    }
    assert(add.take(n as int) =~= add);
}

/// Append `n` flags.
fn push_flags(flags: &mut Vec<bool>, flag: bool, n: usize)
    ensures
        final(flags)@ == old(flags)@ + Seq::new(n as nat, |t: int| flag),
{
    let ghost before = flags@;
    for t in 0..n
        invariant
            flags@ =~= before + Seq::new(t as nat, |t: int| flag),
    {
        flags.push(flag);
    }
}

/// The matches and deletions of the steps.
fn align(steps: &[EditStep], old_len: usize) -> (r: (Vec<Option<usize>>, Vec<bool>))
    requires
        old_at(steps@, steps@.len() as int) == old_len,
        forall|k: int| 0 <= k < steps@.len() ==> (#[trigger] steps@[k]).shaped(),
    ensures
        match_views(r.0@) == all_matches(steps@),
        r.1@ == all_gone(steps@),
{
    let n: usize = steps.len();
    let mut ms: Vec<Option<usize>> = Vec::new();
    let mut gone: Vec<bool> = Vec::new();
    let mut o: usize = 0;
    assert(match_views(ms@) =~= Seq::<Option<int>>::empty());
    for k in 0..n
        invariant
            n == steps@.len(),
            old_at(steps@, n as int) == old_len,
            forall|k: int| 0 <= k < steps@.len() ==> (#[trigger] steps@[k]).shaped(),
            o == old_at(steps@, k as int),
            match_views(ms@) == matches_of(steps@, k as int),
            gone@ == gone_of(steps@, k as int),
    {
        let step = steps[k];
        let same = match step.kind {
            StepKind::Equal => true,
            _ => false,
        };
        proof {
            lemma_at_monotonic(steps@, k as int, k + 1);
            lemma_at_monotonic(steps@, k + 1, n as int);
            assert(steps@[k as int].shaped());
            assert(old_at(steps@, k + 1) == o + step.old_len);
        }
        push_matches(&mut ms, same, o, step.new_len);
        push_flags(&mut gone, !same, step.old_len);
        assert(match_views(ms@) =~= matches_of(steps@, k + 1));
        assert(gone@ =~= gone_of(steps@, k + 1));
        o = o + step.old_len;
    }
    (ms, gone)
}

/// A number as JSON.
fn number(n: usize) -> (r: Json)
    ensures
        r@ == json_number(n as int),
{
    Json::Number(n as u64)
}

/// The request to delete a range.
fn delete_json(start: usize, end: usize) -> (r: Json)
    ensures
        r@ == delete_op(start as int, end as int),
{
    let range = with(object1("startIndex", number(start)), "endIndex", number(end));
    let r = object1("deleteContentRange", object1("range", range));
    proof {
        let a = ("startIndex"@, json_number(start as int));
        let b = ("endIndex"@, json_number(end as int));
        assert(seq![a].push(b) =~= seq![a, b]);
    }
    r
}

/// The request to insert an empty table.
fn insert_json(rows: usize, columns: usize, index: usize) -> (r: Json)
    ensures
        r@ == insert_op(rows as int, columns as int, index as int),
{
    let location = object1("index", number(index));
    let table = with(
        with(object1("rows", number(rows)), "columns", number(columns)),
        "location",
        location,
    );
    proof {
        let a = ("rows"@, json_number(rows as int));
        let b = ("columns"@, json_number(columns as int));
        let c = ("location"@, location@);
        assert(seq![a].push(b).push(c) =~= seq![a, b, c]);
    }
    object1("insertTable", table)
}

/// Requests with the indices that they are ordered by.
struct Tagged {
    keys: Vec<usize>,
    ops: Vec<Json>,
}

impl Tagged {
    spec fn wf(self) -> bool {
        self.keys@.len() == self.ops@.len()
    }

    spec fn pairs(self) -> Seq<(int, JsonV)> {
        Seq::new(self.ops@.len(), |i: int| (self.keys@[i] as int, self.ops@[i]@))
    }

    fn push(&mut self, key: usize, op: Json)
        requires
            old(self).wf(),
        ensures
            final(self).wf(),
            final(self).pairs() == old(self).pairs().push((key as int, op@)),
    {
        self.keys.push(key);
        self.ops.push(op);
        assert(self.pairs() =~= old(self).pairs().push((key as int, op@)));
    }

    /// The requests in the order of descending indices.
    fn ordered(self) -> (r: Vec<Json>)
        requires
            self.wf(),
        ensures
            json_views(r@) == ordered_ops(self.pairs()),
    {
        let order = descending_order(&self.keys);
        let n: usize = order.len();
        let ghost pairs = self.pairs();
        assert(key_views(self.keys@) =~= tag_keys(pairs));
        let ghost goal = ordered_ops(pairs);
        let mut out: Vec<Json> = Vec::new();
        for i in 0..n
            invariant
                n == order@.len(),
                n == pairs.len(),
                self.wf(),
                pairs == self.pairs(),
                key_views(order@) == order_of(tag_keys(pairs)),
                forall|k: int| 0 <= k < n ==> (#[trigger] order@[k]) < n,
                goal == ordered_ops(pairs),
                out@.len() == i,
                forall|k: int| 0 <= k < i ==> (#[trigger] out@[k])@ == goal[k],
        {
            let k: usize = order[i];
            assert(key_views(order@)[i as int] == k);
            let op = copy_json(&self.ops[k]);
            assert(goal[i as int] == pairs[k as int].1);
            out.push(op);
        }
        assert(json_views(out@) =~= goal);
        out
    }
}

/// Append the deletions of the barriers that have to go.
fn push_deletions(out: &mut Tagged, bs: &Vec<Barrier>, gone: &Vec<bool>)
    requires
        old(out).wf(),
        gone@.len() == bs@.len(),
    ensures
        final(out).wf(),
        final(out).pairs() == old(out).pairs() + deletions(bs@, gone@, bs@.len() as int),
{
    let n: usize = bs.len();
    let ghost start = out.pairs();
    assert(start + deletions(bs@, gone@, 0) =~= start);
    for i in 0..n
        invariant
            n == bs@.len(),
            gone@.len() == n,
            out.wf(),
            out.pairs() == start + deletions(bs@, gone@, i as int),
    {
        if gone[i] {
            let b = bs[i];
            out.push(b.start, delete_json(b.start, b.end));
            assert(out.pairs() =~= start + deletions(bs@, gone@, i + 1));
        }
    }
}

/// Where the first of the model's barriers from the `j`-th on that stays starts.
fn find_kept(bs: &Vec<Barrier>, ms: &Vec<Option<usize>>, j: usize, end: usize) -> (r: usize)
    requires
        forall|k: int|
            0 <= k < ms@.len() ==> ((#[trigger] ms@[k]) matches Some(i) ==> i < bs@.len()),
        j <= ms@.len(),
    ensures
        r == next_kept(bs@, match_views(ms@), j as int, end as int),
{
    let n: usize = ms.len();
    let ghost mv = match_views(ms@);
    let mut k: usize = j;
    while k < n
        invariant
            n == ms@.len(),
            j <= k <= n,
            mv == match_views(ms@),
            forall|k: int|
                0 <= k < ms@.len() ==> ((#[trigger] ms@[k]) matches Some(i) ==> i < bs@.len()),
            next_kept(bs@, mv, j as int, end as int) == next_kept(bs@, mv, k as int, end as int),
        decreases n - k,
    {
        match ms[k] {
            Some(i) => {
                assert(mv[k as int] == Some(i as int));
                return bs[i].start;
            },
            None => {
                assert(mv[k as int] is None);
            },
        }
        k = k + 1;
    }
    end
}

/// Append the insertions of tables that the document does not have, and collect the
/// warnings on what cannot be created.
fn push_insertions(
    out: &mut Tagged,
    warnings: &mut Vec<String>,
    bs: &Vec<Barrier>,
    model: &DocModel,
    places: &Vec<usize>,
    ms: &Vec<Option<usize>>,
    end: usize,
)
    requires
        old(out).wf(),
        old(warnings)@.len() == 0,
        places@.len() == barrier_nodes(node_views(model@)).len(),
        forall|j: int|
            0 <= j < places@.len() ==> (#[trigger] places@[j]) < model@.len()
                && model@[places@[j] as int]@ == barrier_nodes(node_views(model@))[j],
        ms@.len() == places@.len(),
        forall|k: int|
            0 <= k < ms@.len() ==> ((#[trigger] ms@[k]) matches Some(i) ==> i < bs@.len()),
    ensures
        final(out).wf(),
        final(out).pairs() == old(out).pairs() + insertions(
            bs@,
            barrier_nodes(node_views(model@)),
            match_views(ms@),
            end as int,
            places@.len() as int,
        ),
        string_views(final(warnings)@) == barrier_warnings(
            barrier_nodes(node_views(model@)),
            match_views(ms@),
            places@.len() as int,
        ),
{
    let n: usize = places.len();
    let ghost ns = barrier_nodes(node_views(model@));
    let ghost mv = match_views(ms@);
    let ghost start = out.pairs();
    assert(start + insertions(bs@, ns, mv, end as int, 0) =~= start);
    assert(string_views(warnings@) =~= barrier_warnings(ns, mv, 0));
    for j in 0..n
        invariant
            n == places@.len(),
            ns == barrier_nodes(node_views(model@)),
            mv == match_views(ms@),
            n == ns.len(),
            n == ms@.len(),
            forall|j: int|
                0 <= j < places@.len() ==> (#[trigger] places@[j]) < model@.len()
                    && model@[places@[j] as int]@ == ns[j],
            forall|k: int|
                0 <= k < ms@.len() ==> ((#[trigger] ms@[k]) matches Some(i) ==> i < bs@.len()),
            out.wf(),
            out.pairs() == start + insertions(bs@, ns, mv, end as int, j as int),
            string_views(warnings@) == barrier_warnings(ns, mv, j as int),
    {
        let ghost had = string_views(warnings@);
        let at: usize = places[j];
        assert(model@[at as int]@ == ns[j as int]);
        if ms[j].is_some() {
            assert(mv[j as int] is Some);
        } else {
            assert(mv[j as int] is None);
            match &model[at] {
                Node::Table(t) => {
                    let pos: usize = find_kept(bs, ms, j + 1, end);
                    let rows: usize = t.rows.len();
                    assert(t@.len() == rows);
                    out.push(pos, insert_json(rows, t.columns(), pos));
                },
                Node::Toc => {
                    warnings.push(
                        "a table of contents can't be created via the API; left out".to_owned(),
                    );
                    assert(string_views(warnings@) =~= had.push(
                        "a table of contents can't be created via the API; left out"@,
                    ));
                },
                Node::Rule => {
                    warnings.push(
                        "a horizontal rule (`---`) can't be created via the API; left out".to_owned(),
                    );
                    assert(string_views(warnings@) =~= had.push(
                        "a horizontal rule (`---`) can't be created via the API; left out"@,
                    ));
                },
                Node::Para(_) => {
                    proof {
                        lemma_barrier_nodes(node_views(model@), j as int);
                    }
                },
            }
        }
        assert(out.pairs() =~= start + insertions(bs@, ns, mv, end as int, j + 1));
        assert(string_views(warnings@) =~= barrier_warnings(ns, mv, j + 1));
    }
}

/// Every barrier is one.
proof fn lemma_barrier_nodes(nodes: Seq<NodeV>, j: int)
    requires
        0 <= j < barrier_nodes(nodes).len(),
    ensures
        barrier_nodes(nodes)[j].barrier(),
    decreases nodes.len(),
{
    if nodes.len() > 0 {
        let before = barrier_nodes(nodes.drop_last());
        if j < before.len() {
            lemma_barrier_nodes(nodes.drop_last(), j);
        }
    }
}

/// A model has as many barriers as its count says.
pub proof fn lemma_barrier_count(nodes: Seq<NodeV>)
    ensures
        barrier_nodes(nodes).len() == barrier_count(nodes),
    decreases nodes.len(),
{
    if nodes.len() > 0 {
        lemma_barrier_count(nodes.drop_last());
    }
}

/// A part of a model has no more barriers than the whole.
proof fn lemma_count_prefix(nodes: Seq<NodeV>, i: int)
    requires
        0 <= i <= nodes.len(),
    ensures
        barrier_count(nodes.take(i)) <= barrier_count(nodes),
    decreases nodes.len() - i,
{
    if i < nodes.len() {
        lemma_count_prefix(nodes, i + 1);
        assert(nodes.take(i + 1).drop_last() =~= nodes.take(i));
    } else {
        assert(nodes.take(i) =~= nodes);
    }
}

/// The model without the barriers that cannot be created.
fn drop_uncreatable(model: &DocModel, ms: &Vec<Option<usize>>) -> (r: DocModel)
    requires
        ms@.len() == barrier_count(node_views(model@)),
    ensures
        node_views(r@) == achievable(
            node_views(model@),
            match_views(ms@),
            model@.len() as int,
        ),
{
    let ghost all = node_views(model@);
    let ghost mv = match_views(ms@);
    let n: usize = model.len();
    let total: usize = ms.len();
    let mut out: Vec<Node> = Vec::new();
    let mut b: usize = 0;
    assert(all.take(0) =~= Seq::<NodeV>::empty());
    assert(node_views(out@) =~= Seq::<NodeV>::empty());
    for i in 0..n
        invariant
            n == model@.len(),
            all == node_views(model@),
            mv == match_views(ms@),
            total == ms@.len(),
            total == barrier_count(all),
            b == barrier_count(all.take(i as int)),
            node_views(out@) == achievable(all, mv, i as int),
    {
        let ghost before = node_views(out@);
        let node = &model[i];
        assert(all[i as int] == node@);
        proof {
            assert(all.take(i + 1).drop_last() =~= all.take(i as int));
            assert(all.take(i + 1).last() == node@);
            lemma_count_prefix(all, i + 1);
        }
        let keep = if node.is_barrier() {
            let m = ms[b];
            assert(mv[b as int] is Some <==> m is Some);
            b = b + 1;
            m.is_some() || matches!(node, Node::Table(_))
        } else {
            true
        };
        if keep {
            out.push(node.clone());
            assert(node_views(out@) =~= before.push(node@));
        }
    }
    out
}

/// Reconcile the barriers along the steps of an edit script between them.
pub fn reconcile_along(
    current: &[CurNode],
    desired: &DocModel,
    append_pos: usize,
    steps: &[EditStep],
) -> (r: (Vec<Json>, DocModel, Vec<String>))
    requires
        edit_script(
            steps@,
            cur_numbers(barriers_of(cur_views(current@))),
            des_numbers(barrier_nodes(node_views(desired@))),
        ),
    ensures
        (json_views(r.0@), node_views(r.1@), string_views(r.2@)) == reconciled(
            cur_views(current@),
            node_views(desired@),
            append_pos as int,
            steps@,
        ),
{
    let bs = current_barriers(current);
    let places = desired_barrier_nodes(desired);
    let old_len: usize = bs.len();
    let (ms, gone) = align(steps, old_len);
    proof {
        let a = cur_numbers(bs@);
        let b = des_numbers(barrier_nodes(node_views(desired@)));
        lemma_match_len(steps@, steps@.len() as int);
        lemma_match_bounds(steps@, a, b, steps@.len() as int);
        assert(match_views(ms@).len() == ms@.len());
        assert forall|k: int| 0 <= k < ms@.len() implies ((#[trigger] ms@[k]) matches Some(i) ==> i
            < bs@.len()) by {
            assert(match_views(ms@)[k] == all_matches(steps@)[k]);
        }
        lemma_barrier_count(node_views(desired@));
    }
    let mut tagged = Tagged { keys: Vec::new(), ops: Vec::new() };
    assert(tagged.pairs() =~= Seq::<(int, JsonV)>::empty());
    let mut warnings: Vec<String> = Vec::new();
    push_deletions(&mut tagged, &bs, &gone);
    push_insertions(&mut tagged, &mut warnings, &bs, desired, &places, &ms, append_pos);
    assert(tagged.pairs() =~= tagged_ops(
        cur_views(current@),
        node_views(desired@),
        append_pos as int,
        steps@,
    ));
    let ops = tagged.ordered();
    let adjusted = drop_uncreatable(desired, &ms);
    (ops, adjusted, warnings)
}

/// Reconcile the barriers of the document with those of the desired model. Returns the
/// structural requests (whole tables inserted, barriers deleted; the highest index first),
/// the model without the rules and tables of contents that cannot be created, and a
/// warning for each of those.
///
/// `append_pos` is where a new table goes when no barrier that stays follows it.
pub fn reconcile_barriers(current: &[CurNode], desired: &DocModel, append_pos: usize) -> (r: (
    Vec<Json>,
    DocModel,
    Vec<String>,
))
    ensures
        (json_views(r.0@), node_views(r.1@), string_views(r.2@)) == reconciled(
            cur_views(current@),
            node_views(desired@),
            append_pos as int,
            barrier_script(cur_views(current@), node_views(desired@)),
        ),
        // The script leads from the kinds of barriers that are there to those that should
        // be, and no other deletes and inserts fewer.
        edit_script(
            barrier_script(cur_views(current@), node_views(desired@)),
            cur_numbers(barriers_of(cur_views(current@))),
            des_numbers(barrier_nodes(node_views(desired@))),
        ),
        fewest_changes(
            barrier_script(cur_views(current@), node_views(desired@)),
            cur_numbers(barriers_of(cur_views(current@))),
            des_numbers(barrier_nodes(node_views(desired@))),
        ),
        // Barriers that agree already need no request.
        cur_numbers(barriers_of(cur_views(current@))) == des_numbers(
            barrier_nodes(node_views(desired@)),
        ) ==> r.0@.len() == 0 && node_views(r.1@) == node_views(desired@) && r.2@.len() == 0,
{
    let bs = current_barriers(current);
    let places = desired_barrier_nodes(desired);
    let ghost ns = barrier_nodes(node_views(desired@));
    let n: usize = bs.len();
    let m: usize = places.len();
    let mut a: Vec<u128> = Vec::new();
    for i in 0..n
        invariant
            n == bs@.len(),
            a@.len() == i,
            forall|k: int| 0 <= k < i ==> (#[trigger] a@[k]) == kind_number(bs@[k].kind),
    {
        a.push(number_kind(bs[i].kind));
    }
    let mut b: Vec<u128> = Vec::new();
    for j in 0..m
        invariant
            m == places@.len(),
            ns == barrier_nodes(node_views(desired@)),
            m == ns.len(),
            forall|j: int|
                0 <= j < places@.len() ==> (#[trigger] places@[j]) < desired@.len()
                    && desired@[places@[j] as int]@ == ns[j],
            b@.len() == j,
            forall|k: int| 0 <= k < j ==> (#[trigger] b@[k]) == kind_number(node_kind(ns[k])),
    {
        b.push(number_kind(kind_of_node(&desired[places[j]])));
    }
    assert(a@ =~= cur_numbers(bs@));
    assert(b@ =~= des_numbers(ns));
    let steps = diff_slices(a.as_slice(), b.as_slice());
    proof {
        law_tight(steps@, a@, b@);
        law_fewest_changes(steps@, a@, b@);
    }
    let r = reconcile_along(current, desired, append_pos, steps.as_slice());
    proof {
        if a@ == b@ {
            law_settled_barriers(
                cur_views(current@),
                node_views(desired@),
                append_pos as int,
                steps@,
            );
            assert(json_views(r.0@).len() == r.0@.len());
            assert(string_views(r.2@).len() == r.2@.len());
        }
    }
    r
}

/// Where all steps are equal steps, every barrier is matched and none goes.
proof fn lemma_all_matched(steps: Seq<EditStep>, k: int)
    requires
        forall|i: int| 0 <= i < steps.len() ==> (#[trigger] steps[i]).kind is Equal,
        0 <= k <= steps.len(),
    ensures
        forall|j: int|
            0 <= j < matches_of(steps, k).len() ==> (#[trigger] matches_of(steps, k)[j]) is Some,
        forall|i: int| 0 <= i < gone_of(steps, k).len() ==> !(#[trigger] gone_of(steps, k)[i]),
    decreases k,
{
    if k > 0 {
        lemma_all_matched(steps, k - 1);
        assert(steps[k - 1].kind is Equal);
        let a = matches_of(steps, k - 1);
        let g = gone_of(steps, k - 1);
        assert forall|j: int| 0 <= j < matches_of(steps, k).len() implies (#[trigger] matches_of(
            steps,
            k,
        )[j]) is Some by {
            if j < a.len() {
                assert(matches_of(steps, k)[j] == a[j]);
            }
        }
        assert forall|i: int| 0 <= i < gone_of(steps, k).len() implies !(#[trigger] gone_of(
            steps,
            k,
        )[i]) by {
            if i < g.len() {
                assert(gone_of(steps, k)[i] == g[i]);
            }
        }
    }
}

proof fn lemma_no_deletions(bs: Seq<Barrier>, gone: Seq<bool>, n: int)
    requires
        0 <= n <= bs.len(),
        gone.len() == bs.len(),
        forall|i: int| 0 <= i < gone.len() ==> !(#[trigger] gone[i]),
    ensures
        deletions(bs, gone, n).len() == 0,
    decreases n,
{
    if n > 0 {
        lemma_no_deletions(bs, gone, n - 1);
    }
}

proof fn lemma_no_insertions(
    bs: Seq<Barrier>,
    ns: Seq<NodeV>,
    ms: Seq<Option<int>>,
    end: int,
    n: int,
)
    requires
        0 <= n <= ns.len(),
        ms.len() == ns.len(),
        forall|i: int| 0 <= i < ms.len() ==> (#[trigger] ms[i]) is Some,
    ensures
        insertions(bs, ns, ms, end, n).len() == 0,
        barrier_warnings(ns, ms, n).len() == 0,
    decreases n,
{
    if n > 0 {
        lemma_no_insertions(bs, ns, ms, end, n - 1);
        assert(ms[n - 1] is Some);
    }
}

proof fn lemma_all_achievable(nodes: Seq<NodeV>, ms: Seq<Option<int>>, n: int)
    requires
        0 <= n <= nodes.len(),
        ms.len() == barrier_count(nodes),
        forall|i: int| 0 <= i < ms.len() ==> (#[trigger] ms[i]) is Some,
    ensures
        achievable(nodes, ms, n) == nodes.take(n),
    decreases n,
{
    if n > 0 {
        lemma_all_achievable(nodes, ms, n - 1);
        assert(nodes.take(n).drop_last() =~= nodes.take(n - 1));
        lemma_count_prefix(nodes, n);
        if nodes[n - 1].barrier() {
            assert(ms[barrier_count(nodes.take(n - 1)) as int] is Some);
        }
        assert(nodes.take(n - 1).push(nodes[n - 1]) =~= nodes.take(n));
    } else {
        assert(nodes.take(0) =~= Seq::<NodeV>::empty());
    }
}

/// Where the document has the barriers of the model already, there is no structural
/// request and no warning, and the model stays as it is.
pub proof fn law_settled_barriers(
    cur: Seq<CurNodeV>,
    model: Seq<NodeV>,
    append_pos: int,
    steps: Seq<EditStep>,
)
    requires
        edit_script(
            steps,
            cur_numbers(barriers_of(cur)),
            des_numbers(barrier_nodes(model)),
        ),
        forall|i: int| 0 <= i < steps.len() ==> (#[trigger] steps[i]).kind is Equal,
    ensures
        reconciled(cur, model, append_pos, steps).0.len() == 0,
        reconciled(cur, model, append_pos, steps).1 == model,
        reconciled(cur, model, append_pos, steps).2.len() == 0,
{
    let n = steps.len() as int;
    let bs = barriers_of(cur);
    let ns = barrier_nodes(model);
    let ms = all_matches(steps);
    lemma_match_len(steps, n);
    lemma_all_matched(steps, n);
    lemma_barrier_count(model);
    lemma_no_deletions(bs, all_gone(steps), bs.len() as int);
    lemma_no_insertions(bs, ns, ms, append_pos, ns.len() as int);
    lemma_all_achievable(model, ms, model.len() as int);
    assert(model.take(model.len() as int) =~= model);
}

/// The paragraphs and tables of a model.
pub open spec fn solid(nodes: Seq<NodeV>) -> Seq<NodeV>
    decreases nodes.len(),
{
    if nodes.len() == 0 {
        nodes
    } else if nodes.last() is Para || nodes.last() is Table {
        solid(nodes.drop_last()).push(nodes.last())
    } else {
        solid(nodes.drop_last())
    }
}

/// Paragraphs and tables are never dropped: the reachable model has those of the desired
/// one, in their order.
pub proof fn law_solid_kept(model: Seq<NodeV>, ms: Seq<Option<int>>, n: int)
    requires
        0 <= n <= model.len(),
    ensures
        solid(achievable(model, ms, n)) == solid(model.take(n)),
    decreases n,
{
    if n > 0 {
        law_solid_kept(model, ms, n - 1);
        assert(model.take(n).drop_last() =~= model.take(n - 1));
        assert(model.take(n).last() == model[n - 1]);
        let before = achievable(model, ms, n - 1);
        let node = model[n - 1];
        assert(before.push(node).drop_last() =~= before);
        assert(before.push(node).last() == node);
    } else {
        assert(model.take(0) =~= Seq::<NodeV>::empty());
    }
}

/// The barriers of the document that stay are those that the model's barriers are
/// matched with, in order and of the same kind.
pub proof fn law_alignment(steps: Seq<EditStep>, old: Seq<u128>, new: Seq<u128>)
    requires
        edit_script(steps, old, new),
    ensures
        all_matches(steps).len() == new.len(),
        all_gone(steps).len() == old.len(),
        forall|j: int|
            0 <= j < new.len() ==> ((#[trigger] all_matches(steps)[j]) matches Some(i) ==> 0 <= i
                < old.len() && old[i] == new[j] && !all_gone(steps)[i]),
        forall|j: int, k: int|
            0 <= j < k < new.len() && (#[trigger] all_matches(steps)[j]) is Some && (
            #[trigger] all_matches(steps)[k]) is Some ==> all_matches(steps)[j]->0 < all_matches(
                steps,
            )[k]->0,
        forall|i: int|
            0 <= i < old.len() && !(#[trigger] all_gone(steps)[i]) ==> all_matches(
                steps,
            ).contains(Some(i)),
{
    lemma_match_len(steps, steps.len() as int);
    lemma_alignment(steps, old, new, steps.len() as int);
}

proof fn lemma_alignment(steps: Seq<EditStep>, old: Seq<u128>, new: Seq<u128>, n: int)
    requires
        edit_script(steps, old, new),
        0 <= n <= steps.len(),
    ensures
        matches_of(steps, n).len() == new_at(steps, n) <= new.len(),
        gone_of(steps, n).len() == old_at(steps, n) <= old.len(),
        forall|j: int|
            0 <= j < new_at(steps, n) ==> ((#[trigger] matches_of(steps, n)[j]) matches Some(i)
                ==> 0 <= i < old_at(steps, n) && old[i] == new[j] && !gone_of(steps, n)[i]),
        forall|j: int, k: int|
            0 <= j < k < new_at(steps, n) && (#[trigger] matches_of(steps, n)[j]) is Some && (
            #[trigger] matches_of(steps, n)[k]) is Some ==> matches_of(steps, n)[j]->0
                < matches_of(steps, n)[k]->0,
        forall|i: int|
            0 <= i < old_at(steps, n) && !(#[trigger] gone_of(steps, n)[i]) ==> matches_of(
                steps,
                n,
            ).contains(Some(i)),
    decreases n,
{
    lemma_match_len(steps, n);
    lemma_at_monotonic(steps, n, steps.len() as int);
    if n > 0 {
        lemma_alignment(steps, old, new, n - 1);
        lemma_match_len(steps, n - 1);
        lemma_step_bounds(steps, old, new, n - 1);
        assert(steps[n - 1].shaped());
        assert(kept(steps, old, new, n - 1));
        let a = matches_of(steps, n - 1);
        let g = gone_of(steps, n - 1);
        let m = matches_of(steps, n);
        let h = gone_of(steps, n);
        let (o, p) = (old_at(steps, n - 1), old_at(steps, n));
        let (q, r) = (new_at(steps, n - 1), new_at(steps, n));
        let same = steps[n - 1].kind is Equal;
        assert forall|j: int| 0 <= j < r implies ((#[trigger] m[j]) matches Some(i) ==> 0 <= i < p
            && old[i] == new[j] && !h[i]) by {
            if j < q {
                assert(m[j] == a[j]);
                if let Some(i) = a[j] {
                    assert(h[i] == g[i]);
                }
            } else if same {
                let t = j - q;
                assert(m[j] == Some(o + t));
                assert(old.subrange(o, p)[t] == new.subrange(q, r)[t]);
                assert(!h[o + t]);
            }
        }
        assert forall|j: int, k: int|
            0 <= j < k < r && (#[trigger] m[j]) is Some && (#[trigger] m[k]) is Some implies m[j]->0
            < m[k]->0 by {
            if k < q {
                assert(m[j] == a[j] && m[k] == a[k]);
            } else {
                assert(m[k] == Some(o + (k - q)));
                if j < q {
                    assert(m[j] == a[j]);
                } else {
                    assert(m[j] == Some(o + (j - q)));
                }
            }
        }
        assert forall|i: int| 0 <= i < p && !(#[trigger] h[i]) implies m.contains(Some(i)) by {
            if i < o {
                assert(h[i] == g[i]);
                assert(a.contains(Some(i)));
                let j = choose|j: int| 0 <= j < a.len() && a[j] == Some(i);
                assert(m[j] == Some(i));
            } else {
                assert(same);
                assert(m[q + (i - o)] == Some(i));
            }
        }
    }
}

// ---------------------------------------------------------------------------
// Table dimensions
// ---------------------------------------------------------------------------

/// A table of the document and the dimensions that it should have.
pub struct Resize {
    pub start: usize,
    pub cur_rows: usize,
    pub cur_cols: usize,
    pub des_rows: usize,
    pub des_cols: usize,
}

/// The table of a node and its counterpart, where both are tables.
pub open spec fn resize_of(cur: CurNodeV, des: DesV) -> Option<Resize> {
    match (cur, des) {
        (CurNodeV::Table { start, cells, .. }, DesV::Table(rows)) => Some(
            Resize {
                start: start as usize,
                cur_rows: cells.len() as usize,
                cur_cols: grid_columns(cells) as usize,
                des_rows: rows.len() as usize,
                des_cols: columns_of(rows) as usize,
            },
        ),
        _ => None,
    }
}

/// The tables of the first `n` nodes that have a counterpart.
pub open spec fn resizes(cur: Seq<CurNodeV>, des: Seq<DesV>, n: int) -> Seq<Resize>
    decreases n,
{
    if n <= 0 {
        Seq::empty()
    } else {
        match resize_of(cur[n - 1], des[n - 1]) {
            Some(r) => resizes(cur, des, n - 1).push(r),
            None => resizes(cur, des, n - 1),
        }
    }
}

/// The tables of the document that have a counterpart in the model.
pub open spec fn all_resizes(cur: Seq<CurNodeV>, model: Seq<NodeV>) -> Seq<Resize> {
    let des = des_sequence(model);
    resizes(cur, des, shorter(cur.len(), des.len()))
}

/// A cell of the table that starts at `start`.
pub open spec fn cell_location(start: int, row: int, column: int) -> JsonV {
    JsonV::Object(
        seq![
            ("tableStartLocation"@, JsonV::Object(seq![("index"@, json_number(start))])),
            ("rowIndex"@, json_number(row)),
            ("columnIndex"@, json_number(column)),
        ],
    )
}

/// A request on a row or column of a table, named by one of its cells; `beside` names
/// the flag that an insertion carries.
pub open spec fn table_op(name: Seq<char>, location: JsonV, beside: Option<Seq<char>>) -> JsonV {
    let members = seq![("tableCellLocation"@, location)];
    JsonV::Object(
        seq![
            (
                name,
                JsonV::Object(
                    match beside {
                        Some(flag) => members.push((flag, JsonV::Bool(true))),
                        None => members,
                    },
                ),
            ),
        ],
    )
}

/// How much greater `a` is than `b`.
pub open spec fn excess(a: usize, b: usize) -> nat {
    if a > b {
        (a - b) as nat
    } else {
        0
    }
}

/// The requests that give a table its dimensions: rows are appended below the growing
/// last row or trimmed from the bottom, then columns at the right.
pub open spec fn resize_ops(r: Resize) -> Seq<JsonV> {
    let start = r.start as int;
    Seq::new(
        excess(r.des_rows, r.cur_rows),
        |i: int|
            table_op(
                "insertTableRow"@,
                cell_location(start, r.cur_rows - 1 + i, 0),
                Some("insertBelow"@),
            ),
    ) + Seq::new(
        excess(r.cur_rows, r.des_rows),
        |i: int|
            table_op("deleteTableRow"@, cell_location(start, r.cur_rows - 1 - i, 0), None),
    ) + Seq::new(
        excess(r.des_cols, r.cur_cols),
        |i: int|
            table_op(
                "insertTableColumn"@,
                cell_location(start, 0, r.cur_cols - 1 + i),
                Some("insertRight"@),
            ),
    ) + Seq::new(
        excess(r.cur_cols, r.des_cols),
        |i: int|
            table_op("deleteTableColumn"@, cell_location(start, 0, r.cur_cols - 1 - i), None),
    )
}

/// The requests for the tables in this order, up to the `n`-th.
pub open spec fn ops_in_order(rs: Seq<Resize>, order: Seq<int>, n: int) -> Seq<JsonV>
    decreases n,
{
    if n <= 0 {
        Seq::empty()
    } else {
        ops_in_order(rs, order, n - 1) + resize_ops(rs[order[n - 1]])
    }
}

/// Where the tables start.
pub open spec fn resize_keys(rs: Seq<Resize>) -> Seq<int> {
    Seq::new(rs.len(), |i: int| rs[i].start as int)
}

/// The requests that give the document's tables the dimensions of the model's, the table
/// with the highest start first.
pub open spec fn resize_requests(cur: Seq<CurNodeV>, model: Seq<NodeV>) -> Seq<JsonV> {
    let rs = all_resizes(cur, model);
    ops_in_order(rs, order_of(resize_keys(rs)), rs.len() as int)
}

/// A table that has to grow has a row or column to grow from.
pub open spec fn growable(r: Resize) -> bool {
    &&& r.des_rows > r.cur_rows ==> r.cur_rows > 0
    &&& r.des_cols > r.cur_cols ==> r.cur_cols > 0
}

/// Every table that has to grow has a row or column to grow from.
pub open spec fn all_growable(rs: Seq<Resize>) -> bool {
    forall|i: int| 0 <= i < rs.len() ==> growable(#[trigger] rs[i])
}

/// A cell of the table that starts at `start`.
fn location_json(start: usize, row: usize, column: usize) -> (r: Json)
    ensures
        r@ == cell_location(start as int, row as int, column as int),
{
    let head = object1("tableStartLocation", object1("index", number(start)));
    let ghost h = ("tableStartLocation"@, JsonV::Object(seq![("index"@, json_number(start as int))]));
    let r = with(with(head, "rowIndex", number(row)), "columnIndex", number(column));
    proof {
        let a = ("rowIndex"@, json_number(row as int));
        let b = ("columnIndex"@, json_number(column as int));
        assert(seq![h].push(a).push(b) =~= seq![h, a, b]);
    }
    r
}

/// A request on a row or column of a table.
fn table_json(name: &str, location: Json, beside: Option<&str>) -> (r: Json)
    ensures
        r@ == table_op(
            name@,
            location@,
            match beside {
                Some(flag) => Some(flag@),
                None => None,
            },
        ),
{
    let cell = object1("tableCellLocation", location);
    let body = match beside {
        Some(flag) => with(cell, flag, Json::Bool(true)),
        None => cell,
    };
    object1(name, body)
}

/// Append the requests that give a table its dimensions.
fn push_resize(ops: &mut Vec<Json>, r: &Resize)
    requires
        growable(*r),
    ensures
        json_views(final(ops)@) == json_views(old(ops)@) + resize_ops(*r),
{
    let ghost all = resize_ops(*r);
    let ghost start = json_views(ops@);
    let more_rows: usize = if r.des_rows > r.cur_rows {
        r.des_rows - r.cur_rows
    } else {
        0
    };
    let less_rows: usize = if r.cur_rows > r.des_rows {
        r.cur_rows - r.des_rows
    } else {
        0
    };
    let more_cols: usize = if r.des_cols > r.cur_cols {
        r.des_cols - r.cur_cols
    } else {
        0
    };
    let less_cols: usize = if r.cur_cols > r.des_cols {
        r.cur_cols - r.des_cols
    } else {
        0
    };
    assert(start + all.take(0) =~= start);
    for i in 0..more_rows
        invariant
            growable(*r),
            more_rows == excess(r.des_rows, r.cur_rows),
            all == resize_ops(*r),
            json_views(ops@) == start + all.take(i as int),
    {
        let ghost before = json_views(ops@);
        let op = table_json(
            "insertTableRow",
            location_json(r.start, r.cur_rows - 1 + i, 0),
            Some("insertBelow"),
        );
        assert(op@ == all[i as int]);
        ops.push(op);
        assert(json_views(ops@) =~= before.push(op@));
        assert(all.take(i + 1) =~= all.take(i as int).push(op@));
    }
    for i in 0..less_rows
        invariant
            more_rows == excess(r.des_rows, r.cur_rows),
            less_rows == excess(r.cur_rows, r.des_rows),
            all == resize_ops(*r),
            json_views(ops@) == start + all.take(more_rows + i),
    {
        let ghost before = json_views(ops@);
        let op = table_json(
            "deleteTableRow",
            location_json(r.start, r.cur_rows - 1 - i, 0),
            None,
        );
        assert(op@ == all[more_rows + i]);
        ops.push(op);
        assert(json_views(ops@) =~= before.push(op@));
        assert(all.take(more_rows + i + 1) =~= all.take(more_rows + i).push(op@));
    }
    for i in 0..more_cols
        invariant
            growable(*r),
            more_rows == excess(r.des_rows, r.cur_rows),
            less_rows == excess(r.cur_rows, r.des_rows),
            more_cols == excess(r.des_cols, r.cur_cols),
            all == resize_ops(*r),
            json_views(ops@) == start + all.take(more_rows + less_rows + i),
    {
        let ghost before = json_views(ops@);
        let op = table_json(
            "insertTableColumn",
            location_json(r.start, 0, r.cur_cols - 1 + i),
            Some("insertRight"),
        );
        assert(op@ == all[more_rows + less_rows + i]);
        ops.push(op);
        assert(json_views(ops@) =~= before.push(op@));
        assert(all.take(more_rows + less_rows + i + 1) =~= all.take(
            more_rows + less_rows + i,
        ).push(op@));
    }
    for i in 0..less_cols
        invariant
            more_rows == excess(r.des_rows, r.cur_rows),
            less_rows == excess(r.cur_rows, r.des_rows),
            more_cols == excess(r.des_cols, r.cur_cols),
            less_cols == excess(r.cur_cols, r.des_cols),
            all == resize_ops(*r),
            json_views(ops@) == start + all.take(more_rows + less_rows + more_cols + i),
    {
        let ghost before = json_views(ops@);
        let op = table_json(
            "deleteTableColumn",
            location_json(r.start, 0, r.cur_cols - 1 - i),
            None,
        );
        assert(op@ == all[more_rows + less_rows + more_cols + i]);
        ops.push(op);
        assert(json_views(ops@) =~= before.push(op@));
        assert(all.take(more_rows + less_rows + more_cols + i + 1) =~= all.take(
            more_rows + less_rows + more_cols + i,
        ).push(op@));
    }
    assert(all.take(more_rows + less_rows + more_cols + less_cols) =~= all);
}

/// The tables of the document that have a counterpart in the model.
pub fn matched_tables(current: &[CurNode], desired: &DocModel) -> (r: Vec<Resize>)
    ensures
        r@ == all_resizes(cur_views(current@), node_views(desired@)),
{
    let des = desired_sequence(desired);
    let ghost cv = cur_views(current@);
    let ghost dv = des_views(des@);
    assert(cv.len() == current@.len() && dv.len() == des@.len());
    let n: usize = if current.len() < des.len() {
        current.len()
    } else {
        des.len()
    };
    let mut out: Vec<Resize> = Vec::new();
    for i in 0..n
        invariant
            n == shorter(current@.len(), des@.len()),
            cv == cur_views(current@),
            dv == des_views(des@),
            out@ == resizes(cv, dv, i as int),
    {
        assert(cv[i as int] == current@[i as int]@);
        assert(dv[i as int] == des@[i as int]@);
        match (&current[i], &des[i]) {
            (CurNode::Table { start_index, cells, .. }, DesNode::Table(t)) => {
                let cur_cols: usize = if cells.len() == 0 {
                    0
                } else {
                    cells[0].len()
                };
                assert(cur_cols == grid_columns(grid_views(cells@)));
                assert(t@.len() == t.rows@.len());
                out.push(
                    Resize {
                        start: *start_index,
                        cur_rows: cells.len(),
                        cur_cols,
                        des_rows: t.rows.len(),
                        des_cols: t.columns(),
                    },
                );
            },
            _ => {},
        }
    }
    out
}

/// The requests that reshape each table of the document that has a counterpart in the
/// model to the counterpart's row and column count. Tables are processed highest start
/// first, so that the growth of one never moves the start of another. What the cells
/// hold is reconciled afterwards.
pub fn table_resize_requests(current: &[CurNode], desired: &DocModel) -> (r: Vec<Json>)
    requires
        all_growable(all_resizes(cur_views(current@), node_views(desired@))),
    ensures
        json_views(r@) == resize_requests(cur_views(current@), node_views(desired@)),
{
    let tables = matched_tables(current, desired);
    let ghost rs = tables@;
    let n: usize = tables.len();
    let mut keys: Vec<usize> = Vec::new();
    for i in 0..n
        invariant
            n == tables@.len(),
            keys@.len() == i,
            forall|k: int| 0 <= k < i ==> (#[trigger] keys@[k]) == tables@[k].start,
    {
        keys.push(tables[i].start);
    }
    assert(key_views(keys@) =~= resize_keys(rs));
    let order = descending_order(&keys);
    let ghost ov = key_views(order@);
    let mut ops: Vec<Json> = Vec::new();
    assert(json_views(ops@) =~= Seq::<JsonV>::empty());
    for i in 0..n
        invariant
            n == tables@.len(),
            rs == tables@,
            all_growable(rs),
            order@.len() == n,
            ov == key_views(order@),
            forall|k: int| 0 <= k < n ==> (#[trigger] order@[k]) < n,
            json_views(ops@) == ops_in_order(rs, ov, i as int),
    {
        let k: usize = order[i];
        assert(growable(rs[k as int]));
        push_resize(&mut ops, &tables[k]);
    }
    ops
}

} // verus!
