//! One sync of a live document, as decisions between reads and writes.
//!
//! A session goes through three phases, each on a fresh read: the barriers are made to
//! agree, the tables get their dimensions, and the content is edited. Nothing is
//! predicted: after each write the document is read again. Writes are locked to the
//! revision that was read.
use crate::api::{current_nodes, document_model, document_nodes};
use crate::barrier_laws::law_left_out;
use crate::document_laws::law_own_model;
use crate::gate::{string_views, unsupported, unsupported_features};
use crate::json::{json_views, Json, JsonV};
use crate::limits::{can_resize, can_sync, syncable};
use crate::model::{node_views, DocModel, Node, NodeV};
use crate::nodes::{all_units, cur_views, node_requests, settled, sync_nodes, CurNode, CurNodeV};
use crate::reconcile::{rev_of, revision};
use crate::request::request_views;
use crate::structure::{
    all_growable, all_matches, all_resizes, barrier_script, law_solid_kept, reconcile_barriers,
    reconciled, resize_requests, solid, table_resize_requests,
};
use crate::sync::SegmentV;
use crate::text::join;
use crate::wire::{all_to_json, requests_json};
use crate::wire_laws::{
    document_written, law_document_written, law_requests_read, lemma_fit, read_requests, somes,
};
use vstd::prelude::*;

verus! {

/// What the next read of the document is for.
#[derive(Debug, Clone, Copy, PartialEq, Eq, Structural)]
pub enum Phase {
    /// The first read: check the content, then make the barriers agree.
    Structure,
    /// Give the tables their dimensions.
    Dimensions,
    /// Edit paragraphs and cells.
    Content,
    /// Nothing is left to do.
    Done,
}

/// The state of a session.
#[derive(Debug)]
pub struct Session {
    pub phase: Phase,
    pub desired: DocModel,
    pub warnings: Vec<String>,
}

/// What a [`Session`] holds.
#[verifier::ext_equal]
pub struct SessionV {
    pub phase: Phase,
    pub desired: Seq<NodeV>,
    pub warnings: Seq<Seq<char>>,
}

impl View for Session {
    type V = SessionV;

    open spec fn view(&self) -> SessionV {
        SessionV {
            phase: self.phase,
            desired: node_views(self.desired@),
            warnings: string_views(self.warnings@),
        }
    }
}

/// What to do next.
#[derive(Debug)]
pub enum Action {
    /// Read the document.
    Fetch,
    /// Send these requests, locked to this revision.
    Write { requests: Vec<Json>, revision: String },
    /// The session is over; the warnings, or the error of a write.
    Finish(Result<Vec<String>, String>),
    /// The document cannot be edited: an index would not fit, or a table has no row or
    /// cell to go by.
    Stuck,
}

/// What an [`Action`] says.
#[verifier::ext_equal]
pub enum ActionV {
    Fetch,
    Write { requests: Seq<JsonV>, revision: Seq<char> },
    Finish(Result<Seq<Seq<char>>, Seq<char>>),
    Stuck,
}

impl View for Action {
    type V = ActionV;

    open spec fn view(&self) -> ActionV {
        match self {
            Action::Fetch => ActionV::Fetch,
            Action::Write { requests, revision } => ActionV::Write {
                requests: json_views(requests@),
                revision: revision@,
            },
            Action::Finish(Ok(ws)) => ActionV::Finish(Ok(string_views(ws@))),
            Action::Finish(Err(e)) => ActionV::Finish(Err(e@)),
            Action::Stuck => ActionV::Stuck,
        }
    }
}

/// The message for a document with content that the model does not hold.
pub open spec fn refusal(labels: Seq<Seq<char>>) -> Seq<char> {
    "no changes applied: document contains unsupported content ("@ + join(labels, ", "@)
        + ") that could be corrupted by editing"@
}

/// The JSON written reads as the edits of the document's regions, and carried out by the
/// service it brings each region to its text.
pub open spec fn content_written(doc: JsonV, model: Seq<NodeV>, js: Seq<JsonV>) -> bool {
    &&& read_requests(js) == somes(node_requests(document_nodes(doc), model))
    &&& document_written(document_nodes(doc), model, js)
}

/// The content phase: the edits, or the end where there are none.
pub open spec fn content_step(s: SessionV, doc: JsonV) -> (SessionV, ActionV) {
    let nodes = document_nodes(doc);
    if !syncable(nodes, s.desired) {
        (s, ActionV::Stuck)
    } else {
        let reqs = node_requests(nodes, s.desired);
        let done = SessionV { phase: Phase::Done, ..s };
        if reqs.len() == 0 {
            (done, ActionV::Finish(Ok(s.warnings)))
        } else {
            (
                done,
                ActionV::Write { requests: requests_json(reqs), revision: revision(doc) },
            )
        }
    }
}

/// The dimensions phase: the table requests, or the content phase where there are none.
pub open spec fn dimensions_step(s: SessionV, doc: JsonV) -> (SessionV, ActionV) {
    let nodes = document_nodes(doc);
    let next = SessionV { phase: Phase::Content, ..s };
    if !all_growable(all_resizes(nodes, s.desired)) {
        (s, ActionV::Stuck)
    } else {
        let ops = resize_requests(nodes, s.desired);
        if ops.len() == 0 {
            content_step(next, doc)
        } else {
            (next, ActionV::Write { requests: ops, revision: revision(doc) })
        }
    }
}

/// Where the last segment of the document starts; a table that goes last is inserted
/// there.
pub open spec fn append_index(nodes: Seq<CurNodeV>) -> int {
    if nodes.len() > 0 {
        match nodes.last() {
            CurNodeV::Paras(seg) => seg.start,
            _ => 1,
        }
    } else {
        1
    }
}

/// A table that goes last is inserted before the paragraphs at the end of the document.
pub proof fn law_append(nodes: Seq<CurNodeV>, seg: SegmentV)
    ensures
        append_index(nodes.push(CurNodeV::Paras(seg))) == seg.start,
        append_index(Seq::empty()) == 1,
{
}

/// The structure phase: a document with content that the model does not hold is left as
/// it is. Otherwise the barrier requests, or the dimensions phase where there are none,
/// with the model that can be reached.
pub open spec fn structure_step(s: SessionV, doc: JsonV) -> (SessionV, ActionV) {
    if unsupported(doc).len() > 0 {
        (
            SessionV { phase: Phase::Done, ..s },
            ActionV::Finish(Ok(seq![refusal(unsupported(doc))])),
        )
    } else {
        let nodes = document_nodes(doc);
        let (ops, desired, warnings) = reconciled(
            nodes,
            s.desired,
            append_index(nodes),
            barrier_script(nodes, s.desired),
        );
        let next = SessionV { phase: Phase::Dimensions, desired, warnings };
        if ops.len() == 0 {
            dimensions_step(next, doc)
        } else {
            (next, ActionV::Write { requests: ops, revision: revision(doc) })
        }
    }
}

/// What follows a read of the document.
pub open spec fn after_read(s: SessionV, doc: JsonV) -> (SessionV, ActionV) {
    match s.phase {
        Phase::Structure => structure_step(s, doc),
        Phase::Dimensions => dimensions_step(s, doc),
        Phase::Content => content_step(s, doc),
        Phase::Done => (s, ActionV::Finish(Ok(s.warnings))),
    }
}

/// What follows a write: the next read, or the end; a refused write ends the session with
/// its error.
pub open spec fn after_write(s: SessionV, result: Result<(), Seq<char>>) -> ActionV {
    match result {
        Err(e) => ActionV::Finish(Err(e)),
        Ok(_) => if s.phase == Phase::Done {
            ActionV::Finish(Ok(s.warnings))
        } else {
            ActionV::Fetch
        },
    }
}

/// Copies of the nodes.
fn copy_model(model: &DocModel) -> (r: DocModel)
    ensures
        node_views(r@) == node_views(model@),
{
    let n: usize = model.len();
    let mut out: Vec<Node> = Vec::new();
    for i in 0..n
        invariant
            n == model@.len(),
            out@.len() == i,
            forall|k: int| 0 <= k < i ==> (#[trigger] out@[k])@ == model@[k]@,
    {
        out.push(model[i].clone());
    }
    assert(node_views(out@) =~= node_views(model@));
    out
}

/// Copies of the strings.
fn copy_strings(v: &Vec<String>) -> (r: Vec<String>)
    ensures
        string_views(r@) == string_views(v@),
{
    let n: usize = v.len();
    let mut out: Vec<String> = Vec::new();
    for i in 0..n
        invariant
            n == v@.len(),
            out@.len() == i,
            forall|k: int| 0 <= k < i ==> (#[trigger] out@[k])@ == v@[k]@,
    {
        out.push(v[i].clone());
    }
    assert(string_views(out@) =~= string_views(v@));
    out
}

/// The strings joined with `sep` between them.
fn join_strings(parts: &Vec<String>, sep: &str) -> (r: String)
    ensures
        r@ == join(string_views(parts@), sep@),
{
    let n: usize = parts.len();
    let ghost all = string_views(parts@);
    let mut out = String::new();
    assert(all.take(0) =~= Seq::<Seq<char>>::empty());
    assert(out@ =~= join(all.take(0), sep@));
    for i in 0..n
        invariant
            n == parts@.len(),
            all == string_views(parts@),
            out@ == join(all.take(i as int), sep@),
    {
        if i > 0 {
            out.append(sep);
        }
        out.append(parts[i].as_str());
        assert(all.take(i + 1).drop_last() =~= all.take(i as int));
        if i == 0 {
            assert(out@ =~= all[0]);
        }
        assert(out@ =~= join(all.take(i + 1), sep@));
    }
    assert(all.take(n as int) =~= all);
    out
}

impl Session {
    /// A session that brings a document to `desired`. It starts with a read.
    pub fn new(desired: &DocModel) -> (r: Session)
        ensures
            r@ == (SessionV {
                phase: Phase::Structure,
                desired: node_views(desired@),
                warnings: Seq::empty(),
            }),
    {
        let warnings: Vec<String> = Vec::new();
        assert(string_views(warnings@) =~= Seq::<Seq<char>>::empty());
        Session { phase: Phase::Structure, desired: copy_model(desired), warnings }
    }

    fn on_content(&mut self, doc: &Json, nodes: &Vec<CurNode>) -> (r: Action)
        requires
            cur_views(nodes@) == document_nodes(doc@),
        ensures
            (final(self)@, r@) == content_step(old(self)@, doc@),
            r@ matches ActionV::Write { requests, .. } ==> content_written(
                doc@,
                old(self)@.desired,
                requests,
            ),
            syncable(document_nodes(doc@), old(self)@.desired) && settled(
                all_units(document_nodes(doc@), old(self)@.desired),
            ) ==> r@ == ActionV::Finish(Ok(old(self)@.warnings)),
    {
        if !can_sync(nodes.as_slice(), &self.desired) {
            return Action::Stuck;
        }
        let reqs = sync_nodes(nodes.as_slice(), &self.desired);
        proof {
            lemma_fit(reqs@);
            law_requests_read(request_views(reqs@));
            law_document_written(document_nodes(doc@), self@.desired);
        }
        assert(request_views(reqs@).len() == reqs@.len());
        self.phase = Phase::Done;
        if reqs.len() == 0 {
            Action::Finish(Ok(copy_strings(&self.warnings)))
        } else {
            Action::Write { requests: all_to_json(reqs.as_slice()), revision: rev_of(doc) }
        }
    }

    fn on_dimensions(&mut self, doc: &Json, nodes: &Vec<CurNode>) -> (r: Action)
        requires
            cur_views(nodes@) == document_nodes(doc@),
        ensures
            (final(self)@, r@) == dimensions_step(old(self)@, doc@),
            r@ matches ActionV::Write { requests, .. } ==> (final(self)@.phase == Phase::Done
                ==> content_written(doc@, final(self)@.desired, requests)),
            all_growable(all_resizes(document_nodes(doc@), old(self)@.desired))
                && resize_requests(document_nodes(doc@), old(self)@.desired).len() == 0
                && syncable(document_nodes(doc@), old(self)@.desired) && settled(
                all_units(document_nodes(doc@), old(self)@.desired),
            ) ==> r@ == ActionV::Finish(Ok(old(self)@.warnings)),
    {
        if !can_resize(nodes.as_slice(), &self.desired) {
            return Action::Stuck;
        }
        let ops = table_resize_requests(nodes.as_slice(), &self.desired);
        assert(json_views(ops@).len() == ops@.len());
        self.phase = Phase::Content;
        if ops.len() == 0 {
            self.on_content(doc, nodes)
        } else {
            Action::Write { requests: ops, revision: rev_of(doc) }
        }
    }

    fn on_structure(&mut self, doc: &Json, nodes: &Vec<CurNode>) -> (r: Action)
        requires
            cur_views(nodes@) == document_nodes(doc@),
        ensures
            (final(self)@, r@) == structure_step(old(self)@, doc@),
            r@ matches ActionV::Write { requests, .. } ==> (final(self)@.phase == Phase::Done
                ==> content_written(doc@, final(self)@.desired, requests)),
            old(self)@.desired == document_model(doc@) && unsupported(doc@).len() == 0 && syncable(
                document_nodes(doc@),
                document_model(doc@),
            ) ==> r@ == ActionV::Finish(Ok(Seq::empty())),
    {
        proof {
            law_own_model(doc@);
        }
        let labels = unsupported_features(doc);
        assert(string_views(labels@).len() == labels@.len());
        if labels.len() > 0 {
            let mut s =
                "no changes applied: document contains unsupported content (".to_owned();
            let list = join_strings(&labels, ", ");
            s.append(list.as_str());
            s.append(") that could be corrupted by editing");
            let mut out: Vec<String> = Vec::new();
            out.push(s);
            assert(string_views(out@) =~= seq![refusal(unsupported(doc@))]);
            self.phase = Phase::Done;
            return Action::Finish(Ok(out));
        }
        let n: usize = nodes.len();
        let append_pos: usize = if n > 0 {
            match &nodes[n - 1] {
                CurNode::Paras(seg) => seg.start_index,
                _ => 1,
            }
        } else {
            1
        };
        assert(append_pos == append_index(cur_views(nodes@)));
        let (ops, desired, warnings) = reconcile_barriers(
            nodes.as_slice(),
            &self.desired,
            append_pos,
        );
        assert(json_views(ops@).len() == ops@.len());
        assert(string_views(warnings@).len() == warnings@.len());
        assert(warnings@.len() == 0 ==> string_views(warnings@) =~= Seq::<Seq<char>>::empty());
        self.phase = Phase::Dimensions;
        self.desired = desired;
        self.warnings = warnings;
        if ops.len() == 0 {
            self.on_dimensions(doc, nodes)
        } else {
            Action::Write { requests: ops, revision: rev_of(doc) }
        }
    }

    /// What follows a read of the document.
    pub fn on_document(&mut self, doc: &Json) -> (r: Action)
        ensures
            (final(self)@, r@) == after_read(old(self)@, doc@),
            // What is written last, read by the service's names, gives every region its text.
            r@ matches ActionV::Write { requests, .. } ==> (final(self)@.phase == Phase::Done
                ==> content_written(doc@, final(self)@.desired, requests)),
            // A document is brought to the model that is read from it by no write.
            old(self)@.phase == Phase::Structure && old(self)@.desired == document_model(doc@)
                && unsupported(doc@).len() == 0 && syncable(
                document_nodes(doc@),
                document_model(doc@),
            ) ==> r@ == ActionV::Finish(Ok(Seq::empty())),
    {
        let nodes = current_nodes(doc);
        match self.phase {
            Phase::Structure => self.on_structure(doc, &nodes),
            Phase::Dimensions => self.on_dimensions(doc, &nodes),
            Phase::Content => self.on_content(doc, &nodes),
            Phase::Done => Action::Finish(Ok(copy_strings(&self.warnings))),
        }
    }

    /// What follows a write.
    pub fn on_write(&self, result: Result<(), String>) -> (r: Action)
        ensures
            r@ == after_write(
                self@,
                match result {
                    Ok(_) => Ok(()),
                    Err(e) => Err(e@),
                },
            ),
    {
        match result {
            Err(e) => Action::Finish(Err(e)),
            Ok(_) => match self.phase {
                Phase::Done => Action::Finish(Ok(copy_strings(&self.warnings))),
                _ => Action::Fetch,
            },
        }
    }
}

/// A document with content that the model does not hold is never written to: the first
/// read ends the session, with the names of that content in its one warning.
pub proof fn law_gate(s: SessionV, doc: JsonV)
    requires
        s.phase == Phase::Structure,
        unsupported(doc).len() > 0,
    ensures
        after_read(s, doc).1 == ActionV::Finish(Ok(seq![refusal(unsupported(doc))])),
{
}

/// A refusal names all that is unsupported, with commas between.
pub proof fn law_refusal(a: Seq<char>, b: Seq<char>)
    ensures
        refusal(seq![a]) == "no changes applied: document contains unsupported content ("@ + a
            + ") that could be corrupted by editing"@,
        refusal(seq![a, b]) == refusal(seq![a + seq![',', ' '] + b]),
{
    reveal_strlit(", ");
    assert(", "@ =~= seq![',', ' ']);
    let two = seq![a, b];
    assert(two.drop_last() =~= seq![a]);
    assert(join(seq![a], ", "@) == a);
    assert(two.last() == b);
    assert(join(two, ", "@) =~= a + seq![',', ' '] + b);
}

/// Every write is locked to the revision of the document that it was computed from.
pub proof fn law_locked(s: SessionV, doc: JsonV)
    ensures
        after_read(s, doc).1 matches ActionV::Write { revision: r, .. } ==> r == revision(doc),
{
}

/// A session writes at most once in each phase: a write leads to a later phase.
pub open spec fn rank(p: Phase) -> int {
    match p {
        Phase::Structure => 0,
        Phase::Dimensions => 1,
        Phase::Content => 2,
        Phase::Done => 3,
    }
}

/// A session ends: every read that leads to a write leads to a later phase.
pub proof fn law_progress(s: SessionV, doc: JsonV)
    ensures
        after_read(s, doc).1 is Write ==> rank(after_read(s, doc).0.phase) > rank(s.phase),
        after_read(s, doc).1 is Finish ==> after_read(s, doc).0.phase == Phase::Done,
{
}

/// What a session is to reach and what it has to warn of are settled by the first read: later
/// reads carry both along, and the session ends with these warnings.
pub proof fn law_carried(s: SessionV, doc: JsonV)
    requires
        s.phase != Phase::Structure,
    ensures
        after_read(s, doc).0.desired == s.desired,
        after_read(s, doc).0.warnings == s.warnings,
        after_read(s, doc).1 matches ActionV::Finish(r) ==> r == Result::<
            Seq<Seq<char>>,
            Seq<char>,
        >::Ok(s.warnings),
{
}

/// The first read drops nothing from what is to be reached but rules and tables of contents,
/// and has a warning for each of these.
pub proof fn law_first_read(s: SessionV, doc: JsonV)
    requires
        s.phase == Phase::Structure,
        unsupported(doc).len() == 0,
    ensures
        ({
            let next = after_read(s, doc).0;
            &&& solid(next.desired) == solid(s.desired)
            &&& next.desired.len() + next.warnings.len() == s.desired.len()
            &&& after_read(s, doc).1 matches ActionV::Finish(r) ==> r == Result::<
                Seq<Seq<char>>,
                Seq<char>,
            >::Ok(next.warnings)
        }),
{
    let ms = all_matches(barrier_script(document_nodes(doc), s.desired));
    let n = s.desired.len() as int;
    law_solid_kept(s.desired, ms, n);
    assert(s.desired.take(n) =~= s.desired);
    law_left_out(s.desired, ms);
}

/// After a write that was refused the session ends with that error; after one that was not it
/// reads again, unless it was the last.
pub proof fn law_after_write(s: SessionV, e: Seq<char>)
    ensures
        after_write(s, Err(e)) == ActionV::Finish(Err(e)),
        after_write(s, Ok(())) is Fetch <==> s.phase != Phase::Done,
        s.phase == Phase::Done ==> after_write(s, Ok(())) == ActionV::Finish(Ok(s.warnings)),
{
}

/// The phases follow one another: the barriers, then the tables, then the content. Each is
/// written by itself and leads to a new read, and where it has nothing to write the next
/// goes on with the same read.
pub proof fn law_phases(s: SessionV, doc: JsonV)
    ensures
        ({
            let nodes = document_nodes(doc);
            let (ops, desired, warnings) = reconciled(
                nodes,
                s.desired,
                append_index(nodes),
                barrier_script(nodes, s.desired),
            );
            let sizes = resize_requests(nodes, s.desired);
            let edits = node_requests(nodes, s.desired);
            let tables = SessionV { phase: Phase::Dimensions, desired, warnings };
            let content = SessionV { phase: Phase::Content, ..s };
            let done = SessionV { phase: Phase::Done, ..s };
            &&& s.phase == Phase::Structure && unsupported(doc).len() == 0 ==> after_read(s, doc)
                == if ops.len() > 0 {
                (tables, ActionV::Write { requests: ops, revision: revision(doc) })
            } else {
                after_read(tables, doc)
            }
            &&& s.phase == Phase::Dimensions && all_growable(all_resizes(nodes, s.desired))
                ==> after_read(s, doc) == if sizes.len() > 0 {
                (content, ActionV::Write { requests: sizes, revision: revision(doc) })
            } else {
                after_read(content, doc)
            }
            &&& s.phase == Phase::Content && syncable(nodes, s.desired) && edits.len() > 0
                ==> after_read(s, doc) == (
                done,
                ActionV::Write { requests: requests_json(edits), revision: revision(doc) },
            )
        }),
{
}

} // verus!
