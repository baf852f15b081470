//! What to do with a file and a document that may both have changed since they last
//! agreed, and when a command is refused.
use crate::api::{document_model, document_to_model};
use crate::baseline::{baseline_view, or_empty, Baseline, BaselineError, BaselineErrorV};
use crate::json::{get_field, str_of, text_of, Json, JsonV};
use crate::render::{model_to_markdown, rendered};
use crate::text::{same_text, to_chars, trim, trim_end, trimmed, white_space};
use vstd::prelude::*;

verus! {

/// What merging two texts with a common ancestor gives: the merged text, or, where the
/// changes conflict, a text with conflict markers.
pub uninterp spec fn merge3(base: Seq<char>, ours: Seq<char>, theirs: Seq<char>) -> Result<
    Seq<char>,
    Seq<char>,
>;

/// The result of a merge, over texts.
pub open spec fn merge_view(r: Result<String, String>) -> Result<Seq<char>, Seq<char>> {
    match r {
        Ok(s) => Ok(s@),
        Err(s) => Err(s@),
    }
}

/// `diffy::merge`: the three-way merge of two texts with a common ancestor, line by line.
/// It depends on the three texts alone.
#[verifier::external_body]
pub(crate) fn merge_texts(base: &str, ours: &str, theirs: &str) -> (r: Result<String, String>)
    ensures
        merge_view(r) == merge3(base@, ours@, theirs@),
{
    diffy::merge(base, ours, theirs)
}

/// The revision of a document.
pub open spec fn revision(doc: JsonV) -> Seq<char> {
    or_empty(text_of(get_field(doc, "revisionId"@)))
}

/// The revision of a document.
pub fn rev_of(doc: &Json) -> (r: String)
    ensures
        r@ == revision(doc@),
{
    match str_of(doc.get("revisionId")) {
        Some(s) => s.to_owned(),
        None => {
            let s = String::new();
            assert(s@ =~= Seq::<char>::empty());
            s
        },
    }
}

/// The revision of a document is what it gives as such, and empty where it gives none.
pub proof fn law_revision(doc: JsonV)
    ensures
        get_field(doc, "revisionId"@) matches Some(JsonV::Str(s)) ==> revision(doc) == s,
        get_field(doc, "revisionId"@) is None ==> revision(doc).len() == 0,
{
}

/// What to do with the file and the document.
#[derive(Debug, PartialEq, Eq)]
pub enum Plan {
    /// Neither changed.
    Nothing,
    /// Only the file changed: push it to the document.
    Push { md: String },
    /// Only the document changed: its markdown is the new baseline, and goes to the file
    /// where it differs.
    Pull { md: String, rev: String, write: bool },
    /// Both changed and merge: the result goes to the file and to the document.
    Merged { md: String },
    /// Both changed and conflict: the text with markers goes to the file, and the document
    /// stays as it is.
    Conflict { md: String, rev: String },
}

/// What a [`Plan`] says.
#[verifier::ext_equal]
pub enum PlanV {
    Nothing,
    Push { md: Seq<char> },
    Pull { md: Seq<char>, rev: Seq<char>, write: bool },
    Merged { md: Seq<char> },
    Conflict { md: Seq<char>, rev: Seq<char> },
}

impl View for Plan {
    type V = PlanV;

    open spec fn view(&self) -> PlanV {
        match self {
            Plan::Nothing => PlanV::Nothing,
            Plan::Push { md } => PlanV::Push { md: md@ },
            Plan::Pull { md, rev, write } => PlanV::Pull { md: md@, rev: rev@, write: *write },
            Plan::Merged { md } => PlanV::Merged { md: md@ },
            Plan::Conflict { md, rev } => PlanV::Conflict { md: md@, rev: rev@ },
        }
    }
}

/// The markdown of a document.
pub open spec fn document_markdown(doc: JsonV) -> Seq<char> {
    rendered(document_model(doc))
}

/// The plan after a merge.
pub open spec fn merged_plan(merged: Result<Seq<char>, Seq<char>>, rev: Seq<char>) -> PlanV {
    match merged {
        Ok(md) => PlanV::Merged { md },
        Err(md) => PlanV::Conflict { md, rev },
    }
}

/// The text of the file; one that cannot be read counts as unchanged.
pub open spec fn local_text(file: Option<Seq<char>>, base_md: Seq<char>) -> Seq<char> {
    match file {
        Some(s) => s,
        None => base_md,
    }
}

/// What to do with a document and a file, when they last agreed at the revision
/// `base_rev` and the markdown `base_md`.
pub open spec fn plan_of(
    doc: JsonV,
    file: Option<Seq<char>>,
    base_rev: Seq<char>,
    base_md: Seq<char>,
) -> PlanV {
    let local = local_text(file, base_md);
    let remote = document_markdown(doc);
    let local_changed = local != base_md;
    let remote_changed = revision(doc) != base_rev;
    if !local_changed && !remote_changed {
        PlanV::Nothing
    } else if !remote_changed {
        PlanV::Push { md: local }
    } else if !local_changed {
        PlanV::Pull { md: remote, rev: revision(doc), write: remote != base_md }
    } else {
        merged_plan(merge3(base_md, local, remote), revision(doc))
    }
}

/// The plan after a merge.
pub fn plan_merged(merged: Result<String, String>, rev: String) -> (r: Plan)
    ensures
        r@ == merged_plan(merge_view(merged), rev@),
{
    match merged {
        Ok(md) => Plan::Merged { md },
        Err(md) => Plan::Conflict { md, rev },
    }
}

/// Reconcile the file and the document against the last baseline: only one side changed,
/// it wins; both changed, they are merged.
pub fn reconcile(doc: &Json, file: Option<&str>, base: &Baseline) -> (r: Plan)
    ensures
        r@ == plan_of(
            doc@,
            match file {
                Some(s) => Some(s@),
                None => None,
            },
            base.rev@,
            base.md@,
        ),
{
    let rev = rev_of(doc);
    let local = match file {
        Some(s) => s,
        None => base.md.as_str(),
    };
    let local_changed = !same_text(local, base.md.as_str());
    let remote_changed = !same_text(rev.as_str(), base.rev.as_str());
    if !remote_changed {
        if local_changed {
            return Plan::Push { md: local.to_owned() };
        }
        return Plan::Nothing;
    }
    let model = document_to_model(doc);
    let remote = model_to_markdown(&model);
    if !local_changed {
        let write = !same_text(remote.as_str(), base.md.as_str());
        return Plan::Pull { md: remote, rev, write };
    }
    plan_merged(merge_texts(base.md.as_str(), local, remote.as_str()), rev)
}

impl PlanV {
    /// What goes to the document.
    pub open spec fn pushed(self) -> Option<Seq<char>> {
        match self {
            PlanV::Push { md } => Some(md),
            PlanV::Merged { md } => Some(md),
            _ => None,
        }
    }

    /// What goes to the file.
    pub open spec fn filed(self) -> Option<Seq<char>> {
        match self {
            PlanV::Pull { md, write, .. } => if write {
                Some(md)
            } else {
                None
            },
            PlanV::Merged { md } => Some(md),
            PlanV::Conflict { md, .. } => Some(md),
            _ => None,
        }
    }

    /// The new baseline, when the document is at revision `rev` after what was pushed.
    pub open spec fn next_baseline(self, rev: Seq<char>) -> Option<(Seq<char>, Seq<char>)> {
        match self {
            PlanV::Nothing => None,
            PlanV::Push { md } => Some((rev, md)),
            PlanV::Pull { md, rev, .. } => Some((rev, md)),
            PlanV::Merged { md } => Some((rev, md)),
            PlanV::Conflict { md, rev } => Some((rev, md)),
        }
    }
}

impl Plan {
    /// What goes to the document.
    pub fn pushed(&self) -> (r: Option<&str>)
        ensures
            match r {
                Some(s) => self@.pushed() == Some(s@),
                None => self@.pushed() is None,
            },
    {
        match self {
            Plan::Push { md } => Some(md.as_str()),
            Plan::Merged { md } => Some(md.as_str()),
            _ => None,
        }
    }

    /// What goes to the file.
    pub fn filed(&self) -> (r: Option<&str>)
        ensures
            match r {
                Some(s) => self@.filed() == Some(s@),
                None => self@.filed() is None,
            },
    {
        match self {
            Plan::Pull { md, write, .. } => if *write {
                Some(md.as_str())
            } else {
                None
            },
            Plan::Merged { md } => Some(md.as_str()),
            Plan::Conflict { md, .. } => Some(md.as_str()),
            _ => None,
        }
    }

    /// The new baseline, when the document is at revision `rev` after what was pushed.
    pub fn next_baseline(self, rev: String) -> (r: Option<Baseline>)
        ensures
            match r {
                Some(b) => self@.next_baseline(rev@) == Some((b.rev@, b.md@)),
                None => self@.next_baseline(rev@) is None,
            },
    {
        match self {
            Plan::Nothing => None,
            Plan::Push { md } => Some(Baseline { rev, md }),
            Plan::Pull { md, rev, .. } => Some(Baseline { rev, md }),
            Plan::Merged { md } => Some(Baseline { rev, md }),
            Plan::Conflict { md, rev } => Some(Baseline { rev, md }),
        }
    }
}

/// Conflict markers never go to the document: what is pushed is the file as it is, where
/// the document did not change, or a merge without conflict.
pub proof fn law_no_conflict_pushed(
    doc: JsonV,
    file: Option<Seq<char>>,
    base_rev: Seq<char>,
    base_md: Seq<char>,
)
    ensures
        plan_of(doc, file, base_rev, base_md).pushed() matches Some(md) ==> {
            let local = local_text(file, base_md);
            ||| (revision(doc) == base_rev && md == local)
            ||| merge3(base_md, local, document_markdown(doc)) == Result::<
                Seq<char>,
                Seq<char>,
            >::Ok(md)
        },
        // A conflict goes to the file and nowhere else.
        plan_of(doc, file, base_rev, base_md) matches PlanV::Conflict { md, .. } ==> plan_of(
            doc,
            file,
            base_rev,
            base_md,
        ).filed() == Some(md) && plan_of(doc, file, base_rev, base_md).pushed() is None,
{
}

/// Once a plan is carried out and its baseline recorded, there is nothing left to do: the
/// sync does not answer its own writes.
pub proof fn law_quiet(
    doc: JsonV,
    file: Option<Seq<char>>,
    base_rev: Seq<char>,
    base_md: Seq<char>,
    after: JsonV,
)
    requires
        // Where nothing was pushed, the document did not move.
        plan_of(doc, file, base_rev, base_md).pushed() is None ==> revision(after) == revision(doc),
    ensures
        ({
            let plan = plan_of(doc, file, base_rev, base_md);
            let next_file = match plan.filed() {
                Some(md) => Some(md),
                None => file,
            };
            plan.next_baseline(revision(after)) matches Some((rev, md)) ==> plan_of(
                after,
                next_file,
                rev,
                md,
            ) is Nothing
        }),
{
}

/// The file after a plan is carried out.
pub open spec fn file_after(
    doc: JsonV,
    file: Option<Seq<char>>,
    base_rev: Seq<char>,
    base_md: Seq<char>,
) -> Seq<char> {
    match plan_of(doc, file, base_rev, base_md).filed() {
        Some(md) => md,
        None => local_text(file, base_md),
    }
}

/// The markdown that the document stands for after a plan is carried out.
pub open spec fn document_after(
    doc: JsonV,
    file: Option<Seq<char>>,
    base_rev: Seq<char>,
    base_md: Seq<char>,
) -> Seq<char> {
    match plan_of(doc, file, base_rev, base_md).pushed() {
        Some(md) => md,
        None => document_markdown(doc),
    }
}

/// After a plan without a conflict the file and the document hold the same, and that is what
/// the next baseline holds.
pub proof fn law_agree(
    doc: JsonV,
    file: Option<Seq<char>>,
    base_rev: Seq<char>,
    base_md: Seq<char>,
    rev: Seq<char>,
)
    requires
        // At the revision of the baseline the document stands for its markdown.
        revision(doc) == base_rev ==> document_markdown(doc) == base_md,
    ensures
        ({
            let plan = plan_of(doc, file, base_rev, base_md);
            let text = file_after(doc, file, base_rev, base_md);
            &&& !(plan is Conflict) ==> text == document_after(doc, file, base_rev, base_md)
            &&& plan.next_baseline(rev) matches Some((_, md)) ==> md == text
            &&& plan.next_baseline(rev) is None ==> text == base_md
            // The baseline is at the revision that the document is left at.
            &&& plan.next_baseline(rev) matches Some((r, _)) ==> r == if plan.pushed() is Some {
                rev
            } else {
                revision(doc)
            }
        }),
{
}

/// A file that cannot be read counts as one that did not change.
pub proof fn law_missing_file(doc: JsonV, base_rev: Seq<char>, base_md: Seq<char>)
    ensures
        plan_of(doc, None, base_rev, base_md) == plan_of(doc, Some(base_md), base_rev, base_md),
        revision(doc) == base_rev ==> plan_of(doc, None, base_rev, base_md) is Nothing,
        revision(doc) != base_rev ==> plan_of(doc, None, base_rev, base_md) is Pull,
{
}

/// Nothing is lost: a side that did not change takes what the other became, and where both
/// changed each is replaced only by a merge of the two.
pub proof fn law_nothing_lost(
    doc: JsonV,
    file: Option<Seq<char>>,
    base_rev: Seq<char>,
    base_md: Seq<char>,
)
    ensures
        ({
            let local = local_text(file, base_md);
            let remote = document_markdown(doc);
            let text = file_after(doc, file, base_rev, base_md);
            let shown = document_after(doc, file, base_rev, base_md);
            let merge = merge3(base_md, local, remote);
            // Neither changed.
            &&& local == base_md && revision(doc) == base_rev ==> text == local && shown == remote
            // The file changed.
            &&& local != base_md && revision(doc) == base_rev ==> text == local && shown == local
            // The document changed.
            &&& local == base_md && revision(doc) != base_rev ==> text == remote && shown == remote
            // Both changed.
            &&& local != base_md && revision(doc) != base_rev ==> match merge {
                Ok(md) => text == md && shown == md,
                Err(md) => text == md && shown == remote,
            }
            // The file is not touched where the document changed in nothing that markdown holds,
            // nor where the document did not change.
            &&& local == base_md && remote == base_md ==> plan_of(
                doc,
                file,
                base_rev,
                base_md,
            ).filed() is None
            &&& revision(doc) == base_rev ==> plan_of(
                doc,
                file,
                base_rev,
                base_md,
            ).filed() is None
            // The document is not touched where the file did not change.
            &&& local == base_md ==> plan_of(doc, file, base_rev, base_md).pushed() is None
        }),
{
}

// ---------------------------------------------------------------------------
// Guards
// ---------------------------------------------------------------------------

/// The text holds nothing but white space.
pub open spec fn blank(s: Seq<char>) -> bool {
    trim(s).len() == 0
}

/// Whether the text holds nothing but white space.
pub fn is_blank(s: &str) -> (r: bool)
    ensures
        r == blank(s@),
{
    let cs = to_chars(s);
    trimmed(cs.as_slice()).len() == 0
}

/// Why a pull is refused.
#[derive(Debug, Clone, Copy, PartialEq, Eq, Structural)]
pub enum PullRefusal {
    /// The file was edited since the baseline.
    LocalEdits,
    /// There is no baseline, and the file is not empty.
    LocalContent,
}

/// Whether a pull may overwrite the file. Without force it may not where that would lose
/// local edits.
pub open spec fn pull_refusal(
    force: bool,
    base: Result<(Seq<char>, Seq<char>), BaselineErrorV>,
    file: Option<Seq<char>>,
) -> Option<PullRefusal> {
    if force {
        None
    } else {
        match base {
            Ok((_, md)) => if or_empty(file) != md {
                Some(PullRefusal::LocalEdits)
            } else {
                None
            },
            Err(_) => if file is Some && !blank(file->0) {
                Some(PullRefusal::LocalContent)
            } else {
                None
            },
        }
    }
}

/// Whether a pull may overwrite the file.
pub fn check_pull(
    force: bool,
    base: &Result<Baseline, BaselineError>,
    file: Option<&str>,
) -> (r: Result<(), PullRefusal>)
    ensures
        match r {
            Ok(_) => pull_refusal(force, baseline_view(*base), opt_text(file)) is None,
            Err(e) => pull_refusal(force, baseline_view(*base), opt_text(file)) == Some(e),
        },
{
    if force {
        return Ok(());
    }
    proof {
        reveal_strlit("");
        assert(""@ =~= Seq::<char>::empty());
    }
    match base {
        Ok(b) => {
            let text = match file {
                Some(s) => s,
                None => "",
            };
            if !same_text(text, b.md.as_str()) {
                return Err(PullRefusal::LocalEdits);
            }
        },
        Err(_) => {
            if let Some(s) = file {
                if !is_blank(s) {
                    return Err(PullRefusal::LocalContent);
                }
            }
        },
    }
    Ok(())
}

/// An optional text.
pub open spec fn opt_text(o: Option<&str>) -> Option<Seq<char>> {
    match o {
        Some(s) => Some(s@),
        None => None,
    }
}

/// The message of a refused pull.
pub open spec fn pull_message(e: PullRefusal, file: Seq<char>) -> Seq<char> {
    match e {
        PullRefusal::LocalEdits => file
            + " has local edits that pull would discard \u{2014} `gdocdown sync` to merge them, or `gdocdown pull --force` to discard them"@,
        PullRefusal::LocalContent => file
            + " has local content and no baseline \u{2014} `gdocdown pull --force` to overwrite it"@,
    }
}

impl PullRefusal {
    /// The message for a file of this name.
    pub fn message(&self, file: &str) -> (r: String)
        ensures
            r@ == pull_message(*self, file@),
    {
        let mut s = file.to_owned();
        match self {
            PullRefusal::LocalEdits => s.append(
                " has local edits that pull would discard \u{2014} `gdocdown sync` to merge them, or `gdocdown pull --force` to discard them",
            ),
            PullRefusal::LocalContent => s.append(
                " has local content and no baseline \u{2014} `gdocdown pull --force` to overwrite it",
            ),
        }
        s
    }
}

/// How a sync starts.
#[derive(Debug, Clone, Copy, PartialEq, Eq, Structural)]
pub enum SyncStart {
    /// There is a baseline to merge against.
    Reconcile,
    /// There is none, and nothing local to lose: take the document.
    Pull,
    /// There is none, and the file has content: someone has to choose.
    Refuse,
}

/// How a sync starts.
pub open spec fn sync_start(
    base: Result<(Seq<char>, Seq<char>), BaselineErrorV>,
    file: Option<Seq<char>>,
) -> SyncStart {
    if base is Ok {
        SyncStart::Reconcile
    } else if blank(or_empty(file)) {
        SyncStart::Pull
    } else {
        SyncStart::Refuse
    }
}

/// How a sync starts: with a merge where there is a baseline, with a pull where there is
/// nothing to lose, and not at all otherwise.
pub fn start_sync(base: &Result<Baseline, BaselineError>, file: Option<&str>) -> (r: SyncStart)
    ensures
        r == sync_start(baseline_view(*base), opt_text(file)),
{
    proof {
        reveal_strlit("");
        assert(""@ =~= Seq::<char>::empty());
    }
    let text = match file {
        Some(s) => s,
        None => "",
    };
    match base {
        Ok(_) => SyncStart::Reconcile,
        Err(_) => if is_blank(text) {
            SyncStart::Pull
        } else {
            SyncStart::Refuse
        },
    }
}

/// The message of a refused sync, for a file of this name.
pub fn sync_refusal(file: &str) -> (r: String)
    ensures
        r@ == file@
            + " has local content but no baseline \u{2014} run `gdocdown pull` to take the doc (discards local), or `gdocdown push` to overwrite the doc with the file"@,
{
    let mut s = file.to_owned();
    s.append(
        " has local content but no baseline \u{2014} run `gdocdown pull` to take the doc (discards local), or `gdocdown push` to overwrite the doc with the file",
    );
    s
}

/// Why a push is refused.
#[derive(Debug, Clone, Copy, PartialEq, Eq, Structural)]
pub enum PushRefusal {
    /// The document moved since the baseline.
    DocMoved,
    /// There is no baseline to tell whether it moved.
    NoBaseline,
}

/// Whether a push may overwrite the document at revision `rev`. Without force it may only
/// where the document has not moved since the baseline.
pub open spec fn push_refusal(
    force: bool,
    base: Result<(Seq<char>, Seq<char>), BaselineErrorV>,
    rev: Seq<char>,
) -> Option<PushRefusal> {
    if force {
        None
    } else {
        match base {
            Ok((base_rev, _)) => if base_rev == rev {
                None
            } else {
                Some(PushRefusal::DocMoved)
            },
            Err(_) => Some(PushRefusal::NoBaseline),
        }
    }
}

/// Whether a push may overwrite the document at revision `rev`.
pub fn check_push(force: bool, base: &Result<Baseline, BaselineError>, rev: &str) -> (r: Result<
    (),
    PushRefusal,
>)
    ensures
        match r {
            Ok(_) => push_refusal(force, baseline_view(*base), rev@) is None,
            Err(e) => push_refusal(force, baseline_view(*base), rev@) == Some(e),
        },
{
    if force {
        return Ok(());
    }
    match base {
        Ok(b) => if same_text(b.rev.as_str(), rev) {
            Ok(())
        } else {
            Err(PushRefusal::DocMoved)
        },
        Err(_) => Err(PushRefusal::NoBaseline),
    }
}

/// The message of a refused push.
pub open spec fn push_message(e: PushRefusal, file: Seq<char>) -> Seq<char> {
    match e {
        PushRefusal::DocMoved =>
            "the doc changed since your last sync \u{2014} `gdocdown sync` to merge, or `gdocdown push --force` to overwrite collaborators' edits"@,
        PushRefusal::NoBaseline => "no baseline for "@ + file
            + " \u{2014} `gdocdown sync` first, or `gdocdown push --force` to overwrite the doc"@,
    }
}

impl PushRefusal {
    /// The message for a file of this name.
    pub fn message(&self, file: &str) -> (r: String)
        ensures
            r@ == push_message(*self, file@),
    {
        match self {
            PushRefusal::DocMoved =>
                "the doc changed since your last sync \u{2014} `gdocdown sync` to merge, or `gdocdown push --force` to overwrite collaborators' edits".to_owned(),
            PushRefusal::NoBaseline => {
                let mut s = "no baseline for ".to_owned();
                s.append(file);
                s.append(
                    " \u{2014} `gdocdown sync` first, or `gdocdown push --force` to overwrite the doc",
                );
                s
            },
        }
    }
}

/// What a file holds; one that is not there holds nothing.
pub open spec fn file_text(file: Option<Seq<char>>) -> Seq<char> {
    match file {
        Some(s) => s,
        None => Seq::empty(),
    }
}

/// Without force, a pull overwrites a file only where nothing is lost: the file is what it
/// was at the baseline, or there is no baseline and nothing in it. It is refused in no other
/// case, and never with force.
pub proof fn law_pull_guard(
    force: bool,
    base: Result<(Seq<char>, Seq<char>), BaselineErrorV>,
    file: Option<Seq<char>>,
)
    ensures
        force ==> pull_refusal(force, base, file) is None,
        !force ==> (pull_refusal(force, base, file) is None <==> match base {
            Ok((_, md)) => file_text(file) == md,
            Err(_) => forall|i: int|
                0 <= i < file_text(file).len() ==> white_space(#[trigger] file_text(file)[i]),
        }),
        pull_refusal(force, base, file) == Some(PullRefusal::LocalEdits) ==> base is Ok,
        pull_refusal(force, base, file) == Some(PullRefusal::LocalContent) ==> base is Err,
{
    lemma_blank_text(file_text(file));
}

/// Without force, a push overwrites a document only where nothing is lost: the document is at
/// the revision of the baseline. It is refused in no other case, and never with force.
pub proof fn law_push_guard(
    force: bool,
    base: Result<(Seq<char>, Seq<char>), BaselineErrorV>,
    rev: Seq<char>,
)
    ensures
        force ==> push_refusal(force, base, rev) is None,
        !force ==> (push_refusal(force, base, rev) is None <==> (base matches Ok((at, _)) && at
            == rev)),
        push_refusal(force, base, rev) == Some(PushRefusal::DocMoved) ==> base is Ok,
        push_refusal(force, base, rev) == Some(PushRefusal::NoBaseline) ==> base is Err,
{
}

/// A sync merges just where there is a baseline, and without one it takes the document just
/// where the file holds nothing.
pub proof fn law_sync_guard(
    base: Result<(Seq<char>, Seq<char>), BaselineErrorV>,
    file: Option<Seq<char>>,
)
    ensures
        sync_start(base, file) is Reconcile <==> base is Ok,
        sync_start(base, file) is Pull <==> base is Err && forall|i: int|
            0 <= i < file_text(file).len() ==> white_space(#[trigger] file_text(file)[i]),
{
    lemma_blank_text(file_text(file));
}

/// A text is blank just where all of it is white space.
proof fn lemma_blank_text(s: Seq<char>)
    ensures
        blank(s) <==> forall|i: int| 0 <= i < s.len() ==> white_space(#[trigger] s[i]),
    decreases s.len(),
{
    if s.len() > 0 {
        let rest = s.skip(1);
        lemma_blank_text(rest);
        if white_space(s[0]) {
            if blank(s) {
                assert forall|i: int| 0 <= i < s.len() implies white_space(#[trigger] s[i]) by {
                    if i > 0 {
                        assert(white_space(rest[i - 1]));
                    }
                }
            } else {
                let w = choose|w: int| 0 <= w < rest.len() && !white_space(#[trigger] rest[w]);
                assert(!white_space(s[w + 1]));
            }
        } else {
            lemma_front_stays(s);
        }
    }
}

proof fn lemma_front_stays(s: Seq<char>)
    requires
        s.len() > 0,
        !white_space(s[0]),
    ensures
        trim_end(s).len() > 0,
    decreases s.len(),
{
    if white_space(s.last()) {
        lemma_front_stays(s.drop_last());
    }
}

/// Seconds after which an access token is renewed.
pub const TOKEN_SECONDS: u64 = 1800;

/// Whether a token of this age is to be renewed: it is older than the limit.
pub fn token_stale(seconds: u64, nanoseconds: u32) -> (r: bool)
    requires
        nanoseconds < 1_000_000_000,
    ensures
        r == (seconds * 1_000_000_000 + nanoseconds > TOKEN_SECONDS * 1_000_000_000),
        // Half an hour.
        r == (seconds * 1_000_000_000 + nanoseconds > 30 * 60 * 1_000_000_000),
{
    seconds > TOKEN_SECONDS || (seconds == TOKEN_SECONDS && nanoseconds > 0)
}

} // verus!
