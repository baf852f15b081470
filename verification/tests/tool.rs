//! The decisions of the command line tool, and one sync of a live document.
use gdocdown::baseline::{
    baseline_name, baseline_of_record, key_hash, read_baseline, write_baseline, Baseline,
    BaselineError,
};
use gdocdown::cli::{on_watch_event, parse_args, Command, WatchAction, WatchEvent};
use gdocdown::gate::opaque_label;
use gdocdown::json::Member;
use gdocdown::reconcile::{
    check_pull, check_push, is_blank, plan_merged, reconcile, rev_of, start_sync, sync_refusal,
    token_stale, Plan, PullRefusal, PushRefusal, SyncStart,
};
use gdocdown::retry::try_again;
use gdocdown::session::{Action, Phase, Session};
use gdocdown::text::is_word;
use gdocdown::wire::locked_body;
use gdocdown::{markdown_to_model, retry_on_conflict, u16_len, Json, MAX_CONFLICT_RETRIES};

fn obj(members: Vec<(&str, Json)>) -> Json {
    Json::Object(members.into_iter().map(|(name, value)| Member { name: name.to_string(), value }).collect())
}

fn arr(items: Vec<Json>) -> Json {
    Json::Array(items)
}

fn text(s: &str) -> Json {
    Json::Str(s.to_string())
}

fn num(n: u64) -> Json {
    Json::Number(n)
}

fn para_at(start: u64, content: &str) -> Json {
    let run = obj(vec![("textRun", obj(vec![("content", text(content)), ("textStyle", obj(vec![]))]))]);
    obj(vec![("startIndex", num(start)), ("paragraph", obj(vec![("elements", arr(vec![run]))]))])
}

fn table_at(start: u64, rows: Vec<Vec<(u64, &str)>>) -> Json {
    let rows = rows
        .into_iter()
        .map(|cells| {
            let cells = cells.into_iter().map(|(at, s)| obj(vec![("content", arr(vec![para_at(at, s)]))])).collect();
            obj(vec![("tableCells", arr(cells))])
        })
        .collect();
    obj(vec![("startIndex", num(start)), ("table", obj(vec![("tableRows", arr(rows))]))])
}

fn doc(rev: &str, content: Vec<Json>) -> Json {
    obj(vec![("revisionId", text(rev)), ("body", obj(vec![("content", arr(content))]))])
}

fn base(rev: &str, md: &str) -> Baseline {
    Baseline { rev: rev.to_string(), md: md.to_string() }
}

fn args(a: &[&str]) -> Vec<String> {
    a.iter().map(|s| s.to_string()).collect()
}

// --- Baselines ---

#[test]
fn hashes_are_fnv1a() {
    assert_eq!(key_hash(""), "cbf29ce484222325");
    assert_eq!(key_hash("a"), "af63dc4c8601ec8c");
    assert_eq!(key_hash("foobar"), "85944171f73967e8");
}

#[test]
fn baseline_names_depend_on_document_and_path() {
    assert_eq!(baseline_name("doc", "/p/f.md"), format!("{}.json", key_hash("doc\0/p/f.md")));
    assert_ne!(baseline_name("doc", "/p/f.md"), baseline_name("doc2", "/p/f.md"));
}

#[test]
fn a_written_baseline_is_read_back() {
    let md = "# T\n\n\"quoted\" \\ back\u{7} \u{1F600}\ttab\n";
    let raw = write_baseline("d1", "/x/y.md", "rev 7", md);
    assert_eq!(read_baseline(Some(&raw), "d1"), Ok(base("rev 7", md)));
    assert!(raw.contains("/x/y.md"), "{raw}");
}

#[test]
fn a_baseline_of_another_document_is_refused() {
    let raw = write_baseline("d1", "/x", "r", "m");
    let err = read_baseline(Some(&raw), "d2").unwrap_err();
    assert_eq!(err, BaselineError::OtherDoc);
    assert_eq!(
        err.message("f.md"),
        "baseline for f.md belongs to a different doc \u{2014} run `gdocdown pull`"
    );
    // A record that is no object has no owner.
    assert_eq!(read_baseline(Some("[1]"), "d2"), Err(BaselineError::OtherDoc));
}

#[test]
fn a_missing_baseline_says_what_to_do() {
    let err = read_baseline(None, "d").unwrap_err();
    assert_eq!(err, BaselineError::Missing);
    assert_eq!(err.message("f.md"), "no baseline for f.md \u{2014} run `gdocdown pull` first");
}

#[test]
fn a_malformed_baseline_gives_the_parser_message() {
    match read_baseline(Some("{"), "d") {
        Err(BaselineError::Malformed(e)) => {
            assert!(e.contains("EOF"), "{e}");
            assert_eq!(BaselineError::Malformed(e.clone()).message("f"), e);
        }
        other => panic!("{other:?}"),
    }
}

#[test]
fn missing_members_of_a_record_are_empty() {
    assert_eq!(read_baseline(Some("{\"doc\":\"d\"}"), "d"), Ok(base("", "")));
    assert_eq!(read_baseline(Some("{\"doc\":\"d\",\"rev\":3,\"md\":\"m\"}"), "d"), Ok(base("", "m")));
    let r = baseline_of_record("d", Ok(Some("d".into())), Ok(Some("r".into())), Err("bad".into()));
    assert_eq!(r, Err(BaselineError::Malformed("bad".into())));
}

// --- Reconciling ---

#[test]
fn revisions_are_read_from_the_document() {
    assert_eq!(rev_of(&doc("abc", vec![])), "abc");
    assert_eq!(rev_of(&obj(vec![])), "");
}

#[test]
fn nothing_changed_means_nothing_to_do() {
    let d = doc("r1", vec![para_at(1, "x\n")]);
    assert_eq!(reconcile(&d, Some("x\n"), &base("r1", "x\n")), Plan::Nothing);
    // A file that cannot be read counts as unchanged.
    assert_eq!(reconcile(&d, None, &base("r1", "x\n")), Plan::Nothing);
}

#[test]
fn local_edits_are_pushed() {
    let d = doc("r1", vec![para_at(1, "x\n")]);
    let plan = reconcile(&d, Some("y\n"), &base("r1", "x\n"));
    assert_eq!(plan, Plan::Push { md: "y\n".into() });
    assert_eq!(plan.pushed(), Some("y\n"));
    assert_eq!(plan.filed(), None);
    assert_eq!(plan.next_baseline("r2".into()), Some(base("r2", "y\n")));
}

#[test]
fn remote_edits_are_pulled() {
    let d = doc("r2", vec![para_at(1, "x\n")]);
    let plan = reconcile(&d, Some("old\n"), &base("r1", "old\n"));
    assert_eq!(plan, Plan::Pull { md: "x\n".into(), rev: "r2".into(), write: true });
    assert_eq!(plan.filed(), Some("x\n"));
    assert_eq!(plan.pushed(), None);
    assert_eq!(plan.next_baseline("r9".into()), Some(base("r2", "x\n")));
    // The same markdown under a new revision is not written again.
    let plan = reconcile(&d, Some("x\n"), &base("r1", "x\n"));
    assert_eq!(plan, Plan::Pull { md: "x\n".into(), rev: "r2".into(), write: false });
    assert_eq!(plan.filed(), None);
}

#[test]
fn edits_on_both_sides_are_merged() {
    let d = doc("r2", vec![para_at(1, "uno\n"), para_at(5, "two\n"), para_at(9, "three\n")]);
    let ours = "one\n\ntwo\n\nthree?\n";
    let plan = reconcile(&d, Some(ours), &base("r1", "one\n\ntwo\n\nthree\n"));
    let merged = "uno\n\ntwo\n\nthree?\n";
    assert_eq!(plan, Plan::Merged { md: merged.into() });
    assert_eq!(plan.pushed(), Some(merged));
    assert_eq!(plan.filed(), Some(merged));
    assert_eq!(plan.next_baseline("r3".into()), Some(base("r3", merged)));
}

#[test]
fn conflicts_go_to_the_file_only() {
    let d = doc("r2", vec![para_at(1, "theirs\n")]);
    let plan = reconcile(&d, Some("ours\n"), &base("r1", "base\n"));
    match &plan {
        Plan::Conflict { md, rev } => {
            assert!(md.contains("<<<<<<<") && md.contains("ours") && md.contains("theirs"), "{md}");
            assert_eq!(rev, "r2");
        }
        other => panic!("{other:?}"),
    }
    assert_eq!(plan.pushed(), None);
    let md = plan.filed().unwrap().to_string();
    let next = plan.next_baseline("unused".into()).unwrap();
    assert_eq!(next, base("r2", &md));
    // What was written is not answered.
    assert_eq!(reconcile(&d, Some(&md), &next), Plan::Nothing);
}

#[test]
fn a_merge_result_decides_the_plan() {
    assert_eq!(plan_merged(Ok("m".into()), "r".into()), Plan::Merged { md: "m".into() });
    assert_eq!(plan_merged(Err("c".into()), "r".into()), Plan::Conflict { md: "c".into(), rev: "r".into() });
}

// --- Guards ---

#[test]
fn pull_refuses_to_lose_local_edits() {
    let ok = Ok(base("r", "m\n"));
    assert_eq!(check_pull(false, &ok, Some("m\n")), Ok(()));
    assert_eq!(check_pull(false, &ok, Some("edited\n")), Err(PullRefusal::LocalEdits));
    assert_eq!(check_pull(false, &ok, None), Err(PullRefusal::LocalEdits));
    assert_eq!(check_pull(true, &ok, Some("edited\n")), Ok(()));
    assert_eq!(
        PullRefusal::LocalEdits.message("f"),
        "f has local edits that pull would discard \u{2014} `gdocdown sync` to merge them, or `gdocdown pull --force` to discard them"
    );
}

#[test]
fn pull_without_a_baseline_needs_an_empty_file() {
    let none = Err(BaselineError::Missing);
    assert_eq!(check_pull(false, &none, None), Ok(()));
    assert_eq!(check_pull(false, &none, Some(" \u{3000}\n")), Ok(()));
    assert_eq!(check_pull(false, &none, Some("x")), Err(PullRefusal::LocalContent));
    assert_eq!(
        PullRefusal::LocalContent.message("f"),
        "f has local content and no baseline \u{2014} `gdocdown pull --force` to overwrite it"
    );
}

#[test]
fn sync_starts_by_what_there_is() {
    assert_eq!(start_sync(&Ok(base("r", "m")), Some("anything")), SyncStart::Reconcile);
    assert_eq!(start_sync(&Err(BaselineError::OtherDoc), None), SyncStart::Pull);
    assert_eq!(start_sync(&Err(BaselineError::Missing), Some("\n")), SyncStart::Pull);
    assert_eq!(start_sync(&Err(BaselineError::Missing), Some("x")), SyncStart::Refuse);
    assert!(sync_refusal("f").starts_with("f has local content but no baseline"));
}

#[test]
fn push_refuses_when_the_document_moved() {
    let ok = Ok(base("r1", "m"));
    assert_eq!(check_push(false, &ok, "r1"), Ok(()));
    assert_eq!(check_push(false, &ok, "r2"), Err(PushRefusal::DocMoved));
    assert_eq!(check_push(true, &ok, "r2"), Ok(()));
    let none = Err(BaselineError::Missing);
    assert_eq!(check_push(false, &none, "r1"), Err(PushRefusal::NoBaseline));
    assert_eq!(check_push(true, &none, "r1"), Ok(()));
    assert_eq!(
        PushRefusal::DocMoved.message("f"),
        "the doc changed since your last sync \u{2014} `gdocdown sync` to merge, or `gdocdown push --force` to overwrite collaborators' edits"
    );
    assert_eq!(
        PushRefusal::NoBaseline.message("f"),
        "no baseline for f \u{2014} `gdocdown sync` first, or `gdocdown push --force` to overwrite the doc"
    );
}

#[test]
fn tokens_are_renewed_after_half_an_hour() {
    assert!(!token_stale(1800, 0));
    assert!(token_stale(1800, 1));
    assert!(token_stale(1801, 0));
    assert!(!token_stale(1799, 999_999_999));
}

// --- The command line ---

#[test]
fn commands_are_parsed_with_the_flag_anywhere() {
    assert_eq!(
        parse_args(&args(&["gdocdown", "pull", "d", "f"])),
        Some(Command::Pull { doc: "d".into(), file: "f".into(), force: false })
    );
    assert_eq!(
        parse_args(&args(&["gdocdown", "-f", "push", "d", "--force", "f"])),
        Some(Command::Push { doc: "d".into(), file: "f".into(), force: true })
    );
    assert_eq!(
        parse_args(&args(&["gdocdown", "sync", "d", "f", "-f"])),
        Some(Command::Sync { doc: "d".into(), file: "f".into() })
    );
    assert_eq!(
        parse_args(&args(&["gdocdown", "watch", "d", "f"])),
        Some(Command::Watch { doc: "d".into(), file: "f".into() })
    );
}

#[test]
fn other_command_lines_are_refused() {
    assert_eq!(parse_args(&args(&[])), None);
    assert_eq!(parse_args(&args(&["gdocdown", "pull", "d"])), None);
    assert_eq!(parse_args(&args(&["gdocdown", "pull", "d", "f", "g"])), None);
    assert_eq!(parse_args(&args(&["gdocdown", "Pull", "d", "f"])), None);
}

#[test]
fn watch_events_decide_what_follows() {
    assert_eq!(on_watch_event(WatchEvent::Changed { target: true }), WatchAction::SettleAndReconcile);
    assert_eq!(on_watch_event(WatchEvent::Changed { target: false }), WatchAction::Wait);
    assert_eq!(on_watch_event(WatchEvent::Timeout), WatchAction::Reconcile);
    assert_eq!(on_watch_event(WatchEvent::Hiccup), WatchAction::Wait);
    assert_eq!(on_watch_event(WatchEvent::Disconnected), WatchAction::Stop);
}

// --- Retrying ---

#[test]
fn attempts_end_at_the_limit() {
    let refusal = "HTTP 400: ... does not match the latest revision ...";
    let mut calls = 0;
    let r: Result<(), String> = retry_on_conflict(|| {
        calls += 1;
        Err(refusal.to_string())
    });
    assert_eq!(r, Err(refusal.to_string()));
    assert_eq!(calls, MAX_CONFLICT_RETRIES);
    assert!(try_again(4, &r));
    assert!(!try_again(5, &r));
    assert!(!try_again(1, &Err::<(), String>("HTTP 500".into())));
    assert!(!try_again(1, &Ok::<i32, String>(1)));
}

// --- A live document ---

#[test]
fn a_session_refuses_unsupported_content() {
    let d = doc("r", vec![para_at(1, "x\n"), obj(vec![("sectionBreak", obj(vec![]))])]);
    let mut s = Session::new(&markdown_to_model("y"));
    match s.on_document(&d) {
        Action::Finish(Ok(ws)) => assert_eq!(
            ws,
            vec!["no changes applied: document contains unsupported content (section break) that could be corrupted by editing".to_string()]
        ),
        other => panic!("{other:?}"),
    }
    assert_eq!(s.phase, Phase::Done);
}

#[test]
fn unmodeled_elements_are_named() {
    assert_eq!(opaque_label("equation"), "equation");
    assert_eq!(opaque_label("person"), "smart chip (person)");
    assert_eq!(opaque_label("richLink"), "smart chip (link)");
    assert_eq!(opaque_label("somethingNew"), "unsupported element");
}

#[test]
fn a_session_goes_through_its_phases() {
    let desired = markdown_to_model("top\n\n| h | i |\n| - | - |\n\nend\n\n---");
    let mut s = Session::new(&desired);
    // The table has to be inserted; the rule cannot be.
    match s.on_document(&doc("r1", vec![para_at(1, "top\n"), para_at(5, "end\n")])) {
        Action::Write { requests, revision } => {
            assert_eq!(revision, "r1");
            let table = obj(vec![(
                "insertTable",
                obj(vec![("rows", num(1)), ("columns", num(2)), ("location", obj(vec![("index", num(1))]))]),
            )]);
            assert_eq!(requests, vec![table]);
        }
        other => panic!("{other:?}"),
    }
    assert!(matches!(s.on_write(Ok(())), Action::Fetch));
    // The service made a table of one column: it has to grow.
    let narrow = vec![para_at(1, "top\n"), table_at(5, vec![vec![(7, "\n")]]), para_at(9, "end\n")];
    match s.on_document(&doc("r2", narrow)) {
        Action::Write { requests, revision } => {
            assert_eq!(revision, "r2");
            let at = obj(vec![
                ("tableStartLocation", obj(vec![("index", num(5))])),
                ("rowIndex", num(0)),
                ("columnIndex", num(0)),
            ]);
            let grow = obj(vec![(
                "insertTableColumn",
                obj(vec![("tableCellLocation", at), ("insertRight", Json::Bool(true))]),
            )]);
            assert_eq!(requests, vec![grow]);
        }
        other => panic!("{other:?}"),
    }
    assert!(matches!(s.on_write(Ok(())), Action::Fetch));
    // Now the cells are filled, the last one first.
    let wide = vec![para_at(1, "top\n"), table_at(5, vec![vec![(7, "\n"), (9, "\n")]]), para_at(11, "end\n")];
    match s.on_document(&doc("r3", wide)) {
        Action::Write { requests, revision } => {
            assert_eq!(revision, "r3");
            let inserts: Vec<(u64, String)> = requests
                .iter()
                .filter_map(|r| {
                    let it = r.get("insertText")?;
                    match (it.get("location")?.get("index")?, it.get("text")?) {
                        (Json::Number(n), Json::Str(t)) => Some((*n, t.clone())),
                        _ => None,
                    }
                })
                .collect();
            assert_eq!(inserts, vec![(9, "i".to_string()), (7, "h".to_string())]);
        }
        other => panic!("{other:?}"),
    }
    match s.on_write(Ok(())) {
        Action::Finish(Ok(ws)) => {
            assert_eq!(ws, vec!["a horizontal rule (`---`) can't be created via the API; left out".to_string()])
        }
        other => panic!("{other:?}"),
    }
}

#[test]
fn a_refused_write_ends_the_session() {
    let mut s = Session::new(&markdown_to_model("new"));
    assert!(matches!(s.on_document(&doc("r", vec![para_at(1, "old\n")])), Action::Write { .. }));
    match s.on_write(Err("HTTP 400".into())) {
        Action::Finish(Err(e)) => assert_eq!(e, "HTTP 400"),
        other => panic!("{other:?}"),
    }
}

#[test]
fn a_table_without_rows_cannot_grow() {
    let mut s = Session::new(&markdown_to_model("| h |\n| - |"));
    assert!(matches!(s.on_document(&doc("r", vec![table_at(2, vec![])])), Action::Stuck));
}

#[test]
fn a_cell_without_an_index_cannot_be_edited() {
    let cell = obj(vec![("content", arr(vec![]))]);
    let row = obj(vec![("tableCells", arr(vec![cell]))]);
    let table = obj(vec![("startIndex", num(2)), ("table", obj(vec![("tableRows", arr(vec![row]))]))]);
    let mut s = Session::new(&markdown_to_model("| h |\n| - |"));
    assert!(matches!(s.on_document(&doc("r", vec![table])), Action::Stuck));
}

#[test]
fn bodies_are_locked_to_a_revision() {
    let body = locked_body(vec![Json::Null], "r7");
    let expected = obj(vec![
        ("requests", arr(vec![Json::Null])),
        ("writeControl", obj(vec![("requiredRevisionId", text("r7"))])),
    ]);
    assert_eq!(body, expected);
}

// --- Characters ---

#[test]
fn white_space_is_that_of_unicode() {
    for c in '\0'..=char::MAX {
        assert_eq!(is_blank(&c.to_string()), c.is_whitespace(), "{c:?}");
    }
}

#[test]
fn word_characters_are_letters_digits_and_underscores() {
    for c in '\0'..=char::MAX {
        assert_eq!(is_word(c), c == '_' || c.is_alphanumeric(), "{c:?}");
    }
}

#[test]
fn astral_characters_take_two_units() {
    assert_eq!(u16_len("a\u{E9}\u{4E2D}\u{1F600}"), 5);
    assert_eq!(u16_len(""), 0);
}
