//! What the service makes of the JSON that is sent: every request reads as what it asks for.
//!
//! Requests are read here by the names that the document service gives them, whatever
//! wrote them.
use crate::json::{dig, find_member, get_field, is_true, items, number_of, text_of, JsonV};
use crate::list_laws::{list_applied16, list_applies16, list_apply_all16};
use crate::model::{NodeV, TextStyle};
use crate::nodes::{all_units, node_requests, unit_starts, CurNodeV};
use crate::order::order_of;
use crate::region_laws::{document_reached, placed, with_regions, writable};
use crate::request::{
    all_within, indices_within, request_views, Request, RequestV, PARAGRAPH_FIELDS, TEXT_FIELDS,
};
use crate::structure::{delete_op, insert_op};
use crate::text::occurs_at;
use crate::wire::{body_json, locked_body_json, request_json, requests_json};
use vstd::prelude::*;

verus! {

/// An index.
pub open spec fn read_index(o: Option<JsonV>) -> Option<int> {
    match number_of(o) {
        Some(n) => Some(n as int),
        None => None,
    }
}

/// A range of indices.
pub open spec fn read_range(o: Option<JsonV>) -> Option<(int, int)> {
    match (read_index(dig(o, "startIndex"@)), read_index(dig(o, "endIndex"@))) {
        (Some(a), Some(b)) => Some((a, b)),
        _ => None,
    }
}

/// The value is an object whose one member has this name.
pub open spec fn asks(j: JsonV, name: Seq<char>) -> bool {
    j matches JsonV::Object(ms) && ms.len() == 1 && ms[0].0 == name
}

/// What a request on text and styles asks for, by the names of the document service.
pub open spec fn read_request(j: JsonV) -> Option<RequestV> {
    if asks(j, "insertText"@) {
        let x = get_field(j, "insertText"@);
        match (read_index(dig(dig(x, "location"@), "index"@)), text_of(dig(x, "text"@))) {
            (Some(index), Some(text)) => Some(RequestV::Insert { index, text }),
            _ => None,
        }
    } else if asks(j, "deleteContentRange"@) {
        match read_range(dig(get_field(j, "deleteContentRange"@), "range"@)) {
            Some((start, end)) => Some(RequestV::Delete { start, end }),
            None => None,
        }
    } else if asks(j, "updateParagraphStyle"@) {
        let x = get_field(j, "updateParagraphStyle"@);
        match (
            read_range(dig(x, "range"@)),
            text_of(dig(dig(x, "paragraphStyle"@), "namedStyleType"@)),
            text_of(dig(x, "fields"@)),
        ) {
            (Some((start, end)), Some(named), Some(fields)) => Some(
                RequestV::Paragraph { start, end, named, fields },
            ),
            _ => None,
        }
    } else if asks(j, "createParagraphBullets"@) {
        let x = get_field(j, "createParagraphBullets"@);
        match (read_range(dig(x, "range"@)), text_of(dig(x, "bulletPreset"@))) {
            (Some((start, end)), Some(preset)) => Some(RequestV::Bullets { start, end, preset }),
            _ => None,
        }
    } else if asks(j, "deleteParagraphBullets"@) {
        match read_range(dig(get_field(j, "deleteParagraphBullets"@), "range"@)) {
            Some((start, end)) => Some(RequestV::NoBullets { start, end }),
            None => None,
        }
    } else if asks(j, "updateTextStyle"@) {
        let x = get_field(j, "updateTextStyle"@);
        let ts = dig(x, "textStyle"@);
        match (read_range(dig(x, "range"@)), text_of(dig(x, "fields"@))) {
            (Some((start, end)), Some(fields)) => Some(
                RequestV::Style {
                    start,
                    end,
                    style: TextStyle {
                        bold: is_true(dig(ts, "bold"@)),
                        italic: is_true(dig(ts, "italic"@)),
                        strikethrough: is_true(dig(ts, "strikethrough"@)),
                    },
                    link: text_of(dig(dig(ts, "link"@), "url"@)),
                    fields,
                },
            ),
            _ => None,
        }
    } else {
        None
    }
}

/// What each of the requests asks for.
pub open spec fn read_requests(js: Seq<JsonV>) -> Seq<Option<RequestV>> {
    Seq::new(js.len(), |i: int| read_request(js[i]))
}

/// The requests in the body of a `batchUpdate`.
pub open spec fn read_body(body: JsonV) -> Seq<Option<RequestV>> {
    read_requests(items(get_field(body, "requests"@)))
}

/// The revision that the body of a `batchUpdate` is locked to.
pub open spec fn read_lock(body: JsonV) -> Option<Seq<char>> {
    text_of(dig(get_field(body, "writeControl"@), "requiredRevisionId"@))
}

/// Each value with a request to it.
pub open spec fn somes(rs: Seq<RequestV>) -> Seq<Option<RequestV>> {
    Seq::new(rs.len(), |i: int| Some(rs[i]))
}

/// The first member of an object.
proof fn lemma_member_first(ms: Seq<(Seq<char>, JsonV)>, name: Seq<char>)
    requires
        ms.len() > 0,
        ms[0].0 == name,
    ensures
        get_field(JsonV::Object(ms), name) == Some(ms[0].1),
{
}

/// A later member of an object, behind others of other names.
pub proof fn lemma_member_at(ms: Seq<(Seq<char>, JsonV)>, name: Seq<char>, from: int, i: int)
    requires
        0 <= from <= i < ms.len(),
        ms[i].0 == name,
        forall|k: int| from <= k < i ==> (#[trigger] ms[k]).0 != name,
    ensures
        find_member(ms, name, from) == Some(ms[i].1),
    decreases i - from,
{
    if from < i {
        assert(ms[from].0 != name);
        lemma_member_at(ms, name, from + 1, i);
    }
}

/// A name that no member has.
pub proof fn lemma_member_none(ms: Seq<(Seq<char>, JsonV)>, name: Seq<char>, from: int)
    requires
        0 <= from <= ms.len(),
        forall|k: int| from <= k < ms.len() ==> (#[trigger] ms[k]).0 != name,
    ensures
        find_member(ms, name, from) is None,
    decreases ms.len() - from,
{
    if from < ms.len() {
        assert(ms[from].0 != name);
        lemma_member_none(ms, name, from + 1);
    }
}

/// The names of requests and of their members are told apart.
proof fn lemma_names()
    ensures
        "insertText"@.len() == 10,
        "deleteContentRange"@.len() == 18,
        "updateParagraphStyle"@.len() == 20,
        "createParagraphBullets"@.len() == 22,
        "deleteParagraphBullets"@.len() == 22,
        "updateTextStyle"@.len() == 15,
        "insertTable"@.len() == 11,
        "createParagraphBullets"@[0] == 'c',
        "deleteParagraphBullets"@[0] == 'd',
        "startIndex"@.len() == 10,
        "endIndex"@.len() == 8,
        "range"@.len() == 5,
        "location"@.len() == 8,
        "text"@.len() == 4,
        "paragraphStyle"@.len() == 14,
        "fields"@.len() == 6,
        "bulletPreset"@.len() == 12,
        "textStyle"@.len() == 9,
        "bold"@.len() == 4,
        "bold"@[0] == 'b',
        "italic"@.len() == 6,
        "strikethrough"@.len() == 13,
        "link"@.len() == 4,
        "link"@[0] == 'l',
        "rows"@.len() == 4,
        "columns"@.len() == 7,
        "requests"@.len() == 8,
        "writeControl"@.len() == 12,
{
    reveal_strlit("insertText");
    reveal_strlit("deleteContentRange");
    reveal_strlit("updateParagraphStyle");
    reveal_strlit("createParagraphBullets");
    reveal_strlit("deleteParagraphBullets");
    reveal_strlit("updateTextStyle");
    reveal_strlit("insertTable");
    reveal_strlit("startIndex");
    reveal_strlit("endIndex");
    reveal_strlit("range");
    reveal_strlit("location");
    reveal_strlit("text");
    reveal_strlit("paragraphStyle");
    reveal_strlit("fields");
    reveal_strlit("bulletPreset");
    reveal_strlit("textStyle");
    reveal_strlit("bold");
    reveal_strlit("italic");
    reveal_strlit("strikethrough");
    reveal_strlit("link");
    reveal_strlit("rows");
    reveal_strlit("columns");
    reveal_strlit("requests");
    reveal_strlit("writeControl");
}

/// Each member of an object that is the first of its name is found.
pub proof fn lemma_members(ms: Seq<(Seq<char>, JsonV)>)
    ensures
        forall|i: int|
            0 <= i < ms.len() && (forall|k: int| 0 <= k < i ==> (#[trigger] ms[k]).0 != ms[i].0)
                ==> get_field(JsonV::Object(ms), (#[trigger] ms[i]).0) == Some(ms[i].1),
{
    assert forall|i: int|
        0 <= i < ms.len() && (forall|k: int| 0 <= k < i ==> (#[trigger] ms[k]).0
            != ms[i].0) implies get_field(JsonV::Object(ms), (#[trigger] ms[i]).0) == Some(
        ms[i].1,
    ) by {
        lemma_member_at(ms, ms[i].0, 0, i);
    }
}

/// The JSON of a request, read by the names of the document service, is that request.
pub proof fn law_request_reads(r: RequestV)
    requires
        indices_within(r, u64::MAX as int),
    ensures
        read_request(request_json(r)) == Some(r),
{
    lemma_names();
    let j = request_json(r);
    let top = j->Object_0;
    assert(top.len() == 1);
    lemma_member_first(top, top[0].0);
    let ms = top[0].1->Object_0;
    lemma_members(ms);
    assert(top[0].1 == JsonV::Object(ms));
    match r {
        RequestV::Insert { index, text } => {
            let loc = ms[0].1->Object_0;
            lemma_members(loc);
            assert(ms[0].0 == "location"@ && ms[1].0 == "text"@ && loc[0].0 == "index"@);
        },
        RequestV::Delete { start, end } => {
            let range = ms[0].1->Object_0;
            lemma_members(range);
            assert(ms[0].0 == "range"@ && range[0].0 == "startIndex"@ && range[1].0 == "endIndex"@);
        },
        RequestV::Paragraph { start, end, named, fields } => {
            let range = ms[0].1->Object_0;
            let style = ms[1].1->Object_0;
            lemma_members(range);
            lemma_members(style);
            assert(ms[0].0 == "range"@ && range[0].0 == "startIndex"@ && range[1].0 == "endIndex"@);
            assert(ms[1].0 == "paragraphStyle"@ && style[0].0 == "namedStyleType"@);
            assert(ms[2].0 == "fields"@);
        },
        RequestV::Bullets { start, end, preset } => {
            let range = ms[0].1->Object_0;
            lemma_members(range);
            assert(ms[0].0 == "range"@ && range[0].0 == "startIndex"@ && range[1].0 == "endIndex"@);
            assert(ms[1].0 == "bulletPreset"@);
        },
        RequestV::NoBullets { start, end } => {
            let range = ms[0].1->Object_0;
            lemma_members(range);
            assert(ms[0].0 == "range"@ && range[0].0 == "startIndex"@ && range[1].0 == "endIndex"@);
        },
        RequestV::Style { start, end, style, link, fields } => {
            let range = ms[0].1->Object_0;
            let ts = ms[1].1->Object_0;
            lemma_members(range);
            lemma_members(ts);
            assert(ms[0].0 == "range"@ && range[0].0 == "startIndex"@ && range[1].0 == "endIndex"@);
            assert(ms[1].0 == "textStyle"@ && ms[2].0 == "fields"@);
            assert(ts[0].0 == "bold"@ && ts[1].0 == "italic"@ && ts[2].0 == "strikethrough"@);
            match link {
                Some(url) => {
                    let address = ts[3].1->Object_0;
                    lemma_members(address);
                    assert(ts[3].0 == "link"@ && address[0].0 == "url"@);
                },
                None => {
                    assert(forall|k: int| 0 <= k < ts.len() ==> (#[trigger] ts[k]).0 != "link"@);
                    lemma_member_none(ts, "link"@, 0);
                },
            }
        },
    }
}

/// Requests, read one by one, are those that were written.
pub proof fn law_requests_read(rs: Seq<RequestV>)
    requires
        all_within(rs, u64::MAX as int),
    ensures
        read_requests(requests_json(rs)) == somes(rs),
{
    assert forall|i: int| 0 <= i < rs.len() implies read_request(requests_json(rs)[i]) == Some(
        rs[i],
    ) by {
        assert(indices_within(rs[i], u64::MAX as int));
        law_request_reads(rs[i]);
    }
    assert(read_requests(requests_json(rs)) =~= somes(rs));
}

/// The body of a `batchUpdate` holds the requests, and where it is locked, the revision.
pub proof fn law_body_reads(rs: Seq<RequestV>, js: Seq<JsonV>, revision: Seq<char>)
    requires
        all_within(rs, u64::MAX as int),
    ensures
        read_body(body_json(requests_json(rs))) == somes(rs),
        read_lock(body_json(requests_json(rs))) is None,
        read_body(locked_body_json(requests_json(rs), revision)) == somes(rs),
        read_lock(locked_body_json(js, revision)) == Some(revision),
        items(get_field(locked_body_json(js, revision), "requests"@)) == js,
{
    lemma_names();
    law_requests_read(rs);
    let plain = body_json(requests_json(rs))->Object_0;
    lemma_members(plain);
    assert(plain[0].0 == "requests"@);
    lemma_member_none(plain, "writeControl"@, 0);
    let locked = locked_body_json(requests_json(rs), revision)->Object_0;
    lemma_members(locked);
    assert(locked[0].0 == "requests"@ && locked[1].0 == "writeControl"@);
    let given = locked_body_json(js, revision)->Object_0;
    lemma_members(given);
    assert(given[0].0 == "requests"@ && given[1].0 == "writeControl"@);
    let lock = given[1].1->Object_0;
    lemma_members(lock);
    assert(lock[0].0 == "requiredRevisionId"@);
}

// ---------------------------------------------------------------------------
// Carrying requests out
// ---------------------------------------------------------------------------

/// The text of a document after the service carried out what was sent; `None` where
/// something sent is no request on text and styles, or refers to a place that is not there.
pub open spec fn carried_out(text: Seq<u16>, js: Seq<JsonV>) -> Option<Seq<u16>>
    decreases js.len(),
{
    if js.len() == 0 {
        Some(text)
    } else {
        match (carried_out(text, js.drop_last()), read_request(js.last())) {
            (Some(b), Some(r)) => if list_applies16(b, r) {
                Some(list_applied16(b, r))
            } else {
                None
            },
            _ => None,
        }
    }
}

/// What is sent does what the requests ask for.
pub proof fn law_carried_out(text: Seq<u16>, rs: Seq<RequestV>)
    requires
        all_within(rs, u64::MAX as int),
    ensures
        carried_out(text, requests_json(rs)) == list_apply_all16(text, rs),
    decreases rs.len(),
{
    if rs.len() > 0 {
        let init = rs.drop_last();
        assert forall|i: int| 0 <= i < init.len() implies indices_within(
            #[trigger] init[i],
            u64::MAX as int,
        ) by {
            assert(indices_within(rs[i], u64::MAX as int));
        }
        law_carried_out(text, init);
        assert(indices_within(rs[rs.len() - 1], u64::MAX as int));
        law_request_reads(rs.last());
        assert(requests_json(rs).drop_last() =~= requests_json(init));
    }
}

/// Sent to a document in which the regions stand, the JSON brings each region to its text
/// and leaves the rest, where all of them can be written.
pub open spec fn document_written(cur: Seq<CurNodeV>, model: Seq<NodeV>, js: Seq<JsonV>) -> bool {
    let units = all_units(cur, model);
    (forall|i: int| 0 <= i < units.len() ==> writable(#[trigger] units[i])) ==> forall|
        doc: Seq<u16>,
    | #[trigger]
        placed(doc, units) ==> carried_out(doc, js) == Some(
            with_regions(doc, units, order_of(unit_starts(units)), units.len() as int),
        )
}

/// The JSON of requests that reach the desired text does so too.
pub proof fn law_document_written(cur: Seq<CurNodeV>, model: Seq<NodeV>)
    requires
        document_reached(cur, model),
        all_within(node_requests(cur, model), u64::MAX as int),
    ensures
        document_written(cur, model, requests_json(node_requests(cur, model))),
{
    let rs = node_requests(cur, model);
    let units = all_units(cur, model);
    if forall|i: int| 0 <= i < units.len() ==> writable(#[trigger] units[i]) {
        assert forall|doc: Seq<u16>| #[trigger] placed(doc, units) implies carried_out(
            doc,
            requests_json(rs),
        ) == Some(
            with_regions(doc, units, order_of(unit_starts(units)), units.len() as int),
        ) by {
            law_carried_out(doc, rs);
        }
    }
}

/// Requests in memory have indices that fit.
pub proof fn lemma_fit(reqs: Seq<Request>)
    ensures
        all_within(request_views(reqs), u64::MAX as int),
{
    assert forall|i: int| 0 <= i < reqs.len() implies indices_within(
        #[trigger] request_views(reqs)[i],
        u64::MAX as int,
    ) by {
        match reqs[i] {
            Request::InsertText(x) => {},
            Request::DeleteContentRange(x) => {},
            Request::UpdateParagraphStyle(x) => {},
            Request::CreateParagraphBullets(x) => {},
            Request::DeleteParagraphBullets(x) => {},
            Request::UpdateTextStyle(x) => {},
        }
    }
}

/// The name is among those of a field mask, which commas part.
pub open spec fn masked(fields: Seq<char>, name: Seq<char>) -> bool {
    exists|i: int| #[trigger]
        occurs_at(fields, name, i) && (i == 0 || fields[i - 1] == ',') && (i + name.len()
            == fields.len() || fields[i + name.len()] == ',')
}

/// The mask of a text-style request names all that the library sets, and that of a
/// paragraph-style request the named style.
pub proof fn law_masks()
    ensures
        masked(TEXT_FIELDS@, "bold"@),
        masked(TEXT_FIELDS@, "italic"@),
        masked(TEXT_FIELDS@, "strikethrough"@),
        masked(TEXT_FIELDS@, "link"@),
        masked(PARAGRAPH_FIELDS@, "namedStyleType"@),
{
    reveal_strlit("bold,italic,strikethrough,link");
    reveal_strlit("namedStyleType");
    reveal_strlit("bold");
    reveal_strlit("italic");
    reveal_strlit("strikethrough");
    reveal_strlit("link");
    let f = TEXT_FIELDS@;
    assert(f.subrange(0, 4) =~= "bold"@);
    assert(f.subrange(5, 11) =~= "italic"@);
    assert(f.subrange(12, 25) =~= "strikethrough"@);
    assert(f.subrange(26, 30) =~= "link"@);
    assert(occurs_at(f, "bold"@, 0));
    assert(occurs_at(f, "italic"@, 5));
    assert(occurs_at(f, "strikethrough"@, 12));
    assert(occurs_at(f, "link"@, 26));
    let g = PARAGRAPH_FIELDS@;
    assert(g.subrange(0, 14) =~= "namedStyleType"@);
    assert(occurs_at(g, "namedStyleType"@, 0));
}

// ---------------------------------------------------------------------------
// Structural requests
// ---------------------------------------------------------------------------

/// The table that a request inserts: its rows, its columns and where it goes.
pub open spec fn read_new_table(j: JsonV) -> Option<(int, int, int)> {
    if asks(j, "insertTable"@) {
        let x = get_field(j, "insertTable"@);
        match (
            read_index(dig(x, "rows"@)),
            read_index(dig(x, "columns"@)),
            read_index(dig(dig(x, "location"@), "index"@)),
        ) {
            (Some(rows), Some(columns), Some(index)) => Some((rows, columns, index)),
            _ => None,
        }
    } else {
        None
    }
}

/// The request to delete a barrier deletes its range, and the request to insert a table
/// inserts one of these dimensions there.
pub proof fn law_structure_reads(a: int, b: int, c: int)
    requires
        0 <= a <= u64::MAX,
        0 <= b <= u64::MAX,
        0 <= c <= u64::MAX,
    ensures
        read_request(delete_op(a, b)) == Some(RequestV::Delete { start: a, end: b }),
        read_new_table(delete_op(a, b)) is None,
        read_new_table(insert_op(a, b, c)) == Some((a, b, c)),
        read_request(insert_op(a, b, c)) is None,
{
    lemma_names();
    let top = delete_op(a, b)->Object_0;
    lemma_members(top);
    let ms = top[0].1->Object_0;
    lemma_members(ms);
    let range = ms[0].1->Object_0;
    lemma_members(range);
    assert(top[0].0 == "deleteContentRange"@ && ms[0].0 == "range"@);
    assert(range[0].0 == "startIndex"@ && range[1].0 == "endIndex"@);
    let new = insert_op(a, b, c)->Object_0;
    lemma_members(new);
    let ns = new[0].1->Object_0;
    lemma_members(ns);
    let loc = ns[2].1->Object_0;
    lemma_members(loc);
    assert(new[0].0 == "insertTable"@ && ns[0].0 == "rows"@ && ns[1].0 == "columns"@);
    assert(ns[2].0 == "location"@ && loc[0].0 == "index"@);
}

} // verus!
