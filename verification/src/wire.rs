//! Requests in the JSON shape that the document service takes.
use crate::json::{array, json_views, object1, string, with, Json, JsonV};
use crate::request::{request_views, Range, Request, RequestV, TextStyleMsg};
use crate::structure::json_number;
use vstd::prelude::*;

verus! {

/// A range.
pub open spec fn range_json(start: int, end: int) -> JsonV {
    JsonV::Object(
        seq![("startIndex"@, json_number(start)), ("endIndex"@, json_number(end))],
    )
}

/// An object of one member, named by the kind of request, that holds these members.
pub open spec fn entry(name: Seq<char>, members: Seq<(Seq<char>, JsonV)>) -> JsonV {
    JsonV::Object(seq![(name, JsonV::Object(members))])
}

/// The members of a text style; a missing link is left out.
pub open spec fn style_members(
    bold: bool,
    italic: bool,
    strikethrough: bool,
    link: Option<Seq<char>>,
) -> Seq<(Seq<char>, JsonV)> {
    let marks = seq![
        ("bold"@, JsonV::Bool(bold)),
        ("italic"@, JsonV::Bool(italic)),
        ("strikethrough"@, JsonV::Bool(strikethrough)),
    ];
    match link {
        Some(url) => marks.push(("link"@, JsonV::Object(seq![("url"@, JsonV::Str(url))]))),
        None => marks,
    }
}

/// A request as JSON.
pub open spec fn request_json(r: RequestV) -> JsonV {
    match r {
        RequestV::Insert { index, text } => entry(
            "insertText"@,
            seq![
                ("location"@, JsonV::Object(seq![("index"@, json_number(index))])),
                ("text"@, JsonV::Str(text)),
            ],
        ),
        RequestV::Delete { start, end } => entry(
            "deleteContentRange"@,
            seq![("range"@, range_json(start, end))],
        ),
        RequestV::Paragraph { start, end, named, fields } => entry(
            "updateParagraphStyle"@,
            seq![
                ("range"@, range_json(start, end)),
                ("paragraphStyle"@, JsonV::Object(seq![("namedStyleType"@, JsonV::Str(named))])),
                ("fields"@, JsonV::Str(fields)),
            ],
        ),
        RequestV::Bullets { start, end, preset } => entry(
            "createParagraphBullets"@,
            seq![("range"@, range_json(start, end)), ("bulletPreset"@, JsonV::Str(preset))],
        ),
        RequestV::NoBullets { start, end } => entry(
            "deleteParagraphBullets"@,
            seq![("range"@, range_json(start, end))],
        ),
        RequestV::Style { start, end, style, link, fields } => entry(
            "updateTextStyle"@,
            seq![
                ("range"@, range_json(start, end)),
                (
                    "textStyle"@,
                    JsonV::Object(
                        style_members(style.bold, style.italic, style.strikethrough, link),
                    ),
                ),
                ("fields"@, JsonV::Str(fields)),
            ],
        ),
    }
}

/// Requests as JSON.
pub open spec fn requests_json(rs: Seq<RequestV>) -> Seq<JsonV> {
    Seq::new(rs.len(), |i: int| request_json(rs[i]))
}

/// A list of requests as the body of a `batchUpdate`.
pub open spec fn body_json(requests: Seq<JsonV>) -> JsonV {
    JsonV::Object(seq![("requests"@, JsonV::Array(requests))])
}

/// The body of a `batchUpdate` that is refused unless the document is at this revision.
pub open spec fn locked_body_json(requests: Seq<JsonV>, revision: Seq<char>) -> JsonV {
    JsonV::Object(
        seq![
            ("requests"@, JsonV::Array(requests)),
            (
                "writeControl"@,
                JsonV::Object(seq![("requiredRevisionId"@, JsonV::Str(revision))]),
            ),
        ],
    )
}

/// An object of two members.
fn object2(a: &str, x: Json, b: &str, y: Json) -> (r: Json)
    ensures
        r@ == JsonV::Object(seq![(a@, x@), (b@, y@)]),
{
    let r = with(object1(a, x), b, y);
    assert(seq![(a@, x@)].push((b@, y@)) =~= seq![(a@, x@), (b@, y@)]);
    r
}

/// An object of three members.
fn object3(a: &str, x: Json, b: &str, y: Json, c: &str, z: Json) -> (r: Json)
    ensures
        r@ == JsonV::Object(seq![(a@, x@), (b@, y@), (c@, z@)]),
{
    let r = with(object2(a, x, b, y), c, z);
    assert(seq![(a@, x@), (b@, y@)].push((c@, z@)) =~= seq![(a@, x@), (b@, y@), (c@, z@)]);
    r
}

/// A range.
fn range_of(r: &Range) -> (j: Json)
    ensures
        j@ == range_json(r.start_index as int, r.end_index as int),
{
    object2(
        "startIndex",
        Json::Number(r.start_index as u64),
        "endIndex",
        Json::Number(r.end_index as u64),
    )
}

/// A text style; a missing link is left out.
fn style_of(s: &TextStyleMsg) -> (j: Json)
    ensures
        j@ == JsonV::Object(
            style_members(
                s.bold,
                s.italic,
                s.strikethrough,
                match s.link {
                    Some(l) => Some(l.url@),
                    None => None,
                },
            ),
        ),
{
    let marks = object3(
        "bold",
        Json::Bool(s.bold),
        "italic",
        Json::Bool(s.italic),
        "strikethrough",
        Json::Bool(s.strikethrough),
    );
    match &s.link {
        Some(l) => with(marks, "link", object1("url", string(l.url.as_str()))),
        None => marks,
    }
}

/// A request as JSON.
pub fn to_json(r: &Request) -> (j: Json)
    ensures
        j@ == request_json(r@),
{
    match r {
        Request::InsertText(x) => object1(
            "insertText",
            object2(
                "location",
                object1("index", Json::Number(x.location.index as u64)),
                "text",
                string(x.text.as_str()),
            ),
        ),
        Request::DeleteContentRange(x) => object1(
            "deleteContentRange",
            object1("range", range_of(&x.range)),
        ),
        Request::UpdateParagraphStyle(x) => object1(
            "updateParagraphStyle",
            object3(
                "range",
                range_of(&x.range),
                "paragraphStyle",
                object1("namedStyleType", string(x.paragraph_style.named_style_type.as_str())),
                "fields",
                string(x.fields.as_str()),
            ),
        ),
        Request::CreateParagraphBullets(x) => object1(
            "createParagraphBullets",
            object2(
                "range",
                range_of(&x.range),
                "bulletPreset",
                string(x.bullet_preset.as_str()),
            ),
        ),
        Request::DeleteParagraphBullets(x) => object1(
            "deleteParagraphBullets",
            object1("range", range_of(&x.range)),
        ),
        Request::UpdateTextStyle(x) => object1(
            "updateTextStyle",
            object3(
                "range",
                range_of(&x.range),
                "textStyle",
                style_of(&x.text_style),
                "fields",
                string(x.fields.as_str()),
            ),
        ),
    }
}

/// Requests as JSON.
pub fn all_to_json(reqs: &[Request]) -> (r: Vec<Json>)
    ensures
        json_views(r@) == requests_json(request_views(reqs@)),
{
    let n: usize = reqs.len();
    let mut out: Vec<Json> = Vec::new();
    for i in 0..n
        invariant
            n == reqs@.len(),
            out@.len() == i,
            forall|k: int| 0 <= k < i ==> (#[trigger] out@[k])@ == request_json(reqs@[k]@),
    {
        out.push(to_json(&reqs[i]));
    }
    assert(json_views(out@) =~= requests_json(request_views(reqs@)));
    out
}

/// Wrap requests into the body of a `batchUpdate`.
pub fn batch_update_body(reqs: &[Request]) -> (r: Json)
    ensures
        r@ == body_json(requests_json(request_views(reqs@))),
{
    object1("requests", array(all_to_json(reqs)))
}

/// Wrap requests into the body of a `batchUpdate` that is refused unless the document is
/// at this revision.
pub fn locked_body(requests: Vec<Json>, revision: &str) -> (r: Json)
    ensures
        r@ == locked_body_json(json_views(requests@), revision@),
{
    object2(
        "requests",
        array(requests),
        "writeControl",
        object1("requiredRevisionId", string(revision)),
    )
}

} // verus!
