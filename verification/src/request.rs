//! The entries of a `batchUpdate` request list.
//!
//! Document indices count UTF-16 units from 1: text offset `o` is index `o + 1`.
use crate::model::TextStyle;
use vstd::prelude::*;

verus! {

/// A place in the document.
#[derive(Debug, Clone, Copy, PartialEq, Eq, Structural)]
pub struct Location {
    pub index: usize,
}

/// A half-open range of document indices.
#[derive(Debug, Clone, Copy, PartialEq, Eq, Structural)]
pub struct Range {
    pub start_index: usize,
    pub end_index: usize,
}

#[derive(Debug, Clone, PartialEq, Eq)]
pub struct InsertText {
    pub location: Location,
    pub text: String,
}

#[derive(Debug, Clone, PartialEq, Eq)]
pub struct DeleteContentRange {
    pub range: Range,
}

#[derive(Debug, Clone, PartialEq, Eq)]
pub struct ParagraphStyle {
    pub named_style_type: String,
}

#[derive(Debug, Clone, PartialEq, Eq)]
pub struct UpdateParagraphStyle {
    pub range: Range,
    pub paragraph_style: ParagraphStyle,
    pub fields: String,
}

#[derive(Debug, Clone, PartialEq, Eq)]
pub struct CreateParagraphBullets {
    pub range: Range,
    pub bullet_preset: String,
}

#[derive(Debug, Clone, PartialEq, Eq)]
pub struct DeleteParagraphBullets {
    pub range: Range,
}

#[derive(Debug, Clone, PartialEq, Eq)]
pub struct Link {
    pub url: String,
}

/// A text style in an `updateTextStyle` request. Since `fields` always lists
/// `link`, a missing link clears the one that is there.
#[derive(Debug, Clone, PartialEq, Eq)]
pub struct TextStyleMsg {
    pub bold: bool,
    pub italic: bool,
    pub strikethrough: bool,
    pub link: Option<Link>,
}

#[derive(Debug, Clone, PartialEq, Eq)]
pub struct UpdateTextStyle {
    pub range: Range,
    pub text_style: TextStyleMsg,
    pub fields: String,
}

/// One entry of a `batchUpdate` request list.
#[derive(Debug, Clone, PartialEq, Eq)]
pub enum Request {
    InsertText(InsertText),
    DeleteContentRange(DeleteContentRange),
    UpdateParagraphStyle(UpdateParagraphStyle),
    CreateParagraphBullets(CreateParagraphBullets),
    DeleteParagraphBullets(DeleteParagraphBullets),
    UpdateTextStyle(UpdateTextStyle),
}

/// What a [`Request`] asks for.
#[verifier::ext_equal]
pub enum RequestV {
    Insert { index: int, text: Seq<char> },
    Delete { start: int, end: int },
    Paragraph { start: int, end: int, named: Seq<char>, fields: Seq<char> },
    Bullets { start: int, end: int, preset: Seq<char> },
    NoBullets { start: int, end: int },
    Style {
        start: int,
        end: int,
        style: TextStyle,
        link: Option<Seq<char>>,
        fields: Seq<char>,
    },
}

impl View for Request {
    type V = RequestV;

    open spec fn view(&self) -> RequestV {
        match self {
            Request::InsertText(x) => RequestV::Insert {
                index: x.location.index as int,
                text: x.text@,
            },
            Request::DeleteContentRange(x) => RequestV::Delete {
                start: x.range.start_index as int,
                end: x.range.end_index as int,
            },
            Request::UpdateParagraphStyle(x) => RequestV::Paragraph {
                start: x.range.start_index as int,
                end: x.range.end_index as int,
                named: x.paragraph_style.named_style_type@,
                fields: x.fields@,
            },
            Request::CreateParagraphBullets(x) => RequestV::Bullets {
                start: x.range.start_index as int,
                end: x.range.end_index as int,
                preset: x.bullet_preset@,
            },
            Request::DeleteParagraphBullets(x) => RequestV::NoBullets {
                start: x.range.start_index as int,
                end: x.range.end_index as int,
            },
            Request::UpdateTextStyle(x) => RequestV::Style {
                start: x.range.start_index as int,
                end: x.range.end_index as int,
                style: TextStyle {
                    bold: x.text_style.bold,
                    italic: x.text_style.italic,
                    strikethrough: x.text_style.strikethrough,
                },
                link: match x.text_style.link {
                    Some(l) => Some(l.url@),
                    None => None,
                },
                fields: x.fields@,
            },
        }
    }
}

/// What each request asks for.
pub open spec fn request_views(s: Seq<Request>) -> Seq<RequestV> {
    Seq::new(s.len(), |i: int| s[i]@)
}

/// The fields that a text-style request sets.
pub const TEXT_FIELDS: &'static str = "bold,italic,strikethrough,link";

/// The field that a paragraph-style request sets.
pub const PARAGRAPH_FIELDS: &'static str = "namedStyleType";

/// The request to set this style and link on a range.
pub open spec fn style_request(
    start: int,
    end: int,
    style: TextStyle,
    link: Option<Seq<char>>,
) -> RequestV {
    RequestV::Style { start, end, style, link, fields: TEXT_FIELDS@ }
}

/// The request to set a style and link on a range. Without a link it clears the one
/// that is there.
pub fn update_text_style(range: Range, style: TextStyle, link: Option<&str>) -> (r: Request)
    ensures
        r@ == style_request(
            range.start_index as int,
            range.end_index as int,
            style,
            match link {
                Some(url) => Some(url@),
                None => None,
            },
        ),
{
    let link = match link {
        Some(url) => Some(Link { url: url.to_owned() }),
        None => None,
    };
    Request::UpdateTextStyle(
        UpdateTextStyle {
            range,
            text_style: TextStyleMsg {
                bold: style.bold,
                italic: style.italic,
                strikethrough: style.strikethrough,
                link,
            },
            fields: TEXT_FIELDS.to_owned(),
        },
    )
}

/// The request to insert `text` at index `index`.
pub fn insert_text(index: usize, text: String) -> (r: Request)
    ensures
        r@ == (RequestV::Insert { index: index as int, text: text@ }),
{
    Request::InsertText(InsertText { location: Location { index }, text })
}

/// The request to delete a range.
pub fn delete_range(start_index: usize, end_index: usize) -> (r: Request)
    ensures
        r@ == (RequestV::Delete { start: start_index as int, end: end_index as int }),
{
    Request::DeleteContentRange(DeleteContentRange { range: Range { start_index, end_index } })
}

/// The request to take a range out of its lists.
pub fn delete_bullets(range: Range) -> (r: Request)
    ensures
        r@ == (RequestV::NoBullets {
            start: range.start_index as int,
            end: range.end_index as int,
        }),
{
    Request::DeleteParagraphBullets(DeleteParagraphBullets { range })
}

/// The request to give a range a named paragraph style.
pub fn name_style(range: Range, named: String) -> (r: Request)
    ensures
        r@ == (RequestV::Paragraph {
            start: range.start_index as int,
            end: range.end_index as int,
            named: named@,
            fields: PARAGRAPH_FIELDS@,
        }),
{
    Request::UpdateParagraphStyle(
        UpdateParagraphStyle {
            range,
            paragraph_style: ParagraphStyle { named_style_type: named },
            fields: PARAGRAPH_FIELDS.to_owned(),
        },
    )
}

/// The request to make a range a list.
pub fn create_bullets(range: Range, preset: &str) -> (r: Request)
    ensures
        r@ == (RequestV::Bullets {
            start: range.start_index as int,
            end: range.end_index as int,
            preset: preset@,
        }),
{
    Request::CreateParagraphBullets(
        CreateParagraphBullets { range, bullet_preset: preset.to_owned() },
    )
}

/// The request moved up by `d` indices.
pub open spec fn shifted(r: RequestV, d: int) -> RequestV {
    match r {
        RequestV::Insert { index, text } => RequestV::Insert { index: index + d, text },
        RequestV::Delete { start, end } => RequestV::Delete { start: start + d, end: end + d },
        RequestV::Paragraph { start, end, named, fields } => RequestV::Paragraph {
            start: start + d,
            end: end + d,
            named,
            fields,
        },
        RequestV::Bullets { start, end, preset } => RequestV::Bullets {
            start: start + d,
            end: end + d,
            preset,
        },
        RequestV::NoBullets { start, end } => RequestV::NoBullets { start: start + d, end: end + d },
        RequestV::Style { start, end, style, link, fields } => RequestV::Style {
            start: start + d,
            end: end + d,
            style,
            link,
            fields,
        },
    }
}

/// The requests moved up by `d` indices.
pub open spec fn shift_all(rs: Seq<RequestV>, d: int) -> Seq<RequestV> {
    Seq::new(rs.len(), |i: int| shifted(rs[i], d))
}

/// Every index of the request lies between 0 and `max`.
pub open spec fn indices_within(r: RequestV, max: int) -> bool {
    match r {
        RequestV::Insert { index, .. } => 0 <= index <= max,
        RequestV::Delete { start, end } => 0 <= start <= max && 0 <= end <= max,
        RequestV::Paragraph { start, end, .. } => 0 <= start <= max && 0 <= end <= max,
        RequestV::Bullets { start, end, .. } => 0 <= start <= max && 0 <= end <= max,
        RequestV::NoBullets { start, end } => 0 <= start <= max && 0 <= end <= max,
        RequestV::Style { start, end, .. } => 0 <= start <= max && 0 <= end <= max,
    }
}

/// Every index of every request lies between 0 and `max`.
pub open spec fn all_within(rs: Seq<RequestV>, max: int) -> bool {
    forall|i: int| 0 <= i < rs.len() ==> indices_within(#[trigger] rs[i], max)
}

/// Joined lists of bounded requests are bounded.
pub proof fn lemma_within_add(a: Seq<RequestV>, b: Seq<RequestV>, max: int)
    requires
        all_within(a, max),
        all_within(b, max),
    ensures
        all_within(a + b, max),
{
    assert forall|i: int| 0 <= i < (a + b).len() implies indices_within(
        #[trigger] (a + b)[i],
        max,
    ) by {
        if i < a.len() {
            assert(indices_within(a[i], max));
        } else {
            assert(indices_within(b[i - a.len()], max));
        }
    }
}

/// The range moved up by `d`.
fn shift_range(r: Range, d: usize) -> (s: Range)
    requires
        r.start_index + d <= usize::MAX,
        r.end_index + d <= usize::MAX,
    ensures
        s.start_index == r.start_index + d,
        s.end_index == r.end_index + d,
{
    Range { start_index: r.start_index + d, end_index: r.end_index + d }
}

/// The request moved up by `d` indices: it carries an edit of a text that starts at
/// index 1 to where that text starts in the document.
pub fn shift_request(r: Request, d: usize) -> (s: Request)
    requires
        indices_within(r@, usize::MAX - d),
    ensures
        s@ == shifted(r@, d as int),
{
    match r {
        Request::InsertText(x) => Request::InsertText(
            InsertText { location: Location { index: x.location.index + d }, text: x.text },
        ),
        Request::DeleteContentRange(x) => Request::DeleteContentRange(
            DeleteContentRange { range: shift_range(x.range, d) },
        ),
        Request::UpdateParagraphStyle(x) => Request::UpdateParagraphStyle(
            UpdateParagraphStyle {
                range: shift_range(x.range, d),
                paragraph_style: x.paragraph_style,
                fields: x.fields,
            },
        ),
        Request::CreateParagraphBullets(x) => Request::CreateParagraphBullets(
            CreateParagraphBullets {
                range: shift_range(x.range, d),
                bullet_preset: x.bullet_preset,
            },
        ),
        Request::DeleteParagraphBullets(x) => Request::DeleteParagraphBullets(
            DeleteParagraphBullets { range: shift_range(x.range, d) },
        ),
        Request::UpdateTextStyle(x) => Request::UpdateTextStyle(
            UpdateTextStyle {
                range: shift_range(x.range, d),
                text_style: x.text_style,
                fields: x.fields,
            },
        ),
    }
}

} // verus!
