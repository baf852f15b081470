//! The safety gate: content that the model does not hold.
//!
//! Such content takes up document indices, so edits would land in wrong places; a
//! document with any of it is not edited.
use crate::api::body_content;
use crate::json::{
    array_of, dig_into, get_field, has_member, items, json_views, member_views, members, Json,
    JsonV,
};
use crate::text::same_text;
use vstd::prelude::*;

verus! {

/// How many kinds of content have a name.
pub const LABELS: usize = 11;

/// The names of content that a document may hold, in alphabetical order.
pub open spec fn label(k: int) -> Seq<char> {
    if k == 0 {
        "auto text"@
    } else if k == 1 {
        "column break"@
    } else if k == 2 {
        "equation"@
    } else if k == 3 {
        "footnote"@
    } else if k == 4 {
        "image"@
    } else if k == 5 {
        "page break"@
    } else if k == 6 {
        "section break"@
    } else if k == 7 {
        "smart chip (link)"@
    } else if k == 8 {
        "smart chip (person)"@
    } else if k == 9 {
        "table of contents"@
    } else {
        "unsupported element"@
    }
}

/// Which name the content under a member of this name has.
pub open spec fn label_of(key: Seq<char>) -> int {
    if key == "inlineObjectElement"@ {
        4
    } else if key == "footnoteReference"@ {
        3
    } else if key == "pageBreak"@ {
        5
    } else if key == "columnBreak"@ {
        1
    } else if key == "equation"@ {
        2
    } else if key == "person"@ {
        8
    } else if key == "richLink"@ {
        7
    } else if key == "autoText"@ {
        0
    } else if key == "tableOfContents"@ {
        9
    } else if key == "sectionBreak"@ {
        6
    } else {
        10
    }
}

/// A member of a paragraph element that the model holds or that takes up no index.
pub open spec fn modeled(key: Seq<char>) -> bool {
    ||| key == "textRun"@
    ||| key == "startIndex"@
    ||| key == "endIndex"@
    ||| key == "horizontalRule"@
    ||| key == "inlineObjectElement"@
    ||| key == "footnoteReference"@
    ||| key == "pageBreak"@
    ||| key == "columnBreak"@
    ||| key == "autoText"@
}

/// The paragraph element has a member that the model does not hold, named `k`.
pub open spec fn element_has(e: JsonV, k: int) -> bool {
    exists|m: int|
        0 <= m < members(e).len() && !modeled((#[trigger] members(e)[m]).0) && label_of(
            members(e)[m].0,
        ) == k
}

/// The structural element has a member besides its indices, named `k`.
pub open spec fn other_has(el: JsonV, k: int) -> bool {
    exists|m: int|
        0 <= m < members(el).len() && (#[trigger] members(el)[m]).0 != "startIndex"@ && members(
            el,
        )[m].0 != "endIndex"@ && label_of(members(el)[m].0) == k
}

/// The `i`-th structural element holds content named `k` that the model does not hold.
/// Tables and tables of contents are held, and the section break at the front is the
/// document's own.
pub open spec fn finds(el: JsonV, i: int, k: int) -> bool {
    if let Some(p) = get_field(el, "paragraph"@) {
        exists|j: int|
            0 <= j < items(get_field(p, "elements"@)).len() && element_has(
                #[trigger] items(get_field(p, "elements"@))[j],
                k,
            )
    } else if has_member(el, "table"@) || has_member(el, "tableOfContents"@) {
        false
    } else if has_member(el, "sectionBreak"@) {
        i != 0 && k == 6
    } else {
        other_has(el, k)
    }
}

/// One of the first `n` structural elements holds content named `k` that the model does
/// not hold.
pub open spec fn found(els: Seq<JsonV>, n: int, k: int) -> bool {
    exists|i: int| 0 <= i < n && finds(#[trigger] els[i], i, k)
}

/// The names of the content found, among the first `k` names, in alphabetical order.
pub open spec fn found_labels(doc: JsonV, k: int) -> Seq<Seq<char>>
    decreases k,
{
    if k <= 0 {
        Seq::empty()
    } else if found(body_content(doc), body_content(doc).len() as int, k - 1) {
        found_labels(doc, k - 1).push(label(k - 1))
    } else {
        found_labels(doc, k - 1)
    }
}

/// The names of the content that the model does not hold.
pub open spec fn unsupported(doc: JsonV) -> Seq<Seq<char>> {
    found_labels(doc, LABELS as int)
}


/// Which name the content under a member of this name has.
fn label_index(key: &str) -> (r: usize)
    ensures
        r == label_of(key@),
        r < LABELS,
{
    if same_text(key, "inlineObjectElement") {
        4
    } else if same_text(key, "footnoteReference") {
        3
    } else if same_text(key, "pageBreak") {
        5
    } else if same_text(key, "columnBreak") {
        1
    } else if same_text(key, "equation") {
        2
    } else if same_text(key, "person") {
        8
    } else if same_text(key, "richLink") {
        7
    } else if same_text(key, "autoText") {
        0
    } else if same_text(key, "tableOfContents") {
        9
    } else if same_text(key, "sectionBreak") {
        6
    } else {
        10
    }
}

/// The name of content.
fn label_text(k: usize) -> (r: &'static str)
    ensures
        r@ == label(k as int),
{
    match k {
        0 => "auto text",
        1 => "column break",
        2 => "equation",
        3 => "footnote",
        4 => "image",
        5 => "page break",
        6 => "section break",
        7 => "smart chip (link)",
        8 => "smart chip (person)",
        9 => "table of contents",
        _ => "unsupported element",
    }
}

/// The name of the content under a member of this name.
pub fn opaque_label(key: &str) -> (r: &'static str)
    ensures
        r@ == label(label_of(key@)),
{
    label_text(label_index(key))
}

/// Whether a member of a paragraph element is held by the model or takes up no index.
fn is_modeled(key: &str) -> (r: bool)
    ensures
        r == modeled(key@),
{
    same_text(key, "textRun") || same_text(key, "startIndex") || same_text(key, "endIndex")
        || same_text(key, "horizontalRule") || same_text(key, "inlineObjectElement") || same_text(
        key,
        "footnoteReference",
    ) || same_text(key, "pageBreak") || same_text(key, "columnBreak") || same_text(
        key,
        "autoText",
    )
}

/// Mark what a paragraph element holds.
fn mark_element(seen: &mut Vec<bool>, e: &Json)
    requires
        old(seen)@.len() == LABELS,
    ensures
        final(seen)@.len() == LABELS,
        forall|k: int|
            0 <= k < LABELS ==> #[trigger] final(seen)@[k] == (old(seen)@[k] || element_has(
                e@,
                k,
            )),
{
    if let Some(v) = e.as_object() {
        let n: usize = v.len();
        let ghost ms = members(e@);
        for i in 0..n
            invariant
                n == v@.len(),
                ms == members(e@),
                ms == member_views(v@),
                seen@.len() == LABELS,
                forall|k: int|
                    0 <= k < LABELS ==> #[trigger] seen@[k] == (old(seen)@[k] || exists|m: int|
                        0 <= m < i && !modeled((#[trigger] ms[m]).0) && label_of(ms[m].0) == k),
        {
            let ghost before = seen@;
            let key = v[i].name.as_str();
            assert(ms[i as int].0 == key@);
            if !is_modeled(key) {
                let k: usize = label_index(key);
                seen.set(k, true);
            }
            assert forall|k: int| 0 <= k < LABELS implies #[trigger] seen@[k] == (old(seen)@[k]
                || exists|m: int|
                0 <= m < i + 1 && !modeled((#[trigger] ms[m]).0) && label_of(ms[m].0) == k) by {
                assert(before[k] == (old(seen)@[k] || exists|m: int|
                    0 <= m < i && !modeled((#[trigger] ms[m]).0) && label_of(ms[m].0) == k));
                if seen@[k] && !before[k] {
                    assert(!modeled(ms[i as int].0) && label_of(ms[i as int].0) == k);
                }
            }
        }
    }
}

/// Mark what a structural element holds besides its indices.
fn mark_other(seen: &mut Vec<bool>, el: &Json)
    requires
        old(seen)@.len() == LABELS,
    ensures
        final(seen)@.len() == LABELS,
        forall|k: int|
            0 <= k < LABELS ==> #[trigger] final(seen)@[k] == (old(seen)@[k] || other_has(el@, k)),
{
    if let Some(v) = el.as_object() {
        let n: usize = v.len();
        let ghost ms = members(el@);
        for i in 0..n
            invariant
                n == v@.len(),
                ms == members(el@),
                ms == member_views(v@),
                seen@.len() == LABELS,
                forall|k: int|
                    0 <= k < LABELS ==> #[trigger] seen@[k] == (old(seen)@[k] || exists|m: int|
                        0 <= m < i && (#[trigger] ms[m]).0 != "startIndex"@ && ms[m].0
                            != "endIndex"@ && label_of(ms[m].0) == k),
        {
            let ghost before = seen@;
            let key = v[i].name.as_str();
            assert(ms[i as int].0 == key@);
            if !same_text(key, "startIndex") && !same_text(key, "endIndex") {
                let k: usize = label_index(key);
                seen.set(k, true);
            }
            assert forall|k: int| 0 <= k < LABELS implies #[trigger] seen@[k] == (old(seen)@[k]
                || exists|m: int|
                0 <= m < i + 1 && (#[trigger] ms[m]).0 != "startIndex"@ && ms[m].0 != "endIndex"@
                    && label_of(ms[m].0) == k) by {
                assert(before[k] == (old(seen)@[k] || exists|m: int|
                    0 <= m < i && (#[trigger] ms[m]).0 != "startIndex"@ && ms[m].0 != "endIndex"@
                        && label_of(ms[m].0) == k));
                if seen@[k] && !before[k] {
                    assert(ms[i as int].0 != "startIndex"@ && ms[i as int].0 != "endIndex"@
                        && label_of(ms[i as int].0) == k);
                }
            }
        }
    }
}

/// Mark what the elements of a paragraph hold.
fn mark_paragraph(seen: &mut Vec<bool>, p: &Json)
    requires
        old(seen)@.len() == LABELS,
    ensures
        final(seen)@.len() == LABELS,
        forall|k: int|
            0 <= k < LABELS ==> #[trigger] final(seen)@[k] == (old(seen)@[k] || exists|j: int|
                0 <= j < items(get_field(p@, "elements"@)).len() && element_has(
                    #[trigger] items(get_field(p@, "elements"@))[j],
                    k,
                )),
{
    let ghost es = items(get_field(p@, "elements"@));
    if let Some(v) = array_of(p.get("elements")) {
        let n: usize = v.len();
        for i in 0..n
            invariant
                n == v@.len(),
                es == json_views(v@),
                seen@.len() == LABELS,
                forall|k: int|
                    0 <= k < LABELS ==> #[trigger] seen@[k] == (old(seen)@[k] || exists|j: int|
                        0 <= j < i && element_has(#[trigger] es[j], k)),
        {
            let ghost before = seen@;
            assert(es[i as int] == v@[i as int]@);
            mark_element(seen, &v[i]);
            assert forall|k: int| 0 <= k < LABELS implies #[trigger] seen@[k] == (old(seen)@[k]
                || exists|j: int| 0 <= j < i + 1 && element_has(#[trigger] es[j], k)) by {
                assert(before[k] == (old(seen)@[k] || exists|j: int|
                    0 <= j < i && element_has(#[trigger] es[j], k)));
                if seen@[k] && !before[k] {
                    assert(element_has(es[i as int], k));
                }
            }
        }
    }
}

/// Mark what the `i`-th structural element holds.
fn mark_node(seen: &mut Vec<bool>, el: &Json, i: usize)
    requires
        old(seen)@.len() == LABELS,
    ensures
        final(seen)@.len() == LABELS,
        forall|k: int|
            0 <= k < LABELS ==> #[trigger] final(seen)@[k] == (old(seen)@[k] || finds(
                el@,
                i as int,
                k,
            )),
{
    if let Some(p) = el.get("paragraph") {
        mark_paragraph(seen, p);
    } else if el.get("table").is_some() || el.get("tableOfContents").is_some() {
    } else if el.get("sectionBreak").is_some() {
        if i != 0 {
            seen.set(6, true);
        }
    } else {
        mark_other(seen, el);
    }
}

/// Detect content that takes up indices and that the model does not hold (equations,
/// smart chips, inner section breaks, …). Returns the names of what was found, in
/// alphabetical order and each once. Tables, rules, tables of contents, the modeled
/// inline objects and the leading section break are fine.
pub fn unsupported_features(doc: &Json) -> (r: Vec<String>)
    ensures
        string_views(r@) == unsupported(doc@),
{
    let mut seen: Vec<bool> = Vec::new();
    for k in 0..LABELS
        invariant
            seen@.len() == k,
            forall|q: int| 0 <= q < k ==> !(#[trigger] seen@[q]),
    {
        seen.push(false);
    }
    let ghost els = body_content(doc@);
    if let Some(v) = array_of(dig_into(doc.get("body"), "content")) {
        let n: usize = v.len();
        for i in 0..n
            invariant
                n == v@.len(),
                els == json_views(v@),
                seen@.len() == LABELS,
                forall|k: int|
                    0 <= k < LABELS ==> #[trigger] seen@[k] == found(els, i as int, k),
        {
            let ghost before = seen@;
            assert(els[i as int] == v@[i as int]@);
            mark_node(&mut seen, &v[i], i);
            assert forall|k: int| 0 <= k < LABELS implies #[trigger] seen@[k] == found(
                els,
                i + 1,
                k,
            ) by {
                assert(before[k] == found(els, i as int, k));
                if before[k] {
                    let w = choose|w: int| 0 <= w < i && finds(#[trigger] els[w], w, k);
                    assert(0 <= w < i + 1 && finds(els[w], w, k));
                }
                if finds(els[i as int], i as int, k) {
                    assert(0 <= i < i + 1 && finds(els[i as int], i as int, k));
                }
                if found(els, i + 1, k) {
                    let w = choose|w: int| 0 <= w < i + 1 && finds(#[trigger] els[w], w, k);
                    if w < i {
                        assert(0 <= w < i && finds(els[w], w, k));
                    }
                }
            }
        }
    }
    let mut out: Vec<String> = Vec::new();
    assert(string_views(out@) =~= Seq::<Seq<char>>::empty());
    for k in 0..LABELS
        invariant
            els == body_content(doc@),
            seen@.len() == LABELS,
            forall|k: int|
                0 <= k < LABELS ==> #[trigger] seen@[k] == found(els, els.len() as int, k),
            string_views(out@) == found_labels(doc@, k as int),
    {
        let ghost before = string_views(out@);
        assert(seen@[k as int] == found(els, els.len() as int, k as int));
        if seen[k] {
            out.push(label_text(k).to_owned());
            assert(string_views(out@) =~= before.push(label(k as int)));
        }
    }
    out
}

/// The characters of each string.
pub open spec fn string_views(v: Seq<String>) -> Seq<Seq<char>> {
    Seq::new(v.len(), |i: int| v[i]@)
}

/// A document of which nothing is found is one whose every element is held.
pub proof fn law_supported(doc: JsonV)
    ensures
        unsupported(doc).len() == 0 <==> forall|k: int|
            0 <= k < LABELS ==> !(#[trigger] found(
                body_content(doc),
                body_content(doc).len() as int,
                k,
            )),
{
    lemma_found_labels(doc, LABELS as int);
}

proof fn lemma_found_labels(doc: JsonV, n: int)
    requires
        0 <= n,
    ensures
        found_labels(doc, n).len() == 0 <==> forall|k: int|
            0 <= k < n ==> !(#[trigger] found(
                body_content(doc),
                body_content(doc).len() as int,
                k,
            )),
    decreases n,
{
    if n > 0 {
        lemma_found_labels(doc, n - 1);
    }
}

} // verus!
