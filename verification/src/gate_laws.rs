//! What the safety gate lets through takes up just the indices that the model counts.
use crate::api::{
    body_content, chomp, descriptor, element_run, element_runs, paragraph_runs, rule_paragraph,
};
use crate::gate::{
    element_has, finds, found, found_labels, label, label_of, law_supported, modeled, unsupported,
    LABELS,
};
use crate::json::{
    dig, find_member, get_field, has_member, items, members, number_of, text_of, JsonV,
};
use crate::model::{absorb, absorb_all, object_run, runs_text, RunV};
use crate::text::{lemma_utf16_len_add, utf16_len};
use vstd::prelude::*;

verus! {

// ---------------------------------------------------------------------------
// Members
// ---------------------------------------------------------------------------

/// A member that is found is one of the members.
pub proof fn lemma_member_found(ms: Seq<(Seq<char>, JsonV)>, name: Seq<char>, from: int) -> (m: int)
    requires
        0 <= from,
        find_member(ms, name, from) is Some,
    ensures
        from <= m < ms.len(),
        ms[m].0 == name,
    decreases ms.len() - from,
{
    if ms[from].0 == name {
        from
    } else {
        lemma_member_found(ms, name, from + 1)
    }
}

/// The names of what a paragraph element can hold are told apart.
proof fn lemma_held_names()
    ensures
        "textRun"@.len() == 7,
        "startIndex"@.len() == 10,
        "endIndex"@.len() == 8,
        "endIndex"@[1] == 'n',
        "horizontalRule"@.len() == 14,
        "inlineObjectElement"@.len() == 19,
        "footnoteReference"@.len() == 17,
        "pageBreak"@.len() == 9,
        "columnBreak"@.len() == 11,
        "autoText"@.len() == 8,
        "autoText"@[1] == 'u',
        "equation"@.len() == 8,
        "equation"@[1] == 'q',
        "person"@.len() == 6,
        "richLink"@.len() == 8,
        "richLink"@[1] == 'i',
        "tableOfContents"@.len() == 15,
        "sectionBreak"@.len() == 12,
{
    reveal_strlit("textRun");
    reveal_strlit("startIndex");
    reveal_strlit("endIndex");
    reveal_strlit("horizontalRule");
    reveal_strlit("inlineObjectElement");
    reveal_strlit("footnoteReference");
    reveal_strlit("pageBreak");
    reveal_strlit("columnBreak");
    reveal_strlit("autoText");
    reveal_strlit("equation");
    reveal_strlit("person");
    reveal_strlit("richLink");
    reveal_strlit("tableOfContents");
    reveal_strlit("sectionBreak");
}

// ---------------------------------------------------------------------------
// What is refused
// ---------------------------------------------------------------------------

/// What is found is named.
proof fn lemma_named(doc: JsonV, k: int, n: int)
    requires
        0 <= k < n,
        found(body_content(doc), body_content(doc).len() as int, k),
    ensures
        found_labels(doc, n).contains(label(k)),
    decreases n,
{
    let shorter = found_labels(doc, n - 1);
    let all = found_labels(doc, n);
    if k == n - 1 {
        assert(all[shorter.len() as int] == label(k));
    } else {
        lemma_named(doc, k, n - 1);
        let w = choose|w: int| 0 <= w < shorter.len() && shorter[w] == label(k);
        assert(all[w] == label(k));
    }
}

/// The `j`-th element of the paragraph that is the `i`-th structural element.
pub open spec fn paragraph_element(doc: JsonV, i: int, j: int) -> JsonV {
    items(dig(get_field(body_content(doc)[i], "paragraph"@), "elements"@))[j]
}

/// The document has that element.
pub open spec fn has_element(doc: JsonV, i: int, j: int) -> bool {
    &&& 0 <= i < body_content(doc).len()
    &&& 0 <= j < items(dig(get_field(body_content(doc)[i], "paragraph"@), "elements"@)).len()
}

/// A paragraph element that is not held is found.
proof fn lemma_element_found(doc: JsonV, i: int, j: int, m: int)
    requires
        has_element(doc, i, j),
        0 <= m < members(paragraph_element(doc, i, j)).len(),
        !modeled(members(paragraph_element(doc, i, j))[m].0),
    ensures
        unsupported(doc).contains(label(label_of(members(paragraph_element(doc, i, j))[m].0))),
{
    let els = body_content(doc);
    let e = paragraph_element(doc, i, j);
    let p = get_field(els[i], "paragraph"@)->0;
    let k = label_of(members(e)[m].0);
    assert(get_field(els[i], "paragraph"@) is Some);
    assert(element_has(e, k));
    assert(items(get_field(p, "elements"@))[j] == e);
    assert(finds(els[i], i, k));
    assert(found(els, els.len() as int, k));
    lemma_named(doc, k, LABELS as int);
}

/// A paragraph with a person chip, a link chip or an equation is refused, by that name, and
/// one with a member that is not known is refused as unsupported.
pub proof fn law_refused(doc: JsonV, i: int, j: int, name: Seq<char>)
    requires
        has_element(doc, i, j),
        has_member(paragraph_element(doc, i, j), name),
    ensures
        name == "person"@ ==> unsupported(doc).contains("smart chip (person)"@),
        name == "richLink"@ ==> unsupported(doc).contains("smart chip (link)"@),
        name == "equation"@ ==> unsupported(doc).contains("equation"@),
        !known_name(name) ==> unsupported(doc).contains("unsupported element"@),
{
    lemma_held_names();
    let e = paragraph_element(doc, i, j);
    let m = lemma_member_found(members(e), name, 0);
    if name == "person"@ || name == "richLink"@ || name == "equation"@ || !known_name(name) {
        lemma_element_found(doc, i, j, m);
    }
}

/// A member that a paragraph element is known to have: one that is held, or content that has
/// a name of its own.
pub open spec fn known_name(name: Seq<char>) -> bool {
    ||| held_name(name)
    ||| name == "person"@
    ||| name == "richLink"@
    ||| name == "equation"@
    ||| name == "tableOfContents"@
    ||| name == "sectionBreak"@
}

/// A member of a paragraph element that gives its indices, text, a rule or one of the inline
/// objects.
pub open spec fn held_name(name: Seq<char>) -> bool {
    ||| name == "startIndex"@
    ||| name == "endIndex"@
    ||| name == "textRun"@
    ||| name == "horizontalRule"@
    ||| name == "inlineObjectElement"@
    ||| name == "footnoteReference"@
    ||| name == "pageBreak"@
    ||| name == "columnBreak"@
    ||| name == "autoText"@
}

/// A section break behind the first structural element is refused.
pub proof fn law_section_refused(doc: JsonV, i: int)
    requires
        0 < i < body_content(doc).len(),
        has_member(body_content(doc)[i], "sectionBreak"@),
        !has_member(body_content(doc)[i], "paragraph"@),
        !has_member(body_content(doc)[i], "table"@),
        !has_member(body_content(doc)[i], "tableOfContents"@),
    ensures
        unsupported(doc).contains("section break"@),
{
    let els = body_content(doc);
    assert(finds(els[i], i, 6));
    assert(found(els, els.len() as int, 6));
    lemma_named(doc, 6, LABELS as int);
}

/// Where nothing unsupported is found, every element of every paragraph has only its indices,
/// text, a rule or one of the inline objects, and never a chip or an equation.
pub proof fn law_passed(doc: JsonV, i: int, j: int, name: Seq<char>)
    requires
        unsupported(doc).len() == 0,
        has_element(doc, i, j),
        has_member(paragraph_element(doc, i, j), name),
    ensures
        held_name(name),
        name != "person"@,
        name != "richLink"@,
        name != "equation"@,
{
    lemma_held_names();
    let e = paragraph_element(doc, i, j);
    let m = lemma_member_found(members(e), name, 0);
    if !held_name(name) {
        lemma_element_found(doc, i, j, m);
    }
}

/// Every member of every paragraph element is held.
pub open spec fn elements_held(es: Seq<JsonV>) -> bool {
    forall|j: int, m: int|
        0 <= j < es.len() && 0 <= m < members(es[j]).len() ==> held_name(
            (#[trigger] members(es[j])[m]).0,
        )
}

/// A structural element that is supported: a paragraph of which every element has only
/// members that are held, a table, a table of contents, or the section break at the front.
pub open spec fn lets_through(el: JsonV, i: int) -> bool {
    match get_field(el, "paragraph"@) {
        Some(p) => elements_held(items(get_field(p, "elements"@))),
        None => has_member(el, "table"@) || has_member(el, "tableOfContents"@) || (i == 0
            && has_member(el, "sectionBreak"@)),
    }
}

/// Nothing is found in a document of such elements.
pub proof fn law_let_through(doc: JsonV)
    requires
        forall|i: int|
            0 <= i < body_content(doc).len() ==> lets_through(#[trigger] body_content(doc)[i], i),
    ensures
        unsupported(doc).len() == 0,
{
    let els = body_content(doc);
    law_supported(doc);
    assert forall|k: int| 0 <= k < LABELS implies !(#[trigger] found(els, els.len() as int, k)) by {
        if found(els, els.len() as int, k) {
            let i = choose|i: int| 0 <= i < els.len() && finds(#[trigger] els[i], i, k);
            assert(lets_through(els[i], i));
            if let Some(p) = get_field(els[i], "paragraph"@) {
                let es = items(get_field(p, "elements"@));
                let j = choose|j: int| 0 <= j < es.len() && element_has(#[trigger] es[j], k);
                let m = choose|m: int|
                    0 <= m < members(es[j]).len() && !modeled((#[trigger] members(es[j])[m]).0)
                        && label_of(members(es[j])[m].0) == k;
                assert(held_name(members(es[j])[m].0));
            }
        }
    }
}

/// The text comes before the other in the alphabet: at the first place where they differ, its
/// character is the lesser.
pub open spec fn precedes(a: Seq<char>, b: Seq<char>) -> bool {
    exists|i: int| #[trigger] parts_at(a, b, i)
}

/// The two texts agree up to that place, and there the first has the lesser character.
pub open spec fn parts_at(a: Seq<char>, b: Seq<char>, i: int) -> bool {
    &&& 0 <= i < a.len()
    &&& i < b.len()
    &&& forall|k: int| 0 <= k < i ==> #[trigger] a[k] == b[k]
    &&& a[i] < b[i]
}

proof fn lemma_label_order(k: int, l: int)
    requires
        0 <= k < l < LABELS,
    ensures
        precedes(label(k), label(l)),
{
    reveal_strlit("auto text");
    reveal_strlit("column break");
    reveal_strlit("equation");
    reveal_strlit("footnote");
    reveal_strlit("image");
    reveal_strlit("page break");
    reveal_strlit("section break");
    reveal_strlit("smart chip (link)");
    reveal_strlit("smart chip (person)");
    reveal_strlit("table of contents");
    reveal_strlit("unsupported element");
    let i = if k == 7 && l == 8 {
        12int
    } else if k == 6 && (l == 7 || l == 8) {
        1
    } else {
        0
    };
    assert(parts_at(label(k), label(l), i));
}

/// The text is one of the first `n` names.
spec fn among(x: Seq<char>, n: int) -> bool {
    exists|k: int| 0 <= k < n && #[trigger] label(k) == x
}

proof fn lemma_labels_sorted(doc: JsonV, n: int)
    requires
        0 <= n <= LABELS,
    ensures
        forall|a: int|
            0 <= a < found_labels(doc, n).len() ==> among(#[trigger] found_labels(doc, n)[a], n),
        forall|a: int, b: int|
            0 <= a < b < found_labels(doc, n).len() ==> precedes(
                #[trigger] found_labels(doc, n)[a],
                #[trigger] found_labels(doc, n)[b],
            ),
    decreases n,
{
    if n > 0 {
        lemma_labels_sorted(doc, n - 1);
        let before = found_labels(doc, n - 1);
        let all = found_labels(doc, n);
        assert forall|a: int| 0 <= a < all.len() implies among(#[trigger] all[a], n) by {
            if a < before.len() {
                assert(all[a] == before[a]);
                let k = choose|k: int| 0 <= k < n - 1 && #[trigger] label(k) == before[a];
                assert(label(k) == all[a]);
            } else {
                assert(label(n - 1) == all[a]);
            }
        }
        assert forall|a: int, b: int| 0 <= a < b < all.len() implies precedes(
            #[trigger] all[a],
            #[trigger] all[b],
        ) by {
            assert(all[a] == before[a]);
            if b < before.len() {
                assert(all[b] == before[b]);
            } else {
                let k = choose|k: int| 0 <= k < n - 1 && #[trigger] label(k) == before[a];
                lemma_label_order(k, n - 1);
            }
        }
    }
}

/// The names of unsupported content come in alphabetical order, each once.
pub proof fn law_names_sorted(doc: JsonV, a: int, b: int)
    requires
        0 <= a < b < unsupported(doc).len(),
    ensures
        precedes(unsupported(doc)[a], unsupported(doc)[b]),
{
    lemma_labels_sorted(doc, LABELS as int);
}

/// The name of each kind of content that the model does not hold everywhere.
pub proof fn law_labels(name: Seq<char>)
    ensures
        ({
            let l = label(label_of(name));
            &&& name == "inlineObjectElement"@ ==> l == "image"@
            &&& name == "footnoteReference"@ ==> l == "footnote"@
            &&& name == "pageBreak"@ ==> l == "page break"@
            &&& name == "columnBreak"@ ==> l == "column break"@
            &&& name == "equation"@ ==> l == "equation"@
            &&& name == "person"@ ==> l == "smart chip (person)"@
            &&& name == "richLink"@ ==> l == "smart chip (link)"@
            &&& name == "autoText"@ ==> l == "auto text"@
            &&& name == "tableOfContents"@ ==> l == "table of contents"@
            &&& name == "sectionBreak"@ ==> l == "section break"@
            &&& !known_name(name) ==> l == "unsupported element"@
        }),
{
    lemma_held_names();
}

// ---------------------------------------------------------------------------
// Extents
// ---------------------------------------------------------------------------

/// What a paragraph element can be, by the names of the document service.
pub open spec fn content_name(k: int) -> Seq<char> {
    if k == 0 {
        "textRun"@
    } else if k == 1 {
        "autoText"@
    } else if k == 2 {
        "pageBreak"@
    } else if k == 3 {
        "columnBreak"@
    } else if k == 4 {
        "footnoteReference"@
    } else if k == 5 {
        "horizontalRule"@
    } else if k == 6 {
        "equation"@
    } else if k == 7 {
        "inlineObjectElement"@
    } else if k == 8 {
        "person"@
    } else {
        "richLink"@
    }
}

/// The element is of the `k`-th kind and of no other, and takes up the indices of this text:
/// a text run those of its content, and each object one.
pub open spec fn stands_for(e: JsonV, k: int, text: Seq<char>) -> bool {
    &&& 0 <= k < 10
    &&& has_member(e, content_name(k))
    &&& forall|o: int| 0 <= o < 10 && o != k ==> !has_member(e, #[trigger] content_name(o))
    &&& k == 0 ==> text_of(dig(get_field(e, "textRun"@), "content"@)) == Some(text)
    &&& k == 4 ==> text_of(dig(get_field(e, "footnoteReference"@), "footnoteId"@)) is Some
    &&& k == 7 ==> text_of(dig(get_field(e, "inlineObjectElement"@), "inlineObjectId"@)) is Some
    &&& (1 <= k <= 5 || k == 7) ==> text == seq!['\u{FFFC}']
}

/// The texts one after the other.
pub open spec fn all_texts(texts: Seq<Seq<char>>) -> Seq<char>
    decreases texts.len(),
{
    if texts.len() == 0 {
        Seq::empty()
    } else {
        all_texts(texts.drop_last()) + texts.last()
    }
}

/// The texts of the elements of one paragraph: the one line feed stands at the end.
pub open spec fn one_paragraph(texts: Seq<Seq<char>>) -> bool {
    &&& texts.len() > 0
    &&& texts.last().len() > 0
    &&& texts.last().last() == '\n'
    &&& forall|j: int|
        0 <= j < texts.len() - 1 ==> (#[trigger] texts[j]).len() > 0 && !texts[j].contains('\n')
}

/// Appending a run appends its text.
proof fn lemma_absorb_text(out: Seq<RunV>, rs: Seq<RunV>)
    ensures
        runs_text(absorb_all(out, rs)) == runs_text(out) + runs_text(rs),
    decreases rs.len(),
{
    if rs.len() == 0 {
        assert(runs_text(out) + runs_text(rs) =~= runs_text(out));
    } else {
        let mid = absorb_all(out, rs.drop_last());
        let r = rs.last();
        lemma_absorb_text(out, rs.drop_last());
        let after = absorb(mid, r);
        assert(runs_text(after) =~= runs_text(mid) + r.text) by {
            if r.text.len() == 0 && after == mid {
            } else if after.len() == mid.len() {
                assert(after.drop_last() =~= mid.drop_last());
            } else {
                assert(after.drop_last() =~= mid);
            }
        }
        assert(runs_text(out) + runs_text(rs) =~= runs_text(out) + runs_text(rs.drop_last())
            + r.text);
    }
}

/// The run of an element of a supported kind has the element's text, without the paragraph's
/// line feed.
proof fn lemma_element_text(e: JsonV, k: int, text: Seq<char>)
    requires
        stands_for(e, k, text),
        k < 5 || k == 7,
    ensures
        runs_text(
            match element_run(e) {
                Some(r) => seq![r],
                None => Seq::empty(),
            },
        ) == if k == 0 {
            chomp(text)
        } else {
            text
        },
{
    assert(!has_member(e, content_name(1)) || k == 1);
    assert(!has_member(e, content_name(2)) || k == 2);
    assert(!has_member(e, content_name(3)) || k == 3);
    assert(!has_member(e, content_name(4)) || k == 4);
    assert(!has_member(e, content_name(7)) || k == 7);
    reveal_with_fuel(runs_text, 2);
    match element_run(e) {
        Some(r) => {
            assert(seq![r].drop_last() =~= Seq::<RunV>::empty());
            assert(runs_text(seq![r]) =~= r.text);
        },
        None => {},
    }
    if k != 0 {
        assert(descriptor(e) is Some);
        assert(object_run(descriptor(e)->0).text =~= text);
    } else {
        assert(descriptor(e) is None);
    }
}

/// An element that stands for this text and is of a kind that has a run.
spec fn has_run(e: JsonV, k: int, text: Seq<char>) -> bool {
    stands_for(e, k, text) && (k < 5 || k == 7)
}

/// The runs of the first elements have their texts.
proof fn lemma_elements_text(es: Seq<JsonV>, ks: Seq<int>, texts: Seq<Seq<char>>, n: int)
    requires
        0 <= n <= es.len(),
        ks.len() == es.len(),
        texts.len() == es.len(),
        one_paragraph(texts),
        forall|j: int| 0 <= j < es.len() ==> #[trigger] has_run(es[j], ks[j], texts[j]),
        ks.last() == 0,
    ensures
        runs_text(element_runs(es, n)) == if n == es.len() {
            all_texts(texts).drop_last()
        } else {
            all_texts(texts.take(n))
        },
        n == es.len() ==> all_texts(texts).len() > 0 && all_texts(texts).last() == '\n',
    decreases n,
{
    if n > 0 {
        lemma_elements_text(es, ks, texts, n - 1);
        let j = n - 1;
        let text = texts[j];
        assert(has_run(es[j], ks[j], texts[j]));
        lemma_element_text(es[j], ks[j], text);
        let before = element_runs(es, j);
        let after = element_runs(es, n);
        assert(texts.take(n).drop_last() =~= texts.take(j));
        assert(all_texts(texts.take(n)) == all_texts(texts.take(j)) + text);
        reveal_with_fuel(runs_text, 2);
        match element_run(es[j]) {
            Some(r) => {
                assert(after.drop_last() =~= before);
                assert(runs_text(seq![r]) =~= r.text) by {
                    assert(seq![r].drop_last() =~= Seq::<RunV>::empty());
                }
            },
            None => {},
        }
        if n == es.len() {
            assert(texts.take(n) =~= texts);
            assert(text.last() == '\n');
            assert(runs_text(after) =~= all_texts(texts.take(j)) + chomp(text));
            assert(all_texts(texts).drop_last() =~= all_texts(texts.take(j)) + chomp(text));
        } else {
            if ks[j] == 0 && text.last() == '\n' {
                assert(text.contains(text[text.len() - 1]));
            }
            assert(runs_text(after) =~= all_texts(texts.take(n)));
        }
    } else {
        assert(texts.take(0) =~= Seq::<Seq<char>>::empty());
    }
}

/// Where nothing unsupported is found, every index of a paragraph is accounted for: the text
/// that is read from it, with the line feed at its end, is what its elements take up.
pub proof fn law_accounted(doc: JsonV, i: int, ks: Seq<int>, texts: Seq<Seq<char>>)
    requires
        unsupported(doc).len() == 0,
        0 <= i < body_content(doc).len(),
        has_member(body_content(doc)[i], "paragraph"@),
        !rule_paragraph(get_field(body_content(doc)[i], "paragraph"@)->0),
        ({
            let es = items(dig(get_field(body_content(doc)[i], "paragraph"@), "elements"@));
            &&& ks.len() == es.len() && texts.len() == es.len()
            &&& forall|j: int| 0 <= j < es.len() ==> #[trigger] stands_for(es[j], ks[j], texts[j])
        }),
        one_paragraph(texts),
        ks.last() == 0,
    ensures
        runs_text(paragraph_runs(get_field(body_content(doc)[i], "paragraph"@))).push('\n')
            == all_texts(texts),
{
    lemma_held_names();
    let el = body_content(doc)[i];
    let p = get_field(el, "paragraph"@);
    let es = items(dig(p, "elements"@));
    assert forall|j: int| 0 <= j < es.len() implies #[trigger] has_run(es[j], ks[j], texts[j]) by {
        assert(stands_for(es[j], ks[j], texts[j]));
        assert(paragraph_element(doc, i, j) == es[j]);
        law_passed(doc, i, j, content_name(ks[j]));
        assert(!has_member(es[j], "horizontalRule"@));
    }
    lemma_elements_text(es, ks, texts, es.len() as int);
    let rs = element_runs(es, es.len() as int);
    lemma_absorb_text(Seq::empty(), rs);
    assert(runs_text(Seq::<RunV>::empty()) + runs_text(rs) =~= runs_text(rs));
    assert(all_texts(texts).drop_last().push('\n') =~= all_texts(texts));
}

/// The element has these indices.
pub open spec fn spans(e: JsonV, start: int, end: int) -> bool {
    &&& number_of(get_field(e, "startIndex"@)) matches Some(a) && a == start
    &&& number_of(get_field(e, "endIndex"@)) matches Some(b) && b == end
}

proof fn lemma_texts_len(texts: Seq<Seq<char>>, at: Seq<int>)
    requires
        at.len() == texts.len() + 1,
        forall|j: int|
            0 <= j < texts.len() ==> at[j + 1] - at[j] == utf16_len(#[trigger] texts[j]),
    ensures
        utf16_len(all_texts(texts)) == at[texts.len() as int] - at[0],
    decreases texts.len(),
{
    if texts.len() > 0 {
        let n = texts.len() - 1;
        assert(texts[n] == texts.last());
        assert forall|j: int| 0 <= j < n implies at.take(n + 1)[j + 1] - at.take(n + 1)[j]
            == utf16_len(#[trigger] texts.drop_last()[j]) by {
            assert(texts.drop_last()[j] == texts[j]);
        }
        lemma_texts_len(texts.drop_last(), at.take(n + 1));
        lemma_utf16_len_add(all_texts(texts.drop_last()), texts.last());
    }
}

/// Where nothing unsupported is found, the length of the text that is read from a paragraph,
/// with its line feed, is the paragraph's extent in the document.
pub proof fn law_extent(
    doc: JsonV,
    i: int,
    ks: Seq<int>,
    texts: Seq<Seq<char>>,
    at: Seq<int>,
)
    requires
        unsupported(doc).len() == 0,
        0 <= i < body_content(doc).len(),
        has_member(body_content(doc)[i], "paragraph"@),
        !rule_paragraph(get_field(body_content(doc)[i], "paragraph"@)->0),
        ({
            let es = items(dig(get_field(body_content(doc)[i], "paragraph"@), "elements"@));
            &&& ks.len() == es.len() && texts.len() == es.len() && at.len() == es.len() + 1
            &&& forall|j: int| 0 <= j < es.len() ==> #[trigger] stands_for(es[j], ks[j], texts[j])
            &&& forall|j: int| 0 <= j < es.len() ==> spans(#[trigger] es[j], at[j], at[j + 1])
        }),
        forall|j: int|
            0 <= j < texts.len() ==> at[j + 1] - at[j] == utf16_len(#[trigger] texts[j]),
        one_paragraph(texts),
        ks.last() == 0,
        spans(body_content(doc)[i], at[0], at[texts.len() as int]),
    ensures
        ({
            let el = body_content(doc)[i];
            let text = runs_text(paragraph_runs(get_field(el, "paragraph"@)));
            utf16_len(text) + 1 == number_of(get_field(el, "endIndex"@))->0 - number_of(
                get_field(el, "startIndex"@),
            )->0
        }),
{
    law_accounted(doc, i, ks, texts);
    lemma_texts_len(texts, at);
    let text = runs_text(paragraph_runs(get_field(body_content(doc)[i], "paragraph"@)));
    assert(text.push('\n') =~= text + seq!['\n']);
    lemma_utf16_len_add(text, seq!['\n']);
    reveal_with_fuel(utf16_len, 2);
}

} // verus!
