//! Reading back inline markdown: runs that are written out parse to the same runs.
use crate::inline::{
    closer, delim, inline_content, inline_runs, link_at, object_at, wrap_from, wrap_with, LinkSpan,
    Span,
};
use crate::model::{
    atom, atoms, content_of, lemma_absorb_all_identity, lemma_absorb_content, normal_form,
    normalized, object_run, plain_style, RunV, TextStyle,
};
use crate::render::{
    enclosed, escape_char, escaped, marked_text, run_markdown, runs_markdown, special, stars,
};
use crate::text::{find_char, lemma_find_char, lemma_find_is, occurs_at, repeat};
use vstd::prelude::*;

verus! {

/// A repeated character stands where each of its copies does.
pub proof fn lemma_occurs(s: Seq<char>, c: char, n: nat, i: int)
    ensures
        occurs_at(s, repeat(c, n), i) <==> 0 <= i && i + n <= s.len() && forall|j: int|
            i <= j < i + n ==> #[trigger] s[j] == c,
{
    if 0 <= i && i + n <= s.len() {
        let w = s.subrange(i, i + n);
        if forall|j: int| i <= j < i + n ==> #[trigger] s[j] == c {
            assert forall|k: int| 0 <= k < n implies w[k] == repeat(c, n)[k] by {
                assert(s[i + k] == c);
            }
            assert(w =~= repeat(c, n));
        }
        if w == repeat(c, n) {
            assert forall|j: int| i <= j < i + n implies #[trigger] s[j] == c by {
                assert(w[j - i] == repeat(c, n)[j - i]);
            }
        }
    }
}

/// Where a text does not start with a delimiter's character, none is found.
pub proof fn lemma_no_wrap(s: Seq<char>, p: int)
    requires
        0 <= p < s.len(),
        s[p] != '*' && s[p] != '_' && s[p] != '~',
    ensures
        wrap_from(s, p, 0) is None,
{
    reveal_with_fuel(wrap_from, 9);
    lemma_occurs(s, '*', 3, p);
    lemma_occurs(s, '_', 3, p);
    lemma_occurs(s, '*', 2, p);
    lemma_occurs(s, '_', 2, p);
    lemma_occurs(s, '~', 2, p);
    lemma_occurs(s, '*', 1, p);
    lemma_occurs(s, '_', 1, p);
}

/// Where a text does not start with an exclamation mark or an opening bracket, there is
/// neither an object nor a link.
pub proof fn lemma_no_bracket(s: Seq<char>, p: int)
    requires
        0 <= p < s.len(),
        s[p] != '!' && s[p] != '[',
    ensures
        object_at(s, p) is None,
        link_at(s, p) is None,
{
    reveal_strlit("![");
    if occurs_at(s, "!["@, p) {
        assert(s.subrange(p, p + 2)[0] == "!["@[0]);
    }
}

// ---------------------------------------------------------------------------
// Escaped text
// ---------------------------------------------------------------------------

/// Every special character of an escaped text stands behind a backslash, and the text
/// keeps its characters.
proof fn lemma_escaped(t: Seq<char>, in_table: bool)
    ensures
        t.len() > 0 <==> escaped(t, in_table).len() > 0,
        t.len() > 0 ==> escaped(t, in_table).last() == t.last(),
        t.len() > 0 ==> escaped(t, in_table)[0] == if special(t[0], in_table) {
            '\\'
        } else {
            t[0]
        },
        forall|i: int|
            0 <= i < escaped(t, in_table).len() && special(
                #[trigger] escaped(t, in_table)[i],
                in_table,
            ) && escaped(t, in_table)[i] != '\\' ==> i > 0 && escaped(t, in_table)[i - 1] == '\\',
        forall|i: int|
            0 <= i < escaped(t, in_table).len() ==> (#[trigger] escaped(t, in_table)[i]) == '\\'
                || t.contains(escaped(t, in_table)[i]),
        forall|i: int|
            0 <= i < t.len() ==> escaped(t, in_table).contains(#[trigger] t[i]),
    decreases t.len(),
{
    if t.len() > 0 {
        let rest = t.skip(1);
        lemma_escaped(rest, in_table);
        let e = escaped(t, in_table);
        let h = escape_char(t[0], in_table);
        let r = escaped(rest, in_table);
        assert(e =~= h + r);
        assert forall|i: int| 0 <= i < e.len() && special(#[trigger] e[i], in_table) && e[i]
            != '\\' implies i > 0 && e[i - 1] == '\\' by {
            if i >= h.len() {
                assert(e[i] == r[i - h.len()]);
                assert(r[i - h.len() - 1] == '\\');
            }
        }
        assert forall|i: int| 0 <= i < e.len() implies (#[trigger] e[i]) == '\\' || t.contains(
            e[i],
        ) by {
            if i < h.len() {
                if e[i] != '\\' {
                    assert(t[0] == e[i]);
                }
            } else {
                let x = r[i - h.len()];
                if x != '\\' {
                    let k = choose|k: int| 0 <= k < rest.len() && rest[k] == x;
                    assert(t[k + 1] == x);
                }
            }
        }
        assert forall|i: int| 0 <= i < t.len() implies e.contains(#[trigger] t[i]) by {
            if i == 0 {
                assert(e[h.len() - 1] == t[0]);
            } else {
                assert(rest[i - 1] == t[i]);
                assert(r.contains(rest[i - 1]));
                let k = choose|k: int| 0 <= k < r.len() && r[k] == t[i];
                assert(e[h.len() + k] == t[i]);
            }
        }
        if rest.len() > 0 {
            assert(e.last() == r.last());
            assert(t.last() == rest.last());
        } else {
            assert(r =~= Seq::<char>::empty());
            assert(e.last() == h.last());
        }
    }
}

/// No underscore from `a` to `b` opens an emphasis.
pub open spec fn inert(s: Seq<char>, a: int, b: int) -> bool {
    forall|q: int| a <= q < b && (#[trigger] s[q]) == '_' ==> wrap_from(s, q, 0) is None
}

/// An escaped text reads as its characters, where its underscores are inert.
proof fn lemma_text_reads(
    m: Seq<char>,
    p: int,
    t: Seq<char>,
    style: TextStyle,
    link: Option<Seq<char>>,
    in_table: bool,
)
    requires
        0 <= p,
        p + escaped(t, in_table).len() <= m.len(),
        m.subrange(p, p + escaped(t, in_table).len()) == escaped(t, in_table),
        inert(m, p, p + escaped(t, in_table).len()),
    ensures
        inline_content(m, p, style, link) == atoms(t, style, link) + inline_content(
            m,
            p + escaped(t, in_table).len(),
            style,
            link,
        ),
    decreases t.len(),
{
    let e = escaped(t, in_table);
    let end = p + e.len();
    if t.len() == 0 {
        assert(atoms(t, style, link) + inline_content(m, end, style, link) =~= inline_content(
            m,
            end,
            style,
            link,
        ));
    } else {
        let rest = t.skip(1);
        let h = escape_char(t[0], in_table);
        let r = escaped(rest, in_table);
        assert(e =~= h + r);
        let q = p + h.len();
        assert(m.subrange(q, q + r.len()) =~= r) by {
            assert forall|k: int| 0 <= k < r.len() implies m[q + k] == r[k] by {
                assert(m.subrange(p, end)[h.len() + k] == e[h.len() + k]);
            }
        }
        assert(m[p] == h[0]) by {
            assert(m.subrange(p, end)[0] == e[0]);
        }
        lemma_text_reads(m, q, rest, style, link, in_table);
        lemma_no_bracket(m, p);
        if special(t[0], in_table) {
            assert(m[p + 1] == t[0]) by {
                assert(m.subrange(p, end)[1] == e[1]);
            }
            lemma_no_wrap(m, p);
        } else if t[0] != '_' {
            lemma_no_wrap(m, p);
        } else {
            assert(wrap_from(m, p, 0) is None);
        }
        assert(inline_content(m, p, style, link) == seq![atom(t[0], style, link)]
            + inline_content(m, q, style, link));
        assert(atoms(t, style, link) =~= seq![atom(t[0], style, link)] + atoms(rest, style, link));
        assert(seq![atom(t[0], style, link)] + (atoms(rest, style, link) + inline_content(
            m,
            end,
            style,
            link,
        )) =~= atoms(t, style, link) + inline_content(m, end, style, link));
    }
}

/// A whole escaped text reads as its characters.
proof fn lemma_whole_reads(
    t: Seq<char>,
    style: TextStyle,
    link: Option<Seq<char>>,
    in_table: bool,
)
    requires
        inert(escaped(t, in_table), 0, escaped(t, in_table).len() as int),
    ensures
        inline_content(escaped(t, in_table), 0, style, link) == atoms(t, style, link),
{
    let e = escaped(t, in_table);
    assert(e.subrange(0, e.len() as int) =~= e);
    lemma_text_reads(e, 0, t, style, link, in_table);
    assert(inline_content(e, e.len() as int, style, link) =~= Seq::<RunV>::empty());
    assert(atoms(t, style, link) + Seq::<RunV>::empty() =~= atoms(t, style, link));
}

// ---------------------------------------------------------------------------
// Enclosed text
// ---------------------------------------------------------------------------

/// The text `x` can stand between two copies of the delimiter of `n` times `c`: the
/// second is the first that follows.
pub open spec fn encloses(c: char, n: nat, x: Seq<char>) -> bool {
    &&& x.len() > 0
    &&& x[0] != c
    &&& if n == 1 {
        forall|i: int| 0 <= i < x.len() ==> #[trigger] x[i] != c
    } else {
        &&& x.last() != c
        &&& forall|i: int, j: int|
            0 <= i && j == i + 1 && j < x.len() ==> !((#[trigger] x[i]) == c && (#[trigger] x[j])
                == c)
    }
}

/// The closer of an enclosed text is found where it stands.
pub proof fn lemma_closes(m: Seq<char>, p: int, c: char, n: nat, x: Seq<char>)
    requires
        0 < n,
        0 <= p,
        p + n + x.len() + n <= m.len(),
        m.subrange(p, p + n + x.len() + n) == enclosed(repeat(c, n), x),
        encloses(c, n, x),
    ensures
        occurs_at(m, repeat(c, n), p),
        closer(m, repeat(c, n), p + n) == Some(p + n + x.len()),
        m.subrange(p + n, p + n + x.len()) == x,
        m[p + n] != c,
{
    let d = repeat(c, n);
    let w = enclosed(d, x);
    let q = p + n;
    let e = q + x.len();
    let end = e + n;
    assert forall|k: int| 0 <= k < w.len() implies m[p + k] == #[trigger] w[k] by {
        assert(m.subrange(p, end)[k] == w[k]);
    }
    assert(m.subrange(q, e) =~= x) by {
        assert forall|k: int| 0 <= k < x.len() implies m[q + k] == x[k] by {
            assert(w[n + k] == x[k]);
        }
    }
    assert forall|k: int| 0 <= k < x.len() implies #[trigger] m[q + k] == x[k] by {
        assert(w[n + k] == x[k]);
    }
    assert forall|j: int| p <= j < q implies #[trigger] m[j] == c by {
        assert(w[j - p] == c);
    }
    assert forall|j: int| e <= j < end implies #[trigger] m[j] == c by {
        assert(w[j - p] == c);
    }
    lemma_occurs(m, c, n, p);
    lemma_occurs(m, c, n, e);
    assert(m[q + 0] == x[0]);
    assert forall|j: int| q <= j < e implies !#[trigger] occurs_at(m, d, j) by {
        lemma_occurs(m, c, n, j);
        let i = j - q;
        assert(m[q + i] == x[i]);
        if n == 1 {
            assert(m[j] != c);
        } else if i + 1 < x.len() {
            assert(m[q + (i + 1)] == x[i + 1]);
            assert(!(x[i] == c && x[i + 1] == c));
            assert(m[j] != c || m[j + 1] != c);
        } else {
            assert(x[i] == x.last());
            assert(m[j] != c);
        }
    }
    lemma_find_is(m, d, q, e);
}

/// The delimiter that marks a text: which it is.
pub open spec fn mark_index(c: char, n: nat) -> int {
    if c == '~' {
        4
    } else if n == 3 {
        0
    } else if n == 2 {
        2
    } else {
        5
    }
}

/// A text between asterisks or tildes reads as what is inside, with the mark.
pub proof fn lemma_enclosed_reads(
    m: Seq<char>,
    p: int,
    c: char,
    n: nat,
    x: Seq<char>,
    style: TextStyle,
    link: Option<Seq<char>>,
)
    requires
        (c == '*' && 1 <= n <= 3) || (c == '~' && n == 2),
        0 <= p,
        p + n + x.len() + n <= m.len(),
        m.subrange(p, p + n + x.len() + n) == enclosed(repeat(c, n), x),
        encloses(c, n, x),
    ensures
        inline_content(m, p, style, link) == inline_content(
            x,
            0,
            delim(mark_index(c, n)).styled(style),
            link,
        ) + inline_content(m, p + n + x.len() + n, style, link),
{
    lemma_closes(m, p, c, n, x);
    assert(m[p] == c) by {
        assert(m.subrange(p, p + n + x.len() + n)[0] == enclosed(repeat(c, n), x)[0]);
    }
    lemma_no_bracket(m, p);
    let k = mark_index(c, n);
    assert(delim(k).c == c && delim(k).n == n);
    lemma_occurs(m, '*', 3, p);
    lemma_occurs(m, '_', 3, p);
    lemma_occurs(m, '*', 2, p);
    lemma_occurs(m, '_', 2, p);
    lemma_occurs(m, '~', 2, p);
    assert(m[p + n] != c);
    let sp = Span { from: p + n, to: p + n + x.len(), next: p + n + x.len() + n };
    assert(wrap_with(m, p, delim(k)) == Some(sp));
    reveal_with_fuel(wrap_from, 7);
    assert(wrap_from(m, p, 0) == Some((k, sp)));
}

// ---------------------------------------------------------------------------
// Runs
// ---------------------------------------------------------------------------

/// How a run's text may be marked so that it reads back: between double or triple
/// asterisks it does not end with one, between single ones it holds none, and between
/// tildes alone it does not end with one.
pub open spec fn marks_hold(r: RunV) -> bool {
    let k = stars(r.style.bold, r.style.italic);
    &&& k >= 2 ==> r.text.last() != '*'
    &&& k == 1 ==> !r.text.contains('*')
    &&& r.style.strikethrough && k == 0 ==> r.text.last() != '~'
}

/// The run carries text without a mark or link.
pub open spec fn bare(r: RunV) -> bool {
    r.object is None && r.plain()
}

/// The run reads back. An object is one that a placeholder can name. Text has marks that
/// hold, and its underscores are inert; the text of a link holds no closing bracket, and
/// its address is not empty and holds no closing parenthesis.
pub open spec fn run_holds(r: RunV, in_table: bool) -> bool {
    match r.object {
        Some(desc) => r == object_run(desc) && desc.len() > 0 && !desc.contains(')'),
        None => {
            &&& r.text.len() > 0
            &&& marks_hold(r)
            &&& r.link matches Some(url) ==> url.len() > 0 && !url.contains(')')
                && !r.text.contains(']')
            &&& !bare(r) ==> inert(
                escaped(r.text, in_table),
                0,
                escaped(r.text, in_table).len() as int,
            )
        },
    }
}

/// The content of one run.
pub open spec fn run_content(r: RunV) -> Seq<RunV> {
    if r.object is Some {
        seq![r]
    } else {
        atoms(r.text, r.style, r.link)
    }
}

/// A marked text encloses what it marks.
proof fn lemma_encloses(r: RunV, in_table: bool)
    requires
        r.object is None,
        r.text.len() > 0,
        marks_hold(r),
    ensures
        ({
            let e = escaped(r.text, in_table);
            let k = stars(r.style.bold, r.style.italic);
            let s = enclosed(repeat('*', k), e);
            &&& k > 0 ==> encloses('*', k, e)
            &&& r.style.strikethrough ==> encloses('~', 2, s)
            &&& s.len() > 0
        }),
{
    let t = r.text;
    let e = escaped(t, in_table);
    let k = stars(r.style.bold, r.style.italic);
    let s = enclosed(repeat('*', k), e);
    lemma_escaped(t, in_table);
    assert(e[0] != '*' && e[0] != '~');
    assert forall|i: int, j: int| 0 <= i && j == i + 1 && j < e.len() implies !((#[trigger] e[i])
        == '*' && (#[trigger] e[j]) == '*') && !(e[i] == '~' && e[j] == '~') by {
        if e[j] == '*' || e[j] == '~' {
            assert(special(e[j], in_table));
        }
    }
    if k == 1 {
        assert forall|i: int| 0 <= i < e.len() implies #[trigger] e[i] != '*' by {
            assert(e[i] == '\\' || t.contains(e[i]));
        }
    }
    assert(s.len() == k + e.len() + k);
    assert forall|i: int| 0 <= i < s.len() implies #[trigger] s[i] == if i < k {
        '*'
    } else if i < k + e.len() {
        e[i - k]
    } else {
        '*'
    } by {}
    if r.style.strikethrough {
        assert(s[0] != '~');
        assert(s.last() != '~');
        assert forall|i: int, j: int| 0 <= i && j == i + 1 && j < s.len() implies !((
        #[trigger] s[i]) == '~' && (#[trigger] s[j]) == '~') by {
            if k <= i && j < k + e.len() {
                assert(!(e[i - k] == '~' && e[j - k] == '~'));
            }
        }
    }
}

/// A run's marked text, on its own, reads as the run's characters.
proof fn lemma_marked_whole(r: RunV, base: TextStyle, link: Option<Seq<char>>, in_table: bool)
    requires
        r.object is None,
        r.text.len() > 0,
        marks_hold(r),
        base == plain_style(),
        inert(escaped(r.text, in_table), 0, escaped(r.text, in_table).len() as int),
    ensures
        inline_content(marked_text(r, in_table), 0, base, link) == atoms(r.text, r.style, link),
{
    let e = escaped(r.text, in_table);
    let k = stars(r.style.bold, r.style.italic);
    let s = enclosed(repeat('*', k), e);
    let mid = TextStyle { strikethrough: r.style.strikethrough, ..base };
    lemma_encloses(r, in_table);
    lemma_whole_reads(r.text, r.style, link, in_table);
    // The emphasis alone.
    assert(inline_content(s, 0, mid, link) == atoms(r.text, r.style, link)) by {
        if k > 0 {
            assert(s.subrange(0, s.len() as int) =~= s);
            lemma_enclosed_reads(s, 0, '*', k, e, mid, link);
            assert(delim(mark_index('*', k)).styled(mid) == r.style);
            assert(inline_content(s, s.len() as int, mid, link) =~= Seq::<RunV>::empty());
            assert(atoms(r.text, r.style, link) + Seq::<RunV>::empty() =~= atoms(
                r.text,
                r.style,
                link,
            ));
        } else {
            assert(s =~= e);
            assert(mid == r.style);
        }
    }
    if r.style.strikethrough {
        let w = enclosed(repeat('~', 2), s);
        assert(w.subrange(0, w.len() as int) =~= w);
        lemma_enclosed_reads(w, 0, '~', 2, s, base, link);
        assert(delim(mark_index('~', 2)).styled(base) == mid);
        assert(inline_content(w, w.len() as int, base, link) =~= Seq::<RunV>::empty());
        assert(atoms(r.text, r.style, link) + Seq::<RunV>::empty() =~= atoms(
            r.text,
            r.style,
            link,
        ));
    } else {
        assert(mid == base);
    }
}

/// A marked run without a link, somewhere in a text, reads as the run's characters.
proof fn lemma_marked_reads(m: Seq<char>, p: int, r: RunV, in_table: bool)
    requires
        r.object is None,
        r.link is None,
        r.text.len() > 0,
        marks_hold(r),
        r.style != plain_style(),
        inert(escaped(r.text, in_table), 0, escaped(r.text, in_table).len() as int),
        0 <= p,
        p + marked_text(r, in_table).len() <= m.len(),
        m.subrange(p, p + marked_text(r, in_table).len()) == marked_text(r, in_table),
    ensures
        inline_content(m, p, plain_style(), None) == atoms(r.text, r.style, None)
            + inline_content(m, p + marked_text(r, in_table).len(), plain_style(), None),
{
    let e = escaped(r.text, in_table);
    let k = stars(r.style.bold, r.style.italic);
    let s = enclosed(repeat('*', k), e);
    let base = plain_style();
    lemma_encloses(r, in_table);
    if r.style.strikethrough {
        let mid = TextStyle { strikethrough: true, ..base };
        lemma_enclosed_reads(m, p, '~', 2, s, base, None);
        assert(delim(mark_index('~', 2)).styled(base) == mid);
        lemma_whole_reads(r.text, r.style, None, in_table);
        if k > 0 {
            assert(s.subrange(0, s.len() as int) =~= s);
            lemma_enclosed_reads(s, 0, '*', k, e, mid, None);
            assert(delim(mark_index('*', k)).styled(mid) == r.style);
            assert(inline_content(s, s.len() as int, mid, None) =~= Seq::<RunV>::empty());
            assert(atoms(r.text, r.style, None) + Seq::<RunV>::empty() =~= atoms(
                r.text,
                r.style,
                None,
            ));
        } else {
            assert(s =~= e);
            assert(mid == r.style);
        }
    } else {
        lemma_enclosed_reads(m, p, '*', k, e, base, None);
        assert(delim(mark_index('*', k)).styled(base) == r.style);
        lemma_whole_reads(r.text, r.style, None, in_table);
    }
}

/// A character that a text does not hold is found behind it.
pub proof fn lemma_find_behind(m: Seq<char>, c: char, q: int, x: Seq<char>)
    requires
        0 <= q,
        q + x.len() < m.len(),
        m.subrange(q, q + x.len()) == x,
        !x.contains(c),
        m[q + x.len()] == c,
    ensures
        find_char(m, c, q) == Some(q + x.len()),
{
    lemma_find_char(m, c, q);
    assert forall|j: int| q <= j < q + x.len() implies #[trigger] m[j] != c by {
        assert(m.subrange(q, q + x.len())[j - q] == x[j - q]);
        assert(x.contains(x[j - q]));
    }
}

/// A marked text without a closing bracket in it is written without one.
pub proof fn lemma_no_closing(r: RunV, in_table: bool)
    requires
        !r.text.contains(']'),
    ensures
        !marked_text(r, in_table).contains(']'),
{
    let e = escaped(r.text, in_table);
    lemma_escaped(r.text, in_table);
    let k = stars(r.style.bold, r.style.italic);
    let s = enclosed(repeat('*', k), e);
    let x = marked_text(r, in_table);
    if x.contains(']') {
        let i = choose|i: int| 0 <= i < x.len() && x[i] == ']';
        let q = if r.style.strikethrough {
            i - 2
        } else {
            i
        };
        assert(0 <= q < s.len() && s[q] == ']');
        assert(k <= q < k + e.len());
        assert(e[q - k] == ']');
    }
}

/// A link is found where it stands.
pub proof fn lemma_link_found(m: Seq<char>, p: int, x: Seq<char>, url: Seq<char>)
    requires
        0 <= p,
        p + x.len() + url.len() + 4 <= m.len(),
        m.subrange(p, p + x.len() + url.len() + 4) == seq!['['] + x + seq![']', '('] + url + seq![
            ')',
        ],
        x.len() > 0,
        url.len() > 0,
        !x.contains(']'),
        !url.contains(')'),
    ensures
        object_at(m, p) is None,
        link_at(m, p) == Some(
            LinkSpan {
                text: Span {
                    from: p + 1,
                    to: p + 1 + x.len(),
                    next: p + x.len() + url.len() + 4,
                },
                url: Span {
                    from: p + x.len() + 3,
                    to: p + x.len() + 3 + url.len(),
                    next: p + x.len() + url.len() + 4,
                },
            },
        ),
        m.subrange(p + 1, p + 1 + x.len()) == x,
        m.subrange(p + x.len() + 3, p + x.len() + 3 + url.len()) == url,
{
    let w = seq!['['] + x + seq![']', '('] + url + seq![')'];
    let n = x.len() as int;
    let c = p + 1 + n;
    let e = c + 2 + url.len();
    assert forall|k: int| 0 <= k < w.len() implies m[p + k] == #[trigger] w[k] by {
        assert(m.subrange(p, p + x.len() + url.len() + 4)[k] == w[k]);
    }
    assert(m[p + 0] == w[0]);
    assert(m[p + (1 + n)] == w[1 + n]);
    assert(m[p + (2 + n)] == w[2 + n]);
    assert(m[p + (w.len() - 1)] == w[w.len() - 1]);
    let a = m.subrange(p + 1, c);
    let b = m.subrange(c + 2, e);
    assert forall|k: int| 0 <= k < x.len() implies #[trigger] a[k] == x[k] by {
        assert(m[p + (1 + k)] == w[1 + k]);
    }
    assert forall|k: int| 0 <= k < url.len() implies #[trigger] b[k] == url[k] by {
        assert(m[p + (3 + n + k)] == w[3 + n + k]);
    }
    assert(a =~= x);
    assert(b =~= url);
    lemma_find_behind(m, ']', p + 1, x);
    lemma_find_behind(m, ')', c + 2, url);
    reveal_strlit("![");
    if occurs_at(m, "!["@, p) {
        assert(m.subrange(p, p + 2)[0] == "!["@[0]);
    }
}

/// A link, somewhere in a text, reads as the run's characters.
proof fn lemma_link_reads(m: Seq<char>, p: int, r: RunV, in_table: bool)
    requires
        r.object is None,
        r.link is Some,
        run_holds(r, in_table),
        0 <= p,
        p + run_markdown(r, in_table).len() <= m.len(),
        m.subrange(p, p + run_markdown(r, in_table).len()) == run_markdown(r, in_table),
    ensures
        inline_content(m, p, plain_style(), None) == run_content(r) + inline_content(
            m,
            p + run_markdown(r, in_table).len(),
            plain_style(),
            None,
        ),
{
    let url = r.link->0;
    let x = marked_text(r, in_table);
    let w = seq!['['] + x + seq![']', '('] + url + seq![')'];
    assert(run_markdown(r, in_table) =~= w) by {
        reveal_strlit("](");
        assert("]("@ =~= seq![']', '(']);
    }
    lemma_encloses(r, in_table);
    assert(x.len() > 0);
    lemma_no_closing(r, in_table);
    lemma_link_found(m, p, x, url);
    lemma_marked_whole(r, plain_style(), r.link, in_table);
}

/// An object placeholder, somewhere in a text, reads as the object.
proof fn lemma_object_reads(m: Seq<char>, p: int, r: RunV, in_table: bool)
    requires
        r.object is Some,
        run_holds(r, in_table),
        0 <= p,
        p + run_markdown(r, in_table).len() <= m.len(),
        m.subrange(p, p + run_markdown(r, in_table).len()) == run_markdown(r, in_table),
    ensures
        inline_content(m, p, plain_style(), None) == run_content(r) + inline_content(
            m,
            p + run_markdown(r, in_table).len(),
            plain_style(),
            None,
        ),
{
    let desc = r.object->0;
    let w = run_markdown(r, in_table);
    let end = p + w.len();
    reveal_strlit("![](gdoc:");
    reveal_strlit("![");
    reveal_strlit("](");
    reveal_strlit("gdoc:");
    assert(w.len() == 9 + desc.len() + 1);
    assert forall|k: int| 0 <= k < w.len() implies m[p + k] == #[trigger] w[k] by {
        assert(m.subrange(p, end)[k] == w[k]);
    }
    let head = "![](gdoc:"@;
    assert forall|k: int| 0 <= k < 9 implies m[p + k] == #[trigger] head[k] by {
        assert(w[k] == head[k]);
    }
    assert(m.subrange(p, p + 2) =~= "!["@) by {
        assert(m[p + 0] == head[0] && m[p + 1] == head[1]);
    }
    assert(m.subrange(p + 2, p + 4) =~= "]("@) by {
        assert(m[p + 2] == head[2] && m[p + 3] == head[3]);
    }
    assert(m.subrange(p + 4, p + 9) =~= "gdoc:"@) by {
        assert(m[p + 4] == head[4] && m[p + 5] == head[5] && m[p + 6] == head[6] && m[p + 7]
            == head[7] && m[p + 8] == head[8]);
    }
    assert(occurs_at(m, "]("@, p + 2));
    lemma_find_is(m, "]("@, p + 2, p + 2);
    let e = p + 9 + desc.len();
    let x = "gdoc:"@ + desc;
    assert(m.subrange(p + 4, e) =~= x) by {
        assert forall|k: int| 0 <= k < x.len() implies m[p + 4 + k] == x[k] by {
            assert(w[4 + k] == x[k]);
        }
    }
    assert(!x.contains(')')) by {
        if x.contains(')') {
            let i = choose|i: int| 0 <= i < x.len() && x[i] == ')';
            if i >= 5 {
                assert(desc[i - 5] == ')');
            }
        }
    }
    assert(m[e] == ')') by {
        assert(w[w.len() - 1] == ')');
        assert(m[p + (w.len() - 1)] == w[w.len() - 1]);
    }
    lemma_find_behind(m, ')', p + 4, x);
    assert(m.subrange(p + 9, e) =~= desc) by {
        assert forall|k: int| 0 <= k < desc.len() implies m[p + 9 + k] == desc[k] by {
            assert(w[9 + k] == desc[k]);
        }
    }
    assert(object_at(m, p) == Some(Span { from: p + 9, to: e, next: e + 1 }));
}

/// A run, somewhere in a text, reads as its content.
proof fn lemma_run_reads(m: Seq<char>, p: int, r: RunV, in_table: bool)
    requires
        run_holds(r, in_table),
        0 <= p,
        p + run_markdown(r, in_table).len() <= m.len(),
        m.subrange(p, p + run_markdown(r, in_table).len()) == run_markdown(r, in_table),
        bare(r) ==> inert(m, p, p + run_markdown(r, in_table).len()),
    ensures
        inline_content(m, p, plain_style(), None) == run_content(r) + inline_content(
            m,
            p + run_markdown(r, in_table).len(),
            plain_style(),
            None,
        ),
{
    if r.object is Some {
        lemma_object_reads(m, p, r, in_table);
    } else if r.link is Some {
        lemma_link_reads(m, p, r, in_table);
    } else if bare(r) {
        let e = escaped(r.text, in_table);
        assert(run_markdown(r, in_table) =~= e);
        lemma_text_reads(m, p, r.text, r.style, None, in_table);
    } else {
        lemma_marked_reads(m, p, r, in_table);
    }
}

/// What a run's markdown begins with.
pub proof fn lemma_first_char(r: RunV, in_table: bool)
    requires
        run_holds(r, in_table),
    ensures
        run_markdown(r, in_table).len() > 0,
        r.object is Some ==> run_markdown(r, in_table)[0] == '!',
        r.object is None && r.link is Some ==> run_markdown(r, in_table)[0] == '[',
        r.object is None && r.link is None && !bare(r) ==> run_markdown(r, in_table)[0] == '*'
            || run_markdown(r, in_table)[0] == '~',
        bare(r) ==> run_markdown(r, in_table) == escaped(r.text, in_table) && run_markdown(
            r,
            in_table,
        )[0] == if special(r.text[0], in_table) {
            '\\'
        } else {
            r.text[0]
        },
{
    reveal_strlit("![](gdoc:");
    lemma_escaped(r.text, in_table);
    if r.object is None {
        lemma_encloses(r, in_table);
    }
    if bare(r) {
        assert(run_markdown(r, in_table) =~= escaped(r.text, in_table));
    }
}

/// Text without marks whose first character a backslash escapes, though it needs none,
/// reads as its characters.
pub proof fn lemma_text_behind(m: Seq<char>, r: RunV, rest: Seq<RunV>)
    requires
        run_holds(r, false),
        bare(r),
        !special(r.text[0], false),
        m == seq!['\\'] + (run_markdown(r, false) + runs_markdown(rest, false)),
        runs_inert(m, 1, seq![r] + rest, false, 2),
    ensures
        inline_content(m, 0, plain_style(), None) == atoms(r.text, plain_style(), None)
            + inline_content(m, 1int + run_markdown(r, false).len(), plain_style(), None),
{
    let t = r.text;
    let e = escaped(t, false);
    let tail = escaped(t.skip(1), false);
    let all = seq![r] + rest;
    assert(all[0] == r);
    lemma_first_char(r, false);
    assert(e =~= seq![t[0]] + tail);
    assert(m[0] == '\\' && m[1] == t[0]);
    let end = 1 + e.len() as int;
    assert(m.subrange(2, end) =~= tail);
    assert(inert(m, 2, end));
    lemma_text_reads(m, 2, t.skip(1), plain_style(), None, false);
    lemma_no_bracket(m, 0);
    lemma_no_wrap(m, 0);
    let a = atom(t[0], plain_style(), None);
    assert(atoms(t, plain_style(), None) =~= seq![a] + atoms(t.skip(1), plain_style(), None));
    assert(seq![a] + (atoms(t.skip(1), plain_style(), None) + inline_content(
        m,
        end,
        plain_style(),
        None,
    )) =~= atoms(t, plain_style(), None) + inline_content(m, end, plain_style(), None));
}

/// The underscores of the runs without marks are inert in the text `m`, in which the runs
/// stand from `p` on; underscores before `lo` do not count.
pub open spec fn runs_inert(
    m: Seq<char>,
    p: int,
    runs: Seq<RunV>,
    in_table: bool,
    lo: int,
) -> bool
    decreases runs.len(),
{
    runs.len() > 0 ==> {
        let end = p + run_markdown(runs[0], in_table).len();
        &&& bare(runs[0]) ==> inert(
            m,
            if p < lo {
                lo
            } else {
                p
            },
            end,
        )
        &&& runs_inert(m, end, runs.skip(1), in_table, lo)
    }
}

/// Every run reads back.
pub open spec fn runs_hold(runs: Seq<RunV>, in_table: bool) -> bool {
    forall|i: int| 0 <= i < runs.len() ==> run_holds(#[trigger] runs[i], in_table)
}

/// The contents of the runs, joined.
pub open spec fn contents(runs: Seq<RunV>) -> Seq<RunV>
    decreases runs.len(),
{
    if runs.len() == 0 {
        Seq::empty()
    } else {
        run_content(runs[0]) + contents(runs.skip(1))
    }
}

/// Runs that stand at the end of a text read as their contents.
pub proof fn lemma_runs_read(m: Seq<char>, p: int, runs: Seq<RunV>, in_table: bool)
    requires
        runs_hold(runs, in_table),
        0 <= p <= m.len(),
        m.skip(p) == runs_markdown(runs, in_table),
        runs_inert(m, p, runs, in_table, p),
    ensures
        inline_content(m, p, plain_style(), None) == contents(runs),
    decreases runs.len(),
{
    if runs.len() == 0 {
        assert(m.skip(p).len() == 0);
    } else {
        let r = runs[0];
        let w = run_markdown(r, in_table);
        let rest = runs.skip(1);
        let tail = runs_markdown(rest, in_table);
        let end = p + w.len();
        assert(m.skip(p) == w + tail);
        assert(m.subrange(p, end) =~= w) by {
            assert forall|k: int| 0 <= k < w.len() implies m[p + k] == w[k] by {
                assert(m.skip(p)[k] == (w + tail)[k]);
            }
        }
        assert(m.skip(end) =~= tail) by {
            assert forall|k: int| 0 <= k < tail.len() implies m[end + k] == tail[k] by {
                assert(m.skip(p)[w.len() + k] == (w + tail)[w.len() + k]);
            }
        }
        assert(run_holds(runs[0], in_table));
        lemma_run_reads(m, p, r, in_table);
        assert forall|i: int| 0 <= i < rest.len() implies run_holds(
            #[trigger] rest[i],
            in_table,
        ) by {
            assert(run_holds(runs[i + 1], in_table));
        }
        lemma_inert_raise(m, end, rest, in_table, p, end);
        lemma_runs_read(m, end, rest, in_table);
    }
}

/// Fewer underscores count from a later position on.
pub proof fn lemma_inert_raise(
    m: Seq<char>,
    p: int,
    runs: Seq<RunV>,
    in_table: bool,
    a: int,
    b: int,
)
    requires
        runs_inert(m, p, runs, in_table, a),
        a <= b,
    ensures
        runs_inert(m, p, runs, in_table, b),
    decreases runs.len(),
{
    if runs.len() > 0 {
        let end = p + run_markdown(runs[0], in_table).len();
        lemma_inert_raise(m, end, runs.skip(1), in_table, a, b);
    }
}

/// The contents joined from the front are those joined from the back.
proof fn lemma_contents(runs: Seq<RunV>)
    requires
        forall|i: int| 0 <= i < runs.len() ==> (#[trigger] runs[i]).text.len() > 0,
    ensures
        contents(runs) == content_of(runs),
    decreases runs.len(),
{
    if runs.len() > 0 {
        let init = runs.drop_last();
        assert forall|i: int| 0 <= i < init.len() implies (#[trigger] init[i]).text.len() > 0 by {
            assert(runs[i].text.len() > 0);
        }
        lemma_contents(init);
        lemma_contents_push(init, runs.last());
        assert(init.push(runs.last()) =~= runs);
        assert(runs[runs.len() - 1].text.len() > 0);
    }
}

proof fn lemma_contents_push(runs: Seq<RunV>, r: RunV)
    ensures
        contents(runs.push(r)) == contents(runs) + run_content(r),
    decreases runs.len(),
{
    let all = runs.push(r);
    if runs.len() == 0 {
        assert(all.skip(1) =~= Seq::<RunV>::empty());
        assert(all[0] == r);
        assert(contents(all.skip(1)) == Seq::<RunV>::empty());
        assert(contents(all) == run_content(r) + contents(all.skip(1)));
        assert(contents(all) =~= contents(runs) + run_content(r));
    } else {
        lemma_contents_push(runs.skip(1), r);
        assert(all.skip(1) =~= runs.skip(1).push(r));
        assert(run_content(runs[0]) + (contents(runs.skip(1)) + run_content(r)) =~= run_content(
            runs[0],
        ) + contents(runs.skip(1)) + run_content(r));
    }
}

/// Runs in normal form are what their contents normalize to.
pub proof fn lemma_contents_normalize(runs: Seq<RunV>)
    requires
        normal_form(runs),
    ensures
        normalized(contents(runs)) == runs,
{
    lemma_contents(runs);
    lemma_absorb_content(Seq::empty(), runs);
    lemma_absorb_all_identity(Seq::empty(), runs);
    assert(Seq::<RunV>::empty() + runs =~= runs);
}

/// Inline markdown that was written from runs parses to the runs again: the runs are in
/// normal form, each reads back, and the underscores of text without marks are inert.
pub proof fn law_inline_round_trip(runs: Seq<RunV>, in_table: bool)
    requires
        normal_form(runs),
        runs_hold(runs, in_table),
        runs_inert(runs_markdown(runs, in_table), 0, runs, in_table, 0),
    ensures
        inline_runs(runs_markdown(runs, in_table)) == runs,
{
    let m = runs_markdown(runs, in_table);
    assert(m.skip(0) =~= m);
    lemma_runs_read(m, 0, runs, in_table);
    lemma_contents_normalize(runs);
}

} // verus!
