//! The inline syntax: what marks, links, objects and escapes stand for.
use crate::inline::{
    closer, delim, inline_content, inline_runs, link_at, object_at, word_closer, wrap_from,
    wrap_with, Span,
};
use crate::inline_laws::{
    encloses, lemma_closes, lemma_enclosed_reads, lemma_find_behind, lemma_link_found,
    lemma_no_bracket, lemma_no_wrap, lemma_occurs, mark_index,
};
use crate::model::{
    absorb, absorb_all, atom, atoms, lemma_absorb_all_add, lemma_absorb_atoms, lemma_absorb_one,
    normalized, object_run, plain_style, RunV, TextStyle,
};
use crate::render::enclosed;
use crate::text::{
    alphanumeric, find_char, find_from, lemma_find_char, lemma_find_from, lemma_find_is, occurs_at,
    repeat, word_char,
};
use vstd::prelude::*;

verus! {

/// A character that means nothing but itself.
pub open spec fn plain_char(c: char) -> bool {
    c != '\\' && c != '*' && c != '_' && c != '~' && c != '[' && c != '!'
}

/// A text, maybe empty, of such characters.
pub open spec fn plain(s: Seq<char>) -> bool {
    forall|i: int| 0 <= i < s.len() ==> plain_char(#[trigger] s[i])
}

/// Text without marks.
pub open spec fn unmarked(text: Seq<char>) -> RunV {
    RunV {
        text,
        style: TextStyle { bold: false, italic: false, strikethrough: false },
        link: None,
        object: None,
    }
}

/// The characters of up to three texts in a row.
proof fn lemma_pieces(a: RunV, x: RunV, b: RunV)
    requires
        a.object is None,
        b.object is None,
        x.object is None,
    ensures
        normalized(
            atoms(a.text, a.style, a.link) + atoms(x.text, x.style, x.link) + atoms(
                b.text,
                b.style,
                b.link,
            ),
        ) == normalized(seq![a, x, b]),
{
    let none = Seq::<RunV>::empty();
    let (p, q, r) = (
        atoms(a.text, a.style, a.link),
        atoms(x.text, x.style, x.link),
        atoms(b.text, b.style, b.link),
    );
    assert(a =~= RunV { text: a.text, style: a.style, link: a.link, object: None });
    assert(x =~= RunV { text: x.text, style: x.style, link: x.link, object: None });
    assert(b =~= RunV { text: b.text, style: b.style, link: b.link, object: None });
    lemma_absorb_all_add(none, p + q, r);
    lemma_absorb_all_add(none, p, q);
    lemma_absorb_atoms(none, a.text, a.style, a.link);
    lemma_absorb_atoms(absorb(none, a), x.text, x.style, x.link);
    lemma_absorb_atoms(absorb(absorb(none, a), x), b.text, b.style, b.link);
    reveal_with_fuel(absorb_all, 4);
    let s = seq![a, x, b];
    assert(s.drop_last() =~= seq![a, x]);
    assert(seq![a, x].drop_last() =~= seq![a]);
    assert(seq![a].drop_last() =~= none);
}

/// Plain characters, somewhere in a text, read as themselves.
proof fn lemma_plain_reads(
    m: Seq<char>,
    p: int,
    n: int,
    style: TextStyle,
    link: Option<Seq<char>>,
)
    requires
        0 <= p,
        0 <= n,
        p + n <= m.len(),
        plain(m.subrange(p, p + n)),
    ensures
        inline_content(m, p, style, link) == atoms(m.subrange(p, p + n), style, link)
            + inline_content(m, p + n, style, link),
    decreases n,
{
    let t = m.subrange(p, p + n);
    if n == 0 {
        assert(atoms(t, style, link) + inline_content(m, p, style, link) =~= inline_content(
            m,
            p,
            style,
            link,
        ));
    } else {
        assert(plain_char(t[0]));
        assert(m[p] == t[0]);
        let rest = m.subrange(p + 1, p + n);
        assert forall|i: int| 0 <= i < rest.len() implies plain_char(#[trigger] rest[i]) by {
            assert(rest[i] == t[i + 1]);
        }
        lemma_plain_reads(m, p + 1, n - 1, style, link);
        lemma_no_bracket(m, p);
        lemma_no_wrap(m, p);
        let more = inline_content(m, p + n, style, link);
        assert(inline_content(m, p, style, link) == seq![atom(m[p], style, link)]
            + inline_content(m, p + 1, style, link));
        assert(atoms(t, style, link) + more =~= seq![atom(m[p], style, link)] + (atoms(
            rest,
            style,
            link,
        ) + more));
    }
}

/// A whole plain text reads as itself.
proof fn lemma_whole(x: Seq<char>, style: TextStyle, link: Option<Seq<char>>)
    requires
        plain(x),
    ensures
        inline_content(x, 0, style, link) == atoms(x, style, link),
{
    assert(x.subrange(0, x.len() as int) =~= x);
    lemma_plain_reads(x, 0, x.len() as int, style, link);
    assert(inline_content(x, x.len() as int, style, link) =~= Seq::<RunV>::empty());
    assert(atoms(x, style, link) + Seq::<RunV>::empty() =~= atoms(x, style, link));
}

/// What reads a piece between two plain texts.
proof fn lemma_between(m: Seq<char>, a: Seq<char>, w: Seq<char>, b: Seq<char>, mid: Seq<RunV>)
    requires
        m == a + w + b,
        plain(a),
        plain(b),
        inline_content(m, a.len() as int, plain_style(), None) == mid + inline_content(
            m,
            (a + w).len() as int,
            plain_style(),
            None,
        ),
    ensures
        inline_content(m, 0, plain_style(), None) == atoms(a, plain_style(), None) + mid + atoms(
            b,
            plain_style(),
            None,
        ),
{
    let s = plain_style();
    let n = a.len() as int;
    let q = (a + w).len() as int;
    let end = m.len() as int;
    assert(m.subrange(0, n) =~= a);
    lemma_plain_reads(m, 0, n, s, None);
    assert(m.subrange(q, end) =~= b);
    lemma_plain_reads(m, q, end - q, s, None);
    assert(inline_content(m, end, s, None) =~= Seq::<RunV>::empty());
    assert(atoms(b, s, None) + Seq::<RunV>::empty() =~= atoms(b, s, None));
    assert(atoms(a, s, None) + (mid + atoms(b, s, None)) =~= atoms(a, s, None) + mid + atoms(
        b,
        s,
        None,
    ));
}

/// Text of plain characters is one run without marks.
pub proof fn law_text(s: Seq<char>)
    requires
        plain(s),
        s.len() > 0,
    ensures
        inline_runs(s) == seq![unmarked(s)],
{
    lemma_whole(s, plain_style(), None);
    lemma_absorb_atoms(Seq::empty(), s, plain_style(), None);
    assert(Seq::<RunV>::empty().push(unmarked(s)) =~= seq![unmarked(s)]);
}

/// The style that a delimiter gives: one asterisk or underscore is italic, two are bold and
/// three are both; two tildes strike through.
pub open spec fn given_style(c: char, n: nat) -> TextStyle {
    TextStyle {
        bold: c != '~' && (n == 2 || n == 3),
        italic: c != '~' && (n == 1 || n == 3),
        strikethrough: c == '~',
    }
}

/// There is a word character at the place.
pub open spec fn word_at(s: Seq<char>, i: int) -> bool {
    0 <= i < s.len() && (alphanumeric(s[i]) || s[i] == '_')
}

/// That many times the character.
pub open spec fn times(c: char, n: nat) -> Seq<char> {
    Seq::new(n, |i: int| c)
}

proof fn lemma_underscored(m: Seq<char>, p: int, n: nat, x: Seq<char>)
    requires
        1 <= n <= 3,
        0 <= p,
        p + n + x.len() + n <= m.len(),
        m.subrange(p, p + n + x.len() + n) == enclosed(repeat('_', n), x),
        encloses('_', n, x),
        !(p > 0 && word_char(m[p - 1])),
        !(p + n + x.len() + n < m.len() && word_char(m[p + n + x.len() + n])),
    ensures
        inline_content(m, p, plain_style(), None) == inline_content(
            x,
            0,
            given_style('_', n),
            None,
        ) + inline_content(m, p + n + x.len() + n, plain_style(), None),
{
    let d = repeat('_', n);
    lemma_closes(m, p, '_', n, x);
    assert(m[p] == '_') by {
        assert(m.subrange(p, p + n + x.len() + n)[0] == enclosed(d, x)[0]);
    }
    lemma_no_bracket(m, p);
    lemma_occurs(m, '*', 3, p);
    lemma_occurs(m, '_', 3, p);
    lemma_occurs(m, '*', 2, p);
    lemma_occurs(m, '_', 2, p);
    lemma_occurs(m, '~', 2, p);
    lemma_occurs(m, '*', 1, p);
    assert(m[p + n] != '_');
    let from = p + n;
    let e = from + x.len();
    assert(find_from(m, d, from) == Some(e));
    lemma_find_from(m, d, from);
    assert(word_closer(m, d, from, from) == Some(e));
    let k = if n == 3 {
        1int
    } else if n == 2 {
        3
    } else {
        6
    };
    let sp = Span { from, to: e, next: e + n };
    assert(delim(k).c == '_' && delim(k).n == n);
    assert(wrap_with(m, p, delim(k)) == Some(sp));
    reveal_with_fuel(wrap_from, 8);
    assert(wrap_from(m, p, 0) == Some((k, sp)));
    assert(m.subrange(from, e) == x);
    assert(delim(k).styled(plain_style()) =~= given_style('_', n));
}

/// A text between two delimiters has their style, whatever stands around them; underscores
/// take effect only where no word goes on at either side.
pub proof fn law_marked(a: Seq<char>, c: char, n: nat, x: Seq<char>, b: Seq<char>)
    requires
        plain(a),
        plain(x),
        plain(b),
        x.len() > 0,
        ((c == '*' || c == '_') && 1 <= n <= 3) || (c == '~' && n == 2),
        c == '_' ==> !word_at(a, a.len() - 1) && !word_at(b, 0),
    ensures
        inline_runs(a + times(c, n) + x + times(c, n) + b) == normalized(
            seq![
                unmarked(a),
                RunV { text: x, style: given_style(c, n), link: None, object: None },
                unmarked(b),
            ],
        ),
{
    let d = repeat(c, n);
    assert(times(c, n) =~= d);
    let w = enclosed(d, x);
    let m = a + w + b;
    assert(a + times(c, n) + x + times(c, n) + b =~= m);
    let p = a.len() as int;
    assert(m.subrange(p, p + w.len()) =~= w);
    assert(plain_char(x[0]) && plain_char(x[x.len() - 1]));
    assert(encloses(c, n, x)) by {
        assert forall|i: int| 0 <= i < x.len() implies #[trigger] x[i] != c by {
            assert(plain_char(x[i]));
        }
    }
    let st = given_style(c, n);
    lemma_whole(x, st, None);
    if c == '_' {
        if p > 0 {
            assert(m[p - 1] == a[p - 1]);
        }
        if p + w.len() < m.len() {
            assert(m[p + w.len()] == b[0]);
        }
        lemma_underscored(m, p, n, x);
    } else {
        lemma_enclosed_reads(m, p, c, n, x, plain_style(), None);
        assert(delim(mark_index(c, n)).styled(plain_style()) =~= st);
    }
    lemma_between(m, a, w, b, atoms(x, st, None));
    lemma_pieces(
        unmarked(a),
        RunV { text: x, style: st, link: None, object: None },
        unmarked(b),
    );
}

/// Underscores inside a word are text.
pub proof fn law_inside_words(s: Seq<char>)
    requires
        s.len() > 0,
        forall|i: int| 0 <= i < s.len() ==> plain_char(#[trigger] s[i]) || s[i] == '_',
        forall|i: int| 0 <= i < s.len() && #[trigger] s[i] == '_' ==> word_at(s, i - 1),
    ensures
        inline_runs(s) == seq![unmarked(s)],
{
    lemma_inside_words(s, 0);
    assert(s.skip(0) =~= s);
    lemma_absorb_atoms(Seq::empty(), s, plain_style(), None);
    assert(Seq::<RunV>::empty().push(unmarked(s)) =~= seq![unmarked(s)]);
}

proof fn lemma_inside_words(s: Seq<char>, p: int)
    requires
        0 <= p <= s.len(),
        forall|i: int| 0 <= i < s.len() ==> plain_char(#[trigger] s[i]) || s[i] == '_',
        forall|i: int| 0 <= i < s.len() && #[trigger] s[i] == '_' ==> word_at(s, i - 1),
    ensures
        inline_content(s, p, plain_style(), None) == atoms(s.skip(p), plain_style(), None),
    decreases s.len() - p,
{
    let st = plain_style();
    if p < s.len() {
        lemma_inside_words(s, p + 1);
        assert(plain_char(s[p]) || s[p] == '_');
        lemma_no_bracket(s, p);
        if s[p] == '_' {
            assert(word_at(s, p - 1));
            reveal_with_fuel(wrap_from, 9);
            lemma_occurs(s, '*', 3, p);
            lemma_occurs(s, '*', 2, p);
            lemma_occurs(s, '~', 2, p);
            lemma_occurs(s, '*', 1, p);
            assert(wrap_from(s, p, 0) is None);
        } else {
            lemma_no_wrap(s, p);
        }
        assert(atoms(s.skip(p), st, None) =~= seq![atom(s[p], st, None)] + atoms(
            s.skip(p + 1),
            st,
            None,
        ));
    } else {
        assert(atoms(s.skip(p), st, None) =~= Seq::<RunV>::empty());
        assert(inline_content(s, p, st, None) =~= Seq::<RunV>::empty());
    }
}

/// A backslash takes the meaning off the character behind it, and is text at the end.
pub proof fn law_escape(a: Seq<char>, c: char, b: Seq<char>)
    requires
        plain(a),
        plain(b),
    ensures
        inline_runs(a + seq!['\\', c] + b) == seq![unmarked(a + seq![c] + b)],
        inline_runs(a + seq!['\\']) == seq![unmarked(a + seq!['\\'])],
{
    let st = plain_style();
    let w = seq!['\\', c];
    let m = a + w + b;
    let p = a.len() as int;
    assert(m[p] == '\\' && m[p + 1] == c);
    lemma_no_bracket(m, p);
    lemma_no_wrap(m, p);
    lemma_between(m, a, w, b, seq![atom(c, st, None)]);
    let t = a + seq![c] + b;
    assert(atoms(t, st, None) =~= atoms(a, st, None) + seq![atom(c, st, None)] + atoms(
        b,
        st,
        None,
    ));
    lemma_absorb_atoms(Seq::empty(), t, st, None);
    assert(Seq::<RunV>::empty().push(unmarked(t)) =~= seq![unmarked(t)]);
    let m = a + seq!['\\'];
    let none = Seq::<char>::empty();
    assert(m =~= a + seq!['\\'] + none);
    assert(m[p] == '\\');
    lemma_no_bracket(m, p);
    lemma_no_wrap(m, p);
    lemma_between(m, a, seq!['\\'], none, seq![atom('\\', st, None)]);
    assert(atoms(m, st, None) =~= atoms(a, st, None) + seq![atom('\\', st, None)] + atoms(
        none,
        st,
        None,
    ));
    lemma_absorb_atoms(Seq::empty(), m, st, None);
    assert(Seq::<RunV>::empty().push(unmarked(m)) =~= seq![unmarked(m)]);
}

/// A delimiter, a bracket or an exclamation mark alone is text.
pub proof fn law_alone(a: Seq<char>, c: char, b: Seq<char>)
    requires
        plain(a),
        plain(b),
        c == '*' || c == '_' || c == '~' || c == '[' || c == '!',
        !b.contains(']'),
    ensures
        inline_runs(a + seq![c] + b) == seq![unmarked(a + seq![c] + b)],
{
    let st = plain_style();
    let w = seq![c];
    let m = a + w + b;
    let p = a.len() as int;
    assert(m[p] == c);
    assert forall|j: int| p < j < m.len() implies plain_char(#[trigger] m[j]) by {
        assert(m[j] == b[j - p - 1]);
    }
    reveal_strlit("![");
    if occurs_at(m, "!["@, p) {
        assert(m.subrange(p, p + 2)[1] == "!["@[1]);
        assert(m[p + 1] == '[');
        assert(plain_char(m[p + 1]));
    }
    assert(link_at(m, p) is None) by {
        lemma_find_char(m, ']', p + 1);
        if let Some(k) = find_char(m, ']', p + 1) {
            assert(m[k] == b[k - p - 1]);
            assert(b.contains(b[k - p - 1]));
        }
    }
    lemma_unclosed(m, p);
    lemma_between(m, a, w, b, seq![atom(c, st, None)]);
    assert(atoms(m, st, None) =~= atoms(a, st, None) + seq![atom(c, st, None)] + atoms(
        b,
        st,
        None,
    ));
    lemma_absorb_atoms(Seq::empty(), m, st, None);
    assert(Seq::<RunV>::empty().push(unmarked(m)) =~= seq![unmarked(m)]);
}

/// A delimiter that is not closed encloses nothing.
proof fn lemma_unclosed(m: Seq<char>, p: int)
    requires
        0 <= p < m.len(),
        forall|j: int| p < j < m.len() ==> plain_char(#[trigger] m[j]),
    ensures
        wrap_from(m, p, 0) is None,
{
    reveal_with_fuel(wrap_from, 9);
    lemma_occurs(m, '*', 3, p);
    lemma_occurs(m, '_', 3, p);
    lemma_occurs(m, '*', 2, p);
    lemma_occurs(m, '_', 2, p);
    lemma_occurs(m, '~', 2, p);
    lemma_occurs(m, '*', 1, p);
    lemma_occurs(m, '_', 1, p);
    if p + 1 < m.len() {
        assert(plain_char(m[p + 1]));
    }
    let star = repeat('*', 1);
    let bar = repeat('_', 1);
    lemma_find_from(m, star, p + 1);
    lemma_find_from(m, bar, p + 1);
    if let Some(k) = find_from(m, star, p + 1) {
        lemma_occurs(m, '*', 1, k);
        assert(m[k] == '*');
        assert(plain_char(m[k]));
    }
    if let Some(k) = find_from(m, bar, p + 1) {
        lemma_occurs(m, '_', 1, k);
        assert(m[k] == '_');
        assert(plain_char(m[k]));
    }
}

/// No delimiter of a row of asterisks or tildes encloses anything.
proof fn lemma_row(m: Seq<char>, p: int, end: int, c: char)
    requires
        c == '*' || c == '~',
        0 <= p < end <= m.len(),
        forall|j: int| p <= j < end ==> #[trigger] m[j] == c,
        forall|j: int| end <= j < m.len() ==> plain_char(#[trigger] m[j]),
    ensures
        wrap_from(m, p, 0) is None,
{
    assert(m[p] == c);
    lemma_occurs(m, '*', 3, p);
    lemma_occurs(m, '_', 3, p);
    lemma_occurs(m, '*', 2, p);
    lemma_occurs(m, '_', 2, p);
    lemma_occurs(m, '~', 2, p);
    lemma_occurs(m, '*', 1, p);
    lemma_occurs(m, '_', 1, p);
    lemma_row_closes(m, p, end, c, 3);
    lemma_row_closes(m, p, end, c, 2);
    lemma_row_closes(m, p, end, c, 1);
    reveal_with_fuel(wrap_from, 9);
}

proof fn lemma_row_closes(m: Seq<char>, p: int, end: int, c: char, n: nat)
    requires
        c == '*' || c == '~',
        n > 0,
        0 <= p < end <= m.len(),
        forall|j: int| p <= j < end ==> #[trigger] m[j] == c,
        forall|j: int| end <= j < m.len() ==> plain_char(#[trigger] m[j]),
    ensures
        occurs_at(m, repeat(c, n), p) ==> closer(m, repeat(c, n), p + n) is None,
{
    let d = repeat(c, n);
    let from = p + n;
    lemma_occurs(m, c, n, p);
    lemma_occurs(m, c, n, from);
    lemma_find_from(m, d, from);
    if occurs_at(m, d, p) {
        if end <= p + n - 1 {
            assert(m[p + n - 1] == c);
            assert(plain_char(m[p + n - 1]));
        }
        if let Some(k) = find_from(m, d, from) {
            lemma_occurs(m, c, n, k);
            assert(m[k + n - 1] == c);
            if k + n > end {
                assert(plain_char(m[k + n - 1]));
            }
            assert forall|j: int| from <= j < from + n implies #[trigger] m[j] == c by {}
            assert(occurs_at(m, d, from));
        }
    }
}

proof fn lemma_row_reads(m: Seq<char>, p: int, end: int, c: char)
    requires
        c == '*' || c == '~',
        0 <= p <= end <= m.len(),
        forall|j: int| p <= j < end ==> #[trigger] m[j] == c,
        forall|j: int| end <= j < m.len() ==> plain_char(#[trigger] m[j]),
    ensures
        inline_content(m, p, plain_style(), None) == atoms(
            m.subrange(p, end),
            plain_style(),
            None,
        ) + inline_content(m, end, plain_style(), None),
    decreases end - p,
{
    let st = plain_style();
    let more = inline_content(m, end, st, None);
    if p == end {
        assert(atoms(m.subrange(p, end), st, None) + more =~= more);
    } else {
        lemma_row_reads(m, p + 1, end, c);
        assert(m[p] == c);
        lemma_no_bracket(m, p);
        lemma_row(m, p, end, c);
        assert(atoms(m.subrange(p, end), st, None) + more =~= seq![atom(m[p], st, None)] + (atoms(
            m.subrange(p + 1, end),
            st,
            None,
        ) + more));
    }
}

/// Delimiters with nothing between them are text: a row of asterisks or of tildes, however
/// long, and two underscores.
pub proof fn law_nothing_between(a: Seq<char>, c: char, n: nat, b: Seq<char>)
    requires
        plain(a),
        plain(b),
        n > 0,
        c == '*' || c == '~' || (c == '_' && n == 2),
    ensures
        inline_runs(a + times(c, n) + b) == seq![unmarked(a + times(c, n) + b)],
{
    let st = plain_style();
    let w = times(c, n);
    let m = a + w + b;
    let p = a.len() as int;
    let end = p + n;
    assert forall|j: int| p <= j < end implies #[trigger] m[j] == c by {
        assert(m[j] == w[j - p]);
    }
    assert forall|j: int| end <= j < m.len() implies plain_char(#[trigger] m[j]) by {
        assert(m[j] == b[j - end]);
    }
    assert(m.subrange(p, end) =~= w);
    if c == '_' {
        assert(m[p] == '_' && m[p + 1] == '_');
        lemma_two(m, p);
        lemma_unclosed(m, p + 1);
        lemma_no_bracket(m, p);
        lemma_no_bracket(m, p + 1);
        assert(inline_content(m, p, st, None) == seq![atom('_', st, None)] + inline_content(
            m,
            p + 1,
            st,
            None,
        ));
        assert(inline_content(m, p + 1, st, None) == seq![atom('_', st, None)] + inline_content(
            m,
            p + 2,
            st,
            None,
        ));
        assert(inline_content(m, p, st, None) =~= atoms(w, st, None) + inline_content(
            m,
            end,
            st,
            None,
        ));
    } else {
        lemma_row_reads(m, p, end, c);
    }
    lemma_between(m, a, w, b, atoms(w, st, None));
    assert(atoms(m, st, None) =~= atoms(a, st, None) + atoms(w, st, None) + atoms(b, st, None));
    lemma_absorb_atoms(Seq::empty(), m, st, None);
    assert(Seq::<RunV>::empty().push(unmarked(m)) =~= seq![unmarked(m)]);
}

/// The first of two underscores encloses nothing.
proof fn lemma_two(m: Seq<char>, p: int)
    requires
        0 <= p,
        p + 1 < m.len(),
        m[p] == '_',
        m[p + 1] == '_',
        forall|j: int| p + 1 < j < m.len() ==> plain_char(#[trigger] m[j]),
    ensures
        wrap_from(m, p, 0) is None,
{
    reveal_with_fuel(wrap_from, 9);
    lemma_occurs(m, '*', 3, p);
    lemma_occurs(m, '_', 3, p);
    lemma_occurs(m, '*', 2, p);
    lemma_occurs(m, '~', 2, p);
    lemma_occurs(m, '*', 1, p);
    if p + 2 < m.len() {
        assert(plain_char(m[p + 2]));
    }
    let one = repeat('_', 1);
    let two = repeat('_', 2);
    lemma_find_from(m, two, p + 2);
    if let Some(k) = find_from(m, two, p + 2) {
        lemma_occurs(m, '_', 2, k);
        assert(m[k] == '_');
        assert(plain_char(m[k]));
    }
    assert(word_closer(m, two, p + 2, p + 2) is None);
    lemma_occurs(m, '_', 1, p + 1);
    lemma_find_is(m, one, p + 1, p + 1);
    lemma_find_from(m, one, p + 2);
    if let Some(k) = find_from(m, one, p + 2) {
        lemma_occurs(m, '_', 1, k);
        assert(m[k] == '_');
        assert(plain_char(m[k]));
    }
    reveal_with_fuel(word_closer, 3);
    assert(word_closer(m, one, p + 1, p + 2) is None);
    assert(word_closer(m, one, p + 1, p + 1) is None);
}

/// A link has its text and its address.
pub proof fn law_link(a: Seq<char>, x: Seq<char>, url: Seq<char>, b: Seq<char>)
    requires
        plain(a),
        plain(x),
        plain(b),
        x.len() > 0,
        url.len() > 0,
        !x.contains(']'),
        !url.contains(')'),
    ensures
        inline_runs(a + seq!['['] + x + seq![']', '('] + url + seq![')'] + b) == normalized(
            seq![
                unmarked(a),
                RunV {
                    text: x,
                    style: TextStyle { bold: false, italic: false, strikethrough: false },
                    link: Some(url),
                    object: None,
                },
                unmarked(b),
            ],
        ),
{
    let st = plain_style();
    let w = seq!['['] + x + seq![']', '('] + url + seq![')'];
    let m = a + w + b;
    assert(a + seq!['['] + x + seq![']', '('] + url + seq![')'] + b =~= m);
    let p = a.len() as int;
    assert(m.subrange(p, p + w.len()) =~= w);
    lemma_link_found(m, p, x, url);
    lemma_whole(x, st, Some(url));
    lemma_between(m, a, w, b, atoms(x, st, Some(url)));
    lemma_pieces(
        unmarked(a),
        RunV { text: x, style: st, link: Some(url), object: None },
        unmarked(b),
    );
}

/// A link without a text or without an address is text.
pub proof fn law_no_link(a: Seq<char>, x: Seq<char>, url: Seq<char>, b: Seq<char>)
    requires
        plain(a),
        plain(x),
        plain(url),
        plain(b),
        !x.contains(']'),
        !url.contains(']'),
        !url.contains(')'),
        !b.contains(']'),
        x.len() == 0 || url.len() == 0,
    ensures
        ({
            let m = a + seq!['['] + x + seq![']', '('] + url + seq![')'] + b;
            inline_runs(m) == seq![unmarked(m)]
        }),
{
    let st = plain_style();
    let w = seq!['['];
    let rest = x + seq![']', '('] + url + seq![')'] + b;
    let m = a + w + rest;
    assert(a + seq!['['] + x + seq![']', '('] + url + seq![')'] + b =~= m);
    let p = a.len() as int;
    assert forall|i: int| 0 <= i < rest.len() implies plain_char(#[trigger] rest[i]) by {
        let n = x.len() as int;
        let k = url.len() as int;
        if i < n {
            assert(rest[i] == x[i]);
        } else if i < n + 2 {
        } else if i < n + 2 + k {
            assert(rest[i] == url[i - n - 2]);
        } else if i > n + 2 + k {
            assert(rest[i] == b[i - n - 3 - k]);
        }
    }
    assert forall|j: int| p < j < m.len() implies plain_char(#[trigger] m[j]) by {
        assert(m[j] == rest[j - p - 1]);
    }
    assert(m[p] == '[');
    reveal_strlit("![");
    if occurs_at(m, "!["@, p) {
        assert(m.subrange(p, p + 2)[0] == "!["@[0]);
    }
    let c = p + 1 + x.len();
    assert(m[c] == ']' && m[c + 1] == '(');
    assert(m.subrange(p + 1, c) =~= x);
    lemma_find_behind(m, ']', p + 1, x);
    let e = c + 2 + url.len();
    assert(m[e] == ')');
    assert(m.subrange(c + 2, e) =~= url);
    lemma_find_behind(m, ')', c + 2, url);
    assert(link_at(m, p) is None);
    lemma_unclosed(m, p);
    lemma_between(m, a, w, rest, seq![atom('[', st, None)]);
    assert(atoms(m, st, None) =~= atoms(a, st, None) + seq![atom('[', st, None)] + atoms(
        rest,
        st,
        None,
    ));
    lemma_absorb_atoms(Seq::empty(), m, st, None);
    assert(Seq::<RunV>::empty().push(unmarked(m)) =~= seq![unmarked(m)]);
}

/// The placeholder of an inline object stands for the object, whatever its alternative text.
pub proof fn law_object(a: Seq<char>, alt: Seq<char>, d: Seq<char>, b: Seq<char>)
    requires
        plain(a),
        plain(b),
        !alt.contains(']'),
        d.len() > 0,
        !d.contains(')'),
    ensures
        inline_runs(a + "!["@ + alt + "](gdoc:"@ + d + seq![')'] + b) == normalized(
            seq![
                unmarked(a),
                RunV {
                    text: seq!['\u{FFFC}'],
                    style: TextStyle { bold: false, italic: false, strikethrough: false },
                    link: None,
                    object: Some(d),
                },
                unmarked(b),
            ],
        ),
{
    reveal_strlit("![");
    reveal_strlit("](");
    reveal_strlit("gdoc:");
    reveal_strlit("](gdoc:");
    let st = plain_style();
    let w = "!["@ + alt + "](gdoc:"@ + d + seq![')'];
    let m = a + w + b;
    assert(a + "!["@ + alt + "](gdoc:"@ + d + seq![')'] + b =~= m);
    let p = a.len() as int;
    let n = alt.len() as int;
    let c = p + 2 + n;
    let e = c + 7 + d.len();
    assert(m.subrange(p, p + 2) =~= "!["@);
    assert(m.subrange(p + 2, c) =~= alt);
    let close = "](gdoc:"@;
    assert(m.subrange(c, c + 7) =~= close);
    assert(close[0] == ']' && close[1] == '(');
    assert(m[c] == m.subrange(c, c + 7)[0] && m[c + 1] == m.subrange(c, c + 7)[1]);
    assert(m.subrange(c, c + 2) =~= "]("@);
    assert(m.subrange(c + 2, c + 7) =~= "gdoc:"@) by {
        assert forall|k: int| 0 <= k < 5 implies m[c + 2 + k] == "gdoc:"@[k] by {
            assert(m.subrange(c, c + 7)[2 + k] == close[2 + k]);
        }
    }
    assert forall|j: int| p + 2 <= j < c implies !#[trigger] occurs_at(m, "]("@, j) by {
        if occurs_at(m, "]("@, j) {
            assert(m.subrange(j, j + 2)[0] == "]("@[0]);
            assert(m.subrange(p + 2, c)[j - p - 2] == alt[j - p - 2]);
            assert(alt.contains(alt[j - p - 2]));
        }
    }
    lemma_find_is(m, "]("@, p + 2, c);
    let x = "gdoc:"@ + d;
    assert(m.subrange(c + 7, e) =~= d);
    assert(m.subrange(c + 2, e) =~= x) by {
        assert forall|k: int| 0 <= k < x.len() implies m[c + 2 + k] == x[k] by {
            if k < 5 {
                assert(m.subrange(c + 2, c + 7)[k] == "gdoc:"@[k]);
            } else {
                assert(m.subrange(c + 7, e)[k - 5] == d[k - 5]);
            }
        }
    }
    assert(!x.contains(')')) by {
        if x.contains(')') {
            let i = choose|i: int| 0 <= i < x.len() && x[i] == ')';
            if i >= 5 {
                assert(d[i - 5] == ')');
            }
        }
    }
    assert(m[e] == ')');
    lemma_find_behind(m, ')', c + 2, x);
    assert(object_at(m, p) == Some(Span { from: c + 7, to: e, next: e + 1 }));
    let o = object_run(d);
    lemma_between(m, a, w, b, seq![o]);
    let r = RunV {
        text: seq!['\u{FFFC}'],
        style: TextStyle { bold: false, italic: false, strikethrough: false },
        link: None,
        object: Some(d),
    };
    assert(o =~= r);
    let none = Seq::<RunV>::empty();
    let (pa, pb) = (atoms(a, st, None), atoms(b, st, None));
    lemma_absorb_all_add(none, pa + seq![o], pb);
    lemma_absorb_all_add(none, pa, seq![o]);
    lemma_absorb_atoms(none, a, st, None);
    lemma_absorb_one(absorb(none, unmarked(a)), o);
    lemma_absorb_atoms(absorb(absorb(none, unmarked(a)), o), b, st, None);
    reveal_with_fuel(absorb_all, 4);
    let s = seq![unmarked(a), r, unmarked(b)];
    assert(s.drop_last() =~= seq![unmarked(a), r]);
    assert(seq![unmarked(a), r].drop_last() =~= seq![unmarked(a)]);
    assert(seq![unmarked(a)].drop_last() =~= none);
}

/// A placeholder that names no object is text.
pub proof fn law_no_object(a: Seq<char>, b: Seq<char>)
    requires
        plain(a),
        plain(b),
    ensures
        ({
            let m = a + "![](gdoc:)"@ + b;
            inline_runs(m) == seq![unmarked(m)]
        }),
{
    reveal_strlit("![](gdoc:)");
    reveal_strlit("![");
    reveal_strlit("](");
    let st = plain_style();
    let h = "![](gdoc:)"@;
    let w = seq!['!', '['];
    let rest = h.skip(2) + b;
    let m = a + w + rest;
    assert(a + h + b =~= m) by {
        assert(h =~= w + h.skip(2));
    }
    let p = a.len() as int;
    assert forall|i: int| 0 <= i < rest.len() implies plain_char(#[trigger] rest[i]) by {
        if i < 8 {
            assert(rest[i] == h[i + 2]);
        } else {
            assert(rest[i] == b[i - 8]);
        }
    }
    assert forall|j: int| p + 1 < j < m.len() implies plain_char(#[trigger] m[j]) by {
        assert(m[j] == rest[j - p - 2]);
    }
    assert(m[p] == '!' && m[p + 1] == '[');
    assert forall|k: int| 2 <= k < 10 implies m[p + k] == #[trigger] h[k] by {
        assert(m[p + k] == rest[k - 2]);
    }
    assert(m[p + 2] == h[2] && m[p + 3] == h[3] && m[p + 4] == h[4] && m[p + 5] == h[5] && m[p + 6]
        == h[6] && m[p + 7] == h[7] && m[p + 8] == h[8] && m[p + 9] == h[9]);
    assert(m.subrange(p + 2, p + 4) =~= "]("@);
    lemma_find_is(m, "]("@, p + 2, p + 2);
    let x = m.subrange(p + 4, p + 9);
    assert(!x.contains(')')) by {
        if x.contains(')') {
            let i = choose|i: int| 0 <= i < x.len() && x[i] == ')';
            assert(x[i] == m[p + 4 + i]);
            assert(m[p + (4 + i)] == h[4 + i]);
        }
    }
    lemma_find_behind(m, ')', p + 4, x);
    assert(object_at(m, p) is None);
    assert(link_at(m, p) is None);
    lemma_no_wrap(m, p);
    let q = p + 1;
    if occurs_at(m, "!["@, q) {
        assert(m.subrange(q, q + 2)[0] == "!["@[0]);
    }
    let none = Seq::<char>::empty();
    assert(m.subrange(q + 1, q + 1) =~= none);
    lemma_find_behind(m, ']', q + 1, none);
    assert(link_at(m, q) is None);
    lemma_no_wrap(m, q);
    assert(inline_content(m, p, st, None) == seq![atom('!', st, None)] + inline_content(
        m,
        q,
        st,
        None,
    ));
    assert(inline_content(m, q, st, None) == seq![atom('[', st, None)] + inline_content(
        m,
        q + 1,
        st,
        None,
    ));
    let mid = atoms(w, st, None);
    assert(inline_content(m, p, st, None) =~= mid + inline_content(m, p + 2, st, None));
    lemma_between(m, a, w, rest, mid);
    assert(atoms(m, st, None) =~= atoms(a, st, None) + mid + atoms(rest, st, None));
    lemma_absorb_atoms(Seq::empty(), m, st, None);
    assert(Seq::<RunV>::empty().push(unmarked(m)) =~= seq![unmarked(m)]);
}

} // verus!
