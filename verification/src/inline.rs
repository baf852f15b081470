//! Inline markdown: emphasis, strike-through, links and object placeholders.
//!
//! A delimiter takes effect only where its closer exists; otherwise it is literal
//! text. The wrapped span is parsed on its own, so marks nest.
use crate::model::{
    absorb, absorb_all, atom, atoms, copy_opt, lemma_absorb_all_add, lemma_absorb_atoms,
    lemma_absorb_one, normalize_runs, normalized, object_run, opt_view, plain_style, run_views, Run,
    RunV, TextStyle,
};
use crate::text::{
    find, find_char, find_from, find_str, is_word, lemma_find_char, lemma_find_from, occurs_at,
    position, push_repeat, repeat, stands_at, str_at, to_chars, to_text, word_char,
};
use vstd::prelude::*;
use vstd::slice::slice_subrange;

verus! {

/// A part of a text that a construct encloses, and where the text goes on.
pub struct Span {
    pub from: int,
    pub to: int,
    pub next: int,
}

impl Span {
    /// The span lies behind position `p` of a text of `n` characters.
    pub open spec fn within(self, p: int, n: int) -> bool {
        p < self.from < self.to < self.next <= n
    }
}

/// The descriptor of an object placeholder `![alt](gdoc:<descriptor>)` that starts
/// at `p`; the descriptor is not empty.
pub open spec fn object_at(s: Seq<char>, p: int) -> Option<Span> {
    if !occurs_at(s, "!["@, p) {
        None
    } else {
        match find_from(s, "]("@, p + 2) {
            None => None,
            Some(c) => match find_char(s, ')', c + 2) {
                None => None,
                Some(e) => if occurs_at(s, "gdoc:"@, c + 2) && c + 7 < e {
                    Some(Span { from: c + 7, to: e, next: e + 1 })
                } else {
                    None
                },
            },
        }
    }
}

/// A link `[text](url)`: the span of its text and the span of its address.
pub struct LinkSpan {
    pub text: Span,
    pub url: Span,
}

/// The link that starts at `p`, with neither text nor address empty.
pub open spec fn link_at(s: Seq<char>, p: int) -> Option<LinkSpan> {
    if p < 0 || p >= s.len() || s[p] != '[' {
        None
    } else {
        match find_char(s, ']', p + 1) {
            None => None,
            Some(c) => if c + 1 >= s.len() || s[c + 1] != '(' {
                None
            } else {
                match find_char(s, ')', c + 2) {
                    None => None,
                    Some(e) => if p + 1 < c && c + 2 < e {
                        Some(
                            LinkSpan {
                                text: Span { from: p + 1, to: c, next: e + 1 },
                                url: Span { from: c + 2, to: e, next: e + 1 },
                            },
                        )
                    } else {
                        None
                    },
                }
            },
        }
    }
}

/// A delimiter: `n` times the character `c`, and the marks that it sets.
pub struct Delim {
    pub c: char,
    pub n: usize,
    pub bold: bool,
    pub italic: bool,
    pub strikethrough: bool,
}

/// How many delimiters there are.
pub const DELIMS: usize = 7;

/// The delimiters in the order in which they are tried, the longest first.
pub open spec fn delim(k: int) -> Delim {
    if k == 0 {
        Delim { c: '*', n: 3, bold: true, italic: true, strikethrough: false }
    } else if k == 1 {
        Delim { c: '_', n: 3, bold: true, italic: true, strikethrough: false }
    } else if k == 2 {
        Delim { c: '*', n: 2, bold: true, italic: false, strikethrough: false }
    } else if k == 3 {
        Delim { c: '_', n: 2, bold: true, italic: false, strikethrough: false }
    } else if k == 4 {
        Delim { c: '~', n: 2, bold: false, italic: false, strikethrough: true }
    } else if k == 5 {
        Delim { c: '*', n: 1, bold: false, italic: true, strikethrough: false }
    } else {
        Delim { c: '_', n: 1, bold: false, italic: true, strikethrough: false }
    }
}

impl Delim {
    /// The delimiter as text.
    pub open spec fn mark(self) -> Seq<char> {
        repeat(self.c, self.n as nat)
    }

    /// The style inside the delimiter, where `style` is the one around it.
    pub open spec fn styled(self, style: TextStyle) -> TextStyle {
        TextStyle {
            bold: style.bold || self.bold,
            italic: style.italic || self.italic,
            strikethrough: style.strikethrough || self.strikethrough,
        }
    }
}

/// The closer of a delimiter that binds anywhere: the first one, unless nothing is
/// between it and the opener, which ends before `from`.
pub open spec fn closer(s: Seq<char>, d: Seq<char>, from: int) -> Option<int> {
    match find_from(s, d, from) {
        None => None,
        Some(e) => if e == from {
            None
        } else {
            Some(e)
        },
    }
}

/// The closer of a delimiter that does not bind inside a word: the first from `i`
/// on, searching without overlap, that encloses something and that no word
/// character follows.
pub open spec fn word_closer(s: Seq<char>, d: Seq<char>, from: int, i: int) -> Option<int>
    decreases s.len() + 1 - i,
{
    proof {
        if 0 <= i {
            lemma_find_from(s, d, i);
        }
    }
    match find_from(s, d, i) {
        None => None,
        Some(e) => if e != from && !(e + d.len() < s.len() && word_char(s[e + d.len()])) {
            Some(e)
        } else if d.len() == 0 {
            None
        } else {
            word_closer(s, d, from, e + d.len())
        },
    }
}

/// The span that the delimiter `d` encloses from `p` on. Underscores do not open
/// behind a word character.
pub open spec fn wrap_with(s: Seq<char>, p: int, d: Delim) -> Option<Span> {
    let m = d.mark();
    let from = p + m.len();
    if !occurs_at(s, m, p) || (d.c == '_' && 0 < p <= s.len() && word_char(s[p - 1])) {
        None
    } else {
        let close = if d.c == '_' {
            word_closer(s, m, from, from)
        } else {
            closer(s, m, from)
        };
        match close {
            None => None,
            Some(e) => Some(Span { from, to: e, next: e + m.len() }),
        }
    }
}

/// The first delimiter from the `k`-th on that encloses a span at `p`.
pub open spec fn wrap_from(s: Seq<char>, p: int, k: int) -> Option<(int, Span)>
    decreases DELIMS - k,
{
    if k < 0 || k >= DELIMS {
        None
    } else {
        match wrap_with(s, p, delim(k)) {
            Some(sp) => Some((k, sp)),
            None => wrap_from(s, p, k + 1),
        }
    }
}

/// A placeholder lies behind its start.
pub proof fn lemma_object_at(s: Seq<char>, p: int)
    requires
        0 <= p,
    ensures
        object_at(s, p) matches Some(sp) ==> sp.within(p, s.len() as int),
{
    reveal_strlit("![");
    reveal_strlit("](");
    reveal_strlit("gdoc:");
    lemma_find_from(s, "]("@, p + 2);
    if let Some(c) = find_from(s, "]("@, p + 2) {
        lemma_find_char(s, ')', c + 2);
    }
}

/// A link lies behind its start, and its address behind its text.
pub proof fn lemma_link_at(s: Seq<char>, p: int)
    requires
        0 <= p,
    ensures
        link_at(s, p) matches Some(l) ==> l.text.within(p, s.len() as int) && l.url.within(
            l.text.to,
            s.len() as int,
        ) && l.url.next == l.text.next,
{
    lemma_find_char(s, ']', p + 1);
    if let Some(c) = find_char(s, ']', p + 1) {
        lemma_find_char(s, ')', c + 2);
    }
}

/// The closer lies behind the opener.
pub proof fn lemma_word_closer(s: Seq<char>, d: Seq<char>, from: int, i: int)
    requires
        0 <= from <= i,
    ensures
        word_closer(s, d, from, i) matches Some(e) ==> from < e && e + d.len() <= s.len(),
    decreases s.len() + 1 - i,
{
    lemma_find_from(s, d, i);
    if let Some(e) = find_from(s, d, i) {
        if e != from && !(e + d.len() < s.len() && word_char(s[e + d.len()])) {
        } else if d.len() > 0 {
            lemma_word_closer(s, d, from, e + d.len());
        }
    }
}

/// What a delimiter encloses lies behind its start.
pub proof fn lemma_wrap_with(s: Seq<char>, p: int, d: Delim)
    requires
        0 <= p,
        d.n > 0,
    ensures
        wrap_with(s, p, d) matches Some(sp) ==> sp.within(p, s.len() as int),
{
    let m = d.mark();
    lemma_find_from(s, m, p + m.len());
    lemma_word_closer(s, m, p + m.len(), p + m.len());
}

/// The delimiter found encloses a span behind its start.
pub proof fn lemma_wrap_from(s: Seq<char>, p: int, k: int)
    requires
        0 <= p,
        0 <= k,
    ensures
        wrap_from(s, p, k) matches Some((j, sp)) ==> k <= j < DELIMS && sp.within(
            p,
            s.len() as int,
        ) && wrap_with(s, p, delim(j)) == Some(sp),
    decreases DELIMS - k,
{
    if k < DELIMS {
        lemma_wrap_with(s, p, delim(k));
        lemma_wrap_from(s, p, k + 1);
    }
}

/// What the inline markdown `s` holds from `p` on, inside text of this style and
/// link: its characters and objects in order, each with its marks.
pub open spec fn inline_content(
    s: Seq<char>,
    p: int,
    style: TextStyle,
    link: Option<Seq<char>>,
) -> Seq<RunV>
    decreases s.len(), s.len() - p,
{
    proof {
        if 0 <= p {
            lemma_object_at(s, p);
            lemma_link_at(s, p);
            lemma_wrap_from(s, p, 0);
        }
    }
    if p < 0 || p >= s.len() {
        Seq::empty()
    } else if let Some(sp) = object_at(s, p) {
        seq![object_run(s.subrange(sp.from, sp.to))] + inline_content(s, sp.next, style, link)
    } else if let Some(l) = link_at(s, p) {
        inline_content(
            s.subrange(l.text.from, l.text.to),
            0,
            style,
            Some(s.subrange(l.url.from, l.url.to)),
        ) + inline_content(s, l.text.next, style, link)
    } else if let Some((k, sp)) = wrap_from(s, p, 0) {
        inline_content(s.subrange(sp.from, sp.to), 0, delim(k).styled(style), link)
            + inline_content(s, sp.next, style, link)
    } else if s[p] == '\\' && p + 1 < s.len() {
        seq![atom(s[p + 1], style, link)] + inline_content(s, p + 2, style, link)
    } else {
        seq![atom(s[p], style, link)] + inline_content(s, p + 1, style, link)
    }
}

/// The runs of the inline markdown `s`.
pub open spec fn inline_runs(s: Seq<char>) -> Seq<RunV> {
    normalized(inline_content(s, 0, plain_style(), None))
}

/// Positions of a span in a slice.
struct Cut {
    from: usize,
    to: usize,
    next: usize,
}

impl Cut {
    spec fn is(self, sp: Span) -> bool {
        self.from == sp.from && self.to == sp.to && self.next == sp.next
    }
}

/// The object placeholder that starts at `p`.
fn try_object(s: &[char], p: usize) -> (r: Option<Cut>)
    requires
        p < s@.len(),
    ensures
        match r {
            Some(c) => object_at(s@, p as int) matches Some(sp) && c.is(sp),
            None => object_at(s@, p as int) is None,
        },
{
    proof {
        reveal_strlit("![");
        reveal_strlit("](");
        reveal_strlit("gdoc:");
    }
    if !str_at(s, "![", p) {
        return None;
    }
    assert(p + 2 <= s.len());
    proof {
        lemma_find_from(s@, "]("@, p + 2);
    }
    let c: usize = match find_str(s, "](", p + 2) {
        Some(c) => c,
        None => return None,
    };
    proof {
        lemma_find_char(s@, ')', c + 2);
    }
    let e: usize = match position(s, ')', c + 2) {
        Some(e) => e,
        None => return None,
    };
    if str_at(s, "gdoc:", c + 2) && 5 < e - (c + 2) {
        Some(Cut { from: c + 7, to: e, next: e + 1 })
    } else {
        None
    }
}

/// The link that starts at `p`: the places of its text and of its address.
fn try_link(s: &[char], p: usize) -> (r: Option<(Cut, Cut)>)
    requires
        p < s@.len(),
    ensures
        match r {
            Some((t, u)) => link_at(s@, p as int) matches Some(l) && t.is(l.text) && u.is(l.url),
            None => link_at(s@, p as int) is None,
        },
{
    if s[p] != '[' {
        return None;
    }
    proof {
        lemma_find_char(s@, ']', p + 1);
    }
    let c: usize = match position(s, ']', p + 1) {
        Some(c) => c,
        None => return None,
    };
    if s.len() - c < 2 || s[c + 1] != '(' {
        return None;
    }
    proof {
        lemma_find_char(s@, ')', c + 2);
    }
    let e: usize = match position(s, ')', c + 2) {
        Some(e) => e,
        None => return None,
    };
    if p + 1 < c && c + 2 < e {
        Some((Cut { from: p + 1, to: c, next: e + 1 }, Cut { from: c + 2, to: e, next: e + 1 }))
    } else {
        None
    }
}

/// The delimiter with this number.
fn delimiter(k: usize) -> (r: Delim)
    ensures
        r == delim(k as int),
        1 <= r.n <= 3,
{
    match k {
        0 => Delim { c: '*', n: 3, bold: true, italic: true, strikethrough: false },
        1 => Delim { c: '_', n: 3, bold: true, italic: true, strikethrough: false },
        2 => Delim { c: '*', n: 2, bold: true, italic: false, strikethrough: false },
        3 => Delim { c: '_', n: 2, bold: true, italic: false, strikethrough: false },
        4 => Delim { c: '~', n: 2, bold: false, italic: false, strikethrough: true },
        5 => Delim { c: '*', n: 1, bold: false, italic: true, strikethrough: false },
        _ => Delim { c: '_', n: 1, bold: false, italic: true, strikethrough: false },
    }
}

/// The span that the delimiter `m` encloses from `p` on: up to the next `m`, unless
/// that follows at once.
fn try_wrap(s: &[char], p: usize, m: &[char]) -> (r: Option<Cut>)
    requires
        p < s@.len(),
        0 < m@.len(),
        occurs_at(s@, m@, p as int),
    ensures
        match r {
            Some(c) => c.from == p + m@.len() && c.next == c.to + m@.len() && closer(
                s@,
                m@,
                p + m@.len(),
            ) == Some(c.to as int),
            None => closer(s@, m@, p + m@.len()) is None,
        },
{
    assert(p + m.len() <= s.len());
    let from: usize = p + m.len();
    proof {
        lemma_find_from(s@, m@, from as int);
    }
    match find(s, m, from) {
        None => None,
        Some(e) => if e == from {
            None
        } else {
            Some(Cut { from, to: e, next: e + m.len() })
        },
    }
}

/// Like `try_wrap`, for delimiters that do not bind inside a word: the closer must
/// not precede a word character, and intraword closers are passed over.
fn try_wrap_word(s: &[char], p: usize, m: &[char]) -> (r: Option<Cut>)
    requires
        p < s@.len(),
        0 < m@.len(),
        occurs_at(s@, m@, p as int),
    ensures
        match r {
            Some(c) => c.from == p + m@.len() && c.next == c.to + m@.len() && word_closer(
                s@,
                m@,
                p + m@.len(),
                p + m@.len(),
            ) == Some(c.to as int),
            None => word_closer(s@, m@, p + m@.len(), p + m@.len()) is None,
        },
{
    let n: usize = s.len();
    let w: usize = m.len();
    let from: usize = p + w;
    let mut search: usize = from;
    loop
        invariant
            n == s@.len(),
            w == m@.len(),
            0 < w,
            from == p + w,
            from <= search <= n,
            word_closer(s@, m@, from as int, from as int) == word_closer(
                s@,
                m@,
                from as int,
                search as int,
            ),
        decreases n - search,
    {
        proof {
            lemma_find_from(s@, m@, search as int);
        }
        match find(s, m, search) {
            None => {
                return None;
            },
            Some(e) => {
                let after: usize = e + w;
                if e != from && !(after < n && is_word(s[after])) {
                    return Some(Cut { from, to: e, next: after });
                }
                search = after;
            },
        }
    }
}

/// The first delimiter that encloses a span at `p`, and the span.
fn try_wraps(s: &[char], p: usize) -> (r: Option<(Delim, Cut)>)
    requires
        p < s@.len(),
    ensures
        match r {
            Some((d, c)) => wrap_from(s@, p as int, 0) matches Some((k, sp)) && d == delim(k) && c.is(
                sp,
            ),
            None => wrap_from(s@, p as int, 0) is None,
        },
{
    let mut k: usize = 0;
    while k < DELIMS
        invariant
            p < s@.len(),
            k <= DELIMS,
            wrap_from(s@, p as int, 0) == wrap_from(s@, p as int, k as int),
        decreases DELIMS - k,
    {
        let d = delimiter(k);
        let mut m: Vec<char> = Vec::new();
        push_repeat(&mut m, d.c, d.n);
        assert(m@ =~= d.mark());
        let blocked = d.c == '_' && p > 0 && is_word(s[p - 1]);
        if !blocked && stands_at(s, m.as_slice(), p) {
            let cut = if d.c == '_' {
                try_wrap_word(s, p, m.as_slice())
            } else {
                try_wrap(s, p, m.as_slice())
            };
            if let Some(c) = cut {
                return Some((d, c));
            }
        }
        k = k + 1;
    }
    None
}

/// The run that the characters `buf` make up.
spec fn buffered(buf: Seq<char>, style: TextStyle, link: Option<Seq<char>>) -> RunV {
    RunV { text: buf, style, link, object: None }
}

/// Move the collected characters to the end of `out` as a run.
fn flush(buf: &mut Vec<char>, style: TextStyle, link: &Option<String>, out: &mut Vec<Run>)
    ensures
        final(buf)@.len() == 0,
        normalized(run_views(final(out)@)) == absorb(
            normalized(run_views(old(out)@)),
            buffered(old(buf)@, style, opt_view(*link)),
        ),
{
    if buf.len() > 0 {
        let r = Run { text: to_text(buf.as_slice()), style, link: copy_opt(link), object: None };
        assert(r@ =~= buffered(old(buf)@, style, opt_view(*link)));
        out.push(r);
        assert(run_views(out@).drop_last() =~= run_views(old(out)@));
        assert(run_views(out@).last() == r@);
        buf.clear();
    }
}

/// Parse `s` inside text of this style and link, appending what it holds to `out`.
fn parse_into(s: &[char], style: TextStyle, link: &Option<String>, out: &mut Vec<Run>)
    ensures
        normalized(run_views(final(out)@)) == absorb_all(
            normalized(run_views(old(out)@)),
            inline_content(s@, 0, style, opt_view(*link)),
        ),
    decreases s@.len(),
{
    let n: usize = s.len();
    let mut buf: Vec<char> = Vec::new();
    let mut p: usize = 0;
    let ghost lk = opt_view(*link);
    let ghost start = normalized(run_views(out@));
    let ghost goal = absorb_all(start, inline_content(s@, 0, style, lk));
    while p < n
        invariant
            n == s@.len(),
            p <= n,
            lk == opt_view(*link),
            goal == absorb_all(
                absorb(normalized(run_views(out@)), buffered(buf@, style, lk)),
                inline_content(s@, p as int, style, lk),
            ),
        decreases n - p,
    {
        let ghost so_far = absorb(normalized(run_views(out@)), buffered(buf@, style, lk));
        proof {
            lemma_object_at(s@, p as int);
            lemma_link_at(s@, p as int);
            lemma_wrap_from(s@, p as int, 0);
        }
        // An inline object placeholder.
        if let Some(c) = try_object(s, p) {
            flush(&mut buf, style, link, out);
            let ghost flushed = run_views(out@);
            let desc = to_text(slice_subrange(s, c.from, c.to));
            out.push(Run::object(desc.as_str()));
            proof {
                let o = object_run(desc@);
                assert(run_views(out@).drop_last() =~= flushed);
                assert(run_views(out@).last() == o);
                lemma_absorb_one(so_far, o);
                lemma_absorb_all_add(
                    so_far,
                    seq![o],
                    inline_content(s@, c.next as int, style, lk),
                );
            }
            p = c.next;
            continue;
        }
        // A link: the inner text keeps its own marks and gains the link.
        if let Some((t, u)) = try_link(s, p) {
            flush(&mut buf, style, link, out);
            let url = to_text(slice_subrange(s, u.from, u.to));
            let inner = slice_subrange(s, t.from, t.to);
            let some_url = Some(url);
            parse_into(inner, style, &some_url, out);
            proof {
                lemma_absorb_all_add(
                    so_far,
                    inline_content(inner@, 0, style, opt_view(some_url)),
                    inline_content(s@, t.next as int, style, lk),
                );
            }
            p = t.next;
            continue;
        }
        if let Some((d, c)) = try_wraps(s, p) {
            flush(&mut buf, style, link, out);
            let inner_style = TextStyle {
                bold: style.bold || d.bold,
                italic: style.italic || d.italic,
                strikethrough: style.strikethrough || d.strikethrough,
            };
            let inner = slice_subrange(s, c.from, c.to);
            parse_into(inner, inner_style, link, out);
            proof {
                lemma_absorb_all_add(
                    so_far,
                    inline_content(inner@, 0, inner_style, lk),
                    inline_content(s@, c.next as int, style, lk),
                );
            }
            p = c.next;
            continue;
        }
        // A backslash escapes the next character.
        let ghost was = buf@;
        let mut q: usize = p;
        if s[p] == '\\' && n - p > 1 {
            q = p + 1;
        }
        buf.push(s[q]);
        proof {
            let a = atom(s@[q as int], style, lk);
            lemma_absorb_buffered(normalized(run_views(out@)), was, s@[q as int], style, lk);
            lemma_absorb_one(so_far, a);
            lemma_absorb_all_add(so_far, seq![a], inline_content(s@, q + 1, style, lk));
        }
        p = q + 1;
    }
    flush(&mut buf, style, link, out);
}

/// A character behind the collected ones is one more collected character.
proof fn lemma_absorb_buffered(
    out: Seq<RunV>,
    buf: Seq<char>,
    c: char,
    style: TextStyle,
    link: Option<Seq<char>>,
)
    ensures
        absorb(out, buffered(buf.push(c), style, link)) == absorb(
            absorb(out, buffered(buf, style, link)),
            atom(c, style, link),
        ),
{
    lemma_absorb_atoms(out, buf, style, link);
    lemma_absorb_atoms(out, buf.push(c), style, link);
    assert(atoms(buf.push(c), style, link).drop_last() =~= atoms(buf, style, link));
}

/// Parse inline markdown into styled runs: `**bold**`, `*italic*`, `~~strike~~`,
/// `[text](url)`, object placeholders and backslash escapes; underscores work as
/// asterisks do, but not inside words.
pub fn parse_inline(s: &str) -> (r: Vec<Run>)
    ensures
        run_views(r@) == inline_runs(s@),
{
    let cs = to_chars(s);
    parse_chars(cs.as_slice())
}

/// [`parse_inline`] on characters.
pub fn parse_chars(s: &[char]) -> (r: Vec<Run>)
    ensures
        run_views(r@) == inline_runs(s@),
{
    let mut runs: Vec<Run> = Vec::new();
    assert(run_views(runs@) =~= Seq::<RunV>::empty());
    parse_into(
        s,
        TextStyle { bold: false, italic: false, strikethrough: false },
        &None,
        &mut runs,
    );
    normalize_runs(runs)
}

} // verus!
