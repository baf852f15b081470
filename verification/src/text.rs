//! Character-level helpers: every parser of the library works on sequences of
//! characters, so the string operations it needs are written and proved here.
use vstd::prelude::*;
use vstd::slice::slice_subrange;

verus! {

// ---------------------------------------------------------------------------
// Strings and character vectors
// ---------------------------------------------------------------------------

/// `String::push` of the standard library appends one character.
pub assume_specification[ String::push ](s: &mut String, c: char)
    ensures
        final(s)@ == old(s)@.push(c),
;

/// The characters of `s`.
pub fn to_chars(s: &str) -> (r: Vec<char>)
    ensures
        r@ == s@,
{
    let mut v: Vec<char> = Vec::new();
    for c in it: s.chars()
        invariant
            it.seq() == s@,
            v@ == s@.take(it.index()),
    {
        v.push(c);
        assert(v@ =~= s@.take(it.index() + 1));
    }
    assert(s@.take(s@.len() as int) =~= s@);
    v
}

/// The string made of the characters of `v`.
pub fn to_text(v: &[char]) -> (r: String)
    ensures
        r@ == v@,
{
    let mut s = String::new();
    let n: usize = v.len();
    for i in 0..n
        invariant
            n == v@.len(),
            s@ == v@.take(i as int),
    {
        s.push(v[i]);
        assert(s@ =~= v@.take(i + 1));
    }
    assert(v@.take(n as int) =~= v@);
    s
}

/// Append the characters of `s` to `v`.
pub fn push_str(v: &mut Vec<char>, s: &str)
    ensures
        final(v)@ == old(v)@ + s@,
{
    let mut cs = to_chars(s);
    v.append(&mut cs);
}

/// Append the characters of `s` to `v`.
pub fn push_chars(v: &mut Vec<char>, s: &[char])
    ensures
        final(v)@ == old(v)@ + s@,
{
    let n: usize = s.len();
    for i in 0..n
        invariant
            n == s@.len(),
            v@ == old(v)@ + s@.take(i as int),
    {
        v.push(s[i]);
        assert(v@ =~= old(v)@ + s@.take(i + 1));
    }
    assert(s@.take(n as int) =~= s@);
}

/// Whether two character sequences are equal.
pub fn same_chars(a: &[char], b: &[char]) -> (r: bool)
    ensures
        r == (a@ == b@),
{
    if a.len() != b.len() {
        return false;
    }
    let n: usize = a.len();
    for i in 0..n
        invariant
            n == a@.len(),
            n == b@.len(),
            a@.take(i as int) == b@.take(i as int),
    {
        if a[i] != b[i] {
            assert(a@[i as int] != b@[i as int]);
            return false;
        }
        assert(a@.take(i + 1) =~= a@.take(i as int).push(a@[i as int]));
        assert(b@.take(i + 1) =~= b@.take(i as int).push(b@[i as int]));
    }
    assert(a@.take(n as int) =~= a@);
    assert(b@.take(n as int) =~= b@);
    true
}

/// Whether the characters `a` spell the string `b`.
pub fn spells(a: &[char], b: &str) -> (r: bool)
    ensures
        r == (a@ == b@),
{
    let cs = to_chars(b);
    same_chars(a, cs.as_slice())
}

/// Whether two strings hold the same characters.
pub fn same_text(a: &str, b: &str) -> (r: bool)
    ensures
        r == (a@ == b@),
{
    let x = to_chars(a);
    spells(x.as_slice(), b)
}

// ---------------------------------------------------------------------------
// Character classes
// ---------------------------------------------------------------------------

/// The characters with Unicode's White_Space property.
pub open spec fn white_space(c: char) -> bool {
    let x = c as u32;
    ||| 0x9 <= x <= 0xd
    ||| x == 0x20
    ||| x == 0x85
    ||| x == 0xa0
    ||| x == 0x1680
    ||| 0x2000 <= x <= 0x200a
    ||| x == 0x2028
    ||| x == 0x2029
    ||| x == 0x202f
    ||| x == 0x205f
    ||| x == 0x3000
}

/// Whether the character has the White_Space property.
pub fn is_whitespace(c: char) -> (r: bool)
    ensures
        r == white_space(c),
{
    let x: u32 = c as u32;
    (0x9 <= x && x <= 0xd) || x == 0x20 || x == 0x85 || x == 0xa0 || x == 0x1680 || (0x2000 <= x
        && x <= 0x200a) || x == 0x2028 || x == 0x2029 || x == 0x202f || x == 0x205f || x == 0x3000
}

/// What `char::is_alphanumeric` answers: whether the Unicode tables class the
/// character as alphabetic or numeric.
pub uninterp spec fn alphanumeric(c: char) -> bool;

/// `char::is_alphanumeric`; its answer depends on the character alone.
#[verifier::external_body]
pub(crate) fn is_alphanumeric(c: char) -> (r: bool)
    ensures
        r == alphanumeric(c),
{
    c.is_alphanumeric()
}

/// A character that an underscore next to it belongs to a word with.
pub open spec fn word_char(c: char) -> bool {
    alphanumeric(c) || c == '_'
}

/// Whether `c` is a word character: alphanumeric or an underscore.
pub fn is_word(c: char) -> (r: bool)
    ensures
        r == word_char(c),
{
    c == '_' || is_alphanumeric(c)
}

pub open spec fn ascii_digit(c: char) -> bool {
    '0' <= c && c <= '9'
}

// ---------------------------------------------------------------------------
// Searching
// ---------------------------------------------------------------------------

/// `pat` stands in `s` at position `i`.
pub open spec fn occurs_at(s: Seq<char>, pat: Seq<char>, i: int) -> bool {
    &&& 0 <= i
    &&& i + pat.len() <= s.len()
    &&& s.subrange(i, i + pat.len()) == pat
}

/// The first position from `i` on at which `pat` stands in `s`.
pub open spec fn find_from(s: Seq<char>, pat: Seq<char>, i: int) -> Option<int>
    decreases s.len() + 1 - i,
{
    if i < 0 || i + pat.len() > s.len() {
        None
    } else if occurs_at(s, pat, i) {
        Some(i)
    } else {
        find_from(s, pat, i + 1)
    }
}

/// `find_from` gives the least position at which the pattern stands.
pub proof fn lemma_find_from(s: Seq<char>, pat: Seq<char>, i: int)
    requires
        0 <= i,
    ensures
        match find_from(s, pat, i) {
            Some(k) => i <= k && occurs_at(s, pat, k) && forall|j: int|
                i <= j < k ==> !#[trigger] occurs_at(s, pat, j),
            None => forall|j: int| i <= j ==> !#[trigger] occurs_at(s, pat, j),
        },
    decreases s.len() + 1 - i,
{
    if i + pat.len() > s.len() {
    } else if occurs_at(s, pat, i) {
    } else {
        lemma_find_from(s, pat, i + 1);
    }
}

/// A position at which the pattern stands, with no earlier one, is what
/// `find_from` gives.
pub proof fn lemma_find_is(s: Seq<char>, pat: Seq<char>, i: int, k: int)
    requires
        0 <= i <= k,
        occurs_at(s, pat, k),
        forall|j: int| i <= j < k ==> !#[trigger] occurs_at(s, pat, j),
    ensures
        find_from(s, pat, i) == Some(k),
{
    lemma_find_from(s, pat, i);
}

/// Whether `pat` stands in `s` at `i`.
pub fn stands_at(s: &[char], pat: &[char], i: usize) -> (r: bool)
    ensures
        r == occurs_at(s@, pat@, i as int),
{
    let n: usize = s.len();
    let m: usize = pat.len();
    if i > n || m > n - i {
        return false;
    }
    let w = slice_subrange(s, i, i + m);
    same_chars(w, pat)
}

/// Whether the string `pat` stands in `s` at `i`.
pub fn str_at(s: &[char], pat: &str, i: usize) -> (r: bool)
    ensures
        r == occurs_at(s@, pat@, i as int),
{
    let cs = to_chars(pat);
    stands_at(s, cs.as_slice(), i)
}

/// The first position from `i` on at which `pat` stands in `s`.
pub fn find(s: &[char], pat: &[char], i: usize) -> (r: Option<usize>)
    ensures
        match r {
            Some(k) => find_from(s@, pat@, i as int) == Some(k as int),
            None => find_from(s@, pat@, i as int) is None,
        },
{
    let n: usize = s.len();
    let m: usize = pat.len();
    let mut k: usize = i;
    while k <= n && m <= n - k
        invariant
            n == s@.len(),
            m == pat@.len(),
            i <= k,
            k <= n + 1 || k == i,
            find_from(s@, pat@, i as int) == find_from(s@, pat@, k as int),
        decreases n + 1 - k,
    {
        if stands_at(s, pat, k) {
            return Some(k);
        }
        if k == n {
            assert(find_from(s@, pat@, k + 1) is None);
            return None;
        }
        k = k + 1;
    }
    None
}

/// The first position from `i` on at which the string `pat` stands in `s`.
pub fn find_str(s: &[char], pat: &str, i: usize) -> (r: Option<usize>)
    ensures
        match r {
            Some(k) => find_from(s@, pat@, i as int) == Some(k as int),
            None => find_from(s@, pat@, i as int) is None,
        },
{
    let cs = to_chars(pat);
    find(s, cs.as_slice(), i)
}

/// Whether the text `s` holds the text `pat` anywhere.
pub open spec fn holds(s: Seq<char>, pat: Seq<char>) -> bool {
    find_from(s, pat, 0) is Some
}

/// Whether the string `s` holds the string `pat`.
pub fn contains_str(s: &str, pat: &str) -> (r: bool)
    ensures
        r == holds(s@, pat@),
{
    let cs = to_chars(s);
    find_str(cs.as_slice(), pat, 0).is_some()
}

/// The first position from `i` on at which `c` stands in `s`.
pub open spec fn find_char(s: Seq<char>, c: char, i: int) -> Option<int>
    decreases s.len() - i,
{
    if i < 0 || i >= s.len() {
        None
    } else if s[i] == c {
        Some(i)
    } else {
        find_char(s, c, i + 1)
    }
}

/// `find_char` gives the least position that holds the character.
pub proof fn lemma_find_char(s: Seq<char>, c: char, i: int)
    requires
        0 <= i,
    ensures
        match find_char(s, c, i) {
            Some(k) => i <= k < s.len() && s[k] == c && forall|j: int|
                i <= j < k ==> #[trigger] s[j] != c,
            None => forall|j: int| i <= j < s.len() ==> #[trigger] s[j] != c,
        },
    decreases s.len() - i,
{
    if i < s.len() && s[i] != c {
        lemma_find_char(s, c, i + 1);
    }
}

/// The first position from `i` on at which `c` stands in `s`.
pub fn position(s: &[char], c: char, i: usize) -> (r: Option<usize>)
    ensures
        match r {
            Some(k) => find_char(s@, c, i as int) == Some(k as int) && i <= k < s@.len(),
            None => find_char(s@, c, i as int) is None,
        },
{
    let n: usize = s.len();
    let mut k: usize = i;
    while k < n
        invariant
            n == s@.len(),
            i <= k,
            find_char(s@, c, i as int) == find_char(s@, c, k as int),
        decreases n - k,
    {
        if s[k] == c {
            return Some(k);
        }
        k = k + 1;
    }
    None
}

// ---------------------------------------------------------------------------
// Trimming, splitting and joining
// ---------------------------------------------------------------------------

/// `s` without the white space at its front.
pub open spec fn trim_start(s: Seq<char>) -> Seq<char>
    decreases s.len(),
{
    if s.len() > 0 && white_space(s[0]) {
        trim_start(s.skip(1))
    } else {
        s
    }
}

/// `s` without the white space at its end.
pub open spec fn trim_end(s: Seq<char>) -> Seq<char>
    decreases s.len(),
{
    if s.len() > 0 && white_space(s.last()) {
        trim_end(s.drop_last())
    } else {
        s
    }
}

/// `s` without the white space at either end.
pub open spec fn trim(s: Seq<char>) -> Seq<char> {
    trim_end(trim_start(s))
}

/// The part of `s` that is left when white space is taken off its front.
pub fn trimmed_start(s: &[char]) -> (r: &[char])
    ensures
        r@ == trim_start(s@),
{
    let n: usize = s.len();
    let mut a: usize = 0;
    assert(s@.skip(0) =~= s@);
    while a < n && is_whitespace(s[a])
        invariant
            n == s@.len(),
            a <= n,
            trim_start(s@) == trim_start(s@.skip(a as int)),
        decreases n - a,
    {
        assert(s@.skip(a as int).skip(1) =~= s@.skip(a + 1));
        a = a + 1;
    }
    assert(s@.skip(a as int) =~= s@.subrange(a as int, n as int));
    slice_subrange(s, a, n)
}

/// The part of `s` that is left when white space is taken off its end.
pub fn trimmed_end(s: &[char]) -> (r: &[char])
    ensures
        r@ == trim_end(s@),
{
    let mut b: usize = s.len();
    assert(s@.take(b as int) =~= s@);
    while b > 0 && is_whitespace(s[b - 1])
        invariant
            b <= s@.len(),
            trim_end(s@) == trim_end(s@.take(b as int)),
        decreases b,
    {
        assert(s@.take(b as int).drop_last() =~= s@.take(b - 1));
        b = b - 1;
    }
    assert(s@.take(b as int) =~= s@.subrange(0, b as int));
    slice_subrange(s, 0, b)
}

/// The part of `s` that is left when white space is taken off both ends.
pub fn trimmed(s: &[char]) -> (r: &[char])
    ensures
        r@ == trim(s@),
{
    trimmed_end(trimmed_start(s))
}

/// `s` with its indentation, the leading spaces and tabs, cut off.
pub open spec fn unindent(s: Seq<char>) -> Seq<char>
    decreases s.len(),
{
    if s.len() > 0 && (s[0] == ' ' || s[0] == '\t') {
        unindent(s.skip(1))
    } else {
        s
    }
}

/// Columns that the leading spaces and tabs take up; a tab is four wide.
pub open spec fn indent_width(s: Seq<char>) -> nat
    decreases s.len(),
{
    if s.len() > 0 && s[0] == ' ' {
        1 + indent_width(s.skip(1))
    } else if s.len() > 0 && s[0] == '\t' {
        4 + indent_width(s.skip(1))
    } else {
        0
    }
}

/// The characters of each vector.
pub open spec fn char_views(v: Seq<Vec<char>>) -> Seq<Seq<char>> {
    Seq::new(v.len(), |i: int| v[i]@)
}

/// A line without the carriage return that its line feed followed.
pub open spec fn strip_cr(s: Seq<char>) -> Seq<char> {
    if s.len() > 0 && s.last() == '\r' {
        s.drop_last()
    } else {
        s
    }
}

/// The lines of a text: each ends at a line feed, alone or behind a carriage
/// return, and the last one may end with the text.
pub open spec fn lines(s: Seq<char>) -> Seq<Seq<char>>
    decreases s.len(),
{
    if s.len() == 0 {
        Seq::empty()
    } else {
        match find_char(s, '\n', 0) {
            None => seq![s],
            Some(k) => if 0 <= k < s.len() {
                seq![strip_cr(s.take(k))] + lines(s.skip(k + 1))
            } else {
                seq![s]
            },
        }
    }
}

/// The lines of `s`.
pub fn split_lines(s: &[char]) -> (r: Vec<Vec<char>>)
    ensures
        char_views(r@) == lines(s@),
{
    let n: usize = s.len();
    let mut out: Vec<Vec<char>> = Vec::new();
    let mut a: usize = 0;
    assert(s@.skip(0) =~= s@);
    assert(char_views(out@) =~= Seq::<Seq<char>>::empty());
    while a < n
        invariant
            n == s@.len(),
            a <= n,
            char_views(out@) + lines(s@.skip(a as int)) == lines(s@),
        decreases n - a,
    {
        let ghost rest = s@.skip(a as int);
        let ghost before = out@;
        let mut line: Vec<char> = Vec::new();
        let tail = slice_subrange(s, a, n);
        assert(tail@ =~= rest);
        match position(tail, '\n', 0) {
            None => {
                push_chars(&mut line, tail);
                assert(line@ =~= rest);
                out.push(line);
                assert(char_views(out@) =~= char_views(before).push(rest));
                assert(char_views(out@) =~= char_views(before) + lines(rest));
                a = n;
                assert(s@.skip(n as int) =~= Seq::<char>::empty());
                assert(lines(s@.skip(n as int)) =~= Seq::<Seq<char>>::empty());
                assert(char_views(out@) + lines(s@.skip(a as int)) =~= lines(s@));
            },
            Some(k) => {
                let mut b: usize = k;
                if k > 0 && tail[k - 1] == '\r' {
                    b = k - 1;
                }
                push_chars(&mut line, slice_subrange(tail, 0, b));
                assert(line@ =~= strip_cr(rest.take(k as int)));
                out.push(line);
                assert(char_views(out@) =~= char_views(before).push(strip_cr(rest.take(k as int))));
                assert(rest.skip(k + 1) =~= s@.skip(a + k + 1));
                assert(char_views(before) + (seq![strip_cr(rest.take(k as int))] + lines(rest.skip(k + 1)))
                    =~= char_views(out@) + lines(rest.skip(k + 1)));
                a = a + k + 1;
            },
        }
    }
    assert(s@.skip(n as int) =~= Seq::<char>::empty());
    assert(char_views(out@) + lines(s@.skip(a as int)) =~= char_views(out@));
    out
}

/// The pieces of `s` between the occurrences of `c`.
pub open spec fn split(s: Seq<char>, c: char) -> Seq<Seq<char>>
    decreases s.len(),
{
    match find_char(s, c, 0) {
        None => seq![s],
        Some(k) => if 0 <= k < s.len() {
            seq![s.take(k)] + split(s.skip(k + 1), c)
        } else {
            seq![s]
        },
    }
}

/// The pieces of `s` between the occurrences of `c`.
pub fn split_chars(s: &[char], c: char) -> (r: Vec<Vec<char>>)
    ensures
        char_views(r@) == split(s@, c),
{
    let n: usize = s.len();
    let mut out: Vec<Vec<char>> = Vec::new();
    let mut a: usize = 0;
    assert(s@.skip(0) =~= s@);
    assert(char_views(out@) + split(s@, c) =~= split(s@, c));
    loop
        invariant
            n == s@.len(),
            a <= n,
            char_views(out@) + split(s@.skip(a as int), c) == split(s@, c),
        decreases n - a,
    {
        let ghost rest = s@.skip(a as int);
        let ghost before = out@;
        let tail = slice_subrange(s, a, n);
        assert(tail@ =~= rest);
        let mut piece: Vec<char> = Vec::new();
        match position(tail, c, 0) {
            None => {
                push_chars(&mut piece, tail);
                assert(piece@ =~= rest);
                out.push(piece);
                assert(char_views(out@) =~= char_views(before) + seq![rest]);
                return out;
            },
            Some(k) => {
                push_chars(&mut piece, slice_subrange(tail, 0, k));
                assert(piece@ =~= rest.take(k as int));
                out.push(piece);
                assert(rest.skip(k + 1) =~= s@.skip(a + k + 1));
                assert(char_views(out@) + split(rest.skip(k + 1), c) =~= char_views(before) + (seq![
                    rest.take(k as int),
                ] + split(rest.skip(k + 1), c)));
                a = a + k + 1;
            },
        }
    }
}

/// The pieces joined with `sep` between them.
pub open spec fn join(parts: Seq<Seq<char>>, sep: Seq<char>) -> Seq<char>
    decreases parts.len(),
{
    if parts.len() == 0 {
        Seq::empty()
    } else if parts.len() == 1 {
        parts[0]
    } else {
        join(parts.drop_last(), sep) + sep + parts.last()
    }
}

/// The pieces joined with `sep` between them.
pub fn joined(parts: &Vec<Vec<char>>, sep: &str) -> (r: Vec<char>)
    ensures
        r@ == join(char_views(parts@), sep@),
{
    let n: usize = parts.len();
    let mut out: Vec<char> = Vec::new();
    let ghost all = char_views(parts@);
    assert(all.take(0) =~= Seq::<Seq<char>>::empty());
    for i in 0..n
        invariant
            n == parts@.len(),
            all == char_views(parts@),
            out@ == join(all.take(i as int), sep@),
    {
        if i > 0 {
            push_str(&mut out, sep);
        }
        push_chars(&mut out, parts[i].as_slice());
        assert(all.take(i + 1).drop_last() =~= all.take(i as int));
        assert(out@ =~= join(all.take(i + 1), sep@));
    }
    assert(all.take(n as int) =~= all);
    out
}

/// `n` copies of `c`.
pub open spec fn repeat(c: char, n: nat) -> Seq<char> {
    Seq::new(n, |i: int| c)
}

/// Append `n` copies of `c`.
pub fn push_repeat(v: &mut Vec<char>, c: char, n: usize)
    ensures
        final(v)@ == old(v)@ + repeat(c, n as nat),
{
    let mut i: usize = 0;
    assert(v@ =~= old(v)@ + repeat(c, 0));
    while i < n
        invariant
            i <= n,
            v@ == old(v)@ + repeat(c, i as nat),
        decreases n - i,
    {
        v.push(c);
        i = i + 1;
        assert(v@ =~= old(v)@ + repeat(c, i as nat));
    }
}

// ---------------------------------------------------------------------------
// UTF-16
// ---------------------------------------------------------------------------

/// UTF-16 code units that the character takes up.
pub open spec fn units(c: char) -> nat {
    if c as u32 >= 0x10000 {
        2
    } else {
        1
    }
}

/// UTF-16 code units that the text takes up.
pub open spec fn utf16_len(s: Seq<char>) -> nat
    decreases s.len(),
{
    if s.len() == 0 {
        0
    } else {
        utf16_len(s.drop_last()) + units(s.last())
    }
}

/// The length of a concatenation is the sum of the lengths.
pub proof fn lemma_utf16_len_add(a: Seq<char>, b: Seq<char>)
    ensures
        utf16_len(a + b) == utf16_len(a) + utf16_len(b),
    decreases b.len(),
{
    if b.len() == 0 {
        assert(a + b =~= a);
    } else {
        assert((a + b).drop_last() =~= a + b.drop_last());
        lemma_utf16_len_add(a, b.drop_last());
    }
}

/// A prefix is no longer than the whole.
pub proof fn lemma_utf16_len_prefix(s: Seq<char>, i: int)
    requires
        0 <= i <= s.len(),
    ensures
        utf16_len(s.take(i)) <= utf16_len(s),
        utf16_len(s) == utf16_len(s.take(i)) + utf16_len(s.skip(i)),
{
    assert(s =~= s.take(i) + s.skip(i));
    lemma_utf16_len_add(s.take(i), s.skip(i));
}

/// UTF-16 code units of `c`.
pub fn len_utf16(c: char) -> (r: usize)
    ensures
        r == units(c),
{
    if c as u32 >= 0x10000 {
        2
    } else {
        1
    }
}

/// Length of `s` in UTF-16 code units, the unit that document indices count
/// in: an astral character is one character and two units.
pub fn u16_len(s: &str) -> (r: usize)
    requires
        utf16_len(s@) <= usize::MAX,
    ensures
        r == utf16_len(s@),
{
    let cs = to_chars(s);
    let n: usize = cs.len();
    let mut acc: usize = 0;
    assert(cs@.take(0) =~= Seq::<char>::empty());
    for i in 0..n
        invariant
            n == cs@.len(),
            cs@ == s@,
            utf16_len(s@) <= usize::MAX,
            acc == utf16_len(cs@.take(i as int)),
    {
        proof {
            lemma_utf16_len_prefix(s@, i + 1);
            assert(cs@.take(i + 1).drop_last() =~= cs@.take(i as int));
        }
        acc = acc + len_utf16(cs[i]);
    }
    assert(cs@.take(n as int) =~= cs@);
    acc
}

/// Cumulative UTF-16 offsets by character position: entry `i` is the number of
/// units in the first `i` characters.
pub fn utf16_prefix(s: &[char]) -> (r: Vec<usize>)
    requires
        utf16_len(s@) <= usize::MAX,
    ensures
        r@.len() == s@.len() + 1,
        forall|i: int| 0 <= i <= s@.len() ==> #[trigger] r@[i] == utf16_len(s@.take(i)),
{
    let n: usize = s.len();
    let mut prefix: Vec<usize> = Vec::new();
    let mut acc: usize = 0;
    prefix.push(0);
    assert(s@.take(0) =~= Seq::<char>::empty());
    for k in 0..n
        invariant
            n == s@.len(),
            utf16_len(s@) <= usize::MAX,
            acc == utf16_len(s@.take(k as int)),
            prefix@.len() == k + 1,
            forall|i: int| 0 <= i <= k ==> #[trigger] prefix@[i] == utf16_len(s@.take(i)),
    {
        proof {
            lemma_utf16_len_prefix(s@, k + 1);
            assert(s@.take(k + 1).drop_last() =~= s@.take(k as int));
        }
        acc = acc + len_utf16(s[k]);
        prefix.push(acc);
    }
    prefix
}

} // verus!
