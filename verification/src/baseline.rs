//! The stored baseline: the revision and the markdown at which the file and the document
//! last agreed, one record for each pair of document and file.
use crate::model::{opt_view, same_opt};
use crate::text::to_text;
use vstd::prelude::*;
use vstd::utf8::encode_utf8;

verus! {

pub const FNV_OFFSET: u64 = 0xcbf2_9ce4_8422_2325;

pub const FNV_PRIME: u64 = 0x0000_0100_0000_01b3;

/// The 64-bit FNV-1a hash.
pub open spec fn fnv1a(bytes: Seq<u8>) -> u64
    decreases bytes.len(),
{
    if bytes.len() == 0 {
        FNV_OFFSET
    } else {
        (((fnv1a(bytes.drop_last()) ^ bytes.last() as u64) as nat * FNV_PRIME as nat)
            % 0x1_0000_0000_0000_0000nat) as u64
    }
}

/// The hash starts from its offset, and takes in one byte after the other: by exclusive or,
/// and then a product with its prime.
pub proof fn law_fnv(bytes: Seq<u8>, b: u8)
    ensures
        fnv1a(Seq::empty()) == 0xcbf2_9ce4_8422_2325u64,
        fnv1a(bytes.push(b)) == (((fnv1a(bytes) ^ b as u64) as nat * 0x100_0000_01b3nat)
            % 0x1_0000_0000_0000_0000nat) as u64,
{
    assert(bytes.push(b).drop_last() =~= bytes);
}

/// A hexadecimal digit.
pub open spec fn hex_digit(d: nat) -> char {
    if d < 10 {
        ('0' as u32 + d) as char
    } else {
        ('a' as u32 + (d - 10)) as char
    }
}

/// The last `n` hexadecimal digits of a number.
pub open spec fn hex(h: nat, n: nat) -> Seq<char>
    decreases n,
{
    if n == 0 {
        Seq::empty()
    } else {
        hex(h / 16, (n - 1) as nat).push(hex_digit(h % 16))
    }
}

/// The hexadecimal digit of a number below 16.
fn digit(d: u64) -> (r: char)
    requires
        d < 16,
    ensures
        r == hex_digit(d as nat),
{
    match d {
        0 => '0',
        1 => '1',
        2 => '2',
        3 => '3',
        4 => '4',
        5 => '5',
        6 => '6',
        7 => '7',
        8 => '8',
        9 => '9',
        10 => 'a',
        11 => 'b',
        12 => 'c',
        13 => 'd',
        14 => 'e',
        _ => 'f',
    }
}

/// Append the last `n` hexadecimal digits of `h`.
fn push_hex(out: &mut Vec<char>, h: u64, n: usize)
    ensures
        final(out)@ == old(out)@ + hex(h as nat, n as nat),
    decreases n,
{
    if n > 0 {
        push_hex(out, h / 16, n - 1);
        out.push(digit(h % 16));
        assert((h / 16) as nat == h as nat / 16);
        assert((h % 16) as nat == h as nat % 16);
        assert(out@ =~= old(out)@ + hex(h as nat, n as nat));
    } else {
        assert(out@ =~= old(out)@ + hex(h as nat, 0));
    }
}

/// The 64-bit FNV-1a hash of a text in hexadecimal: the same in every run and on every
/// machine, so that the name of a baseline file can be found again.
pub fn key_hash(s: &str) -> (r: String)
    ensures
        r@ == hex(fnv1a(encode_utf8(s@)) as nat, 16),
{
    let bytes = s.as_bytes();
    let n: usize = bytes.len();
    let mut h: u64 = FNV_OFFSET;
    assert(bytes@.take(0) =~= Seq::<u8>::empty());
    for i in 0..n
        invariant
            n == bytes@.len(),
            h == fnv1a(bytes@.take(i as int)),
    {
        assert(bytes@.take(i + 1).drop_last() =~= bytes@.take(i as int));
        let x: u64 = h ^ (bytes[i] as u64);
        h = x.wrapping_mul(FNV_PRIME);
    }
    assert(bytes@.take(n as int) =~= bytes@);
    let mut out: Vec<char> = Vec::new();
    push_hex(&mut out, h, 16);
    assert(out@ =~= hex(h as nat, 16));
    to_text(out.as_slice())
}

/// What the name of a baseline file is made from: the document and the path of the file.
pub open spec fn baseline_key(doc: Seq<char>, path: Seq<char>) -> Seq<char> {
    doc + seq!['\0'] + path
}

/// Two pairs of a document and a file have different keys: no key stands for two of them.
pub proof fn law_keys(doc: Seq<char>, path: Seq<char>, doc2: Seq<char>, path2: Seq<char>)
    requires
        !doc.contains('\0'),
        !doc2.contains('\0'),
        baseline_key(doc, path) == baseline_key(doc2, path2),
    ensures
        doc == doc2,
        path == path2,
{
    let a = baseline_key(doc, path);
    let b = baseline_key(doc2, path2);
    let n = doc.len() as int;
    let m = doc2.len() as int;
    assert(a[n] == '\0' && b[m] == '\0');
    if n < m {
        assert(b[n] == doc2[n]);
        assert(doc2.contains(doc2[n]));
    } else if m < n {
        assert(a[m] == doc[m]);
        assert(doc.contains(doc[m]));
    }
    assert(a.take(n) =~= doc && b.take(m) =~= doc2);
    assert(a.skip(n + 1) =~= path && b.skip(m + 1) =~= path2);
}

/// A hash is written with sixteen digits, and no two hashes are written alike.
pub proof fn law_hex(a: u64, b: u64)
    ensures
        hex(a as nat, 16).len() == 16,
        forall|i: int|
            0 <= i < 16 ==> ('0' <= #[trigger] hex(a as nat, 16)[i] <= '9') || ('a' <= hex(
                a as nat,
                16,
            )[i] <= 'f'),
        hex(a as nat, 16) == hex(b as nat, 16) ==> a == b,
{
    lemma_hex(a as nat, b as nat, 16);
    assert(sixteen(16) == 0x1_0000_0000_0000_0000nat) by {
        reveal_with_fuel(sixteen, 17);
    }
}

/// A power of sixteen.
spec fn sixteen(n: nat) -> nat
    decreases n,
{
    if n == 0 {
        1
    } else {
        16 * sixteen((n - 1) as nat)
    }
}

proof fn lemma_hex(a: nat, b: nat, n: nat)
    ensures
        hex(a, n).len() == n,
        forall|i: int|
            0 <= i < n ==> ('0' <= #[trigger] hex(a, n)[i] <= '9') || ('a' <= hex(a, n)[i] <= 'f'),
        hex(a, n) == hex(b, n) && a < sixteen(n) && b < sixteen(n) ==> a == b,
    decreases n,
{
    if n > 0 {
        let m = (n - 1) as nat;
        lemma_hex(a / 16, b / 16, m);
        lemma_hex(b / 16, a / 16, m);
        if hex(a, n) == hex(b, n) {
            assert(hex(a, n).drop_last() =~= hex(a / 16, m));
            assert(hex(b, n).drop_last() =~= hex(b / 16, m));
            assert(hex(a, n).last() == hex_digit(a % 16));
            assert(hex(b, n).last() == hex_digit(b % 16));
            assert(a % 16 == b % 16);
        }
    }
}

/// The name of the baseline file of a document and the absolute path of a file.
pub fn baseline_name(doc: &str, path: &str) -> (r: String)
    ensures
        r@ == hex(fnv1a(encode_utf8(baseline_key(doc@, path@))) as nat, 16) + ".json"@,
{
    let mut key = doc.to_owned();
    key.push('\0');
    key.append(path);
    assert(key@ =~= baseline_key(doc@, path@));
    let mut name = key_hash(key.as_str());
    name.append(".json");
    name
}

// ---------------------------------------------------------------------------
// Records
// ---------------------------------------------------------------------------

/// What reading a member of a JSON text gives: the member's text where the text is an
/// object that has a string of this name, or the message of a parse error.
pub uninterp spec fn json_member(raw: Seq<char>, name: Seq<char>) -> Result<
    Option<Seq<char>>,
    Seq<char>,
>;

/// `serde_json::from_str` to a `serde_json::Value`, and the text of one of its members.
/// The answer depends on the text and the name alone.
#[verifier::external_body]
pub(crate) fn read_member(raw: &str, name: &str) -> (r: Result<Option<String>, String>)
    ensures
        match r {
            Ok(o) => json_member(raw@, name@) == Result::<Option<Seq<char>>, Seq<char>>::Ok(
                opt_view(o),
            ),
            Err(e) => json_member(raw@, name@) == Result::<Option<Seq<char>>, Seq<char>>::Err(e@),
        },
{
    match serde_json::from_str::<serde_json::Value>(raw) {
        Ok(v) => Ok(v[name].as_str().map(String::from)),
        Err(e) => Err(e.to_string()),
    }
}

/// The names and texts of members.
pub open spec fn text_members(v: Seq<(String, String)>) -> Seq<(Seq<char>, Seq<char>)> {
    Seq::new(v.len(), |i: int| (v[i].0@, v[i].1@))
}

/// No two members have one name.
pub open spec fn distinct_names(ms: Seq<(Seq<char>, Seq<char>)>) -> bool {
    forall|i: int, j: int| 0 <= i < j < ms.len() ==> (#[trigger] ms[i]).0 != (#[trigger] ms[j]).0
}

/// Reading the JSON text gives back each of the members.
pub open spec fn gives_back(raw: Seq<char>, ms: Seq<(Seq<char>, Seq<char>)>) -> bool {
    forall|i: int|
        0 <= i < ms.len() ==> json_member(raw, (#[trigger] ms[i]).0) == Result::<
            Option<Seq<char>>,
            Seq<char>,
        >::Ok(Some(ms[i].1))
}

/// The JSON text of an object with these texts as members.
pub uninterp spec fn json_object(ms: Seq<(Seq<char>, Seq<char>)>) -> Seq<char>;

/// `serde_json::to_string_pretty` on an object whose members are strings. The text depends
/// on the members alone, and reading it gives back each member, where no two have one
/// name.
#[verifier::external_body]
pub(crate) fn write_object(members: &Vec<(String, String)>) -> (r: String)
    ensures
        r@ == json_object(text_members(members@)),
        distinct_names(text_members(members@)) ==> gives_back(r@, text_members(members@)),
{
    let mut map = serde_json::Map::new();
    for (name, value) in members {
        map.insert(name.clone(), serde_json::Value::String(value.clone()));
    }
    serde_json::to_string_pretty(&serde_json::Value::Object(map)).unwrap()
}

/// A baseline: the revision and the markdown at which the file and the document agreed.
#[derive(Debug, PartialEq, Eq)]
pub struct Baseline {
    pub rev: String,
    pub md: String,
}

/// Why there is no baseline.
#[derive(Debug, PartialEq, Eq)]
pub enum BaselineError {
    /// None was stored.
    Missing,
    /// What was stored is no JSON; the parser's message.
    Malformed(String),
    /// What was stored is of another document.
    OtherDoc,
}

/// What a [`BaselineError`] tells.
pub enum BaselineErrorV {
    Missing,
    Malformed(Seq<char>),
    OtherDoc,
}

impl View for BaselineError {
    type V = BaselineErrorV;

    open spec fn view(&self) -> BaselineErrorV {
        match self {
            BaselineError::Missing => BaselineErrorV::Missing,
            BaselineError::Malformed(e) => BaselineErrorV::Malformed(e@),
            BaselineError::OtherDoc => BaselineErrorV::OtherDoc,
        }
    }
}

impl BaselineErrorV {
    /// The message for a file of this name.
    pub open spec fn message(self, file: Seq<char>) -> Seq<char> {
        match self {
            BaselineErrorV::Missing => "no baseline for "@ + file
                + " \u{2014} run `gdocdown pull` first"@,
            BaselineErrorV::Malformed(e) => e,
            BaselineErrorV::OtherDoc => "baseline for "@ + file
                + " belongs to a different doc \u{2014} run `gdocdown pull`"@,
        }
    }
}

impl BaselineError {
    /// The message for a file of this name.
    pub fn message(&self, file: &str) -> (r: String)
        ensures
            r@ == self@.message(file@),
    {
        match self {
            BaselineError::Missing => {
                let mut s = "no baseline for ".to_owned();
                s.append(file);
                s.append(" \u{2014} run `gdocdown pull` first");
                s
            },
            BaselineError::Malformed(e) => e.clone(),
            BaselineError::OtherDoc => {
                let mut s = "baseline for ".to_owned();
                s.append(file);
                s.append(" belongs to a different doc \u{2014} run `gdocdown pull`");
                s
            },
        }
    }
}

/// The result of looking for a baseline, over texts.
pub open spec fn baseline_view(r: Result<Baseline, BaselineError>) -> Result<
    (Seq<char>, Seq<char>),
    BaselineErrorV,
> {
    match r {
        Ok(b) => Ok((b.rev@, b.md@)),
        Err(e) => Err(e@),
    }
}

/// The text, or the empty one.
pub open spec fn or_empty(o: Option<Seq<char>>) -> Seq<char> {
    match o {
        Some(s) => s,
        None => Seq::empty(),
    }
}

/// The baseline of a record with these members, for the document `doc`. A record of
/// another document is refused, so that no merge is made against a wrong base.
pub open spec fn record_baseline(
    doc: Seq<char>,
    owner: Result<Option<Seq<char>>, Seq<char>>,
    rev: Result<Option<Seq<char>>, Seq<char>>,
    md: Result<Option<Seq<char>>, Seq<char>>,
) -> Result<(Seq<char>, Seq<char>), BaselineErrorV> {
    match (owner, rev, md) {
        (Ok(o), Ok(r), Ok(m)) => if o == Some(doc) {
            Ok((or_empty(r), or_empty(m)))
        } else {
            Err(BaselineErrorV::OtherDoc)
        },
        (Err(e), _, _) => Err(BaselineErrorV::Malformed(e)),
        (_, Err(e), _) => Err(BaselineErrorV::Malformed(e)),
        (_, _, Err(e)) => Err(BaselineErrorV::Malformed(e)),
    }
}

/// The baseline in the text of a record, where there is one, for the document `doc`.
pub open spec fn stored_baseline(raw: Option<Seq<char>>, doc: Seq<char>) -> Result<
    (Seq<char>, Seq<char>),
    BaselineErrorV,
> {
    match raw {
        None => Err(BaselineErrorV::Missing),
        Some(s) => record_baseline(
            doc,
            json_member(s, "doc"@),
            json_member(s, "rev"@),
            json_member(s, "md"@),
        ),
    }
}

/// What reading a member gave, over texts.
pub open spec fn member_view(r: Result<Option<String>, String>) -> Result<
    Option<Seq<char>>,
    Seq<char>,
> {
    match r {
        Ok(o) => Ok(opt_view(o)),
        Err(e) => Err(e@),
    }
}

/// The text, or the empty one.
pub fn unwrap_text(o: Option<String>) -> (r: String)
    ensures
        r@ == or_empty(opt_view(o)),
{
    match o {
        Some(s) => s,
        None => {
            let s = String::new();
            assert(s@ =~= Seq::<char>::empty());
            s
        },
    }
}

/// The baseline of a record with these members, for the document `doc`.
pub fn baseline_of_record(
    doc: &str,
    owner: Result<Option<String>, String>,
    rev: Result<Option<String>, String>,
    md: Result<Option<String>, String>,
) -> (r: Result<Baseline, BaselineError>)
    ensures
        baseline_view(r) == record_baseline(
            doc@,
            member_view(owner),
            member_view(rev),
            member_view(md),
        ),
{
    match (owner, rev, md) {
        (Ok(o), Ok(rev), Ok(md)) => {
            if same_opt(&o, &Some(doc.to_owned())) {
                Ok(Baseline { rev: unwrap_text(rev), md: unwrap_text(md) })
            } else {
                Err(BaselineError::OtherDoc)
            }
        },
        (Err(e), _, _) => Err(BaselineError::Malformed(e)),
        (_, Err(e), _) => Err(BaselineError::Malformed(e)),
        (_, _, Err(e)) => Err(BaselineError::Malformed(e)),
    }
}

/// The baseline in the text of a record, where there is one, for the document `doc`.
pub fn read_baseline(raw: Option<&str>, doc: &str) -> (r: Result<Baseline, BaselineError>)
    ensures
        baseline_view(r) == stored_baseline(
            match raw {
                Some(s) => Some(s@),
                None => None,
            },
            doc@,
        ),
{
    match raw {
        None => Err(BaselineError::Missing),
        Some(s) => baseline_of_record(
            doc,
            read_member(s, "doc"),
            read_member(s, "rev"),
            read_member(s, "md"),
        ),
    }
}

/// The members of a record.
pub open spec fn record_members(
    doc: Seq<char>,
    path: Seq<char>,
    rev: Seq<char>,
    md: Seq<char>,
) -> Seq<(Seq<char>, Seq<char>)> {
    seq![("doc"@, doc), ("path"@, path), ("rev"@, rev), ("md"@, md)]
}

/// The text of a record. Reading it for the same document gives back the revision and the
/// markdown.
pub fn write_baseline(doc: &str, path: &str, rev: &str, md: &str) -> (r: String)
    ensures
        r@ == json_object(record_members(doc@, path@, rev@, md@)),
        stored_baseline(Some(r@), doc@) == Result::<(Seq<char>, Seq<char>), BaselineErrorV>::Ok(
            (rev@, md@),
        ),
        json_member(r@, "path"@) == Result::<Option<Seq<char>>, Seq<char>>::Ok(Some(path@)),
        // For another document it is no baseline.
        forall|other: Seq<char>|
            other != doc@ ==> #[trigger] stored_baseline(Some(r@), other) == Result::<
                (Seq<char>, Seq<char>),
                BaselineErrorV,
            >::Err(BaselineErrorV::OtherDoc),
{
    let mut members: Vec<(String, String)> = Vec::new();
    members.push(("doc".to_owned(), doc.to_owned()));
    members.push(("path".to_owned(), path.to_owned()));
    members.push(("rev".to_owned(), rev.to_owned()));
    members.push(("md".to_owned(), md.to_owned()));
    let ghost ms = text_members(members@);
    proof {
        assert(ms =~= record_members(doc@, path@, rev@, md@));
        reveal_strlit("doc");
        reveal_strlit("path");
        reveal_strlit("rev");
        reveal_strlit("md");
        assert("doc"@[0] != "rev"@[0]);
        assert("path"@.len() == 4 && "doc"@.len() == 3 && "rev"@.len() == 3 && "md"@.len() == 2);
        assert(distinct_names(ms));
    }
    let r = write_object(&members);
    proof {
        assert(ms[0].0 == "doc"@ && ms[1].0 == "path"@ && ms[2].0 == "rev"@ && ms[3].0 == "md"@);
    }
    r
}

} // verus!
