//! The document model: paragraphs, tables, rules and tables of contents, with
//! paragraphs and cells made of styled runs.
use crate::text::same_text;
use vstd::prelude::*;

verus! {

/// What a paragraph-level block is. A block is exactly one of these.
#[derive(Debug, Clone, Copy, PartialEq, Eq, Hash, PartialOrd, Ord, Structural)]
pub enum BlockKind {
    Normal,
    Heading(u8),
    Bullet,
    Number,
    /// A checkbox or task-list item (`- [ ]`). Whether it is checked is not
    /// modeled, so all are written unchecked.
    Checkbox,
}

/// Inline character styling; `default` is unstyled.
#[derive(Debug, Clone, Copy, PartialEq, Eq, Hash, PartialOrd, Ord, Structural)]
pub struct TextStyle {
    pub bold: bool,
    pub italic: bool,
    pub strikethrough: bool,
}

/// The unstyled style.
pub open spec fn plain_style() -> TextStyle {
    TextStyle { bold: false, italic: false, strikethrough: false }
}

impl Default for TextStyle {
    fn default() -> (r: TextStyle)
        ensures
            r == plain_style(),
    {
        TextStyle { bold: false, italic: false, strikethrough: false }
    }
}

impl TextStyle {
    /// Whether no mark is set.
    pub fn is_default(&self) -> (r: bool)
        ensures
            r == (*self == plain_style()),
    {
        !self.bold && !self.italic && !self.strikethrough
    }
}

/// The character that stands for one inline object (an image, a page break, …)
/// in a text. It is one UTF-16 unit, as the object is one document index, so
/// offsets and indices agree.
pub const OBJECT_SENTINEL: char = '\u{FFFC}';

/// A span of text that shares one style and link, or a single inline object:
/// then `object` is set and `text` is one [`OBJECT_SENTINEL`].
#[derive(Debug, PartialEq, Eq, Hash, PartialOrd, Ord)]
pub struct Run {
    pub text: String,
    pub style: TextStyle,
    pub link: Option<String>,
    /// The descriptor of an inline object, where the run is one.
    pub object: Option<String>,
}

/// What a [`Run`] holds.
#[verifier::ext_equal]
pub struct RunV {
    pub text: Seq<char>,
    pub style: TextStyle,
    pub link: Option<Seq<char>>,
    pub object: Option<Seq<char>>,
}

/// The characters of an optional string.
pub open spec fn opt_view(o: Option<String>) -> Option<Seq<char>> {
    match o {
        Some(s) => Some(s@),
        None => None,
    }
}

impl View for Run {
    type V = RunV;

    open spec fn view(&self) -> RunV {
        RunV {
            text: self.text@,
            style: self.style,
            link: opt_view(self.link),
            object: opt_view(self.object),
        }
    }
}

/// What each run holds.
pub open spec fn run_views(s: Seq<Run>) -> Seq<RunV> {
    Seq::new(s.len(), |i: int| s[i]@)
}

impl RunV {
    /// No mark and no link.
    pub open spec fn plain(self) -> bool {
        self.style == plain_style() && self.link is None
    }
}

/// The run that stands for the inline object with this descriptor.
pub open spec fn object_run(descriptor: Seq<char>) -> RunV {
    RunV {
        text: seq![OBJECT_SENTINEL],
        style: plain_style(),
        link: None,
        object: Some(descriptor),
    }
}

/// A copy of an optional string.
pub fn copy_opt(o: &Option<String>) -> (r: Option<String>)
    ensures
        opt_view(r) == opt_view(*o),
{
    match o {
        Some(s) => Some(s.clone()),
        None => None,
    }
}

impl Clone for Run {
    fn clone(&self) -> (r: Run)
        ensures
            r@ == self@,
    {
        Run {
            text: self.text.clone(),
            style: self.style,
            link: copy_opt(&self.link),
            object: copy_opt(&self.object),
        }
    }
}

impl Run {
    /// No text styling and no link. An inline object is plain too: there is
    /// nothing to style.
    pub fn is_plain(&self) -> (r: bool)
        ensures
            r == self@.plain(),
    {
        self.style.is_default() && self.link.is_none()
    }

    /// The run of an inline object, named by a descriptor such as `image/<id>`,
    /// `pagebreak` or `footnote/<id>`.
    pub fn object(descriptor: &str) -> (r: Run)
        ensures
            r@ == object_run(descriptor@),
    {
        let mut text = String::new();
        text.push(OBJECT_SENTINEL);
        let r = Run {
            text,
            style: TextStyle { bold: false, italic: false, strikethrough: false },
            link: None,
            object: Some(descriptor.to_owned()),
        };
        assert(r@ =~= object_run(descriptor@));
        r
    }
}

/// Whether two optional strings hold the same.
pub fn same_opt(a: &Option<String>, b: &Option<String>) -> (r: bool)
    ensures
        r == (opt_view(*a) == opt_view(*b)),
{
    match (a, b) {
        (Some(x), Some(y)) => same_text(x.as_str(), y.as_str()),
        (None, None) => true,
        _ => false,
    }
}

/// Whether two runs hold the same.
pub fn same_run(a: &Run, b: &Run) -> (r: bool)
    ensures
        r == (a@ == b@),
{
    let r = same_text(a.text.as_str(), b.text.as_str()) && a.style == b.style && same_opt(
        &a.link,
        &b.link,
    ) && same_opt(&a.object, &b.object);
    assert(r ==> a@ =~= b@);
    r
}

/// Copies of the runs.
pub fn copy_runs(runs: &[Run]) -> (r: Vec<Run>)
    ensures
        run_views(r@) == run_views(runs@),
{
    let n: usize = runs.len();
    let mut out: Vec<Run> = Vec::new();
    for i in 0..n
        invariant
            n == runs@.len(),
            out@.len() == i,
            forall|k: int| 0 <= k < i ==> #[trigger] out@[k]@ == runs@[k]@,
    {
        out.push(runs[i].clone());
    }
    assert(run_views(out@) =~= run_views(runs@));
    out
}

/// Whether two lists of runs hold the same.
pub fn same_runs(a: &[Run], b: &[Run]) -> (r: bool)
    ensures
        r == (run_views(a@) == run_views(b@)),
{
    let n: usize = a.len();
    if n != b.len() {
        assert(run_views(a@).len() != run_views(b@).len());
        return false;
    }
    for i in 0..n
        invariant
            n == a@.len(),
            n == b@.len(),
            forall|k: int| 0 <= k < i ==> #[trigger] a@[k]@ == b@[k]@,
    {
        if !same_run(&a[i], &b[i]) {
            assert(run_views(a@)[i as int] != run_views(b@)[i as int]);
            return false;
        }
    }
    assert(run_views(a@) =~= run_views(b@));
    true
}

/// One paragraph-level block. Its clean text (without markdown markers,
/// indentation and list glyphs) is the concatenation of its runs. `depth` is the
/// list nesting level, 0 at the top and for everything that is no list item.
#[derive(Debug, PartialEq, Eq, Hash, PartialOrd, Ord)]
pub struct Block {
    pub kind: BlockKind,
    pub depth: u8,
    pub runs: Vec<Run>,
}

/// What a [`Block`] holds.
#[verifier::ext_equal]
pub struct BlockV {
    pub kind: BlockKind,
    pub depth: u8,
    pub runs: Seq<RunV>,
}

impl View for Block {
    type V = BlockV;

    open spec fn view(&self) -> BlockV {
        BlockV { kind: self.kind, depth: self.depth, runs: run_views(self.runs@) }
    }
}

/// What each block holds.
pub open spec fn block_views(s: Seq<Block>) -> Seq<BlockV> {
    Seq::new(s.len(), |i: int| s[i]@)
}

/// The texts of the runs, joined.
pub open spec fn runs_text(runs: Seq<RunV>) -> Seq<char>
    decreases runs.len(),
{
    if runs.len() == 0 {
        Seq::empty()
    } else {
        runs_text(runs.drop_last()) + runs.last().text
    }
}

impl BlockV {
    pub open spec fn text(self) -> Seq<char> {
        runs_text(self.runs)
    }

    /// Some run carries a mark or a link.
    pub open spec fn marked(self) -> bool {
        exists|i: int| 0 <= i < self.runs.len() && !(#[trigger] self.runs[i]).plain()
    }
}

impl Clone for Block {
    fn clone(&self) -> (r: Block)
        ensures
            r@ == self@,
    {
        Block { kind: self.kind, depth: self.depth, runs: copy_runs(self.runs.as_slice()) }
    }
}

impl Block {
    /// The block's clean text.
    pub fn text(&self) -> (r: String)
        ensures
            r@ == self@.text(),
    {
        let n: usize = self.runs.len();
        let mut out = String::new();
        let ghost all = self@.runs;
        assert(all.take(0) =~= Seq::<RunV>::empty());
        assert(out@ =~= runs_text(all.take(0)));
        for i in 0..n
            invariant
                n == self.runs@.len(),
                all == self@.runs,
                out@ == runs_text(all.take(i as int)),
        {
            out.append(self.runs[i].text.as_str());
            assert(all.take(i + 1).drop_last() =~= all.take(i as int));
        }
        assert(all.take(n as int) =~= all);
        out
    }

    /// Whether any run carries a mark or a link.
    pub fn has_marks(&self) -> (r: bool)
        ensures
            r == self@.marked(),
    {
        let n: usize = self.runs.len();
        for i in 0..n
            invariant
                n == self.runs@.len(),
                forall|k: int| 0 <= k < i ==> (#[trigger] self@.runs[k]).plain(),
        {
            if !self.runs[i].is_plain() {
                assert(!self@.runs[i as int].plain());
                return true;
            }
        }
        false
    }
}

/// Whether two blocks hold the same.
pub fn same_block(a: &Block, b: &Block) -> (r: bool)
    ensures
        r == (a@ == b@),
{
    let r = a.kind == b.kind && a.depth == b.depth && same_runs(
        a.runs.as_slice(),
        b.runs.as_slice(),
    );
    assert(r ==> a@ =~= b@);
    r
}

/// Copies of the blocks.
pub fn copy_blocks(blocks: &[Block]) -> (r: Vec<Block>)
    ensures
        block_views(r@) == block_views(blocks@),
{
    let n: usize = blocks.len();
    let mut out: Vec<Block> = Vec::new();
    for i in 0..n
        invariant
            n == blocks@.len(),
            out@.len() == i,
            forall|k: int| 0 <= k < i ==> #[trigger] out@[k]@ == blocks@[k]@,
    {
        out.push(blocks[i].clone());
    }
    assert(block_views(out@) =~= block_views(blocks@));
    out
}

/// Whether the kind is a list item's.
pub open spec fn list_kind_of(kind: BlockKind) -> bool {
    kind is Bullet || kind is Number || kind is Checkbox
}

/// Whether the kind is a list item's.
pub fn is_list(kind: &BlockKind) -> (r: bool)
    ensures
        r == list_kind_of(*kind),
{
    matches!(kind, BlockKind::Bullet | BlockKind::Number | BlockKind::Checkbox)
}

/// The content of a table cell: one paragraph's runs.
pub type Cell = Vec<Run>;

/// A table. The first row is the header.
#[derive(Debug, PartialEq, Eq)]
pub struct Table {
    pub rows: Vec<Vec<Cell>>,
}

/// What the cells of a row hold.
pub open spec fn row_view(cells: Seq<Cell>) -> Seq<Seq<RunV>> {
    Seq::new(cells.len(), |i: int| run_views(cells[i]@))
}

/// What the rows of a table hold.
pub open spec fn rows_view(rows: Seq<Vec<Cell>>) -> Seq<Seq<Seq<RunV>>> {
    Seq::new(rows.len(), |i: int| row_view(rows[i]@))
}

impl View for Table {
    type V = Seq<Seq<Seq<RunV>>>;

    open spec fn view(&self) -> Seq<Seq<Seq<RunV>>> {
        rows_view(self.rows@)
    }
}

/// The number of columns: that of the first row.
pub open spec fn columns_of(rows: Seq<Seq<Seq<RunV>>>) -> nat {
    if rows.len() == 0 {
        0
    } else {
        rows[0].len()
    }
}

impl Table {
    /// The number of columns: that of the header row, 0 for a table without rows.
    pub fn columns(&self) -> (r: usize)
        ensures
            r == columns_of(self@),
    {
        if self.rows.len() == 0 {
            0
        } else {
            self.rows[0].len()
        }
    }
}

/// Copies of the cells of a row.
pub fn copy_cells(cells: &[Cell]) -> (r: Vec<Cell>)
    ensures
        row_view(r@) == row_view(cells@),
{
    let n: usize = cells.len();
    let mut out: Vec<Cell> = Vec::new();
    for i in 0..n
        invariant
            n == cells@.len(),
            out@.len() == i,
            forall|k: int| 0 <= k < i ==> run_views(#[trigger] out@[k]@) == run_views(cells@[k]@),
    {
        out.push(copy_runs(cells[i].as_slice()));
    }
    assert(row_view(out@) =~= row_view(cells@));
    out
}

impl Clone for Table {
    fn clone(&self) -> (r: Table)
        ensures
            r@ == self@,
    {
        let n: usize = self.rows.len();
        let mut out: Vec<Vec<Cell>> = Vec::new();
        for i in 0..n
            invariant
                n == self.rows@.len(),
                out@.len() == i,
                forall|k: int|
                    0 <= k < i ==> row_view(#[trigger] out@[k]@) == row_view(self.rows@[k]@),
        {
            out.push(copy_cells(self.rows[i].as_slice()));
        }
        assert(rows_view(out@) =~= rows_view(self.rows@));
        Table { rows: out }
    }
}

/// A top-level node: a paragraph, a table, a horizontal rule (`---`) or a table
/// of contents. Rules and tables of contents can be kept and deleted but not
/// created.
#[derive(Debug, PartialEq, Eq)]
pub enum Node {
    Para(Block),
    Table(Table),
    Rule,
    Toc,
}

/// What a [`Node`] holds.
#[verifier::ext_equal]
pub enum NodeV {
    Para(BlockV),
    Table(Seq<Seq<Seq<RunV>>>),
    Rule,
    Toc,
}

impl View for Node {
    type V = NodeV;

    open spec fn view(&self) -> NodeV {
        match self {
            Node::Para(b) => NodeV::Para(b@),
            Node::Table(t) => NodeV::Table(t@),
            Node::Rule => NodeV::Rule,
            Node::Toc => NodeV::Toc,
        }
    }
}

impl NodeV {
    /// A node that splits paragraph runs.
    pub open spec fn barrier(self) -> bool {
        !(self is Para)
    }
}

/// What each node holds.
pub open spec fn node_views(s: Seq<Node>) -> Seq<NodeV> {
    Seq::new(s.len(), |i: int| s[i]@)
}

impl Clone for Node {
    fn clone(&self) -> (r: Node)
        ensures
            r@ == self@,
    {
        match self {
            Node::Para(b) => Node::Para(b.clone()),
            Node::Table(t) => Node::Table(t.clone()),
            Node::Rule => Node::Rule,
            Node::Toc => Node::Toc,
        }
    }
}

impl Node {
    /// The paragraph block, if this node is a paragraph.
    pub fn as_para(&self) -> (r: Option<&Block>)
        ensures
            match r {
                Some(b) => *self == Node::Para(*b),
                None => !(self is Para),
            },
    {
        match self {
            Node::Para(b) => Some(b),
            _ => None,
        }
    }

    /// Whether this node is a barrier (a table, rule or table of contents), which
    /// splits paragraph runs.
    pub fn is_barrier(&self) -> (r: bool)
        ensures
            r == self@.barrier(),
    {
        matches!(self, Node::Table(_) | Node::Rule | Node::Toc)
    }
}

/// A document as an ordered list of nodes.
pub type DocModel = Vec<Node>;

/// The deepest list level that a document holds (levels 0 to 8).
pub const MAX_DEPTH: u8 = 8;

// ---------------------------------------------------------------------------
// Normal form of runs
// ---------------------------------------------------------------------------

/// Whether the run `b` continues the run `a`: neither is an object and both have
/// one style and link.
pub open spec fn continues(a: RunV, b: RunV) -> bool {
    a.object is None && b.object is None && a.style == b.style && a.link == b.link
}

/// The runs with `r` appended: dropped where it is empty, merged into the last run
/// where it continues that.
pub open spec fn absorb(runs: Seq<RunV>, r: RunV) -> Seq<RunV> {
    if r.text.len() == 0 {
        runs
    } else if runs.len() > 0 && continues(runs.last(), r) {
        runs.drop_last().push(RunV { text: runs.last().text + r.text, ..runs.last() })
    } else {
        runs.push(r)
    }
}

/// The runs `out` with each of `rs` appended in turn.
pub open spec fn absorb_all(out: Seq<RunV>, rs: Seq<RunV>) -> Seq<RunV>
    decreases rs.len(),
{
    if rs.len() == 0 {
        out
    } else {
        absorb(absorb_all(out, rs.drop_last()), rs.last())
    }
}

/// The normal form of a list of runs.
pub open spec fn normalized(rs: Seq<RunV>) -> Seq<RunV> {
    absorb_all(Seq::empty(), rs)
}

/// A list of runs in normal form: none is empty and none continues the one before.
pub open spec fn normal_form(rs: Seq<RunV>) -> bool {
    &&& forall|i: int| 0 <= i < rs.len() ==> (#[trigger] rs[i]).text.len() > 0
    &&& forall|i: int, j: int|
        0 <= i && j == i + 1 && j < rs.len() ==> !continues(#[trigger] rs[i], #[trigger] rs[j])
}

/// Append one run to a list of runs, merging it into the last where it continues
/// that.
pub fn push_run(out: &mut Vec<Run>, r: Run)
    ensures
        run_views(final(out)@) == absorb(run_views(old(out)@), r@),
{
    if r.text.as_str().is_empty() {
        assert(r@.text.len() == 0);
        return;
    }
    let ghost before = run_views(out@);
    let n: usize = out.len();
    if n > 0 && out[n - 1].object.is_none() && r.object.is_none() && out[n - 1].style == r.style
        && same_opt(&out[n - 1].link, &r.link) {
        let mut last = out[n - 1].clone();
        last.text.append(r.text.as_str());
        assert(last@ =~= RunV { text: before.last().text + r@.text, ..before.last() });
        out.set(n - 1, last);
        assert(run_views(out@) =~= absorb(before, r@));
    } else {
        out.push(r);
        assert(run_views(out@) =~= before.push(r@));
    }
}

/// Merge adjacent runs of one style and link and drop empty ones, so that two
/// models with the same content compare equal however their runs were cut.
/// Inline objects are never merged.
pub fn normalize_runs(runs: Vec<Run>) -> (r: Vec<Run>)
    ensures
        run_views(r@) == normalized(run_views(runs@)),
{
    let n: usize = runs.len();
    let mut out: Vec<Run> = Vec::new();
    let ghost all = run_views(runs@);
    assert(all.take(0) =~= Seq::<RunV>::empty());
    assert(run_views(out@) =~= Seq::<RunV>::empty());
    for i in 0..n
        invariant
            n == runs@.len(),
            all == run_views(runs@),
            run_views(out@) == normalized(all.take(i as int)),
    {
        push_run(&mut out, runs[i].clone());
        assert(all.take(i + 1).drop_last() =~= all.take(i as int));
    }
    assert(all.take(n as int) =~= all);
    out
}

/// Appending a list of one run is appending the run.
pub proof fn lemma_absorb_one(out: Seq<RunV>, r: RunV)
    ensures
        absorb_all(out, seq![r]) == absorb(out, r),
{
    reveal_with_fuel(absorb_all, 2);
}

/// Appending is associative.
pub proof fn lemma_absorb_all_add(out: Seq<RunV>, a: Seq<RunV>, b: Seq<RunV>)
    ensures
        absorb_all(out, a + b) == absorb_all(absorb_all(out, a), b),
    decreases b.len(),
{
    if b.len() == 0 {
        assert(a + b =~= a);
    } else {
        lemma_absorb_all_add(out, a, b.drop_last());
        assert((a + b).drop_last() =~= a + b.drop_last());
    }
}

/// Appending to a list in normal form keeps it in normal form.
pub proof fn lemma_absorb_normal(out: Seq<RunV>, r: RunV)
    requires
        normal_form(out),
    ensures
        normal_form(absorb(out, r)),
{
}

/// What is appended run by run is in normal form if the start was.
pub proof fn lemma_absorb_all_normal(out: Seq<RunV>, rs: Seq<RunV>)
    requires
        normal_form(out),
    ensures
        normal_form(absorb_all(out, rs)),
    decreases rs.len(),
{
    if rs.len() > 0 {
        lemma_absorb_all_normal(out, rs.drop_last());
        lemma_absorb_normal(absorb_all(out, rs.drop_last()), rs.last());
    }
}

/// Runs in normal form that do not continue `out` are appended as they are.
pub proof fn lemma_absorb_all_identity(out: Seq<RunV>, rs: Seq<RunV>)
    requires
        normal_form(rs),
        rs.len() > 0 && out.len() > 0 ==> !continues(out.last(), rs[0]),
    ensures
        absorb_all(out, rs) == out + rs,
    decreases rs.len(),
{
    if rs.len() == 0 {
        assert(out + rs =~= out);
    } else {
        let init = rs.drop_last();
        assert forall|i: int, j: int| 0 <= i && j == i + 1 && j < init.len() implies !continues(
            #[trigger] init[i],
            #[trigger] init[j],
        ) by {
            assert(!continues(rs[i], rs[j]));
        }
        lemma_absorb_all_identity(out, init);
        if init.len() > 0 {
            assert(!continues(rs[rs.len() - 2], rs[rs.len() - 1]));
            assert((out + init).last() == rs[rs.len() - 2]);
        } else {
            assert(out + init =~= out);
        }
        assert(absorb(out + init, rs.last()) =~= out + rs);
    }
}

/// Normalizing a list of runs gives one in normal form, and normalizing that again
/// changes nothing.
pub proof fn law_normalize_idempotent(rs: Seq<RunV>)
    ensures
        normal_form(normalized(rs)),
        normalized(normalized(rs)) == normalized(rs),
{
    lemma_absorb_all_normal(Seq::empty(), rs);
    lemma_absorb_all_identity(Seq::empty(), normalized(rs));
    assert(Seq::<RunV>::empty() + normalized(rs) =~= normalized(rs));
}

/// One character of a run as a run of its own.
pub open spec fn atom(c: char, style: TextStyle, link: Option<Seq<char>>) -> RunV {
    RunV { text: seq![c], style, link, object: None }
}

/// The characters of `t`, each as a run of its own.
pub open spec fn atoms(t: Seq<char>, style: TextStyle, link: Option<Seq<char>>) -> Seq<RunV> {
    Seq::new(t.len(), |i: int| atom(t[i], style, link))
}

/// Appending a text's characters one by one is appending the text as one run.
pub proof fn lemma_absorb_atoms(
    out: Seq<RunV>,
    t: Seq<char>,
    style: TextStyle,
    link: Option<Seq<char>>,
)
    ensures
        absorb_all(out, atoms(t, style, link)) == absorb(
            out,
            RunV { text: t, style, link, object: None },
        ),
    decreases t.len(),
{
    let a = atoms(t, style, link);
    if t.len() > 0 {
        let init = t.drop_last();
        lemma_absorb_atoms(out, init, style, link);
        assert(a.drop_last() =~= atoms(init, style, link));
        let r = RunV { text: t, style, link, object: None };
        let mid = absorb(out, RunV { text: init, style, link, object: None });
        if init.len() == 0 {
            assert(a.last().text =~= t);
            assert(a.last() =~= r);
        } else {
            assert(init + seq![t.last()] =~= t);
            if out.len() > 0 && continues(out.last(), r) {
                assert(out.last().text + init + seq![t.last()] =~= out.last().text + t);
                assert(absorb(mid, a.last()) =~= absorb(out, r));
            } else {
                assert(mid.last().text + a.last().text =~= t);
                assert(absorb(mid, a.last()) =~= absorb(out, r));
            }
        }
    }
}

/// The content of a list of runs, whatever their cut: each character with its style
/// and link, and each object.
pub open spec fn content_of(rs: Seq<RunV>) -> Seq<RunV>
    decreases rs.len(),
{
    if rs.len() == 0 {
        Seq::empty()
    } else {
        let r = rs.last();
        content_of(rs.drop_last()) + if r.object is Some {
            if r.text.len() == 0 {
                Seq::empty()
            } else {
                seq![r]
            }
        } else {
            atoms(r.text, r.style, r.link)
        }
    }
}

/// The normal form depends on the content alone, not on how it is cut into runs.
pub proof fn law_normalize_by_content(a: Seq<RunV>, b: Seq<RunV>)
    requires
        content_of(a) == content_of(b),
    ensures
        normalized(a) == normalized(b),
{
    lemma_absorb_content(Seq::empty(), a);
    lemma_absorb_content(Seq::empty(), b);
}

/// Normalizing runs keeps their content: every character with its style and its link, and
/// every object, in their order.
pub proof fn law_normalize_keeps(rs: Seq<RunV>)
    ensures
        content_of(normalized(rs)) == content_of(rs),
{
    lemma_content_absorbed(Seq::empty(), rs);
    assert(content_of(Seq::<RunV>::empty()) + content_of(rs) =~= content_of(rs));
}

/// Runs in normal form differ from their neighbours in a mark or a link, unless one of the two
/// is an object, and none is empty.
pub proof fn law_normalize_parts(rs: Seq<RunV>, i: int)
    requires
        0 <= i < normalized(rs).len(),
    ensures
        normalized(rs)[i].text.len() > 0,
        i > 0 ==> ({
            let a = normalized(rs)[i - 1];
            let b = normalized(rs)[i];
            a.object is Some || b.object is Some || a.style.bold != b.style.bold || a.style.italic
                != b.style.italic || a.style.strikethrough != b.style.strikethrough || a.link
                != b.link
        }),
{
    law_normalize_idempotent(rs);
    let out = normalized(rs);
    if i > 0 {
        assert(!continues(out[i - 1], out[i]));
        assert(out[i - 1].style == out[i].style <==> out[i - 1].style.bold == out[i].style.bold
            && out[i - 1].style.italic == out[i].style.italic && out[i - 1].style.strikethrough
            == out[i].style.strikethrough);
    }
}

proof fn lemma_content_absorbed(out: Seq<RunV>, rs: Seq<RunV>)
    ensures
        content_of(absorb_all(out, rs)) == content_of(out) + content_of(rs),
    decreases rs.len(),
{
    if rs.len() == 0 {
        assert(content_of(out) + content_of(rs) =~= content_of(out));
    } else {
        let mid = absorb_all(out, rs.drop_last());
        let r = rs.last();
        lemma_content_absorbed(out, rs.drop_last());
        let after = absorb(mid, r);
        let own = if r.object is Some {
            if r.text.len() == 0 {
                Seq::empty()
            } else {
                seq![r]
            }
        } else {
            atoms(r.text, r.style, r.link)
        };
        assert(content_of(after) =~= content_of(mid) + own) by {
            if r.text.len() == 0 {
                assert(own =~= Seq::<RunV>::empty());
            } else if mid.len() > 0 && continues(mid.last(), r) {
                let a = mid.last();
                assert(after.drop_last() =~= mid.drop_last());
                assert(atoms(a.text + r.text, a.style, a.link) =~= atoms(a.text, a.style, a.link)
                    + atoms(r.text, r.style, r.link));
            } else {
                assert(after.drop_last() =~= mid);
            }
        }
        assert(content_of(out) + content_of(rs) =~= content_of(out) + content_of(rs.drop_last())
            + own);
    }
}

/// Appending the content of runs piece by piece is appending the runs.
pub proof fn lemma_absorb_content(out: Seq<RunV>, rs: Seq<RunV>)
    ensures
        absorb_all(out, content_of(rs)) == absorb_all(out, rs),
    decreases rs.len(),
{
    if rs.len() > 0 {
        let r = rs.last();
        let init = content_of(rs.drop_last());
        let mid = absorb_all(out, rs.drop_last());
        lemma_absorb_content(out, rs.drop_last());
        if r.object is Some {
            if r.text.len() == 0 {
                assert(content_of(rs) =~= init);
            } else {
                assert(content_of(rs) =~= init.push(r));
                assert(content_of(rs).drop_last() =~= init);
            }
        } else {
            lemma_absorb_all_add(out, init, atoms(r.text, r.style, r.link));
            lemma_absorb_atoms(mid, r.text, r.style, r.link);
            assert(r =~= RunV { text: r.text, style: r.style, link: r.link, object: None });
        }
    }
}

} // verus!
