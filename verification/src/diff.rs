//! Line diff builder: turns two texts into a normalized, line-numbered
//! sequence of tagged changes.
//!
//! The line-comparison primitive itself (the edit-script search) is an
//! external collaborator; this module states what its output looks like,
//! expands that output into numbered lines, and proves the numbering and
//! round-trip properties of the result.

use vstd::prelude::*;

use crate::text::split_lines;
use crate::text::split_lines_spec;

verus! {

/// How one line of a diff relates the old text to the new text.
#[derive(Clone, Copy, PartialEq, Eq, Structural, Debug)]
pub enum ChangeKind {
    Unchanged,
    Removed,
    Added,
}

/// One line of a normalized diff.  `old_lineno` is present iff the line
/// exists in the old text (`Unchanged` or `Removed`), `new_lineno` iff it
/// exists in the new text (`Unchanged` or `Added`); both count from 1.
#[derive(Debug)]
pub struct DiffLine {
    pub kind: ChangeKind,
    pub old_lineno: Option<usize>,
    pub new_lineno: Option<usize>,
    pub content: String,
}

impl Clone for DiffLine {
    fn clone(&self) -> (r: Self)
        ensures
            r == *self,
    {
        DiffLine {
            kind: self.kind,
            old_lineno: self.old_lineno,
            new_lineno: self.new_lineno,
            content: self.content.clone(),
        }
    }
}

/// Mathematical model of a [`DiffLine`].
pub ghost struct LineModel {
    pub kind: ChangeKind,
    pub old_lineno: Option<int>,
    pub new_lineno: Option<int>,
    pub content: Seq<char>,
}

impl View for DiffLine {
    type V = LineModel;

    open spec fn view(&self) -> LineModel {
        LineModel {
            kind: self.kind,
            old_lineno: match self.old_lineno {
                Some(n) => Some(n as int),
                None => None,
            },
            new_lineno: match self.new_lineno {
                Some(n) => Some(n as int),
                None => None,
            },
            content: self.content@,
        }
    }
}

impl DeepView for DiffLine {
    type V = LineModel;

    open spec fn deep_view(&self) -> LineModel {
        self.view()
    }
}

/// One file's comparison result: the two paths and the normalized lines,
/// in the order the comparison primitive produced them.
pub struct FileDiff {
    pub old_path: String,
    pub new_path: String,
    pub lines: Vec<DiffLine>,
}

/// Mathematical model of a [`FileDiff`].
pub ghost struct FileDiffModel {
    pub old_path: Seq<char>,
    pub new_path: Seq<char>,
    pub lines: Seq<LineModel>,
}

impl View for FileDiff {
    type V = FileDiffModel;

    open spec fn view(&self) -> FileDiffModel {
        FileDiffModel { old_path: self.old_path@, new_path: self.new_path@, lines: self.lines.deep_view() }
    }
}

/// One operation of the edit script over whole line ranges, as the
/// comparison primitive reports it.
#[derive(Clone, Copy, Debug)]
pub enum LineOp {
    Equal { old_index: usize, new_index: usize, len: usize },
    Delete { old_index: usize, old_len: usize, new_index: usize },
    Insert { old_index: usize, new_index: usize, new_len: usize },
    Replace { old_index: usize, old_len: usize, new_index: usize, new_len: usize },
}

/// Where an op starts on the old side.
pub open spec fn op_old_start(op: LineOp) -> int {
    match op {
        LineOp::Equal { old_index, .. } => old_index as int,
        LineOp::Delete { old_index, .. } => old_index as int,
        LineOp::Insert { old_index, .. } => old_index as int,
        LineOp::Replace { old_index, .. } => old_index as int,
    }
}

/// How many old lines an op consumes.
pub open spec fn op_old_take(op: LineOp) -> int {
    match op {
        LineOp::Equal { len, .. } => len as int,
        LineOp::Delete { old_len, .. } => old_len as int,
        LineOp::Insert { .. } => 0,
        LineOp::Replace { old_len, .. } => old_len as int,
    }
}

/// Where an op starts on the new side.
pub open spec fn op_new_start(op: LineOp) -> int {
    match op {
        LineOp::Equal { new_index, .. } => new_index as int,
        LineOp::Delete { new_index, .. } => new_index as int,
        LineOp::Insert { new_index, .. } => new_index as int,
        LineOp::Replace { new_index, .. } => new_index as int,
    }
}

/// How many new lines an op consumes.
pub open spec fn op_new_take(op: LineOp) -> int {
    match op {
        LineOp::Equal { len, .. } => len as int,
        LineOp::Delete { .. } => 0,
        LineOp::Insert { new_len, .. } => new_len as int,
        LineOp::Replace { new_len, .. } => new_len as int,
    }
}

/// The ops cover the old range `o..old_len` and the new range `n..new_len`
/// contiguously and in order.
pub open spec fn ops_tile_from(ops: Seq<LineOp>, o: int, n: int, old_len: int, new_len: int) -> bool
    decreases ops.len(),
{
    if ops.len() == 0 {
        o == old_len && n == new_len
    } else {
        let op = ops[0];
        &&& op_old_start(op) == o
        &&& op_new_start(op) == n
        &&& o + op_old_take(op) <= old_len
        &&& n + op_new_take(op) <= new_len
        &&& ops_tile_from(ops.drop_first(), o + op_old_take(op), n + op_new_take(op), old_len, new_len)
    }
}

/// The ops form a complete edit script over both whole sequences.
pub open spec fn ops_tile(ops: Seq<LineOp>, old_len: int, new_len: int) -> bool {
    ops_tile_from(ops, 0, 0, old_len, new_len)
}

/// An `Equal` op only relates slices that hold the same lines.
pub open spec fn op_matches(op: LineOp, old: Seq<Seq<char>>, new: Seq<Seq<char>>) -> bool {
    match op {
        LineOp::Equal { old_index, new_index, len } => {
            &&& old_index + len <= old.len()
            &&& new_index + len <= new.len()
            &&& forall|k: int|
                0 <= k < len ==> #[trigger] old[old_index + k] == new[new_index + k]
        },
        _ => true,
    }
}

pub open spec fn ops_match(ops: Seq<LineOp>, old: Seq<Seq<char>>, new: Seq<Seq<char>>) -> bool {
    forall|i: int| 0 <= i < ops.len() ==> op_matches(#[trigger] ops[i], old, new)
}

pub open spec fn ops_all_equal(ops: Seq<LineOp>) -> bool {
    forall|i: int| 0 <= i < ops.len() ==> (#[trigger] ops[i]) is Equal
}

/// The edit script the line-comparison primitive computes for two line
/// sequences.  The primitive is a pure function of the two sequences, so
/// its result can be given a name; nothing more is assumed about which of
/// several correct scripts it picks.
pub uninterp spec fn line_ops_of(old: Seq<Seq<char>>, new: Seq<Seq<char>>) -> Seq<LineOp>;

/// Relies on `similar::capture_diff_slices` with the Myers algorithm: the
/// returned ops are reported in order through the `Capture` hook and tile
/// both input ranges completely; `Equal` ops only cover positions where
/// both slices hold equal items; equal inputs are fully covered by their
/// common prefix and so yield only `Equal` ops; and with no deadline the
/// search is a deterministic function of the two input sequences.
#[verifier::external_body]
fn capture_line_ops(old: &Vec<String>, new: &Vec<String>) -> (r: Vec<LineOp>)
    ensures
        r@ == line_ops_of(old.deep_view(), new.deep_view()),
        ops_tile(r@, old@.len() as int, new@.len() as int),
        ops_match(r@, old.deep_view(), new.deep_view()),
        old.deep_view() == new.deep_view() ==> ops_all_equal(r@),
{
    let ops = similar::capture_diff_slices(similar::Algorithm::Myers, old.as_slice(), new.as_slice());
    let mut r = Vec::with_capacity(ops.len());
    for op in ops {
        r.push(match op {
            similar::DiffOp::Equal { old_index, new_index, len } => LineOp::Equal { old_index, new_index, len },
            similar::DiffOp::Delete { old_index, old_len, new_index } => LineOp::Delete { old_index, old_len, new_index },
            similar::DiffOp::Insert { old_index, new_index, new_len } => LineOp::Insert { old_index, new_index, new_len },
            similar::DiffOp::Replace { old_index, old_len, new_index, new_len } => LineOp::Replace { old_index, old_len, new_index, new_len },
        });
    }
    r
}

/// A run of `len` unchanged lines taken from the old side at `oi`, with
/// old numbers continuing from `oi` and new numbers from `ni`.
pub open spec fn unchanged_run(old: Seq<Seq<char>>, oi: int, ni: int, len: int) -> Seq<LineModel> {
    Seq::new(
        len as nat,
        |k: int|
            LineModel {
                kind: ChangeKind::Unchanged,
                old_lineno: Some(oi + k + 1),
                new_lineno: Some(ni + k + 1),
                content: old[oi + k],
            },
    )
}

/// A run of `len` removed lines taken from the old side at `oi`.
pub open spec fn removed_run(old: Seq<Seq<char>>, oi: int, len: int) -> Seq<LineModel> {
    Seq::new(
        len as nat,
        |k: int|
            LineModel {
                kind: ChangeKind::Removed,
                old_lineno: Some(oi + k + 1),
                new_lineno: None,
                content: old[oi + k],
            },
    )
}

/// A run of `len` added lines taken from the new side at `ni`.
pub open spec fn added_run(new: Seq<Seq<char>>, ni: int, len: int) -> Seq<LineModel> {
    Seq::new(
        len as nat,
        |k: int|
            LineModel {
                kind: ChangeKind::Added,
                old_lineno: None,
                new_lineno: Some(ni + k + 1),
                content: new[ni + k],
            },
    )
}

/// The numbered lines one op of the edit script expands to; a replacement
/// lists its removed lines before its added lines.
pub open spec fn expand_op(op: LineOp, old: Seq<Seq<char>>, new: Seq<Seq<char>>) -> Seq<LineModel> {
    match op {
        LineOp::Equal { old_index, new_index, len } => unchanged_run(
            old,
            old_index as int,
            new_index as int,
            len as int,
        ),
        LineOp::Delete { old_index, old_len, .. } => removed_run(old, old_index as int, old_len as int),
        LineOp::Insert { new_index, new_len, .. } => added_run(new, new_index as int, new_len as int),
        LineOp::Replace { old_index, old_len, new_index, new_len } => removed_run(
            old,
            old_index as int,
            old_len as int,
        ) + added_run(new, new_index as int, new_len as int),
    }
}

/// The numbered lines a whole edit script expands to, in script order.
pub open spec fn expand_ops(ops: Seq<LineOp>, old: Seq<Seq<char>>, new: Seq<Seq<char>>) -> Seq<LineModel>
    decreases ops.len(),
{
    if ops.len() == 0 {
        Seq::empty()
    } else {
        expand_op(ops[0], old, new) + expand_ops(ops.drop_first(), old, new)
    }
}

/// The lines of the diff of two texts: both texts split into lines, the
/// edit script of the two line sequences, expanded and numbered.
pub open spec fn diff_lines_model(old_text: Seq<char>, new_text: Seq<char>) -> Seq<LineModel> {
    let old = split_lines_spec(old_text);
    let new = split_lines_spec(new_text);
    expand_ops(line_ops_of(old, new), old, new)
}

/// The complete model of the diff of two texts under two paths.
pub open spec fn diff_model(
    old_path: Seq<char>,
    new_path: Seq<char>,
    old_text: Seq<char>,
    new_text: Seq<char>,
) -> FileDiffModel {
    FileDiffModel {
        old_path: old_path,
        new_path: new_path,
        lines: diff_lines_model(old_text, new_text),
    }
}

proof fn lemma_expand_ops_snoc(ops: Seq<LineOp>, op: LineOp, old: Seq<Seq<char>>, new: Seq<Seq<char>>)
    ensures
        expand_ops(ops.push(op), old, new) == expand_ops(ops, old, new) + expand_op(op, old, new),
    decreases ops.len(),
{
    if ops.len() == 0 {
        assert(ops.push(op)[0] == op);
        assert(ops.push(op).drop_first() =~= Seq::<LineOp>::empty());
        assert(expand_ops(Seq::<LineOp>::empty(), old, new) == Seq::<LineModel>::empty());
        assert(expand_op(op, old, new) + Seq::<LineModel>::empty() =~= expand_op(op, old, new));
        assert(Seq::<LineModel>::empty() + expand_op(op, old, new) =~= expand_op(op, old, new));
    } else {
        assert(ops.push(op)[0] == ops[0]);
        assert(ops.push(op).drop_first() =~= ops.drop_first().push(op));
        lemma_expand_ops_snoc(ops.drop_first(), op, old, new);
        assert(expand_op(ops[0], old, new) + (expand_ops(ops.drop_first(), old, new) + expand_op(
            op,
            old,
            new,
        )) =~= (expand_op(ops[0], old, new) + expand_ops(ops.drop_first(), old, new)) + expand_op(
            op,
            old,
            new,
        ));
    }
}

fn push_unchanged_run(r: &mut Vec<DiffLine>, old_lines: &Vec<String>, oi: usize, ni: usize, len: usize)
    requires
        oi + len <= old_lines.len(),
        ni + len <= usize::MAX,
    ensures
        final(r).deep_view() == old(r).deep_view() + unchanged_run(
            old_lines.deep_view(),
            oi as int,
            ni as int,
            len as int,
        ),
{
    let ghost base = r.deep_view();
    let mut k: usize = 0;
    proof {
        assert(r.deep_view() =~= base + unchanged_run(old_lines.deep_view(), oi as int, ni as int, 0));
    }
    while k < len
        invariant
            k <= len,
            oi + len <= old_lines.len(),
            ni + len <= usize::MAX,
            r.deep_view() == base + unchanged_run(old_lines.deep_view(), oi as int, ni as int, k as int),
        decreases len - k,
    {
        let line = DiffLine {
            kind: ChangeKind::Unchanged,
            old_lineno: Some(oi + k + 1),
            new_lineno: Some(ni + k + 1),
            content: old_lines[oi + k].clone(),
        };
        let ghost prev = r.deep_view();
        let ghost lv = line@;
        r.push(line);
        proof {
            assert(r.deep_view() =~= prev.push(lv));
            assert(r.deep_view() =~= base + unchanged_run(
                old_lines.deep_view(),
                oi as int,
                ni as int,
                k as int + 1,
            ));
        }
        k += 1;
    }
}

fn push_removed_run(r: &mut Vec<DiffLine>, old_lines: &Vec<String>, oi: usize, len: usize)
    requires
        oi + len <= old_lines.len(),
    ensures
        final(r).deep_view() == old(r).deep_view() + removed_run(old_lines.deep_view(), oi as int, len as int),
{
    let ghost base = r.deep_view();
    let mut k: usize = 0;
    proof {
        assert(r.deep_view() =~= base + removed_run(old_lines.deep_view(), oi as int, 0));
    }
    while k < len
        invariant
            k <= len,
            oi + len <= old_lines.len(),
            r.deep_view() == base + removed_run(old_lines.deep_view(), oi as int, k as int),
        decreases len - k,
    {
        let line = DiffLine {
            kind: ChangeKind::Removed,
            old_lineno: Some(oi + k + 1),
            new_lineno: None,
            content: old_lines[oi + k].clone(),
        };
        let ghost prev = r.deep_view();
        let ghost lv = line@;
        r.push(line);
        proof {
            assert(r.deep_view() =~= prev.push(lv));
            assert(r.deep_view() =~= base + removed_run(old_lines.deep_view(), oi as int, k as int + 1));
        }
        k += 1;
    }
}

fn push_added_run(r: &mut Vec<DiffLine>, new_lines: &Vec<String>, ni: usize, len: usize)
    requires
        ni + len <= new_lines.len(),
    ensures
        final(r).deep_view() == old(r).deep_view() + added_run(new_lines.deep_view(), ni as int, len as int),
{
    let ghost base = r.deep_view();
    let mut k: usize = 0;
    proof {
        assert(r.deep_view() =~= base + added_run(new_lines.deep_view(), ni as int, 0));
    }
    while k < len
        invariant
            k <= len,
            ni + len <= new_lines.len(),
            r.deep_view() == base + added_run(new_lines.deep_view(), ni as int, k as int),
        decreases len - k,
    {
        let line = DiffLine {
            kind: ChangeKind::Added,
            old_lineno: None,
            new_lineno: Some(ni + k + 1),
            content: new_lines[ni + k].clone(),
        };
        let ghost prev = r.deep_view();
        let ghost lv = line@;
        r.push(line);
        proof {
            assert(r.deep_view() =~= prev.push(lv));
            assert(r.deep_view() =~= base + added_run(new_lines.deep_view(), ni as int, k as int + 1));
        }
        k += 1;
    }
}

/// Expands a tiling edit script into the numbered diff lines.
fn build_lines(ops: &Vec<LineOp>, old_lines: &Vec<String>, new_lines: &Vec<String>) -> (r: Vec<DiffLine>)
    requires
        ops_tile(ops@, old_lines@.len() as int, new_lines@.len() as int),
    ensures
        r.deep_view() == expand_ops(ops@, old_lines.deep_view(), new_lines.deep_view()),
{
    let ghost odv = old_lines.deep_view();
    let ghost ndv = new_lines.deep_view();
    let old_count = old_lines.len();
    let new_count = new_lines.len();
    let ghost ol = old_count as int;
    let ghost nl = new_count as int;
    let mut r: Vec<DiffLine> = Vec::new();
    let mut j: usize = 0;
    let ghost mut pos_old: int = 0;
    let ghost mut pos_new: int = 0;
    proof {
        assert(ops@.skip(0) =~= ops@);
        assert(ops@.subrange(0, 0).len() == 0);
        assert(r.deep_view() =~= expand_ops(ops@.subrange(0, 0), odv, ndv));
    }
    while j < ops.len()
        invariant
            j <= ops@.len(),
            odv == old_lines.deep_view(),
            ndv == new_lines.deep_view(),
            ol == old_lines@.len() as int,
            nl == new_lines@.len() as int,
            ol == old_count as int,
            nl == new_count as int,
            0 <= pos_old,
            0 <= pos_new,
            ops_tile_from(ops@.skip(j as int), pos_old, pos_new, ol, nl),
            r.deep_view() == expand_ops(ops@.subrange(0, j as int), odv, ndv),
        decreases ops@.len() - j,
    {
        let op = ops[j];
        proof {
            assert(ops@.skip(j as int)[0] == ops@[j as int]);
        }
        let ghost prev = r.deep_view();
        match op {
            LineOp::Equal { old_index, new_index, len } => {
                push_unchanged_run(&mut r, old_lines, old_index, new_index, len);
            },
            LineOp::Delete { old_index, old_len, .. } => {
                push_removed_run(&mut r, old_lines, old_index, old_len);
            },
            LineOp::Insert { new_index, new_len, .. } => {
                push_added_run(&mut r, new_lines, new_index, new_len);
            },
            LineOp::Replace { old_index, old_len, new_index, new_len } => {
                push_removed_run(&mut r, old_lines, old_index, old_len);
                push_added_run(&mut r, new_lines, new_index, new_len);
                proof {
                    assert(r.deep_view() =~= prev + (removed_run(odv, old_index as int, old_len as int)
                        + added_run(ndv, new_index as int, new_len as int)));
                }
            },
        }
        proof {
            assert(r.deep_view() =~= prev + expand_op(ops@[j as int], odv, ndv));
            assert(ops@.subrange(0, j as int + 1) =~= ops@.subrange(0, j as int).push(ops@[j as int]));
            lemma_expand_ops_snoc(ops@.subrange(0, j as int), ops@[j as int], odv, ndv);
            assert(ops@.skip(j as int).drop_first() =~= ops@.skip(j as int + 1));
            pos_old = pos_old + op_old_take(ops@[j as int]);
            pos_new = pos_new + op_new_take(ops@[j as int]);
        }
        j += 1;
    }
    proof {
        assert(ops@.subrange(0, ops@.len() as int) =~= ops@);
    }
    r
}

/// The line-number fields a line's kind demands: the old number is present
/// iff the line exists in the old text, the new number iff it exists in
/// the new text.
pub open spec fn line_fields_wf(l: LineModel) -> bool {
    match l.kind {
        ChangeKind::Unchanged => l.old_lineno is Some && l.new_lineno is Some,
        ChangeKind::Removed => l.old_lineno is Some && l.new_lineno is None,
        ChangeKind::Added => l.old_lineno is None && l.new_lineno is Some,
    }
}

/// 1 where the line carries an old line number, else 0.
pub open spec fn old_inc(l: LineModel) -> int {
    if l.old_lineno is Some {
        1
    } else {
        0
    }
}

/// 1 where the line carries a new line number, else 0.
pub open spec fn new_inc(l: LineModel) -> int {
    if l.new_lineno is Some {
        1
    } else {
        0
    }
}

/// How many of the lines carry an old line number.
spec fn count_old_lines(lines: Seq<LineModel>) -> int
    decreases lines.len(),
{
    if lines.len() == 0 {
        0
    } else {
        old_inc(lines[0]) + count_old_lines(lines.drop_first())
    }
}

/// How many of the lines carry a new line number.
spec fn count_new_lines(lines: Seq<LineModel>) -> int
    decreases lines.len(),
{
    if lines.len() == 0 {
        0
    } else {
        new_inc(lines[0]) + count_new_lines(lines.drop_first())
    }
}

/// Every line has the fields its kind demands, and each line-number field,
/// where present, is exactly one more than the count of earlier lines with
/// that field — counting old numbers from `o` and new numbers from `n`.
/// With `o == n == 0` this says the subsequence of old (new) line numbers
/// is the consecutive integers 1, 2, 3, ...
pub open spec fn numbered_from(lines: Seq<LineModel>, o: int, n: int) -> bool
    decreases lines.len(),
{
    if lines.len() == 0 {
        true
    } else {
        let l = lines[0];
        &&& line_fields_wf(l)
        &&& (l.old_lineno is Some ==> l.old_lineno->0 == o + 1)
        &&& (l.new_lineno is Some ==> l.new_lineno->0 == n + 1)
        &&& numbered_from(lines.drop_first(), o + old_inc(l), n + new_inc(l))
    }
}

/// The canonical numbering of a diff: old line numbers are the consecutive
/// integers from 1 over the lines that have one, and likewise the new ones.
pub open spec fn lines_numbered(lines: Seq<LineModel>) -> bool {
    numbered_from(lines, 0, 0)
}

proof fn lemma_counts_concat(a: Seq<LineModel>, b: Seq<LineModel>)
    ensures
        count_old_lines(a + b) == count_old_lines(a) + count_old_lines(b),
        count_new_lines(a + b) == count_new_lines(a) + count_new_lines(b),
    decreases a.len(),
{
    if a.len() == 0 {
        assert(a + b =~= b);
    } else {
        assert((a + b)[0] == a[0]);
        assert((a + b).drop_first() =~= a.drop_first() + b);
        lemma_counts_concat(a.drop_first(), b);
    }
}

proof fn lemma_numbered_concat(a: Seq<LineModel>, b: Seq<LineModel>, o: int, n: int)
    requires
        numbered_from(a, o, n),
        numbered_from(b, o + count_old_lines(a), n + count_new_lines(a)),
    ensures
        numbered_from(a + b, o, n),
    decreases a.len(),
{
    if a.len() == 0 {
        assert(a + b =~= b);
    } else {
        assert((a + b)[0] == a[0]);
        assert((a + b).drop_first() =~= a.drop_first() + b);
        lemma_numbered_concat(a.drop_first(), b, o + old_inc(a[0]), n + new_inc(a[0]));
    }
}

proof fn lemma_unchanged_run_numbered(old: Seq<Seq<char>>, oi: int, ni: int, len: int)
    requires
        len >= 0,
    ensures
        numbered_from(unchanged_run(old, oi, ni, len), oi, ni),
        count_old_lines(unchanged_run(old, oi, ni, len)) == len,
        count_new_lines(unchanged_run(old, oi, ni, len)) == len,
    decreases len,
{
    if len > 0 {
        assert(unchanged_run(old, oi, ni, len).drop_first() =~= unchanged_run(
            old,
            oi + 1,
            ni + 1,
            len - 1,
        ));
        lemma_unchanged_run_numbered(old, oi + 1, ni + 1, len - 1);
    }
}

proof fn lemma_removed_run_numbered(old: Seq<Seq<char>>, oi: int, n: int, len: int)
    requires
        len >= 0,
    ensures
        numbered_from(removed_run(old, oi, len), oi, n),
        count_old_lines(removed_run(old, oi, len)) == len,
        count_new_lines(removed_run(old, oi, len)) == 0,
    decreases len,
{
    if len > 0 {
        assert(removed_run(old, oi, len).drop_first() =~= removed_run(old, oi + 1, len - 1));
        lemma_removed_run_numbered(old, oi + 1, n, len - 1);
    }
}

proof fn lemma_added_run_numbered(new: Seq<Seq<char>>, o: int, ni: int, len: int)
    requires
        len >= 0,
    ensures
        numbered_from(added_run(new, ni, len), o, ni),
        count_old_lines(added_run(new, ni, len)) == 0,
        count_new_lines(added_run(new, ni, len)) == len,
    decreases len,
{
    if len > 0 {
        assert(added_run(new, ni, len).drop_first() =~= added_run(new, ni + 1, len - 1));
        lemma_added_run_numbered(new, o, ni + 1, len - 1);
    }
}

proof fn lemma_expand_op_numbered(op: LineOp, old: Seq<Seq<char>>, new: Seq<Seq<char>>)
    ensures
        numbered_from(expand_op(op, old, new), op_old_start(op), op_new_start(op)),
        count_old_lines(expand_op(op, old, new)) == op_old_take(op),
        count_new_lines(expand_op(op, old, new)) == op_new_take(op),
{
    match op {
        LineOp::Equal { old_index, new_index, len } => {
            lemma_unchanged_run_numbered(old, old_index as int, new_index as int, len as int);
        },
        LineOp::Delete { old_index, old_len, new_index } => {
            lemma_removed_run_numbered(old, old_index as int, new_index as int, old_len as int);
        },
        LineOp::Insert { old_index, new_index, new_len } => {
            lemma_added_run_numbered(new, old_index as int, new_index as int, new_len as int);
        },
        LineOp::Replace { old_index, old_len, new_index, new_len } => {
            lemma_removed_run_numbered(old, old_index as int, new_index as int, old_len as int);
            lemma_added_run_numbered(new, old_index + old_len, new_index as int, new_len as int);
            lemma_counts_concat(
                removed_run(old, old_index as int, old_len as int),
                added_run(new, new_index as int, new_len as int),
            );
            lemma_numbered_concat(
                removed_run(old, old_index as int, old_len as int),
                added_run(new, new_index as int, new_len as int),
                old_index as int,
                new_index as int,
            );
        },
    }
}

proof fn lemma_expand_ops_numbered(
    ops: Seq<LineOp>,
    old: Seq<Seq<char>>,
    new: Seq<Seq<char>>,
    o: int,
    n: int,
    old_len: int,
    new_len: int,
)
    requires
        ops_tile_from(ops, o, n, old_len, new_len),
    ensures
        numbered_from(expand_ops(ops, old, new), o, n),
        count_old_lines(expand_ops(ops, old, new)) == old_len - o,
        count_new_lines(expand_ops(ops, old, new)) == new_len - n,
    decreases ops.len(),
{
    if ops.len() > 0 {
        let head = expand_op(ops[0], old, new);
        let rest = expand_ops(ops.drop_first(), old, new);
        lemma_expand_op_numbered(ops[0], old, new);
        lemma_expand_ops_numbered(
            ops.drop_first(),
            old,
            new,
            o + op_old_take(ops[0]),
            n + op_new_take(ops[0]),
            old_len,
            new_len,
        );
        lemma_counts_concat(head, rest);
        lemma_numbered_concat(head, rest, o, n);
    }
}

/// The texts of the lines present in the old text (`Unchanged` and
/// `Removed`), in order.
pub open spec fn old_side_texts(lines: Seq<LineModel>) -> Seq<Seq<char>>
    decreases lines.len(),
{
    if lines.len() == 0 {
        Seq::empty()
    } else {
        (if lines[0].kind != ChangeKind::Added {
            seq![lines[0].content]
        } else {
            Seq::<Seq<char>>::empty()
        }) + old_side_texts(lines.drop_first())
    }
}

/// The texts of the lines present in the new text (`Unchanged` and
/// `Added`), in order.
pub open spec fn new_side_texts(lines: Seq<LineModel>) -> Seq<Seq<char>>
    decreases lines.len(),
{
    if lines.len() == 0 {
        Seq::empty()
    } else {
        (if lines[0].kind != ChangeKind::Removed {
            seq![lines[0].content]
        } else {
            Seq::<Seq<char>>::empty()
        }) + new_side_texts(lines.drop_first())
    }
}

proof fn lemma_side_texts_concat(a: Seq<LineModel>, b: Seq<LineModel>)
    ensures
        old_side_texts(a + b) == old_side_texts(a) + old_side_texts(b),
        new_side_texts(a + b) == new_side_texts(a) + new_side_texts(b),
    decreases a.len(),
{
    if a.len() == 0 {
        assert(a + b =~= b);
        assert(old_side_texts(a) + old_side_texts(b) =~= old_side_texts(b));
        assert(new_side_texts(a) + new_side_texts(b) =~= new_side_texts(b));
    } else {
        assert((a + b)[0] == a[0]);
        assert((a + b).drop_first() =~= a.drop_first() + b);
        lemma_side_texts_concat(a.drop_first(), b);
        let ha = if a[0].kind != ChangeKind::Added {
            seq![a[0].content]
        } else {
            Seq::<Seq<char>>::empty()
        };
        let hn = if a[0].kind != ChangeKind::Removed {
            seq![a[0].content]
        } else {
            Seq::<Seq<char>>::empty()
        };
        assert(ha + (old_side_texts(a.drop_first()) + old_side_texts(b)) =~= (ha + old_side_texts(
            a.drop_first(),
        )) + old_side_texts(b));
        assert(hn + (new_side_texts(a.drop_first()) + new_side_texts(b)) =~= (hn + new_side_texts(
            a.drop_first(),
        )) + new_side_texts(b));
    }
}

proof fn lemma_unchanged_run_sides(old: Seq<Seq<char>>, new: Seq<Seq<char>>, oi: int, ni: int, len: int)
    requires
        len >= 0,
        0 <= oi,
        0 <= ni,
        oi + len <= old.len(),
        ni + len <= new.len(),
        forall|k: int| 0 <= k < len ==> #[trigger] old[oi + k] == new[ni + k],
    ensures
        old_side_texts(unchanged_run(old, oi, ni, len)) == old.subrange(oi, oi + len),
        new_side_texts(unchanged_run(old, oi, ni, len)) == new.subrange(ni, ni + len),
    decreases len,
{
    if len == 0 {
        assert(old.subrange(oi, oi).len() == 0);
        assert(old_side_texts(unchanged_run(old, oi, ni, 0)) =~= old.subrange(oi, oi));
        assert(new_side_texts(unchanged_run(old, oi, ni, 0)) =~= new.subrange(ni, ni));
    } else {
        assert(unchanged_run(old, oi, ni, len).drop_first() =~= unchanged_run(
            old,
            oi + 1,
            ni + 1,
            len - 1,
        ));
        assert forall|k: int| 0 <= k < len - 1 implies #[trigger] old[oi + 1 + k] == new[ni + 1
            + k] by {
            assert(old[oi + (k + 1)] == new[ni + (k + 1)]);
        }
        lemma_unchanged_run_sides(old, new, oi + 1, ni + 1, len - 1);
        assert(unchanged_run(old, oi, ni, len)[0].content == old[oi]);
        assert(old[oi] == new[ni]);
        assert(seq![old[oi]] + old.subrange(oi + 1, oi + len) =~= old.subrange(oi, oi + len));
        assert(seq![new[ni]] + new.subrange(ni + 1, ni + len) =~= new.subrange(ni, ni + len));
    }
}

proof fn lemma_removed_run_sides(old: Seq<Seq<char>>, oi: int, len: int)
    requires
        len >= 0,
        0 <= oi,
        oi + len <= old.len(),
    ensures
        old_side_texts(removed_run(old, oi, len)) == old.subrange(oi, oi + len),
        new_side_texts(removed_run(old, oi, len)) == Seq::<Seq<char>>::empty(),
    decreases len,
{
    if len == 0 {
        assert(old_side_texts(removed_run(old, oi, 0)) =~= old.subrange(oi, oi));
    } else {
        assert(removed_run(old, oi, len).drop_first() =~= removed_run(old, oi + 1, len - 1));
        lemma_removed_run_sides(old, oi + 1, len - 1);
        assert(seq![old[oi]] + old.subrange(oi + 1, oi + len) =~= old.subrange(oi, oi + len));
        assert(Seq::<Seq<char>>::empty() + Seq::<Seq<char>>::empty() =~= Seq::<Seq<char>>::empty());
    }
}

proof fn lemma_added_run_sides(new: Seq<Seq<char>>, ni: int, len: int)
    requires
        len >= 0,
        0 <= ni,
        ni + len <= new.len(),
    ensures
        old_side_texts(added_run(new, ni, len)) == Seq::<Seq<char>>::empty(),
        new_side_texts(added_run(new, ni, len)) == new.subrange(ni, ni + len),
    decreases len,
{
    if len == 0 {
        assert(new_side_texts(added_run(new, ni, 0)) =~= new.subrange(ni, ni));
    } else {
        assert(added_run(new, ni, len).drop_first() =~= added_run(new, ni + 1, len - 1));
        lemma_added_run_sides(new, ni + 1, len - 1);
        assert(seq![new[ni]] + new.subrange(ni + 1, ni + len) =~= new.subrange(ni, ni + len));
        assert(Seq::<Seq<char>>::empty() + Seq::<Seq<char>>::empty() =~= Seq::<Seq<char>>::empty());
    }
}

proof fn lemma_expand_op_sides(op: LineOp, old: Seq<Seq<char>>, new: Seq<Seq<char>>)
    requires
        op_matches(op, old, new),
        0 <= op_old_start(op),
        0 <= op_new_start(op),
        op_old_start(op) + op_old_take(op) <= old.len(),
        op_new_start(op) + op_new_take(op) <= new.len(),
    ensures
        old_side_texts(expand_op(op, old, new)) == old.subrange(
            op_old_start(op),
            op_old_start(op) + op_old_take(op),
        ),
        new_side_texts(expand_op(op, old, new)) == new.subrange(
            op_new_start(op),
            op_new_start(op) + op_new_take(op),
        ),
{
    match op {
        LineOp::Equal { old_index, new_index, len } => {
            lemma_unchanged_run_sides(old, new, old_index as int, new_index as int, len as int);
        },
        LineOp::Delete { old_index, old_len, new_index } => {
            lemma_removed_run_sides(old, old_index as int, old_len as int);
            assert(new.subrange(new_index as int, new_index as int) =~= Seq::<Seq<char>>::empty());
        },
        LineOp::Insert { old_index, new_index, new_len } => {
            lemma_added_run_sides(new, new_index as int, new_len as int);
            assert(old.subrange(old_index as int, old_index as int) =~= Seq::<Seq<char>>::empty());
        },
        LineOp::Replace { old_index, old_len, new_index, new_len } => {
            lemma_removed_run_sides(old, old_index as int, old_len as int);
            lemma_added_run_sides(new, new_index as int, new_len as int);
            lemma_side_texts_concat(
                removed_run(old, old_index as int, old_len as int),
                added_run(new, new_index as int, new_len as int),
            );
            assert(old.subrange(old_index as int, old_index + old_len) + Seq::<Seq<char>>::empty()
                =~= old.subrange(old_index as int, old_index + old_len));
            assert(Seq::<Seq<char>>::empty() + new.subrange(new_index as int, new_index + new_len)
                =~= new.subrange(new_index as int, new_index + new_len));
        },
    }
}

proof fn lemma_expand_ops_sides(
    ops: Seq<LineOp>,
    old: Seq<Seq<char>>,
    new: Seq<Seq<char>>,
    o: int,
    n: int,
)
    requires
        0 <= o,
        0 <= n,
        ops_tile_from(ops, o, n, old.len() as int, new.len() as int),
        ops_match(ops, old, new),
    ensures
        old_side_texts(expand_ops(ops, old, new)) == old.subrange(o, old.len() as int),
        new_side_texts(expand_ops(ops, old, new)) == new.subrange(n, new.len() as int),
    decreases ops.len(),
{
    if ops.len() == 0 {
        assert(old.subrange(o, old.len() as int).len() == 0);
        assert(old_side_texts(Seq::<LineModel>::empty()) =~= old.subrange(o, old.len() as int));
        assert(new_side_texts(Seq::<LineModel>::empty()) =~= new.subrange(n, new.len() as int));
    } else {
        let head = expand_op(ops[0], old, new);
        let rest = expand_ops(ops.drop_first(), old, new);
        assert(op_matches(ops[0], old, new));
        assert(ops_match(ops.drop_first(), old, new)) by {
            assert(forall|i: int|
                0 <= i < ops.drop_first().len() ==> #[trigger] ops.drop_first()[i] == ops[i + 1]);
        }
        lemma_expand_op_sides(ops[0], old, new);
        lemma_expand_ops_sides(
            ops.drop_first(),
            old,
            new,
            o + op_old_take(ops[0]),
            n + op_new_take(ops[0]),
        );
        lemma_side_texts_concat(head, rest);
        assert(old.subrange(o, o + op_old_take(ops[0])) + old.subrange(
            o + op_old_take(ops[0]),
            old.len() as int,
        ) =~= old.subrange(o, old.len() as int));
        assert(new.subrange(n, n + op_new_take(ops[0])) + new.subrange(
            n + op_new_take(ops[0]),
            new.len() as int,
        ) =~= new.subrange(n, new.len() as int));
    }
}

/// Every line is `Unchanged` and carries the same old and new number.
pub open spec fn all_unchanged_aligned(lines: Seq<LineModel>) -> bool {
    forall|i: int|
        0 <= i < lines.len() ==> {
            let l = #[trigger] lines[i];
            &&& l.kind == ChangeKind::Unchanged
            &&& l.old_lineno is Some
            &&& l.new_lineno == l.old_lineno
        }
}

proof fn lemma_expand_ops_all_equal(
    ops: Seq<LineOp>,
    old: Seq<Seq<char>>,
    new: Seq<Seq<char>>,
    o: int,
    old_len: int,
    new_len: int,
)
    requires
        ops_tile_from(ops, o, o, old_len, new_len),
        ops_all_equal(ops),
    ensures
        all_unchanged_aligned(expand_ops(ops, old, new)),
    decreases ops.len(),
{
    if ops.len() > 0 {
        let head = expand_op(ops[0], old, new);
        let rest = expand_ops(ops.drop_first(), old, new);
        assert(ops[0] is Equal);
        assert(op_old_take(ops[0]) == op_new_take(ops[0]));
        assert(ops_all_equal(ops.drop_first())) by {
            assert(forall|i: int|
                0 <= i < ops.drop_first().len() ==> #[trigger] ops.drop_first()[i] == ops[i + 1]);
        }
        lemma_expand_ops_all_equal(
            ops.drop_first(),
            old,
            new,
            o + op_old_take(ops[0]),
            old_len,
            new_len,
        );
        assert forall|i: int| 0 <= i < (head + rest).len() implies {
            let l = #[trigger] (head + rest)[i];
            &&& l.kind == ChangeKind::Unchanged
            &&& l.old_lineno is Some
            &&& l.new_lineno == l.old_lineno
        } by {
            if i < head.len() {
                assert((head + rest)[i] == head[i]);
            } else {
                assert((head + rest)[i] == rest[i - head.len()]);
            }
        }
    }
}

impl FileDiff {
    /// Builds the normalized, line-numbered diff of two texts.  Never
    /// fails: any two texts, including empty ones, have a diff.  The old
    /// line numbers count 1, 2, 3, ... over the lines present in the old
    /// text, the new ones over the lines present in the new text; the
    /// lines present in the old text carry exactly the old text's lines as
    /// content, and likewise for the new side; equal texts give a diff of
    /// unchanged lines only, each numbered alike.
    pub fn from_contents(old_path: &str, new_path: &str, old_content: &str, new_content: &str) -> (r:
        FileDiff)
        ensures
            r@ == diff_model(old_path@, new_path@, old_content@, new_content@),
            lines_numbered(r@.lines),
            old_side_texts(r@.lines) == split_lines_spec(old_content@),
            new_side_texts(r@.lines) == split_lines_spec(new_content@),
            old_content@ == new_content@ ==> all_unchanged_aligned(r@.lines),
    {
        let old_lines = split_lines(old_content);
        let new_lines = split_lines(new_content);
        let ops = capture_line_ops(&old_lines, &new_lines);
        let lines = build_lines(&ops, &old_lines, &new_lines);
        proof {
            let odv = old_lines.deep_view();
            let ndv = new_lines.deep_view();
            lemma_expand_ops_numbered(
                ops@,
                odv,
                ndv,
                0,
                0,
                old_lines@.len() as int,
                new_lines@.len() as int,
            );
            assert(odv.len() == old_lines@.len());
            assert(ndv.len() == new_lines@.len());
            lemma_expand_ops_sides(ops@, odv, ndv, 0, 0);
            assert(odv.subrange(0, odv.len() as int) =~= odv);
            assert(ndv.subrange(0, ndv.len() as int) =~= ndv);
            if old_content@ == new_content@ {
                assert(odv == ndv);
                lemma_expand_ops_all_equal(
                    ops@,
                    odv,
                    ndv,
                    0,
                    old_lines@.len() as int,
                    new_lines@.len() as int,
                );
            }
        }
        FileDiff { old_path: old_path.to_owned(), new_path: new_path.to_owned(), lines }
    }
}

/// Law: building the diff of the same two texts twice yields structurally
/// identical results — the model of the diff is a function of the two
/// paths and the two texts alone.
pub proof fn lemma_diff_idempotent(
    old_path: Seq<char>,
    new_path: Seq<char>,
    old_text: Seq<char>,
    new_text: Seq<char>,
    d1: FileDiffModel,
    d2: FileDiffModel,
)
    requires
        d1 == diff_model(old_path, new_path, old_text, new_text),
        d2 == diff_model(old_path, new_path, old_text, new_text),
    ensures
        d1 == d2,
{
}

} // verus!
