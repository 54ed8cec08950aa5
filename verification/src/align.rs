//! Dual-view aligner: reconstructs paired left/right rows from a
//! normalized diff line sequence, for side-by-side display.
//!
//! Removed lines wait in a FIFO queue until an added line pairs with the
//! oldest of them; an unchanged line first flushes the queue as left-only
//! rows and then occupies both sides of its own row.

use vstd::prelude::*;

use crate::diff::ChangeKind;
use crate::diff::DiffLine;
use crate::diff::LineModel;

verus! {

/// One row of the dual-pane view.  `left` comes from a `Removed` or
/// `Unchanged` line, `right` from an `Added` or `Unchanged` line; the two
/// sides are never both absent.
pub struct SideBySideLine {
    pub left: Option<DiffLine>,
    pub right: Option<DiffLine>,
}

/// Mathematical model of a [`SideBySideLine`].
pub ghost struct RowModel {
    pub left: Option<LineModel>,
    pub right: Option<LineModel>,
}

impl View for SideBySideLine {
    type V = RowModel;

    open spec fn view(&self) -> RowModel {
        RowModel {
            left: match self.left {
                Some(l) => Some(l@),
                None => None,
            },
            right: match self.right {
                Some(l) => Some(l@),
                None => None,
            },
        }
    }
}

impl DeepView for SideBySideLine {
    type V = RowModel;

    open spec fn deep_view(&self) -> RowModel {
        self.view()
    }
}

/// The rows that flush a pending queue of removed lines: each on the left,
/// nothing on the right.
pub open spec fn left_only_rows(pending: Seq<LineModel>) -> Seq<RowModel> {
    Seq::new(pending.len(), |k: int| RowModel { left: Some(pending[k]), right: None })
}

/// The alignment of `lines` with `pending` removed lines still waiting to
/// be paired, oldest first.
pub open spec fn align_rec(lines: Seq<LineModel>, pending: Seq<LineModel>) -> Seq<RowModel>
    decreases lines.len(),
{
    if lines.len() == 0 {
        left_only_rows(pending)
    } else {
        let l = lines[0];
        let rest = lines.drop_first();
        match l.kind {
            ChangeKind::Removed => align_rec(rest, pending.push(l)),
            ChangeKind::Added => if pending.len() > 0 {
                seq![RowModel { left: Some(pending[0]), right: Some(l) }] + align_rec(
                    rest,
                    pending.drop_first(),
                )
            } else {
                seq![RowModel { left: None, right: Some(l) }] + align_rec(rest, pending)
            },
            ChangeKind::Unchanged => left_only_rows(pending) + (seq![
                RowModel { left: Some(l), right: Some(l) },
            ] + align_rec(rest, Seq::empty())),
        }
    }
}

/// The side-by-side alignment of a diff line sequence.
pub open spec fn align_spec(lines: Seq<LineModel>) -> Seq<RowModel> {
    align_rec(lines, Seq::empty())
}

/// How many of the lines have the given kind.
pub open spec fn count_kind(lines: Seq<LineModel>, kind: ChangeKind) -> int
    decreases lines.len(),
{
    if lines.len() == 0 {
        0
    } else {
        (if lines[0].kind == kind {
            1int
        } else {
            0int
        }) + count_kind(lines.drop_first(), kind)
    }
}

/// How many of the rows have a left side.
pub open spec fn count_left(rows: Seq<RowModel>) -> int
    decreases rows.len(),
{
    if rows.len() == 0 {
        0
    } else {
        (if rows[0].left is Some {
            1int
        } else {
            0int
        }) + count_left(rows.drop_first())
    }
}

/// How many of the rows have a right side.
pub open spec fn count_right(rows: Seq<RowModel>) -> int
    decreases rows.len(),
{
    if rows.len() == 0 {
        0
    } else {
        (if rows[0].right is Some {
            1int
        } else {
            0int
        }) + count_right(rows.drop_first())
    }
}

/// No row is empty: every row shows a line on at least one side.
pub open spec fn rows_wf(rows: Seq<RowModel>) -> bool {
    forall|i: int|
        0 <= i < rows.len() ==> (#[trigger] rows[i]).left is Some || rows[i].right is Some
}

proof fn lemma_row_counts_concat(a: Seq<RowModel>, b: Seq<RowModel>)
    ensures
        count_left(a + b) == count_left(a) + count_left(b),
        count_right(a + b) == count_right(a) + count_right(b),
    decreases a.len(),
{
    if a.len() == 0 {
        assert(a + b =~= b);
    } else {
        assert((a + b)[0] == a[0]);
        assert((a + b).drop_first() =~= a.drop_first() + b);
        lemma_row_counts_concat(a.drop_first(), b);
    }
}

proof fn lemma_row_counts_single(r: RowModel)
    ensures
        count_left(seq![r]) == if r.left is Some {
            1int
        } else {
            0int
        },
        count_right(seq![r]) == if r.right is Some {
            1int
        } else {
            0int
        },
{
    assert(seq![r].drop_first() =~= Seq::<RowModel>::empty());
    assert(count_left(Seq::<RowModel>::empty()) == 0);
    assert(count_right(Seq::<RowModel>::empty()) == 0);
}

proof fn lemma_left_only_counts(pending: Seq<LineModel>)
    ensures
        count_left(left_only_rows(pending)) == pending.len(),
        count_right(left_only_rows(pending)) == 0,
        rows_wf(left_only_rows(pending)),
    decreases pending.len(),
{
    if pending.len() > 0 {
        assert(left_only_rows(pending).drop_first() =~= left_only_rows(pending.drop_first()));
        lemma_left_only_counts(pending.drop_first());
    }
}

proof fn lemma_align_rec_counts(lines: Seq<LineModel>, pending: Seq<LineModel>)
    ensures
        count_left(align_rec(lines, pending)) == pending.len() + count_kind(lines, ChangeKind::Removed)
            + count_kind(lines, ChangeKind::Unchanged),
        count_right(align_rec(lines, pending)) == count_kind(lines, ChangeKind::Added) + count_kind(
            lines,
            ChangeKind::Unchanged,
        ),
        rows_wf(align_rec(lines, pending)),
    decreases lines.len(),
{
    if lines.len() == 0 {
        lemma_left_only_counts(pending);
    } else {
        let l = lines[0];
        let rest = lines.drop_first();
        match l.kind {
            ChangeKind::Removed => {
                lemma_align_rec_counts(rest, pending.push(l));
            },
            ChangeKind::Added => {
                if pending.len() > 0 {
                    let head = seq![RowModel { left: Some(pending[0]), right: Some(l) }];
                    lemma_row_counts_single(RowModel { left: Some(pending[0]), right: Some(l) });
                    lemma_align_rec_counts(rest, pending.drop_first());
                    lemma_row_counts_concat(head, align_rec(rest, pending.drop_first()));
                    assert forall|i: int|
                        0 <= i < (head + align_rec(rest, pending.drop_first())).len() implies {
                        let row = #[trigger] (head + align_rec(rest, pending.drop_first()))[i];
                        row.left is Some || row.right is Some
                    } by {
                        if i >= 1 {
                            assert((head + align_rec(rest, pending.drop_first()))[i] == align_rec(
                                rest,
                                pending.drop_first(),
                            )[i - 1]);
                        }
                    }
                } else {
                    let head = seq![RowModel { left: None, right: Some(l) }];
                    lemma_row_counts_single(RowModel { left: None, right: Some(l) });
                    lemma_align_rec_counts(rest, pending);
                    lemma_row_counts_concat(head, align_rec(rest, pending));
                    assert forall|i: int| 0 <= i < (head + align_rec(rest, pending)).len() implies {
                        let row = #[trigger] (head + align_rec(rest, pending))[i];
                        row.left is Some || row.right is Some
                    } by {
                        if i >= 1 {
                            assert((head + align_rec(rest, pending))[i] == align_rec(rest, pending)[i
                                - 1]);
                        }
                    }
                }
            },
            ChangeKind::Unchanged => {
                let flushed = left_only_rows(pending);
                let head = seq![RowModel { left: Some(l), right: Some(l) }];
                let tail = align_rec(rest, Seq::empty());
                lemma_row_counts_single(RowModel { left: Some(l), right: Some(l) });
                lemma_left_only_counts(pending);
                lemma_align_rec_counts(rest, Seq::empty());
                lemma_row_counts_concat(head, tail);
                lemma_row_counts_concat(flushed, head + tail);
                assert forall|i: int| 0 <= i < (flushed + (head + tail)).len() implies {
                    let row = #[trigger] (flushed + (head + tail))[i];
                    row.left is Some || row.right is Some
                } by {
                    if i < flushed.len() {
                        assert((flushed + (head + tail))[i] == flushed[i]);
                    } else if i > flushed.len() {
                        assert((flushed + (head + tail))[i] == tail[i - flushed.len() - 1]);
                    }
                }
            },
        }
    }
}

/// Law: alignment conserves the diff lines.  The rows with a left side are
/// exactly the removed and unchanged lines, the rows with a right side
/// exactly the added and unchanged lines, and no row is empty.
pub proof fn lemma_alignment_conservation(lines: Seq<LineModel>)
    ensures
        count_left(align_spec(lines)) == count_kind(lines, ChangeKind::Removed) + count_kind(
            lines,
            ChangeKind::Unchanged,
        ),
        count_right(align_spec(lines)) == count_kind(lines, ChangeKind::Added) + count_kind(
            lines,
            ChangeKind::Unchanged,
        ),
        rows_wf(align_spec(lines)),
{
    lemma_align_rec_counts(lines, Seq::empty());
}

/// Appends one left-only row per pending line.
fn flush_pending(result: &mut Vec<SideBySideLine>, pending: &Vec<DiffLine>)
    ensures
        final(result).deep_view() == old(result).deep_view() + left_only_rows(pending.deep_view()),
{
    let ghost base = result.deep_view();
    let ghost pdv = pending.deep_view();
    let mut k: usize = 0;
    proof {
        assert(result.deep_view() =~= base + left_only_rows(pdv).subrange(0, 0));
    }
    while k < pending.len()
        invariant
            k <= pending.len(),
            pdv == pending.deep_view(),
            result.deep_view() == base + left_only_rows(pdv).subrange(0, k as int),
        decreases pending.len() - k,
    {
        let row = SideBySideLine { left: Some(pending[k].clone()), right: None };
        let ghost prev = result.deep_view();
        let ghost rv = row@;
        result.push(row);
        proof {
            assert(result.deep_view() =~= prev.push(rv));
            assert(result.deep_view() =~= base + left_only_rows(pdv).subrange(0, k as int + 1));
        }
        k += 1;
    }
    proof {
        assert(left_only_rows(pdv).subrange(0, pending@.len() as int) =~= left_only_rows(pdv));
    }
}

/// Pairs the diff lines into side-by-side rows: each added line takes the
/// oldest waiting removed line as its left side; unchanged lines flush the
/// waiting removed lines and then stand on both sides of one row.
pub fn to_side_by_side(lines: &Vec<DiffLine>) -> (r: Vec<SideBySideLine>)
    ensures
        r.deep_view() == align_spec(lines.deep_view()),
{
    let ghost ldv = lines.deep_view();
    let mut result: Vec<SideBySideLine> = Vec::new();
    let mut pending: Vec<DiffLine> = Vec::new();
    let mut i: usize = 0;
    proof {
        assert(ldv.skip(0) =~= ldv);
        assert(pending.deep_view() =~= Seq::<LineModel>::empty());
        assert(result.deep_view() =~= Seq::<RowModel>::empty());
        assert(result.deep_view() + align_rec(ldv.skip(0), pending.deep_view()) =~= align_spec(ldv));
    }
    while i < lines.len()
        invariant
            i <= lines.len(),
            ldv == lines.deep_view(),
            align_spec(ldv) == result.deep_view() + align_rec(ldv.skip(i as int), pending.deep_view()),
        decreases lines@.len() - i,
    {
        let line = &lines[i];
        let ghost rem = ldv.skip(i as int);
        proof {
            assert(rem[0] == ldv[i as int]);
            assert(rem.drop_first() =~= ldv.skip(i as int + 1));
        }
        match line.kind {
            ChangeKind::Removed => {
                let ghost pprev = pending.deep_view();
                pending.push(line.clone());
                proof {
                    assert(pending.deep_view() =~= pprev.push(ldv[i as int]));
                }
            },
            ChangeKind::Added => {
                if pending.len() > 0 {
                    let ghost pprev = pending.deep_view();
                    let del = pending.remove(0);
                    let row = SideBySideLine { left: Some(del), right: Some(line.clone()) };
                    let ghost prev = result.deep_view();
                    let ghost rv = row@;
                    result.push(row);
                    proof {
                        assert(pending.deep_view() =~= pprev.drop_first());
                        assert(result.deep_view() =~= prev.push(rv));
                        assert(rv == RowModel { left: Some(pprev[0]), right: Some(ldv[i as int]) });
                        assert(result.deep_view() + align_rec(rem.drop_first(), pprev.drop_first())
                            =~= prev + (seq![rv] + align_rec(rem.drop_first(), pprev.drop_first())));
                    }
                } else {
                    let row = SideBySideLine { left: None, right: Some(line.clone()) };
                    let ghost prev = result.deep_view();
                    let ghost rv = row@;
                    result.push(row);
                    proof {
                        assert(pending.deep_view().len() == 0);
                        assert(result.deep_view() =~= prev.push(rv));
                        assert(result.deep_view() + align_rec(rem.drop_first(), pending.deep_view())
                            =~= prev + (seq![rv] + align_rec(rem.drop_first(), pending.deep_view())));
                    }
                }
            },
            ChangeKind::Unchanged => {
                let ghost pprev = pending.deep_view();
                let ghost prev = result.deep_view();
                flush_pending(&mut result, &pending);
                pending.clear();
                let row = SideBySideLine { left: Some(line.clone()), right: Some(line.clone()) };
                let ghost mid = result.deep_view();
                let ghost rv = row@;
                result.push(row);
                proof {
                    assert(pending.deep_view() =~= Seq::<LineModel>::empty());
                    assert(rv == RowModel { left: Some(ldv[i as int]), right: Some(ldv[i as int]) });
                    assert(result.deep_view() =~= mid.push(rv));
                    assert(result.deep_view() + align_rec(rem.drop_first(), pending.deep_view())
                        =~= prev + (left_only_rows(pprev) + (seq![rv] + align_rec(
                        rem.drop_first(),
                        Seq::empty(),
                    ))));
                }
            },
        }
        i += 1;
    }
    proof {
        assert(ldv.skip(ldv.len() as int).len() == 0);
    }
    flush_pending(&mut result, &pending);
    proof {
        assert(align_rec(ldv.skip(ldv.len() as int), pending.deep_view()) == left_only_rows(
            pending.deep_view(),
        ));
    }
    result
}

} // verus!
