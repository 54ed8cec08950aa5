//! The small pieces of viewer state and labeling that are pure data
//! logic: which view and panel a viewer shows, the display name of a file
//! pair, and the change counts a file list shows beside each entry.

use vstd::prelude::*;
use vstd::string::StringExecFns;

use crate::align::count_kind;
use crate::diff::ChangeKind;
use crate::diff::FileDiff;

verus! {

/// Whether the diff body is shown as one column or side by side.
#[derive(Clone, Copy, PartialEq, Eq, Structural, Debug)]
pub enum ViewMode {
    Unified,
    SideBySide,
}

/// Whether the file panel lists paths flat or as a tree.
#[derive(Clone, Copy, PartialEq, Eq, Structural, Debug)]
pub enum PanelMode {
    List,
    Tree,
}

/// The name a file pair is listed under: the shared path for an in-place
/// edit, or both paths joined by an arrow for a rename.
pub fn file_display_name(diff: &FileDiff) -> (r: String)
    ensures
        diff.old_path@ == diff.new_path@ ==> r@ == diff.old_path@,
        diff.old_path@ != diff.new_path@ ==> r@ == diff.old_path@ + " → "@ + diff.new_path@,
{
    if diff.old_path == diff.new_path {
        diff.old_path.clone()
    } else {
        let mut s = diff.old_path.clone();
        s.append(" → ");
        s.append(diff.new_path.as_str());
        s
    }
}

/// How many lines of the diff have the given kind.
pub fn count_lines_of_kind(diff: &FileDiff, kind: ChangeKind) -> (r: usize)
    ensures
        r as int == count_kind(diff@.lines, kind),
{
    let n = diff.lines.len();
    let mut count: usize = 0;
    let mut i: usize = 0;
    proof {
        assert(diff.lines.deep_view().skip(0) =~= diff.lines.deep_view());
    }
    while i < n
        invariant
            n == diff.lines@.len(),
            i <= n,
            count <= i,
            count + count_kind(diff.lines.deep_view().skip(i as int), kind) == count_kind(
                diff.lines.deep_view(),
                kind,
            ),
        decreases n - i,
    {
        let ghost rem = diff.lines.deep_view().skip(i as int);
        proof {
            assert(rem[0] == diff.lines.deep_view()[i as int]);
            assert(rem.drop_first() =~= diff.lines.deep_view().skip(i as int + 1));
        }
        if diff.lines[i].kind == kind {
            count += 1;
        }
        i += 1;
    }
    proof {
        assert(diff.lines.deep_view().skip(n as int).len() == 0);
    }
    count
}

} // verus!
