//! Change discovery: decides which file pairs are compared and with what
//! texts, from an explicit pair list or from the answers of read-only
//! version-control queries.
//!
//! All process and file I/O stays with the caller; this module holds the
//! decisions: how command output is parsed, how a read failure degrades to
//! placeholder text, the ordering of tracked and untracked files, and when
//! discovery reports that there is nothing to compare.

use vstd::prelude::*;
use vstd::string::StringExecFns;

use crate::diff::diff_model;
use crate::diff::FileDiff;
use crate::text::split_lines;
use crate::text::split_lines_spec;
use crate::text::trim_spec;
use crate::text::trim_ws;

verus! {

/// Which comparison a discovery request asks for.
#[derive(Clone, Copy, PartialEq, Eq, Structural, Debug)]
pub enum DiscoveryMode {
    /// Caller-supplied (old path, new path) pairs, read from disk.
    ExplicitPairs,
    /// Indexed snapshot against the working tree, plus untracked files.
    WorkingTreeUnstaged,
    /// Last commit against the indexed snapshot.
    WorkingTreeStaged,
}

/// Why discovery produced no change set.
#[derive(Debug)]
pub enum DiscoveryError {
    /// Repository-root resolution failed.
    NotARepository,
    /// A version-control query returned non-zero; `detail` is its stderr.
    VcsCommandFailed { detail: String },
    /// Discovery succeeded but found nothing to compare.
    NoChanges { mode: DiscoveryMode },
}

/// One file pair to diff: two paths and the two texts to compare.
pub struct ChangeEntry {
    pub old_path: String,
    pub new_path: String,
    pub old_text: String,
    pub new_text: String,
}

/// The ordered result of discovery, one entry per changed or untracked
/// file, before diffing.
pub struct ChangeSet {
    pub entries: Vec<ChangeEntry>,
}

/// The text a read outcome contributes to a diff: the content itself, or
/// an in-band placeholder naming the failure, so that one unreadable file
/// never aborts a multi-file request.
pub open spec fn read_text_model(r: Result<String, String>) -> Seq<char> {
    match r {
        Ok(t) => t@,
        Err(e) => "Error reading file: "@ + e@,
    }
}

/// The old text of a changed file under version control: its recorded content, or empty where no
/// recorded version exists.
pub open spec fn recorded_text_model(o: Option<String>) -> Seq<char> {
    match o {
        Some(s) => s@,
        None => Seq::empty(),
    }
}

fn clone_read(r: &Result<String, String>) -> (c: Result<String, String>)
    ensures
        c == *r,
{
    match r {
        Ok(t) => Ok(t.clone()),
        Err(e) => Err(e.clone()),
    }
}

/// Turns a read outcome into the text to diff.
pub fn read_outcome_text(read: Result<String, String>) -> (r: String)
    ensures
        r@ == read_text_model(read),
{
    match read {
        Ok(t) => t,
        Err(e) => {
            let mut s = "Error reading file: ".to_owned();
            s.append(e.as_str());
            s
        },
    }
}

/// Turns a recorded-content lookup into the old text to diff.
pub fn recorded_text(o: &Option<String>) -> (r: String)
    ensures
        r@ == recorded_text_model(*o),
{
    match o {
        Some(s) => s.clone(),
        None => String::new(),
    }
}

/// Gathers an explicit pair list into a change set.  Each element carries
/// the two paths and the outcome of reading each of them; a failed read is
/// replaced by placeholder text rather than aborting the request.  An
/// empty list is `NoChanges`, never an empty success.
pub fn discover_explicit(
    pairs: Vec<(String, String, Result<String, String>, Result<String, String>)>,
) -> (r: Result<ChangeSet, DiscoveryError>)
    ensures
        pairs@.len() == 0 ==> (r matches Err(e) && e == (DiscoveryError::NoChanges {
            mode: DiscoveryMode::ExplicitPairs,
        })),
        pairs@.len() > 0 ==> (r matches Ok(cs) && {
            &&& cs.entries@.len() == pairs@.len()
            &&& forall|i: int|
                0 <= i < pairs@.len() ==> {
                    let e = #[trigger] cs.entries@[i];
                    &&& e.old_path@ == pairs@[i].0@
                    &&& e.new_path@ == pairs@[i].1@
                    &&& e.old_text@ == read_text_model(pairs@[i].2)
                    &&& e.new_text@ == read_text_model(pairs@[i].3)
                }
        }),
{
    let n = pairs.len();
    let mut entries: Vec<ChangeEntry> = Vec::new();
    let mut i: usize = 0;
    while i < n
        invariant
            n == pairs@.len(),
            i <= n,
            entries@.len() == i,
            forall|k: int|
                0 <= k < i ==> {
                    let e = #[trigger] entries@[k];
                    &&& e.old_path@ == pairs@[k].0@
                    &&& e.new_path@ == pairs@[k].1@
                    &&& e.old_text@ == read_text_model(pairs@[k].2)
                    &&& e.new_text@ == read_text_model(pairs@[k].3)
                },
        decreases n - i,
    {
        let p = &pairs[i];
        let old_text = read_outcome_text(clone_read(&p.2));
        let new_text = read_outcome_text(clone_read(&p.3));
        entries.push(
            ChangeEntry { old_path: p.0.clone(), new_path: p.1.clone(), old_text, new_text },
        );
        i += 1;
    }
    if n == 0 {
        Err(DiscoveryError::NoChanges { mode: DiscoveryMode::ExplicitPairs })
    } else {
        Ok(ChangeSet { entries })
    }
}

/// Gathers the unstaged working-tree state into a change set: the version-controlled
/// changed files first, each diffing its recorded (indexed) content —
/// empty where none exists — against its working-tree content, then the
/// untracked files, each diffing empty content against its working-tree
/// content.  Nothing at all is `NoChanges`, never an empty success.
pub fn assemble_unstaged(
    changed: Vec<(String, Option<String>, String)>,
    untracked: Vec<(String, String)>,
) -> (r: Result<ChangeSet, DiscoveryError>)
    ensures
        changed@.len() + untracked@.len() == 0 ==> (r matches Err(e) && e
            == (DiscoveryError::NoChanges { mode: DiscoveryMode::WorkingTreeUnstaged })),
        changed@.len() + untracked@.len() > 0 ==> (r matches Ok(cs) && {
            &&& cs.entries@.len() == changed@.len() + untracked@.len()
            &&& forall|i: int|
                0 <= i < changed@.len() ==> {
                    let e = #[trigger] cs.entries@[i];
                    &&& e.old_path@ == changed@[i].0@
                    &&& e.new_path@ == changed@[i].0@
                    &&& e.old_text@ == recorded_text_model(changed@[i].1)
                    &&& e.new_text@ == changed@[i].2@
                }
            &&& forall|j: int|
                0 <= j < untracked@.len() ==> {
                    let e = #[trigger] cs.entries@[changed@.len() + j];
                    &&& e.old_path@ == untracked@[j].0@
                    &&& e.new_path@ == untracked@[j].0@
                    &&& e.old_text@ == Seq::<char>::empty()
                    &&& e.new_text@ == untracked@[j].1@
                }
        }),
{
    let tn = changed.len();
    let un = untracked.len();
    let mut entries: Vec<ChangeEntry> = Vec::new();
    let mut i: usize = 0;
    while i < tn
        invariant
            tn == changed@.len(),
            i <= tn,
            entries@.len() == i,
            forall|k: int|
                0 <= k < i ==> {
                    let e = #[trigger] entries@[k];
                    &&& e.old_path@ == changed@[k].0@
                    &&& e.new_path@ == changed@[k].0@
                    &&& e.old_text@ == recorded_text_model(changed@[k].1)
                    &&& e.new_text@ == changed@[k].2@
                },
        decreases tn - i,
    {
        let t = &changed[i];
        entries.push(
            ChangeEntry {
                old_path: t.0.clone(),
                new_path: t.0.clone(),
                old_text: recorded_text(&t.1),
                new_text: t.2.clone(),
            },
        );
        i += 1;
    }
    let mut j: usize = 0;
    while j < un
        invariant
            tn == changed@.len(),
            un == untracked@.len(),
            j <= un,
            entries@.len() == tn + j,
            forall|k: int|
                0 <= k < tn ==> {
                    let e = #[trigger] entries@[k];
                    &&& e.old_path@ == changed@[k].0@
                    &&& e.new_path@ == changed@[k].0@
                    &&& e.old_text@ == recorded_text_model(changed@[k].1)
                    &&& e.new_text@ == changed@[k].2@
                },
            forall|k: int|
                0 <= k < j ==> {
                    let e = #[trigger] entries@[tn + k];
                    &&& e.old_path@ == untracked@[k].0@
                    &&& e.new_path@ == untracked@[k].0@
                    &&& e.old_text@ == Seq::<char>::empty()
                    &&& e.new_text@ == untracked@[k].1@
                },
        decreases un - j,
    {
        let u = &untracked[j];
        entries.push(
            ChangeEntry {
                old_path: u.0.clone(),
                new_path: u.0.clone(),
                old_text: String::new(),
                new_text: u.1.clone(),
            },
        );
        j += 1;
    }
    if entries.len() == 0 {
        Err(DiscoveryError::NoChanges { mode: DiscoveryMode::WorkingTreeUnstaged })
    } else {
        Ok(ChangeSet { entries })
    }
}

/// Gathers the staged state into a change set: each listed file diffs its
/// last-commit content — empty where the file is new — against its
/// indexed (staged) content.  Staged discovery has no untracked notion:
/// untracked files are by definition not indexed.  An empty list is
/// `NoChanges`, never an empty success.
pub fn assemble_staged(files: Vec<(String, Option<String>, String)>) -> (r: Result<
    ChangeSet,
    DiscoveryError,
>)
    ensures
        files@.len() == 0 ==> (r matches Err(e) && e == (DiscoveryError::NoChanges {
            mode: DiscoveryMode::WorkingTreeStaged,
        })),
        files@.len() > 0 ==> (r matches Ok(cs) && {
            &&& cs.entries@.len() == files@.len()
            &&& forall|i: int|
                0 <= i < files@.len() ==> {
                    let e = #[trigger] cs.entries@[i];
                    &&& e.old_path@ == files@[i].0@
                    &&& e.new_path@ == files@[i].0@
                    &&& e.old_text@ == recorded_text_model(files@[i].1)
                    &&& e.new_text@ == files@[i].2@
                }
        }),
{
    let n = files.len();
    let mut entries: Vec<ChangeEntry> = Vec::new();
    let mut i: usize = 0;
    while i < n
        invariant
            n == files@.len(),
            i <= n,
            entries@.len() == i,
            forall|k: int|
                0 <= k < i ==> {
                    let e = #[trigger] entries@[k];
                    &&& e.old_path@ == files@[k].0@
                    &&& e.new_path@ == files@[k].0@
                    &&& e.old_text@ == recorded_text_model(files@[k].1)
                    &&& e.new_text@ == files@[k].2@
                },
        decreases n - i,
    {
        let f = &files[i];
        entries.push(
            ChangeEntry {
                old_path: f.0.clone(),
                new_path: f.0.clone(),
                old_text: recorded_text(&f.1),
                new_text: f.2.clone(),
            },
        );
        i += 1;
    }
    if n == 0 {
        Err(DiscoveryError::NoChanges { mode: DiscoveryMode::WorkingTreeStaged })
    } else {
        Ok(ChangeSet { entries })
    }
}

/// Interprets the repository-root query: failure means the working
/// directory is not under version control; success carries the root path,
/// trimmed of the surrounding whitespace command output carries.
pub fn parse_toplevel(success: bool, stdout: &str) -> (r: Result<String, DiscoveryError>)
    ensures
        success ==> (r matches Ok(root) && root@ == trim_spec(stdout@)),
        !success ==> (r matches Err(e) && e == DiscoveryError::NotARepository),
{
    if success {
        Ok(trim_ws(stdout))
    } else {
        Err(DiscoveryError::NotARepository)
    }
}

/// A line of command output reduced to a path: a trailing carriage return
/// is dropped.
pub open spec fn strip_cr(l: Seq<char>) -> Seq<char> {
    if l.len() > 0 && l.last() == '\r' {
        l.drop_last()
    } else {
        l
    }
}

/// The non-empty lines, each with a trailing carriage return dropped.
pub open spec fn nonempty_lines(ls: Seq<Seq<char>>) -> Seq<Seq<char>>
    decreases ls.len(),
{
    if ls.len() == 0 {
        Seq::empty()
    } else {
        let c = strip_cr(ls[0]);
        (if c.len() > 0 {
            seq![c]
        } else {
            Seq::<Seq<char>>::empty()
        }) + nonempty_lines(ls.drop_first())
    }
}

/// The paths named by a file-listing query: its output split into lines,
/// empty lines dropped.
pub open spec fn file_list_model(s: Seq<char>) -> Seq<Seq<char>> {
    nonempty_lines(split_lines_spec(s))
}

proof fn lemma_nonempty_lines_snoc(ls: Seq<Seq<char>>, x: Seq<char>)
    ensures
        nonempty_lines(ls.push(x)) == nonempty_lines(ls) + (if strip_cr(x).len() > 0 {
            seq![strip_cr(x)]
        } else {
            Seq::<Seq<char>>::empty()
        }),
    decreases ls.len(),
{
    let tail = if strip_cr(x).len() > 0 {
        seq![strip_cr(x)]
    } else {
        Seq::<Seq<char>>::empty()
    };
    if ls.len() == 0 {
        assert(ls.push(x)[0] == x);
        assert(ls.push(x).drop_first() =~= Seq::<Seq<char>>::empty());
        assert(nonempty_lines(Seq::<Seq<char>>::empty()) == Seq::<Seq<char>>::empty());
        assert(tail + Seq::<Seq<char>>::empty() =~= tail);
        assert(Seq::<Seq<char>>::empty() + tail =~= tail);
    } else {
        assert(ls.push(x)[0] == ls[0]);
        assert(ls.push(x).drop_first() =~= ls.drop_first().push(x));
        lemma_nonempty_lines_snoc(ls.drop_first(), x);
        let head = if strip_cr(ls[0]).len() > 0 {
            seq![strip_cr(ls[0])]
        } else {
            Seq::<Seq<char>>::empty()
        };
        assert(head + (nonempty_lines(ls.drop_first()) + tail) =~= (head + nonempty_lines(
            ls.drop_first(),
        )) + tail);
    }
}

/// Interprets a file-listing query: failure carries the command's error
/// output; success carries the listed paths, one per non-empty line.
pub fn parse_file_list(success: bool, stdout: &str, stderr: &str) -> (r: Result<
    Vec<String>,
    DiscoveryError,
>)
    ensures
        success ==> (r matches Ok(files) && files.deep_view() == file_list_model(stdout@)),
        !success ==> (r matches Err(e) && e matches DiscoveryError::VcsCommandFailed { detail }
            && detail@ == stderr@),
{
    if !success {
        return Err(DiscoveryError::VcsCommandFailed { detail: stderr.to_owned() });
    }
    let lines = split_lines(stdout);
    let ghost ldv = lines.deep_view();
    let n = lines.len();
    let mut files: Vec<String> = Vec::new();
    let mut i: usize = 0;
    proof {
        assert(ldv.take(0) =~= Seq::<Seq<char>>::empty());
        assert(files.deep_view() =~= nonempty_lines(ldv.take(0)));
    }
    while i < n
        invariant
            n == lines@.len(),
            i <= n,
            ldv == lines.deep_view(),
            files.deep_view() == nonempty_lines(ldv.take(i as int)),
        decreases n - i,
    {
        let line = &lines[i];
        let ln = line.as_str().unicode_len();
        let cleaned: String = if ln > 0 && line.as_str().get_char(ln - 1) == '\r' {
            line.as_str().substring_char(0, ln - 1).to_owned()
        } else {
            line.clone()
        };
        proof {
            assert(ldv[i as int] == line@);
            if ln > 0 && line@.last() == '\r' {
                assert(cleaned@ =~= strip_cr(ldv[i as int]));
            } else {
                assert(cleaned@ =~= strip_cr(ldv[i as int]));
            }
        }
        let ghost prev = files.deep_view();
        if !cleaned.as_str().is_empty() {
            let ghost cv = cleaned@;
            files.push(cleaned);
            proof {
                assert(files.deep_view() =~= prev.push(cv));
                assert(prev.push(cv) =~= prev + seq![cv]);
            }
        } else {
            proof {
                assert(prev + Seq::<Seq<char>>::empty() =~= prev);
            }
        }
        proof {
            assert(ldv.take(i as int + 1) =~= ldv.take(i as int).push(ldv[i as int]));
            lemma_nonempty_lines_snoc(ldv.take(i as int), ldv[i as int]);
        }
        i += 1;
    }
    proof {
        assert(ldv.take(n as int) =~= ldv);
    }
    Ok(files)
}

/// Diffs every entry of a change set, one [`FileDiff`] per entry, in
/// order.  Total: a change set built by discovery always yields one diff
/// per requested file, whatever its texts hold.
pub fn diff_changeset(cs: &ChangeSet) -> (r: Vec<FileDiff>)
    ensures
        r@.len() == cs.entries@.len(),
        forall|i: int|
            0 <= i < r@.len() ==> (#[trigger] r@[i])@ == diff_model(
                cs.entries@[i].old_path@,
                cs.entries@[i].new_path@,
                cs.entries@[i].old_text@,
                cs.entries@[i].new_text@,
            ),
{
    let n = cs.entries.len();
    let mut r: Vec<FileDiff> = Vec::new();
    let mut i: usize = 0;
    while i < n
        invariant
            n == cs.entries@.len(),
            i <= n,
            r@.len() == i,
            forall|k: int|
                0 <= k < i ==> (#[trigger] r@[k])@ == diff_model(
                    cs.entries@[k].old_path@,
                    cs.entries@[k].new_path@,
                    cs.entries@[k].old_text@,
                    cs.entries@[k].new_text@,
                ),
        decreases n - i,
    {
        let e = &cs.entries[i];
        let d = FileDiff::from_contents(
            e.old_path.as_str(),
            e.new_path.as_str(),
            e.old_text.as_str(),
            e.new_text.as_str(),
        );
        r.push(d);
        i += 1;
    }
    r
}

} // verus!
