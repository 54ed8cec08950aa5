//! Path tree builder: groups the diffed file paths into a hierarchical
//! directory/file tree whose children are unique by name and kept in
//! lexicographic order for deterministic display.

use vstd::prelude::*;

use crate::diff::FileDiff;
use crate::text::first_index_of;
use crate::text::lemma_first_index_of_in_range;

verus! {

/// One node of the path tree.  A directory owns its children, keyed and
/// sorted by name; a file carries the index of its diff in the diff
/// collection.
#[derive(Debug)]
pub enum PathTreeNode {
    Directory { name: String, children: Vec<(String, PathTreeNode)> },
    File { diff_index: usize },
}

/// Lexicographic order on character sequences by code point, the order the
/// tree's children are kept in.
pub open spec fn seq_lt(a: Seq<char>, b: Seq<char>) -> bool
    decreases a.len(),
{
    if b.len() == 0 {
        false
    } else if a.len() == 0 {
        true
    } else if (a[0] as int) < (b[0] as int) {
        true
    } else if (a[0] as int) > (b[0] as int) {
        false
    } else {
        seq_lt(a.drop_first(), b.drop_first())
    }
}

proof fn lemma_seq_lt_irrefl(a: Seq<char>)
    ensures
        !seq_lt(a, a),
    decreases a.len(),
{
    if a.len() > 0 {
        lemma_seq_lt_irrefl(a.drop_first());
    }
}

proof fn lemma_seq_lt_connex(a: Seq<char>, b: Seq<char>)
    requires
        a != b,
    ensures
        seq_lt(a, b) || seq_lt(b, a),
    decreases a.len(),
{
    if a.len() == 0 && b.len() == 0 {
        assert(a =~= b);
    }
    if a.len() > 0 && b.len() > 0 && a[0] == b[0] {
        assert(a.drop_first() != b.drop_first()) by {
            if a.drop_first() == b.drop_first() {
                assert(a.drop_first().len() == b.drop_first().len());
                assert(a.len() == b.len());
                assert forall|i: int| 0 <= i < a.len() implies a[i] == b[i] by {
                    if i > 0 {
                        assert(a.drop_first()[i - 1] == a[i]);
                        assert(b.drop_first()[i - 1] == b[i]);
                    }
                }
                assert(a =~= b);
            }
        }
        lemma_seq_lt_connex(a.drop_first(), b.drop_first());
    }
}

/// The children names are strictly increasing: unique and sorted.
pub open spec fn children_sorted(children: Seq<(String, PathTreeNode)>) -> bool {
    forall|i: int, j: int|
        0 <= i < j < children.len() ==> seq_lt(
            (#[trigger] children[i]).0@,
            (#[trigger] children[j]).0@,
        )
}

/// A child entry is well formed: a directory's stored name matches its key
/// and its own children are again sorted and well formed.
pub open spec fn entry_wf(c: (String, PathTreeNode)) -> bool
    decreases c.1,
{
    match c.1 {
        PathTreeNode::File { .. } => true,
        PathTreeNode::Directory { name, children } => {
            &&& name@ == c.0@
            &&& children_sorted(children@)
            &&& forall|i: int| 0 <= i < children@.len() ==> entry_wf(#[trigger] children@[i])
        },
    }
}

/// A whole children mapping is well formed.
pub open spec fn forest_wf(children: Seq<(String, PathTreeNode)>) -> bool {
    &&& children_sorted(children)
    &&& forall|i: int| 0 <= i < children.len() ==> entry_wf(#[trigger] children[i])
}

/// Whether some child is keyed by `name`.
pub open spec fn has_key(children: Seq<(String, PathTreeNode)>, name: Seq<char>) -> bool {
    exists|i: int| 0 <= i < children.len() && (#[trigger] children[i]).0@ == name
}

/// The index of the child keyed by `name`; meaningful under `has_key`, and
/// unique under `children_sorted`.
pub open spec fn key_at(children: Seq<(String, PathTreeNode)>, name: Seq<char>) -> int {
    choose|i: int| 0 <= i < children.len() && (#[trigger] children[i]).0@ == name
}

proof fn lemma_key_at_is(children: Seq<(String, PathTreeNode)>, j: int)
    requires
        children_sorted(children),
        0 <= j < children.len(),
    ensures
        has_key(children, children[j].0@),
        key_at(children, children[j].0@) == j,
{
    assert(has_key(children, children[j].0@));
    let i = key_at(children, children[j].0@);
    if i != j {
        lemma_seq_lt_irrefl(children[j].0@);
    }
}

/// The diff index the tree binds to a path, read as a chain of directories
/// ended by a file node.
pub open spec fn forest_lookup(children: Seq<(String, PathTreeNode)>, parts: Seq<Seq<char>>) -> Option<
    int,
>
    decreases parts.len(),
{
    if parts.len() == 0 {
        None
    } else if !has_key(children, parts[0]) {
        None
    } else {
        let node = children[key_at(children, parts[0])].1;
        if parts.len() == 1 {
            match node {
                PathTreeNode::File { diff_index } => Some(diff_index as int),
                PathTreeNode::Directory { .. } => None,
            }
        } else {
            match node {
                PathTreeNode::Directory { children: ch, .. } => forest_lookup(
                    ch@,
                    parts.drop_first(),
                ),
                PathTreeNode::File { .. } => None,
            }
        }
    }
}

/// A path whose insertion meets no collision: along its chain every taken
/// slot before the last segment is a directory, and the last slot, if
/// taken, is a file.
pub open spec fn free_path(children: Seq<(String, PathTreeNode)>, parts: Seq<Seq<char>>) -> bool
    decreases parts.len(),
{
    if parts.len() == 0 {
        false
    } else if !has_key(children, parts[0]) {
        true
    } else {
        let node = children[key_at(children, parts[0])].1;
        if parts.len() == 1 {
            node is File
        } else {
            match node {
                PathTreeNode::Directory { children: ch, .. } => free_path(ch@, parts.drop_first()),
                PathTreeNode::File { .. } => false,
            }
        }
    }
}

/// Neither path is a prefix of the other (nor are they equal).
pub open spec fn paths_independent(p: Seq<Seq<char>>, q: Seq<Seq<char>>) -> bool {
    !p.is_prefix_of(q) && !q.is_prefix_of(p)
}

/// What a node is: a file's diff index, or `None` for a directory.
pub open spec fn node_shape(n: PathTreeNode) -> Option<int> {
    match n {
        PathTreeNode::File { diff_index } => Some(diff_index as int),
        PathTreeNode::Directory { .. } => None,
    }
}

/// The node standing at the end of the chain named by `parts`, if any:
/// `None` where no node stands, `Some(None)` for a directory,
/// `Some(Some(i))` for a file carrying diff index `i`.  Together with the
/// sortedness of every children mapping this determines the whole tree.
pub open spec fn forest_node(children: Seq<(String, PathTreeNode)>, parts: Seq<Seq<char>>) -> Option<
    Option<int>,
>
    decreases parts.len(),
{
    if parts.len() == 0 {
        None
    } else if !has_key(children, parts[0]) {
        None
    } else {
        let node = children[key_at(children, parts[0])].1;
        if parts.len() == 1 {
            Some(node_shape(node))
        } else {
            match node {
                PathTreeNode::Directory { children: ch, .. } => forest_node(ch@, parts.drop_first()),
                PathTreeNode::File { .. } => None,
            }
        }
    }
}

/// The chain named by `parts` runs into an existing file strictly before
/// its last segment; an insertion along it is silently dropped.
pub open spec fn chain_blocked(children: Seq<(String, PathTreeNode)>, parts: Seq<Seq<char>>) -> bool
    decreases parts.len(),
{
    if parts.len() <= 1 {
        false
    } else if !has_key(children, parts[0]) {
        false
    } else {
        match children[key_at(children, parts[0])].1 {
            PathTreeNode::File { .. } => true,
            PathTreeNode::Directory { children: ch, .. } => chain_blocked(ch@, parts.drop_first()),
        }
    }
}

/// Whether the characters of `a` order strictly before those of `b`.
fn str_lt(a: &str, b: &str) -> (r: bool)
    ensures
        r == seq_lt(a@, b@),
{
    let an = a.unicode_len();
    let bn = b.unicode_len();
    let mut i: usize = 0;
    proof {
        assert(a@.skip(0) =~= a@);
        assert(b@.skip(0) =~= b@);
    }
    while i < an && i < bn
        invariant
            i <= an,
            i <= bn,
            an == a@.len(),
            bn == b@.len(),
            seq_lt(a@, b@) == seq_lt(a@.skip(i as int), b@.skip(i as int)),
            seq_lt(b@, a@) == seq_lt(b@.skip(i as int), a@.skip(i as int)),
        decreases an - i,
    {
        let ca = a.get_char(i);
        let cb = b.get_char(i);
        if (ca as u32) < (cb as u32) {
            return true;
        }
        if (ca as u32) > (cb as u32) {
            return false;
        }
        proof {
            assert(a@.skip(i as int).drop_first() =~= a@.skip(i as int + 1));
            assert(b@.skip(i as int).drop_first() =~= b@.skip(i as int + 1));
        }
        i += 1;
    }
    proof {
        if an < bn {
            assert(b@.skip(i as int).len() > 0);
        } else {
            assert(a@.skip(i as int).len() == an - i);
        }
    }
    an < bn
}

/// The slot where `name` belongs among sorted children: the first index
/// whose key does not order before `name`.
fn find_key(children: &Vec<(String, PathTreeNode)>, name: &str) -> (r: usize)
    ensures
        r <= children@.len(),
        forall|k: int| 0 <= k < r ==> seq_lt((#[trigger] children@[k]).0@, name@),
        r < children@.len() ==> !seq_lt(children@[r as int].0@, name@),
{
    let n = children.len();
    let mut j: usize = 0;
    while j < n && str_lt(children[j].0.as_str(), name)
        invariant
            j <= n,
            n == children@.len(),
            forall|k: int| 0 <= k < j ==> seq_lt((#[trigger] children@[k]).0@, name@),
        decreases n - j,
    {
        j += 1;
    }
    j
}

/// The segments of a path, split on `'/'`.  Every path has at least one
/// segment; an empty path has the single empty segment.
pub open spec fn split_path_spec(s: Seq<char>) -> Seq<Seq<char>>
    decreases s.len(),
    via split_path_spec_decreases
{
    let k = first_index_of(s, '/');
    if k == s.len() {
        seq![s]
    } else {
        seq![s.subrange(0, k)] + split_path_spec(s.subrange(k + 1, s.len() as int))
    }
}

#[via_fn]
proof fn split_path_spec_decreases(s: Seq<char>) {
    lemma_first_index_of_in_range(s, '/');
}

proof fn lemma_split_path_nonempty(s: Seq<char>)
    ensures
        split_path_spec(s).len() > 0,
{
    lemma_first_index_of_in_range(s, '/');
}

proof fn lemma_path_break_at(s: Seq<char>, k: int)
    requires
        0 <= k < s.len(),
        s[k] == '/',
        forall|j: int| 0 <= j < k ==> s[j] != '/',
    ensures
        first_index_of(s, '/') == k,
        split_path_spec(s) == seq![s.subrange(0, k)] + split_path_spec(
            s.subrange(k + 1, s.len() as int),
        ),
    decreases s.len(),
{
    if k > 0 {
        assert forall|j: int| 0 <= j < k - 1 implies s.drop_first()[j] != '/' by {
            assert(s[j + 1] != '/');
        }
        assert(s.drop_first()[k - 1] == '/');
        lemma_path_break_at(s.drop_first(), k - 1);
    }
}

proof fn lemma_path_break_none(s: Seq<char>)
    requires
        forall|j: int| 0 <= j < s.len() ==> s[j] != '/',
    ensures
        first_index_of(s, '/') == s.len(),
        split_path_spec(s) == seq![s],
    decreases s.len(),
{
    if s.len() > 0 {
        assert forall|j: int| 0 <= j < s.len() - 1 implies s.drop_first()[j] != '/' by {
            assert(s[j + 1] != '/');
        }
        lemma_path_break_none(s.drop_first());
    }
}

/// Splits a path into its `'/'`-separated segments.
pub fn split_path(text: &str) -> (r: Vec<String>)
    ensures
        r.deep_view() == split_path_spec(text@),
        r@.len() > 0,
{
    let n = text.unicode_len();
    let mut r: Vec<String> = Vec::new();
    let mut start: usize = 0;
    let mut i: usize = 0;
    proof {
        assert(text@.subrange(0, n as int) =~= text@);
        assert(r.deep_view() =~= Seq::<Seq<char>>::empty());
    }
    while i < n
        invariant
            n == text@.len(),
            start <= i <= n,
            forall|k: int| start <= k < i ==> text@[k] != '/',
            split_path_spec(text@) == r.deep_view() + split_path_spec(
                text@.subrange(start as int, n as int),
            ),
        decreases n - i,
    {
        let c = text.get_char(i);
        if c == '/' {
            let seg = text.substring_char(start, i).to_owned();
            proof {
                let prev = r.deep_view();
                let rest = text@.subrange(start as int, n as int);
                assert(forall|j: int| 0 <= j < i - start ==> rest[j] != '/');
                assert(rest[i - start] == '/');
                lemma_path_break_at(rest, i - start);
                assert(rest.subrange(0, i - start) =~= text@.subrange(start as int, i as int));
                assert(rest.subrange(i - start + 1, rest.len() as int) =~= text@.subrange(
                    i + 1,
                    n as int,
                ));
                assert(prev.push(seg@) =~= prev + seq![seg@]);
                assert((prev + seq![seg@]) + split_path_spec(text@.subrange(i + 1, n as int)) =~= prev
                    + (seq![seg@] + split_path_spec(text@.subrange(i + 1, n as int))));
            }
            let ghost prev = r.deep_view();
            let ghost sv = seg@;
            r.push(seg);
            proof {
                assert(r.deep_view() =~= prev.push(sv));
            }
            start = i + 1;
        }
        i += 1;
    }
    let seg = text.substring_char(start, n).to_owned();
    proof {
        let prev = r.deep_view();
        let rest = text@.subrange(start as int, n as int);
        assert(forall|j: int| 0 <= j < rest.len() ==> rest[j] != '/');
        lemma_path_break_none(rest);
        assert(prev.push(seg@) =~= prev + seq![seg@]);
    }
    let ghost prev = r.deep_view();
    let ghost sv = seg@;
    r.push(seg);
    proof {
        assert(r.deep_view() =~= prev.push(sv));
    }
    r
}


proof fn lemma_seq_lt_trans(a: Seq<char>, b: Seq<char>, c: Seq<char>)
    requires
        seq_lt(a, b),
        seq_lt(b, c),
    ensures
        seq_lt(a, c),
    decreases a.len(),
{
    if a.len() > 0 && b.len() > 0 && c.len() > 0 && (a[0] as int) == (b[0] as int) && (b[0] as int)
        == (c[0] as int) {
        lemma_seq_lt_trans(a.drop_first(), b.drop_first(), c.drop_first());
    }
}

proof fn lemma_eq_from_parts(p: Seq<Seq<char>>, q: Seq<Seq<char>>)
    requires
        p.len() > 0,
        q.len() > 0,
        p[0] == q[0],
        p.drop_first() == q.drop_first(),
    ensures
        p == q,
{
    assert(p.drop_first() =~= p.subrange(1, p.len() as int));
    assert(q.drop_first() =~= q.subrange(1, q.len() as int));
    assert(p.drop_first().len() == p.len() - 1);
    assert(q.drop_first().len() == q.len() - 1);
    assert(p.len() == q.len());
    assert forall|i: int| 0 <= i < p.len() implies p[i] == q[i] by {
        if i > 0 {
            assert(p.drop_first()[i - 1] == p[i]);
            assert(q.drop_first()[i - 1] == q[i]);
        }
    }
    assert(p =~= q);
}

proof fn lemma_independent_tails(p: Seq<Seq<char>>, q: Seq<Seq<char>>)
    requires
        p.len() > 0,
        q.len() > 0,
        p[0] == q[0],
        paths_independent(p, q),
    ensures
        paths_independent(p.drop_first(), q.drop_first()),
{
    let p1 = p.drop_first();
    let q1 = q.drop_first();
    if p1.is_prefix_of(q1) {
        assert forall|i: int| 0 <= i < p.len() implies p[i] == q.subrange(0, p.len() as int)[i] by {
            if i > 0 {
                assert(p1[i - 1] == q1.subrange(0, p1.len() as int)[i - 1]);
                assert(q1[i - 1] == q[i]);
            }
        }
        assert(p.is_prefix_of(q)) by {
            assert(p =~= q.subrange(0, p.len() as int));
        }
    }
    if q1.is_prefix_of(p1) {
        assert forall|i: int| 0 <= i < q.len() implies q[i] == p.subrange(0, q.len() as int)[i] by {
            if i > 0 {
                assert(q1[i - 1] == p1.subrange(0, q1.len() as int)[i - 1]);
                assert(p1[i - 1] == p[i]);
            }
        }
        assert(q.is_prefix_of(p)) by {
            assert(q =~= p.subrange(0, q.len() as int));
        }
    }
}

proof fn lemma_remove_insert_update(s: Seq<(String, PathTreeNode)>, j: int, x: (String, PathTreeNode))
    requires
        0 <= j < s.len(),
    ensures
        s.remove(j).insert(j, x) == s.update(j, x),
{
    let a = s.remove(j).insert(j, x);
    let b = s.update(j, x);
    assert forall|i: int| 0 <= i < a.len() implies a[i] == b[i] by {
        if i < j {
            assert(a[i] == s.remove(j)[i]);
            assert(s.remove(j)[i] == s[i]);
        } else if i > j {
            assert(a[i] == s.remove(j)[i - 1]);
            assert(s.remove(j)[i - 1] == s[i]);
        }
    }
    assert(a =~= b);
}

proof fn lemma_sorted_same_keys(c1: Seq<(String, PathTreeNode)>, c2: Seq<(String, PathTreeNode)>)
    requires
        children_sorted(c1),
        c1.len() == c2.len(),
        forall|i: int| 0 <= i < c2.len() ==> (#[trigger] c2[i]).0@ == c1[i].0@,
    ensures
        children_sorted(c2),
{
    assert forall|i: int, j: int| 0 <= i < j < c2.len() implies seq_lt(
        (#[trigger] c2[i]).0@,
        (#[trigger] c2[j]).0@,
    ) by {
        assert(seq_lt(c1[i].0@, c1[j].0@));
    }
}

proof fn lemma_sorted_insert(c: Seq<(String, PathTreeNode)>, j: int, entry: (String, PathTreeNode))
    requires
        children_sorted(c),
        0 <= j <= c.len(),
        forall|k: int| 0 <= k < j ==> seq_lt((#[trigger] c[k]).0@, entry.0@),
        forall|k: int| j <= k < c.len() ==> seq_lt(entry.0@, (#[trigger] c[k]).0@),
    ensures
        children_sorted(c.insert(j, entry)),
{
    let c2 = c.insert(j, entry);
    assert forall|i: int, m: int| 0 <= i < m < c2.len() implies seq_lt(
        (#[trigger] c2[i]).0@,
        (#[trigger] c2[m]).0@,
    ) by {
        if i < j {
            assert(c2[i] == c[i]);
        } else if i == j {
            assert(c2[i] == entry);
        } else {
            assert(c2[i] == c[i - 1]);
        }
        if m < j {
            assert(c2[m] == c[m]);
        } else if m == j {
            assert(c2[m] == entry);
        } else {
            assert(c2[m] == c[m - 1]);
        }
    }
}

/// Replacing the node at one slot, keys untouched, leaves lookups and
/// freedom of every path that starts with another key unchanged.
proof fn lemma_update_other_key(
    c1: Seq<(String, PathTreeNode)>,
    c2: Seq<(String, PathTreeNode)>,
    j: int,
    q: Seq<Seq<char>>,
)
    requires
        children_sorted(c1),
        children_sorted(c2),
        c1.len() == c2.len(),
        0 <= j < c1.len(),
        forall|i: int| 0 <= i < c2.len() ==> (#[trigger] c2[i]).0@ == c1[i].0@,
        forall|i: int| 0 <= i < c2.len() && i != j ==> (#[trigger] c2[i]).1 == c1[i].1,
        q.len() > 0,
        q[0] != c1[j].0@,
    ensures
        forest_lookup(c2, q) == forest_lookup(c1, q),
        free_path(c2, q) == free_path(c1, q),
        forest_node(c2, q) == forest_node(c1, q),
{
    if has_key(c1, q[0]) {
        let i = key_at(c1, q[0]);
        assert(0 <= i < c1.len() && c1[i].0@ == q[0]);
        assert(c2[i].0@ == q[0]);
        assert(has_key(c2, q[0]));
        lemma_key_at_is(c2, i);
        assert(key_at(c2, q[0]) == i);
        assert(i != j);
        assert(c2[i].1 == c1[i].1);
    } else {
        assert(!has_key(c2, q[0])) by {
            if has_key(c2, q[0]) {
                let i = key_at(c2, q[0]);
                assert(c1[i].0@ == q[0]);
            }
        }
    }
}

/// Inserting an entry leaves lookups and freedom of every path that starts
/// with another key unchanged.
proof fn lemma_insert_other_key(
    c: Seq<(String, PathTreeNode)>,
    j: int,
    entry: (String, PathTreeNode),
    q: Seq<Seq<char>>,
)
    requires
        children_sorted(c),
        children_sorted(c.insert(j, entry)),
        0 <= j <= c.len(),
        q.len() > 0,
        q[0] != entry.0@,
    ensures
        forest_lookup(c.insert(j, entry), q) == forest_lookup(c, q),
        free_path(c.insert(j, entry), q) == free_path(c, q),
        forest_node(c.insert(j, entry), q) == forest_node(c, q),
{
    let c2 = c.insert(j, entry);
    if has_key(c, q[0]) {
        let i = key_at(c, q[0]);
        assert(0 <= i < c.len() && c[i].0@ == q[0]);
        let i2: int = if i < j {
            i
        } else {
            i + 1
        };
        assert(c2[i2] == c[i]);
        assert(has_key(c2, q[0]));
        lemma_key_at_is(c2, i2);
        assert(key_at(c2, q[0]) == i2);
        lemma_key_at_is(c, i);
        assert(key_at(c, q[0]) == i);
        assert(c2[i2].1 == c[i].1);
    } else {
        assert(!has_key(c2, q[0])) by {
            if has_key(c2, q[0]) {
                let i2 = key_at(c2, q[0]);
                assert(0 <= i2 < c2.len() && c2[i2].0@ == q[0]);
                assert(i2 != j);
                let i: int = if i2 < j {
                    i2
                } else {
                    i2 - 1
                };
                assert(c[i] == c2[i2]);
            }
        }
    }
}

/// After a failed sorted search, no child is keyed by `name`.
proof fn lemma_no_key(c: Seq<(String, PathTreeNode)>, j: int, name: Seq<char>)
    requires
        children_sorted(c),
        0 <= j <= c.len(),
        forall|k: int| 0 <= k < j ==> seq_lt((#[trigger] c[k]).0@, name),
        j < c.len() ==> seq_lt(name, c[j].0@),
    ensures
        !has_key(c, name),
{
    if has_key(c, name) {
        let i = key_at(c, name);
        assert(0 <= i < c.len() && c[i].0@ == name);
        lemma_seq_lt_irrefl(name);
        if i > j {
            assert(seq_lt(c[j].0@, c[i].0@));
            lemma_seq_lt_trans(name, c[j].0@, c[i].0@);
        }
    }
}

proof fn lemma_prefix_tails(p: Seq<Seq<char>>, q: Seq<Seq<char>>)
    requires
        p.len() > 0,
        q.len() > 0,
        p[0] == q[0],
        q.is_prefix_of(p),
    ensures
        q.drop_first().is_prefix_of(p.drop_first()),
{
    let p1 = p.drop_first();
    let q1 = q.drop_first();
    assert forall|i: int| 0 <= i < q1.len() implies q1[i] == p1.subrange(0, q1.len() as int)[i] by {
        assert(q[i + 1] == p.subrange(0, q.len() as int)[i + 1]);
        assert(q[i + 1] == p[i + 1]);
        assert(q1[i] == q[i + 1]);
        assert(p1.subrange(0, q1.len() as int)[i] == p1[i]);
        assert(p1[i] == p[i + 1]);
    }
    assert(q1 =~= p1.subrange(0, q1.len() as int));
}

/// A lookup succeeds exactly where a file node stands.
proof fn lemma_lookup_is_file_node(children: Seq<(String, PathTreeNode)>, parts: Seq<Seq<char>>)
    ensures
        forest_lookup(children, parts) == (match forest_node(children, parts) {
            Some(shape) => shape,
            None => None,
        }),
    decreases parts.len(),
{
    if parts.len() > 1 && has_key(children, parts[0]) {
        match children[key_at(children, parts[0])].1 {
            PathTreeNode::Directory { children: ch, .. } => {
                lemma_lookup_is_file_node(ch@, parts.drop_first());
            },
            PathTreeNode::File { .. } => {
            },
        }
    }
}

/// Inserts a path's chain of directories and final file node into the
/// children mapping, keeping every level sorted and well formed.  An
/// empty segment list leaves the mapping untouched; a chain running into
/// an existing file before its last segment leaves every node as it was;
/// otherwise the last segment's slot becomes a file carrying `diff_index`
/// whatever stood there (a directory there is overwritten and its subtree
/// dropped), the earlier segments find or create a chain of directories,
/// any nodes below the overwritten slot are gone, and every node off the
/// chain is exactly as before.  These guarantees are stated for sorted,
/// well-formed mappings — the invariant every tree grown from an empty
/// mapping keeps — since a duplicated key would make the slot a name
/// denotes ambiguous.  Collisions between paths are not expected from a
/// correct discovery stage and are not detected.
pub fn insert_into_tree(
    root: &mut Vec<(String, PathTreeNode)>,
    parts: &Vec<String>,
    pos: usize,
    diff_index: usize,
)
    ensures
        forest_wf(old(root)@) ==> forest_wf(final(root)@),
        pos >= parts@.len() ==> final(root)@ == old(root)@,
        (forest_wf(old(root)@) && pos < parts@.len() && chain_blocked(
            old(root)@,
            parts.deep_view().skip(pos as int),
        )) ==> (forall|q: Seq<Seq<char>>|
            #[trigger] forest_node(final(root)@, q) == forest_node(old(root)@, q)),
        (forest_wf(old(root)@) && pos < parts@.len() && !chain_blocked(
            old(root)@,
            parts.deep_view().skip(pos as int),
        )) ==> ({
            let p = parts.deep_view().skip(pos as int);
            &&& forest_node(final(root)@, p) == Some(Some(diff_index as int))
            &&& (forall|q: Seq<Seq<char>>|
                q.len() > 0 && q.len() < p.len() && q.is_prefix_of(p) ==> #[trigger] forest_node(
                    final(root)@,
                    q,
                ) == Some(None::<int>))
            &&& (forall|q: Seq<Seq<char>>|
                p.is_prefix_of(q) && q != p ==> #[trigger] forest_node(final(root)@, q) is None)
            &&& (forall|q: Seq<Seq<char>>|
                paths_independent(p, q) ==> #[trigger] forest_node(final(root)@, q) == forest_node(
                    old(root)@,
                    q,
                ))
        }),
        (forest_wf(old(root)@) && pos < parts@.len() && free_path(
            old(root)@,
            parts.deep_view().skip(pos as int),
        )) ==> ({
            let p = parts.deep_view().skip(pos as int);
            &&& forest_lookup(final(root)@, p) == Some(diff_index as int)
            &&& (forall|q: Seq<Seq<char>>|
                q != p ==> #[trigger] forest_lookup(final(root)@, q) == forest_lookup(old(root)@, q))
            &&& (forall|q: Seq<Seq<char>>|
                paths_independent(p, q) ==> #[trigger] free_path(final(root)@, q) == free_path(
                    old(root)@,
                    q,
                ))
        }),
    decreases parts@.len() - pos,
{
    let n = parts.len();
    if pos >= n {
        return;
    }
    let ghost r0 = root@;
    let ghost p = parts.deep_view().skip(pos as int);
    let name = &parts[pos];
    let ghost nm = name@;
    proof {
        assert(p[0] == parts.deep_view()[pos as int]);
        assert(p.len() == n - pos);
    }
    let j = find_key(root, name.as_str());
    let found = if j < root.len() {
        !str_lt(name.as_str(), root[j].0.as_str())
    } else {
        false
    };
    proof {
        if found {
            if r0[j as int].0@ != nm {
                lemma_seq_lt_connex(r0[j as int].0@, nm);
            }
            assert(r0[j as int].0@ == nm);
        } else {
            if j < r0.len() && r0[j as int].0@ == nm {
                lemma_seq_lt_irrefl(nm);
            }
        }
    }
    if pos == n - 1 {
        let new_entry = (name.clone(), PathTreeNode::File { diff_index });
        let ghost ge = new_entry;
        if found {
            let _prev = root.remove(j);
            root.insert(j, new_entry);
            proof {
                if forest_wf(r0) {
                    let r1 = root@;
                    lemma_remove_insert_update(r0, j as int, ge);
                    assert(r1 == r0.update(j as int, ge));
                    assert forall|i: int| 0 <= i < r1.len() implies (#[trigger] r1[i]).0@ == r0[i].0@
                        by {
                        if i != j {
                            assert(r1[i] == r0[i]);
                        }
                    }
                    lemma_sorted_same_keys(r0, r1);
                    assert forall|i: int| 0 <= i < r1.len() implies entry_wf(#[trigger] r1[i]) by {
                        if i != j {
                            assert(r1[i] == r0[i]);
                            assert(entry_wf(r0[i]));
                        } else {
                            assert(r1[j as int].1 is File);
                        }
                    }
                    assert(forest_wf(r1));
                    lemma_key_at_is(r0, j as int);
                    lemma_key_at_is(r1, j as int);
                    assert(p.len() == 1);
                    assert(!chain_blocked(r0, p));
                    assert(forest_node(r1, p) == Some(Some(diff_index as int)));
                    assert forall|q: Seq<Seq<char>>| p.is_prefix_of(q) && q != p
                        implies #[trigger] forest_node(r1, q) is None by {
                        assert(p[0] == q.subrange(0, p.len() as int)[0]);
                        assert(q[0] == nm);
                        if q.len() == 1 {
                            assert(q =~= p);
                        }
                    }
                    assert forall|q: Seq<Seq<char>>| paths_independent(p, q)
                        implies #[trigger] forest_node(r1, q) == forest_node(r0, q) by {
                        if q.len() == 0 {
                        } else if q[0] != nm {
                            lemma_update_other_key(r0, r1, j as int, q);
                        } else {
                            assert(p =~= q.subrange(0, 1));
                            assert(p.is_prefix_of(q));
                        }
                    }
                    if free_path(r0, p) {
                        assert(forest_lookup(r1, p) == Some(diff_index as int));
                        assert forall|q: Seq<Seq<char>>| q != p implies #[trigger] forest_lookup(
                            r1,
                            q,
                        ) == forest_lookup(r0, q) by {
                            if q.len() == 0 {
                            } else if q[0] != nm {
                                lemma_update_other_key(r0, r1, j as int, q);
                            } else {
                                if q.len() == 1 {
                                    assert(q.drop_first().len() == 0);
                                    assert(p.drop_first().len() == 0);
                                    assert(q.drop_first() =~= p.drop_first());
                                    lemma_eq_from_parts(q, p);
                                } else {
                                    assert(r0[j as int].1 is File);
                                    assert(forest_lookup(r1, q) is None);
                                    assert(forest_lookup(r0, q) is None);
                                }
                            }
                        }
                        assert forall|q: Seq<Seq<char>>| paths_independent(p, q)
                            implies #[trigger] free_path(r1, q) == free_path(r0, q) by {
                            if q.len() == 0 {
                            } else if q[0] != nm {
                                lemma_update_other_key(r0, r1, j as int, q);
                            } else {
                                assert(p =~= q.subrange(0, 1));
                                assert(p.is_prefix_of(q));
                            }
                        }
                    }
                }
            }
        } else {
            root.insert(j, new_entry);
            proof {
                if forest_wf(r0) {
                    let r1 = root@;
                    assert(r1 == r0.insert(j as int, ge));
                    assert forall|k: int| j <= k < r0.len() implies seq_lt(
                        nm,
                        (#[trigger] r0[k]).0@,
                    ) by {
                        if k > j {
                            lemma_seq_lt_trans(nm, r0[j as int].0@, r0[k].0@);
                        }
                    }
                    lemma_sorted_insert(r0, j as int, ge);
                    assert forall|i: int| 0 <= i < r1.len() implies entry_wf(#[trigger] r1[i]) by {
                        if i < j {
                            assert(r1[i] == r0[i]);
                            assert(entry_wf(r0[i]));
                        } else if i == j {
                            assert(r1[i].1 is File);
                        } else {
                            assert(r1[i] == r0[i - 1]);
                            assert(entry_wf(r0[i - 1]));
                        }
                    }
                    assert(forest_wf(r1));
                    lemma_no_key(r0, j as int, nm);
                    lemma_key_at_is(r1, j as int);
                    assert(p.len() == 1);
                    assert(!chain_blocked(r0, p));
                    assert(forest_node(r1, p) == Some(Some(diff_index as int)));
                    assert forall|q: Seq<Seq<char>>| p.is_prefix_of(q) && q != p
                        implies #[trigger] forest_node(r1, q) is None by {
                        assert(p[0] == q.subrange(0, p.len() as int)[0]);
                        assert(q[0] == nm);
                        if q.len() == 1 {
                            assert(q =~= p);
                        }
                    }
                    assert forall|q: Seq<Seq<char>>| paths_independent(p, q)
                        implies #[trigger] forest_node(r1, q) == forest_node(r0, q) by {
                        if q.len() == 0 {
                        } else if q[0] != nm {
                            lemma_insert_other_key(r0, j as int, ge, q);
                        } else {
                            assert(p =~= q.subrange(0, 1));
                            assert(p.is_prefix_of(q));
                        }
                    }
                    if free_path(r0, p) {
                        assert(forest_lookup(r1, p) == Some(diff_index as int));
                        assert forall|q: Seq<Seq<char>>| q != p implies #[trigger] forest_lookup(
                            r1,
                            q,
                        ) == forest_lookup(r0, q) by {
                            if q.len() == 0 {
                            } else if q[0] != nm {
                                lemma_insert_other_key(r0, j as int, ge, q);
                            } else {
                                if q.len() == 1 {
                                    assert(q.drop_first().len() == 0);
                                    assert(p.drop_first().len() == 0);
                                    assert(q.drop_first() =~= p.drop_first());
                                    lemma_eq_from_parts(q, p);
                                } else {
                                    assert(forest_lookup(r1, q) is None);
                                    assert(forest_lookup(r0, q) is None);
                                }
                            }
                        }
                        assert forall|q: Seq<Seq<char>>| paths_independent(p, q)
                            implies #[trigger] free_path(r1, q) == free_path(r0, q) by {
                            if q.len() == 0 {
                            } else if q[0] != nm {
                                lemma_insert_other_key(r0, j as int, ge, q);
                            } else {
                                assert(p =~= q.subrange(0, 1));
                                assert(p.is_prefix_of(q));
                            }
                        }
                    }
                }
            }
        }
    } else {
        if found {
            let removed = root.remove(j);
            let key = removed.0;
            let node = removed.1;
            let ghost gkey = key;
            match node {
                PathTreeNode::Directory { name: dname, children: mut ch } => {
                    let ghost gdname = dname;
                    let ghost ch0 = ch@;
                    proof {
                        if forest_wf(r0) {
                            assert(entry_wf(r0[j as int]));
                            assert(forest_wf(ch0));
                            lemma_key_at_is(r0, j as int);
                            assert(p.drop_first() =~= parts.deep_view().skip(pos as int + 1));
                            assert(chain_blocked(r0, p) == chain_blocked(ch0, p.drop_first()));
                            if free_path(r0, p) {
                                assert(free_path(ch0, p.drop_first()));
                            }
                        }
                    }
                    insert_into_tree(&mut ch, parts, pos + 1, diff_index);
                    let ghost ch2 = ch@;
                    let new_entry = (key, PathTreeNode::Directory { name: dname, children: ch });
                    let ghost ge = new_entry;
                    root.insert(j, new_entry);
                    proof {
                        if forest_wf(r0) {
                            let r1 = root@;
                            lemma_remove_insert_update(r0, j as int, ge);
                            assert(r1 == r0.update(j as int, ge));
                            assert forall|i: int| 0 <= i < r1.len() implies (#[trigger] r1[i]).0@
                                == r0[i].0@ by {
                                if i != j {
                                    assert(r1[i] == r0[i]);
                                }
                            }
                            lemma_sorted_same_keys(r0, r1);
                            assert(entry_wf(ge)) by {
                                assert(entry_wf(r0[j as int]));
                                assert(gdname@ == r0[j as int].0@);
                                assert(forest_wf(ch2));
                            }
                            assert forall|i: int| 0 <= i < r1.len() implies entry_wf(
                                #[trigger] r1[i],
                            ) by {
                                if i != j {
                                    assert(r1[i] == r0[i]);
                                    assert(entry_wf(r0[i]));
                                } else {
                                    assert(r1[i] == ge);
                                }
                            }
                            assert(forest_wf(r1));
                            let p1 = p.drop_first();
                            lemma_key_at_is(r0, j as int);
                            lemma_key_at_is(r1, j as int);
                            if chain_blocked(r0, p) {
                                assert(chain_blocked(ch0, p1));
                                assert forall|q: Seq<Seq<char>>| #[trigger] forest_node(r1, q)
                                    == forest_node(r0, q) by {
                                    if q.len() == 0 {
                                    } else if q[0] != nm {
                                        lemma_update_other_key(r0, r1, j as int, q);
                                    } else if q.len() == 1 {
                                        assert(forest_node(r1, q) == Some(None::<int>));
                                        assert(forest_node(r0, q) == Some(None::<int>));
                                    } else {
                                        assert(forest_node(r1, q) == forest_node(
                                            ch2,
                                            q.drop_first(),
                                        ));
                                        assert(forest_node(r0, q) == forest_node(
                                            ch0,
                                            q.drop_first(),
                                        ));
                                    }
                                }
                            } else {
                                assert(!chain_blocked(ch0, p1));
                                assert(forest_node(r1, p) == forest_node(ch2, p1));
                                assert(forest_node(r1, p) == Some(Some(diff_index as int)));
                                assert forall|q: Seq<Seq<char>>|
                                    q.len() > 0 && q.len() < p.len() && q.is_prefix_of(p)
                                    implies #[trigger] forest_node(r1, q) == Some(None::<int>) by {
                                    assert(q[0] == p.subrange(0, q.len() as int)[0]);
                                    assert(q[0] == nm);
                                    if q.len() > 1 {
                                        lemma_prefix_tails(p, q);
                                        assert(forest_node(r1, q) == forest_node(
                                            ch2,
                                            q.drop_first(),
                                        ));
                                    }
                                }
                                assert forall|q: Seq<Seq<char>>| p.is_prefix_of(q) && q != p
                                    implies #[trigger] forest_node(r1, q) is None by {
                                    assert(p[0] == q.subrange(0, p.len() as int)[0]);
                                    assert(q[0] == nm);
                                    lemma_prefix_tails(q, p);
                                    if q.drop_first() == p1 {
                                        lemma_eq_from_parts(q, p);
                                    }
                                    assert(forest_node(r1, q) == forest_node(ch2, q.drop_first()));
                                }
                                assert forall|q: Seq<Seq<char>>| paths_independent(p, q)
                                    implies #[trigger] forest_node(r1, q) == forest_node(r0, q) by {
                                    if q.len() == 0 {
                                    } else if q[0] != nm {
                                        lemma_update_other_key(r0, r1, j as int, q);
                                    } else if q.len() == 1 {
                                        assert(q =~= p.subrange(0, 1));
                                        assert(q.is_prefix_of(p));
                                    } else {
                                        lemma_independent_tails(p, q);
                                        assert(forest_node(r1, q) == forest_node(
                                            ch2,
                                            q.drop_first(),
                                        ));
                                        assert(forest_node(r0, q) == forest_node(
                                            ch0,
                                            q.drop_first(),
                                        ));
                                    }
                                }
                            }
                            if free_path(r0, p) {
                                assert(forest_lookup(r1, p) == forest_lookup(ch2, p1));
                                assert(forest_lookup(r1, p) == Some(diff_index as int));
                                assert forall|q: Seq<Seq<char>>| q != p
                                    implies #[trigger] forest_lookup(r1, q) == forest_lookup(
                                    r0,
                                    q,
                                ) by {
                                    if q.len() == 0 {
                                    } else if q[0] != nm {
                                        lemma_update_other_key(r0, r1, j as int, q);
                                    } else if q.len() == 1 {
                                        assert(forest_lookup(r1, q) is None);
                                        assert(forest_lookup(r0, q) is None);
                                    } else {
                                        if q.drop_first() == p1 {
                                            lemma_eq_from_parts(q, p);
                                        }
                                        assert(forest_lookup(r1, q) == forest_lookup(
                                            ch2,
                                            q.drop_first(),
                                        ));
                                        assert(forest_lookup(r0, q) == forest_lookup(
                                            ch0,
                                            q.drop_first(),
                                        ));
                                    }
                                }
                                assert forall|q: Seq<Seq<char>>| paths_independent(p, q)
                                    implies #[trigger] free_path(r1, q) == free_path(r0, q) by {
                                    if q.len() == 0 {
                                    } else if q[0] != nm {
                                        lemma_update_other_key(r0, r1, j as int, q);
                                    } else if q.len() == 1 {
                                        assert(q =~= p.subrange(0, 1));
                                        assert(q.is_prefix_of(p));
                                    } else {
                                        lemma_independent_tails(p, q);
                                        assert(free_path(r1, q) == free_path(ch2, q.drop_first()));
                                        assert(free_path(r0, q) == free_path(ch0, q.drop_first()));
                                    }
                                }
                            }
                        }
                    }
                },
                PathTreeNode::File { diff_index: fi } => {
                    let new_entry = (key, PathTreeNode::File { diff_index: fi });
                    root.insert(j, new_entry);
                    proof {
                        let r1 = root@;
                        lemma_remove_insert_update(r0, j as int, (gkey, PathTreeNode::File { diff_index: fi }));
                        assert(r1 == r0.update(j as int, r0[j as int])) by {
                            assert((gkey, PathTreeNode::File { diff_index: fi }) == r0[j as int]);
                        }
                        assert(r1 =~= r0);
                        if forest_wf(r0) {
                            lemma_key_at_is(r0, j as int);
                            assert(chain_blocked(r0, p));
                        }
                        if forest_wf(r0) && free_path(r0, p) {
                            lemma_key_at_is(r0, j as int);
                            assert(r0[j as int].1 is File);
                            assert(p.len() > 1);
                            assert(false);
                        }
                    }
                },
            }
        } else {
            let mut ch: Vec<(String, PathTreeNode)> = Vec::new();
            proof {
                assert(ch@.len() == 0);
                assert(forest_wf(ch@));
                assert(!has_key(ch@, parts.deep_view().skip(pos as int + 1)[0]));
            }
            let ghost ch0 = ch@;
            insert_into_tree(&mut ch, parts, pos + 1, diff_index);
            let ghost ch2 = ch@;
            let new_entry = (
                name.clone(),
                PathTreeNode::Directory { name: name.clone(), children: ch },
            );
            let ghost ge = new_entry;
            root.insert(j, new_entry);
            proof {
                if forest_wf(r0) {
                    let r1 = root@;
                    let p1 = p.drop_first();
                    assert(p1 =~= parts.deep_view().skip(pos as int + 1));
                    assert(p1.len() > 0);
                    assert(free_path(ch0, p1));
                    assert(r1 == r0.insert(j as int, ge));
                    assert forall|k: int| j <= k < r0.len() implies seq_lt(
                        nm,
                        (#[trigger] r0[k]).0@,
                    ) by {
                        if k > j {
                            lemma_seq_lt_trans(nm, r0[j as int].0@, r0[k].0@);
                        }
                    }
                    lemma_sorted_insert(r0, j as int, ge);
                    assert(entry_wf(ge)) by {
                        assert(forest_wf(ch2));
                    }
                    assert forall|i: int| 0 <= i < r1.len() implies entry_wf(#[trigger] r1[i]) by {
                        if i < j {
                            assert(r1[i] == r0[i]);
                            assert(entry_wf(r0[i]));
                        } else if i == j {
                            assert(r1[i] == ge);
                        } else {
                            assert(r1[i] == r0[i - 1]);
                            assert(entry_wf(r0[i - 1]));
                        }
                    }
                    assert(forest_wf(r1));
                    lemma_no_key(r0, j as int, nm);
                    lemma_key_at_is(r1, j as int);
                    assert(!chain_blocked(r0, p));
                    assert(!chain_blocked(ch0, p1));
                    assert(forest_node(r1, p) == forest_node(ch2, p1));
                    assert(forest_node(r1, p) == Some(Some(diff_index as int)));
                    assert forall|q: Seq<Seq<char>>|
                        q.len() > 0 && q.len() < p.len() && q.is_prefix_of(p)
                        implies #[trigger] forest_node(r1, q) == Some(None::<int>) by {
                        assert(q[0] == p.subrange(0, q.len() as int)[0]);
                        assert(q[0] == nm);
                        if q.len() > 1 {
                            lemma_prefix_tails(p, q);
                            assert(forest_node(r1, q) == forest_node(ch2, q.drop_first()));
                        }
                    }
                    assert forall|q: Seq<Seq<char>>| p.is_prefix_of(q) && q != p
                        implies #[trigger] forest_node(r1, q) is None by {
                        assert(p[0] == q.subrange(0, p.len() as int)[0]);
                        assert(q[0] == nm);
                        lemma_prefix_tails(q, p);
                        if q.drop_first() == p1 {
                            lemma_eq_from_parts(q, p);
                        }
                        assert(forest_node(r1, q) == forest_node(ch2, q.drop_first()));
                    }
                    assert forall|q: Seq<Seq<char>>| paths_independent(p, q)
                        implies #[trigger] forest_node(r1, q) == forest_node(r0, q) by {
                        if q.len() == 0 {
                        } else if q[0] != nm {
                            lemma_insert_other_key(r0, j as int, ge, q);
                        } else if q.len() == 1 {
                            assert(q =~= p.subrange(0, 1));
                            assert(q.is_prefix_of(p));
                        } else {
                            lemma_independent_tails(p, q);
                            assert(forest_node(r1, q) == forest_node(ch2, q.drop_first()));
                            assert(forest_node(ch2, q.drop_first()) == forest_node(
                                ch0,
                                q.drop_first(),
                            ));
                            assert(forest_node(ch0, q.drop_first()) is None);
                            assert(forest_node(r0, q) is None);
                        }
                    }
                    if free_path(r0, p) {
                        assert(forest_lookup(r1, p) == forest_lookup(ch2, p1));
                        assert(forest_lookup(r1, p) == Some(diff_index as int));
                        assert forall|q: Seq<Seq<char>>| q != p implies #[trigger] forest_lookup(
                            r1,
                            q,
                        ) == forest_lookup(r0, q) by {
                            if q.len() == 0 {
                            } else if q[0] != nm {
                                lemma_insert_other_key(r0, j as int, ge, q);
                            } else if q.len() == 1 {
                                assert(forest_lookup(r1, q) is None);
                                assert(forest_lookup(r0, q) is None);
                            } else {
                                if q.drop_first() == p1 {
                                    lemma_eq_from_parts(q, p);
                                }
                                assert(forest_lookup(r1, q) == forest_lookup(ch2, q.drop_first()));
                                assert(forest_lookup(ch2, q.drop_first()) == forest_lookup(
                                    ch0,
                                    q.drop_first(),
                                ));
                                assert(forest_lookup(ch0, q.drop_first()) is None);
                                assert(forest_lookup(r0, q) is None);
                            }
                        }
                        assert forall|q: Seq<Seq<char>>| paths_independent(p, q)
                            implies #[trigger] free_path(r1, q) == free_path(r0, q) by {
                            if q.len() == 0 {
                            } else if q[0] != nm {
                                lemma_insert_other_key(r0, j as int, ge, q);
                            } else if q.len() == 1 {
                                assert(q =~= p.subrange(0, 1));
                                assert(q.is_prefix_of(p));
                            } else {
                                lemma_independent_tails(p, q);
                                assert(free_path(r1, q) == free_path(ch2, q.drop_first()));
                                assert(free_path(ch2, q.drop_first()) == free_path(
                                    ch0,
                                    q.drop_first(),
                                ));
                                assert(free_path(ch0, q.drop_first()));
                                assert(free_path(r0, q));
                            }
                        }
                    }
                }
            }
        }
    }
}


proof fn lemma_independent_neq(p: Seq<Seq<char>>, q: Seq<Seq<char>>)
    requires
        paths_independent(p, q),
    ensures
        p != q,
{
    if p == q {
        assert(q.subrange(0, p.len() as int) =~= q);
        assert(p.is_prefix_of(q));
    }
}

/// All the diffs' new paths, split into segments, are pairwise
/// independent: no two equal and none a prefix of another.
pub open spec fn diff_paths_independent(diffs: Seq<FileDiff>) -> bool {
    forall|i: int, j: int|
        0 <= i < diffs.len() && 0 <= j < diffs.len() && i != j ==> paths_independent(
            split_path_spec((#[trigger] diffs[i]).new_path@),
            split_path_spec((#[trigger] diffs[j]).new_path@),
        )
}

/// Builds the navigation tree over the diffs' new paths: diff `i` stands
/// under the segments of its new path as a file node carrying `i`.  Every
/// level of the result is sorted by name and well formed; every node of
/// the result lies on the chain of some diff's path — the tree holds the
/// inserted chains and nothing else — and every file node stands at the
/// end of some diff's full path.  When the paths are pairwise independent
/// — the expected state, two diffs of one path would silently overwrite —
/// each diff is found under its own path.
pub fn build_file_tree(diffs: &Vec<FileDiff>) -> (root: Vec<(String, PathTreeNode)>)
    ensures
        forest_wf(root@),
        forall|q: Seq<Seq<char>>|
            #[trigger] forest_node(root@, q) is Some ==> exists|i: int|
                0 <= i < diffs@.len() && q.len() > 0 && q.is_prefix_of(
                    split_path_spec(diffs@[i].new_path@),
                ),
        forall|q: Seq<Seq<char>>|
            #[trigger] forest_lookup(root@, q) is Some ==> exists|i: int|
                0 <= i < diffs@.len() && q == split_path_spec(diffs@[i].new_path@),
        diff_paths_independent(diffs@) ==> forall|i: int|
            0 <= i < diffs@.len() ==> #[trigger] forest_lookup(
                root@,
                split_path_spec(diffs@[i].new_path@),
            ) == Some(i),
{
    let n = diffs.len();
    let mut root: Vec<(String, PathTreeNode)> = Vec::new();
    let mut i: usize = 0;
    proof {
        assert(forest_wf(root@));
        assert forall|k: int| 0 <= k < n implies #[trigger] free_path(
            root@,
            split_path_spec(diffs@[k].new_path@),
        ) by {
            lemma_split_path_nonempty(diffs@[k].new_path@);
        }
        assert forall|q: Seq<Seq<char>>| #[trigger] forest_node(root@, q) is None by {
            if q.len() > 0 {
                assert(!has_key(root@, q[0]));
            }
        }
    }
    while i < n
        invariant
            n == diffs@.len(),
            i <= n,
            forest_wf(root@),
            forall|q: Seq<Seq<char>>|
                #[trigger] forest_node(root@, q) is Some ==> exists|k: int|
                    0 <= k < i && q.len() > 0 && q.is_prefix_of(
                        split_path_spec(diffs@[k].new_path@),
                    ),
            forall|q: Seq<Seq<char>>|
                forest_node(root@, q) is Some && (#[trigger] forest_node(root@, q))->0 is Some
                    ==> exists|k: int| 0 <= k < i && q == split_path_spec(diffs@[k].new_path@),
            diff_paths_independent(diffs@) ==> (forall|k: int|
                0 <= k < i ==> #[trigger] forest_lookup(
                    root@,
                    split_path_spec(diffs@[k].new_path@),
                ) == Some(k)),
            diff_paths_independent(diffs@) ==> (forall|k: int|
                i <= k < n ==> #[trigger] free_path(root@, split_path_spec(diffs@[k].new_path@))),
        decreases n - i,
    {
        let d = &diffs[i];
        let parts = split_path(d.new_path.as_str());
        let ghost pv = parts.deep_view();
        let ghost before = root@;
        proof {
            assert(pv.skip(0) =~= pv);
            assert(pv == split_path_spec(diffs@[i as int].new_path@));
            assert(pv.len() > 0);
        }
        insert_into_tree(&mut root, &parts, 0, i);
        proof {
            assert forall|q: Seq<Seq<char>>| #[trigger] forest_node(root@, q) is Some
                implies exists|k: int|
                0 <= k < i + 1 && q.len() > 0 && q.is_prefix_of(
                    split_path_spec(diffs@[k].new_path@),
                ) by {
                if q.len() == 0 {
                    assert(forest_node(root@, q) is None);
                } else if chain_blocked(before, pv) {
                    assert(forest_node(root@, q) == forest_node(before, q));
                } else if paths_independent(pv, q) {
                    assert(forest_node(root@, q) == forest_node(before, q));
                } else if q.is_prefix_of(pv) {
                    assert(0 <= i < i + 1 && q.len() > 0 && q.is_prefix_of(
                        split_path_spec(diffs@[i as int].new_path@),
                    ));
                } else {
                    assert(pv.is_prefix_of(q) && q != pv) by {
                        if q == pv {
                            assert(pv.subrange(0, q.len() as int) =~= pv);
                            assert(q.is_prefix_of(pv));
                        }
                    }
                    assert(forest_node(root@, q) is None);
                }
            }
            assert forall|q: Seq<Seq<char>>|
                forest_node(root@, q) is Some && (#[trigger] forest_node(root@, q))->0 is Some
                implies exists|k: int|
                0 <= k < i + 1 && q == split_path_spec(diffs@[k].new_path@) by {
                if q.len() == 0 {
                    assert(forest_node(root@, q) is None);
                } else if chain_blocked(before, pv) {
                    assert(forest_node(root@, q) == forest_node(before, q));
                } else if paths_independent(pv, q) {
                    assert(forest_node(root@, q) == forest_node(before, q));
                } else if q == pv {
                    assert(0 <= i < i + 1 && q == split_path_spec(diffs@[i as int].new_path@));
                } else if q.is_prefix_of(pv) {
                    assert(q.len() < pv.len()) by {
                        if q.len() == pv.len() {
                            assert(pv.subrange(0, q.len() as int) =~= pv);
                        }
                    }
                    assert(forest_node(root@, q) == Some(None::<int>));
                } else {
                    assert(pv.is_prefix_of(q) && q != pv);
                    assert(forest_node(root@, q) is None);
                }
            }
            if diff_paths_independent(diffs@) {
                assert(free_path(before, pv));
                assert(forest_lookup(root@, pv) == Some(i as int));
                assert forall|k: int| 0 <= k < i + 1 implies #[trigger] forest_lookup(
                    root@,
                    split_path_spec(diffs@[k].new_path@),
                ) == Some(k) by {
                    if k < i {
                        let qk = split_path_spec(diffs@[k].new_path@);
                        assert(paths_independent(pv, qk));
                        lemma_independent_neq(pv, qk);
                        assert(forest_lookup(root@, qk) == forest_lookup(before, qk));
                    }
                }
                assert forall|k: int| i + 1 <= k < n implies #[trigger] free_path(
                    root@,
                    split_path_spec(diffs@[k].new_path@),
                ) by {
                    let qk = split_path_spec(diffs@[k].new_path@);
                    assert(paths_independent(pv, qk));
                    assert(free_path(root@, qk) == free_path(before, qk));
                }
            }
        }
        i += 1;
    }
    proof {
        assert forall|q: Seq<Seq<char>>| #[trigger] forest_lookup(root@, q) is Some
            implies exists|k: int| 0 <= k < diffs@.len() && q == split_path_spec(
            diffs@[k].new_path@,
        ) by {
            lemma_lookup_is_file_node(root@, q);
        }
    }
    root
}

} // verus!
