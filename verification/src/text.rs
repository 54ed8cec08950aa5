//! Text primitives: partitioning a text into lines.

use vstd::prelude::*;

verus! {

/// Index of the first occurrence of `c` in `s`, or `s.len()` if there is
/// none.
pub open spec fn first_index_of(s: Seq<char>, c: char) -> int
    decreases s.len(),
{
    if s.len() == 0 {
        0
    } else if s[0] == c {
        0
    } else {
        1 + first_index_of(s.drop_first(), c)
    }
}

pub proof fn lemma_first_index_of_in_range(s: Seq<char>, c: char)
    ensures
        0 <= first_index_of(s, c) <= s.len(),
        forall|k: int| 0 <= k < first_index_of(s, c) ==> s[k] != c,
        first_index_of(s, c) < s.len() ==> s[first_index_of(s, c)] == c,
    decreases s.len(),
{
    if s.len() != 0 && s[0] != c {
        lemma_first_index_of_in_range(s.drop_first(), c);
        assert forall|k: int| 0 <= k < first_index_of(s, c) implies s[k] != c by {
            if k > 0 {
                assert(s.drop_first()[k - 1] != c);
            }
        }
    }
}

/// The lines of a text: the content between consecutive `'\n'` boundaries,
/// the boundary character excluded.  A final fragment without a trailing
/// `'\n'` is a line of its own; an empty text has no lines.
pub open spec fn split_lines_spec(s: Seq<char>) -> Seq<Seq<char>>
    decreases s.len(),
    via split_lines_spec_decreases
{
    if s.len() == 0 {
        Seq::empty()
    } else {
        let k = first_index_of(s, '\n');
        if k == s.len() {
            seq![s]
        } else {
            seq![s.subrange(0, k)] + split_lines_spec(s.subrange(k + 1, s.len() as int))
        }
    }
}

#[via_fn]
proof fn split_lines_spec_decreases(s: Seq<char>) {
    lemma_first_index_of_in_range(s, '\n');
}

/// Partitions `text` into lines, excluding the `'\n'` boundaries.
pub fn split_lines(text: &str) -> (r: Vec<String>)
    ensures
        r.deep_view() == split_lines_spec(text@),
{
    let n = text.unicode_len();
    let mut r: Vec<String> = Vec::new();
    let mut start: usize = 0;
    let mut i: usize = 0;
    proof {
        assert(text@.subrange(0, n as int) =~= text@);
        assert(r.deep_view() =~= Seq::<Seq<char>>::empty());
    }
    while i < n
        invariant
            n == text@.len(),
            start <= i <= n,
            forall|k: int| start <= k < i ==> text@[k] != '\n',
            split_lines_spec(text@) == r.deep_view() + split_lines_spec(
                text@.subrange(start as int, n as int),
            ),
        decreases n - i,
    {
        let c = text.get_char(i);
        if c == '\n' {
            let line = text.substring_char(start, i).to_owned();
            proof {
                let prev = r.deep_view();
                let rest = text@.subrange(start as int, n as int);
                assert(forall|j: int| 0 <= j < i - start ==> rest[j] != '\n');
                assert(rest[i - start] == '\n');
                lemma_break_at(rest, i - start);
                assert(rest.subrange(0, i - start) =~= text@.subrange(start as int, i as int));
                assert(rest.subrange(i - start + 1, rest.len() as int) =~= text@.subrange(
                    i + 1,
                    n as int,
                ));
                assert(prev.push(line@) =~= prev + seq![line@]);
                assert((prev + seq![line@]) + split_lines_spec(text@.subrange(i + 1, n as int))
                    =~= prev + (seq![line@] + split_lines_spec(text@.subrange(i + 1, n as int))));
            }
            let ghost prev = r.deep_view();
            let ghost lv = line@;
            r.push(line);
            proof {
                assert(r.deep_view() =~= prev.push(lv));
            }
            start = i + 1;
        }
        i += 1;
    }
    if start < n {
        let line = text.substring_char(start, n).to_owned();
        proof {
            let prev = r.deep_view();
            let rest = text@.subrange(start as int, n as int);
            assert(forall|j: int| 0 <= j < rest.len() ==> rest[j] != '\n');
            lemma_break_none(rest);
            assert(prev.push(line@) =~= prev + seq![line@]);
        }
        let ghost prev = r.deep_view();
        let ghost lv = line@;
        r.push(line);
        proof {
            assert(r.deep_view() =~= prev.push(lv));
        }
    } else {
        proof {
            assert(text@.subrange(start as int, n as int).len() == 0);
            assert(r.deep_view() + split_lines_spec(text@.subrange(start as int, n as int))
                =~= r.deep_view());
        }
    }
    r
}

/// The ASCII whitespace characters trimmed from command output.
pub open spec fn is_ascii_ws(c: char) -> bool {
    c == ' ' || c == '\t' || c == '\n' || c == '\r'
}

/// `s` without its leading whitespace.
pub open spec fn trim_front_spec(s: Seq<char>) -> Seq<char>
    decreases s.len(),
{
    if s.len() > 0 && is_ascii_ws(s[0]) {
        trim_front_spec(s.drop_first())
    } else {
        s
    }
}

/// `s` without its trailing whitespace.
pub open spec fn trim_back_spec(s: Seq<char>) -> Seq<char>
    decreases s.len(),
{
    if s.len() > 0 && is_ascii_ws(s.last()) {
        trim_back_spec(s.drop_last())
    } else {
        s
    }
}

/// `s` without leading and trailing whitespace.
pub open spec fn trim_spec(s: Seq<char>) -> Seq<char> {
    trim_back_spec(trim_front_spec(s))
}

proof fn lemma_trim_front_skip(s: Seq<char>, lo: int)
    requires
        0 <= lo <= s.len(),
        forall|k: int| 0 <= k < lo ==> is_ascii_ws(s[k]),
        lo < s.len() ==> !is_ascii_ws(s[lo]),
    ensures
        trim_front_spec(s) == s.skip(lo),
    decreases lo,
{
    if lo == 0 {
        assert(s.skip(0) =~= s);
    } else {
        assert(is_ascii_ws(s[0]));
        assert forall|k: int| 0 <= k < lo - 1 implies is_ascii_ws(s.drop_first()[k]) by {
            assert(is_ascii_ws(s[k + 1]));
        }
        lemma_trim_front_skip(s.drop_first(), lo - 1);
        assert(s.drop_first().skip(lo - 1) =~= s.skip(lo));
    }
}

proof fn lemma_trim_back_take(s: Seq<char>, hi: int)
    requires
        0 <= hi <= s.len(),
        forall|k: int| hi <= k < s.len() ==> is_ascii_ws(s[k]),
        hi > 0 ==> !is_ascii_ws(s[hi - 1]),
    ensures
        trim_back_spec(s) == s.take(hi),
    decreases s.len() - hi,
{
    if hi == s.len() {
        assert(s.take(hi) =~= s);
    } else {
        assert(is_ascii_ws(s.last()));
        assert forall|k: int| hi <= k < s.drop_last().len() implies is_ascii_ws(s.drop_last()[k]) by {
            assert(is_ascii_ws(s[k]));
        }
        lemma_trim_back_take(s.drop_last(), hi);
        assert(s.drop_last().take(hi) =~= s.take(hi));
    }
}

/// Whether the character at position `i` of `text` is ASCII whitespace.
fn ws_at(text: &str, i: usize) -> (b: bool)
    requires
        i < text@.len(),
    ensures
        b == is_ascii_ws(text@[i as int]),
{
    let c = text.get_char(i);
    c == ' ' || c == '\t' || c == '\n' || c == '\r'
}

/// Returns `text` without leading and trailing ASCII whitespace.
pub fn trim_ws(text: &str) -> (r: String)
    ensures
        r@ == trim_spec(text@),
{
    let n = text.unicode_len();
    let mut lo: usize = 0;
    while lo < n && ws_at(text, lo)
        invariant
            lo <= n,
            n == text@.len(),
            forall|k: int| 0 <= k < lo ==> is_ascii_ws(text@[k]),
        decreases n - lo,
    {
        lo += 1;
    }
    let mut hi: usize = n;
    while hi > lo && ws_at(text, hi - 1)
        invariant
            lo <= hi <= n,
            n == text@.len(),
            forall|k: int| hi <= k < n ==> is_ascii_ws(text@[k]),
        decreases hi,
    {
        hi -= 1;
    }
    let r = text.substring_char(lo, hi).to_owned();
    proof {
        lemma_trim_front_skip(text@, lo as int);
        let mid = text@.skip(lo as int);
        assert forall|k: int| hi - lo <= k < mid.len() implies is_ascii_ws(mid[k]) by {
            assert(is_ascii_ws(text@[k + lo]));
        }
        if hi > lo {
            assert(!is_ascii_ws(text@[hi - 1]));
            assert(mid[hi - lo - 1] == text@[hi - 1]);
        }
        lemma_trim_back_take(mid, hi - lo);
        assert(mid.take(hi - lo) =~= text@.subrange(lo as int, hi as int));
    }
    r
}

/// When position `k` holds the first `'\n'` of `s`, the split is the prefix
/// line followed by the split of what comes after the boundary.
proof fn lemma_break_at(s: Seq<char>, k: int)
    requires
        0 <= k < s.len(),
        s[k] == '\n',
        forall|j: int| 0 <= j < k ==> s[j] != '\n',
    ensures
        first_index_of(s, '\n') == k,
        split_lines_spec(s) == seq![s.subrange(0, k)] + split_lines_spec(
            s.subrange(k + 1, s.len() as int),
        ),
    decreases s.len(),
{
    if k > 0 {
        assert forall|j: int| 0 <= j < k - 1 implies s.drop_first()[j] != '\n' by {
            assert(s[j + 1] != '\n');
        }
        assert(s.drop_first()[k - 1] == '\n');
        lemma_break_at(s.drop_first(), k - 1);
    }
}

/// A text without `'\n'` is a single line, or no line at all when empty.
proof fn lemma_break_none(s: Seq<char>)
    requires
        forall|j: int| 0 <= j < s.len() ==> s[j] != '\n',
    ensures
        first_index_of(s, '\n') == s.len(),
        s.len() > 0 ==> split_lines_spec(s) == seq![s],
    decreases s.len(),
{
    if s.len() > 0 {
        assert forall|j: int| 0 <= j < s.len() - 1 implies s.drop_first()[j] != '\n' by {
            assert(s[j + 1] != '\n');
        }
        lemma_break_none(s.drop_first());
    }
}

} // verus!
