//! The character-level text model: substring containment and line splitting.

use vstd::prelude::*;
use vstd::string::StrSliceExecFns;

verus! {

/// `needle` occurs in `hay` as a contiguous run starting at position `i`.
pub open spec fn match_at(hay: Seq<char>, needle: Seq<char>, i: int) -> bool {
    &&& 0 <= i
    &&& i + needle.len() <= hay.len()
    &&& hay.subrange(i, i + needle.len()) == needle
}

/// `needle` occurs somewhere in `hay` as a contiguous substring.
/// The empty needle occurs in every string, at position 0.
pub open spec fn has_substring(hay: Seq<char>, needle: Seq<char>) -> bool {
    exists|i: int| match_at(hay, needle, i)
}

/// Compares `needle` against the characters of `hay` starting at position `i`.
fn matches_at(hay: &str, needle: &str, i: usize) -> (r: bool)
    requires
        i + needle@.len() <= hay@.len(),
        hay@.len() <= usize::MAX,
    ensures
        r == match_at(hay@, needle@, i as int),
{
    let m = needle.unicode_len();
    let mut k: usize = 0;
    while k < m
        invariant
            m == needle@.len(),
            i + m <= hay@.len() <= usize::MAX,
            k <= m,
            forall|t: int| 0 <= t < k ==> hay@[i + t] == needle@[t],
        decreases m - k,
    {
        if hay.get_char(i + k) != needle.get_char(k) {
            proof {
                let sub = hay@.subrange(i as int, i + m);
                assert(sub[k as int] == hay@[i + k]);
                assert(sub != needle@);
            }
            return false;
        }
        k += 1;
    }
    proof {
        assert(hay@.subrange(i as int, i + m) =~= needle@);
    }
    true
}

/// Decides substring containment: whether `hay` contains `needle` as a
/// contiguous substring of its characters.
pub fn contains_substring(hay: &str, needle: &str) -> (r: bool)
    ensures
        r == has_substring(hay@, needle@),
{
    let n = hay.unicode_len();
    let m = needle.unicode_len();
    if m > n {
        return false;
    }
    let mut i: usize = 0;
    loop
        invariant
            n == hay@.len(),
            m == needle@.len(),
            m <= n,
            i <= n - m,
            forall|j: int| 0 <= j < i ==> !match_at(hay@, needle@, j),
        ensures
            forall|j: int| 0 <= j <= n - m ==> !match_at(hay@, needle@, j),
        decreases n - m - i,
    {
        if matches_at(hay, needle, i) {
            return true;
        }
        if i == n - m {
            break;
        }
        i += 1;
    }
    proof {
        assert forall|j: int| !match_at(hay@, needle@, j) by {
            if 0 <= j <= n - m {
            }
        }
    }
    false
}

/// Position of the first newline character in `s`, or `s.len()` when there
/// is none.
pub open spec fn first_newline(s: Seq<char>) -> nat
    decreases s.len(),
{
    if s.len() == 0 {
        0
    } else if s[0] == '\n' {
        0
    } else {
        1 + first_newline(s.drop_first())
    }
}

/// A newline-terminated line loses one trailing carriage return, so that a
/// Windows-style `\r\n` line break leaves no `\r` in the line's content.
pub open spec fn strip_cr(l: Seq<char>) -> Seq<char> {
    if l.len() > 0 && l.last() == '\r' {
        l.drop_last()
    } else {
        l
    }
}

/// The lines of `s`: the runs of characters between newline characters,
/// each newline-terminated run with a trailing carriage return removed.
/// A final newline ends the last line; it does not open an empty one.
pub open spec fn lines_of(s: Seq<char>) -> Seq<Seq<char>>
    decreases s.len(),
{
    if s.len() == 0 {
        seq![]
    } else {
        let i = first_newline(s) as int;
        if i >= s.len() {
            seq![s]
        } else {
            seq![strip_cr(s.take(i))] + lines_of(s.skip(i + 1))
        }
    }
}

/// The views of a sequence of string slices.
pub open spec fn line_views(lines: Seq<&str>) -> Seq<Seq<char>> {
    lines.map_values(|l: &str| l@)
}

/// `first_newline` is pinned down by its defining properties: no newline
/// strictly before `k`, and a newline at `k` unless `k` is the length.
proof fn lemma_first_newline_at(s: Seq<char>, k: int)
    requires
        0 <= k <= s.len(),
        forall|j: int| 0 <= j < k ==> s[j] != '\n',
        k < s.len() ==> s[k] == '\n',
    ensures
        first_newline(s) == k,
    decreases s.len(),
{
    if s.len() == 0 {
    } else if s[0] == '\n' {
        assert(k == 0);
    } else {
        assert(k >= 1);
        let rest = s.drop_first();
        assert forall|j: int| 0 <= j < k - 1 implies rest[j] != '\n' by {
            assert(rest[j] == s[j + 1]);
        }
        lemma_first_newline_at(rest, k - 1);
    }
}

/// Splits `contents` into its lines, each returned as a slice of the
/// original text.
pub fn split_lines<'a>(contents: &'a str) -> (lines: Vec<&'a str>)
    ensures
        line_views(lines@) == lines_of(contents@),
{
    let n = contents.unicode_len();
    let mut lines: Vec<&'a str> = Vec::new();
    let mut pos: usize = 0;
    proof {
        assert(contents@.skip(0) =~= contents@);
        assert(lines_of(contents@) =~= line_views(lines@) + lines_of(contents@.skip(0)));
    }
    while pos < n
        invariant
            n == contents@.len(),
            pos <= n,
            lines_of(contents@) == line_views(lines@) + lines_of(contents@.skip(pos as int)),
        decreases n - pos,
    {
        let ghost rest = contents@.skip(pos as int);
        let mut end: usize = pos;
        while end < n && contents.get_char(end) != '\n'
            invariant
                n == contents@.len(),
                pos <= end <= n,
                forall|j: int| pos <= j < end ==> contents@[j] != '\n',
            decreases n - end,
        {
            end += 1;
        }
        proof {
            assert forall|j: int| 0 <= j < end - pos implies rest[j] != '\n' by {
                assert(rest[j] == contents@[pos + j]);
            }
            if end < n {
                assert(rest[end - pos] == contents@[end as int]);
            }
            lemma_first_newline_at(rest, end - pos);
        }
        let line: &'a str;
        if end < n {
            if end > pos && contents.get_char(end - 1) == '\r' {
                line = contents.substring_char(pos, end - 1);
            } else {
                line = contents.substring_char(pos, end);
            }
            proof {
                assert(rest.take(end - pos) =~= contents@.subrange(pos as int, end as int));
                assert(line@ =~= strip_cr(rest.take(end - pos)));
                assert(rest.skip(end - pos + 1) =~= contents@.skip(end + 1));
                assert(lines_of(rest) == seq![line@] + lines_of(contents@.skip(end + 1)));
            }
        } else {
            line = contents.substring_char(pos, n);
            proof {
                assert(line@ =~= rest);
                assert(lines_of(rest) == seq![line@]);
            }
        }
        let ghost prev = lines@;
        lines.push(line);
        proof {
            assert(line_views(lines@) =~= line_views(prev) + seq![line@]);
        }
        if end < n {
            pos = end + 1;
        } else {
            pos = n;
            proof {
                assert(contents@.skip(pos as int) =~= Seq::<char>::empty());
                assert(lines_of(Seq::<char>::empty()) == Seq::<Seq<char>>::empty());
            }
        }
        proof {
            assert(lines_of(contents@) =~= line_views(lines@) + lines_of(
                contents@.skip(pos as int),
            ));
        }
    }
    proof {
        assert(contents@.skip(n as int) =~= Seq::<char>::empty());
        assert(lines_of(Seq::<char>::empty()) == Seq::<Seq<char>>::empty());
        assert(line_views(lines@) =~= lines_of(contents@));
    }
    lines
}

} // verus!
