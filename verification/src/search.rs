//! The two search strategies, the runner's search step, and the laws the
//! searches obey.

use vstd::prelude::*;
use vstd::string::StringExecFns;
use crate::config::Config;
use crate::text::contains_substring;
use crate::text::has_substring;
use crate::text::line_views;
use crate::text::lines_of;
use crate::text::split_lines;

verus! {

/// The case-folded form of a string's characters, exactly as
/// `str::to_lowercase` computes it.
pub uninterp spec fn lower_of(s: Seq<char>) -> Seq<char>;

/// Relies on str::to_lowercase: full Unicode lowercasing, whose result
/// depends on the input characters alone.
#[verifier::external_body]
fn lowercase(s: &str) -> (r: String)
    ensures
        r@ == lower_of(s@),
{
    s.to_lowercase()
}

/// A line matches a query exactly when it contains it as a substring.
pub open spec fn line_matches(line: Seq<char>, query: Seq<char>) -> bool {
    has_substring(line, query)
}

/// A line matches a query case-insensitively when the folded line contains
/// the folded query.
pub open spec fn line_matches_ci(line: Seq<char>, query: Seq<char>) -> bool {
    has_substring(lower_of(line), lower_of(query))
}

/// The case-sensitive match predicate on lines, as a function value.
pub open spec fn sensitive_pred(query: Seq<char>) -> spec_fn(Seq<char>) -> bool {
    |l: Seq<char>| line_matches(l, query)
}

/// The case-insensitive match predicate on lines, as a function value.
pub open spec fn insensitive_pred(query: Seq<char>) -> spec_fn(Seq<char>) -> bool {
    |l: Seq<char>| line_matches_ci(l, query)
}

/// The lines among `lines` that contain `query`, in their original order.
pub open spec fn matching_lines(query: Seq<char>, lines: Seq<Seq<char>>) -> Seq<Seq<char>> {
    lines.filter(sensitive_pred(query))
}

/// The lines among `lines` whose folded form contains the folded `query`,
/// in their original order and themselves unfolded.
pub open spec fn matching_lines_ci(query: Seq<char>, lines: Seq<Seq<char>>) -> Seq<Seq<char>> {
    lines.filter(insensitive_pred(query))
}

/// Filtering a sequence extended by one element keeps the old filtered
/// sequence and appends the element exactly when it satisfies the predicate.
proof fn lemma_filter_push<A>(s: Seq<A>, pred: spec_fn(A) -> bool, x: A)
    ensures
        s.push(x).filter(pred) == if pred(x) {
            s.filter(pred).push(x)
        } else {
            s.filter(pred)
        },
{
    reveal_with_fuel(Seq::filter, 2);
    assert(s.push(x).drop_last() =~= s);
    assert(s.push(x).last() == x);
}

/// Returns every line of `contents` that contains `query` as an exact
/// substring, as slices of `contents`, in the file's line order.
pub fn search<'a>(query: &str, contents: &'a str) -> (results: Vec<&'a str>)
    ensures
        line_views(results@) == matching_lines(query@, lines_of(contents@)),
{
    let lines = split_lines(contents);
    let mut results: Vec<&'a str> = Vec::new();
    let mut i: usize = 0;
    proof {
        assert(line_views(lines@).take(0) =~= Seq::<Seq<char>>::empty());
        assert(Seq::<Seq<char>>::empty().filter(sensitive_pred(query@))
            =~= Seq::<Seq<char>>::empty());
        assert(line_views(results@) =~= Seq::<Seq<char>>::empty());
    }
    while i < lines.len()
        invariant
            i <= lines@.len(),
            line_views(lines@) == lines_of(contents@),
            line_views(results@) == matching_lines(query@, line_views(lines@).take(i as int)),
        decreases lines@.len() - i,
    {
        let ghost lv = line_views(lines@);
        if contains_substring(lines[i], query) {
            results.push(lines[i]);
        }
        proof {
            assert(lv.take(i + 1) =~= lv.take(i as int).push(lv[i as int]));
            lemma_filter_push(lv.take(i as int), sensitive_pred(query@), lv[i as int]);
            assert(line_views(results@) =~= matching_lines(query@, lv.take(i + 1)));
        }
        i += 1;
    }
    proof {
        assert(line_views(lines@).take(lines@.len() as int) =~= line_views(lines@));
    }
    results
}

/// Returns every line of `contents` whose case-folded form contains the
/// case-folded `query`, as unfolded slices of `contents`, in the file's
/// line order.
pub fn search_case_insensitive<'a>(query: &str, contents: &'a str) -> (results: Vec<&'a str>)
    ensures
        line_views(results@) == matching_lines_ci(query@, lines_of(contents@)),
{
    let folded_query = lowercase(query);
    let lines = split_lines(contents);
    let mut results: Vec<&'a str> = Vec::new();
    let mut i: usize = 0;
    proof {
        assert(line_views(lines@).take(0) =~= Seq::<Seq<char>>::empty());
        assert(Seq::<Seq<char>>::empty().filter(insensitive_pred(query@))
            =~= Seq::<Seq<char>>::empty());
        assert(line_views(results@) =~= Seq::<Seq<char>>::empty());
    }
    while i < lines.len()
        invariant
            i <= lines@.len(),
            folded_query@ == lower_of(query@),
            line_views(lines@) == lines_of(contents@),
            line_views(results@) == matching_lines_ci(query@, line_views(lines@).take(i as int)),
        decreases lines@.len() - i,
    {
        let ghost lv = line_views(lines@);
        let folded_line = lowercase(lines[i]);
        if contains_substring(folded_line.as_str(), folded_query.as_str()) {
            results.push(lines[i]);
        }
        proof {
            assert(lv.take(i + 1) =~= lv.take(i as int).push(lv[i as int]));
            lemma_filter_push(lv.take(i as int), insensitive_pred(query@), lv[i as int]);
            assert(line_views(results@) =~= matching_lines_ci(query@, lv.take(i + 1)));
        }
        i += 1;
    }
    proof {
        assert(line_views(lines@).take(lines@.len() as int) =~= line_views(lines@));
    }
    results
}

/// The lines a configuration's search selects from the given contents.
pub open spec fn selected_lines(query: Seq<char>, ignore_case: bool, contents: Seq<char>) -> Seq<
    Seq<char>,
> {
    if ignore_case {
        matching_lines_ci(query, lines_of(contents))
    } else {
        matching_lines(query, lines_of(contents))
    }
}

/// Runs the search a configuration describes over the file contents the
/// caller has read, dispatching on the case-folding flag.
pub fn run_search<'a>(config: &Config, contents: &'a str) -> (results: Vec<&'a str>)
    ensures
        line_views(results@) == selected_lines(config.query@, config.ignore_case, contents@),
{
    if config.ignore_case {
        search_case_insensitive(config.query.as_str(), contents)
    } else {
        search(config.query.as_str(), contents)
    }
}

/// The text the program prints: every given line in order, each followed by
/// one newline character.
pub open spec fn rendered(lines: Seq<Seq<char>>) -> Seq<char>
    decreases lines.len(),
{
    if lines.len() == 0 {
        Seq::empty()
    } else {
        rendered(lines.drop_last()) + lines.last() + seq!['\n']
    }
}

/// Concatenates the given lines into the output text, one newline after
/// each line.
pub fn render_output(lines: &Vec<&str>) -> (out: String)
    ensures
        out@ == rendered(line_views(lines@)),
{
    let mut out = String::new();
    let mut i: usize = 0;
    proof {
        assert(line_views(lines@).take(0) =~= Seq::<Seq<char>>::empty());
    }
    while i < lines.len()
        invariant
            i <= lines@.len(),
            out@ == rendered(line_views(lines@).take(i as int)),
        decreases lines@.len() - i,
    {
        out.append(lines[i]);
        out.append("\n");
        proof {
            reveal_strlit("\n");
            let lv = line_views(lines@);
            assert("\n"@ =~= seq!['\n']);
            assert(lv.take(i + 1).drop_last() =~= lv.take(i as int));
            assert(lv.take(i + 1).last() == lv[i as int]);
        }
        i += 1;
    }
    proof {
        assert(line_views(lines@).take(lines@.len() as int) =~= line_views(lines@));
    }
    out
}

/// A sequence extended by one element contains exactly the old elements and
/// the new one.
proof fn lemma_contains_push<A>(s: Seq<A>, y: A, x: A)
    ensures
        s.push(y).contains(x) <==> s.contains(x) || x == y,
{
    if s.push(y).contains(x) {
        let i = choose|i: int| 0 <= i < s.push(y).len() && s.push(y)[i] == x;
        if i < s.len() {
            assert(s[i] == x);
        }
    }
    if s.contains(x) {
        let i = choose|i: int| 0 <= i < s.len() && s[i] == x;
        assert(s.push(y)[i] == x);
    }
    if x == y {
        assert(s.push(y)[s.len() as int] == x);
    }
}

/// An element is in a filtered sequence exactly when it is in the original
/// sequence and satisfies the predicate.
proof fn lemma_filter_contains_iff<A>(s: Seq<A>, pred: spec_fn(A) -> bool, x: A)
    ensures
        s.filter(pred).contains(x) <==> s.contains(x) && pred(x),
    decreases s.len(),
{
    reveal_with_fuel(Seq::filter, 2);
    if s.len() == 0 {
    } else {
        let dl = s.drop_last();
        lemma_filter_contains_iff(dl, pred, x);
        assert(s =~= dl.push(s.last()));
        lemma_filter_push(dl, pred, s.last());
        lemma_contains_push(dl, s.last(), x);
        if pred(s.last()) {
            lemma_contains_push(dl.filter(pred), s.last(), x);
        }
    }
}

/// Case-sensitive containment law: a line is in the case-sensitive result
/// for a file's contents if and only if it is a line of the file and
/// contains the exact query substring.
pub proof fn lemma_case_sensitive_containment(query: Seq<char>, contents: Seq<char>, l: Seq<char>)
    ensures
        matching_lines(query, lines_of(contents)).contains(l) <==> lines_of(contents).contains(l)
            && has_substring(l, query),
{
    lemma_filter_contains_iff(lines_of(contents), sensitive_pred(query), l);
}

/// Case-insensitive containment law: a line is in the case-insensitive
/// result for a file's contents if and only if it is a line of the file and
/// its case-folded form contains the case-folded query.
pub proof fn lemma_case_insensitive_containment(query: Seq<char>, contents: Seq<char>, l: Seq<char>)
    ensures
        matching_lines_ci(query, lines_of(contents)).contains(l) <==> lines_of(contents).contains(l)
            && has_substring(lower_of(l), lower_of(query)),
{
    lemma_filter_contains_iff(lines_of(contents), insensitive_pred(query), l);
}

/// Output fidelity law: every line the case-insensitive search returns is an
/// original line of the file, never a folded copy, even where folding would
/// have changed its characters or length.
pub proof fn lemma_output_fidelity(query: Seq<char>, contents: Seq<char>, l: Seq<char>)
    requires
        matching_lines_ci(query, lines_of(contents)).contains(l),
    ensures
        lines_of(contents).contains(l),
{
    lemma_case_insensitive_containment(query, contents, l);
}

/// `idx` embeds `sub` into `full`: it lists, in strictly increasing order,
/// a position in `full` holding each element of `sub` in turn.
pub open spec fn is_index_embedding(idx: Seq<int>, sub: Seq<Seq<char>>, full: Seq<Seq<char>>) -> bool {
    &&& idx.len() == sub.len()
    &&& forall|k: int|
        0 <= k < idx.len() ==> 0 <= #[trigger] idx[k] < full.len() && full[idx[k]] == sub[k]
    &&& forall|k: int| 0 <= k < idx.len() - 1 ==> #[trigger] idx[k] < idx[k + 1]
}

/// `sub` occurs inside `full` in the same relative order.
pub open spec fn is_subsequence_of(sub: Seq<Seq<char>>, full: Seq<Seq<char>>) -> bool {
    exists|idx: Seq<int>| is_index_embedding(idx, sub, full)
}

/// A filtered sequence is a subsequence of the original: filtering keeps the
/// surviving elements in their original relative order.
#[verifier::rlimit(50)]
proof fn lemma_filter_is_subsequence(s: Seq<Seq<char>>, pred: spec_fn(Seq<char>) -> bool)
    ensures
        is_subsequence_of(s.filter(pred), s),
    decreases s.len(),
{
    reveal_with_fuel(Seq::filter, 2);
    if s.len() == 0 {
        let idx: Seq<int> = Seq::empty();
        assert(is_index_embedding(idx, s.filter(pred), s));
    } else {
        let dl = s.drop_last();
        lemma_filter_is_subsequence(dl, pred);
        let idx0 = choose|idx: Seq<int>| is_index_embedding(idx, dl.filter(pred), dl);
        assert(s =~= dl.push(s.last()));
        lemma_filter_push(dl, pred, s.last());
        if pred(s.last()) {
            let idx = idx0.push(dl.len() as int);
            assert forall|k: int| 0 <= k < idx.len() implies 0 <= #[trigger] idx[k] < s.len()
                && s[idx[k]] == s.filter(pred)[k] by {
                if k < idx0.len() {
                    assert(0 <= idx0[k] < dl.len());
                    assert(s[idx0[k]] == dl[idx0[k]]);
                } else {
                    assert(idx[k] == dl.len());
                    assert(s[dl.len() as int] == s.last());
                }
            }
            assert forall|k: int| 0 <= k < idx.len() - 1 implies #[trigger] idx[k] < idx[k + 1] by {
                if k < idx0.len() - 1 {
                } else {
                    assert(idx[k] == idx0[k]);
                    assert(0 <= idx0[k] < dl.len());
                }
            }
            assert(is_index_embedding(idx, s.filter(pred), s));
        } else {
            assert forall|k: int| 0 <= k < idx0.len() implies 0 <= #[trigger] idx0[k] < s.len()
                && s[idx0[k]] == s.filter(pred)[k] by {
                assert(0 <= idx0[k] < dl.len());
                assert(s[idx0[k]] == dl[idx0[k]]);
            }
            assert(is_index_embedding(idx0, s.filter(pred), s));
        }
    }
}

/// Order preservation law: in both search modes, the result lists its lines
/// in the file's original line order.
pub proof fn lemma_order_preserved(query: Seq<char>, ignore_case: bool, contents: Seq<char>)
    ensures
        is_subsequence_of(selected_lines(query, ignore_case, contents), lines_of(contents)),
{
    if ignore_case {
        lemma_filter_is_subsequence(lines_of(contents), insensitive_pred(query));
    } else {
        lemma_filter_is_subsequence(lines_of(contents), sensitive_pred(query));
    }
}

} // verus!
