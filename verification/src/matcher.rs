//! The matcher: the lines of a text that hold a query.

use crate::casefold::lowercase_of;
use crate::lines::{lemma_lines_are_runs, lines_of, split_lines};
use crate::substring::{contains, has_substring, occurs_at};
use vstd::prelude::*;

verus! {

/// The test that a line passes when it holds `query` as it stands.
pub open spec fn holds(query: Seq<char>) -> spec_fn(Seq<char>) -> bool {
    |line: Seq<char>| has_substring(line, query)
}

/// The test that a line passes when its lowercase form holds the lowercase
/// form of `query`.
pub open spec fn holds_folded(query: Seq<char>) -> spec_fn(Seq<char>) -> bool {
    |line: Seq<char>| has_substring(lowercase_of(line), lowercase_of(query))
}

/// The lines of `text` that hold `query`, in the order of the text.
pub open spec fn matching_lines(query: Seq<char>, text: Seq<char>) -> Seq<Seq<char>> {
    lines_of(text).filter(holds(query))
}

/// The lines of `text` that hold `query` when letter case is folded away, in
/// the order of the text and as the text spells them.
pub open spec fn matching_lines_folded(query: Seq<char>, text: Seq<char>) -> Seq<Seq<char>> {
    lines_of(text).filter(holds_folded(query))
}

/// `picked` is what one pass over `full`, front to back, keeps with `test`:
/// `at` lists the places kept, in rising order, and they are the places whose
/// element passes `test`, all of them and no others.
pub open spec fn is_selection<T>(
    full: Seq<T>,
    test: spec_fn(T) -> bool,
    picked: Seq<T>,
    at: Seq<int>,
) -> bool {
    &&& at.len() == picked.len()
    &&& forall|i: int|
        0 <= i < at.len() ==> 0 <= #[trigger] at[i] < full.len() && full[at[i]] == picked[i]
            && test(picked[i])
    &&& forall|i: int, j: int| 0 <= i < j < at.len() ==> #[trigger] at[i] < #[trigger] at[j]
    &&& forall|j: int| 0 <= j < full.len() && test(full[j]) ==> at.contains(j)
}

/// A filter is a selection: it takes its elements from the sequence in the
/// order of the sequence, and takes every element that passes its test.
proof fn lemma_filter_is_selection<T>(s: Seq<T>, test: spec_fn(T) -> bool) -> (at: Seq<int>)
    ensures
        is_selection(s, test, s.filter(test), at),
    decreases s.len(),
{
    if s.len() == 0 {
        s.lemma_filter_len(test);
        Seq::empty()
    } else {
        let front = s.drop_last();
        let last = s.last();
        assert(s =~= front.push(last));
        let before = lemma_filter_is_selection(front, test);
        front.lemma_filter_push(last, test);
        let at = if test(last) {
            before.push(s.len() - 1)
        } else {
            before
        };
        assert forall|j: int| 0 <= j < s.len() && test(s[j]) implies at.contains(j) by {
            if j < s.len() - 1 {
                assert(before.contains(j));
                let i = choose|i: int| 0 <= i < before.len() && before[i] == j;
                assert(at[i] == j);
            } else {
                assert(at[at.len() - 1] == j);
            }
        }
        at
    }
}

/// A filter keeps nothing but elements of the sequence that pass its test.
proof fn lemma_filter_picks<T>(s: Seq<T>, test: spec_fn(T) -> bool)
    ensures
        forall|i: int|
            0 <= i < s.filter(test).len() ==> test(#[trigger] s.filter(test)[i]) && s.contains(
                s.filter(test)[i],
            ),
{
    let kept = s.filter(test);
    assert forall|i: int| 0 <= i < kept.len() implies test(#[trigger] kept[i]) && s.contains(
        kept[i],
    ) by {
        s.lemma_filter_pred(test, i);
        s.lemma_filter_contains_rev(test, kept[i]);
    }
}

/// A filter whose test every element passes changes nothing.
proof fn lemma_filter_keeps_all<T>(s: Seq<T>, test: spec_fn(T) -> bool)
    requires
        forall|j: int| 0 <= j < s.len() ==> test(s[j]),
    ensures
        s.filter(test) == s,
    decreases s.len(),
{
    if s.len() == 0 {
        s.lemma_filter_len(test);
    } else {
        let front = s.drop_last();
        assert(s =~= front.push(s.last()));
        lemma_filter_keeps_all(front, test);
        front.lemma_filter_push(s.last(), test);
    }
}

/// Filtering by a wide test first does not change what a narrower test keeps.
proof fn lemma_filter_through<T>(s: Seq<T>, narrow: spec_fn(T) -> bool, wide: spec_fn(T) -> bool)
    requires
        forall|j: int| 0 <= j < s.len() && narrow(s[j]) ==> wide(s[j]),
    ensures
        s.filter(narrow) == s.filter(wide).filter(narrow),
    decreases s.len(),
{
    if s.len() == 0 {
        s.lemma_filter_len(narrow);
        s.lemma_filter_len(wide);
    } else {
        let front = s.drop_last();
        let last = s.last();
        assert(s =~= front.push(last));
        lemma_filter_through(front, narrow, wide);
        front.lemma_filter_push(last, narrow);
        front.lemma_filter_push(last, wide);
        if wide(last) {
            front.filter(wide).lemma_filter_push(last, narrow);
        }
    }
}

/// Every matching line holds the query, is a line of the text, and so a run
/// of characters of the text.
pub proof fn lemma_matches_hold_query(query: Seq<char>, text: Seq<char>)
    ensures
        forall|i: int|
            0 <= i < matching_lines(query, text).len() ==> has_substring(
                #[trigger] matching_lines(query, text)[i],
                query,
            ) && lines_of(text).contains(matching_lines(query, text)[i]) && has_substring(
                text,
                matching_lines(query, text)[i],
            ),
{
    lemma_filter_picks(lines_of(text), holds(query));
    lemma_lines_are_runs(text);
}

/// Every line that matches with letter case folded away is a line of the
/// text and a run of its characters, spelled as the text spells it, and its
/// lowercase form holds the lowercase form of the query.
pub proof fn lemma_folded_matches_keep_spelling(query: Seq<char>, text: Seq<char>)
    ensures
        forall|i: int|
            0 <= i < matching_lines_folded(query, text).len() ==> lines_of(text).contains(
                #[trigger] matching_lines_folded(query, text)[i],
            ) && has_substring(text, matching_lines_folded(query, text)[i]) && has_substring(
                lowercase_of(matching_lines_folded(query, text)[i]),
                lowercase_of(query),
            ),
{
    lemma_filter_picks(lines_of(text), holds_folded(query));
    lemma_lines_are_runs(text);
}

/// The empty query keeps every line of the text.
pub proof fn lemma_empty_query_keeps_all(query: Seq<char>, text: Seq<char>)
    requires
        query.len() == 0,
    ensures
        matching_lines(query, text) == lines_of(text),
{
    let lines = lines_of(text);
    assert forall|j: int| 0 <= j < lines.len() implies holds(query)(lines[j]) by {
        assert(lines[j].subrange(0, 0) =~= query);
        assert(occurs_at(lines[j], query, 0));
    }
    lemma_filter_keeps_all(lines, holds(query));
}

/// The empty text has no lines, so nothing matches in it, whatever the query.
pub proof fn lemma_empty_text_matches_nothing(query: Seq<char>, text: Seq<char>)
    requires
        text.len() == 0,
    ensures
        matching_lines(query, text).len() == 0,
        matching_lines_folded(query, text).len() == 0,
{
    lines_of(text).lemma_filter_len(holds(query));
    lines_of(text).lemma_filter_len(holds_folded(query));
}

/// A query longer than every line of the text matches none of them.
pub proof fn lemma_long_query_matches_nothing(query: Seq<char>, text: Seq<char>)
    requires
        forall|j: int| 0 <= j < lines_of(text).len() ==> lines_of(text)[j].len() < query.len(),
    ensures
        matching_lines(query, text).len() == 0,
{
    lemma_filter_picks(lines_of(text), holds(query));
    if matching_lines(query, text).len() > 0 {
        // A first match would be a line of the text with room for the query.
        let line = matching_lines(query, text)[0];
        let at = choose|at: int| occurs_at(line, query, at);
        assert(at + query.len() <= line.len());
        assert(lines_of(text).contains(line));
    }
}

/// A query whose lowercase form is longer than the lowercase form of every
/// line matches no line when letter case is folded away.
pub proof fn lemma_long_folded_query_matches_nothing(query: Seq<char>, text: Seq<char>)
    requires
        forall|j: int|
            0 <= j < lines_of(text).len() ==> lowercase_of(lines_of(text)[j]).len()
                < lowercase_of(query).len(),
    ensures
        matching_lines_folded(query, text).len() == 0,
{
    lemma_filter_picks(lines_of(text), holds_folded(query));
    if matching_lines_folded(query, text).len() > 0 {
        // A first match would be a line whose lowercase form has room for
        // the lowercase form of the query.
        let line = matching_lines_folded(query, text)[0];
        let at = choose|at: int| occurs_at(lowercase_of(line), lowercase_of(query), at);
        assert(at + lowercase_of(query).len() <= lowercase_of(line).len());
        assert(lines_of(text).contains(line));
    }
}

/// Where folding letter case away keeps `query` inside every line of `text`
/// that holds it, the lines that match as they stand are the lines that match
/// folded, narrowed to those that hold `query`: each of them is among the
/// folded matches, and they keep their order.
pub proof fn lemma_folded_matches_cover_plain(query: Seq<char>, text: Seq<char>)
    requires
        forall|j: int|
            0 <= j < lines_of(text).len() && has_substring(lines_of(text)[j], query)
                ==> has_substring(lowercase_of(lines_of(text)[j]), lowercase_of(query)),
    ensures
        matching_lines(query, text) == matching_lines_folded(query, text).filter(holds(query)),
        forall|i: int|
            0 <= i < matching_lines(query, text).len() ==> matching_lines_folded(
                query,
                text,
            ).contains(#[trigger] matching_lines(query, text)[i]),
{
    let lines = lines_of(text);
    lemma_filter_through(lines, holds(query), holds_folded(query));
    let plain = matching_lines(query, text);
    assert forall|i: int| 0 <= i < plain.len() implies matching_lines_folded(
        query,
        text,
    ).contains(#[trigger] plain[i]) by {
        matching_lines_folded(query, text).lemma_filter_contains_rev(holds(query), plain[i]);
    }
}

/// Both searches go through the lines of the text once, front to back: what
/// they return are lines taken in the order of the text, and no line that
/// passes the test is left out.
pub proof fn lemma_matches_keep_text_order(query: Seq<char>, text: Seq<char>)
    ensures
        exists|at: Seq<int>|
            is_selection(lines_of(text), holds(query), matching_lines(query, text), at),
        exists|at: Seq<int>|
            is_selection(
                lines_of(text),
                holds_folded(query),
                matching_lines_folded(query, text),
                at,
            ),
{
    let plain = lemma_filter_is_selection(lines_of(text), holds(query));
    assert(is_selection(lines_of(text), holds(query), matching_lines(query, text), plain));
    let folded = lemma_filter_is_selection(lines_of(text), holds_folded(query));
    assert(is_selection(
        lines_of(text),
        holds_folded(query),
        matching_lines_folded(query, text),
        folded,
    ));
}

/// What `search` returns is fixed by the query and the text: two runs on the
/// same inputs give the same lines in the same order.
pub proof fn lemma_search_repeats(
    query: Seq<char>,
    text: Seq<char>,
    first: Seq<Seq<char>>,
    second: Seq<Seq<char>>,
)
    requires
        first == matching_lines(query, text),
        second == matching_lines(query, text),
    ensures
        first == second,
{
}

/// What `search_case_insensitive` returns is fixed by the query and the text:
/// two runs on the same inputs give the same lines in the same order.
pub proof fn lemma_search_case_insensitive_repeats(
    query: Seq<char>,
    text: Seq<char>,
    first: Seq<Seq<char>>,
    second: Seq<Seq<char>>,
)
    requires
        first == matching_lines_folded(query, text),
        second == matching_lines_folded(query, text),
    ensures
        first == second,
{
}

/// Every line of `contents` that holds `query`, in the order of `contents`.
/// The lines are slices of `contents`; nothing is copied. The empty query
/// stands in every line, so it returns them all.
pub fn search<'a>(query: &str, contents: &'a str) -> (results: Vec<&'a str>)
    ensures
        results.deep_view() == matching_lines(query@, contents@),
        forall|i: int|
            0 <= i < results.len() ==> has_substring(#[trigger] results[i]@, query@)
                && lines_of(contents@).contains(results[i]@) && has_substring(
                contents@,
                results[i]@,
            ),
        query@.len() == 0 ==> results.deep_view() == lines_of(contents@),
        contents@.len() == 0 ==> results.len() == 0,
        (forall|j: int|
            0 <= j < lines_of(contents@).len() ==> lines_of(contents@)[j].len() < query@.len())
            ==> results.len() == 0,
{
    proof {
        lemma_matches_hold_query(query@, contents@);
        if query@.len() == 0 {
            lemma_empty_query_keeps_all(query@, contents@);
        }
        if contents@.len() == 0 {
            lemma_empty_text_matches_nothing(query@, contents@);
        }
        if forall|j: int|
            0 <= j < lines_of(contents@).len() ==> lines_of(contents@)[j].len() < query@.len() {
            lemma_long_query_matches_nothing(query@, contents@);
        }
    }
    let lines = split_lines(contents);
    let mut results: Vec<&'a str> = Vec::new();
    let mut i: usize = 0;
    proof {
        let none = lines.deep_view().take(0);
        none.lemma_filter_len(holds(query@));
    }
    while i < lines.len()
        invariant
            i <= lines.len(),
            results.deep_view() == lines.deep_view().take(i as int).filter(holds(query@)),
        decreases lines.len() - i,
    {
        let ghost seen = lines.deep_view().take(i as int);
        let line = lines[i];
        let found = contains(line, query);
        if found {
            results.push(line);
        }
        i += 1;
        proof {
            assert(lines.deep_view().take(i as int) =~= seen.push(line@));
            seen.lemma_filter_push(line@, holds(query@));
        }
    }
    assert(lines.deep_view().take(lines.len() as int) =~= lines.deep_view());
    assert forall|i: int| 0 <= i < results.len() implies has_substring(
        #[trigger] results[i]@,
        query@,
    ) && lines_of(contents@).contains(results[i]@) && has_substring(contents@, results[i]@) by {
        assert(results[i]@ == results.deep_view()[i]);
    }
    results
}

/// Every line of `contents` whose lowercase form holds the lowercase form of
/// `query`, in the order of `contents`. Folding only serves the comparison:
/// the lines are slices of `contents`, spelled as `contents` spells them.
pub fn search_case_insensitive<'a>(query: &str, contents: &'a str) -> (results: Vec<&'a str>)
    ensures
        results.deep_view() == matching_lines_folded(query@, contents@),
        forall|i: int|
            0 <= i < results.len() ==> lines_of(contents@).contains(#[trigger] results[i]@)
                && has_substring(contents@, results[i]@) && has_substring(
                lowercase_of(results[i]@),
                lowercase_of(query@),
            ),
        contents@.len() == 0 ==> results.len() == 0,
        (forall|j: int|
            0 <= j < lines_of(contents@).len() ==> lowercase_of(lines_of(contents@)[j]).len()
                < lowercase_of(query@).len()) ==> results.len() == 0,
{
    proof {
        lemma_folded_matches_keep_spelling(query@, contents@);
        if contents@.len() == 0 {
            lemma_empty_text_matches_nothing(query@, contents@);
        }
        if forall|j: int|
            0 <= j < lines_of(contents@).len() ==> lowercase_of(lines_of(contents@)[j]).len()
                < lowercase_of(query@).len() {
            lemma_long_folded_query_matches_nothing(query@, contents@);
        }
    }
    let needle = query.to_lowercase();
    let lines = split_lines(contents);
    let mut results: Vec<&'a str> = Vec::new();
    let mut i: usize = 0;
    proof {
        let none = lines.deep_view().take(0);
        none.lemma_filter_len(holds_folded(query@));
    }
    while i < lines.len()
        invariant
            i <= lines.len(),
            needle@ == lowercase_of(query@),
            results.deep_view() == lines.deep_view().take(i as int).filter(
                holds_folded(query@),
            ),
        decreases lines.len() - i,
    {
        let ghost seen = lines.deep_view().take(i as int);
        let line = lines[i];
        let folded = line.to_lowercase();
        let found = contains(folded.as_str(), needle.as_str());
        if found {
            results.push(line);
        }
        i += 1;
        proof {
            assert(lines.deep_view().take(i as int) =~= seen.push(line@));
            seen.lemma_filter_push(line@, holds_folded(query@));
        }
    }
    assert(lines.deep_view().take(lines.len() as int) =~= lines.deep_view());
    assert forall|i: int| 0 <= i < results.len() implies lines_of(contents@).contains(
        #[trigger] results[i]@,
    ) && has_substring(contents@, results[i]@) && has_substring(
        lowercase_of(results[i]@),
        lowercase_of(query@),
    ) by {
        assert(results[i]@ == results.deep_view()[i]);
    }
    results
}

} // verus!
