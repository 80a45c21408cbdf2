//! The two searches: the lines of a text that contain a query.

use vstd::prelude::*;
use crate::folding::{lowercase, to_lowercase};
use crate::lines::{lines, lines_of};
use crate::occurrence::{contains, occurs_at, occurs_in};

verus! {

/// The test that a line passes in an exact search: `query` occurs in it.
pub open spec fn holds(query: Seq<char>) -> spec_fn(Seq<char>) -> bool {
    |line: Seq<char>| occurs_in(query, line)
}

/// The test that a line passes in a search that ignores case: the lowercase
/// form of `query` occurs in the lowercase form of the line.
pub open spec fn holds_folded(query: Seq<char>) -> spec_fn(Seq<char>) -> bool {
    |line: Seq<char>| occurs_in(lowercase(query), lowercase(line))
}

/// The lines of `text` in which `query` occurs, in the order of the text.
/// A line that stands twice in the text and matches stands twice here.
pub open spec fn matching_lines(query: Seq<char>, text: Seq<char>) -> Seq<Seq<char>> {
    lines_of(text).filter(holds(query))
}

/// The lines of `text` in which `query` occurs when both are taken in
/// lowercase, in the order of the text. The lines themselves are as they
/// stand in the text.
pub open spec fn matching_lines_folded(query: Seq<char>, text: Seq<char>) -> Seq<Seq<char>> {
    lines_of(text).filter(holds_folded(query))
}

/// A test that every entry passes keeps every entry.
proof fn lemma_filter_keeps_all<T>(entries: Seq<T>, test: spec_fn(T) -> bool)
    requires
        forall|i: int| 0 <= i < entries.len() ==> test(#[trigger] entries[i]),
    ensures
        entries.filter(test) == entries,
    decreases entries.len(),
{
    reveal(Seq::filter);
    if entries.len() > 0 {
        lemma_filter_keeps_all(entries.drop_last(), test);
        assert(entries.drop_last().push(entries.last()) =~= entries);
    }
}

/// The empty text occurs in every text, so an empty query keeps every line.
pub proof fn lemma_empty_query_holds(query: Seq<char>, all: Seq<Seq<char>>)
    requires
        query.len() == 0,
    ensures
        all.filter(holds(query)) == all,
{
    assert forall|i: int| 0 <= i < all.len() implies holds(query)(#[trigger] all[i]) by {
        assert(all[i].subrange(0, 0) =~= query);
        assert(occurs_at(query, all[i], 0));
    }
    lemma_filter_keeps_all(all, holds(query));
}

/// Every line of `contents` that contains `query`, in the order of
/// `contents` and unchanged. An empty query is contained in every line; an
/// empty text has no lines.
pub fn search<'a>(query: &str, contents: &'a str) -> (found: Vec<&'a str>)
    ensures
        found.deep_view() == matching_lines(query@, contents@),
        query@.len() == 0 ==> found.deep_view() == lines_of(contents@),
        contents@.len() == 0 ==> found@.len() == 0,
{
    let all = lines(contents);
    let count: usize = all.len();
    let mut found: Vec<&'a str> = Vec::new();
    let mut i: usize = 0;
    assert(all.deep_view().take(0).filter(holds(query@)) =~= found.deep_view()) by {
        reveal(Seq::filter);
    }
    while i < count
        invariant
            i <= count == all@.len(),
            found.deep_view() == all.deep_view().take(i as int).filter(holds(query@)),
        decreases count - i,
    {
        let line: &'a str = all[i];
        let ghost seen = all.deep_view().take(i as int);
        let ghost before = found.deep_view();
        proof {
            assert(all.deep_view().take(i + 1) =~= seen.push(line@));
            seen.lemma_filter_push(line@, holds(query@));
        }
        if contains(line, query) {
            found.push(line);
            assert(found.deep_view() =~= before.push(line@));
        }
        i += 1;
    }
    proof {
        assert(all.deep_view().take(count as int) =~= all.deep_view());
        if query@.len() == 0 {
            lemma_empty_query_holds(query@, lines_of(contents@));
        }
        all.deep_view().lemma_filter_len(holds(query@));
    }
    found
}

/// Every line of `contents` whose lowercase form contains the lowercase form
/// of `query`, in the order of `contents` and as it stands there: only the
/// comparison ignores case. An empty query is contained in every line; an
/// empty text has no lines.
pub fn search_case_insensitive<'a>(query: &str, contents: &'a str) -> (found: Vec<&'a str>)
    ensures
        found.deep_view() == matching_lines_folded(query@, contents@),
        query@.len() == 0 ==> found.deep_view() == lines_of(contents@),
        contents@.len() == 0 ==> found@.len() == 0,
{
    let folded_query = to_lowercase(query);
    let all = lines(contents);
    let count: usize = all.len();
    let mut found: Vec<&'a str> = Vec::new();
    let mut i: usize = 0;
    assert(all.deep_view().take(0).filter(holds_folded(query@)) =~= found.deep_view()) by {
        reveal(Seq::filter);
    }
    assert(all.deep_view().take(0) =~= found.deep_view());
    while i < count
        invariant
            i <= count == all@.len(),
            folded_query@ == lowercase(query@),
            query@.len() == 0 ==> folded_query@.len() == 0,
            found.deep_view() == all.deep_view().take(i as int).filter(holds_folded(query@)),
            query@.len() == 0 ==> found.deep_view() == all.deep_view().take(i as int),
        decreases count - i,
    {
        let line: &'a str = all[i];
        let ghost seen = all.deep_view().take(i as int);
        let ghost before = found.deep_view();
        proof {
            assert(all.deep_view().take(i + 1) =~= seen.push(line@));
            seen.lemma_filter_push(line@, holds_folded(query@));
        }
        let folded_line = to_lowercase(line);
        if contains(folded_line.as_str(), folded_query.as_str()) {
            found.push(line);
            assert(found.deep_view() =~= before.push(line@));
        } else {
            assert(query@.len() == 0 ==> occurs_at(folded_query@, folded_line@, 0)) by {
                if query@.len() == 0 {
                    assert(folded_line@.subrange(0, 0) =~= folded_query@);
                }
            }
        }
        i += 1;
    }
    proof {
        assert(all.deep_view().take(count as int) =~= all.deep_view());
        all.deep_view().lemma_filter_len(holds_folded(query@));
    }
    found
}

} // verus!
