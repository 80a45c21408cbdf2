//! What holds of the searches on every query and every text.

use vstd::prelude::*;
use crate::lines::{first_line_feed, lemma_first_line_feed, lines_of, without_trailing_cr};
use crate::occurrence::{occurs_at, occurs_in};
use crate::folding::lowercase;
use crate::search::{
    holds, holds_folded, lemma_empty_query_holds, matching_lines, matching_lines_folded,
};

verus! {

/// `part` is made of the entries of `whole` at the indices `picks`, which
/// rise strictly: `part` keeps the order of `whole` and adds nothing to it.
pub open spec fn picked_from<T>(part: Seq<T>, whole: Seq<T>, picks: Seq<int>) -> bool {
    &&& picks.len() == part.len()
    &&& forall|i: int|
        0 <= i < picks.len() ==> 0 <= #[trigger] picks[i] < whole.len() && part[i]
            == whole[picks[i]]
    &&& forall|i: int, j: int| 0 <= i < j < picks.len() ==> picks[i] < picks[j]
}

/// Filtering picks, in rising order, exactly the indices of the entries
/// that pass the test.
proof fn lemma_filter_picks<T>(entries: Seq<T>, test: spec_fn(T) -> bool) -> (picks: Seq<int>)
    ensures
        picked_from(entries.filter(test), entries, picks),
        forall|k: int| 0 <= k < entries.len() ==> (picks.contains(k) <==> test(entries[k])),
    decreases entries.len(),
{
    reveal(Seq::filter);
    if entries.len() == 0 {
        Seq::empty()
    } else {
        let init = entries.drop_last();
        let last = entries.len() - 1;
        let earlier = lemma_filter_picks(init, test);
        let picks = if test(entries.last()) {
            earlier.push(last)
        } else {
            earlier
        };
        assert forall|k: int| 0 <= k < entries.len() implies (picks.contains(k) <==> test(
            entries[k],
        )) by {
            if k < last {
                assert(entries[k] == init[k]);
                if earlier.contains(k) {
                    let i = choose|i: int| 0 <= i < earlier.len() && earlier[i] == k;
                    assert(picks[i] == k);
                }
            } else if test(entries[k]) {
                assert(picks[picks.len() - 1] == k);
            }
        }
        picks
    }
}

/// Every line of a text stands in the text as it is: a contiguous run of
/// the text's characters.
pub proof fn lines_stand_in_text(text: Seq<char>, i: int)
    requires
        0 <= i < lines_of(text).len(),
    ensures
        occurs_in(lines_of(text)[i], text),
    decreases text.len(),
{
    let end = first_line_feed(text);
    lemma_first_line_feed(text);
    if end < text.len() {
        let first = without_trailing_cr(text.take(end));
        let rest = text.skip(end + 1);
        if i == 0 {
            assert(text.subrange(0, first.len() as int) =~= first);
            assert(occurs_at(first, text, 0));
        } else {
            let line = lines_of(rest)[i - 1];
            assert(lines_of(text)[i] == line);
            lines_stand_in_text(rest, i - 1);
            let at = choose|at: int| occurs_at(line, rest, at);
            let moved = at + end + 1;
            assert(text.subrange(moved, moved + line.len()) =~= rest.subrange(
                at,
                at + line.len(),
            ));
            assert(occurs_at(line, text, moved));
        }
    } else {
        assert(text.subrange(0, text.len() as int) =~= text);
        assert(occurs_at(text, text, 0));
    }
}

/// What the exact search finds are lines of the text that contain the
/// query, all of them, in the order in which they stand in the text. The
/// result gives, for each line found, its index among the lines of the text.
pub proof fn search_finds_lines_in_order(query: Seq<char>, text: Seq<char>) -> (picks: Seq<int>)
    ensures
        picked_from(matching_lines(query, text), lines_of(text), picks),
        forall|k: int|
            0 <= k < lines_of(text).len() ==> (picks.contains(k) <==> occurs_in(
                query,
                lines_of(text)[k],
            )),
        forall|i: int|
            0 <= i < matching_lines(query, text).len() ==> {
                &&& occurs_in(query, #[trigger] matching_lines(query, text)[i])
                &&& occurs_in(matching_lines(query, text)[i], text)
            },
        matching_lines(query, text).len() <= lines_of(text).len(),
{
    let all = lines_of(text);
    let found = matching_lines(query, text);
    let picks = lemma_filter_picks(all, holds(query));
    assert forall|i: int| 0 <= i < found.len() implies {
        &&& occurs_in(query, #[trigger] found[i])
        &&& occurs_in(found[i], text)
    } by {
        assert(picks.contains(picks[i]));
        lines_stand_in_text(text, picks[i]);
    }
    all.lemma_filter_len(holds(query));
    picks
}

/// What the search that ignores case finds are lines of the text whose
/// lowercase form contains the lowercase form of the query, all of them, in
/// the order in which they stand in the text and as they stand there. The
/// result gives, for each line found, its index among the lines of the text.
pub proof fn folded_search_finds_lines_in_order(query: Seq<char>, text: Seq<char>) -> (picks: Seq<
    int,
>)
    ensures
        picked_from(matching_lines_folded(query, text), lines_of(text), picks),
        forall|k: int|
            0 <= k < lines_of(text).len() ==> (picks.contains(k) <==> holds_folded(query)(
                lines_of(text)[k],
            )),
        forall|i: int|
            0 <= i < matching_lines_folded(query, text).len() ==> occurs_in(
                #[trigger] matching_lines_folded(query, text)[i],
                text,
            ),
        matching_lines_folded(query, text).len() <= lines_of(text).len(),
{
    let all = lines_of(text);
    let found = matching_lines_folded(query, text);
    let picks = lemma_filter_picks(all, holds_folded(query));
    assert forall|i: int| 0 <= i < found.len() implies occurs_in(#[trigger] found[i], text) by {
        lines_stand_in_text(text, picks[i]);
    }
    all.lemma_filter_len(holds_folded(query));
    picks
}

/// Two tests may be applied in either order.
proof fn lemma_filters_commute<T>(entries: Seq<T>, one: spec_fn(T) -> bool, other: spec_fn(T) -> bool)
    ensures
        entries.filter(one).filter(other) == entries.filter(other).filter(one),
    decreases entries.len(),
{
    reveal(Seq::filter);
    if entries.len() > 0 {
        let init = entries.drop_last();
        let last = entries.last();
        lemma_filters_commute(init, one, other);
        assert(init.push(last) =~= entries);
        init.lemma_filter_push(last, one);
        init.lemma_filter_push(last, other);
        init.filter(one).lemma_filter_push(last, other);
        init.filter(other).lemma_filter_push(last, one);
    }
}

/// A line that the exact search finds, and whose lowercase form contains
/// the lowercase form of the query, is found by the search that ignores
/// case too. More: the lines that the exact search finds and that pass the
/// folded comparison are, in order and number, the lines that the search
/// ignoring case finds and that contain the query as it is written.
pub proof fn exact_matches_survive_folding(query: Seq<char>, text: Seq<char>)
    ensures
        matching_lines(query, text).filter(holds_folded(query)) == matching_lines_folded(
            query,
            text,
        ).filter(holds(query)),
        forall|line: Seq<char>|
            #![trigger matching_lines(query, text).contains(line)]
            matching_lines(query, text).contains(line) && occurs_in(
                lowercase(query),
                lowercase(line),
            ) ==> matching_lines_folded(query, text).contains(line),
{
    let all = lines_of(text);
    lemma_filters_commute(all, holds(query), holds_folded(query));
    assert forall|line: Seq<char>|
        #![trigger matching_lines(query, text).contains(line)]
        matching_lines(query, text).contains(line) && occurs_in(
            lowercase(query),
            lowercase(line),
        ) implies matching_lines_folded(query, text).contains(line) by {
        all.lemma_filter_contains_rev(holds(query), line);
        let k = choose|k: int| 0 <= k < all.len() && all[k] == line;
        assert(holds_folded(query)(all[k]));
        all.lemma_filter_contains(holds_folded(query), k);
    }
}

/// A search keeps no state: what it finds is fixed by the query and the
/// text. Any two results of the exact search for one query in one text hold
/// the same lines in the same order.
pub proof fn search_is_repeatable(query: &str, contents: &str, first: Vec<&str>, second: Vec<&str>)
    requires
        first.deep_view() == matching_lines(query@, contents@),
        second.deep_view() == matching_lines(query@, contents@),
    ensures
        first@.len() == second@.len(),
        forall|i: int| 0 <= i < first@.len() ==> first@[i]@ == second@[i]@,
{
    assert(first.deep_view().len() == first@.len());
    assert(second.deep_view().len() == second@.len());
    assert forall|i: int| 0 <= i < first@.len() implies first@[i]@ == second@[i]@ by {
        assert(first.deep_view()[i] == first@[i]@);
        assert(second.deep_view()[i] == second@[i]@);
    }
}

/// Any two results of the search that ignores case, for one query in one
/// text, hold the same lines in the same order.
pub proof fn folded_search_is_repeatable(
    query: &str,
    contents: &str,
    first: Vec<&str>,
    second: Vec<&str>,
)
    requires
        first.deep_view() == matching_lines_folded(query@, contents@),
        second.deep_view() == matching_lines_folded(query@, contents@),
    ensures
        first@.len() == second@.len(),
        forall|i: int| 0 <= i < first@.len() ==> first@[i]@ == second@[i]@,
{
    assert(first.deep_view().len() == first@.len());
    assert(second.deep_view().len() == second@.len());
    assert forall|i: int| 0 <= i < first@.len() implies first@[i]@ == second@[i]@ by {
        assert(first.deep_view()[i] == first@[i]@);
        assert(second.deep_view()[i] == second@[i]@);
    }
}

/// The exact search for the empty query finds every line of the text.
pub proof fn empty_query_finds_every_line(text: Seq<char>)
    ensures
        matching_lines(Seq::empty(), text) == lines_of(text),
{
    lemma_empty_query_holds(Seq::empty(), lines_of(text));
}

/// The empty text has no lines, so neither search finds anything in it.
pub proof fn empty_text_yields_nothing(query: Seq<char>)
    ensures
        lines_of(Seq::empty()) == Seq::<Seq<char>>::empty(),
        matching_lines(query, Seq::empty()) == Seq::<Seq<char>>::empty(),
        matching_lines_folded(query, Seq::empty()) == Seq::<Seq<char>>::empty(),
{
    reveal(Seq::filter);
}

} // verus!
