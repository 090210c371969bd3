//! The line filter: the lines of a text that hold a query, under one of two
//! comparison policies.

use vstd::prelude::*;
use crate::folding::lowercase;
use crate::lines::{
    after_first_line, first_line, lemma_lines_hold_no_break, lines_of, split_first_line,
};
use crate::selection::{
    is_subsequence, lemma_filter_is_subsequence, lemma_filter_keeps_all, lemma_filter_keeps_none,
    lemma_filter_passes, lemma_filter_twice,
};
use crate::substring::{contains, lemma_empty_occurs, occurs_at, occurs_in};

verus! {

/// The test that the case-sensitive search puts to a line.
pub open spec fn holds(query: Seq<char>) -> spec_fn(Seq<char>) -> bool {
    |line: Seq<char>| occurs_in(query, line)
}

/// The test that the case-insensitive search puts to a line: both the query
/// and the line are folded to lowercase before they are compared.
pub open spec fn holds_folded(query: Seq<char>) -> spec_fn(Seq<char>) -> bool {
    |line: Seq<char>| occurs_in(lowercase(query), lowercase(line))
}

/// The lines of `text` that hold `query`, in their order in `text`.
pub open spec fn matching_lines(query: Seq<char>, text: Seq<char>) -> Seq<Seq<char>> {
    lines_of(text).filter(holds(query))
}

/// The lines of `text` whose lowercase form holds the lowercase form of
/// `query`, in their order in `text` and as they stand in `text`.
pub open spec fn folded_matching_lines(query: Seq<char>, text: Seq<char>) -> Seq<Seq<char>> {
    lines_of(text).filter(holds_folded(query))
}

/// The filtered lines of a text are its first line, where it passes, and then
/// the filtered lines of the rest.
proof fn lemma_filter_first_line(text: Seq<char>, pred: spec_fn(Seq<char>) -> bool)
    requires
        text.len() > 0,
    ensures
        lines_of(text).filter(pred) == (if pred(first_line(text)) {
            seq![first_line(text)]
        } else {
            Seq::<Seq<char>>::empty()
        }) + lines_of(after_first_line(text)).filter(pred),
{
    let first = seq![first_line(text)];
    let others = lines_of(after_first_line(text));
    Seq::filter_distributes_over_add(first, others, pred);
    assert(first.filter(pred) =~= (if pred(first_line(text)) {
        first
    } else {
        Seq::<Seq<char>>::empty()
    })) by {
        reveal_with_fuel(Seq::filter, 2);
        assert(first.drop_last() =~= Seq::<Seq<char>>::empty());
    }
}

/// The lines of `contents` that hold `query`, in their order in `contents`.
///
/// A line holds the query where the query is a contiguous part of it,
/// character for character. The empty query is part of every line. The lines
/// returned borrow from `contents`.
pub fn search<'a>(query: &str, contents: &'a str) -> (found: Vec<&'a str>)
    ensures
        found.deep_view() == matching_lines(query@, contents@),
        is_subsequence(found.deep_view(), lines_of(contents@)),
        forall|i: int| 0 <= i < found@.len() ==> occurs_in(query@, #[trigger] found@[i]@),
        query@.len() == 0 ==> found.deep_view() == lines_of(contents@),
{
    let mut found: Vec<&'a str> = Vec::new();
    let mut rest: &'a str = contents;
    assert(found.deep_view() =~= Seq::<Seq<char>>::empty());
    while !rest.is_empty()
        invariant
            matching_lines(query@, contents@) == found.deep_view() + matching_lines(
                query@,
                rest@,
            ),
        decreases rest@.len(),
    {
        let ghost before = found.deep_view();
        proof {
            lemma_filter_first_line(rest@, holds(query@));
        }
        let (line, after) = split_first_line(rest);
        if contains(line, query) {
            found.push(line);
            assert(found.deep_view() =~= before + seq![line@]);
        }
        rest = after;
    }
    proof {
        let lines = lines_of(contents@);
        assert(matching_lines(query@, rest@) =~= Seq::<Seq<char>>::empty()) by {
            reveal(Seq::filter);
        }
        assert(found.deep_view() =~= matching_lines(query@, contents@));
        lemma_filter_is_subsequence(lines, holds(query@));
        lemma_filter_passes(lines, holds(query@));
        assert forall|i: int| 0 <= i < found@.len() implies occurs_in(
            query@,
            #[trigger] found@[i]@,
        ) by {
            assert(found@[i]@ == found.deep_view()[i]);
            assert(holds(query@)(lines.filter(holds(query@))[i]));
        }
        if query@.len() == 0 {
            assert forall|i: int| 0 <= i < lines.len() implies holds(query@)(
                #[trigger] lines[i],
            ) by {
                lemma_empty_occurs(query@, lines[i]);
            }
            lemma_filter_keeps_all(lines, holds(query@));
        }
    }
    found
}

/// The lines of `contents` that hold `query` when case is ignored, in their
/// order in `contents`.
///
/// The query and each line are folded to lowercase, and the folded line is
/// searched for the folded query. The lines returned are the lines as they
/// stand in `contents`, not their folded forms, and borrow from `contents`.
/// A query whose folded form is empty is part of every line.
pub fn search_case_insensitive<'a>(query: &str, contents: &'a str) -> (found: Vec<&'a str>)
    ensures
        found.deep_view() == folded_matching_lines(query@, contents@),
        is_subsequence(found.deep_view(), lines_of(contents@)),
        forall|i: int|
            0 <= i < found@.len() ==> occurs_in(
                lowercase(query@),
                lowercase(#[trigger] found@[i]@),
            ),
        lowercase(query@).len() == 0 ==> found.deep_view() == lines_of(contents@),
{
    let folded_query = query.to_lowercase();
    let mut found: Vec<&'a str> = Vec::new();
    let mut rest: &'a str = contents;
    assert(found.deep_view() =~= Seq::<Seq<char>>::empty());
    while !rest.is_empty()
        invariant
            folded_query@ == lowercase(query@),
            folded_matching_lines(query@, contents@) == found.deep_view()
                + folded_matching_lines(query@, rest@),
        decreases rest@.len(),
    {
        let ghost before = found.deep_view();
        proof {
            lemma_filter_first_line(rest@, holds_folded(query@));
        }
        let (line, after) = split_first_line(rest);
        let folded_line = line.to_lowercase();
        if contains(folded_line.as_str(), folded_query.as_str()) {
            found.push(line);
            assert(found.deep_view() =~= before + seq![line@]);
        }
        rest = after;
    }
    proof {
        let lines = lines_of(contents@);
        assert(folded_matching_lines(query@, rest@) =~= Seq::<Seq<char>>::empty()) by {
            reveal(Seq::filter);
        }
        assert(found.deep_view() =~= folded_matching_lines(query@, contents@));
        lemma_filter_is_subsequence(lines, holds_folded(query@));
        lemma_filter_passes(lines, holds_folded(query@));
        assert forall|i: int| 0 <= i < found@.len() implies occurs_in(
            lowercase(query@),
            lowercase(#[trigger] found@[i]@),
        ) by {
            assert(found@[i]@ == found.deep_view()[i]);
            assert(holds_folded(query@)(lines.filter(holds_folded(query@))[i]));
        }
        if lowercase(query@).len() == 0 {
            assert forall|i: int| 0 <= i < lines.len() implies holds_folded(query@)(
                #[trigger] lines[i],
            ) by {
                lemma_empty_occurs(lowercase(query@), lowercase(lines[i]));
            }
            lemma_filter_keeps_all(lines, holds_folded(query@));
        }
    }
    found
}

/// The case-sensitive search does not match across lines: a query that holds
/// a line feed is part of no line.
pub proof fn lemma_no_match_across_lines(query: Seq<char>, text: Seq<char>)
    requires
        query.contains('\n'),
    ensures
        matching_lines(query, text).len() == 0,
{
    let lines = lines_of(text);
    let k = choose|k: int| 0 <= k < query.len() && query[k] == '\n';
    lemma_lines_hold_no_break(text);
    assert forall|i: int| 0 <= i < lines.len() implies !holds(query)(#[trigger] lines[i]) by {
        if occurs_in(query, lines[i]) {
            let at = choose|at: int| occurs_at(query, lines[i], at);
            assert(lines[i].subrange(at, at + query.len())[k] == query[k]);
            assert(lines_of(text)[i][at + k] == '\n');
        }
    }
    lemma_filter_keeps_none(lines, holds(query));
}

/// Folding keeps `query` in the lines of `text`: each line that holds the
/// query still holds it after the line and the query are folded to lowercase.
pub open spec fn folding_keeps(query: Seq<char>, text: Seq<char>) -> bool {
    forall|i: int|
        0 <= i < lines_of(text).len() && occurs_in(query, #[trigger] lines_of(text)[i])
            ==> occurs_in(lowercase(query), lowercase(lines_of(text)[i]))
}

/// Where folding keeps the query in the lines of the text, the
/// case-insensitive search reports every line that the case-sensitive search
/// reports: the case-sensitive result is a subsequence of the
/// case-insensitive one, namely those of its lines that hold the query as it
/// stands.
///
/// Folding does not keep every query in every line. The lowercase form of a
/// capital sigma depends on whether it ends a word, so a line that ends in
/// one holds the capital sigma, while its folded form does not hold the folded
/// form of a capital sigma that stands alone.
pub proof fn lemma_insensitive_covers_exact(query: Seq<char>, text: Seq<char>)
    requires
        folding_keeps(query, text),
    ensures
        matching_lines(query, text) == folded_matching_lines(query, text).filter(holds(query)),
        is_subsequence(matching_lines(query, text), folded_matching_lines(query, text)),
{
    lemma_filter_twice(lines_of(text), holds_folded(query), holds(query));
    lemma_filter_is_subsequence(folded_matching_lines(query, text), holds(query));
}

} // verus!
