//! Running a configured search over a text that has been loaded.

use vstd::prelude::*;
use crate::config::{Config, ConfigView};
use crate::filter::{folded_matching_lines, matching_lines, search, search_case_insensitive};
use crate::lines::lines_of;
use crate::selection::is_subsequence;

verus! {

/// The lines that a search with configuration `config` reports for `text`.
pub open spec fn reported_lines(config: ConfigView, text: Seq<char>) -> Seq<Seq<char>> {
    if config.case_sensitive {
        matching_lines(config.query, text)
    } else {
        folded_matching_lines(config.query, text)
    }
}

/// Searches `contents`, the text loaded from the source that `config` names,
/// for the query of `config`, under the comparison policy that `config`
/// selects. Returns the lines to report, in the order in which to report
/// them. No line at all is a result like any other.
pub fn run<'a>(config: Config, contents: &'a str) -> (found: Vec<&'a str>)
    ensures
        found.deep_view() == reported_lines(config@, contents@),
        is_subsequence(found.deep_view(), lines_of(contents@)),
{
    if config.case_sensitive {
        search(config.query.as_str(), contents)
    } else {
        search_case_insensitive(config.query.as_str(), contents)
    }
}

} // verus!
