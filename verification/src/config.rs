//! What a run of the search needs to know, and the run itself.

use vstd::prelude::*;
use crate::lines::lines_of;
use crate::search::{matching_lines, matching_lines_folded, search, search_case_insensitive};

verus! {

/// The settings of one search.
pub struct Config {
    /// The text to look for.
    pub query: String,
    /// The name of the file whose contents are searched.
    pub filename: String,
    /// Whether upper and lower case differ in the comparison.
    pub case_sensitive: bool,
}

impl Config {
    /// Builds the settings from the arguments of the program and from the
    /// value of the environment variable `CASE_SENSITIVE`, if it is set.
    ///
    /// `args[0]` is the name of the program and is passed over; `args[1]` is
    /// the query and `args[2]` the file name; further arguments are ignored.
    /// The search is case sensitive unless the variable is set, whatever its
    /// value.
    pub fn new(args: &[String], case_sensitive_var: Option<&str>) -> (made: Result<
        Config,
        &'static str,
    >)
        ensures
            made is Ok <==> args@.len() >= 3,
            made matches Ok(config) ==> {
                &&& config.query@ == args@[1]@
                &&& config.filename@ == args@[2]@
                &&& config.case_sensitive == (case_sensitive_var is None)
            },
            made matches Err(reason) ==> reason@ == (if args@.len() < 2 {
                "Didn't get a query argument"@
            } else {
                "Didn't get a filename argument"@
            }),
    {
        if args.len() < 2 {
            return Err("Didn't get a query argument");
        }
        if args.len() < 3 {
            return Err("Didn't get a filename argument");
        }
        Ok(
            Config {
                query: args[1].clone(),
                filename: args[2].clone(),
                case_sensitive: case_sensitive_var.is_none(),
            },
        )
    }

    /// The lines that a search with these settings finds in `text`.
    pub open spec fn selects(&self, text: Seq<char>) -> Seq<Seq<char>> {
        if self.case_sensitive {
            matching_lines(self.query@, text)
        } else {
            matching_lines_folded(self.query@, text)
        }
    }
}

/// Searches `contents`, the text of the file that `config` names, in the
/// mode that `config` asks for, and returns the lines to print, in order.
/// An empty query finds every line; an empty text holds none.
pub fn run<'a>(config: &Config, contents: &'a str) -> (found: Vec<&'a str>)
    ensures
        found.deep_view() == config.selects(contents@),
        config.query@.len() == 0 ==> found.deep_view() == lines_of(contents@),
        contents@.len() == 0 ==> found@.len() == 0,
{
    if config.case_sensitive {
        search(config.query.as_str(), contents)
    } else {
        search_case_insensitive(config.query.as_str(), contents)
    }
}

} // verus!
