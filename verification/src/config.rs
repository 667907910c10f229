//! What one run searches for, and what it shows for a line of input.

use vstd::prelude::*;
use crate::fold::{compared, fold};
use crate::highlight::{highlight_matches, highlighted};
use crate::text::{contains, occurs_in};

verus! {

/// The settings of one run.
pub struct Config {
    /// The text to look for.
    pub query: String,
    /// The file to search; without one the standard input is searched.
    pub file_path: Option<String>,
    /// Whether the comparison ignores case.
    pub ignore_case: bool,
}

/// What is shown for `line` in a search for `query`: the line with the
/// occurrences of the query highlighted if it contains the query, else
/// nothing. Matches are located in the compared forms and shown in `line`.
pub open spec fn shown_line(query: Seq<char>, ignore_case: bool, line: Seq<char>) -> Option<
    Seq<char>,
> {
    let line_to_check = compared(line, ignore_case);
    let query_to_check = compared(query, ignore_case);
    if occurs_in(query_to_check, line_to_check) {
        Some(highlighted(line, line_to_check, query_to_check))
    } else {
        None
    }
}

impl Config {
    /// Reads the settings from the arguments of the command line, `args[0]`
    /// being the name of the program: the query is required, the file path is
    /// optional, and further arguments are ignored. `ignore_case` is taken as
    /// given.
    pub fn build(args: Vec<String>, ignore_case: bool) -> (built: Result<Config, &'static str>)
        ensures
            match built {
                Ok(config) => {
                    &&& args@.len() >= 2
                    &&& config.query@ == args@[1]@
                    &&& config.ignore_case == ignore_case
                    &&& match config.file_path {
                        Some(path) => args@.len() >= 3 && path@ == args@[2]@,
                        None => args@.len() == 2,
                    }
                },
                Err(message) => args@.len() < 2 && message@ == "Didn't get a query string"@,
            },
    {
        if args.len() < 2 {
            return Err("Didn't get a query string");
        }
        let query = args[1].clone();
        let file_path = if args.len() >= 3 {
            Some(args[2].clone())
        } else {
            None
        };
        Ok(Config { query, file_path, ignore_case })
    }

    /// Decides what to show for one line of input: `Some` rendering of the
    /// line with its matches highlighted, or `None` if the line does not
    /// contain the query.
    pub fn render_line(&self, line: &str) -> (shown: Option<String>)
        ensures
            match shown {
                Some(text) => shown_line(self.query@, self.ignore_case, line@) == Some(text@),
                None => shown_line(self.query@, self.ignore_case, line@) is None,
            },
    {
        if self.ignore_case {
            let line_to_check = fold(line);
            let query_to_check = fold(self.query.as_str());
            if contains(line_to_check.as_str(), query_to_check.as_str()) {
                Some(highlight_matches(line, line_to_check.as_str(), query_to_check.as_str()))
            } else {
                None
            }
        } else {
            if contains(line, self.query.as_str()) {
                Some(highlight_matches(line, line, self.query.as_str()))
            } else {
                None
            }
        }
    }
}

} // verus!
