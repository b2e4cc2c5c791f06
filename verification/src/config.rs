//! What one run is asked to do, and the run itself once the text is at hand.

use crate::matcher::{matching_lines, matching_lines_folded, search, search_case_insensitive};
use crate::substring::same_text;
use vstd::prelude::*;

verus! {

/// The settings of one run.
pub struct Config {
    query: String,
    file_path: String,
    ignore_case: bool,
}

/// A `Config` as plain values.
pub struct ConfigView {
    pub query: Seq<char>,
    pub file_path: Seq<char>,
    pub ignore_case: bool,
}

impl View for Config {
    type V = ConfigView;

    closed spec fn view(&self) -> ConfigView {
        ConfigView { query: self.query@, file_path: self.file_path@, ignore_case: self.ignore_case }
    }
}

/// The two spellings of the flag that asks for a search without regard to
/// letter case.
pub open spec fn is_ignore_case_flag(arg: Seq<char>) -> bool {
    arg == "-i"@ || arg == "--ignore-case"@
}

/// Some argument, the program's name and the two positional ones included,
/// is the flag.
pub open spec fn has_ignore_case_flag(args: Seq<String>) -> bool {
    exists|k: int| 0 <= k < args.len() && is_ignore_case_flag(#[trigger] args[k]@)
}

/// Whether letter case is to be ignored. Where the environment has a setting
/// it decides alone: only the value `1` switches folding on, and the flag is
/// not looked at. Without a setting the flag decides.
pub open spec fn wants_ignore_case(args: Seq<String>, setting: Option<&str>) -> bool {
    match setting {
        Some(value) => value@ == "1"@,
        None => has_ignore_case_flag(args),
    }
}

impl Config {
    /// Works out the settings from the command line, `args[0]` being the
    /// program's name, and from the value of the environment's setting for
    /// letter case, if it has one. Fails when the query or the file path is
    /// missing.
    pub fn build(args: &[String], setting: Option<&str>) -> (built: Result<Config, &'static str>)
        ensures
            args@.len() < 3 <==> built is Err,
            built matches Err(message) ==> message@ == "Not enough arguments"@,
            built matches Ok(config) ==> config@ == (ConfigView {
                query: args@[1]@,
                file_path: args@[2]@,
                ignore_case: wants_ignore_case(args@, setting),
            }),
    {
        if args.len() < 3 {
            return Err("Not enough arguments");
        }
        let ignore_case = match setting {
            Some(value) => same_text(value, "1"),
            None => {
                let mut flag = false;
                let mut i: usize = 0;
                while i < args.len()
                    invariant
                        i <= args@.len(),
                        flag == exists|k: int|
                            0 <= k < i && is_ignore_case_flag(#[trigger] args@[k]@),
                    decreases args@.len() - i,
                {
                    let arg = args[i].as_str();
                    if same_text(arg, "-i") || same_text(arg, "--ignore-case") {
                        flag = true;
                    }
                    i += 1;
                }
                flag
            },
        };
        let query = args[1].clone();
        let file_path = args[2].clone();
        Ok(Config { query, file_path, ignore_case })
    }

    /// The text to look for.
    pub fn query(&self) -> (query: &str)
        ensures
            query@ == self@.query,
    {
        self.query.as_str()
    }

    /// The path of the file to search.
    pub fn file_path(&self) -> (path: &str)
        ensures
            path@ == self@.file_path,
    {
        self.file_path.as_str()
    }

    /// Whether the search ignores letter case.
    pub fn ignore_case(&self) -> (ignore: bool)
        ensures
            ignore == self@.ignore_case,
    {
        self.ignore_case
    }
}

/// The lines of `contents` that one run prints: those that hold the query of
/// `config`, with letter case folded away where `config` asks for it.
pub fn run<'a>(config: &Config, contents: &'a str) -> (results: Vec<&'a str>)
    ensures
        results.deep_view() == (if config@.ignore_case {
            matching_lines_folded(config@.query, contents@)
        } else {
            matching_lines(config@.query, contents@)
        }),
{
    if config.ignore_case {
        search_case_insensitive(config.query.as_str(), contents)
    } else {
        search(config.query.as_str(), contents)
    }
}

} // verus!
