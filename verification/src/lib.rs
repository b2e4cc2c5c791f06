//! Line-oriented text search: split a text into lines and keep the lines that
//! hold a query, with or without regard to letter case.
//!
//! [`search`] and [`search_case_insensitive`] are the two modes of the
//! matcher; [`Config`] and [`run`] pick between them for one run of the
//! command-line tool. Texts are modelled as sequences of characters: the
//! contracts speak of [`lines::lines_of`], the lines of a text, and of
//! [`substring::has_substring`], containment of one sequence in another.

pub mod casefold;
pub mod config;
pub mod lines;
pub mod matcher;
pub mod substring;
pub mod utf8;

pub use config::{run, Config};
pub use matcher::{search, search_case_insensitive};
