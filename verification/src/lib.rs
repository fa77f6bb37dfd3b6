//! Per-language line counts over the repositories found beneath a directory.
//!
//! Each child of a target directory that is itself a directory is a
//! repository. A repository is walked; directories whose name is ignored are
//! left out with all they hold; of the files that remain, those whose name is
//! not ignored and whose extension belongs to a language have their lines
//! counted under that language. The counts of all repositories are added up
//! and written out as one line of JSON.
//!
//! The library decides and counts; it reads no file system. Its caller walks
//! the directories and reads the files, and tells the library what it found:
//!
//! - [`rules`] holds the rule set and its three questions: is this directory
//!   ignored, is this file ignored, which language has this extension;
//! - [`lines`] counts the lines of a text;
//! - [`counts`] holds line counts by language, and adds them up;
//! - [`scan`] goes through the walk of one repository, entry by entry;
//! - [`total`] goes through the children of the target directory;
//! - [`report`] writes the counts out;
//! - [`text`] holds the character-level helpers that the rules are built on.

pub mod counts;
pub mod lines;
pub mod report;
pub mod rules;
pub mod scan;
pub mod text;
pub mod total;
