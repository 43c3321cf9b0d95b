//! Finds the package archives of a directory that a newer version of the same
//! package supersedes, and decides which files to keep, remove or leave alone.
pub mod filename;
pub mod mediate;
pub mod options;
pub mod outcome;
pub mod package;
pub mod resolve;
pub mod run;
pub mod version;
