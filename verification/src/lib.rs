//! Verified core of a tool that turns a git repository into one text digest.
//!
//! A digest is a summary, a drawing of the directory tree and the contents of the files that the
//! command line asks for. The parts:
//!
//! - [`args`] reads the command line.
//! - [`git`] makes the command that fetches the repository, [`tempdir`] names its place.
//! - [`filter`] decides which files and directories are taken, [`walk`] collects the files.
//! - [`sort`] sorts them, [`tree`] builds and draws their tree, [`digest`] writes the digest.
//! - [`progress`] words what the user is told meanwhile.
//! - [`path`] and [`text`] hold what the others need of paths and strings.

pub mod args;
pub mod digest;
pub mod filter;
pub mod git;
pub mod path;
pub mod progress;
pub mod sort;
pub mod tempdir;
pub mod text;
pub mod tree;
pub mod walk;
