//! The incremental-build core of a monorepo tool.
//!
//! A project holds workspaces, each a package with its descriptor and the
//! fingerprints of its input files. The library
//!
//! - builds the dependency graph between the workspaces, in both directions
//!   (`dependency_graph`, over the maps of `dep_map`);
//! - puts workspaces in dependency order and reports cycles (`order`);
//! - finds what a change reaches (`affected`);
//! - checks that one version of each package satisfies every range declared
//!   for it (`version_check`, with `version` for the rules of semantic
//!   versions);
//! - decides from what was seen on disk whether a file, a workspace or the
//!   whole project is dirty (`file`, `workspace`, `project`);
//! - keeps the one-shot tasks through which the inputs of a workspace are
//!   asked for (`js_task`, `runner`).
//!
//! Reading files, walking directories and waiting are left to the caller: the library takes what was read and says what follows from it.

pub mod affected;
pub mod dep_map;
pub mod dependency_graph;
pub mod file;
pub mod file_cache;
pub mod js_task;
pub mod name_map;
pub mod order;
pub mod package_json;
pub mod project;
pub mod runner;
pub mod text;
pub mod version;
pub mod version_check;
pub mod workspace;
