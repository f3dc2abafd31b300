//! Building, packaging and auditing packages: the decisions behind `pm`.

/// Characters, numbers and words: the text every message is made of.
pub mod text;
/// File names as byte strings, read component by component.
pub mod path;
/// What went wrong, as plain text.
pub mod report;
/// What a build is allowed to reach.
pub mod policy;
/// The steps of a build file.
pub mod step;
/// Build files: what they say, and how a package is laid out.
pub mod bf;
/// The order packages are built in, and what becomes of each.
pub mod schedule;
/// Resolving a build file's dependency graph.
pub mod graph;
/// What is running, as a tree of lines.
pub mod progress;
/// What crosses a process boundary.
pub mod wire;
/// Asking a build to stop.
pub mod cancel;
/// What a build reads out of the environment.
pub mod context;
/// Fetching sources and checking what arrived.
pub mod download;
/// The jail build steps run in.
pub mod sandbox;
/// What a package needs at run time, and where that is known from.
pub mod perms;
/// How the tracing program ends, and where its report goes.
pub mod pm_trace;
