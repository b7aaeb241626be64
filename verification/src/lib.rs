//! Verified core of `re`, an interactive side-by-side diff viewer: text helpers,
//! the diff data model, git's records, post-diff integrity checks, the diff
//! pipeline's decisions, difftastic's JSON report read into files, display
//! files built from them, hunks, hunk/file navigation, key bindings, the file
//! tree, review marks, what the panes show, and the application state machine.

pub mod text;
pub mod types;
pub mod difft;
pub mod git;
pub mod integrity;
pub mod nav;
pub mod input;
pub mod tree;
pub mod app;
pub mod pipeline;
pub mod display;
pub mod review;
pub mod hunks;
pub mod processor;
pub mod report;
pub mod paths;
