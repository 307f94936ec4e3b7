//! Worktree-aware diff watcher: the decisions, parsers and layouts behind the screen.

pub mod anchor_laws;
pub mod app;
pub mod bar_laws;
pub mod bars;
pub mod bytes;
pub mod config;
pub mod diff_pane;
pub mod diffview;
pub mod doc_laws;
pub mod docs;
pub mod fit_laws;
pub mod folding;
pub mod follow_laws;
pub mod git;
pub mod highlight;
pub mod hunk_laws;
pub mod icons;
pub mod keeping;
pub mod key_laws;
pub mod keys;
pub mod laws;
pub mod listing_laws;
pub mod look_laws;
pub mod mark_laws;
pub mod names;
pub mod opener;
pub mod pace;
pub mod palette_laws;
pub mod pane_laws;
pub mod parse;
pub mod path_laws;
pub mod path_set;
pub mod paths;
pub mod refresh;
pub mod row_laws;
pub mod screen;
pub mod screen_laws;
pub mod status_out;
pub mod style;
pub mod tables;
pub mod text;
pub mod text_laws;
pub mod tokens;
pub mod tree;
pub mod tree_laws;
pub mod tree_pane;
pub mod ui;
pub mod watcher;
pub mod width;
pub mod wrap;
