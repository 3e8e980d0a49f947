//! Verified core of a terminal editor for staging, unstaging and discarding
//! Git diffs: display-width aware text splitting, frame buffers, the diff tree
//! cursor, scrolling decisions and Git path unescaping.

pub mod width;
pub mod strings;
pub mod canvas;
pub mod terminal;
pub mod widget_diff_tree;
pub mod widget_legend;
pub mod app;
pub mod git;
pub mod action;
