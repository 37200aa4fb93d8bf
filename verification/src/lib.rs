//! A modal text editor for the terminal: the layout tree, the buffers, the
//! command line and everything that is drawn, without the terminal itself.
pub mod arrangement;
pub mod auto_complete;
pub mod buffers;
pub mod cmd_line;
pub mod commands;
pub mod display;
pub mod divide;
pub mod editor;
pub mod edits;
pub mod errors;
pub mod exec;
pub mod filing;
pub mod history;
pub mod keys;
pub mod layout;
pub mod line_cmds;
pub mod list_cmds;
pub mod motion;
pub mod nodes;
pub mod opening;
pub mod orderly;
pub mod outcomes;
pub mod overlays;
pub mod paint;
pub mod presses;
pub mod prompts;
pub mod reading;
pub mod ready;
pub mod records;
pub mod requests;
pub mod scene;
pub mod screen;
pub mod settled;
pub mod shares;
pub mod sketch;
pub mod sketch_line;
pub mod start;
pub mod steady;
pub mod step;
pub mod strings;
pub mod tame;
pub mod terminal;
pub mod text;
pub mod tree;
pub mod tree_growth;
pub mod tree_layout;
pub mod tree_pruning;
pub mod trial;
pub mod typing;
pub mod view_cmds;
pub mod views;
