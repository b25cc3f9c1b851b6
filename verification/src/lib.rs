//! Finds Cargo output directories, measures them and decides what to do with them.
pub mod app;
pub mod app_laws;
pub mod args;
pub mod file_path;
pub mod filter;
pub mod headless;
pub mod order;
pub mod path;
pub mod poll;
pub mod quantity;
pub mod scan;
pub mod seqs;
pub mod session;
pub mod text;
pub mod trace;
pub mod ui;
pub mod util;
pub mod watch;
