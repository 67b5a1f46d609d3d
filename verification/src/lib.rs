//! diffr: region trees of a structural diff, the moves that shape how a
//! diffed file starts out, and the rules that decide them.
pub mod text;
pub mod types;
pub mod tree;
pub mod paths;
pub mod apply;
pub mod draft;
pub mod laws;
pub mod plugins;
pub mod hide_files;
pub mod deleted_bodies;
pub mod test_bodies;
pub mod category;
pub mod lines;
pub mod protocol;
pub mod mutate;
pub mod line_layout;
pub mod summarize;
pub mod context;
pub mod removed_runs;
pub mod group;
pub mod line_folds;
pub mod spans;
pub mod changed_blocks;
pub mod git;
pub mod docstrings;
pub mod places;
pub mod hunks;
pub mod select;
pub mod unified;
pub mod route;
