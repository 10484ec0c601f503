//! Reflows the comments of C, C++, Rust, POSIX shell and GAS assembly sources
//! to a column limit, and leaves the code alone.

pub mod apart_laws;
pub mod assembly;
pub mod assembly_found;
pub mod assembly_laws;
pub mod assembly_runs;
pub mod assembly_scan;
pub mod blank_form;
pub mod blank_lines;
pub mod block_settling;
pub mod bytes;
pub mod classify;
pub mod closer_laws;
pub mod comment;
pub mod comment_laws;
pub mod comment_words;
pub mod config;
pub mod decoration_laws;
pub mod directive;
pub mod directive_laws;
pub mod drawing_laws;
pub mod final_form;
pub mod finding_laws;
pub mod fit_laws;
pub mod grouping_laws;
pub mod kdoc;
pub mod kdoc_laws;
pub mod language;
pub mod language_laws;
pub mod laws;
pub mod layout_laws;
pub mod linekind;
pub mod lines_before;
pub mod lower_prose;
pub mod manpage;
pub mod manpage_laws;
pub mod marker_laws;
pub mod merge;
pub mod merge_laws;
pub mod move_laws;
pub mod moves;
pub mod normalize;
pub mod ordinary_prose;
pub mod parse;
pub mod pieces;
pub mod placement;
pub mod plain_form;
pub mod plain_words;
pub mod plan_laws;
pub mod planner;
pub mod prose_form;
pub mod reflow;
pub mod region_laws;
pub mod regroup;
pub mod return_laws;
pub mod rewrite;
pub mod rows;
pub mod run_places;
pub mod second_pass;
pub mod settling;
pub mod shape_laws;
pub mod signature;
pub mod signature_laws;
pub mod source_laws;
pub mod spacing_laws;
pub mod style_laws;
pub mod syntax;
pub mod text;
pub mod text_form;
pub mod textline;
pub mod width;
pub mod width_laws;
pub mod words;
pub mod wrap;
pub mod wrap_laws;
pub mod wrap_parts;

pub use planner::plan;
