//! Verified editing logic for a multi-cursor code editor.

mod bytes;
pub mod chars;
pub mod collation;
pub mod commands;
pub mod comment;
pub mod comment_blocks;
pub mod comment_laws;
pub mod comment_rows;
pub mod cursor;
pub mod cursor_edits;
pub mod cursor_laws;
pub mod deduplicate;
pub mod deleted_rows;
pub mod edit;
pub mod fold_laws;
pub mod folding;
pub mod indent;
pub mod indent_laws;
pub mod indent_rows;
pub mod insertions;
pub mod join;
pub mod join_laws;
pub mod join_rows;
pub mod lexical_laws;
pub mod line_endings;
pub mod line_laws;
pub mod line_operations;
pub mod lsp;
pub mod matching;
pub mod motion;
pub mod motion_laws;
pub mod multi_cursor;
pub mod occurrence_laws;
pub mod occurrences;
mod order;
pub mod pair_laws;
pub mod pairs;
pub mod rope;
pub mod rows;
pub mod scalars;
pub mod search;
pub mod search_laws;
pub mod snippet;
pub mod snippet_choice;
pub mod snippet_indentation;
pub mod snippet_laws;
pub mod snippet_mirrors;
pub mod snippet_session;
pub mod snippet_state;
pub mod snippet_transform;
pub mod snippet_variables;
pub mod state;
pub mod text;
pub mod text_laws;
pub mod transaction;
pub mod transform_laws;
pub mod value_laws;

pub use collation::{line_collator, system_line_collator};
pub use comment::{plan_toggle_block_comment_edits, plan_toggle_line_comment_edits};
pub use cursor::{EditorSelection, Position, Selection};
pub use deduplicate::plan_delete_duplicate_lines;
pub use edit::EditPlan;
pub use folding::FoldRange;
pub use indent::{InputMode, TabSize};
pub use join::plan_join_lines;
pub use line_operations::{
    plan_copy_lines, plan_delete_lines, plan_duplicate_selections, plan_insert_lines,
    plan_move_lines, plan_ordered_lines, plan_reverse_lines, plan_sort_lines, InsertLineDirection,
    LineDirection,
};
pub use lsp::Lsp;
pub use pairs::EditorLanguageConfiguration;
pub use state::InputState;
pub use text::{Document, Point};
