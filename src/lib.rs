//! Editing intelligence for a text editor: dirty-line tracking, debounced
//! re-highlighting, syntax style planning, bracket matching, and search and
//! replace over a document held as plain text.

pub mod change_tracker;
pub mod text;
pub mod search;
pub mod brackets;
pub mod highlight;
pub mod debounce;
pub mod settings;
pub mod indentation;
pub mod documents;
pub mod pattern;
