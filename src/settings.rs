//! The editor's persistent settings and their defaults. Reading and
//! writing the settings file belongs to the application shell.

use std::path::PathBuf;
use vstd::prelude::*;

verus! {

broadcast use vstd::string::group_string_axioms;

#[verifier::external_type_specification]
#[verifier::external_body]
pub struct ExPathBuf(PathBuf);

/// Default font size for the editor, in points.
pub const DEFAULT_FONT_SIZE: u32 = 14;

/// Application settings: theme, font, and what was open last time.
pub struct AppSettings {
    /// Theme setting ("light" or "dark").
    pub theme: String,
    /// Font setting in Pango format (e.g., "Monospace 14").
    pub font: String,
    /// Last opened directory path.
    pub last_opened_directory: Option<PathBuf>,
    /// List of last opened files.
    pub last_opened_files: Option<Vec<PathBuf>>,
}

impl Default for AppSettings {
    /// The dark theme, a monospace font at the default size, and no history.
    fn default() -> (r: Self)
        ensures
            r.theme@ == "dark"@,
            r.font@ == "Monospace 14"@,
            r.last_opened_directory is None,
            r.last_opened_files is None,
    {
        AppSettings {
            theme: String::from_str("dark"),
            font: String::from_str("Monospace 14"),
            last_opened_directory: None,
            last_opened_files: None,
        }
    }
}

} // verus!
