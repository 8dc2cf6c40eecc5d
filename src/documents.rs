//! Whether an open document differs from what is saved.

use vstd::prelude::*;

verus! {

/// Whether a buffer holds unsaved changes: it differs from the file's text
/// on disk, or, when no file could be read, it is not empty.
pub fn is_buffer_modified(buffer_text: &str, on_disk: Option<&str>) -> (r: bool)
    ensures
        r == match on_disk {
            Some(d) => buffer_text@ != d@,
            None => buffer_text@.len() > 0,
        },
{
    match on_disk {
        Some(d) => buffer_text.to_owned() != d.to_owned(),
        None => !buffer_text.is_empty(),
    }
}

} // verus!
