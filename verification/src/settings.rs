//! User preferences: the editor to open skeletons with and the placeholder
//! token substituted when a project is instantiated. Loading the preference
//! file from disk is the caller's concern; this module holds the values and
//! the rule that an empty field counts as unset.

use vstd::prelude::*;
use vstd::string::StringExecFns;

verus! {

pub struct Settings {
    pub editor: Option<String>,
    pub placeholder: Option<String>,
}

/// A loaded field with an empty string counts as unset.
pub open spec fn normalized_field(o: Option<String>) -> Option<String> {
    match o {
        Some(s) => if s@.len() == 0 {
            None
        } else {
            Some(s)
        },
        None => None,
    }
}

impl Settings {
    /// Settings with nothing configured.
    pub fn new() -> (r: Self)
        ensures
            r.editor is None,
            r.placeholder is None,
    {
        Settings { editor: None, placeholder: None }
    }

    /// The settings written to a fresh preference file: no editor choice and
    /// the stock placeholder token.
    pub fn default() -> (r: Self)
        ensures
            r.editor matches Some(e) && e@ == ""@,
            r.placeholder matches Some(p) && p@ == "PLACEHOLDER"@,
    {
        Settings {
            editor: Some(String::from_str("")),
            placeholder: Some(String::from_str("PLACEHOLDER")),
        }
    }

    /// Build settings from freshly loaded fields, dropping empty strings.
    pub fn from_parts(editor: Option<String>, placeholder: Option<String>) -> (r: Self)
        ensures
            r.editor == normalized_field(editor),
            r.placeholder == normalized_field(placeholder),
    {
        let editor = match editor {
            Some(e) => if e.as_str().is_empty() {
                None
            } else {
                Some(e)
            },
            None => None,
        };
        let placeholder = match placeholder {
            Some(p) => if p.as_str().is_empty() {
                None
            } else {
                Some(p)
            },
            None => None,
        };
        Settings { editor, placeholder }
    }
}

} // verus!
