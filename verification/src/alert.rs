//! Severity labels for messages shown to the user.

use vstd::prelude::*;

verus! {

/// Severity of a message surfaced by the surrounding application.
#[derive(Debug, Clone, Copy, PartialEq, Eq, Structural, Hash)]
pub enum AlertType {
    Information,
    Warning,
    Error,
}

impl AlertType {
    /// The label under which a message of this severity is presented.
    pub fn as_str(&self) -> (r: &'static str)
        ensures
            self is Information ==> r@ == "Information"@,
            self is Warning ==> r@ == "Warning"@,
            self is Error ==> r@ == "Error"@,
    {
        match self {
            AlertType::Information => "Information",
            AlertType::Warning => "Warning",
            AlertType::Error => "Error",
        }
    }
}

} // verus!
