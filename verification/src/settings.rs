//! Behaviour switches supplied by the caller of the surrounding tooling.

use vstd::prelude::*;

verus! {

/// Choices that affect how a virtualenv is created and where it lives.
/// The lock engine itself does not read these; they travel with the caller.
pub struct Settings {
    pub venv_from_stdlib: bool,
    pub venv_outside_project: bool,
}

impl Default for Settings {
    fn default() -> (s: Settings)
        ensures
            s.venv_from_stdlib,
            !s.venv_outside_project,
    {
        Settings { venv_from_stdlib: true, venv_outside_project: false }
    }
}

} // verus!
