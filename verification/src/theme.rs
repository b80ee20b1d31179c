//! Colour scheme selection.

use vstd::prelude::*;

verus! {

/// Whether the application renders with the light or the dark palette.
#[derive(Clone, Copy, Debug, PartialEq, Eq, Structural)]
pub enum ThemeMode {
    Light,
    Dark,
}

impl ThemeMode {
    /// True of the dark palette.
    pub fn is_dark(&self) -> (r: bool)
        ensures
            r == (*self is Dark),
    {
        matches!(self, ThemeMode::Dark)
    }

    /// The lower-case name of the mode: `light` or `dark`.
    pub fn name(&self) -> (r: &'static str)
        ensures
            *self is Light ==> r@ == "light"@,
            *self is Dark ==> r@ == "dark"@,
    {
        match self {
            ThemeMode::Light => "light",
            ThemeMode::Dark => "dark",
        }
    }
}

impl Default for ThemeMode {
    /// The dark palette is the default.
    fn default() -> (r: ThemeMode)
        ensures
            r is Dark,
    {
        ThemeMode::Dark
    }
}

} // verus!
