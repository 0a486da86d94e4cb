use vstd::prelude::*;

verus! {

/// The way a [`History`](crate::History) handles navigation to a new screen.
#[derive(Debug, Clone, Copy, PartialEq, Eq, Structural, PartialOrd, Ord, Hash)]
pub enum Navigation {
    /// Navigating pushes the new screen onto the history.
    ///
    /// [`History::back`](crate::History::back) returns to the previous
    /// screen. Use this for drill-down interfaces and wizards.
    Stack,
    /// Navigating replaces the current screen.
    ///
    /// The history is always one screen deep and
    /// [`History::back`](crate::History::back) does nothing. Use this for
    /// navbars, tab bars, and sidebars.
    Switch,
}

impl Default for Navigation {
    /// The default navigation model is [`Navigation::Stack`].
    fn default() -> (navigation: Self)
        ensures
            navigation == Navigation::Stack,
    {
        Navigation::Stack
    }
}

} // verus!
