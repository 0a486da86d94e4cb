use crate::screen::ScreenHandle;
use vstd::prelude::*;

verus! {

/// A message that controls a [`Router`](crate::Router).
///
/// Widgets produce these to request navigation changes.
///
/// - `I` is the identifier of a screen.
/// - `P` is what a message addressed to one screen carries.
#[derive(Debug, Clone)]
pub enum Message<I, P> {
    /// Navigate to the screen with the given id.
    GoTo(I),
    /// Return to the previous screen.
    Back,
    /// Replace the current screen with the screen of the given id, without adding to history.
    Replace(I),
    /// Return to the root screen and drop all other history.
    Reset,
    /// A message addressed to a specific screen.
    ///
    /// The router generates these internally from screen views, tasks, and
    /// subscriptions. Use [`Router::id_of`](crate::Router::id_of) to get the
    /// screen's id from a [`ScreenHandle`].
    Screen(ScreenHandle, P),
}

} // verus!
