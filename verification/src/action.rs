use vstd::prelude::*;

verus! {

/// A request from a screen to the router that owns it.
///
/// A screen returns an `Action` from [`ScreenHooks::update`](crate::ScreenHooks::update)
/// instead of changing the history itself. This keeps a screen usable in any
/// router, whatever its navigation model.
///
/// `M` is the work that [`Action::Run`] asks the router to run (a task).
#[derive(Debug, Clone)]
pub enum Action<I, M> {
    /// Do nothing.
    Nothing,
    /// Run `M` for the screen.
    ///
    /// The router tags the output with the handle of the screen that
    /// returned it, so the result arrives back at that screen even if the
    /// user has navigated somewhere else in the meantime.
    Run(M),
    /// Go to the screen with the given id.
    GoTo(I),
    /// Go to the previous screen.
    Back,
    /// Go to the screen with the given id without growing the history.
    Replace(I),
    /// Go back to the root screen and forget every other screen.
    Reset,
}

impl<I, M> Default for Action<I, M> {
    /// The default action does nothing.
    fn default() -> (action: Self)
        ensures
            action is Nothing,
    {
        Action::Nothing
    }
}

impl<I, M> Action<I, M> {
    /// Turns an `Action<I, M>` into an `Action<I, N>`, mapping what
    /// [`Action::Run`] carries with `f` and keeping every navigation request.
    ///
    /// Use this to lift the action of an inner screen into the message type
    /// of an outer one.
    pub fn map<N>(self, f: impl FnOnce(M) -> N) -> (mapped: Action<I, N>)
        requires
            self matches Action::Run(m) ==> f.requires((m,)),
        ensures
            match self {
                Action::Nothing => mapped is Nothing,
                Action::Run(m) => mapped matches Action::Run(n) && f.ensures((m,), n),
                Action::GoTo(id) => mapped matches Action::GoTo(j) && j == id,
                Action::Back => mapped is Back,
                Action::Replace(id) => mapped matches Action::Replace(j) && j == id,
                Action::Reset => mapped is Reset,
            },
    {
        match self {
            Action::Nothing => Action::Nothing,
            Action::Run(m) => Action::Run(f(m)),
            Action::GoTo(id) => Action::GoTo(id),
            Action::Back => Action::Back,
            Action::Replace(id) => Action::Replace(id),
            Action::Reset => Action::Reset,
        }
    }

    /// Turns an `Action<I, M>` into an `Action<J, M>`, mapping the id of
    /// [`Action::GoTo`] and [`Action::Replace`] with `f`.
    ///
    /// Use this when an inner router uses a different id type to the router
    /// that owns it.
    pub fn map_id<J>(self, f: impl FnOnce(I) -> J) -> (mapped: Action<J, M>)
        requires
            self matches Action::GoTo(id) ==> f.requires((id,)),
            self matches Action::Replace(id) ==> f.requires((id,)),
        ensures
            match self {
                Action::Nothing => mapped is Nothing,
                Action::Run(m) => mapped matches Action::Run(n) && n == m,
                Action::GoTo(id) => mapped matches Action::GoTo(j) && f.ensures((id,), j),
                Action::Back => mapped is Back,
                Action::Replace(id) => mapped matches Action::Replace(j) && f.ensures((id,), j),
                Action::Reset => mapped is Reset,
            },
    {
        match self {
            Action::Nothing => Action::Nothing,
            Action::Run(m) => Action::Run(m),
            Action::GoTo(id) => Action::GoTo(f(id)),
            Action::Back => Action::Back,
            Action::Replace(id) => Action::Replace(f(id)),
            Action::Reset => Action::Reset,
        }
    }

    /// Whether the action does nothing.
    pub fn is_none(&self) -> (none: bool)
        ensures
            none == (self is Nothing),
    {
        match self {
            Action::Nothing => true,
            _ => false,
        }
    }
}

} // verus!
