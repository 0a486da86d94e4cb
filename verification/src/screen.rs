use crate::action::Action;
use vstd::prelude::*;
use vstd::std_specs::cmp::PartialOrdSpec;
use vstd::std_specs::cmp::PartialOrdSpecImpl;

verus! {

/// What a router asks of a live screen.
///
/// A router calls [`on_enter`](ScreenHooks::on_enter) when it navigates to the
/// screen, [`on_exit`](ScreenHooks::on_exit) when it navigates away, and
/// [`update`](ScreenHooks::update) with each message addressed to the screen.
///
/// - `I` is the identifier type for screens (used in navigation actions).
/// - `S` is shared state that all screens can read and write.
///
/// `Task` is what a hook hands back for the router to run for the screen; the
/// router tags it with the screen's [`ScreenHandle`] and runs nothing itself.
pub trait ScreenHooks<I, S>: Sized {
    /// The messages the screen handles.
    type Message;

    /// The work a hook asks the router to run for the screen.
    type Task;

    /// Whether `on_enter`, called on `self` with `shared`, may hand back
    /// `task`, leaving the screen as `after` and the shared state as
    /// `after_shared`. A screen that says nothing of its hook allows anything.
    open spec fn enters(&self, shared: S, task: Self::Task, after: Self, after_shared: S) -> bool {
        true
    }

    /// Whether `on_exit`, called on `self` with `shared`, may hand back
    /// `task`, leaving the screen as `after` and the shared state as
    /// `after_shared`. A screen that says nothing of its hook allows anything.
    open spec fn exits(&self, shared: S, task: Self::Task, after: Self, after_shared: S) -> bool {
        true
    }

    /// Whether `update`, called on `self` with `shared` and `message`, may
    /// answer `action`, leaving the screen as `after` and the shared state as
    /// `after_shared`. A screen that says nothing of its update allows
    /// anything.
    open spec fn answers(
        &self,
        shared: S,
        message: Self::Message,
        action: Action<I, Self::Task>,
        after: Self,
        after_shared: S,
    ) -> bool {
        true
    }

    /// Called when the router navigates to the screen.
    fn on_enter(&mut self, shared: &mut S) -> (task: Self::Task)
        ensures
            old(self).enters(*old(shared), task, *final(self), *final(shared)),
    ;

    /// Handles a message and returns what the router should do next.
    fn update(&mut self, shared: &mut S, message: Self::Message) -> (action: Action<I, Self::Task>)
        ensures
            old(self).answers(*old(shared), message, action, *final(self), *final(shared)),
    ;

    /// Called when the router navigates away from the screen.
    fn on_exit(&mut self, shared: &mut S) -> (task: Self::Task)
        ensures
            old(self).exits(*old(shared), task, *final(self), *final(shared)),
    ;
}

/// Builds a screen for an id it recognises.
///
/// A router asks its routes, in order, for a screen when it is asked to show
/// an id that has no live screen. A route returns `None` for an id it does not
/// recognise.
pub trait Route<I, T> {
    /// Whether the route, asked for a screen for `id`, may answer `screen`.
    /// A route that says nothing of itself allows any answer.
    open spec fn builds(&self, id: I, screen: Option<T>) -> bool {
        true
    }

    fn build(&self, id: &I) -> (screen: Option<T>)
        ensures
            self.builds(*id, screen),
    ;
}

/// Which hook of a screen handed back a task: `on_enter`, `on_exit`, or the
/// screen's `update`, through [`Action::Run`].
#[derive(Debug, Clone, Copy, PartialEq, Eq, Structural)]
pub enum Hook {
    Enter,
    Exit,
    Run,
}

/// The address of a screen inside a [`Router`](crate::Router).
///
/// A unique handle given to each screen when it is created. This allows for tasks and
/// subscriptions find the right screen even if the screen was replaced.
///
/// # Important
///
/// The same handle should never be reused for a different screen, even if the screen is replaced.
///
/// Use a screen identifier to navigate. A [`ScreenHandle`] is for addressing an existing
/// screen, not for requesting navigation.
#[derive(Debug, Clone, Copy, Hash, PartialEq, Eq, Structural, Ord)]
pub struct ScreenHandle(usize);

/// Handles order as the numbers they were made from.
impl PartialOrd for ScreenHandle {
    fn partial_cmp(&self, other: &Self) -> (order: Option<std::cmp::Ordering>) {
        self.0.partial_cmp(&other.0)
    }
}

impl PartialOrdSpecImpl for ScreenHandle {
    open spec fn obeys_partial_cmp_spec() -> bool {
        true
    }

    open spec fn partial_cmp_spec(&self, other: &Self) -> Option<std::cmp::Ordering> {
        if self.value() < other.value() {
            Some(std::cmp::Ordering::Less)
        } else if self.value() > other.value() {
            Some(std::cmp::Ordering::Greater)
        } else {
            Some(std::cmp::Ordering::Equal)
        }
    }
}

impl ScreenHandle {
    /// The number the handle was made from.
    pub closed spec fn value(self) -> nat {
        self.0 as nat
    }

    /// The handle made from `value`.
    pub closed spec fn at(value: nat) -> Self {
        ScreenHandle(value as usize)
    }

    /// A handle made from a number keeps that number.
    pub proof fn lemma_at(value: nat)
        requires
            value <= usize::MAX,
        ensures
            #[trigger] Self::at(value).value() == value,
    {
    }

    pub fn new(value: usize) -> (handle: Self)
        ensures
            handle == Self::at(value as nat),
            handle.value() == value,
    {
        ScreenHandle(value)
    }

    /// Handles compare as the numbers they were made from.
    pub proof fn lemma_ordered_by_value(a: Self, b: Self)
        ensures
            PartialOrdSpec::partial_cmp_spec(&a, &b) == if a.value() < b.value() {
                Some(std::cmp::Ordering::Less)
            } else if a.value() > b.value() {
                Some(std::cmp::Ordering::Greater)
            } else {
                Some(std::cmp::Ordering::Equal)
            },
    {
    }

    /// Two handles are the same handle exactly when they were made from the
    /// same number.
    pub proof fn lemma_same_value(a: Self, b: Self)
        ensures
            (a == b) <==> (a.value() == b.value()),
    {
    }
}

} // verus!
