use crate::history::{effective_limit, History, DEFAULT_LIMIT};
use crate::navigation::Navigation;
use crate::router::{calls, exact_ids, first_built, hooks_ran, lemma_first_where, with_id, Router, RouterView};
use crate::screen::{Hook, Route, ScreenHandle, ScreenHooks};
use vstd::prelude::*;
use vstd::std_specs::cmp::PartialEqSpec;

verus! {

/// Builds a [`Router`].
///
/// There are two ways to register a screen.
///
/// Use [`screen`](Builder::screen) for screens that keep state across visits
/// (like tabs). Use [`route`](Builder::route) for screens built on demand
/// from an id (like a user profile with arguments).
///
/// - `I` is the identifier of a screen.
/// - `S` is shared state that all screens can read and write.
/// - `T` is a live screen.
#[verifier::reject_recursive_types(I)]
#[verifier::reject_recursive_types(T)]
pub struct Builder<I, S, T> {
    screens: Vec<(I, T)>,
    routes: Vec<Box<dyn Route<I, T>>>,
    root: I,
    shared: S,
    navigation: Navigation,
    limit: usize,
}

/// What a [`Builder`] has collected.
#[verifier::reject_recursive_types(I)]
#[verifier::reject_recursive_types(T)]
pub struct BuilderView<I, S, T> {
    pub screens: Seq<(I, T)>,
    pub routes: Seq<Box<dyn Route<I, T>>>,
    pub root: I,
    pub shared: S,
    pub navigation: Navigation,
    pub limit: nat,
}

impl<I, S, T> View for Builder<I, S, T> {
    type V = BuilderView<I, S, T>;

    closed spec fn view(&self) -> BuilderView<I, S, T> {
        BuilderView {
            screens: self.screens@,
            routes: self.routes@,
            root: self.root,
            shared: self.shared,
            navigation: self.navigation,
            limit: self.limit as nat,
        }
    }
}

/// Whether a registered screen is for another id than `id`.
pub open spec fn other_than<I, T>(id: I) -> spec_fn((I, T)) -> bool {
    |pair: (I, T)| pair.0 != id
}

impl<I: Eq + Clone, S, T: ScreenHooks<I, S>> Router<I, S, T> {
    /// Starts building a [`Router`] with `root` as the initial screen.
    pub fn builder(root: I, shared: S) -> (builder: Builder<I, S, T>)
        ensures
            builder@.screens.len() == 0,
            builder@.routes.len() == 0,
            builder@.root == root,
            builder@.shared == shared,
            builder@.navigation == Navigation::Stack,
            builder@.limit == DEFAULT_LIMIT,
    {
        Builder {
            screens: Vec::new(),
            routes: Vec::new(),
            root,
            shared,
            navigation: Navigation::Stack,
            limit: DEFAULT_LIMIT,
        }
    }
}

impl<I: Eq + Clone, S, T: ScreenHooks<I, S>> Builder<I, S, T> {
    /// Adds a screen that lives as long as the router.
    ///
    /// The screen keeps its state across visits. Use
    /// [`ScreenHooks::on_enter`] to reset it. Adding another screen with the
    /// same `id` replaces the old one.
    pub fn screen(self, id: I, screen: T) -> (builder: Self)
        ensures
            builder@.screens.len() >= 1,
            builder@.screens.last() == (id, screen),
            builder@.screens.len() <= self@.screens.len() + 1,
            exact_ids::<I>() ==> builder@.screens == self@.screens.filter(other_than(id)).push((id, screen)),
            builder@.routes == self@.routes,
            builder@.root == self@.root,
            builder@.shared == self@.shared,
            builder@.navigation == self@.navigation,
            builder@.limit == self@.limit,
    {
        let ghost given = self@.screens;
        let ghost keep = other_than::<I, T>(id);
        let Builder { screens, routes, root, shared, navigation, limit } = self;
        let mut rest = screens;
        let mut kept: Vec<(I, T)> = Vec::new();
        let mut i: usize = 0;
        assert(rest@.len() == rest.len());
        while rest.len() > 0
            invariant
                keep == other_than::<I, T>(id),
                i + rest@.len() == given.len(),
                given.len() <= usize::MAX,
                rest@ == given.subrange(i as int, given.len() as int),
                kept@.len() <= i,
                exact_ids::<I>() ==> kept@ == given.take(i as int).filter(keep),
            decreases rest@.len(),
        {
            let pair = rest.remove(0);
            proof {
                given.take(i as int).lemma_filter_push(pair, keep);
                assert(given.take(i as int).push(pair) == given.take(i + 1));
            }
            let other = !(pair.0 == id);
            proof {
                if exact_ids::<I>() {
                    assert(pair.0.eq_spec(&id) <==> pair.0 == id);
                    assert(other == keep(pair));
                }
            }
            if other {
                kept.push(pair);
            }
            i = i + 1;
        }
        assert(given.take(i as int) == given);
        kept.push((id, screen));
        Builder { screens: kept, routes, root, shared, navigation, limit }
    }

    /// Adds a route: something that builds a screen from an id.
    ///
    /// Routes are tried in order after all static screens, so they won’t
    /// shadow a [`screen`](Self::screen) entry. Screens built this way are
    /// dropped when their `id` leaves history.
    pub fn route(self, route: Box<dyn Route<I, T>>) -> (builder: Self)
        ensures
            builder@.routes == self@.routes.push(route),
            builder@.screens == self@.screens,
            builder@.root == self@.root,
            builder@.shared == self@.shared,
            builder@.navigation == self@.navigation,
            builder@.limit == self@.limit,
    {
        let mut builder = self;
        builder.routes.push(route);
        builder
    }

    /// Sets the navigation model. Defaults to [`Navigation::Stack`].
    pub fn navigation(self, navigation: Navigation) -> (builder: Self)
        ensures
            builder@ == (BuilderView { navigation, ..self@ }),
    {
        let mut builder = self;
        builder.navigation = navigation;
        builder
    }

    /// Sets the [`History`] size limit for stack navigation. Default is [`DEFAULT_LIMIT`].
    pub fn limit(self, limit: usize) -> (builder: Self)
        ensures
            builder@ == (BuilderView { limit: limit as nat, ..self@ }),
    {
        let mut builder = self;
        builder.limit = limit;
        builder
    }

    /// Builds the router and calls [`ScreenHooks::on_enter`] on the root screen.
    ///
    /// Returns `None` when no screen or route supplies the root id.
    pub fn build(self) -> (built: Option<(Router<I, S, T>, Vec<(ScreenHandle, Hook, T::Task)>)>)
        requires
            self@.screens.len() < usize::MAX,
        ensures
            exact_ids::<I>() && (exists|i: int|
                0 <= i < self@.screens.len() && #[trigger] self@.screens[i].0 == self@.root) ==> {
                &&& built matches Some((router, _))
                &&& router@.entries.len() == self@.screens.len()
            },
            exact_ids::<I>() && (forall|i: int|
                0 <= i < self@.screens.len() ==> #[trigger] self@.screens[i].0 != self@.root) ==> exists|
                screen: Option<T>,
            | #[trigger] first_built(self@.routes, self@.root, screen) && (built is Some <==> screen is Some),
            match built {
                Some((router, effects)) => {
                    &&& router@.wf()
                    &&& router@.history.root == self@.root
                    &&& router@.history.navigation == self@.navigation
                    &&& router@.history.limit == effective_limit(self@.limit)
                    &&& router@.history.stack.len() == 1
                    &&& cloned(self@.root, router@.history.current())
                    &&& self@.screens.len() <= router@.entries.len() <= self@.screens.len() + 1
                    &&& router@.next == router@.entries.len()
                    &&& router.routes() == self@.routes
                    &&& effects@.len() <= 1
                    &&& forall|i: int| 0 <= i < effects@.len() ==> (#[trigger] effects@[i]).1 is Enter
                    &&& exists|start: RouterView<I, S, T>| {
                        &&& #[trigger] hooks_ran(start, router@, effects@)
                        &&& start.places() == router@.places()
                        &&& start.shared == self@.shared
                        &&& start.screens.len() == router@.screens.len()
                        &&& forall|i: int| 0 <= i < self@.screens.len() ==> start.screens[i] == self@.screens[i].1
                    }
                    &&& forall|i: int|
                        0 <= i < self@.screens.len() ==> {
                            &&& (#[trigger] router@.entries[i]).handle.value() == i
                            &&& router@.entries[i].id == self@.screens[i].0
                            &&& router@.entries[i].kept
                        }
                    &&& exact_ids::<I>() ==> {
                        &&& router@.places().all_live()
                        &&& router@.places().tidy()
                        &&& router@.places().shown() is Some
                        &&& calls(effects@) == router@.places().handle_at(router@.places().shown(), Hook::Enter)
                    }
                },
                None => {
                    &&& exists|first: I, root: I| {
                        &&& #[trigger] cloned(self@.root, first)
                        &&& #[trigger] cloned(first, root)
                        &&& first_built(self@.routes, root, None)
                    }
                    &&& exact_ids::<I>() ==> forall|i: int|
                        0 <= i < self@.screens.len() ==> #[trigger] self@.screens[i].0 != self@.root
                },
            },
    {
        let ghost given = self@.screens;
        let ghost given_root = self@.root;
        let ghost given_routes = self@.routes;
        let Builder { screens, routes, root, shared, navigation, limit } = self;
        let history = History::new(root, navigation).with_limit(limit);
        let mut router = Router::from_parts(screens, routes, history, shared);
        let root = router.current().clone();
        proof {
            if exact_ids::<I>() {
                assert(vstd::pervasive::strictly_cloned(router@.history.current(), root) ==> router@.history.current() == root);
            }
        }
        let ghost made = router@;
        proof {
            if exact_ids::<I>() && (exists|i: int| 0 <= i < given.len() && #[trigger] given[i].0 == given_root) {
                let i = choose|i: int| 0 <= i < given.len() && #[trigger] given[i].0 == given_root;
                assert(made.entries[i].id == root);
                assert(made.places().holds(root));
            }
        }
        let shown = router.ensure(&root);
        proof {
            if exact_ids::<I>() && (forall|i: int| 0 <= i < given.len() ==> #[trigger] given[i].0 != given_root) {
                assert(!made.places().holds(root)) by {
                    if made.places().holds(root) {
                        let i = choose|i: int| 0 <= i < made.entries.len() && #[trigger] made.entries[i].id == root;
                        assert(given[i].0 == given_root);
                    }
                }
                let b = choose|b: Option<T>| #[trigger] first_built(given_routes, root, b) && shown == b is Some;
                assert(first_built(given_routes, given_root, b));
            }
        }
        if !shown {
            proof {
                assert(made.history.stack.len() == 1);
                assert(cloned(given_root, made.history.current()));
                assert(cloned(made.history.current(), root));
                assert(first_built(given_routes, root, None));
                if exact_ids::<I>() {
                    assert forall|i: int| 0 <= i < given.len() implies #[trigger] given[i].0 != given_root by {
                        assert(made.entries[i].id == given[i].0);
                    }
                }
            }
            return None;
        }
        let ghost ensured = router@;
        proof {
            assert forall|i: int| 0 <= i < given.len() implies {
                &&& (#[trigger] ensured.entries[i]).handle.value() == i
                &&& ensured.entries[i].id == given[i].0
                &&& ensured.entries[i].kept
            } by {
                assert(ensured.entries.subrange(0, made.entries.len() as int)[i] == ensured.entries[i]);
            }
            if exact_ids::<I>() {
                assert(ensured.places().holds(root)) by {
                    if ensured.places() != made.places() {
                        let last = ensured.places().entries.len() - 1;
                        assert(ensured.places() == made.places().admitted(root));
                        assert(ensured.places().entries == made.places().entries.push(
                            crate::router::Entry { handle: ScreenHandle::at(made.next), id: root, kept: false },
                        ));
                        assert(ensured.places().entries[last].id == root);
                    }
                }
                assert(ensured.history.stack[0] == root);
                assert(ensured.places().all_live());
                assert forall|i: int| 0 <= i < ensured.entries.len() implies (#[trigger] ensured.entries[i]).kept
                    || ensured.history.stack.contains(ensured.entries[i].id) by {
                    if i < made.entries.len() {
                        assert(ensured.entries.subrange(0, made.entries.len() as int)[i] == ensured.entries[i]);
                    } else {
                        assert(ensured.places().entries == made.places().entries.push(
                            crate::router::Entry { handle: ScreenHandle::at(made.next), id: root, kept: false },
                        ));
                        assert(ensured.history.stack[0] == ensured.entries[i].id);
                    }
                }
                lemma_first_where(ensured.entries, with_id(root));
            }
        }
        assert(router@.next == router@.entries.len());
        assert forall|i: int| 0 <= i < given.len() implies ensured.screens[i] == given[i].1 by {
            assert(made.entries[i].kept);
            assert(ensured.screens.subrange(0, made.screens.len() as int)[i] == ensured.screens[i]);
        }
        let effects = router.enter();
        assert(hooks_ran(ensured, router@, effects@));
        Some((router, effects))
    }
}

} // verus!
