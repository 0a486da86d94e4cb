use crate::action::Action;
use crate::history::{History, HistoryView};
use crate::message::Message;
use crate::laws::{lemma_prepared_holds_more, lemma_step_keeps_all_live, lemma_step_keeps_tidy};
use crate::screen::{Hook, Route, ScreenHandle, ScreenHooks};
use vstd::prelude::*;
use vstd::std_specs::cmp::PartialEqSpec;

verus! {

broadcast use vstd::seq_lib::group_seq_properties;

/// `I`'s `==` compares values, and its `clone` gives back an equal value.
///
/// This is what `Eq` and `Clone` ask of an id type; vstd shows it of the
/// integer types and of shared references. The router's contracts pin down
/// its navigation for id types with this property, and state what holds of
/// every other one.
pub open spec fn exact_ids<I: PartialEq + Clone>() -> bool {
    &&& I::obeys_eq_spec()
    &&& forall|a: I, b: I| #[trigger] a.eq_spec(&b) <==> a == b
    &&& forall|a: I, b: I| #[trigger] vstd::pervasive::strictly_cloned(a, b) ==> a == b
}

/// The first index of `s` at which `p` holds, if there is one.
pub open spec fn first_where<A>(s: Seq<A>, p: spec_fn(A) -> bool) -> Option<int>
    decreases s.len(),
{
    if s.len() == 0 {
        None
    } else {
        match first_where(s.drop_last(), p) {
            Some(i) => Some(i),
            None => if p(s.last()) {
                Some(s.len() - 1)
            } else {
                None
            },
        }
    }
}

/// [`first_where`] finds the first index at which `p` holds, and `None`
/// means that `p` holds nowhere.
pub proof fn lemma_first_where<A>(s: Seq<A>, p: spec_fn(A) -> bool)
    ensures
        match first_where(s, p) {
            Some(i) => 0 <= i < s.len() && p(s[i]) && forall|j: int| 0 <= j < i ==> !p(#[trigger] s[j]),
            None => forall|j: int| 0 <= j < s.len() ==> !p(#[trigger] s[j]),
        },
    decreases s.len(),
{
    if s.len() > 0 {
        lemma_first_where(s.drop_last(), p);
        assert forall|j: int| 0 <= j < s.len() - 1 implies s[j] == s.drop_last()[j] by {}
    }
}

/// The position that an exec search reports, as an integer.
pub open spec fn found(index: Option<usize>) -> Option<int> {
    match index {
        Some(i) => Some(i as int),
        None => None,
    }
}

/// The router's record of one live screen.
pub struct Entry<I> {
    /// The address of the screen, never given to another screen.
    pub handle: ScreenHandle,
    /// The id the screen was registered or built for.
    pub id: I,
    /// True for screens given when the router was made: they are kept as
    /// long as the router lives. Screens built by a route are dropped once
    /// their id leaves the history.
    pub kept: bool,
}

/// Whether an entry records the screen of `id`.
pub open spec fn with_id<I>(id: I) -> spec_fn(Entry<I>) -> bool {
    |e: Entry<I>| e.id == id
}

/// Whether an entry records the screen at `handle`.
pub open spec fn with_handle<I>(handle: ScreenHandle) -> spec_fn(Entry<I>) -> bool {
    |e: Entry<I>| e.handle == handle
}

/// Whether an entry stays live with `history`: it is kept, or its id is in
/// the history.
pub open spec fn stays_with<I>(history: HistoryView<I>) -> spec_fn(Entry<I>) -> bool {
    |e: Entry<I>| e.kept || history.stack.contains(e.id)
}

/// The handles of the screens whose hooks ran, in the order they ran.
pub open spec fn handles<X>(effects: Seq<(ScreenHandle, Hook, X)>) -> Seq<ScreenHandle> {
    effects.map_values(|e: (ScreenHandle, Hook, X)| e.0)
}

/// The hooks that ran, each with the handle of its screen, in the order they
/// ran.
pub open spec fn calls<X>(effects: Seq<(ScreenHandle, Hook, X)>) -> Seq<(ScreenHandle, Hook)> {
    effects.map_values(|e: (ScreenHandle, Hook, X)| (e.0, e.1))
}

/// What the routes answer, asked in order for a screen for `id`: `Some` from
/// the first route that builds one, after every earlier route built none, or
/// `None` when no route builds one.
pub open spec fn first_built<I, T>(routes: Seq<Box<dyn Route<I, T>>>, id: I, screen: Option<T>) -> bool {
    match screen {
        Some(_) => exists|k: int|
            0 <= k < routes.len() && #[trigger] routes[k].builds(id, screen) && forall|j: int|
                0 <= j < k ==> #[trigger] routes[j].builds(id, None),
        None => forall|k: int| 0 <= k < routes.len() ==> #[trigger] routes[k].builds(id, None),
    }
}

/// Where a router keeps its screens: the record of each live screen, the
/// history, and the number the next handle will be made from.
#[verifier::ext_equal]
pub struct Places<I> {
    pub entries: Seq<Entry<I>>,
    pub history: HistoryView<I>,
    pub next: nat,
}

impl<I> Places<I> {
    /// Where the screen of `id` is recorded.
    pub open spec fn position(self, id: I) -> Option<int> {
        first_where(self.entries, with_id(id))
    }

    /// Where the screen at `handle` is recorded.
    pub open spec fn slot(self, handle: ScreenHandle) -> Option<int> {
        first_where(self.entries, with_handle(handle))
    }

    /// Whether a screen for `id` is live.
    pub open spec fn holds(self, id: I) -> bool {
        exists|i: int| 0 <= i < self.entries.len() && #[trigger] self.entries[i].id == id
    }

    /// Where the current screen is recorded.
    pub open spec fn shown(self) -> Option<int> {
        self.position(self.history.current())
    }

    /// Every live screen is kept, or its id is in the history: a screen a
    /// route built does not outlive its id's place in the history.
    pub open spec fn tidy(self) -> bool {
        forall|i: int|
            0 <= i < self.entries.len() ==> (#[trigger] self.entries[i]).kept
                || self.history.stack.contains(self.entries[i].id)
    }

    /// Every screen in the history has a live screen.
    pub open spec fn all_live(self) -> bool {
        forall|k: int|
            0 <= k < self.history.stack.len() ==> self.holds(#[trigger] self.history.stack[k])
    }

    /// The handle of the screen recorded at `index`, if there is one.
    pub open spec fn handle_seq(self, index: Option<int>) -> Seq<ScreenHandle> {
        match index {
            Some(i) => seq![self.entries[i].handle],
            None => Seq::empty(),
        }
    }

    /// The hook `hook` run on the screen recorded at `index`, if there is one.
    pub open spec fn handle_at(self, index: Option<int>, hook: Hook) -> Seq<(ScreenHandle, Hook)> {
        match index {
            Some(i) => seq![(self.entries[i].handle, hook)],
            None => Seq::empty(),
        }
    }

    /// A record for a screen that a route built for `id`.
    pub open spec fn admitted(self, id: I) -> Self {
        Places {
            entries: self.entries.push(Entry { handle: ScreenHandle::at(self.next), id, kept: false }),
            next: self.next + 1,
            ..self
        }
    }

    /// The places once the history has become `moved` and the screens built
    /// by a route whose id left it are dropped.
    pub open spec fn settled(self, moved: HistoryView<I>) -> Self {
        Places { entries: self.entries.filter(stays_with(moved)), history: moved, ..self }
    }

    /// The outcome of moving the history to `moved`: the new places, and the
    /// handles of the screens whose hooks run: the screen that was current
    /// (its `on_exit`), then the screen that is current now (its `on_enter`).
    pub open spec fn moved_to(self, moved: HistoryView<I>) -> (Self, Seq<(ScreenHandle, Hook)>) {
        let after = self.settled(moved);
        (after, self.handle_at(self.shown(), Hook::Exit) + after.handle_at(after.shown(), Hook::Enter))
    }

    /// The places, with a screen for `id` built by a route when `built`.
    pub open spec fn prepared(self, id: I, built: bool) -> Self {
        if built {
            self.admitted(id)
        } else {
            self
        }
    }

    /// The outcome of a request to go to `id`, a route having built a screen
    /// for it when `built`.
    pub open spec fn go_to_step(self, id: I, built: bool) -> (Self, Seq<(ScreenHandle, Hook)>) {
        let mid = self.prepared(id, built);
        if !mid.holds(id) || mid.history.current() == id {
            (mid, Seq::empty())
        } else {
            mid.moved_to(mid.history.went_to(id))
        }
    }

    /// The outcome of a request to go back.
    pub open spec fn back_step(self) -> (Self, Seq<(ScreenHandle, Hook)>) {
        if !self.history.can_go_back() {
            (self, Seq::empty())
        } else {
            self.moved_to(self.history.went_back())
        }
    }

    /// The outcome of a request to replace the current screen with `id`, a
    /// route having built a screen for it when `built`.
    pub open spec fn replace_step(self, id: I, built: bool) -> (Self, Seq<(ScreenHandle, Hook)>) {
        let mid = self.prepared(id, built);
        if !mid.holds(id) || mid.history.current() == id {
            (mid, Seq::empty())
        } else {
            mid.moved_to(mid.history.replaced(id))
        }
    }

    /// The outcome of a request to reset to the root, a route having built a
    /// screen for the root when `built`.
    pub open spec fn reset_step(self, built: bool) -> (Self, Seq<(ScreenHandle, Hook)>) {
        let root = self.history.root;
        let mid = self.prepared(root, built);
        if !mid.holds(root) {
            (mid, Seq::empty())
        } else if mid.history.current() == root {
            (mid.settled(mid.history.with_stack(seq![root])), Seq::empty())
        } else {
            mid.moved_to(mid.history.with_stack(seq![root]))
        }
    }

    /// The outcome of an action returned by the screen at `handle`, a route
    /// having built a screen for the id the action names when `built`.
    pub open spec fn act_step<M>(self, handle: ScreenHandle, action: Action<I, M>, built: bool) -> (Self, Seq<(ScreenHandle, Hook)>) {
        match action {
            Action::Nothing => (self, Seq::empty()),
            Action::Run(_) => (self, seq![(handle, Hook::Run)]),
            Action::GoTo(id) => self.go_to_step(id, built),
            Action::Back => self.back_step(),
            Action::Replace(id) => self.replace_step(id, built),
            Action::Reset => self.reset_step(built),
        }
    }

    /// The id that `action` asks to show: the id it names, or the root.
    pub open spec fn target<M>(self, action: Action<I, M>) -> I {
        match action {
            Action::GoTo(id) => id,
            Action::Replace(id) => id,
            _ => self.history.root,
        }
    }

    /// Whether `action` asks to show an id that has no live screen, so that
    /// the routes are asked for one.
    pub open spec fn may_build<M>(self, action: Action<I, M>) -> bool {
        match action {
            Action::GoTo(id) => !self.holds(id),
            Action::Replace(id) => !self.holds(id),
            Action::Reset => !self.holds(self.history.root),
            _ => false,
        }
    }

    /// `outcome` is what doing `action` for the screen at `handle` gives: when
    /// the action asks to show an id with no live screen, the routes are asked
    /// for one in order, and the step goes on with whether one was built.
    pub open spec fn routed_step<T, M>(
        self,
        routes: Seq<Box<dyn Route<I, T>>>,
        handle: ScreenHandle,
        action: Action<I, M>,
        outcome: (Self, Seq<(ScreenHandle, Hook)>),
    ) -> bool {
        if self.may_build(action) {
            exists|built: Option<T>|
                #[trigger] first_built(routes, self.target(action), built) && outcome == self.act_step(
                    handle,
                    action,
                    built is Some,
                )
        } else {
            outcome == self.act_step(handle, action, false)
        }
    }
}

/// The abstract state of a [`Router`]: its live screens (their records and
/// the screens themselves, side by side), its history, the shared state, and
/// the number the next handle will be made from.
#[verifier::ext_equal]
pub struct RouterView<I, S, T> {
    pub entries: Seq<Entry<I>>,
    pub screens: Seq<T>,
    pub history: HistoryView<I>,
    pub shared: S,
    pub next: nat,
}

impl<I, S, T> RouterView<I, S, T> {
    /// The history is well formed, each record has its screen, every handle
    /// was made from a number below `next`, and the handles grow from the
    /// oldest record to the newest (so no two are the same).
    pub open spec fn wf(self) -> bool {
        &&& self.history.wf()
        &&& self.entries.len() == self.screens.len()
        &&& forall|i: int|
            0 <= i < self.entries.len() ==> #[trigger] self.entries[i].handle.value() < self.next
        &&& forall|i: int, j: int|
            0 <= i < j < self.entries.len() ==> #[trigger] self.entries[i].handle.value()
                < #[trigger] self.entries[j].handle.value()
    }

    /// Where the router keeps its screens, without the screens themselves.
    pub open spec fn places(self) -> Places<I> {
        Places { entries: self.entries, history: self.history, next: self.next }
    }

    /// Every screen of `self` that was live in `before`, that no hook in
    /// `touched` ran on, is the very screen it was in `before`.
    pub open spec fn keeps_screens_of(self, before: Self, touched: Seq<ScreenHandle>) -> bool {
        forall|k: int|
            0 <= k < self.entries.len() && !touched.contains(#[trigger] self.entries[k].handle)
                && self.entries[k].handle.value() < before.next ==> exists|m: int|
                0 <= m < before.entries.len() && #[trigger] before.entries[m] == self.entries[k]
                    && before.screens[m] == self.screens[k]
    }
}

impl<I, S, T> RouterView<I, S, T> {
    /// Whether a live screen has `handle`.
    pub open spec fn has(self, handle: ScreenHandle) -> bool {
        first_where(self.entries, with_handle(handle)) is Some
    }

    /// The live screen that has `handle`.
    pub open spec fn screen_of(self, handle: ScreenHandle) -> T {
        self.screens[first_where(self.entries, with_handle(handle))->0]
    }

    /// The state with the screen recorded at `index` replaced by `screen`,
    /// and the shared state by `shared`.
    pub open spec fn with_screen(self, index: int, screen: T, shared: S) -> Self {
        RouterView { screens: self.screens.update(index, screen), shared, ..self }
    }
}

/// `grown` is `before` with `screen`, which a route built for `id`, recorded
/// after the other screens, under a handle made from `before.next`.
pub open spec fn adopted<I: Clone, S, T>(before: RouterView<I, S, T>, grown: RouterView<I, S, T>, id: I, screen: T) -> bool {
    &&& grown.screens == before.screens.push(screen)
    &&& grown.entries.len() == before.entries.len() + 1
    &&& grown.entries.drop_last() == before.entries
    &&& grown.entries.last().handle == ScreenHandle::at(before.next)
    &&& cloned(id, grown.entries.last().id)
    &&& !grown.entries.last().kept
    &&& grown.history == before.history
    &&& grown.shared == before.shared
    &&& grown.next == before.next + 1
}

/// `grown` is `before`, or `before` with the screen that the first of
/// `routes` to build one built for `id`.
pub open spec fn grown_for<I: Clone, S, T>(
    before: RouterView<I, S, T>,
    grown: RouterView<I, S, T>,
    routes: Seq<Box<dyn Route<I, T>>>,
    id: I,
) -> bool {
    ||| grown == before
    ||| exists|screen: T| #[trigger] first_built(routes, id, Some(screen)) && adopted(before, grown, id, screen)
}

/// [`hooks_ran`] with the screen that the `on_exit` hook left, `left`, and
/// the shared state between the two hooks, `between`.
pub open spec fn hooks_ran_through<I, S, T: ScreenHooks<I, S>>(
    before: RouterView<I, S, T>,
    after: RouterView<I, S, T>,
    effects: Seq<(ScreenHandle, Hook, T::Task)>,
    left: T,
    between: S,
) -> bool {
    let n = effects.len();
    let exits = n > 0 && effects[0].1 is Exit;
    let enters = n > 0 && effects[n - 1].1 is Enter;
    let first = effects[0].0;
    let last = effects[n - 1].0;
    let again = exits && enters && last == first;
    &&& n <= 2
    &&& n == 2 ==> exits && enters
    &&& n == 1 ==> exits || enters
    &&& exits ==> before.has(first) && before.screen_of(first).exits(before.shared, effects[0].2, left, between)
    &&& !exits ==> between == before.shared
    &&& exits && !again && after.has(first) ==> after.screen_of(first) == left
    &&& enters && !again ==> before.has(last)
    &&& enters ==> after.has(last) && (if again {
        left
    } else {
        before.screen_of(last)
    }).enters(between, effects[n - 1].2, after.screen_of(last), after.shared)
    &&& !enters ==> after.shared == between
}

/// The hooks listed in `effects` are at most one `on_exit` followed by one
/// `on_enter`, and `after` holds what they made of `before`. The `on_exit`
/// ran on the screen `before` has at its handle, with the shared state of
/// `before`; the `on_enter` ran on the screen at its handle as the `on_exit`
/// left it, with the shared state the `on_exit` left. The shared state of
/// `after`, and its screens at those handles, are what the last of them left;
/// with no hook, the shared state is that of `before`.
pub open spec fn hooks_ran<I, S, T: ScreenHooks<I, S>>(
    before: RouterView<I, S, T>,
    after: RouterView<I, S, T>,
    effects: Seq<(ScreenHandle, Hook, T::Task)>,
) -> bool {
    exists|left: T, between: S| #[trigger] hooks_ran_through(before, after, effects, left, between)
}

/// What doing `action` for the screen at `handle` makes of `before`: nothing
/// for [`Action::Nothing`]; the task, tagged with `handle`, for
/// [`Action::Run`]; for a move, the hooks it runs, on a state that holds, when
/// the id to show had no live screen, the screen the routes built for it.
pub open spec fn acted<I: Clone, S, T: ScreenHooks<I, S>>(
    before: RouterView<I, S, T>,
    after: RouterView<I, S, T>,
    routes: Seq<Box<dyn Route<I, T>>>,
    handle: ScreenHandle,
    action: Action<I, T::Task>,
    effects: Seq<(ScreenHandle, Hook, T::Task)>,
) -> bool {
    match action {
        Action::Nothing => after == before && effects.len() == 0,
        Action::Run(task) => after == before && effects == seq![(handle, Hook::Run, task)],
        Action::GoTo(id) => exists|grown: RouterView<I, S, T>|
            #[trigger] grown_for(before, grown, routes, id) && hooks_ran(grown, after, effects),
        Action::Replace(id) => exists|grown: RouterView<I, S, T>|
            #[trigger] grown_for(before, grown, routes, id) && hooks_ran(grown, after, effects),
        Action::Back => {
            &&& after.history == if before.history.can_go_back() {
                before.history.went_back()
            } else {
                before.history
            }
            &&& !before.history.can_go_back() ==> after == before && effects.len() == 0
            &&& hooks_ran(before, after, effects)
        },
        Action::Reset => exists|root: I, grown: RouterView<I, S, T>| {
            &&& cloned(before.history.root, root)
            &&& #[trigger] grown_for(before, grown, routes, root)
            &&& hooks_ran(grown, after, effects)
        },
    }
}

/// `after` holds the records and screens of `before` unchanged, in the same
/// places, and records after them only screens whose handles are new.
pub open spec fn grew_from<I, S, T>(after: RouterView<I, S, T>, before: RouterView<I, S, T>) -> bool {
    &&& before.entries.len() <= after.entries.len()
    &&& after.entries.subrange(0, before.entries.len() as int) == before.entries
    &&& before.screens.len() <= after.screens.len()
    &&& after.screens.subrange(0, before.screens.len() as int) == before.screens
    &&& forall|m: int|
        before.entries.len() <= m < after.entries.len() ==> #[trigger] after.entries[m].handle.value()
            >= before.next
    &&& after.next >= before.next
}

/// In a well-formed state, each handle belongs to one record: the search for
/// the handle of the record at `i` finds `i`.
pub proof fn lemma_own_handle<I, S, T>(view: RouterView<I, S, T>, i: int)
    requires
        view.wf(),
        0 <= i < view.entries.len(),
    ensures
        first_where(view.entries, with_handle(view.entries[i].handle)) == Some(i),
        view.has(view.entries[i].handle),
        view.screen_of(view.entries[i].handle) == view.screens[i],
{
    let p = with_handle::<I>(view.entries[i].handle);
    lemma_first_where(view.entries, p);
    assert(p(view.entries[i]));
    let j = first_where(view.entries, p)->0;
    if j < i {
        assert(view.entries[j].handle.value() < view.entries[i].handle.value());
    }
}

/// The hooks of a move, told step by step: the `on_exit` hook of the screen
/// at `exit` (giving `exited`), dropping screens (giving `pruned`), then the
/// `on_enter` hook of the screen at `enter` (giving `last`), ran as
/// [`hooks_ran`] says.
proof fn lemma_transition_ran_hooks<I, S, T: ScreenHooks<I, S>>(
    first: RouterView<I, S, T>,
    exited: RouterView<I, S, T>,
    pruned: RouterView<I, S, T>,
    last: RouterView<I, S, T>,
    exit: Option<usize>,
    enter: Option<usize>,
    exit_effects: Seq<(ScreenHandle, Hook, T::Task)>,
    enter_effects: Seq<(ScreenHandle, Hook, T::Task)>,
)
    requires
        first.wf(),
        exited.wf(),
        pruned.wf(),
        last.wf(),
        exit matches Some(i) ==> i < first.entries.len(),
        enter matches Some(i) ==> i < pruned.entries.len(),
        exited.places() == first.places(),
        exited.screens.len() == first.screens.len(),
        forall|j: int|
            0 <= j < first.screens.len() && found(exit) != Some(j) ==> #[trigger] exited.screens[j]
                == first.screens[j],
        calls(exit_effects) == first.places().handle_at(found(exit), Hook::Exit),
        exit is None ==> exited == first,
        exit matches Some(i) ==> first.screens[i as int].exits(
            first.shared,
            exit_effects[0].2,
            exited.screens[i as int],
            exited.shared,
        ),
        pruned.shared == exited.shared,
        pruned.next == exited.next,
        pruned.keeps_screens_of(exited, Seq::empty()),
        last.places() == pruned.places(),
        last.screens.len() == pruned.screens.len(),
        forall|j: int|
            0 <= j < pruned.screens.len() && found(enter) != Some(j) ==> #[trigger] last.screens[j]
                == pruned.screens[j],
        calls(enter_effects) == pruned.places().handle_at(found(enter), Hook::Enter),
        enter is None ==> last == pruned,
        enter matches Some(e) ==> pruned.screens[e as int].enters(
            pruned.shared,
            enter_effects[0].2,
            last.screens[e as int],
            last.shared,
        ),
    ensures
        hooks_ran(first, last, exit_effects + enter_effects),
{
    let effects = exit_effects + enter_effects;
    let n = effects.len();
    let left: T = match exit {
        Some(x) => exited.screens[x as int],
        None => vstd::pervasive::arbitrary(),
    };
    let between = exited.shared;
    assert(calls(exit_effects).len() == exit_effects.len());
    assert(calls(enter_effects).len() == enter_effects.len());
    let h0 = effects[0].0;
    let h1 = effects[n - 1].0;
    if let Some(x) = exit {
        assert(calls(exit_effects)[0] == (exit_effects[0].0, exit_effects[0].1));
        assert(effects[0] == exit_effects[0]);
        assert(h0 == first.entries[x as int].handle);
        lemma_own_handle(first, x as int);
    }
    if let Some(e) = enter {
        assert(calls(enter_effects)[0] == (enter_effects[0].0, enter_effects[0].1));
        assert(effects[n - 1] == enter_effects[0]);
        assert(h1 == pruned.entries[e as int].handle);
        assert(last.entries == pruned.entries);
        lemma_own_handle(last, e as int);
        assert(pruned.entries[e as int].handle.value() < exited.next);
        assert(!Seq::<ScreenHandle>::empty().contains(pruned.entries[e as int].handle));
        let m = choose|m: int|
            0 <= m < exited.entries.len() && #[trigger] exited.entries[m] == pruned.entries[e as int]
                && exited.screens[m] == pruned.screens[e as int];
        assert(exited.entries == first.entries);
        lemma_own_handle(first, m);
        if let Some(x) = exit {
            if m != x {
                if m < x {
                    assert(first.entries[m].handle.value() < first.entries[x as int].handle.value());
                } else {
                    assert(first.entries[x as int].handle.value() < first.entries[m].handle.value());
                }
                assert(h1 != h0);
                assert(exited.screens[m] == first.screens[m]);
            } else {
                assert(h1 == h0);
            }
        } else {
            assert(exited.screens[m] == first.screens[m]);
        }
    }
    if let Some(x) = exit {
        let again = enter is Some && h1 == h0;
        if !again && last.has(h0) {
            let p = with_handle::<I>(h0);
            lemma_first_where(last.entries, p);
            let k = first_where(last.entries, p)->0;
            assert(last.entries[k].handle == h0);
            if let Some(e) = enter {
                assert(k != e);
            }
            assert(last.screens[k] == pruned.screens[k]);
            assert(pruned.entries[k].handle.value() < exited.next);
            assert(!Seq::<ScreenHandle>::empty().contains(pruned.entries[k].handle));
            let m = choose|m: int|
                0 <= m < exited.entries.len() && #[trigger] exited.entries[m] == pruned.entries[k]
                    && exited.screens[m] == pruned.screens[k];
            if m < x {
                assert(exited.entries[m].handle.value() < exited.entries[x as int].handle.value());
            } else if m > x {
                assert(exited.entries[x as int].handle.value() < exited.entries[m].handle.value());
            }
            assert(m == x);
        }
    }
    assert(hooks_ran_through(first, last, effects, left, between));
}

/// With no hook run, the shared state left as it was, no hook ran.
pub proof fn lemma_no_hooks<I, S, T: ScreenHooks<I, S>>(before: RouterView<I, S, T>, after: RouterView<I, S, T>)
    requires
        after.shared == before.shared,
    ensures
        hooks_ran(before, after, Seq::empty()),
{
    assert(hooks_ran_through(before, after, Seq::empty(), vstd::pervasive::arbitrary(), before.shared));
}

/// Which hooks ran depends only on the records, the screens and the shared
/// state, not on the history.
pub proof fn lemma_hooks_ran_from<I, S, T: ScreenHooks<I, S>>(
    moved: RouterView<I, S, T>,
    before: RouterView<I, S, T>,
    after: RouterView<I, S, T>,
    effects: Seq<(ScreenHandle, Hook, T::Task)>,
)
    requires
        moved.entries == before.entries,
        moved.screens == before.screens,
        moved.shared == before.shared,
        hooks_ran(moved, after, effects),
    ensures
        hooks_ran(before, after, effects),
{
    let (left, between) = choose|left: T, between: S| hooks_ran_through(moved, after, effects, left, between);
    assert(hooks_ran_through(before, after, effects, left, between));
}

/// A state that only grew from `before` keeps every screen of `before`.
pub proof fn lemma_grown_keeps_screens<I, S, T>(
    after: RouterView<I, S, T>,
    before: RouterView<I, S, T>,
    touched: Seq<ScreenHandle>,
)
    requires
        before.wf(),
        grew_from(after, before),
    ensures
        after.keeps_screens_of(before, touched),
{
    assert forall|k: int|
        0 <= k < after.entries.len() && !touched.contains(#[trigger] after.entries[k].handle)
            && after.entries[k].handle.value() < before.next implies exists|m: int|
        0 <= m < before.entries.len() && #[trigger] before.entries[m] == after.entries[k]
            && before.screens[m] == after.screens[k] by {
        assert(k < before.entries.len());
        assert(after.entries.subrange(0, before.entries.len() as int)[k] == after.entries[k]);
        assert(after.screens.subrange(0, before.screens.len() as int)[k] == after.screens[k]);
    }
}

/// Keeping the screens of a state that only grew from `before` keeps the
/// screens of `before`.
pub proof fn lemma_keeps_screens_through_growth<I, S, T>(
    after: RouterView<I, S, T>,
    mid: RouterView<I, S, T>,
    before: RouterView<I, S, T>,
    touched: Seq<ScreenHandle>,
)
    requires
        before.wf(),
        mid.wf(),
        grew_from(mid, before),
        after.keeps_screens_of(mid, touched),
    ensures
        after.keeps_screens_of(before, touched),
{
    assert forall|k: int|
        0 <= k < after.entries.len() && !touched.contains(#[trigger] after.entries[k].handle)
            && after.entries[k].handle.value() < before.next implies exists|m: int|
        0 <= m < before.entries.len() && #[trigger] before.entries[m] == after.entries[k]
            && before.screens[m] == after.screens[k] by {
        let m = choose|m: int|
            0 <= m < mid.entries.len() && #[trigger] mid.entries[m] == after.entries[k]
                && mid.screens[m] == after.screens[k];
        assert(m < before.entries.len());
        assert(mid.entries.subrange(0, before.entries.len() as int)[m] == mid.entries[m]);
        assert(mid.screens.subrange(0, before.screens.len() as int)[m] == mid.screens[m]);
    }
}

/// A step taken with the routes' answer `built` for the id that `action`
/// asks to show (and no answer when the id is live) is a routed step.
pub proof fn lemma_routed_step<I, T, M>(
    places: Places<I>,
    routes: Seq<Box<dyn Route<I, T>>>,
    handle: ScreenHandle,
    action: Action<I, M>,
    built: Option<T>,
    outcome: (Places<I>, Seq<(ScreenHandle, Hook)>),
)
    requires
        outcome == places.act_step(handle, action, built is Some),
        places.may_build(action) ==> first_built(routes, places.target(action), built),
        !places.may_build(action) ==> built is None,
    ensures
        places.routed_step(routes, handle, action, outcome),
{
}

/// A routed step for an action that asks to show an id does not depend on
/// the handle of the screen that asked.
pub proof fn lemma_routed_any_handle<I, T, M>(
    places: Places<I>,
    routes: Seq<Box<dyn Route<I, T>>>,
    from: ScreenHandle,
    to: ScreenHandle,
    action: Action<I, M>,
    outcome: (Places<I>, Seq<(ScreenHandle, Hook)>),
)
    requires
        action is GoTo || action is Replace || action is Reset,
        places.routed_step(routes, from, action, outcome),
    ensures
        places.routed_step(routes, to, action, outcome),
{
    if places.may_build(action) {
        let b = choose|b: Option<T>|
            #[trigger] first_built(routes, places.target(action), b) && outcome == places.act_step(
                from,
                action,
                b is Some,
            );
        assert(places.act_step(to, action, b is Some) == places.act_step(from, action, b is Some));
    } else {
        assert(places.act_step(to, action, false) == places.act_step(from, action, false));
    }
}

/// Whatever the routes answer, a routed step of a router whose history has
/// only live screens keeps every live screen kept or in the history.
pub proof fn lemma_routed_keeps_tidy<I, T, M>(
    places: Places<I>,
    routes: Seq<Box<dyn Route<I, T>>>,
    handle: ScreenHandle,
    action: Action<I, M>,
    outcome: (Places<I>, Seq<(ScreenHandle, Hook)>),
)
    requires
        places.history.wf(),
        places.all_live(),
        places.tidy(),
        places.routed_step(routes, handle, action, outcome),
    ensures
        outcome.0.tidy(),
{
    if places.may_build(action) {
        let b = choose|b: Option<T>|
            #[trigger] first_built(routes, places.target(action), b) && outcome == places.act_step(
                handle,
                action,
                b is Some,
            );
        lemma_step_keeps_tidy(places, handle, action, b is Some);
    } else {
        lemma_step_keeps_tidy(places, handle, action, false);
    }
}

/// Whatever the routes answer, a routed step keeps every screen of the
/// history live.
pub proof fn lemma_routed_keeps_all_live<I, T, M>(
    places: Places<I>,
    routes: Seq<Box<dyn Route<I, T>>>,
    handle: ScreenHandle,
    action: Action<I, M>,
    outcome: (Places<I>, Seq<(ScreenHandle, Hook)>),
)
    requires
        places.history.wf(),
        places.all_live(),
        places.routed_step(routes, handle, action, outcome),
    ensures
        outcome.0.all_live(),
{
    if places.may_build(action) {
        let b = choose|b: Option<T>|
            #[trigger] first_built(routes, places.target(action), b) && outcome == places.act_step(
                handle,
                action,
                b is Some,
            );
        lemma_step_keeps_all_live(places, handle, action, b is Some);
    } else {
        lemma_step_keeps_all_live(places, handle, action, false);
    }
}

/// What handling `message` does to a router in state `before`, whose routes
/// are `routes`: `after` is the state it leaves and `effects` what the hooks
/// handed back, each with its screen's handle and the hook that ran. A
/// navigation message does what the matching action asks; a message for a
/// screen is handed to the screen's `update`, and the router then does what it
/// answered, or nothing when no live screen has the handle. Every screen that
/// no hook ran on is the screen it was.
pub open spec fn handled<I: PartialEq + Clone, S, T: ScreenHooks<I, S>>(
    before: RouterView<I, S, T>,
    after: RouterView<I, S, T>,
    routes: Seq<Box<dyn Route<I, T>>>,
    message: Message<I, T::Message>,
    effects: Seq<(ScreenHandle, Hook, T::Task)>,
) -> bool {
    let outcome = (after.places(), calls(effects));
    let any = ScreenHandle::at(0);
    &&& after.wf()
    &&& after.next >= before.next
    &&& exact_ids::<I>() && before.places().all_live() ==> after.places().all_live()
    &&& exact_ids::<I>() && before.places().all_live() && before.places().tidy() ==> after.places().tidy()
    &&& match message {
        Message::GoTo(id) => {
            &&& after.keeps_screens_of(before, handles(effects))
            &&& acted(before, after, routes, any, Action::GoTo(id), effects)
            &&& exact_ids::<I>() ==> before.places().routed_step(routes, any, Action::<I, T::Task>::GoTo(id), outcome)
        },
        Message::Back => {
            &&& after.keeps_screens_of(before, handles(effects))
            &&& acted(before, after, routes, any, Action::Back, effects)
            &&& exact_ids::<I>() ==> outcome == before.places().back_step()
        },
        Message::Replace(id) => {
            &&& after.keeps_screens_of(before, handles(effects))
            &&& acted(before, after, routes, any, Action::Replace(id), effects)
            &&& exact_ids::<I>() ==> before.places().routed_step(routes, any, Action::<I, T::Task>::Replace(id), outcome)
        },
        Message::Reset => {
            &&& after.keeps_screens_of(before, handles(effects))
            &&& acted(before, after, routes, any, Action::Reset, effects)
            &&& exact_ids::<I>() ==> before.places().routed_step(routes, any, Action::<I, T::Task>::Reset, outcome)
        },
        Message::Screen(handle, message) => {
            &&& after.keeps_screens_of(before, seq![handle] + handles(effects))
            &&& before.places().slot(handle) is None ==> after == before && effects.len() == 0
            &&& before.places().slot(handle) matches Some(i) ==> exists|asked: Action<I, T::Task>, screen: T, shared: S| {
                &&& #[trigger] before.screens[i].answers(before.shared, message, asked, screen, shared)
                &&& acted(before.with_screen(i, screen, shared), after, routes, handle, asked, effects)
                &&& exact_ids::<I>() ==> before.places().routed_step(routes, handle, asked, outcome)
            }
        },
    }
}

/// A set of screens and a history of visited ones.
///
/// The recommended way to build one is to use [`Router::builder`].
///
/// The router owns the shared state. Access it with [`shared`](Router::shared),
/// [`shared_mut`](Router::shared_mut), or [`replace_shared`](Router::replace_shared).
///
/// - `I` is the screen identifier.
/// - `S` is the shared state.
/// - `T` is a live screen.
#[verifier::reject_recursive_types(I)]
#[verifier::reject_recursive_types(T)]
pub struct Router<I, S, T> {
    entries: Vec<Entry<I>>,
    screens: Vec<T>,
    routes: Vec<Box<dyn Route<I, T>>>,
    history: History<I>,
    shared: S,
    next: usize,
}

impl<I, S, T> View for Router<I, S, T> {
    type V = RouterView<I, S, T>;

    closed spec fn view(&self) -> RouterView<I, S, T> {
        RouterView {
            entries: self.entries@,
            screens: self.screens@,
            history: self.history@,
            shared: self.shared,
            next: self.next as nat,
        }
    }
}

impl<I, S, T> Router<I, S, T> {
    /// The routes the router asks, in order, for a screen.
    pub closed spec fn routes(&self) -> Seq<Box<dyn Route<I, T>>> {
        self.routes@
    }
}

impl<I: Eq + Clone, S, T: ScreenHooks<I, S>> Router<I, S, T> {
    /// Creates a router from the parts that [`Builder`](crate::Builder) collects.
    ///
    /// The screens get the handles 0, 1, 2 and so on, in the order given, and
    /// are kept as long as the router lives. The caller must run
    /// [`Router::enter`] afterwards and ensure the root exists.
    pub fn from_parts(
        screens: Vec<(I, T)>,
        routes: Vec<Box<dyn Route<I, T>>>,
        history: History<I>,
        shared: S,
    ) -> (router: Self)
        requires
            history@.wf(),
        ensures
            router@.wf(),
            router@.entries.len() == screens.len(),
            forall|i: int|
                0 <= i < screens.len() ==> {
                    &&& (#[trigger] router@.entries[i]).handle.value() == i
                    &&& router@.entries[i].id == screens[i].0
                    &&& router@.entries[i].kept
                    &&& router@.screens[i] == screens[i].1
                },
            router@.history == history@,
            router@.shared == shared,
            router@.next == screens.len(),
            router.routes() == routes@,
    {
        let ghost given = screens@;
        assert(given.len() == screens.len());
        let mut rest = screens;
        let mut entries: Vec<Entry<I>> = Vec::new();
        let mut live: Vec<T> = Vec::new();
        let mut index: usize = 0;
        while rest.len() > 0
            invariant
                index + rest@.len() == given.len(),
                given.len() <= usize::MAX,
                rest@ == given.subrange(index as int, given.len() as int),
                entries@.len() == index,
                live@.len() == index,
                forall|i: int|
                    0 <= i < index ==> {
                        &&& (#[trigger] entries@[i]).handle.value() == i
                        &&& entries@[i].id == given[i].0
                        &&& entries@[i].kept
                        &&& live@[i] == given[i].1
                    },
            decreases rest@.len(),
        {
            let (id, screen) = rest.remove(0);
            entries.push(Entry { handle: ScreenHandle::new(index), id, kept: true });
            live.push(screen);
            index = index + 1;
        }
        Router { entries, screens: live, routes, history, shared, next: index }
    }

    /// Where the screen of `id` is recorded.
    pub fn index_of(&self, id: &I) -> (index: Option<usize>)
        ensures
            index matches Some(i) ==> i < self@.entries.len(),
            exact_ids::<I>() ==> found(index) == self@.places().position(*id),
    {
        let ghost p = with_id(*id);
        let mut i: usize = 0;
        while i < self.entries.len()
            invariant
                i <= self@.entries.len(),
                p == with_id(*id),
                exact_ids::<I>() ==> first_where(self@.entries.take(i as int), p) is None,
            decreases self@.entries.len() - i,
        {
            assert(self@.entries.take(i + 1).drop_last() == self@.entries.take(i as int));
            if self.entries[i].id == *id {
                assert(self@.entries.take(i + 1).last() == self@.entries[i as int]);
                proof {
                    if exact_ids::<I>() {
                        assert(self@.entries[i as int].id.eq_spec(id));
                        assert(self@.entries[i as int].id == *id);
                        assert(p(self@.entries[i as int]));
                        assert(first_where(self@.entries.take(i + 1), p) == Some(i as int));
                        lemma_prefix_first_where(self@.entries, p, i + 1);
                    }
                }
                return Some(i);
            }
            i = i + 1;
        }
        assert(self@.entries.take(i as int) == self@.entries);
        None
    }

    /// Where the screen at `handle` is recorded.
    pub fn index_of_handle(&self, handle: ScreenHandle) -> (index: Option<usize>)
        ensures
            index matches Some(i) ==> i < self@.entries.len(),
            found(index) == self@.places().slot(handle),
    {
        let ghost p = with_handle::<I>(handle);
        let mut i: usize = 0;
        while i < self.entries.len()
            invariant
                i <= self@.entries.len(),
                p == with_handle::<I>(handle),
                first_where(self@.entries.take(i as int), p) is None,
            decreases self@.entries.len() - i,
        {
            assert(self@.entries.take(i + 1).drop_last() == self@.entries.take(i as int));
            if self.entries[i].handle == handle {
                assert(self@.entries.take(i + 1).last() == self@.entries[i as int]);
                assert(p(self@.entries[i as int]));
                assert(first_where(self@.entries.take(i + 1), p) == Some(i as int));
                proof {
                    lemma_prefix_first_where(self@.entries, p, i + 1);
                }
                return Some(i);
            }
            i = i + 1;
        }
        assert(self@.entries.take(i as int) == self@.entries);
        None
    }

    /// The screen to show.
    pub fn current(&self) -> (id: &I)
        requires
            self@.wf(),
        ensures
            *id == self@.history.current(),
    {
        self.history.current()
    }

    /// Returns a reference to the router's history.
    pub fn history(&self) -> (history: &History<I>)
        ensures
            history@ == self@.history,
    {
        &self.history
    }

    /// Returns a reference to the shared state of the screens.
    pub fn shared(&self) -> (shared: &S)
        ensures
            *shared == self@.shared,
    {
        &self.shared
    }

    /// Returns a mutable reference to the shared state of the screens.
    pub fn shared_mut(&mut self) -> (shared: &mut S)
        ensures
            *shared == old(self)@.shared,
            final(self)@ == (RouterView { shared: *final(shared), ..old(self)@ }),
            final(self).routes() == old(self).routes(),
    {
        &mut self.shared
    }

    /// Replaces the shared state, returning the old one.
    pub fn replace_shared(&mut self, shared: S) -> (previous: S)
        ensures
            previous == old(self)@.shared,
            final(self)@ == (RouterView { shared, ..old(self)@ }),
            final(self).routes() == old(self).routes(),
    {
        let mut shared = shared;
        std::mem::swap(&mut self.shared, &mut shared);
        shared
    }

    /// Returns the id of a live screen, given its handle.
    pub fn id_of(&self, handle: ScreenHandle) -> (id: Option<&I>)
        ensures
            match self@.places().slot(handle) {
                Some(i) => id matches Some(x) && *x == self@.entries[i].id,
                None => id is None,
            },
    {
        match self.index_of_handle(handle) {
            Some(index) => Some(&self.entries[index].id),
            None => None,
        }
    }

    /// Returns the handle of a live screen, given its id.
    pub fn handle_of(&self, id: &I) -> (handle: Option<ScreenHandle>)
        ensures
            exact_ids::<I>() ==> match self@.places().position(*id) {
                Some(i) => handle == Some(self@.entries[i].handle),
                None => handle is None,
            },
    {
        match self.index_of(id) {
            Some(index) => Some(self.entries[index].handle),
            None => None,
        }
    }

    /// True if a screen with `id` is currently live.
    ///
    /// A screen added with [`Builder::screen`](crate::Builder::screen) is
    /// always live. A screen built via [`Builder::route`](crate::Builder::route) is live
    /// while its id is in [`history`](History).
    pub fn is_live(&self, id: &I) -> (live: bool)
        ensures
            exact_ids::<I>() ==> live == self@.places().holds(*id),
    {
        let index = self.index_of(id);
        proof {
            lemma_first_where(self@.entries, with_id(*id));
        }
        index.is_some()
    }

    /// True if the router can navigate to a screen with a given `id`: a
    /// screen for it is live, or a route builds one.
    ///
    /// Navigating to an `id` no route recognises is already ignored, so this is
    /// only needed to disable a link before the user presses it.
    ///
    /// This runs the routes and discards the screen they return, so keep them
    /// cheap.
    pub fn can_go_to(&self, id: &I) -> (can: bool)
        ensures
            exact_ids::<I>() && self@.places().holds(*id) ==> can,
            exact_ids::<I>() && self.routes().len() == 0 ==> can == self@.places().holds(*id),
            exact_ids::<I>() && !self@.places().holds(*id) ==> exists|screen: Option<T>|
                #[trigger] first_built(self.routes(), *id, screen) && can == screen is Some,
    {
        if self.is_live(id) {
            return true;
        }
        let screen = self.build(id);
        screen.is_some()
    }

    /// The number of live screens.
    pub fn len(&self) -> (len: usize)
        ensures
            len == self@.entries.len(),
    {
        self.entries.len()
    }

    /// True if the router holds no live screens.
    pub fn is_empty(&self) -> (empty: bool)
        ensures
            empty == (self@.entries.len() == 0),
    {
        self.entries.len() == 0
    }

    /// The handle of the live screen at `index`.
    pub fn handle_at(&self, index: usize) -> (handle: ScreenHandle)
        requires
            index < self@.entries.len(),
        ensures
            handle == self@.entries[index as int].handle,
    {
        self.entries[index].handle
    }

    /// The live screen at `index`.
    pub fn screen_at(&self, index: usize) -> (screen: &T)
        requires
            self@.wf(),
            index < self@.entries.len(),
        ensures
            *screen == self@.screens[index as int],
    {
        &self.screens[index]
    }

    /// Whether a handle is left for a screen that a route builds.
    pub fn has_free_handle(&self) -> (free: bool)
        ensures
            free == (self@.next < usize::MAX),
    {
        self.next < usize::MAX
    }

    /// Makes `built`, a screen that a route built for `id`, live under a new
    /// handle. Returns whether there is now a screen to show for `id`: that
    /// is, whether `built` is a screen.
    pub fn adopt(&mut self, id: &I, built: Option<T>) -> (shown: bool)
        requires
            old(self)@.wf(),
            old(self)@.next < usize::MAX,
        ensures
            final(self)@.wf(),
            final(self).routes() == old(self).routes(),
            final(self)@.shared == old(self)@.shared,
            final(self)@.history == old(self)@.history,
            match built {
                Some(screen) => {
                    &&& shown
                    &&& final(self)@.screens == old(self)@.screens.push(screen)
                    &&& final(self)@.entries.len() == old(self)@.entries.len() + 1
                    &&& final(self)@.entries.drop_last() == old(self)@.entries
                    &&& final(self)@.entries.last().handle == ScreenHandle::at(old(self)@.next)
                    &&& cloned(*id, final(self)@.entries.last().id)
                    &&& !final(self)@.entries.last().kept
                    &&& final(self)@.next == old(self)@.next + 1
                    &&& exact_ids::<I>() ==> final(self)@.places() == old(self)@.places().admitted(*id)
                },
                None => !shown && final(self)@ == old(self)@,
            },
    {
        match built {
            Some(screen) => {
                let handle = ScreenHandle::new(self.next);
                proof {
                    ScreenHandle::lemma_at(self.next as nat);
                }
                self.next = self.next + 1;
                self.entries.push(Entry { handle, id: id.clone(), kept: false });
                self.screens.push(screen);
                assert(self@.entries.drop_last() == old(self)@.entries);
                proof {
                    if exact_ids::<I>() {
                        let pushed = Entry { handle, id: *id, kept: false };
                        assert(cloned(*id, self@.entries.last().id));
                        assert(vstd::pervasive::strictly_cloned(*id, self@.entries.last().id)
                            ==> *id == self@.entries.last().id);
                        assert(self@.entries.last().id == *id);
                        assert(self@.entries =~= old(self)@.entries.push(pushed));
                        assert(self@.places() =~= old(self)@.places().admitted(*id));
                    }
                }
                true
            },
            None => false,
        }
    }

    /// Makes sure a screen for `id` is live, building one from a route when it
    /// is not. Returns `true` if the router can show its `id`.
    pub fn ensure(&mut self, id: &I) -> (shown: bool)
        requires
            old(self)@.wf(),
            old(self)@.next < usize::MAX,
        ensures
            final(self)@.wf(),
            final(self).routes() == old(self).routes(),
            final(self)@.shared == old(self)@.shared,
            final(self)@.history == old(self)@.history,
            final(self)@.next >= old(self)@.next,
            grew_from(final(self)@, old(self)@),
            final(self)@.entries.len() <= old(self)@.entries.len() + 1,
            final(self)@.next - old(self)@.next == final(self)@.entries.len() - old(self)@.entries.len(),
            !shown ==> final(self)@ == old(self)@ && first_built(old(self).routes(), *id, None),
            grown_for(old(self)@, final(self)@, old(self).routes(), *id),
            exact_ids::<I>() && old(self)@.places().holds(*id) ==> shown && final(self)@ == old(self)@,
            exact_ids::<I>() && !old(self)@.places().holds(*id) ==> exists|built: Option<T>| {
                &&& #[trigger] first_built(old(self).routes(), *id, built)
                &&& shown == built is Some
                &&& final(self)@.places() == old(self)@.places().prepared(*id, built is Some)
                &&& built is None ==> final(self)@ == old(self)@
                &&& built matches Some(screen) ==> final(self)@.screens == old(self)@.screens.push(screen)
            },
    {
        if self.is_live(id) {
            assert(self@.entries.subrange(0, self@.entries.len() as int) =~= self@.entries);
            assert(self@.screens.subrange(0, self@.screens.len() as int) =~= self@.screens);
            return true;
        }
        let built = self.build(id);
        let ghost answer = built;
        let shown = self.adopt(id, built);
        proof {
            assert(first_built(old(self).routes(), *id, answer));
            if let Some(screen) = answer {
                assert(adopted(old(self)@, self@, *id, screen));
            }
            ScreenHandle::lemma_at(old(self)@.next);
            assert(self@.entries.subrange(0, old(self)@.entries.len() as int) =~= old(self)@.entries);
            assert(self@.screens.subrange(0, old(self)@.screens.len() as int) =~= old(self)@.screens);
        }
        shown
    }

    /// Runs the `on_enter` hook (when `entering`) or the `on_exit` hook of the
    /// screen at `index`, if there is one, and returns what it hands back
    /// tagged with the screen's handle.
    fn hook(&mut self, index: Option<usize>, entering: bool) -> (effects: Vec<(ScreenHandle, Hook, T::Task)>)
        requires
            old(self)@.wf(),
            index matches Some(i) ==> i < old(self)@.entries.len(),
        ensures
            final(self)@.wf(),
            final(self).routes() == old(self).routes(),
            final(self)@.places() == old(self)@.places(),
            final(self)@.screens.len() == old(self)@.screens.len(),
            forall|j: int|
                0 <= j < old(self)@.screens.len() && found(index) != Some(j)
                    ==> #[trigger] final(self)@.screens[j] == old(self)@.screens[j],
            effects@.len() == old(self)@.places().handle_seq(found(index)).len(),
            handles(effects@) == old(self)@.places().handle_seq(found(index)),
            calls(effects@) == old(self)@.places().handle_at(
                found(index),
                if entering {
                    Hook::Enter
                } else {
                    Hook::Exit
                },
            ),
            index is None ==> final(self)@ == old(self)@,
            index matches Some(i) ==> if entering {
                old(self)@.screens[i as int].enters(
                    old(self)@.shared,
                    effects@[0].2,
                    final(self)@.screens[i as int],
                    final(self)@.shared,
                )
            } else {
                old(self)@.screens[i as int].exits(
                    old(self)@.shared,
                    effects@[0].2,
                    final(self)@.screens[i as int],
                    final(self)@.shared,
                )
            },
    {
        let mut effects = Vec::new();
        match index {
            Some(i) => {
                let handle = self.entries[i].handle;
                let ghost before_screen = self.screens@[i as int];
                let ghost before_shared = self.shared;
                let screen = &mut self.screens[i];
                let (hook, task) = if entering {
                    (Hook::Enter, screen.on_enter(&mut self.shared))
                } else {
                    (Hook::Exit, screen.on_exit(&mut self.shared))
                };
                effects.push((handle, hook, task));
                assert(handles(effects@) =~= seq![handle]);
                assert(calls(effects@) =~= seq![(handle, hook)]);
                proof {
                    if entering {
                        assert(before_screen.enters(before_shared, effects@[0].2, self.screens@[i as int], self.shared));
                    } else {
                        assert(before_screen.exits(before_shared, effects@[0].2, self.screens@[i as int], self.shared));
                    }
                }
            },
            None => {
                assert(handles(effects@) =~= Seq::<ScreenHandle>::empty());
                assert(calls(effects@) =~= Seq::<(ScreenHandle, Hook)>::empty());
            },
        }
        effects
    }

    /// Drops the screens built by a route whose id has left the history.
    fn prune(&mut self)
        requires
            old(self)@.wf(),
        ensures
            final(self)@.wf(),
            final(self).routes() == old(self).routes(),
            final(self)@.history == old(self)@.history,
            final(self)@.shared == old(self)@.shared,
            final(self)@.next == old(self)@.next,
            exact_ids::<I>() ==> final(self)@.entries == old(self)@.entries.filter(
                stays_with(old(self)@.history),
            ),
            final(self)@.keeps_screens_of(old(self)@, Seq::empty()),
    {
        let ghost first = self@;
        let ghost first_routes = self.routes();
        let ghost keep = stays_with(first.history);
        let mut rest_entries = Vec::new();
        let mut rest_screens = Vec::new();
        std::mem::swap(&mut rest_entries, &mut self.entries);
        std::mem::swap(&mut rest_screens, &mut self.screens);
        let ghost mut picked: Seq<int> = Seq::empty();
        assert(rest_entries@.len() == rest_entries.len());
        let mut i: usize = 0;
        while rest_entries.len() > 0
            invariant
                first.wf(),
                keep == stays_with(first.history),
                self.routes() == first_routes,
                self@.history == first.history,
                self@.shared == first.shared,
                self@.next == first.next,
                i + rest_entries@.len() == first.entries.len(),
                first.entries.len() <= usize::MAX,
                rest_entries@ == first.entries.subrange(i as int, first.entries.len() as int),
                rest_screens@ == first.screens.subrange(i as int, first.screens.len() as int),
                picked.len() == self@.entries.len(),
                self@.screens.len() == self@.entries.len(),
                forall|a: int, b: int| 0 <= a < b < picked.len() ==> picked[a] < picked[b],
                forall|a: int|
                    0 <= a < picked.len() ==> {
                        &&& 0 <= #[trigger] picked[a] < i
                        &&& self@.entries[a] == first.entries[picked[a]]
                        &&& self@.screens[a] == first.screens[picked[a]]
                    },
                exact_ids::<I>() ==> self@.entries == first.entries.take(i as int).filter(keep),
            decreases rest_entries@.len(),
        {
            let entry = rest_entries.remove(0);
            let screen = rest_screens.remove(0);
            proof {
                first.entries.take(i as int).lemma_filter_push(entry, keep);
                assert(first.entries.take(i as int).push(entry) == first.entries.take(i + 1));
            }
            let stays = entry.kept || self.history.contains(&entry.id);
            proof {
                if exact_ids::<I>() {
                    if self.history@.stack.contains(entry.id) {
                        let k = choose|k: int| 0 <= k < first.history.stack.len()
                            && first.history.stack[k] == entry.id;
                        assert(first.history.stack[k].eq_spec(&entry.id));
                    }
                    assert(stays == keep(entry));
                }
            }
            if stays {
                self.entries.push(entry);
                self.screens.push(screen);
                proof {
                    picked = picked.push(i as int);
                }
            }
            i = i + 1;
        }
        assert(first.entries.take(i as int) == first.entries);
        assert forall|k: int|
            0 <= k < self@.entries.len() && !Seq::<ScreenHandle>::empty().contains(
                #[trigger] self@.entries[k].handle,
            ) && self@.entries[k].handle.value() < first.next implies exists|m: int|
            0 <= m < first.entries.len() && #[trigger] first.entries[m] == self@.entries[k]
                && first.screens[m] == self@.screens[k] by {
            assert(first.entries[picked[k]] == self@.entries[k]);
        }
        assert forall|a: int, b: int| 0 <= a < b < self@.entries.len() implies #[trigger] self@.entries[a].handle.value()
            < #[trigger] self@.entries[b].handle.value() by {
            assert(self@.entries[a] == first.entries[picked[a]]);
            assert(self@.entries[b] == first.entries[picked[b]]);
        }
        assert forall|a: int| 0 <= a < self@.entries.len() implies #[trigger] self@.entries[a].handle.value() < self@.next by {
            assert(self@.entries[a] == first.entries[picked[a]]);
        }
    }

    /// Runs the `on_exit` hook of the screen at `exit`, drops the screens built
    /// by a route whose id has left the history, then runs the `on_enter`
    /// hook of the current screen.
    fn transition(&mut self, exit: Option<usize>) -> (effects: Vec<(ScreenHandle, Hook, T::Task)>)
        requires
            old(self)@.wf(),
            exit matches Some(i) ==> i < old(self)@.entries.len(),
        ensures
            final(self)@.wf(),
            final(self).routes() == old(self).routes(),
            final(self)@.history == old(self)@.history,
            final(self)@.next == old(self)@.next,
            hooks_ran(old(self)@, final(self)@, effects@),
            exact_ids::<I>() ==> final(self)@.places() == old(self)@.places().settled(old(self)@.history),
            exact_ids::<I>() ==> calls(effects@) == old(self)@.places().handle_at(found(exit), Hook::Exit)
                + final(self)@.places().handle_at(final(self)@.places().shown(), Hook::Enter),
            final(self)@.keeps_screens_of(old(self)@, handles(effects@)),
    {
        let ghost first = self@;
        let mut effects = self.hook(exit, false);
        let ghost exited = self@;
        self.prune();
        let ghost pruned = self@;
        let enter = self.index_of(self.history.current());
        let mut entered = self.hook(enter, true);
        let ghost entered_handles = handles(entered@);
        let ghost hs = handles(effects@) + handles(entered@);
        let ghost cs = calls(effects@) + calls(entered@);
        let ghost exited_effects = effects@;
        let ghost entered_effects = entered@;
        effects.append(&mut entered);
        assert(handles(effects@) =~= hs);
        assert(calls(effects@) =~= cs);
        proof {
            if exact_ids::<I>() {
                assert(self@.places() =~= first.places().settled(first.history));
            }
            assert forall|k: int|
                0 <= k < self@.entries.len() && !handles(effects@).contains(#[trigger] self@.entries[k].handle)
                    && self@.entries[k].handle.value() < first.next implies exists|m: int|
                0 <= m < first.entries.len() && #[trigger] first.entries[m] == self@.entries[k]
                    && first.screens[m] == self@.screens[k] by {
                if let Some(e) = enter {
                    assert(handles(effects@).contains(pruned.entries[e as int].handle)) by {
                        assert(entered_handles == pruned.places().handle_seq(Some(e as int)));
                        assert(entered_handles[0] == pruned.entries[e as int].handle);
                        assert(handles(effects@)[handles(effects@).len() - 1] == pruned.entries[e as int].handle);
                    }
                    assert(k != e);
                }
                assert(self@.screens[k] == pruned.screens[k]);
                assert(!Seq::<ScreenHandle>::empty().contains(pruned.entries[k].handle));
                let m = choose|m: int|
                    0 <= m < exited.entries.len() && #[trigger] exited.entries[m] == pruned.entries[k]
                        && exited.screens[m] == pruned.screens[k];
                if let Some(x) = exit {
                    assert(handles(effects@).contains(first.entries[x as int].handle)) by {
                        assert(handles(effects@)[0] == first.entries[x as int].handle);
                    }
                    assert(m != x);
                }
                assert(first.entries[m] == self@.entries[k]);
            }
            lemma_transition_ran_hooks(first, exited, pruned, self@, exit, enter, exited_effects, entered_effects);
            assert(effects@ == exited_effects + entered_effects);
        }
        effects
    }

    /// Shows `id`, building a screen for it from a route when none is live:
    /// goes to it, or, when `replacing`, replaces the current screen with it.
    fn show(&mut self, id: I, replacing: bool) -> (effects: Vec<(ScreenHandle, Hook, T::Task)>)
        requires
            old(self)@.wf(),
            old(self)@.next < usize::MAX,
        ensures
            final(self)@.wf(),
            final(self).routes() == old(self).routes(),
            final(self)@.next >= old(self)@.next,
            final(self)@.keeps_screens_of(old(self)@, handles(effects@)),
            exists|grown: RouterView<I, S, T>|
                #[trigger] grown_for(old(self)@, grown, old(self).routes(), id) && hooks_ran(grown, final(self)@, effects@),
            exact_ids::<I>() ==> old(self)@.places().routed_step(
                old(self).routes(),
                ScreenHandle::at(0),
                if replacing {
                    Action::<I, T::Task>::Replace(id)
                } else {
                    Action::<I, T::Task>::GoTo(id)
                },
                (final(self)@.places(), calls(effects@)),
            ),
    {
        let ghost first = self@;
        let ghost routes = self.routes();
        let ghost target = id;
        let shown = self.ensure(&id);
        let ghost mid = self@;
        let ghost built: Option<T> = if exact_ids::<I>() && !first.places().holds(id) {
            choose|b: Option<T>| {
                &&& #[trigger] first_built(routes, id, b)
                &&& shown == b is Some
                &&& self@.places() == first.places().prepared(id, b is Some)
            }
        } else {
            None
        };
        let ghost asked = if replacing {
            Action::<I, T::Task>::Replace(id)
        } else {
            Action::<I, T::Task>::GoTo(id)
        };
        if !shown {
            let effects = Vec::new();
            proof {
                lemma_grown_keeps_screens(self@, first, Seq::empty());
                lemma_no_hooks(mid, self@);
                assert(grown_for(first, mid, routes, target) && hooks_ran(mid, self@, effects@));
                assert(calls(effects@) =~= Seq::<(ScreenHandle, Hook)>::empty());
                if exact_ids::<I>() {
                    lemma_routed_step(first.places(), routes, ScreenHandle::at(0), asked, built, (self@.places(), calls(effects@)));
                }
            }
            return effects;
        }
        let exit = self.index_of(self.history.current());
        let changed = if replacing {
            self.history.replace(id)
        } else {
            self.history.go_to(id)
        };
        if !changed {
            let effects = Vec::new();
            proof {
                lemma_grown_keeps_screens(self@, first, Seq::empty());
                lemma_no_hooks(mid, self@);
                assert(grown_for(first, mid, routes, target) && hooks_ran(mid, self@, effects@));
                assert(calls(effects@) =~= Seq::<(ScreenHandle, Hook)>::empty());
                if exact_ids::<I>() {
                    lemma_routed_step(first.places(), routes, ScreenHandle::at(0), asked, built, (self@.places(), calls(effects@)));
                }
            }
            return effects;
        }
        let ghost moved = self@;
        let effects = self.transition(exit);
        proof {
            lemma_keeps_screens_through_growth(self@, moved, first, handles(effects@));
            lemma_hooks_ran_from(moved, mid, self@, effects@);
            assert(grown_for(first, mid, routes, target) && hooks_ran(mid, self@, effects@));
            if exact_ids::<I>() {
                let step = if replacing {
                    mid.history.replaced(target)
                } else {
                    mid.history.went_to(target)
                };
                lemma_prepared_holds_more(first.places(), target, built is Some);
                assert(mid.places() == first.places().prepared(target, built is Some));
                assert(mid.places().holds(target));
                assert(found(exit) == mid.places().shown());
                assert(moved.places() == (Places { history: step, ..mid.places() }));
                assert(mid.history.current() != target);
                assert((self@.places(), calls(effects@)) == mid.places().moved_to(step));
                lemma_routed_step(first.places(), routes, ScreenHandle::at(0), asked, built, (self@.places(), calls(effects@)));
            }
        }
        effects
    }

    fn back(&mut self) -> (effects: Vec<(ScreenHandle, Hook, T::Task)>)
        requires
            old(self)@.wf(),
        ensures
            final(self)@.wf(),
            final(self).routes() == old(self).routes(),
            final(self)@.next == old(self)@.next,
            final(self)@.keeps_screens_of(old(self)@, handles(effects@)),
            acted(old(self)@, final(self)@, old(self).routes(), ScreenHandle::at(0), Action::Back, effects@),
            exact_ids::<I>() ==> (final(self)@.places(), calls(effects@)) == old(self)@.places().back_step(),
    {
        let ghost first = self@;
        let exit = self.index_of(self.history.current());
        if !self.history.back() {
            let effects = Vec::new();
            proof {
                assert(self@ == first);
                lemma_grown_keeps_screens(first, first, Seq::empty());
                lemma_no_hooks(first, self@);
                assert(effects@ == Seq::<(ScreenHandle, Hook, T::Task)>::empty());
            }
            return effects;
        }
        let ghost moved = self@;
        let effects = self.transition(exit);
        proof {
            assert(grew_from(moved, first)) by {
                assert(moved.entries.subrange(0, first.entries.len() as int) =~= first.entries);
                assert(moved.screens.subrange(0, first.screens.len() as int) =~= first.screens);
            }
            lemma_keeps_screens_through_growth(self@, moved, first, handles(effects@));
            lemma_hooks_ran_from(moved, first, self@, effects@);
        }
        effects
    }

    /// Goes back to the root. When the root is already shown, no hook runs,
    /// but the screens above it are forgotten and those a route built dropped.
    fn reset(&mut self) -> (effects: Vec<(ScreenHandle, Hook, T::Task)>)
        requires
            old(self)@.wf(),
            old(self)@.next < usize::MAX,
        ensures
            final(self)@.wf(),
            final(self).routes() == old(self).routes(),
            final(self)@.next >= old(self)@.next,
            final(self)@.keeps_screens_of(old(self)@, handles(effects@)),
            acted(old(self)@, final(self)@, old(self).routes(), ScreenHandle::at(0), Action::Reset, effects@),
            exact_ids::<I>() ==> old(self)@.places().routed_step(
                old(self).routes(),
                ScreenHandle::at(0),
                Action::<I, T::Task>::Reset,
                (final(self)@.places(), calls(effects@)),
            ),
    {
        let ghost first = self@;
        let ghost routes = self.routes();
        let root = self.history.root().clone();
        proof {
            if exact_ids::<I>() {
                assert(vstd::pervasive::strictly_cloned(first.history.root, root) ==> first.history.root == root);
            }
        }
        let shown = self.ensure(&root);
        let ghost mid = self@;
        assert(cloned(first.history.root, root));
        let ghost built: Option<T> = if exact_ids::<I>() && !first.places().holds(root) {
            choose|b: Option<T>| {
                &&& #[trigger] first_built(routes, root, b)
                &&& shown == b is Some
                &&& self@.places() == first.places().prepared(root, b is Some)
            }
        } else {
            None
        };
        let ghost asked = Action::<I, T::Task>::Reset;
        if !shown {
            let effects = Vec::new();
            proof {
                lemma_grown_keeps_screens(self@, first, Seq::empty());
                lemma_no_hooks(mid, self@);
                assert(grown_for(first, mid, routes, root) && hooks_ran(mid, self@, effects@));
                assert(calls(effects@) =~= Seq::<(ScreenHandle, Hook)>::empty());
                if exact_ids::<I>() {
                    lemma_routed_step(first.places(), routes, ScreenHandle::at(0), asked, built, (self@.places(), calls(effects@)));
                }
            }
            return effects;
        }
        let exit = self.index_of(self.history.current());
        let changed = self.history.reset();
        let ghost moved = self@;
        proof {
            if exact_ids::<I>() {
                let c = moved.history.current();
                assert(cloned(first.history.root, c));
                assert(vstd::pervasive::strictly_cloned(first.history.root, c) ==> first.history.root == c);
                assert(moved.history.stack =~= seq![first.history.root]);
                assert(moved.history == mid.history.with_stack(seq![first.history.root]));
            }
            assert(grew_from(moved, first)) by {
                assert(moved.entries == mid.entries);
                assert(moved.screens == mid.screens);
            }
        }
        if !changed {
            self.prune();
            let effects = Vec::new();
            proof {
                lemma_grown_keeps_screens(moved, first, Seq::empty());
                lemma_keeps_screens_through_growth(self@, moved, first, Seq::empty());
                lemma_no_hooks(mid, self@);
                assert(grown_for(first, mid, routes, root) && hooks_ran(mid, self@, effects@));
                assert(calls(effects@) =~= Seq::<(ScreenHandle, Hook)>::empty());
                if exact_ids::<I>() {
                    assert(mid.history.current() == first.history.root);
                    assert(self@.places() =~= mid.places().settled(moved.history));
                    lemma_routed_step(first.places(), routes, ScreenHandle::at(0), asked, built, (self@.places(), calls(effects@)));
                }
            }
            return effects;
        }
        let effects = self.transition(exit);
        proof {
            lemma_keeps_screens_through_growth(self@, moved, first, handles(effects@));
            lemma_hooks_ran_from(moved, mid, self@, effects@);
            assert(grown_for(first, mid, routes, root) && hooks_ran(mid, self@, effects@));
            if exact_ids::<I>() {
                lemma_routed_step(first.places(), routes, ScreenHandle::at(0), asked, built, (self@.places(), calls(effects@)));
            }
        }
        effects
    }

    /// Does what the screen at `handle` asked for with `action`: runs its
    /// task, tagged with `handle`, or moves the history and runs the hooks
    /// of the screens that leave and enter.
    pub fn act(&mut self, handle: ScreenHandle, action: Action<I, T::Task>) -> (effects: Vec<(ScreenHandle, Hook, T::Task)>)
        requires
            old(self)@.wf(),
            action is GoTo || action is Replace || action is Reset ==> old(self)@.next < usize::MAX,
        ensures
            final(self)@.wf(),
            final(self).routes() == old(self).routes(),
            final(self)@.next >= old(self)@.next,
            final(self)@.keeps_screens_of(old(self)@, handles(effects@)),
            acted(old(self)@, final(self)@, old(self).routes(), handle, action, effects@),
            exact_ids::<I>() && old(self)@.places().all_live() ==> final(self)@.places().all_live(),
            exact_ids::<I>() && old(self)@.places().all_live() && old(self)@.places().tidy()
                ==> final(self)@.places().tidy(),
            exact_ids::<I>() ==> old(self)@.places().routed_step(
                old(self).routes(),
                handle,
                action,
                (final(self)@.places(), calls(effects@)),
            ),
    {
        let ghost first = self@;
        let ghost given = action;
        proof {
            lemma_grown_keeps_screens(first, first, Seq::empty());
        }
        let ghost routes = self.routes();
        let effects = match action {
            Action::Nothing => {
                let effects = Vec::new();
                assert(calls(effects@) =~= Seq::<(ScreenHandle, Hook)>::empty());
                effects
            },
            Action::Run(task) => {
                let mut effects = Vec::new();
                effects.push((handle, Hook::Run, task));
                assert(handles(effects@) =~= seq![handle]);
                assert(calls(effects@) =~= seq![(handle, Hook::Run)]);
                proof {
                    lemma_grown_keeps_screens(first, first, handles(effects@));
                }
                effects
            },
            Action::GoTo(id) => self.show(id, false),
            Action::Back => self.back(),
            Action::Replace(id) => self.show(id, true),
            Action::Reset => self.reset(),
        };
        proof {
            if exact_ids::<I>() {
                let outcome = (self@.places(), calls(effects@));
                match given {
                    Action::GoTo(id) => {
                        lemma_routed_any_handle(first.places(), routes, ScreenHandle::at(0), handle, given, outcome);
                    },
                    Action::Replace(id) => {
                        lemma_routed_any_handle(first.places(), routes, ScreenHandle::at(0), handle, given, outcome);
                    },
                    Action::Reset => {
                        lemma_routed_any_handle(first.places(), routes, ScreenHandle::at(0), handle, given, outcome);
                    },
                    _ => {},
                }
                if first.places().all_live() {
                    lemma_routed_keeps_all_live(first.places(), routes, handle, given, outcome);
                    if first.places().tidy() {
                        lemma_routed_keeps_tidy(first.places(), routes, handle, given, outcome);
                    }
                }
            }
        }
        effects
    }

    /// Runs [`ScreenHooks::on_enter`] for the current screen.
    ///
    /// [`Builder::build`](crate::Builder::build) already does this for the root.
    /// Call again only if you need to manually re‑enter.
    pub fn enter(&mut self) -> (effects: Vec<(ScreenHandle, Hook, T::Task)>)
        requires
            old(self)@.wf(),
        ensures
            final(self)@.wf(),
            final(self).routes() == old(self).routes(),
            final(self)@.places() == old(self)@.places(),
            effects@.len() <= 1,
            final(self)@.keeps_screens_of(old(self)@, handles(effects@)),
            forall|i: int| 0 <= i < effects@.len() ==> (#[trigger] effects@[i]).1 is Enter,
            hooks_ran(old(self)@, final(self)@, effects@),
            exact_ids::<I>() ==> calls(effects@) == old(self)@.places().handle_at(old(self)@.places().shown(), Hook::Enter),
    {
        let ghost first = self@;
        let index = self.index_of(self.history.current());
        let effects = self.hook(index, true);
        proof {
            assert(calls(effects@).len() == effects@.len());
            if let Some(e) = index {
                assert(calls(effects@)[0] == (effects@[0].0, effects@[0].1));
                lemma_own_handle(first, e as int);
                lemma_own_handle(self@, e as int);
            }
            assert(hooks_ran_through(first, self@, effects@, vstd::pervasive::arbitrary(), first.shared));
            assert forall|k: int|
                0 <= k < self@.entries.len() && !handles(effects@).contains(#[trigger] self@.entries[k].handle)
                    && self@.entries[k].handle.value() < first.next implies exists|m: int|
                0 <= m < first.entries.len() && #[trigger] first.entries[m] == self@.entries[k]
                    && first.screens[m] == self@.screens[k] by {
                if let Some(e) = index {
                    assert(handles(effects@)[0] == first.entries[e as int].handle);
                    assert(k != e);
                }
                assert(first.entries[k] == self@.entries[k]);
            }
        }
        effects
    }

    /// Handles a router message.
    ///
    /// [`Message::Screen`] is delivered to the screen at its handle, whether or
    /// not it is the one shown, and the router then does what the screen
    /// asked for (see [`Router::act`]). A message for a handle that no live
    /// screen has is dropped.
    pub fn update(&mut self, message: Message<I, T::Message>) -> (effects: Vec<(ScreenHandle, Hook, T::Task)>)
        requires
            old(self)@.wf(),
            !(message is Back) ==> old(self)@.next < usize::MAX,
        ensures
            final(self).routes() == old(self).routes(),
            handled(old(self)@, final(self)@, old(self).routes(), message, effects@),
    {
        let ghost before = self@;
        let ghost routes = self.routes();
        let ghost anywhere = ScreenHandle::at(0);
        match message {
            Message::GoTo(id) => {
                let effects = self.show(id, false);
                proof {
                    if exact_ids::<I>() && before.places().all_live() {
                        let asked = Action::<I, T::Task>::GoTo(id);
                        lemma_routed_keeps_all_live(before.places(), routes, anywhere, asked, (self@.places(), calls(effects@)));
                        if before.places().tidy() {
                            lemma_routed_keeps_tidy(before.places(), routes, anywhere, asked, (self@.places(), calls(effects@)));
                        }
                    }
                }
                effects
            },
            Message::Back => {
                let effects = self.back();
                proof {
                    if exact_ids::<I>() && before.places().all_live() {
                        lemma_step_keeps_all_live(before.places(), anywhere, Action::<I, T::Task>::Back, false);
                        if before.places().tidy() {
                            lemma_step_keeps_tidy(before.places(), anywhere, Action::<I, T::Task>::Back, false);
                        }
                    }
                }
                effects
            },
            Message::Replace(id) => {
                let effects = self.show(id, true);
                proof {
                    if exact_ids::<I>() && before.places().all_live() {
                        let asked = Action::<I, T::Task>::Replace(id);
                        lemma_routed_keeps_all_live(before.places(), routes, anywhere, asked, (self@.places(), calls(effects@)));
                        if before.places().tidy() {
                            lemma_routed_keeps_tidy(before.places(), routes, anywhere, asked, (self@.places(), calls(effects@)));
                        }
                    }
                }
                effects
            },
            Message::Reset => {
                let effects = self.reset();
                proof {
                    if exact_ids::<I>() && before.places().all_live() {
                        let asked = Action::<I, T::Task>::Reset;
                        lemma_routed_keeps_all_live(before.places(), routes, anywhere, asked, (self@.places(), calls(effects@)));
                        if before.places().tidy() {
                            lemma_routed_keeps_tidy(before.places(), routes, anywhere, asked, (self@.places(), calls(effects@)));
                        }
                    }
                }
                effects
            },
            Message::Screen(handle, payload) => {
                let ghost first = self@;
                let index = self.index_of_handle(handle);
                match index {
                    None => {
                        let effects = Vec::new();
                        proof {
                            lemma_grown_keeps_screens(first, first, seq![handle]);
                            assert(handles(effects@) =~= Seq::<ScreenHandle>::empty());
                        }
                        effects
                    },
                    Some(i) => {
                        proof {
                            lemma_first_where(first.entries, with_handle::<I>(handle));
                        }
                        let ghost before_screen = self.screens@[i as int];
                        let ghost before_shared = self.shared;
                        let ghost given = payload;
                        let screen = &mut self.screens[i];
                        let action = screen.update(&mut self.shared, payload);
                        let ghost delivered = self@;
                        let ghost asked = action;
                        let effects = self.act(handle, action);
                        proof {
                            let landed = delivered.screens[i as int];
                            assert(delivered.screens =~= first.screens.update(i as int, landed));
                            assert(delivered == first.with_screen(i as int, landed, delivered.shared));
                            assert(delivered.places() == first.places());
                            assert(first.places().slot(handle) == Some(i as int));
                            assert(before_screen.answers(before_shared, given, asked, landed, delivered.shared));
                            assert(first.screens[i as int].answers(first.shared, given, asked, landed, delivered.shared)
                                && acted(first.with_screen(i as int, landed, delivered.shared), self@, routes, handle, asked, effects@)
                                && (exact_ids::<I>() ==> first.places().routed_step(routes, handle, asked, (self@.places(), calls(effects@)))));
                            let touched = seq![handle] + handles(effects@);
                            assert forall|k: int|
                                0 <= k < self@.entries.len() && !touched.contains(#[trigger] self@.entries[k].handle)
                                    && self@.entries[k].handle.value() < first.next implies exists|m: int|
                                0 <= m < first.entries.len() && #[trigger] first.entries[m] == self@.entries[k]
                                    && first.screens[m] == self@.screens[k] by {
                                assert(touched[0] == handle);
                                assert(!handles(effects@).contains(self@.entries[k].handle)) by {
                                    if handles(effects@).contains(self@.entries[k].handle) {
                                        let x = choose|x: int| 0 <= x < handles(effects@).len()
                                            && handles(effects@)[x] == self@.entries[k].handle;
                                        assert(touched[x + 1] == self@.entries[k].handle);
                                    }
                                }
                                let m = choose|m: int|
                                    0 <= m < delivered.entries.len() && #[trigger] delivered.entries[m] == self@.entries[k]
                                        && delivered.screens[m] == self@.screens[k];
                                assert(m != i);
                                assert(first.entries[m] == delivered.entries[m]);
                            }
                        }
                        effects
                    },
                }
            },
        }
    }

    /// Handles a router message for a router that is itself a screen of
    /// another router.
    ///
    /// [`Message::Back`] at the root of this router's history is passed outward
    /// as [`Action::Back`], untouched. Any other message is handled here, and
    /// what it hands back is returned as [`Action::Run`].
    pub fn update_nested<J>(&mut self, message: Message<I, T::Message>) -> (action: Action<J, Vec<(ScreenHandle, Hook, T::Task)>>)
        requires
            old(self)@.wf(),
            !(message is Back) ==> old(self)@.next < usize::MAX,
        ensures
            final(self)@.wf(),
            final(self).routes() == old(self).routes(),
            (message is Back && !old(self)@.history.can_go_back()) ==> action is Back && final(self)@ == old(self)@,
            !(message is Back && !old(self)@.history.can_go_back()) ==> (action matches Action::Run(effects)
                && handled(old(self)@, final(self)@, old(self).routes(), message, effects@)),
    {
        let at_root = match message {
            Message::Back => !self.history.can_go_back(),
            _ => false,
        };
        if at_root {
            return Action::Back;
        }
        Action::Run(self.update(message))
    }

    /// The screen that the first route to recognise `id` builds for it.
    fn build(&self, id: &I) -> (screen: Option<T>)
        ensures
            self.routes().len() == 0 ==> screen is None,
            first_built(self.routes(), *id, screen),
    {
        let mut k: usize = 0;
        while k < self.routes.len()
            invariant
                k <= self.routes@.len(),
                forall|j: int| 0 <= j < k ==> #[trigger] self.routes@[j].builds(*id, None),
            decreases self.routes@.len() - k,
        {
            let screen = self.routes[k].build(id);
            if screen.is_some() {
                assert(self.routes@[k as int].builds(*id, screen));
                return screen;
            }
            k = k + 1;
        }
        None
    }
}

/// A search that finds something in a prefix finds the same in the whole.
pub proof fn lemma_prefix_first_where<A>(s: Seq<A>, p: spec_fn(A) -> bool, n: int)
    requires
        0 <= n <= s.len(),
        first_where(s.take(n), p) is Some,
    ensures
        first_where(s, p) == first_where(s.take(n), p),
    decreases s.len() - n,
{
    if n < s.len() {
        assert(s.take(n + 1).drop_last() == s.take(n));
        lemma_prefix_first_where(s, p, n + 1);
    } else {
        assert(s.take(n) == s);
    }
}

} // verus!
