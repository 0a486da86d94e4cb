use crate::action::Action;
use crate::history::{keep_newest, HistoryView};
use crate::navigation::Navigation;
use crate::router::{lemma_first_where, lemma_prefix_first_where, stays_with, with_id, Entry, Places};
use crate::screen::{Hook, ScreenHandle};
use vstd::prelude::*;

verus! {

broadcast use vstd::seq_lib::group_seq_properties;

// Laws of a history.

/// A history that only navigates by [`Navigation::Switch`] is one screen deep,
/// and going back never changes it.
pub proof fn lemma_switch_is_one_deep<I>(history: HistoryView<I>)
    requires
        history.wf(),
        history.navigation == Navigation::Switch,
    ensures
        history.stack.len() == 1,
        !history.can_go_back(),
{
}

/// Going back undoes going to a new screen, as long as the history had room
/// for it (no screen was dropped for the limit).
pub proof fn lemma_back_undoes_go_to<I>(history: HistoryView<I>, id: I)
    requires
        history.wf(),
        history.navigation == Navigation::Stack,
        history.stack.len() < history.limit,
    ensures
        history.went_to(id).can_go_back(),
        history.went_to(id).went_back() == history,
{
    assert(history.went_to(id).went_back().stack =~= history.stack);
}

/// Going to a screen makes it the current one, keeps the root, the navigation
/// model and the limit, and keeps the history within its limit by dropping
/// the oldest screens only.
pub proof fn lemma_go_to_shows_target<I>(history: HistoryView<I>, id: I)
    requires
        history.wf(),
    ensures
        history.went_to(id).wf(),
        history.went_to(id).current() == id,
        history.went_to(id).root == history.root,
        history.went_to(id).navigation == history.navigation,
        history.went_to(id).limit == history.limit,
        history.navigation == Navigation::Stack ==> history.went_to(id).stack == keep_newest(
            history.stack.push(id),
            history.limit,
        ),
        history.navigation == Navigation::Stack && history.stack.len() < history.limit
            ==> history.went_to(id).stack.len() == history.stack.len() + 1,
{
}

/// Replacing the current screen keeps the depth of the history, and the
/// screen that was replaced is gone from where it stood.
pub proof fn lemma_replace_keeps_depth<I>(history: HistoryView<I>, id: I)
    requires
        history.wf(),
    ensures
        history.replaced(id).wf(),
        history.replaced(id).stack.len() == history.stack.len(),
        history.replaced(id).current() == id,
        history.replaced(id).stack.drop_last() == history.stack.drop_last(),
{
    assert(history.replaced(id).stack.drop_last() =~= history.stack.drop_last());
}

/// Going back stops at the root: a history one screen deep cannot go back.
pub proof fn lemma_back_stops_at_the_root<I>(history: HistoryView<I>)
    requires
        history.wf(),
        history.stack.len() == 1,
    ensures
        !history.can_go_back(),
{
}

/// Whatever a history does, its root stays where it is, so a reset can
/// always return to it, even when the limit dropped it from the screens.
pub proof fn lemma_root_survives<I>(history: HistoryView<I>, id: I, limit: nat)
    ensures
        history.went_to(id).root == history.root,
        history.went_back().root == history.root,
        history.replaced(id).root == history.root,
        history.limited(limit).root == history.root,
        history.with_stack(seq![history.root]).current() == history.root,
{
}

// Laws of a router.

/// Settling on a history whose every screen is live leaves every screen of
/// that history live: only screens built by a route whose id left the
/// history are dropped.
pub proof fn lemma_settled_all_live<I>(mid: Places<I>, moved: HistoryView<I>)
    requires
        forall|k: int| 0 <= k < moved.stack.len() ==> mid.holds(#[trigger] moved.stack[k]),
    ensures
        mid.settled(moved).all_live(),
{
    let kept = mid.entries.filter(stays_with(moved));
    assert forall|k: int| 0 <= k < moved.stack.len() implies mid.settled(moved).holds(
        #[trigger] moved.stack[k],
    ) by {
        let id = moved.stack[k];
        assert(mid.holds(id));
        let i = choose|i: int| 0 <= i < mid.entries.len() && #[trigger] mid.entries[i].id == id;
        assert(moved.stack.contains(id));
        assert(stays_with(moved)(mid.entries[i]));
        mid.entries.lemma_filter_contains(stays_with(moved), i);
        let j = choose|j: int| 0 <= j < kept.len() && kept[j] == mid.entries[i];
        assert(kept[j].id == id);
        assert(mid.settled(moved).entries[j].id == id);
    }
}

/// A screen that a route builds adds to the live screens and takes none away.
pub proof fn lemma_prepared_holds_more<I>(places: Places<I>, id: I, built: bool)
    ensures
        forall|x: I| places.holds(x) ==> #[trigger] places.prepared(id, built).holds(x),
        places.prepared(id, built).history == places.history,
        built ==> places.prepared(id, built).holds(id),
{
    assert forall|x: I| places.holds(x) implies #[trigger] places.prepared(id, built).holds(x) by {
        let i = choose|i: int| 0 <= i < places.entries.len() && #[trigger] places.entries[i].id == x;
        assert(places.prepared(id, built).entries[i].id == x);
    }
    if built {
        let last = places.entries.len() as int;
        assert(places.prepared(id, built).entries[last].id == id);
    }
}

/// Whatever a screen asks for, a router whose history has only live screens
/// keeps it so: the screen it shows is always one it can draw.
pub proof fn lemma_step_keeps_all_live<I, M>(
    places: Places<I>,
    handle: ScreenHandle,
    action: Action<I, M>,
    built: bool,
)
    requires
        places.history.wf(),
        places.all_live(),
    ensures
        places.act_step(handle, action, built).0.all_live(),
{
    match action {
        Action::GoTo(id) => {
            let mid = places.prepared(id, built);
            lemma_prepared_holds_more(places, id, built);
            if !(!mid.holds(id) || mid.history.current() == id) {
                let moved = mid.history.went_to(id);
                assert forall|k: int| 0 <= k < moved.stack.len() implies mid.holds(#[trigger] moved.stack[k]) by {
                    let pushed = mid.history.stack.push(id);
                    if mid.history.navigation == Navigation::Stack {
                        let skip = if pushed.len() > mid.history.limit {
                            pushed.len() - mid.history.limit
                        } else {
                            0
                        };
                        assert(moved.stack[k] == pushed[k + skip]);
                        if k + skip < mid.history.stack.len() {
                            assert(places.holds(places.history.stack[k + skip]));
                        }
                    }
                }
                lemma_settled_all_live(mid, moved);
            } else {
                assert forall|k: int| 0 <= k < mid.history.stack.len() implies mid.holds(
                    #[trigger] mid.history.stack[k],
                ) by {
                    assert(places.holds(places.history.stack[k]));
                }
            }
        },
        Action::Replace(id) => {
            let mid = places.prepared(id, built);
            lemma_prepared_holds_more(places, id, built);
            if !(!mid.holds(id) || mid.history.current() == id) {
                let moved = mid.history.replaced(id);
                assert forall|k: int| 0 <= k < moved.stack.len() implies mid.holds(#[trigger] moved.stack[k]) by {
                    if k < mid.history.stack.len() - 1 {
                        assert(places.holds(places.history.stack[k]));
                    }
                }
                lemma_settled_all_live(mid, moved);
            } else {
                assert forall|k: int| 0 <= k < mid.history.stack.len() implies mid.holds(
                    #[trigger] mid.history.stack[k],
                ) by {
                    assert(places.holds(places.history.stack[k]));
                }
            }
        },
        Action::Reset => {
            let root = places.history.root;
            let mid = places.prepared(root, built);
            lemma_prepared_holds_more(places, root, built);
            if mid.holds(root) {
                let moved = mid.history.with_stack(seq![root]);
                assert forall|k: int| 0 <= k < moved.stack.len() implies mid.holds(#[trigger] moved.stack[k]) by {}
                lemma_settled_all_live(mid, moved);
            } else {
                assert forall|k: int| 0 <= k < mid.history.stack.len() implies mid.holds(
                    #[trigger] mid.history.stack[k],
                ) by {
                    assert(places.holds(places.history.stack[k]));
                }
            }
        },
        Action::Back => {
            if places.history.can_go_back() {
                let moved = places.history.went_back();
                assert forall|k: int| 0 <= k < moved.stack.len() implies places.holds(#[trigger] moved.stack[k]) by {
                    assert(places.holds(places.history.stack[k]));
                }
                lemma_settled_all_live(places, moved);
            }
        },
        _ => {},
    }
}

/// A request for an id that no live screen has and no route built a screen
/// for is refused: nothing changes and no hook runs. So is a request for the
/// screen already shown.
pub proof fn lemma_refused_move_runs_no_hooks<I>(places: Places<I>, id: I)
    ensures
        !places.holds(id) ==> places.go_to_step(id, false) == (places, Seq::<(ScreenHandle, Hook)>::empty()),
        !places.holds(id) ==> places.replace_step(id, false) == (places, Seq::<(ScreenHandle, Hook)>::empty()),
        places.history.current() == id ==> places.go_to_step(id, false) == (
            places,
            Seq::<(ScreenHandle, Hook)>::empty(),
        ),
{
}

/// Moving from the shown screen to another live screen runs the `on_exit`
/// hook of the screen that was shown, then the `on_enter` hook of the screen
/// shown now, and shows the requested id.
pub proof fn lemma_navigation_runs_the_hooks<I>(places: Places<I>, id: I)
    requires
        places.history.wf(),
        places.all_live(),
        places.holds(id),
        places.history.current() != id,
    ensures
        ({
            let (after, hooks) = places.go_to_step(id, false);
            &&& after.history == places.history.went_to(id)
            &&& after.history.current() == id
            &&& places.shown() is Some
            &&& after.shown() is Some
            &&& hooks == seq![
                (places.entries[places.shown().unwrap()].handle, Hook::Exit),
                (after.entries[after.shown().unwrap()].handle, Hook::Enter),
            ]
        }),
{
    let (after, hooks) = places.go_to_step(id, false);
    let current = places.history.current();
    assert(places.holds(places.history.stack[places.history.stack.len() - 1]));
    lemma_first_where(places.entries, with_id(current));
    if places.shown() is None {
        let i = choose|i: int| 0 <= i < places.entries.len() && #[trigger] places.entries[i].id == current;
        assert(with_id(current)(places.entries[i]));
    }
    lemma_step_keeps_all_live(places, ScreenHandle::at(0), Action::<I, ()>::GoTo(id), false);
    lemma_go_to_shows_target(places.history, id);
    assert(after.all_live());
    assert(after.holds(after.history.stack[after.history.stack.len() - 1]));
    lemma_first_where(after.entries, with_id(id));
    if after.shown() is None {
        let i = choose|i: int| 0 <= i < after.entries.len() && #[trigger] after.entries[i].id == id;
        assert(with_id(id)(after.entries[i]));
    }
    assert(hooks =~= seq![
        (places.entries[places.shown().unwrap()].handle, Hook::Exit),
        (after.entries[after.shown().unwrap()].handle, Hook::Enter),
    ]);
}

/// After a move, a screen stays live exactly when it is kept (it was given
/// when the router was made) or its id is still in the history: a screen a
/// route built is dropped once its id leaves the history.
pub proof fn lemma_settled_keeps_exactly<I>(places: Places<I>, moved: HistoryView<I>)
    ensures
        forall|i: int|
            0 <= i < places.entries.len() && (places.entries[i].kept || moved.stack.contains(
                places.entries[i].id,
            )) ==> #[trigger] places.settled(moved).entries.contains(places.entries[i]),
        forall|j: int|
            0 <= j < places.settled(moved).entries.len() ==> {
                &&& (#[trigger] places.settled(moved).entries[j]).kept || moved.stack.contains(
                    places.settled(moved).entries[j].id,
                )
                &&& places.entries.contains(places.settled(moved).entries[j])
            },
{
    let keep = stays_with(moved);
    assert forall|i: int|
        0 <= i < places.entries.len() && (places.entries[i].kept || moved.stack.contains(
            places.entries[i].id,
        )) implies #[trigger] places.settled(moved).entries.contains(places.entries[i]) by {
        assert(keep(places.entries[i]));
        places.entries.lemma_filter_contains(keep, i);
    }
    assert forall|j: int| 0 <= j < places.settled(moved).entries.len() implies {
        &&& (#[trigger] places.settled(moved).entries[j]).kept || moved.stack.contains(
            places.settled(moved).entries[j].id,
        )
        &&& places.entries.contains(places.settled(moved).entries[j])
    } by {
        places.entries.lemma_filter_pred(keep, j);
        places.entries.lemma_filter_contains_rev(keep, places.settled(moved).entries[j]);
    }
}

/// The handle a route's new screen gets belongs to no live screen, and a
/// router never makes a handle from a number it used before: so a handle is
/// never given out twice.
pub proof fn lemma_new_handle_is_fresh<I>(places: Places<I>, id: I)
    requires
        places.next <= usize::MAX,
        forall|i: int|
            0 <= i < places.entries.len() ==> #[trigger] places.entries[i].handle.value() < places.next,
    ensures
        places.admitted(id).entries.last().handle.value() == places.next,
        places.admitted(id).next == places.next + 1,
        forall|i: int|
            0 <= i < places.entries.len() ==> #[trigger] places.entries[i].handle
                != places.admitted(id).entries.last().handle,
{
    ScreenHandle::lemma_at(places.next);
}

/// A router that navigates by [`Navigation::Switch`] never goes back.
pub proof fn lemma_switch_never_goes_back<I>(places: Places<I>)
    requires
        places.history.wf(),
        places.history.navigation == Navigation::Switch,
    ensures
        places.back_step() == (places, Seq::<(ScreenHandle, Hook)>::empty()),
{
}

/// A reset to a live root leaves the router one screen deep, at its root.
pub proof fn lemma_reset_returns_to_the_root<I>(places: Places<I>)
    requires
        places.history.wf(),
        places.holds(places.history.root),
    ensures
        places.reset_step(false).0.history.stack == seq![places.history.root],
        places.reset_step(false).0.history.current() == places.history.root,
{

}

/// Settling on a history drops every screen that a route built whose id left
/// it, so every live screen is kept or in the history.
pub proof fn lemma_settled_is_tidy<I>(places: Places<I>, moved: HistoryView<I>)
    ensures
        places.settled(moved).tidy(),
{
    lemma_settled_keeps_exactly(places, moved);
}

/// A router whose history has only live screens, and whose live screens are
/// kept or in the history, stays so whatever a screen asks for.
pub proof fn lemma_step_keeps_tidy<I, M>(
    places: Places<I>,
    handle: ScreenHandle,
    action: Action<I, M>,
    built: bool,
)
    requires
        places.history.wf(),
        places.all_live(),
        places.tidy(),
        built ==> places.may_build(action),
    ensures
        places.act_step(handle, action, built).0.tidy(),
{
    let current = places.history.current();
    assert(places.holds(places.history.stack[places.history.stack.len() - 1]));
    match action {
        Action::GoTo(id) => {
            let mid = places.prepared(id, built);
            if !mid.holds(id) || mid.history.current() == id {
                if built {
                    lemma_prepared_holds_more(places, id, built);
                }
            } else {
                lemma_settled_is_tidy(mid, mid.history.went_to(id));
            }
        },
        Action::Replace(id) => {
            let mid = places.prepared(id, built);
            if !mid.holds(id) || mid.history.current() == id {
                if built {
                    lemma_prepared_holds_more(places, id, built);
                }
            } else {
                lemma_settled_is_tidy(mid, mid.history.replaced(id));
            }
        },
        Action::Reset => {
            let root = places.history.root;
            let mid = places.prepared(root, built);
            if mid.holds(root) {
                lemma_settled_is_tidy(mid, mid.history.with_stack(seq![root]));
            }
        },
        Action::Back => {
            if places.history.can_go_back() {
                lemma_settled_is_tidy(places, places.history.went_back());
            }
        },
        _ => {},
    }
}

/// In a router whose history has only live screens, and whose live screens
/// are kept or in the history, a screen for `id` is live exactly when a kept
/// screen (one given when the router was made) has `id`, or `id` is in the
/// history.
pub proof fn lemma_live_exactly_kept_or_in_history<I>(places: Places<I>, id: I)
    requires
        places.all_live(),
        places.tidy(),
    ensures
        places.holds(id) <==> (exists|i: int|
            0 <= i < places.entries.len() && #[trigger] places.entries[i].id == id && places.entries[i].kept)
            || places.history.stack.contains(id),
{
    if places.history.stack.contains(id) {
        let k = choose|k: int| 0 <= k < places.history.stack.len() && places.history.stack[k] == id;
        assert(places.holds(places.history.stack[k]));
    }
}

/// A handle that a router makes after an earlier state, from a number at or
/// above the earlier state's `next`, belongs to no screen of the earlier
/// state: so a handle is never given to two screens, even one dropped since.
pub proof fn lemma_later_handles_are_new<I>(earlier: Places<I>, later: Places<I>)
    requires
        forall|i: int|
            0 <= i < earlier.entries.len() ==> #[trigger] earlier.entries[i].handle.value() < earlier.next,
    ensures
        forall|i: int, j: int|
            0 <= i < earlier.entries.len() && 0 <= j < later.entries.len()
                && later.entries[j].handle.value() >= earlier.next ==> #[trigger] earlier.entries[i].handle
                != #[trigger] later.entries[j].handle,
{
}

/// A history keeps the limit it is given, raised to 1 only when it is 0, and
/// a history no deeper than that limit loses no screen to it.
pub proof fn lemma_limit_is_kept_as_given<I>(history: HistoryView<I>, limit: nat)
    ensures
        limit >= 1 ==> history.limited(limit).limit == limit,
        limit == 0 ==> history.limited(limit).limit == 1,
        limit >= 1 && history.stack.len() <= limit ==> history.limited(limit).stack == history.stack,
        history.limited(limit).root == history.root,
        history.limited(limit).navigation == history.navigation,
{
}

/// A stack history below its limit grows by one screen with each new screen:
/// it reaches its limit before it drops any.
pub proof fn lemma_stack_grows_to_its_limit<I>(history: HistoryView<I>, id: I)
    requires
        history.wf(),
        history.navigation == Navigation::Stack,
        history.stack.len() < history.limit,
    ensures
        history.went_to(id).stack == history.stack.push(id),
{
    assert(history.went_to(id).stack =~= history.stack.push(id));
}

/// Moving the places `mid`, whose history has only live screens, to a history
/// `moved` whose screens are all live in `mid`: the `on_exit` hook of the
/// screen shown before runs, then the `on_enter` hook of a screen for the
/// current id of `moved`.
proof fn lemma_move_runs_both_hooks<I>(mid: Places<I>, moved: HistoryView<I>)
    requires
        mid.history.wf(),
        mid.all_live(),
        moved.stack.len() > 0,
        moved.stack.last() == moved.current(),
        forall|k: int| 0 <= k < moved.stack.len() ==> mid.holds(#[trigger] moved.stack[k]),
    ensures
        mid.shown() is Some,
        mid.entries[mid.shown()->0].id == mid.history.current(),
        mid.settled(moved).shown() is Some,
        mid.settled(moved).entries[mid.settled(moved).shown()->0].id == moved.current(),
        mid.settled(moved).history == moved,
        mid.entries.contains(mid.settled(moved).entries[mid.settled(moved).shown()->0]),
        mid.moved_to(moved).1 == seq![
            (mid.entries[mid.shown()->0].handle, Hook::Exit),
            (mid.settled(moved).entries[mid.settled(moved).shown()->0].handle, Hook::Enter),
        ],
{
    let current = mid.history.current();
    assert(mid.holds(mid.history.stack[mid.history.stack.len() - 1]));
    lemma_first_where(mid.entries, with_id(current));
    if mid.shown() is None {
        let i = choose|i: int| 0 <= i < mid.entries.len() && #[trigger] mid.entries[i].id == current;
        assert(with_id(current)(mid.entries[i]));
    }
    let after = mid.settled(moved);
    lemma_settled_all_live(mid, moved);
    let to = moved.current();
    assert(after.holds(moved.stack[moved.stack.len() - 1]));
    lemma_first_where(after.entries, with_id(to));
    if after.shown() is None {
        let i = choose|i: int| 0 <= i < after.entries.len() && #[trigger] after.entries[i].id == to;
        assert(with_id(to)(after.entries[i]));
    }
    lemma_settled_keeps_exactly(mid, moved);
    assert(mid.moved_to(moved).1 =~= seq![
        (mid.entries[mid.shown()->0].handle, Hook::Exit),
        (after.entries[after.shown()->0].handle, Hook::Enter),
    ]);
}

/// A route's screen for an id that had none is the only screen for that id:
/// the places with it show the same screen as before, and any screen they
/// hold for the id is the new one, under the new handle.
proof fn lemma_built_screen_is_the_new_one<I>(places: Places<I>, id: I, moved: HistoryView<I>)
    requires
        places.history.wf(),
        places.all_live(),
        !places.holds(id),
    ensures
        places.admitted(id).shown() == places.shown(),
        places.admitted(id).all_live(),
        forall|x: Entry<I>|
            places.admitted(id).entries.contains(x) && x.id == id ==> x.handle == ScreenHandle::at(places.next),
{
    let mid = places.admitted(id);
    let current = places.history.current();
    assert(places.holds(places.history.stack[places.history.stack.len() - 1]));
    lemma_first_where(places.entries, with_id(current));
    if places.shown() is None {
        let i = choose|i: int| 0 <= i < places.entries.len() && #[trigger] places.entries[i].id == current;
        assert(with_id(current)(places.entries[i]));
    }
    assert(mid.entries.take(places.entries.len() as int) =~= places.entries);
    lemma_prefix_first_where(mid.entries, with_id(current), places.entries.len() as int);
    lemma_prepared_holds_more(places, id, true);
    assert forall|k: int| 0 <= k < mid.history.stack.len() implies mid.holds(#[trigger] mid.history.stack[k]) by {
        assert(places.holds(places.history.stack[k]));
    }
    assert forall|x: Entry<I>| mid.entries.contains(x) && x.id == id implies x.handle == ScreenHandle::at(
        places.next,
    ) by {
        let i = choose|i: int| 0 <= i < mid.entries.len() && mid.entries[i] == x;
        if i < places.entries.len() {
            assert(places.entries[i].id == id);
        }
    }
}

/// Going to an id other than the current one, in a router whose history has
/// only live screens, runs the `on_exit` hook of the screen shown before and
/// then the `on_enter` hook of a screen for the id, which is shown now: the
/// live one, or, when a route built one because none was live, the new
/// screen under the new handle.
pub proof fn lemma_go_to_runs_both_hooks<I>(places: Places<I>, id: I, built: bool)
    requires
        places.history.wf(),
        places.all_live(),
        places.history.current() != id,
        built ==> !places.holds(id),
        !built ==> places.holds(id),
    ensures
        ({
            let (after, hooks) = places.go_to_step(id, built);
            &&& places.shown() is Some
            &&& after.shown() is Some
            &&& after.history == places.history.went_to(id)
            &&& after.entries[after.shown()->0].id == id
            &&& built ==> after.entries[after.shown()->0].handle == ScreenHandle::at(places.next)
            &&& hooks == seq![
                (places.entries[places.shown()->0].handle, Hook::Exit),
                (after.entries[after.shown()->0].handle, Hook::Enter),
            ]
        }),
{
    let mid = places.prepared(id, built);
    let moved = mid.history.went_to(id);
    lemma_prepared_holds_more(places, id, built);
    lemma_go_to_shows_target(places.history, id);
    if built {
        lemma_built_screen_is_the_new_one(places, id, moved);
    } else {
        assert(mid == places);
    }
    lemma_step_keeps_all_live(places, ScreenHandle::at(0), Action::<I, ()>::GoTo(id), built);
    assert forall|k: int| 0 <= k < moved.stack.len() implies mid.holds(#[trigger] moved.stack[k]) by {
        assert(mid.settled(moved).holds(moved.stack[k]));
        let i = choose|i: int|
            0 <= i < mid.settled(moved).entries.len() && #[trigger] mid.settled(moved).entries[i].id
                == moved.stack[k];
        lemma_settled_keeps_exactly(mid, moved);
        assert(mid.entries.contains(mid.settled(moved).entries[i]));
    }
    lemma_move_runs_both_hooks(mid, moved);
    let after = mid.settled(moved);
    let entered = after.entries[after.shown()->0];
    assert(mid.entries.contains(entered));
    if built {
        assert(entered.handle == ScreenHandle::at(places.next));
        assert(0 <= places.shown()->0 < places.entries.len()) by {
            lemma_first_where(places.entries, with_id(places.history.current()));
        }
        assert(mid == places.admitted(id));
        assert(mid.shown() == places.shown());
        assert(mid.entries[places.shown()->0] == places.entries[places.shown()->0]);
    }
    assert(mid.entries[mid.shown()->0] == places.entries[places.shown()->0]);
    assert(places.go_to_step(id, built) == mid.moved_to(moved));
}

/// Replacing the current screen by another id, in a router whose history has
/// only live screens, keeps the depth, runs the `on_exit` hook of the screen
/// shown before and then the `on_enter` hook of a screen for the id, which is
/// shown now: the live one, or the new screen a route built for it.
pub proof fn lemma_replace_runs_both_hooks<I>(places: Places<I>, id: I, built: bool)
    requires
        places.history.wf(),
        places.all_live(),
        places.history.current() != id,
        built ==> !places.holds(id),
        !built ==> places.holds(id),
    ensures
        ({
            let (after, hooks) = places.replace_step(id, built);
            &&& places.shown() is Some
            &&& after.shown() is Some
            &&& after.history == places.history.replaced(id)
            &&& after.history.stack.len() == places.history.stack.len()
            &&& after.entries[after.shown()->0].id == id
            &&& built ==> after.entries[after.shown()->0].handle == ScreenHandle::at(places.next)
            &&& hooks == seq![
                (places.entries[places.shown()->0].handle, Hook::Exit),
                (after.entries[after.shown()->0].handle, Hook::Enter),
            ]
        }),
{
    let mid = places.prepared(id, built);
    let moved = mid.history.replaced(id);
    lemma_prepared_holds_more(places, id, built);
    if built {
        lemma_built_screen_is_the_new_one(places, id, moved);
    } else {
        assert(mid == places);
    }
    assert forall|k: int| 0 <= k < moved.stack.len() implies mid.holds(#[trigger] moved.stack[k]) by {
        if k < mid.history.stack.len() - 1 {
            assert(places.holds(places.history.stack[k]));
        }
    }
    lemma_move_runs_both_hooks(mid, moved);
    let after = mid.settled(moved);
    let entered = after.entries[after.shown()->0];
    assert(mid.entries.contains(entered));
    if built {
        assert(entered.handle == ScreenHandle::at(places.next));
        assert(0 <= places.shown()->0 < places.entries.len()) by {
            lemma_first_where(places.entries, with_id(places.history.current()));
        }
        assert(mid == places.admitted(id));
        assert(mid.shown() == places.shown());
        assert(mid.entries[places.shown()->0] == places.entries[places.shown()->0]);
    }
    assert(mid.entries[mid.shown()->0] == places.entries[places.shown()->0]);
    assert(places.replace_step(id, built) == mid.moved_to(moved));
}

/// Going back, when the history can, in a router whose history has only live
/// screens, runs the `on_exit` hook of the screen shown before, whether it
/// was kept or built by a route, and then the `on_enter` hook of the screen
/// returned to.
pub proof fn lemma_back_runs_both_hooks<I>(places: Places<I>)
    requires
        places.history.wf(),
        places.all_live(),
        places.history.can_go_back(),
    ensures
        ({
            let (after, hooks) = places.back_step();
            &&& places.shown() is Some
            &&& after.shown() is Some
            &&& after.history == places.history.went_back()
            &&& after.entries[after.shown()->0].id == places.history.stack[places.history.stack.len() - 2]
            &&& hooks == seq![
                (places.entries[places.shown()->0].handle, Hook::Exit),
                (after.entries[after.shown()->0].handle, Hook::Enter),
            ]
        }),
{
    let moved = places.history.went_back();
    assert forall|k: int| 0 <= k < moved.stack.len() implies places.holds(#[trigger] moved.stack[k]) by {
        assert(places.holds(places.history.stack[k]));
    }
    lemma_move_runs_both_hooks(places, moved);
}

/// Resetting a router whose history has only live screens, from a screen
/// other than the root, leaves the root alone in the history and runs the
/// `on_exit` hook of the screen shown before and then the `on_enter` hook of
/// the root's screen: the live one, or the new screen a route built for it.
pub proof fn lemma_reset_runs_both_hooks<I>(places: Places<I>, built: bool)
    requires
        places.history.wf(),
        places.all_live(),
        places.history.current() != places.history.root,
        built ==> !places.holds(places.history.root),
        !built ==> places.holds(places.history.root),
    ensures
        ({
            let (after, hooks) = places.reset_step(built);
            &&& places.shown() is Some
            &&& after.shown() is Some
            &&& after.history.stack == seq![places.history.root]
            &&& after.entries[after.shown()->0].id == places.history.root
            &&& built ==> after.entries[after.shown()->0].handle == ScreenHandle::at(places.next)
            &&& hooks == seq![
                (places.entries[places.shown()->0].handle, Hook::Exit),
                (after.entries[after.shown()->0].handle, Hook::Enter),
            ]
        }),
{
    let root = places.history.root;
    let mid = places.prepared(root, built);
    let moved = mid.history.with_stack(seq![root]);
    lemma_prepared_holds_more(places, root, built);
    if built {
        lemma_built_screen_is_the_new_one(places, root, moved);
    } else {
        assert(mid == places);
    }
    assert forall|k: int| 0 <= k < moved.stack.len() implies mid.holds(#[trigger] moved.stack[k]) by {}
    lemma_move_runs_both_hooks(mid, moved);
    let after = mid.settled(moved);
    let entered = after.entries[after.shown()->0];
    assert(mid.entries.contains(entered));
    if built {
        assert(entered.handle == ScreenHandle::at(places.next));
        assert(0 <= places.shown()->0 < places.entries.len()) by {
            lemma_first_where(places.entries, with_id(places.history.current()));
        }
        assert(mid == places.admitted(root));
        assert(mid.shown() == places.shown());
        assert(mid.entries[places.shown()->0] == places.entries[places.shown()->0]);
    }
    assert(mid.entries[mid.shown()->0] == places.entries[places.shown()->0]);
    assert(places.reset_step(built) == mid.moved_to(moved));
}

} // verus!
