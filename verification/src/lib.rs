//! Screen routing: a history of visited screens, and a router that keeps the
//! live screens, runs their hooks and drops the ones it no longer needs.

mod action;
mod builder;
mod history;
mod laws;
mod message;
mod navigation;
mod router;
mod screen;

pub use action::Action;
pub use builder::{other_than, Builder, BuilderView};
pub use history::{effective_limit, keep_newest, History, HistoryView, DEFAULT_LIMIT};
pub use laws::{
    lemma_back_stops_at_the_root, lemma_back_undoes_go_to, lemma_go_to_shows_target,
    lemma_navigation_runs_the_hooks, lemma_new_handle_is_fresh, lemma_prepared_holds_more,
    lemma_refused_move_runs_no_hooks, lemma_replace_keeps_depth, lemma_reset_returns_to_the_root,
    lemma_root_survives, lemma_settled_all_live, lemma_settled_is_tidy, lemma_settled_keeps_exactly,
    lemma_step_keeps_all_live, lemma_step_keeps_tidy, lemma_switch_is_one_deep, lemma_switch_never_goes_back,
    lemma_live_exactly_kept_or_in_history, lemma_later_handles_are_new, lemma_limit_is_kept_as_given,
    lemma_stack_grows_to_its_limit, lemma_go_to_runs_both_hooks, lemma_replace_runs_both_hooks,
    lemma_back_runs_both_hooks, lemma_reset_runs_both_hooks,
};
pub use message::Message;
pub use navigation::Navigation;
pub use router::{
    acted, adopted, calls, exact_ids, first_built, first_where, found, grew_from, grown_for, handled,
    handles, hooks_ran, hooks_ran_through, lemma_first_where, lemma_grown_keeps_screens, lemma_hooks_ran_from,
    lemma_no_hooks, lemma_own_handle, lemma_keeps_screens_through_growth, lemma_prefix_first_where,
    stays_with, with_handle, with_id, Entry, Places, Router, RouterView,
};
pub use screen::{Hook, Route, ScreenHandle, ScreenHooks};
