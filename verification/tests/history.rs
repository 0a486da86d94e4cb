use iced_router::{History, Navigation};

fn stack() -> History<&'static str> {
    History::new("home", Navigation::Stack)
}

fn switch() -> History<&'static str> {
    History::new("home", Navigation::Switch)
}

#[test]
fn starts_at_the_root() {
    let history = stack();

    assert_eq!(history.current(), &"home");
    assert_eq!(history.depth(), 1);
    assert!(!history.can_go_back());
}

#[test]
fn stack_pushes() {
    let mut history = stack();

    assert!(history.go_to("settings"));
    assert_eq!(history.current(), &"settings");
    assert_eq!(history.depth(), 2);
    assert!(history.can_go_back());
}

#[test]
fn stack_back_stops_at_the_root() {
    let mut history = stack();

    history.go_to("settings");
    history.go_to("about");

    assert!(history.back());
    assert!(history.back());
    assert!(!history.back());
    assert_eq!(history.current(), &"home");
}

#[test]
fn going_to_the_current_screen_does_nothing() {
    let mut history = stack();

    history.go_to("settings");

    assert!(!history.go_to("settings"));
    assert_eq!(history.depth(), 2);
}

#[test]
fn a_screen_can_be_visited_twice() {
    let mut history = stack();

    history.go_to("settings");
    history.go_to("home");

    assert_eq!(history.depth(), 3);
    assert_eq!(history.current(), &"home");

    history.back();

    assert_eq!(history.current(), &"settings");
}

#[test]
fn switch_never_grows() {
    let mut history = switch();

    history.go_to("settings");
    history.go_to("about");

    assert_eq!(history.depth(), 1);
    assert_eq!(history.current(), &"about");
    assert!(!history.can_go_back());
    assert!(!history.back());
}

#[test]
fn replace_keeps_the_depth() {
    let mut history = stack();

    history.go_to("settings");

    assert!(history.replace("about"));
    assert_eq!(history.depth(), 2);
    assert_eq!(history.current(), &"about");

    history.back();

    assert_eq!(history.current(), &"home");
}

#[test]
fn replace_at_the_root_keeps_a_screen() {
    let mut history = stack();

    history.replace("settings");

    assert_eq!(history.depth(), 1);
    assert_eq!(history.current(), &"settings");
    assert!(!history.back());
}

#[test]
fn history_reset_returns_to_the_root() {
    let mut history = stack();

    history.go_to("settings");
    history.go_to("about");

    assert!(history.reset());
    assert_eq!(history.depth(), 1);
    assert_eq!(history.current(), &"home");
    assert!(!history.reset());
}

#[test]
fn reset_returns_to_the_root_after_replace() {
    let mut history = stack();

    history.replace("settings");

    assert!(history.reset());
    assert_eq!(history.current(), &"home");
}

#[test]
fn the_limit_drops_the_oldest_screens() {
    let mut history = History::new(0, Navigation::Stack).with_limit(3);

    for id in 1..=5 {
        history.go_to(id);
    }

    assert_eq!(history.depth(), 3);
    assert_eq!(history.iter().copied().collect::<Vec<_>>(), vec![3, 4, 5]);
}

#[test]
fn the_root_survives_the_limit() {
    let mut history = History::new(0, Navigation::Stack).with_limit(2);

    for id in 1..=5 {
        history.go_to(id);
    }

    assert!(history.reset());
    assert_eq!(history.current(), &0);
    assert_eq!(history.depth(), 1);
}

#[test]
fn a_limit_of_zero_keeps_one_screen() {
    let mut history = History::new("home", Navigation::Stack).with_limit(0);

    history.go_to("settings");

    assert_eq!(history.depth(), 1);
    assert_eq!(history.current(), &"settings");
}

// Further cases.

#[test]
fn the_default_limit_keeps_sixty_four_screens() {
    let mut history = History::new(0u32, Navigation::Stack);

    for id in 1..=100u32 {
        history.go_to(id);
    }

    assert_eq!(history.depth(), iced_router::DEFAULT_LIMIT);
    assert_eq!(history.depth(), 64);
    assert_eq!(history.current(), &100);
    assert_eq!(history.iter().next(), Some(&37));
    assert_eq!(history.root(), &0);
}

#[test]
fn back_undoes_go_to_below_the_limit() {
    let mut history = History::new(1u8, Navigation::Stack);
    history.go_to(2);
    let before: Vec<u8> = history.iter().copied().collect();

    assert!(history.go_to(3));
    assert!(history.back());

    assert_eq!(history.iter().copied().collect::<Vec<u8>>(), before);
}

#[test]
fn switch_go_to_replaces_the_whole_history() {
    let mut history = History::new("home", Navigation::Switch);

    assert!(history.go_to("settings"));
    assert_eq!(history.iter().copied().collect::<Vec<_>>(), vec!["settings"]);
    assert_eq!(history.navigation(), Navigation::Switch);
    assert_eq!(history.root(), &"home");
}

#[test]
fn replacing_with_the_current_screen_does_nothing() {
    let mut history = History::new("home", Navigation::Stack);
    history.go_to("settings");

    assert!(!history.replace("settings"));
    assert_eq!(history.iter().copied().collect::<Vec<_>>(), vec!["home", "settings"]);
}

#[test]
fn reset_at_the_root_does_nothing() {
    let mut history = History::new("home", Navigation::Stack);

    assert!(!history.reset());
    assert_eq!(history.depth(), 1);
}

#[test]
fn a_lower_limit_trims_an_existing_history() {
    let mut history = History::new(0, Navigation::Stack);
    for id in 1..=4 {
        history.go_to(id);
    }

    let history = history.with_limit(2);

    assert_eq!(history.iter().copied().collect::<Vec<_>>(), vec![3, 4]);
}

#[test]
fn navigation_defaults_to_stack() {
    assert_eq!(Navigation::default(), Navigation::Stack);
}

#[test]
fn reset_from_the_root_reports_no_change_but_forgets_the_rest() {
    let mut history = stack();

    history.go_to("settings");
    history.go_to("home");

    assert!(!history.reset());
    assert_eq!(history.depth(), 1);
    assert_eq!(history.current(), &"home");
}
