use iced_router::{Action, Hook, Message, Navigation, Route, Router, ScreenHooks};

#[derive(Debug, Clone, PartialEq, Eq)]
enum Id {
    Home,
    Settings,
    User { id: u64 },
}

#[derive(Debug, Clone, PartialEq)]
enum Event {
    Go(Id),
    Leave,
    Home,
}

#[derive(Default)]
struct Log {
    entered: Vec<String>,
    exited: Vec<String>,
}

struct Page(String);

impl ScreenHooks<Id, Log> for Page {
    type Message = Event;
    type Task = ();

    fn on_enter(&mut self, log: &mut Log) {
        log.entered.push(self.0.clone());
    }

    fn update(&mut self, _log: &mut Log, message: Event) -> Action<Id, ()> {
        match message {
            Event::Go(id) => Action::GoTo(id),
            Event::Leave => Action::Back,
            Event::Home => Action::Reset,
        }
    }

    fn on_exit(&mut self, log: &mut Log) {
        log.exited.push(self.0.clone());
    }
}

struct Users;

impl Route<Id, Page> for Users {
    fn build(&self, id: &Id) -> Option<Page> {
        match id {
            Id::User { id } => Some(Page(format!("user {id}"))),
            _ => None,
        }
    }
}

fn router(navigation: Navigation) -> Router<Id, Log, Page> {
    let (mut router, _) = Router::builder(Id::Home, Log::default())
        .navigation(navigation)
        .screen(Id::Home, Page(String::from("home")))
        .screen(Id::Settings, Page(String::from("settings")))
        .route(Box::new(Users))
        .build()
        .expect("a router needs a screen or a route for its root id");

    // Forget the root's `on_enter`, so each test starts from a clean log.
    router.shared_mut().entered.clear();

    router
}

fn send(router: &mut Router<Id, Log, Page>, id: &Id, event: Event) {
    let handle = router.handle_of(id).expect("the screen is live");

    let _ = router.update(Message::Screen(handle, event));
}

#[test]
fn a_screen_can_navigate() {
    let mut router = router(Navigation::Stack);

    send(&mut router, &Id::Home, Event::Go(Id::Settings));

    assert_eq!(router.current(), &Id::Settings);
}

#[test]
fn navigating_runs_the_hooks() {
    let mut router = router(Navigation::Stack);

    send(&mut router, &Id::Home, Event::Go(Id::Settings));

    assert_eq!(router.shared().entered, vec![String::from("settings")]);
    assert_eq!(router.shared().exited, vec![String::from("home")]);
}

#[test]
fn a_refused_move_runs_no_hooks() {
    let mut router = router(Navigation::Stack);

    send(&mut router, &Id::Home, Event::Leave);

    assert_eq!(router.current(), &Id::Home);
    assert!(router.shared().entered.is_empty());
    assert!(router.shared().exited.is_empty());
}

#[test]
fn an_unknown_screen_is_not_visited() {
    let (mut router, _) = Router::builder(Id::Home, Log::default())
        .screen(Id::Home, Page(String::from("home")))
        .build()
        .expect("a router needs a screen or a route for its root id");

    let _ = router.update(Message::GoTo(Id::Settings));

    assert_eq!(router.current(), &Id::Home);
}

#[test]
fn a_message_for_a_screen_that_is_not_shown_is_handled() {
    let mut router = router(Navigation::Stack);

    send(&mut router, &Id::Home, Event::Go(Id::Settings));
    send(&mut router, &Id::Home, Event::Go(Id::User { id: 7 }));

    assert_eq!(router.current(), &Id::User { id: 7 });
}

#[test]
fn a_route_builds_a_screen_on_entry() {
    let mut router = router(Navigation::Stack);

    assert_eq!(router.len(), 2);

    send(&mut router, &Id::Home, Event::Go(Id::User { id: 7 }));

    assert_eq!(router.len(), 3);
    assert_eq!(router.shared().entered, vec![String::from("user 7")]);
}

#[test]
fn a_routed_screen_is_dropped_when_it_leaves_the_history() {
    let mut router = router(Navigation::Stack);

    send(&mut router, &Id::Home, Event::Go(Id::User { id: 7 }));

    assert_eq!(router.len(), 3);

    send(&mut router, &Id::User { id: 7 }, Event::Leave);

    assert_eq!(router.len(), 2);
    assert_eq!(router.current(), &Id::Home);
    assert_eq!(
        router.shared().exited,
        vec![String::from("home"), String::from("user 7")]
    );
}

#[test]
fn a_routed_screen_lives_while_it_is_in_the_history() {
    let mut router = router(Navigation::Stack);

    send(&mut router, &Id::Home, Event::Go(Id::User { id: 7 }));

    let handle = router.handle_of(&Id::User { id: 7 }).expect("the screen");

    send(&mut router, &Id::User { id: 7 }, Event::Go(Id::Settings));

    assert_eq!(router.id_of(handle), Some(&Id::User { id: 7 }));
}

#[test]
fn two_arguments_are_two_screens() {
    let mut router = router(Navigation::Stack);

    send(&mut router, &Id::Home, Event::Go(Id::User { id: 7 }));
    send(
        &mut router,
        &Id::User { id: 7 },
        Event::Go(Id::User { id: 9 }),
    );

    assert_eq!(router.len(), 4);
    assert_eq!(router.history().depth(), 3);
}

#[test]
fn an_address_is_never_given_out_twice() {
    let mut router = router(Navigation::Stack);

    send(&mut router, &Id::Home, Event::Go(Id::User { id: 7 }));

    let first = router.handle_of(&Id::User { id: 7 }).expect("the screen");

    send(&mut router, &Id::User { id: 7 }, Event::Leave);
    send(&mut router, &Id::Home, Event::Go(Id::User { id: 7 }));

    let second = router.handle_of(&Id::User { id: 7 }).expect("the screen");

    assert_ne!(first, second);
    assert_eq!(router.id_of(first), None);
}

#[test]
fn router_reset_returns_to_the_root() {
    let mut router = router(Navigation::Stack);

    send(&mut router, &Id::Home, Event::Go(Id::Settings));
    send(&mut router, &Id::Settings, Event::Home);

    assert_eq!(router.current(), &Id::Home);
    assert_eq!(router.history().depth(), 1);
}

#[test]
fn switch_never_goes_back() {
    let mut router = router(Navigation::Switch);

    send(&mut router, &Id::Home, Event::Go(Id::Settings));
    send(&mut router, &Id::Settings, Event::Leave);

    assert_eq!(router.current(), &Id::Settings);
}

#[test]
fn a_kept_screen_survives_a_switch() {
    let mut router = router(Navigation::Switch);

    send(&mut router, &Id::Home, Event::Go(Id::Settings));

    // Home left the history, but it was added with `screen`, so it is kept.
    assert_eq!(router.len(), 2);
    assert!(router.is_live(&Id::Home));
}

#[test]
fn a_route_is_reachable_before_it_is_built() {
    let router = router(Navigation::Stack);

    assert!(!router.is_live(&Id::User { id: 7 }));
    assert!(router.can_go_to(&Id::User { id: 7 }));
}

#[test]
fn the_shared_state_can_be_swapped() {
    let mut router = router(Navigation::Stack);

    send(&mut router, &Id::Home, Event::Go(Id::Settings));

    let previous = router.replace_shared(Log::default());

    assert!(router.shared().exited.is_empty());
    assert_eq!(previous.exited, vec![String::from("home")]);
}

// Further cases.

#[test]
fn navigation_hands_back_the_hooks_in_order() {
    let mut router = router(Navigation::Stack);
    let home = router.handle_of(&Id::Home).expect("home");
    let settings = router.handle_of(&Id::Settings).expect("settings");

    let effects = router.update(Message::GoTo(Id::Settings));

    assert_eq!(effects, vec![(home, Hook::Exit, ()), (settings, Hook::Enter, ())]);
}

#[test]
fn a_refused_move_hands_back_nothing() {
    let mut router = router(Navigation::Stack);

    assert!(router.update(Message::Back).is_empty());
    assert!(router.update(Message::GoTo(Id::Home)).is_empty());
    assert_eq!(router.history().depth(), 1);
}

#[test]
fn a_message_for_a_dropped_screen_is_ignored() {
    let mut router = router(Navigation::Stack);
    send(&mut router, &Id::Home, Event::Go(Id::User { id: 7 }));
    let user = router.handle_of(&Id::User { id: 7 }).expect("the screen");
    send(&mut router, &Id::User { id: 7 }, Event::Leave);

    let effects = router.update(Message::Screen(user, Event::Go(Id::Settings)));

    assert!(effects.is_empty());
    assert_eq!(router.current(), &Id::Home);
}

#[test]
fn a_run_action_is_tagged_with_its_screen() {
    let mut router = router(Navigation::Stack);
    let home = router.handle_of(&Id::Home).expect("home");

    let effects = router.act(home, Action::Run(()));

    assert_eq!(effects, vec![(home, Hook::Run, ())]);
    assert_eq!(router.current(), &Id::Home);
}

#[test]
fn replace_swaps_the_current_screen() {
    let mut router = router(Navigation::Stack);
    send(&mut router, &Id::Home, Event::Go(Id::Settings));

    let _ = router.update(Message::Replace(Id::User { id: 3 }));

    assert_eq!(router.current(), &Id::User { id: 3 });
    assert_eq!(router.history().depth(), 2);
    assert_eq!(router.shared().exited, vec![String::from("home"), String::from("settings")]);
}

#[test]
fn a_nested_router_passes_back_only_at_its_root() {
    let mut router = router(Navigation::Stack);

    let at_root: Action<u8, _> = router.update_nested(Message::Back);
    assert!(matches!(at_root, Action::Back));

    send(&mut router, &Id::Home, Event::Go(Id::Settings));
    let inside: Action<u8, _> = router.update_nested(Message::Back);
    assert!(matches!(inside, Action::Run(_)));
    assert_eq!(router.current(), &Id::Home);
}

#[test]
fn handles_are_numbered_in_registration_order() {
    let router = router(Navigation::Stack);

    assert_eq!(router.handle_of(&Id::Home), Some(iced_router::ScreenHandle::new(0)));
    assert_eq!(router.handle_of(&Id::Settings), Some(iced_router::ScreenHandle::new(1)));
    assert_eq!(router.handle_at(1), iced_router::ScreenHandle::new(1));
    assert_eq!(router.index_of(&Id::Settings), Some(1));
    assert!(!router.is_empty());
}

#[test]
fn adopting_nothing_shows_nothing() {
    let mut router = router(Navigation::Stack);

    assert!(!router.adopt(&Id::User { id: 1 }, None));
    assert_eq!(router.len(), 2);
    assert!(router.adopt(&Id::User { id: 1 }, Some(Page(String::from("adopted")))));
    assert_eq!(router.len(), 3);
    assert_eq!(router.handle_of(&Id::User { id: 1 }), Some(iced_router::ScreenHandle::new(2)));
}

struct Counter {
    visits: u32,
}

impl ScreenHooks<u8, ()> for Counter {
    type Message = ();
    type Task = ();

    fn on_enter(&mut self, _shared: &mut ()) {
        self.visits += 1;
    }

    fn update(&mut self, _shared: &mut (), _message: ()) -> Action<u8, ()> {
        Action::Nothing
    }

    fn on_exit(&mut self, _shared: &mut ()) {}
}

#[test]
fn a_kept_screen_keeps_its_state_across_visits() {
    let (mut router, _) = Router::builder(0u8, ())
        .screen(0, Counter { visits: 0 })
        .screen(1, Counter { visits: 0 })
        .build()
        .expect("a router needs a screen or a route for its root id");

    let _ = router.update(Message::GoTo(1));
    let _ = router.update(Message::Back);
    let _ = router.update(Message::GoTo(1));

    let first = router.index_of(&0).expect("the root");
    let second = router.index_of(&1).expect("the second screen");
    assert_eq!(router.screen_at(first).visits, 2);
    assert_eq!(router.screen_at(second).visits, 2);
    assert_eq!(router.history().depth(), 2);
}

#[test]
fn the_shown_screen_is_always_live() {
    let mut router = router(Navigation::Stack);
    let messages = vec![
        Message::GoTo(Id::User { id: 1 }),
        Message::Replace(Id::User { id: 2 }),
        Message::GoTo(Id::Settings),
        Message::Back,
        Message::GoTo(Id::User { id: 3 }),
        Message::Reset,
        Message::GoTo(Id::User { id: 4 }),
        Message::Back,
    ];

    for message in messages {
        let _ = router.update(message);
        assert!(router.is_live(router.current()));
    }

    assert_eq!(router.current(), &Id::Home);
    // Every route-built screen left the history, so only the kept ones remain.
    assert_eq!(router.len(), 2);
}

struct Named(&'static str);

impl Route<Id, Page> for Named {
    fn build(&self, id: &Id) -> Option<Page> {
        match id {
            Id::User { .. } => Some(Page(String::from(self.0))),
            _ => None,
        }
    }
}

#[test]
fn routes_are_asked_in_order() {
    let (mut router, _) = Router::builder(Id::Home, Log::default())
        .screen(Id::Home, Page(String::from("home")))
        .route(Box::new(Named("first")))
        .route(Box::new(Named("second")))
        .build()
        .expect("a router needs a screen or a route for its root id");

    let _ = router.update(Message::GoTo(Id::User { id: 1 }));

    assert_eq!(router.shared().entered, vec![String::from("home"), String::from("first")]);
}

#[test]
fn reset_at_the_root_runs_no_hooks_but_drops_the_rest() {
    let mut router = router(Navigation::Stack);
    send(&mut router, &Id::Home, Event::Go(Id::User { id: 7 }));
    send(&mut router, &Id::User { id: 7 }, Event::Go(Id::Home));
    router.shared_mut().entered.clear();
    router.shared_mut().exited.clear();

    let effects = router.update(Message::Reset);

    assert!(effects.is_empty());
    assert_eq!(router.current(), &Id::Home);
    assert_eq!(router.history().depth(), 1);
    assert!(!router.is_live(&Id::User { id: 7 }));
    assert!(router.shared().entered.is_empty());
    assert!(router.shared().exited.is_empty());
}

#[test]
fn ensure_builds_a_screen_with_a_fresh_handle() {
    let mut router = router(Navigation::Stack);

    assert!(router.ensure(&Id::User { id: 5 }));
    assert_eq!(router.len(), 3);
    assert_eq!(router.handle_of(&Id::User { id: 5 }), Some(iced_router::ScreenHandle::new(2)));
    assert!(router.shared().entered.is_empty());
    assert!(router.ensure(&Id::Settings));
    assert_eq!(router.len(), 3);
}

#[test]
fn entering_again_runs_on_enter_once_on_the_shown_screen() {
    let mut router = router(Navigation::Stack);
    let home = router.handle_of(&Id::Home).expect("the root is live");

    let effects = router.enter();

    assert_eq!(effects.len(), 1);
    assert_eq!(effects[0].0, home);
    assert_eq!(effects[0].1, Hook::Enter);
    assert_eq!(router.shared().entered, vec![String::from("home")]);
    assert!(router.shared().exited.is_empty());
    assert_eq!(router.current(), &Id::Home);
}

#[test]
fn handles_order_as_their_numbers() {
    let first = iced_router::ScreenHandle::new(1);
    let second = iced_router::ScreenHandle::new(2);

    assert!(first < second);
    assert!(second > first);
    assert_eq!(first.partial_cmp(&second), Some(std::cmp::Ordering::Less));
    assert_eq!(second.cmp(&first), std::cmp::Ordering::Greater);
    assert_eq!(first.cmp(&iced_router::ScreenHandle::new(1)), std::cmp::Ordering::Equal);
}
