use iced_router::{Action, Hook, Navigation, Route, Router, ScreenHooks};

#[derive(Debug, Clone, PartialEq, Eq)]
enum Id {
    Home,
    Settings,
    User { id: u64 },
}

#[derive(Debug, Clone)]
enum Event {}

struct Page;

impl ScreenHooks<Id, ()> for Page {
    type Message = Event;
    type Task = ();

    fn on_enter(&mut self, _shared: &mut ()) {}

    fn update(&mut self, _shared: &mut (), message: Event) -> Action<Id, ()> {
        match message {}
    }

    fn on_exit(&mut self, _shared: &mut ()) {}
}

struct Users;

impl Route<Id, Page> for Users {
    fn build(&self, id: &Id) -> Option<Page> {
        match id {
            Id::User { .. } => Some(Page),
            _ => None,
        }
    }
}

const NO_ROOT: &str = "a router needs a screen or a route for its root id";

#[test]
fn a_built_router_starts_at_its_root() {
    let (router, _) = Router::builder(Id::Home, ())
        .screen(Id::Home, Page)
        .screen(Id::Settings, Page)
        .build()
        .expect(NO_ROOT);

    assert_eq!(router.current(), &Id::Home);
    assert_eq!(router.len(), 2);
    assert_eq!(router.history().navigation(), Navigation::Stack);
}

#[test]
fn the_navigation_model_is_kept() {
    let (router, _) = Router::builder(Id::Home, ())
        .navigation(Navigation::Switch)
        .screen(Id::Home, Page)
        .build()
        .expect(NO_ROOT);

    assert_eq!(router.history().navigation(), Navigation::Switch);
}

#[test]
fn a_route_can_supply_the_root() {
    let (router, _) = Router::builder(Id::User { id: 1 }, ())
        .route(Box::new(Users))
        .build()
        .expect(NO_ROOT);

    assert_eq!(router.current(), &Id::User { id: 1 });
    assert_eq!(router.len(), 1);
}

#[test]
fn a_route_does_not_run_at_build_time() {
    let (router, _) = Router::builder(Id::Home, ())
        .screen(Id::Home, Page)
        .route(Box::new(Users))
        .build()
        .expect(NO_ROOT);

    assert_eq!(router.len(), 1);
    assert!(router.can_go_to(&Id::User { id: 3 }));
}

#[test]
fn the_same_id_is_only_added_once() {
    let (router, _) = Router::builder(Id::Home, ())
        .screen(Id::Home, Page)
        .screen(Id::Home, Page)
        .build()
        .expect(NO_ROOT);

    assert_eq!(router.len(), 1);
}

#[test]
#[should_panic(expected = "root")]
fn a_router_without_a_root_screen_is_refused() {
    let _ = Router::builder(Id::Home, ())
        .screen(Id::Settings, Page)
        .build()
        .expect(NO_ROOT);
}

// Further cases.

#[test]
fn building_enters_the_root_once() {
    let (router, effects) = Router::builder(Id::Home, ())
        .screen(Id::Settings, Page)
        .screen(Id::Home, Page)
        .build()
        .expect(NO_ROOT);

    let home = router.handle_of(&Id::Home).expect("home");
    assert_eq!(effects, vec![(home, Hook::Enter, ())]);
}

#[test]
fn the_limit_reaches_the_history() {
    let (mut router, _) = Router::builder(0u32, ())
        .limit(0)
        .route(Box::new(Numbers))
        .build()
        .expect(NO_ROOT);

    let _ = router.update(iced_router::Message::GoTo(5));

    assert_eq!(router.history().depth(), 1);
    assert_eq!(router.current(), &5);
    // The root left the history and was built by a route, so it was dropped.
    assert_eq!(router.len(), 1);
}

#[test]
fn a_router_without_a_root_is_not_built() {
    let built = Router::builder(Id::Home, ()).screen(Id::Settings, Page).build();

    assert!(built.is_none());
}

struct Numbers;

struct Number;

impl ScreenHooks<u32, ()> for Number {
    type Message = ();
    type Task = ();

    fn on_enter(&mut self, _shared: &mut ()) {}

    fn update(&mut self, _shared: &mut (), _message: ()) -> Action<u32, ()> {
        Action::Nothing
    }

    fn on_exit(&mut self, _shared: &mut ()) {}
}

impl Route<u32, Number> for Numbers {
    fn build(&self, _id: &u32) -> Option<Number> {
        Some(Number)
    }
}
