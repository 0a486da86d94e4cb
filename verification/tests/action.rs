use iced_router::Action;

#[derive(Debug, PartialEq)]
enum Id {
    Home,
    Settings,
}

#[test]
fn map_keeps_navigation() {
    let action: Action<Id, u32> = Action::GoTo(Id::Settings);

    assert!(matches!(
        action.map(|n: u32| n.to_string()),
        Action::GoTo(Id::Settings)
    ));
}

#[test]
fn map_id_rewrites_the_target() {
    let action: Action<u8, u32> = Action::Replace(1);

    assert!(matches!(
        action.map_id(|_id| Id::Home),
        Action::Replace(Id::Home)
    ));
}

#[test]
fn the_default_does_nothing() {
    let action: Action<Id, u32> = Action::default();

    assert!(action.is_none());
}

// Further cases.

#[test]
fn map_transforms_what_run_carries() {
    let action: Action<Id, u32> = Action::Run(7);

    assert!(matches!(action.map(|n: u32| n * 2), Action::Run(14)));
}

#[test]
fn map_id_leaves_back_and_reset_alone() {
    let back: Action<u8, u32> = Action::Back;
    let reset: Action<u8, u32> = Action::Reset;

    assert!(matches!(back.map_id(|_id| Id::Home), Action::Back));
    assert!(matches!(reset.map_id(|_id| Id::Home), Action::Reset));
    assert!(!Action::<u8, u32>::Back.is_none());
}
