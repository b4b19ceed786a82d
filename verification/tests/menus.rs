use screenshot_mover::channel::EventChannel;
use screenshot_mover::menu::{
    menu, move_image, MenuError, MenuEvent, MenuRequest, MenuState, MenuStep, Move, MoveOutcome,
};

fn notes() -> Vec<String> {
    vec!["/notes/algebra".to_string(), "/notes/physics".to_string()]
}

fn s(text: &str) -> String {
    text.to_string()
}

fn channel_with(events: &[&str]) -> EventChannel<String> {
    let mut channel = EventChannel::new();
    for event in events {
        assert_eq!(channel.send(event.to_string()), Ok(()));
    }
    channel
}

fn listening(destination: &str, moving: Option<Move>) -> MenuState {
    MenuState::Listening(destination.to_string(), moving)
}

fn plain(state: MenuState) -> MenuStep {
    MenuStep { state, errors: Vec::new() }
}

fn refused(state: MenuState) -> MenuStep {
    MenuStep { state, errors: vec![MenuError::InvalidSelection] }
}

#[test]
fn workflow_starts_in_the_selection() {
    assert_eq!(MenuState::new(), MenuState::Selection);
    assert_eq!(MenuState::new().request(), MenuRequest::Select);
}

#[test]
fn each_state_has_its_request() {
    assert_eq!(MenuState::Selection.request(), MenuRequest::Select);
    assert_eq!(listening("/n", None).request(), MenuRequest::ConfirmOpt);
    assert_eq!(
        listening("/n", Some(Move::Naming(s("/s/a.png")))).request(),
        MenuRequest::Input(s("/s/a.png"))
    );
    assert_eq!(
        listening("/n", Some(Move::Confirming(s("/s/a.png"), s("/n/img/b.png")))).request(),
        MenuRequest::Confirm(s("/n/img/b.png"))
    );
    assert_eq!(
        listening("/n", Some(Move::Renaming(s("/s/a.png"), s("/n/img/b.png")))).request(),
        MenuRequest::Rename(s("/s/a.png"), s("/n/img/b.png"))
    );
    assert_eq!(MenuState::Stopped.request(), MenuRequest::Exit);
}

#[test]
fn valid_choice_listens_for_the_chosen_directory() {
    let mut channel = channel_with(&[]);
    let step = menu(MenuState::Selection, MenuEvent::Selected(Some(1)), &notes(), &mut channel);
    assert_eq!(step, plain(listening("/notes/physics", None)));
}

#[test]
fn valid_choice_turns_to_a_pending_event_at_once() {
    let mut channel = channel_with(&["/s/a.png", "/s/b.png"]);
    let step = menu(MenuState::Selection, MenuEvent::Selected(Some(0)), &notes(), &mut channel);
    assert_eq!(step, plain(listening("/notes/algebra", Some(Move::Naming(s("/s/a.png"))))));
    assert_eq!(channel.len(), 1);
}

#[test]
fn index_out_of_range_is_refused() {
    let mut channel = channel_with(&["/s/a.png"]);
    for index in [2usize, 3, usize::MAX] {
        let step = menu(MenuState::Selection, MenuEvent::Selected(Some(index)), &notes(), &mut channel);
        assert_eq!(step, refused(MenuState::Selection));
    }
    let step = menu(MenuState::Selection, MenuEvent::Selected(Some(0)), &Vec::new(), &mut channel);
    assert_eq!(step, refused(MenuState::Selection));
    assert_eq!(channel.len(), 1);
}

#[test]
fn no_choice_stops_the_workflow() {
    let mut channel = channel_with(&["/s/a.png"]);
    let step = menu(MenuState::Selection, MenuEvent::Selected(None), &notes(), &mut channel);
    assert_eq!(step, plain(MenuState::Stopped));
    assert_eq!(channel.len(), 1);
}

#[test]
fn answer_that_was_not_asked_for_is_refused() {
    let mut channel = channel_with(&["/s/a.png"]);
    let step = menu(MenuState::Selection, MenuEvent::Confirmed(true), &notes(), &mut channel);
    assert_eq!(step, refused(MenuState::Selection));
    let step = menu(listening("/n", None), MenuEvent::Selected(Some(0)), &notes(), &mut channel);
    assert_eq!(step, refused(listening("/n", None)));
    let step = menu(
        listening("/n", Some(Move::Naming(s("/s/x")))),
        MenuEvent::Continue(Some(true)),
        &notes(),
        &mut channel,
    );
    assert_eq!(step, refused(listening("/n", Some(Move::Naming(s("/s/x"))))));
    let step = menu(
        listening("/n", Some(Move::Renaming(s("/s/x"), s("/n/img/y")))),
        MenuEvent::Confirmed(true),
        &notes(),
        &mut channel,
    );
    assert_eq!(step, refused(listening("/n", Some(Move::Renaming(s("/s/x"), s("/n/img/y"))))));
    assert_eq!(channel.len(), 1);
}

#[test]
fn continue_takes_the_oldest_pending_event() {
    let mut channel = channel_with(&["/s/a.png", "/s/b.png"]);
    let step = menu(listening("/n", None), MenuEvent::Continue(Some(true)), &notes(), &mut channel);
    assert_eq!(step, plain(listening("/n", Some(Move::Naming(s("/s/a.png"))))));
    assert_eq!(channel.try_receive(), Ok(s("/s/b.png")));
}

#[test]
fn continue_with_nothing_pending_asks_again() {
    let mut channel = channel_with(&[]);
    let step = menu(listening("/n", None), MenuEvent::Continue(Some(true)), &notes(), &mut channel);
    assert_eq!(step, plain(listening("/n", None)));
}

#[test]
fn back_returns_to_the_selection() {
    let mut channel = channel_with(&["/s/a.png"]);
    let step = menu(listening("/n", None), MenuEvent::Continue(Some(false)), &notes(), &mut channel);
    assert_eq!(step, plain(MenuState::Selection));
    assert_eq!(channel.len(), 1);
}

#[test]
fn exit_stops_the_workflow() {
    let mut channel = channel_with(&["/s/a.png"]);
    let step = menu(listening("/n", None), MenuEvent::Continue(None), &notes(), &mut channel);
    assert_eq!(step, plain(MenuState::Stopped));
    assert_eq!(channel.len(), 1);
}

#[test]
fn stopped_stays_stopped() {
    let mut channel = channel_with(&["/s/a.png"]);
    let events = vec![
        MenuEvent::Selected(Some(0)),
        MenuEvent::Selected(None),
        MenuEvent::Named(s("x")),
        MenuEvent::Confirmed(true),
        MenuEvent::Renamed(Ok(())),
        MenuEvent::Continue(Some(true)),
    ];
    for event in events {
        let step = menu(MenuState::Stopped, event, &notes(), &mut channel);
        assert_eq!(step, plain(MenuState::Stopped));
    }
    assert_eq!(channel.len(), 1);
}

#[test]
fn dead_listener_stops_the_workflow() {
    let mut channel = channel_with(&[]);
    channel.drop_sender();
    let step = menu(listening("/n", None), MenuEvent::Continue(Some(true)), &notes(), &mut channel);
    assert_eq!(step, MenuStep { state: MenuState::Stopped, errors: vec![MenuError::ListenerDied] });
    let step = menu(MenuState::Selection, MenuEvent::Selected(Some(0)), &notes(), &mut channel);
    assert_eq!(step, MenuStep { state: MenuState::Stopped, errors: vec![MenuError::ListenerDied] });
}

#[test]
fn what_a_dead_listener_left_is_still_moved() {
    let mut channel = channel_with(&["/s/a.png"]);
    channel.drop_sender();
    let step = menu(listening("/n", None), MenuEvent::Continue(Some(true)), &notes(), &mut channel);
    assert_eq!(step, plain(listening("/n", Some(Move::Naming(s("/s/a.png"))))));
}

#[test]
fn name_gives_the_target_below_img() {
    let outcome = move_image(Move::Naming(s("/s/shot1.png")), &s("/notes/A"), MenuEvent::Named(s("foo.png")));
    assert_eq!(
        outcome,
        MoveOutcome::Asking(Move::Confirming(s("/s/shot1.png"), s("/notes/A/img/foo.png")))
    );
}

#[test]
fn target_is_the_plain_concatenation() {
    let outcome = move_image(Move::Naming(s("x")), &s(""), MenuEvent::Named(s("")));
    assert_eq!(outcome, MoveOutcome::Asking(Move::Confirming(s("x"), s("/img/"))));
    let outcome = move_image(Move::Naming(s("x")), &s("/n/"), MenuEvent::Named(s("sub/y.png")));
    assert_eq!(outcome, MoveOutcome::Asking(Move::Confirming(s("x"), s("/n//img/sub/y.png"))));
}

#[test]
fn yes_orders_the_renaming() {
    let outcome = move_image(
        Move::Confirming(s("/s/a.png"), s("/n/img/b.png")),
        &s("/n"),
        MenuEvent::Confirmed(true),
    );
    assert_eq!(outcome, MoveOutcome::Asking(Move::Renaming(s("/s/a.png"), s("/n/img/b.png"))));
}

#[test]
fn no_declines_the_move() {
    let outcome = move_image(
        Move::Confirming(s("/s/a.png"), s("/n/img/b.png")),
        &s("/n"),
        MenuEvent::Confirmed(false),
    );
    assert_eq!(outcome, MoveOutcome::Declined);
}

#[test]
fn renaming_ends_the_move() {
    let renaming = || Move::Renaming(s("/s/a.png"), s("/n/img/b.png"));
    assert_eq!(move_image(renaming(), &s("/n"), MenuEvent::Renamed(Ok(()))), MoveOutcome::Moved);
    assert_eq!(
        move_image(renaming(), &s("/n"), MenuEvent::Renamed(Err(s("cross-device link")))),
        MoveOutcome::Failed(MenuError::Rename(s("/s/a.png"), s("/n/img/b.png"), s("cross-device link")))
    );
}

#[test]
fn move_waits_for_its_own_answer() {
    assert_eq!(
        move_image(Move::Naming(s("/s/a")), &s("/n"), MenuEvent::Confirmed(true)),
        MoveOutcome::Unanswered(Move::Naming(s("/s/a")))
    );
    assert_eq!(
        move_image(Move::Confirming(s("/s/a"), s("/n/img/b")), &s("/n"), MenuEvent::Named(s("c"))),
        MoveOutcome::Unanswered(Move::Confirming(s("/s/a"), s("/n/img/b")))
    );
    assert_eq!(
        move_image(Move::Renaming(s("/s/a"), s("/n/img/b")), &s("/n"), MenuEvent::Selected(None)),
        MoveOutcome::Unanswered(Move::Renaming(s("/s/a"), s("/n/img/b")))
    );
}

#[test]
fn declined_move_turns_to_the_next_event() {
    let mut channel = channel_with(&["/s/b.png"]);
    let step = menu(
        listening("/n", Some(Move::Confirming(s("/s/a.png"), s("/n/img/x.png")))),
        MenuEvent::Confirmed(false),
        &notes(),
        &mut channel,
    );
    assert_eq!(step, plain(listening("/n", Some(Move::Naming(s("/s/b.png"))))));
    assert_eq!(channel.len(), 0);
}

#[test]
fn finished_move_with_nothing_pending_asks_whether_to_go_on() {
    let mut channel = channel_with(&[]);
    let step = menu(
        listening("/n", Some(Move::Renaming(s("/s/a.png"), s("/n/img/x.png")))),
        MenuEvent::Renamed(Ok(())),
        &notes(),
        &mut channel,
    );
    assert_eq!(step, plain(listening("/n", None)));
}

#[test]
fn failed_renaming_is_reported_and_the_workflow_goes_on() {
    let mut channel = channel_with(&["/s/b.png"]);
    let step = menu(
        listening("/n", Some(Move::Renaming(s("/s/a.png"), s("/n/img/x.png")))),
        MenuEvent::Renamed(Err(s("no such directory"))),
        &notes(),
        &mut channel,
    );
    assert_eq!(
        step,
        MenuStep {
            state: listening("/n", Some(Move::Naming(s("/s/b.png")))),
            errors: vec![MenuError::Rename(s("/s/a.png"), s("/n/img/x.png"), s("no such directory"))],
        }
    );
    assert_eq!(channel.len(), 0);
}

#[test]
fn failed_renaming_with_nothing_pending_asks_whether_to_go_on() {
    let mut channel = channel_with(&[]);
    let step = menu(
        listening("/n", Some(Move::Renaming(s("/s/a.png"), s("/n/img/x.png")))),
        MenuEvent::Renamed(Err(s("permission denied"))),
        &notes(),
        &mut channel,
    );
    assert_eq!(
        step,
        MenuStep {
            state: listening("/n", None),
            errors: vec![MenuError::Rename(s("/s/a.png"), s("/n/img/x.png"), s("permission denied"))],
        }
    );
}

#[test]
fn failed_renaming_and_dead_listener_are_both_reported() {
    let mut channel = channel_with(&[]);
    channel.drop_sender();
    let step = menu(
        listening("/n", Some(Move::Renaming(s("/s/a.png"), s("/n/img/x.png")))),
        MenuEvent::Renamed(Err(s("permission denied"))),
        &notes(),
        &mut channel,
    );
    assert_eq!(
        step,
        MenuStep {
            state: MenuState::Stopped,
            errors: vec![
                MenuError::Rename(s("/s/a.png"), s("/n/img/x.png"), s("permission denied")),
                MenuError::ListenerDied,
            ],
        }
    );
}

#[test]
fn destination_stays_through_a_whole_move() {
    let mut channel = channel_with(&["/s/a.png"]);
    let mut state = menu(MenuState::Selection, MenuEvent::Selected(Some(1)), &notes(), &mut channel).state;
    for event in [
        MenuEvent::Named(s("a.png")),
        MenuEvent::Confirmed(true),
        MenuEvent::Renamed(Ok(())),
        MenuEvent::Continue(Some(true)),
    ] {
        state = menu(state, event, &notes(), &mut channel).state;
        match &state {
            MenuState::Listening(destination, _) => assert_eq!(destination, "/notes/physics"),
            other => panic!("left the listening state: {:?}", other),
        }
    }
}
