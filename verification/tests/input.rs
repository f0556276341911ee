use wireframe::{wants_quit, InputEvent};

#[test]
fn a_quit_event_stops_the_loop() {
    let events = vec![InputEvent::Other, InputEvent::Quit];
    assert!(wants_quit(&events));
}

#[test]
fn an_escape_key_press_stops_the_loop() {
    let events = vec![InputEvent::MouseWheel { delta: 2 }, InputEvent::EscapeKeyDown];
    assert!(wants_quit(&events));
}

#[test]
fn wheel_and_other_events_do_not_stop_the_loop() {
    let events = vec![
        InputEvent::MouseWheel { delta: -1 },
        InputEvent::Other,
        InputEvent::MouseWheel { delta: 3 },
    ];
    assert!(!wants_quit(&events));
}

#[test]
fn no_events_keep_the_loop_running() {
    let events: Vec<InputEvent> = Vec::new();
    assert!(!wants_quit(&events));
}
