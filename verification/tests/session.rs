use ascii_shader::session::{
    forced_exit_message, frame_has_come, is_quit_key, listen, next_step, startup_message, Heard, Key, Listener, Step, Watch, WatchStep,
    QUIT_TICKS, QUIT_TICK_MS, STARTUP_TICKS, STARTUP_TICK_MS,
};

#[test]
fn the_keys_that_quit() {
    for c in ['q', 'Q'] {
        assert!(is_quit_key(Key::Char(c), false));
        assert!(is_quit_key(Key::Char(c), true));
    }
    assert!(is_quit_key(Key::Esc, false));
    for c in ['c', 'C'] {
        assert!(is_quit_key(Key::Char(c), true));
        assert!(!is_quit_key(Key::Char(c), false));
    }
    assert!(!is_quit_key(Key::Char('x'), true));
    assert!(!is_quit_key(Key::Other, true));
}

#[test]
fn the_first_frame_is_waited_for_five_seconds() {
    assert_eq!(STARTUP_TICKS as u64 * STARTUP_TICK_MS, 5000);
    let mut w = Watch::startup();
    for _ in 1..STARTUP_TICKS {
        assert_eq!(w.tick(false), WatchStep::Wait);
    }
    assert_eq!(w.tick(false), WatchStep::ForceExit);
}

#[test]
fn the_watch_stops_when_a_frame_comes() {
    let mut w = Watch::startup();
    for _ in 1..STARTUP_TICKS {
        assert_eq!(w.tick(false), WatchStep::Wait);
    }
    assert_eq!(w.tick(true), WatchStep::Stop);
    assert_eq!(Watch::startup().tick(true), WatchStep::Stop);
}

#[test]
fn the_end_is_waited_for_one_second() {
    assert_eq!(QUIT_TICKS as u64 * QUIT_TICK_MS, 1000);
    let mut l = listen(Listener::Listening, Heard::Pressed { key: Key::Esc, control: false });
    for _ in 1..QUIT_TICKS {
        l = listen(l, Heard::Ticked(false));
        assert!(matches!(l, Listener::Quitting { .. }));
    }
    assert!(matches!(listen(l, Heard::Ticked(true)), Listener::Ended));
    assert!(matches!(listen(l, Heard::Ticked(false)), Listener::Forcing));
}

#[test]
fn a_listener_goes_on_until_the_session_ends() {
    let l = Listener::Listening;
    assert!(matches!(listen(l, Heard::Done(false)), Listener::Listening));
    assert!(matches!(listen(l, Heard::Nothing), Listener::Listening));
    assert!(matches!(
        listen(l, Heard::Pressed { key: Key::Char('x'), control: false }),
        Listener::Listening
    ));
    assert!(matches!(listen(l, Heard::Done(true)), Listener::Ended));
}

#[test]
fn a_session_that_is_quit() {
    let s = next_step(Step::Open, true, false);
    assert_eq!(s, Step::Start);
    let s = next_step(s, true, false);
    assert_eq!(s, Step::Check);
    let s = next_step(s, true, false);
    assert_eq!(s, Step::Take);
    let s = next_step(s, true, true);
    assert_eq!(s, Step::Show);
    let s = next_step(s, true, true);
    assert_eq!(s, Step::Check);
    let s = next_step(s, true, true);
    assert_eq!(s, Step::Stop { failed: false });
    let s = next_step(s, false, true);
    assert_eq!(s, Step::Leave { failed: false });
    assert_eq!(next_step(s, true, false), s);
}

#[test]
fn a_session_that_fails() {
    assert_eq!(next_step(Step::Open, false, true), Step::Leave { failed: true });
    assert_eq!(next_step(Step::Start, false, false), Step::Leave { failed: true });
    assert_eq!(next_step(Step::Take, false, false), Step::Stop { failed: true });
    assert_eq!(next_step(Step::Show, false, false), Step::Stop { failed: true });
    assert_eq!(next_step(Step::Stop { failed: true }, true, false), Step::Leave { failed: true });
}

#[test]
fn a_session_that_is_quit_early() {
    assert_eq!(next_step(Step::Open, true, true), Step::Leave { failed: false });
    assert_eq!(next_step(Step::Start, true, true), Step::Leave { failed: false });
}

#[test]
fn the_message_of_a_camera_that_is_silent() {
    assert_eq!(
        startup_message(3, false),
        "camera index 3 didn't deliver a frame in 5s \u{2014} likely unavailable.\n"
    );
    assert_eq!(
        startup_message(12, true),
        "camera index 12 didn't deliver a frame in 5s \u{2014} likely unavailable.\n\
         (Mac in clamshell? FaceTime HD is off when the lid is closed.\n\
         Run `list-cameras` and try another --index, or wake the iPhone for Continuity.)\n"
    );
}

#[test]
fn a_frame_has_come_once_it_is_taken() {
    assert!(frame_has_come(Step::Take, true));
    assert!(!frame_has_come(Step::Take, false));
    for step in [
        Step::Open,
        Step::Start,
        Step::Check,
        Step::Show,
        Step::Stop { failed: false },
        Step::Leave { failed: false },
    ] {
        assert!(!frame_has_come(step, true));
    }
}

#[test]
fn a_session_that_does_not_end_in_time() {
    assert_eq!(forced_exit_message(), "camera unresponsive \u{2014} forced exit\n");
}
