//! What a camera session does next, and when it is given up.
use crate::camera::{law_occurs_within, occurs};
use crate::text::{decimal, push_decimal};
use vstd::prelude::*;

verus! {

/// A key that was pressed.
#[derive(Clone, Copy, Debug)]
pub enum Key {
    Char(char),
    Esc,
    Other,
}

/// The keys that end a session: `q`, Esc, and `c` with the control key.
pub open spec fn quits(key: Key, control: bool) -> bool {
    match key {
        Key::Char(c) => c == 'q' || c == 'Q' || ((c == 'c' || c == 'C') && control),
        Key::Esc => true,
        Key::Other => false,
    }
}

/// Whether a key ends the session.
pub fn is_quit_key(key: Key, control: bool) -> (r: bool)
    ensures
        r == quits(key, control),
{
    match key {
        Key::Char(c) => c == 'q' || c == 'Q' || ((c == 'c' || c == 'C') && control),
        Key::Esc => true,
        Key::Other => false,
    }
}

/// What a watch does after a tick.
#[derive(Clone, Copy, Debug, PartialEq, Eq, Structural)]
pub enum WatchStep {
    /// Sleeps for another tick.
    Wait,
    /// Ends, having nothing left to watch.
    Stop,
    /// Puts the terminal in order and ends the program.
    ForceExit,
}

/// A watch that waits for a number of ticks.
#[derive(Clone, Copy, Debug)]
pub struct Watch {
    /// The ticks that are left.
    pub left: u32,
}

/// The length of a tick of the watch for the first frame, in milliseconds.
pub const STARTUP_TICK_MS: u64 = 100;

/// How long the first frame is waited for, in ticks.
pub const STARTUP_TICKS: u32 = 50;

/// The length of a tick of the watch for the end, in milliseconds.
pub const QUIT_TICK_MS: u64 = 50;

/// How long the end is waited for once a quit key was pressed, in ticks.
pub const QUIT_TICKS: u32 = 20;

/// How long a key is waited for before the end of the session is looked for
/// again, in milliseconds.
pub const KEY_WAIT_MS: u64 = 100;

/// What a watch with ticks left does after one: it stops where what it waits for
/// has come, and forces the exit where that was the last tick.
pub open spec fn watch_step(left: nat, come: bool) -> WatchStep {
    if come {
        WatchStep::Stop
    } else if left <= 1 {
        WatchStep::ForceExit
    } else {
        WatchStep::Wait
    }
}

impl Watch {
    /// The watch for the first frame.
    pub fn startup() -> (w: Watch)
        ensures
            w.left == STARTUP_TICKS,
    {
        Watch { left: STARTUP_TICKS }
    }

    /// The watch for the end of a session after a quit key.
    pub fn quitting() -> (w: Watch)
        ensures
            w.left == QUIT_TICKS,
    {
        Watch { left: QUIT_TICKS }
    }

    /// What to do after a tick, at the end of which what is waited for had come or
    /// not.
    pub fn tick(&mut self, come: bool) -> (step: WatchStep)
        ensures
            step == watch_step(old(self).left as nat, come),
            final(self).left == (if old(self).left == 0 {
                0
            } else {
                old(self).left - 1
            }),
    {
        let last = self.left <= 1;
        if self.left > 0 {
            self.left = self.left - 1;
        }
        if come {
            WatchStep::Stop
        } else if last {
            WatchStep::ForceExit
        } else {
            WatchStep::Wait
        }
    }
}

/// What a watch does in the end, given for each tick whether what it waits for
/// had come; nothing yet where it still waits.
pub open spec fn watch_outcome(left: nat, come: Seq<bool>) -> Option<WatchStep>
    decreases come.len(),
{
    if come.len() == 0 {
        None
    } else {
        match watch_step(left, come[0]) {
            WatchStep::Wait => watch_outcome((left - 1) as nat, come.drop_first()),
            step => Some(step),
        }
    }
}

/// A watch forces the exit only after all its ticks have gone by, and none of
/// them has brought what it waits for. Where one of them has, it stops.
pub proof fn law_watch_forces_exit_in_time(left: nat, come: Seq<bool>)
    requires
        left >= 1,
        come.len() == left,
    ensures
        (forall|i: int| 0 <= i < left ==> !come[i]) ==> watch_outcome(left, come) == Some(
            WatchStep::ForceExit,
        ),
        (exists|i: int| 0 <= i < left && come[i]) ==> watch_outcome(left, come) == Some(WatchStep::Stop),
        forall|n: int|
            0 <= n < left && (forall|i: int| 0 <= i < n ==> !come[i]) ==> #[trigger] watch_outcome(
                left,
                come.take(n),
            ) is None,
    decreases left,
{
    let rest = come.drop_first();
    if left > 1 {
        law_watch_forces_exit_in_time((left - 1) as nat, rest);
        assert(forall|i: int| 0 <= i < left - 1 ==> rest[i] == come[i + 1]);
        if exists|i: int| 0 <= i < left && come[i] {
            let k = choose|i: int| 0 <= i < left && come[i];
            if !come[0] {
                assert(rest[k - 1]);
            }
        }
    }
    assert forall|n: int|
        0 <= n < left && (forall|i: int| 0 <= i < n ==> !come[i]) implies #[trigger] watch_outcome(
        left,
        come.take(n),
    ) is None by {
        if n > 0 {
            assert(come.take(n).drop_first() =~= rest.take(n - 1));
            assert(!come[0]);
            assert forall|i: int| 0 <= i < n - 1 implies !rest[i] by {
                assert(!come[i + 1]);
            }
            assert(watch_outcome((left - 1) as nat, rest.take(n - 1)) is None);
        }
    }
}

/// Who listens for keys while a session runs.
#[derive(Clone, Copy, Debug)]
pub enum Listener {
    /// Waits for a key.
    Listening,
    /// Has had a quit key, and waits for the session to end.
    Quitting { watch: Watch },
    /// Has ended with the session.
    Ended,
    /// Ends the program, the session not having ended in time.
    Forcing,
}

/// What a listener learns.
#[derive(Clone, Copy, Debug)]
pub enum Heard {
    /// Whether the session has ended, before the next key is waited for.
    Done(bool),
    /// No key, or not in time.
    Nothing,
    /// A key, and whether the control key was held.
    Pressed { key: Key, control: bool },
    /// Whether the session has ended, after a tick of the wait for its end.
    Ticked(bool),
}

/// A listener after it has learnt something.
pub open spec fn listener_after(listener: Listener, heard: Heard) -> Listener {
    match (listener, heard) {
        (Listener::Listening, Heard::Done(true)) => Listener::Ended,
        (Listener::Listening, Heard::Pressed { key, control }) => if quits(key, control) {
            Listener::Quitting { watch: Watch { left: QUIT_TICKS } }
        } else {
            Listener::Listening
        },
        (Listener::Quitting { watch }, Heard::Ticked(done)) => match watch_step(watch.left as nat, done) {
            WatchStep::Wait => Listener::Quitting { watch: Watch { left: (watch.left - 1) as u32 } },
            WatchStep::Stop => Listener::Ended,
            WatchStep::ForceExit => Listener::Forcing,
        },
        _ => listener,
    }
}

/// A listener after it has learnt something.
pub fn listen(listener: Listener, heard: Heard) -> (next: Listener)
    ensures
        next == listener_after(listener, heard),
{
    match (listener, heard) {
        (Listener::Listening, Heard::Done(done)) => if done {
            Listener::Ended
        } else {
            Listener::Listening
        },
        (Listener::Listening, Heard::Pressed { key, control }) => if is_quit_key(key, control) {
            Listener::Quitting { watch: Watch::quitting() }
        } else {
            Listener::Listening
        },
        (Listener::Quitting { watch }, Heard::Ticked(done)) => {
            let mut w = watch;
            match w.tick(done) {
                WatchStep::Wait => Listener::Quitting { watch: w },
                WatchStep::Stop => Listener::Ended,
                WatchStep::ForceExit => Listener::Forcing,
            }
        },
        _ => listener,
    }
}

/// A listener after ticks of the wait for the end, each of them whether the
/// session had ended.
pub open spec fn listener_ticked(listener: Listener, done: Seq<bool>) -> Listener
    decreases done.len(),
{
    if done.len() == 0 {
        listener
    } else {
        listener_ticked(listener_after(listener, Heard::Ticked(done[0])), done.drop_first())
    }
}

/// After a quit key the program ends, whatever the session does: with it where
/// it ends in time, and else by force.
pub proof fn law_quit_key_ends_the_program(key: Key, control: bool, done: Seq<bool>)
    requires
        quits(key, control),
        done.len() == QUIT_TICKS,
    ensures
        listener_ticked(listener_after(Listener::Listening, Heard::Pressed { key, control }), done) == (
        if exists|i: int| 0 <= i < done.len() && done[i] {
            Listener::Ended
        } else {
            Listener::Forcing
        }),
{
    lemma_listener_ticked(QUIT_TICKS, done);
}

proof fn lemma_listener_ticked(left: u32, done: Seq<bool>)
    requires
        left >= 1,
        done.len() == left,
    ensures
        listener_ticked(Listener::Quitting { watch: Watch { left } }, done) == (if exists|i: int|
            0 <= i < done.len() && done[i] {
            Listener::Ended
        } else {
            Listener::Forcing
        }),
    decreases left,
{
    let rest = done.drop_first();
    if done[0] {
        lemma_listener_at_rest(Listener::Ended, rest);
    } else if left == 1 {
        lemma_listener_at_rest(Listener::Forcing, rest);
    } else {
        lemma_listener_ticked((left - 1) as u32, rest);
        assert(forall|i: int| 0 <= i < rest.len() ==> rest[i] == done[i + 1]);
        if exists|i: int| 0 <= i < done.len() && done[i] {
            let k = choose|i: int| 0 <= i < done.len() && done[i];
            assert(rest[k - 1]);
        }
    }
}

proof fn lemma_listener_at_rest(listener: Listener, done: Seq<bool>)
    requires
        listener is Ended || listener is Forcing,
    ensures
        listener_ticked(listener, done) == listener,
    decreases done.len(),
{
    if done.len() > 0 {
        lemma_listener_at_rest(listener, done.drop_first());
    }
}

/// What the user is told where no frame came in time, and, on a Mac, what may be
/// the reason.
pub open spec fn startup_text(index: nat, macos: bool) -> Seq<char> {
    "camera index "@ + decimal(index) + " didn't deliver a frame in 5s \u{2014} likely unavailable.\n"@ + (
    if macos {
        "(Mac in clamshell? FaceTime HD is off when the lid is closed.\nRun `list-cameras` and try another --index, or wake the iPhone for Continuity.)\n"@
    } else {
        Seq::empty()
    })
}

/// What the user is told where no frame came in time.
pub fn startup_message(index: u32, macos: bool) -> (out: String)
    ensures
        out@ == startup_text(index as nat, macos),
{
    let mut out = "camera index ".to_owned();
    push_decimal(&mut out, index as u64);
    out.append(" didn't deliver a frame in 5s \u{2014} likely unavailable.\n");
    if macos {
        out.append(
            "(Mac in clamshell? FaceTime HD is off when the lid is closed.\nRun `list-cameras` and try another --index, or wake the iPhone for Continuity.)\n",
        );
    }
    assert(!macos ==> out@ + Seq::<char>::empty() =~= out@);
    out
}

/// What the user is told where the session did not end in time.
pub open spec fn forced_exit_text() -> Seq<char> {
    "camera unresponsive \u{2014} forced exit\n"@
}

/// What the user is told where the session did not end in time.
pub fn forced_exit_message() -> (out: String)
    ensures
        out@ == forced_exit_text(),
{
    "camera unresponsive \u{2014} forced exit\n".to_owned()
}

/// What a session does next.
#[derive(Clone, Copy, Debug, PartialEq, Eq, Structural)]
pub enum Step {
    /// Opens the camera.
    Open,
    /// Starts its stream.
    Start,
    /// Looks whether it is to quit.
    Check,
    /// Takes a frame from the camera.
    Take,
    /// Decodes the frame and shows it.
    Show,
    /// Stops the stream.
    Stop { failed: bool },
    /// Puts the terminal in order and ends.
    Leave { failed: bool },
}

/// What a session does after a step that succeeded or not, when it was to quit
/// or not.
pub open spec fn step_after(step: Step, ok: bool, quit: bool) -> Step {
    match step {
        Step::Open => if !ok {
            Step::Leave { failed: true }
        } else if quit {
            Step::Leave { failed: false }
        } else {
            Step::Start
        },
        Step::Start => if !ok {
            Step::Leave { failed: true }
        } else if quit {
            Step::Leave { failed: false }
        } else {
            Step::Check
        },
        Step::Check => if quit {
            Step::Stop { failed: false }
        } else {
            Step::Take
        },
        Step::Take => if ok {
            Step::Show
        } else {
            Step::Stop { failed: true }
        },
        Step::Show => if ok {
            Step::Check
        } else {
            Step::Stop { failed: true }
        },
        Step::Stop { failed } => Step::Leave { failed },
        Step::Leave { failed } => Step::Leave { failed },
    }
}

/// What a session does after a step.
pub fn next_step(step: Step, ok: bool, quit: bool) -> (next: Step)
    ensures
        next == step_after(step, ok, quit),
{
    match step {
        Step::Open | Step::Start => if !ok {
            Step::Leave { failed: true }
        } else if quit {
            Step::Leave { failed: false }
        } else if matches!(step, Step::Open) {
            Step::Start
        } else {
            Step::Check
        },
        Step::Check => if quit {
            Step::Stop { failed: false }
        } else {
            Step::Take
        },
        Step::Take => if ok {
            Step::Show
        } else {
            Step::Stop { failed: true }
        },
        Step::Show => if ok {
            Step::Check
        } else {
            Step::Stop { failed: true }
        },
        Step::Stop { failed } => Step::Leave { failed },
        Step::Leave { failed } => Step::Leave { failed },
    }
}

/// A step brings a frame: the camera gave it, whether or not it can be shown.
pub open spec fn brings_frame(step: Step, ok: bool) -> bool {
    step is Take && ok
}

/// Whether a step that succeeded or not has brought a frame.
pub fn frame_has_come(step: Step, ok: bool) -> (r: bool)
    ensures
        r == brings_frame(step, ok),
{
    matches!(step, Step::Take) && ok
}

/// Where a session is after events, each of them whether its step succeeded and
/// whether the session was to quit then.
pub open spec fn session(events: Seq<(bool, bool)>) -> Step
    decreases events.len(),
{
    if events.len() == 0 {
        Step::Open
    } else {
        let (ok, quit) = events.last();
        step_after(session(events.drop_last()), ok, quit)
    }
}

/// A session whose frames were to be shown does not end before it has stopped
/// the stream.
pub proof fn law_stream_is_stopped(events: Seq<(bool, bool)>, i: int)
    requires
        0 <= i <= events.len(),
        session(events.take(i)) is Check,
        session(events) is Leave,
    ensures
        exists|j: int| i < j < events.len() && #[trigger] session(events.take(j)) is Stop,
    decreases events.len(),
{
    let n = events.len() as int;
    assert(events.take(n) =~= events);
    assert(i < n);
    let before = events.drop_last();
    assert(events.take(n - 1) =~= before);
    lemma_session_stays_open(events, i);
    if session(before) is Leave {
        assert(before.take(i) =~= events.take(i));
        law_stream_is_stopped(before, i);
        let j = choose|j: int| i < j < before.len() && #[trigger] session(before.take(j)) is Stop;
        assert(before.take(j) =~= events.take(j));
    } else {
        assert(session(events.take(n - 1)) is Stop);
        assert(i < n - 1);
    }
}

/// A session that has got as far as showing frames does not go back to opening
/// the camera or starting the stream.
proof fn lemma_session_stays_open(events: Seq<(bool, bool)>, i: int)
    requires
        0 <= i < events.len(),
        session(events.take(i)) is Check,
    ensures
        !(session(events.drop_last()) is Open),
        !(session(events.drop_last()) is Start),
    decreases events.len(),
{
    let before = events.drop_last();
    if before.len() == i {
        assert(before =~= events.take(i));
    } else {
        assert(before.take(i) =~= events.take(i));
        lemma_session_stays_open(before, i);
    }
}

/// Whether a session has had a frame after events.
pub open spec fn had_frame(events: Seq<(bool, bool)>) -> bool
    decreases events.len(),
{
    events.len() > 0 && (had_frame(events.drop_last()) || brings_frame(
        session(events.drop_last()),
        events.last().0,
    ))
}

/// Whether the watch for the first frame has nothing left to wait for: there was
/// a frame, or the session has ended.
pub open spec fn startup_over(events: Seq<(bool, bool)>) -> bool {
    had_frame(events) || session(events) is Leave
}

/// The first frame counts as soon as it is taken, and whatever comes after it:
/// that it cannot be shown does not undo it.
pub proof fn law_taken_frame_counts(events: Seq<(bool, bool)>, quit: bool, later: Seq<(bool, bool)>)
    requires
        session(events) is Take,
    ensures
        session(events.push((true, quit))) is Show,
        had_frame(events.push((true, quit)) + later),
        startup_over(events.push((true, quit)) + later),
    decreases later.len(),
{
    let taken = events.push((true, quit));
    assert(taken.drop_last() =~= events);
    if later.len() == 0 {
        assert(taken + later =~= taken);
    } else {
        law_taken_frame_counts(events, quit, later.drop_last());
        assert((taken + later).drop_last() =~= taken + later.drop_last());
    }
}

/// As long as no frame was taken, none is shown. A frame that cannot be taken
/// does not count, and ends the session.
pub proof fn law_nothing_is_shown_before_a_frame(events: Seq<(bool, bool)>, quit: bool)
    requires
        !had_frame(events),
    ensures
        !(session(events) is Show),
        session(events) is Take ==> {
            &&& !had_frame(events.push((false, quit)))
            &&& session(events.push((false, quit))) == (Step::Stop { failed: true })
        },
{
    assert(events.push((false, quit)).drop_last() =~= events);
    if events.len() > 0 {
        assert(session(events.drop_last()) is Take ==> !events.last().0);
    }
}

/// A session in which a step fails other than to stop the stream ends as a
/// failure, and at once but for stopping the stream.
pub proof fn law_failure_ends_the_session(step: Step, quit: bool, ok: bool, quit2: bool)
    requires
        step is Open || step is Start || step is Take || step is Show,
    ensures
        step_after(step_after(step, false, quit), ok, quit2) == (Step::Leave { failed: true }),
        step is Open || step is Start ==> step_after(step, false, quit) is Leave,
        step is Take || step is Show ==> step_after(step, false, quit) is Stop,
{
}

/// A session that ends without failure was to quit.
pub proof fn law_only_quit_ends_well(events: Seq<(bool, bool)>)
    requires
        session(events) == (Step::Leave { failed: false }) || session(events) == (Step::Stop {
            failed: false,
        }),
    ensures
        exists|i: int| 0 <= i < events.len() && (#[trigger] events[i]).1,
    decreases events.len(),
{
    let before = events.drop_last();
    let n = events.len() - 1;
    if session(before) == (Step::Leave { failed: false }) || session(before) == (Step::Stop {
        failed: false,
    }) {
        law_only_quit_ends_well(before);
        let i = choose|i: int| 0 <= i < before.len() && (#[trigger] before[i]).1;
        assert(events[i] == before[i]);
    } else {
        assert(events[n] == events.last());
    }
}

/// Once it is to quit, a session ends after four more steps at most, whether
/// they succeed or not.
pub proof fn law_quit_ends_the_session(step: Step, ok: bool, ok2: bool, ok3: bool, ok4: bool)
    ensures
        step_after(step_after(step_after(step_after(step, ok, true), ok2, true), ok3, true), ok4, true) is Leave,
{
}

/// As long as every step succeeds and it is not to quit, a session goes on.
pub proof fn law_session_goes_on(events: Seq<(bool, bool)>)
    requires
        forall|i: int| 0 <= i < events.len() ==> (#[trigger] events[i]).0 && !events[i].1,
    ensures
        !(session(events) is Leave),
        !(session(events) is Stop),
    decreases events.len(),
{
    if events.len() > 0 {
        assert(forall|i: int|
            0 <= i < events.len() - 1 ==> events.drop_last()[i] == #[trigger] events[i]);
        law_session_goes_on(events.drop_last());
        let e = events[events.len() - 1];
        assert(e == events.last());
    }
}

/// The first frame is waited for five seconds, and the end after a quit key one
/// second.
pub proof fn law_waits_are_five_seconds_and_one()
    ensures
        STARTUP_TICKS * STARTUP_TICK_MS == 5_000,
        QUIT_TICKS * QUIT_TICK_MS == 1_000,
{
}

/// `q` and Esc quit, whatever the control key; `c` quits with the control key
/// alone; and nothing else does.
pub proof fn law_quit_keys(key: Key, control: bool)
    ensures
        quits(Key::Esc, control),
        quits(Key::Char('q'), control) && quits(Key::Char('Q'), control),
        quits(Key::Char('c'), control) == control,
        quits(Key::Char('C'), control) == control,
        !quits(Key::Other, control),
        quits(key, control) ==> (key matches Key::Char(c) ==> c == 'q' || c == 'Q' || c == 'c' || c == 'C'),
{
}

/// Only a quit key makes a listener quit, and as long as none comes and the
/// session has not ended it listens on.
pub proof fn law_listener_listens_on(heard: Heard)
    ensures
        listener_after(Listener::Listening, heard) is Quitting <==> (heard matches Heard::Pressed {
            key,
            control,
        } && quits(key, control)),
        listener_after(Listener::Listening, heard) is Ended <==> heard == Heard::Done(true),
        !(listener_after(Listener::Listening, heard) is Forcing),
{
}

/// As long as every step succeeds and it is not to quit, a session opens the
/// camera and starts the stream, and then takes and shows one frame after the
/// other.
pub proof fn law_session_shows_frames(events: Seq<(bool, bool)>)
    requires
        forall|i: int| 0 <= i < events.len() ==> (#[trigger] events[i]).0 && !events[i].1,
    ensures
        events.len() == 0 ==> session(events) is Open,
        events.len() == 1 ==> session(events) is Start,
        events.len() >= 2 ==> {
            let n = (events.len() - 2) % 3;
            &&& n == 0 ==> session(events) is Check
            &&& n == 1 ==> session(events) is Take
            &&& n == 2 ==> session(events) is Show
        },
    decreases events.len(),
{
    if events.len() > 0 {
        assert(forall|i: int|
            0 <= i < events.len() - 1 ==> events.drop_last()[i] == #[trigger] events[i]);
        law_session_shows_frames(events.drop_last());
        let e = events[events.len() - 1];
        assert(e == events.last());
    }
}

/// A session that is to quit before it has frames to show ends at once and well,
/// with no stream to stop; one that has them stops the stream first. How a session
/// ends does not change once it stops the stream.
pub proof fn law_quit_ends_well(failed: bool, ok: bool, quit: bool)
    ensures
        step_after(Step::Open, true, true) == (Step::Leave { failed: false }),
        step_after(Step::Start, true, true) == (Step::Leave { failed: false }),
        step_after(Step::Check, ok, true) == (Step::Stop { failed: false }),
        step_after(Step::Stop { failed }, ok, quit) == (Step::Leave { failed }),
        step_after(Step::Leave { failed }, ok, quit) == (Step::Leave { failed }),
{
}

/// A frame that was taken is shown, and one that was shown followed by the next,
/// even where the session is to quit: it looks for that between frames alone.
pub proof fn law_quit_waits_for_the_frame(ok: bool, quit: bool)
    ensures
        step_after(Step::Take, true, quit) is Show,
        step_after(Step::Show, true, quit) is Check,
        step_after(Step::Check, ok, false) is Take,
{
}

/// What the user is told where no frame came in time names the camera, and has a
/// hint at its end on a Mac alone.
pub proof fn law_startup_text(index: nat)
    ensures
        occurs("camera index "@ + decimal(index) + " "@, startup_text(index, false)),
        startup_text(index, true).len() > startup_text(index, false).len(),
        startup_text(index, true).take(startup_text(index, false).len() as int) == startup_text(index, false),
        startup_text(index, false).last() == '\n',
        startup_text(index, true).last() == '\n',
{
    let rest = " didn't deliver a frame in 5s \u{2014} likely unavailable.\n"@;
    let hint = "(Mac in clamshell? FaceTime HD is off when the lid is closed.\nRun `list-cameras` and try another --index, or wake the iPhone for Continuity.)\n"@;
    reveal_strlit(" didn't deliver a frame in 5s \u{2014} likely unavailable.\n");
    reveal_strlit("(Mac in clamshell? FaceTime HD is off when the lid is closed.\nRun `list-cameras` and try another --index, or wake the iPhone for Continuity.)\n");
    reveal_strlit(" ");
    let e = Seq::<char>::empty();
    let head = "camera index "@ + decimal(index) + " "@;
    let tail = rest.skip(1);
    law_occurs_within(e, head, tail, head);
    assert(e + head + tail =~= startup_text(index, false));
    let plain = startup_text(index, false);
    assert(startup_text(index, true) =~= plain + hint);
    assert((plain + hint).take(plain.len() as int) =~= plain);
}

} // verus!
