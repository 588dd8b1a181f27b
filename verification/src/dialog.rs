//! The decisions of the shutdown-countdown dialog: a ten second countdown
//! with "Do It Now" and "Abort" buttons. The window system delivers events;
//! `dialog_step` says what the dialog does with each one.
use vstd::prelude::*;
use crate::text::{append_chars, append_str, decimal, decimal_chars, string_from_chars};

verus! {

broadcast use vstd::string::group_string_axioms;

/// Seconds on the countdown when the dialog opens.
pub const COUNTDOWN_SECONDS: i32 = 10;

/// Control ID of the "Do It Now" button.
pub const ID_BTN_DO_NOW: i32 = 100;

/// Control ID of the "Abort" button.
pub const ID_BTN_ABORT: i32 = 101;

/// The dialog's state: seconds left, and whether the update goes ahead.
#[derive(Debug, Clone, Copy, PartialEq, Eq)]
pub struct DialogState {
    pub countdown: i32,
    pub should_proceed: bool,
}

/// What the window system tells the dialog.
#[derive(Debug, Clone, Copy, PartialEq, Eq)]
pub enum DialogEvent {
    /// The one-second timer fired.
    Timer,
    /// A control was used; `control` is the low word of the command.
    Command { control: i32 },
    /// The window is asked to close (X button, or a posted close).
    Close,
    /// The window is being destroyed.
    Destroy,
    /// Any other message.
    Other,
}

/// What the dialog does in answer to an event.
#[derive(Debug, Clone, Copy, PartialEq, Eq)]
pub struct DialogReply {
    /// Stop the countdown timer.
    pub kill_timer: bool,
    /// Show this many seconds in the label.
    pub show_seconds: Option<i32>,
    /// Post a close request to the window.
    pub post_close: bool,
    /// Leave the message loop.
    pub post_quit: bool,
    /// Hand the message to the default window procedure (otherwise the
    /// message is answered with 0).
    pub default_handling: bool,
}

pub open spec fn reply(
    kill_timer: bool,
    show_seconds: Option<i32>,
    post_close: bool,
    post_quit: bool,
    default_handling: bool,
) -> DialogReply {
    DialogReply { kill_timer, show_seconds, post_close, post_quit, default_handling }
}

pub open spec fn initial_state() -> DialogState {
    DialogState { countdown: COUNTDOWN_SECONDS, should_proceed: false }
}

/// The dialog's answer to one event.
pub open spec fn step_spec(s: DialogState, e: DialogEvent) -> (DialogState, DialogReply) {
    match e {
        DialogEvent::Timer => {
            let left = s.countdown - 1;
            if left <= 0 {
                (
                    DialogState { countdown: left as i32, should_proceed: true },
                    reply(true, None, true, false, false),
                )
            } else {
                (
                    DialogState { countdown: left as i32, should_proceed: s.should_proceed },
                    reply(false, Some(left as i32), false, false, false),
                )
            }
        },
        DialogEvent::Command { control } => if control == ID_BTN_DO_NOW {
            (
                DialogState { countdown: s.countdown, should_proceed: true },
                reply(true, None, true, false, false),
            )
        } else if control == ID_BTN_ABORT {
            (
                DialogState { countdown: s.countdown, should_proceed: false },
                reply(true, None, true, false, false),
            )
        } else {
            (s, reply(false, None, false, false, true))
        },
        DialogEvent::Close => (s, reply(true, None, false, false, true)),
        DialogEvent::Destroy => (s, reply(false, None, false, true, false)),
        DialogEvent::Other => (s, reply(false, None, false, false, true)),
    }
}

impl DialogState {
    /// The state when the dialog opens: ten seconds left, not proceeding.
    pub fn new() -> (s: DialogState)
        ensures
            s == initial_state(),
    {
        DialogState { countdown: COUNTDOWN_SECONDS, should_proceed: false }
    }
}

/// The dialog's answer to `e` in state `s`.
pub fn dialog_step(s: DialogState, e: DialogEvent) -> (r: (DialogState, DialogReply))
    requires
        e == DialogEvent::Timer ==> s.countdown > i32::MIN,
    ensures
        r == step_spec(s, e),
{
    match e {
        DialogEvent::Timer => {
            let left = s.countdown - 1;
            if left <= 0 {
                (
                    DialogState { countdown: left, should_proceed: true },
                    DialogReply {
                        kill_timer: true,
                        show_seconds: None,
                        post_close: true,
                        post_quit: false,
                        default_handling: false,
                    },
                )
            } else {
                (
                    DialogState { countdown: left, should_proceed: s.should_proceed },
                    DialogReply {
                        kill_timer: false,
                        show_seconds: Some(left),
                        post_close: false,
                        post_quit: false,
                        default_handling: false,
                    },
                )
            }
        },
        DialogEvent::Command { control } => {
            if control == ID_BTN_DO_NOW {
                (
                    DialogState { countdown: s.countdown, should_proceed: true },
                    DialogReply {
                        kill_timer: true,
                        show_seconds: None,
                        post_close: true,
                        post_quit: false,
                        default_handling: false,
                    },
                )
            } else if control == ID_BTN_ABORT {
                (
                    DialogState { countdown: s.countdown, should_proceed: false },
                    DialogReply {
                        kill_timer: true,
                        show_seconds: None,
                        post_close: true,
                        post_quit: false,
                        default_handling: false,
                    },
                )
            } else {
                (
                    s,
                    DialogReply {
                        kill_timer: false,
                        show_seconds: None,
                        post_close: false,
                        post_quit: false,
                        default_handling: true,
                    },
                )
            }
        },
        DialogEvent::Close => (
            s,
            DialogReply {
                kill_timer: true,
                show_seconds: None,
                post_close: false,
                post_quit: false,
                default_handling: true,
            },
        ),
        DialogEvent::Destroy => (
            s,
            DialogReply {
                kill_timer: false,
                show_seconds: None,
                post_close: false,
                post_quit: true,
                default_handling: false,
            },
        ),
        DialogEvent::Other => (
            s,
            DialogReply {
                kill_timer: false,
                show_seconds: None,
                post_close: false,
                post_quit: false,
                default_handling: true,
            },
        ),
    }
}

/// The state after a sequence of events.
pub open spec fn run(s: DialogState, events: Seq<DialogEvent>) -> DialogState
    decreases events.len(),
{
    if events.len() == 0 {
        s
    } else {
        step_spec(run(s, events.drop_last()), events.last()).0
    }
}

pub open spec fn timer_count(events: Seq<DialogEvent>) -> nat
    decreases events.len(),
{
    if events.len() == 0 {
        0
    } else {
        timer_count(events.drop_last()) + if events.last() == DialogEvent::Timer {
            1nat
        } else {
            0nat
        }
    }
}

pub open spec fn has_do_now(events: Seq<DialogEvent>) -> bool {
    exists|i: int|
        0 <= i < events.len() && #[trigger] events[i] == (DialogEvent::Command {
            control: ID_BTN_DO_NOW,
        })
}

/// Until the tenth timer tick, and unless "Do It Now" was pressed, the
/// dialog does not proceed, whatever else happens (closing it with the X
/// button included); the countdown shows ten seconds less one per tick.
pub proof fn lemma_no_proceed_before_expiry(events: Seq<DialogEvent>)
    requires
        timer_count(events) < 10,
        !has_do_now(events),
    ensures
        run(initial_state(), events).should_proceed == false,
        run(initial_state(), events).countdown == 10 - timer_count(events),
    decreases events.len(),
{
    if events.len() > 0 {
        let prefix = events.drop_last();
        assert(!has_do_now(prefix)) by {
            if has_do_now(prefix) {
                let i = choose|i: int|
                    0 <= i < prefix.len() && #[trigger] prefix[i] == (DialogEvent::Command {
                        control: ID_BTN_DO_NOW,
                    });
                assert(events[i] == prefix[i]);
            }
        }
        lemma_no_proceed_before_expiry(prefix);
        assert(events.last() != (DialogEvent::Command { control: ID_BTN_DO_NOW })) by {
            if events.last() == (DialogEvent::Command { control: ID_BTN_DO_NOW }) {
                assert(events[events.len() - 1] == events.last());
            }
        }
    }
}

proof fn lemma_all_timers(events: Seq<DialogEvent>)
    requires
        forall|i: int| 0 <= i < events.len() ==> #[trigger] events[i] == DialogEvent::Timer,
    ensures
        timer_count(events) == events.len(),
    decreases events.len(),
{
    if events.len() > 0 {
        let prefix = events.drop_last();
        assert forall|i: int| 0 <= i < prefix.len() implies #[trigger] prefix[i]
            == DialogEvent::Timer by {
            assert(prefix[i] == events[i]);
        }
        lemma_all_timers(prefix);
        assert(events.last() == events[events.len() - 1]);
    }
}

/// Ten timer ticks with nothing else in between make the dialog proceed:
/// the tenth stops the timer and closes the window.
pub proof fn lemma_countdown_expires(events: Seq<DialogEvent>)
    requires
        events.len() == 10,
        forall|i: int| 0 <= i < 10 ==> #[trigger] events[i] == DialogEvent::Timer,
    ensures
        run(initial_state(), events).should_proceed,
        run(initial_state(), events).countdown == 0,
        step_spec(run(initial_state(), events.drop_last()), DialogEvent::Timer).1 == reply(
            true,
            None,
            true,
            false,
            false,
        ),
{
    let prefix = events.drop_last();
    lemma_all_timers(prefix);
    assert(!has_do_now(prefix)) by {
        if has_do_now(prefix) {
            let i = choose|i: int|
                0 <= i < prefix.len() && #[trigger] prefix[i] == (DialogEvent::Command {
                    control: ID_BTN_DO_NOW,
                });
            assert(events[i] == prefix[i]);
        }
    }
    lemma_no_proceed_before_expiry(prefix);
    assert(events.last() == events[9]);
}

/// Whatever the state, "Abort" settles on not proceeding and "Do It Now" on
/// proceeding; both stop the timer and close the window. Closing the window
/// leaves the decision as it was.
pub proof fn lemma_buttons_decide(s: DialogState)
    ensures
        step_spec(s, DialogEvent::Command { control: ID_BTN_ABORT }).0.should_proceed == false,
        step_spec(s, DialogEvent::Command { control: ID_BTN_DO_NOW }).0.should_proceed == true,
        step_spec(s, DialogEvent::Command { control: ID_BTN_ABORT }).1 == reply(
            true,
            None,
            true,
            false,
            false,
        ),
        step_spec(s, DialogEvent::Command { control: ID_BTN_DO_NOW }).1 == reply(
            true,
            None,
            true,
            false,
            false,
        ),
        step_spec(s, DialogEvent::Close).0 == s,
        step_spec(s, DialogEvent::Destroy).0 == s,
{
}

/// Every message the dialog does not handle, and every command from a
/// control other than its two buttons, goes to the default window procedure
/// and changes nothing: the state stays, the timer runs on, nothing is
/// shown, closed or quit.
pub proof fn lemma_unhandled_goes_to_default(s: DialogState, control: i32)
    requires
        control != ID_BTN_DO_NOW,
        control != ID_BTN_ABORT,
    ensures
        ({
            let (t, r) = step_spec(s, DialogEvent::Other);
            &&& t == s
            &&& r.default_handling
            &&& !r.kill_timer
            &&& r.show_seconds is None
            &&& !r.post_close
            &&& !r.post_quit
        }),
        ({
            let (t, r) = step_spec(s, DialogEvent::Command { control });
            &&& t == s
            &&& r.default_handling
            &&& !r.kill_timer
            &&& r.show_seconds is None
            &&& !r.post_close
            &&& !r.post_quit
        }),
{
}

/// Which messages go to the default window procedure: exactly the close
/// request (which it turns into destroying the window), commands from
/// other controls, and every other message; the timer, the two buttons and
/// the destruction are answered by the dialog itself.
pub proof fn lemma_default_handling_exactly(s: DialogState, e: DialogEvent)
    ensures
        step_spec(s, e).1.default_handling <==> match e {
            DialogEvent::Timer => false,
            DialogEvent::Command { control } => control != ID_BTN_DO_NOW && control
                != ID_BTN_ABORT,
            DialogEvent::Close => true,
            DialogEvent::Destroy => false,
            DialogEvent::Other => true,
        },
{
}

/// `Steam is shutting down in <seconds>...`.
pub open spec fn countdown_label_spec(seconds: u32) -> Seq<char> {
    "Steam is shutting down in "@ + decimal(seconds as nat) + "..."@
}

/// The label text for `seconds` left.
pub fn countdown_label(seconds: u32) -> (s: String)
    ensures
        s@ == countdown_label_spec(seconds),
{
    let mut v: Vec<char> = Vec::new();
    append_str(&mut v, "Steam is shutting down in ");
    let d = decimal_chars(seconds);
    append_chars(&mut v, &d);
    append_str(&mut v, "...");
    assert(v@ =~= countdown_label_spec(seconds));
    string_from_chars(&v)
}

// ── UTF-16 for the window system ────────────────────────────────────────────

/// The UTF-16 code units of one character.
pub open spec fn utf16_of(c: char) -> Seq<u16> {
    let u = c as u32;
    if u < 0x10000 {
        seq![u as u16]
    } else {
        let v = u - 0x10000;
        seq![(0xD800 + v / 0x400) as u16, (0xDC00 + v % 0x400) as u16]
    }
}

/// The UTF-16 encoding of a text.
pub open spec fn utf16(s: Seq<char>) -> Seq<u16>
    decreases s.len(),
{
    if s.len() == 0 {
        Seq::empty()
    } else {
        utf16(s.drop_last()) + utf16_of(s.last())
    }
}

/// The UTF-16 encoding of `s` followed by a terminating 0, as the wide
/// string APIs take it.
pub fn to_wide(s: &str) -> (w: Vec<u16>)
    ensures
        w@ == utf16(s@).push(0),
{
    let cs = crate::text::chars_of(s);
    let mut w: Vec<u16> = Vec::new();
    let mut i: usize = 0;
    assert(cs@.take(0) =~= Seq::<char>::empty());
    while i < cs.len()
        invariant
            i <= cs@.len(),
            w@ == utf16(cs@.take(i as int)),
        decreases cs@.len() - i,
    {
        let c = cs[i];
        proof {
            assert(cs@.take(i + 1).drop_last() =~= cs@.take(i as int));
            assert(cs@.take(i + 1).last() == c);
        }
        let u = c as u32;
        if u < 0x10000 {
            w.push(u as u16);
        } else {
            let v = u - 0x10000;
            assert(v < 0x100000) by {
                vstd::utf8::char_is_scalar(c);
            }
            w.push((0xD800 + v / 0x400) as u16);
            w.push((0xDC00 + v % 0x400) as u16);
        }
        i += 1;
    }
    assert(cs@.take(cs@.len() as int) =~= cs@);
    w.push(0);
    w
}

} // verus!
