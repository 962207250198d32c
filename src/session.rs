//! The selection session: a state machine driven by button clicks and by the
//! expiry of the wait for the next click.
use crate::color::{lighten_spec, darken_spec, parsed_rgba, ColorError, Rgb};
use vstd::prelude::*;

verus! {

/// How much one click of lighten or darken moves the lightness, in percent.
pub const STEP_PERCENT: u8 = 10;

/// The buttons offered under the preview.
#[derive(Clone, Copy, Debug, PartialEq, Eq, Structural)]
pub enum ButtonAction {
    Randomize,
    Lighten,
    Darken,
    Submit,
}

/// The button that a custom id names, if any.
pub open spec fn action_of_id(id: Seq<char>) -> Option<ButtonAction> {
    if id == "randomize"@ {
        Some(ButtonAction::Randomize)
    } else if id == "lighten"@ {
        Some(ButtonAction::Lighten)
    } else if id == "darken"@ {
        Some(ButtonAction::Darken)
    } else if id == "submit"@ {
        Some(ButtonAction::Submit)
    } else {
        None
    }
}

impl ButtonAction {
    /// The custom id that the button carries.
    pub fn custom_id(&self) -> (s: String)
        ensures
            action_of_id(s@) == Some(*self),
    {
        proof {
            reveal_strlit("randomize");
            reveal_strlit("lighten");
            reveal_strlit("darken");
            reveal_strlit("submit");
        }
        let s = match self {
            ButtonAction::Randomize => String::from_str("randomize"),
            ButtonAction::Lighten => String::from_str("lighten"),
            ButtonAction::Darken => String::from_str("darken"),
            ButtonAction::Submit => String::from_str("submit"),
        };
        assert("randomize"@[0] == 'r' && "lighten"@[0] == 'l' && "darken"@[0] == 'd');
        assert("submit"@[0] == 's');
        s
    }

    /// Reads a button's custom id; an unknown id names no button.
    pub fn from_custom_id(id: &str) -> (r: Option<ButtonAction>)
        ensures
            r == action_of_id(id@),
    {
        let owned = id.to_owned();
        if owned == String::from_str("randomize") {
            Some(ButtonAction::Randomize)
        } else if owned == String::from_str("lighten") {
            Some(ButtonAction::Lighten)
        } else if owned == String::from_str("darken") {
            Some(ButtonAction::Darken)
        } else if owned == String::from_str("submit") {
            Some(ButtonAction::Submit)
        } else {
            None
        }
    }
}

/// Where a session stands: still picking, committed, or expired.
#[derive(Clone, Copy, Debug, PartialEq, Eq, Structural)]
pub enum SessionState {
    Selecting,
    Finalized,
    Abandoned,
}

/// What the session is told: a button click from some user in some channel
/// (with the button it names, if any), or that the wait for a click expired.
#[derive(Clone, Copy, Debug, PartialEq, Eq, Structural)]
pub enum Event {
    Click { user_id: u64, channel_id: u64, action: Option<ButtonAction> },
    TimedOut,
}

/// What the driver of the session does after an event.
#[derive(Clone, Copy, Debug, PartialEq, Eq, Structural)]
pub enum Step {
    /// Not this session's event: leave it unconsumed and keep waiting.
    Ignored,
    /// Acknowledge the click and keep waiting; nothing changed.
    Waiting,
    /// Acknowledge the click, render the new color, then wait again.
    Render,
    /// Acknowledge the click; the color is committed.
    Finalized,
    /// The wait expired; the last render stays as it is.
    Abandoned,
}

/// One color pick by one user in one channel.
#[derive(Clone, Copy, Debug, PartialEq, Eq, Structural)]
pub struct Session {
    pub user_id: u64,
    pub channel_id: u64,
    pub color: Rgb,
    pub state: SessionState,
}

/// The color a button turns `c` into; `fresh` is the random pick for randomize.
pub open spec fn apply_action(c: Rgb, action: ButtonAction, fresh: Rgb) -> Rgb {
    match action {
        ButtonAction::Randomize => fresh,
        ButtonAction::Lighten => lighten_spec(c, STEP_PERCENT as int),
        ButtonAction::Darken => darken_spec(c, STEP_PERCENT as int),
        ButtonAction::Submit => c,
    }
}

/// The session after `event`, and what its driver does next.
pub open spec fn transition(s: Session, event: Event, fresh: Rgb) -> (Session, Step) {
    if s.state != SessionState::Selecting {
        (s, Step::Ignored)
    } else {
        match event {
            Event::TimedOut => (Session { state: SessionState::Abandoned, ..s }, Step::Abandoned),
            Event::Click { user_id, channel_id, action } => {
                if user_id != s.user_id || channel_id != s.channel_id {
                    (s, Step::Ignored)
                } else {
                    match action {
                        None => (s, Step::Waiting),
                        Some(ButtonAction::Submit) => (
                            Session { state: SessionState::Finalized, ..s },
                            Step::Finalized,
                        ),
                        Some(a) => (Session { color: apply_action(s.color, a, fresh), ..s }, Step::Render),
                    }
                }
            },
        }
    }
}

/// The state only advances: a finalized or abandoned session ignores every
/// later event and keeps its color; a timeout abandons a running session, which
/// then commits no color.
pub proof fn lemma_terminal_states_absorb(s: Session, event: Event, fresh: Rgb)
    ensures
        s.state != SessionState::Selecting ==> transition(s, event, fresh) == (s, Step::Ignored),
        s.state == SessionState::Selecting ==> transition(s, Event::TimedOut, fresh).0.state
            == SessionState::Abandoned,
        transition(s, event, fresh).0.user_id == s.user_id,
        transition(s, event, fresh).0.channel_id == s.channel_id,
        transition(s, event, fresh).0.state == SessionState::Selecting ==> s.state
            == SessionState::Selecting,
{
}

impl Session {
    /// A session in `Selecting` with the given color.
    pub fn start(user_id: u64, channel_id: u64, color: Rgb) -> (s: Session)
        ensures
            s == (Session { user_id, channel_id, color, state: SessionState::Selecting }),
    {
        Session { user_id, channel_id, color, state: SessionState::Selecting }
    }

    /// A session from the command's color text, or from `fresh` where none was
    /// given; a malformed text starts no session.
    pub fn open(user_id: u64, channel_id: u64, text: Option<&str>, fresh: Rgb) -> (r: Result<
        Session,
        ColorError,
    >)
        ensures
            match text {
                None => r == Ok::<Session, ColorError>(
                    Session { user_id, channel_id, color: fresh, state: SessionState::Selecting },
                ),
                Some(t) => match parsed_rgba(t@) {
                    Some((red, green, blue, _)) => r == Ok::<Session, ColorError>(
                        Session {
                            user_id,
                            channel_id,
                            color: Rgb { r: red, g: green, b: blue },
                            state: SessionState::Selecting,
                        },
                    ),
                    None => r == Err::<Session, ColorError>(ColorError::Malformed),
                },
            },
    {
        match text {
            None => Ok(Session::start(user_id, channel_id, fresh)),
            Some(t) => match Rgb::parse(t) {
                Ok(c) => Ok(Session::start(user_id, channel_id, c)),
                Err(e) => Err(e),
            },
        }
    }

    /// Whether an event from this user in this channel belongs to the session.
    pub fn accepts(&self, user_id: u64, channel_id: u64) -> (b: bool)
        ensures
            b == (user_id == self.user_id && channel_id == self.channel_id),
    {
        user_id == self.user_id && channel_id == self.channel_id
    }

    /// Applies one event; `fresh` is the color a randomize click takes.
    pub fn handle(&mut self, event: Event, fresh: Rgb) -> (step: Step)
        ensures
            (*final(self), step) == transition(*old(self), event, fresh),
    {
        if self.state != SessionState::Selecting {
            return Step::Ignored;
        }
        match event {
            Event::TimedOut => {
                self.state = SessionState::Abandoned;
                Step::Abandoned
            },
            Event::Click { user_id, channel_id, action } => {
                if !self.accepts(user_id, channel_id) {
                    return Step::Ignored;
                }
                match action {
                    None => Step::Waiting,
                    Some(ButtonAction::Submit) => {
                        self.state = SessionState::Finalized;
                        Step::Finalized
                    },
                    Some(ButtonAction::Randomize) => {
                        self.color = fresh;
                        Step::Render
                    },
                    Some(ButtonAction::Lighten) => {
                        self.color = self.color.lighten(STEP_PERCENT);
                        Step::Render
                    },
                    Some(ButtonAction::Darken) => {
                        self.color = self.color.darken(STEP_PERCENT);
                        Step::Render
                    },
                }
            },
        }
    }

    /// The committed color, once the session is finalized; an abandoned or
    /// running session commits nothing.
    pub fn finalized_color(&self) -> (r: Option<Rgb>)
        ensures
            r == (if self.state == SessionState::Finalized {
                Some(self.color)
            } else {
                None::<Rgb>
            }),
    {
        if self.state == SessionState::Finalized {
            Some(self.color)
        } else {
            None
        }
    }

    /// Whether the preview message is retracted at the end: only after a
    /// finalized session whose role was synchronized.
    pub fn retracts_preview(&self, synchronized: bool) -> (b: bool)
        ensures
            b == (self.state == SessionState::Finalized && synchronized),
    {
        self.state == SessionState::Finalized && synchronized
    }
}

} // verus!
