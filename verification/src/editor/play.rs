//! Whether the editor is editing the world or running the game in it.

use vstd::prelude::*;

verus! {

/// Whether the editor is editing or running.
#[derive(Debug, Clone, Copy, PartialEq, Eq, Structural)]
pub enum State {
    Editing,
    Playing,
    /// Paused: the world is frozen but the game is not over.
    Paused,
}

impl State {
    /// Whether the game advances.
    pub fn running(self) -> (r: bool)
        ensures
            r == (self == State::Playing),
    {
        self == State::Playing
    }

    /// Whether a game is under way, running or paused.
    pub open spec fn in_session_spec(self) -> bool {
        self != State::Editing
    }

    /// Whether a game is under way, running or paused.
    pub fn in_session(self) -> (r: bool)
        ensures
            r == self.in_session_spec(),
    {
        self != State::Editing
    }

    /// What the status bar shows.
    pub fn label(self) -> (r: &'static str)
        ensures
            self == State::Editing ==> r@ == "edition"@,
            self == State::Playing ==> r@ == "en cours"@,
            self == State::Paused ==> r@ == "en pause"@,
    {
        match self {
            State::Editing => "edition",
            State::Playing => "en cours",
            State::Paused => "en pause",
        }
    }
}

impl Default for State {
    fn default() -> (s: Self)
        ensures
            s == State::Editing,
    {
        State::Editing
    }
}

/// A play session's decisions: whether a game runs, how many fixed steps it
/// has played, and whether the world as it was before it started is held,
/// ready to be put back. The world itself, its capture and the time spent
/// running are the caller's.
#[derive(Debug, Clone, Copy)]
pub struct Session {
    state: State,
    /// How many fixed steps have been played.
    steps: u64,
    /// Whether the world before the game is held for stopping.
    captured: bool,
}

impl Session {
    /// Whether stopping would put a world back.
    pub closed spec fn holds_capture(&self) -> bool {
        self.captured
    }

    /// Whether a game runs, is paused, or the editor is editing.
    pub closed spec fn phase(&self) -> State {
        self.state
    }

    /// How many fixed steps have been played.
    pub closed spec fn played(&self) -> u64 {
        self.steps
    }

    /// Editing, nothing played, nothing held.
    pub fn new() -> (s: Self)
        ensures
            s.phase() == State::Editing,
            s.played() == 0,
            !s.holds_capture(),
    {
        Session { state: State::Editing, steps: 0, captured: false }
    }

    /// Starts playing, keeping the world as it is now: returns whether the
    /// caller must capture it. Does nothing while a game is under way:
    /// starting again would lose the first capture, and stopping would no
    /// longer give the edited world back.
    pub fn start(&mut self) -> (capture: bool)
        ensures
            capture == !old(self).phase().in_session_spec(),
            capture ==> final(self).phase() == State::Playing && final(self).played() == 0
                && final(self).holds_capture(),
            !capture ==> *final(self) == *old(self),
    {
        if self.state.in_session() {
            return false;
        }
        self.captured = true;
        self.state = State::Playing;
        self.steps = 0;
        true
    }

    /// Stops, returning whether the caller must put the captured world back:
    /// not when nothing was captured.
    pub fn stop(&mut self) -> (restore: bool)
        ensures
            restore == old(self).holds_capture(),
            restore ==> final(self).phase() == State::Editing && !final(self).holds_capture()
                && final(self).played() == old(self).played(),
            !restore ==> *final(self) == *old(self),
    {
        if !self.captured {
            return false;
        }
        self.captured = false;
        self.state = State::Editing;
        true
    }

    /// Pauses, or resumes; editing stays editing.
    pub fn toggle_pause(&mut self)
        ensures
            final(self).phase() == (match old(self).phase() {
                State::Playing => State::Paused,
                State::Paused => State::Playing,
                State::Editing => State::Editing,
            }),
            final(self).played() == old(self).played(),
            final(self).holds_capture() == old(self).holds_capture(),
    {
        self.state = match self.state {
            State::Playing => State::Paused,
            State::Paused => State::Playing,
            State::Editing => State::Editing,
        };
    }

    /// Plays one step if a game is running: returns whether the world
    /// advanced, so that the caller knows to draw again.
    pub fn tick(&mut self) -> (advanced: bool)
        requires
            old(self).played() < u64::MAX,
        ensures
            advanced == (old(self).phase() == State::Playing),
            final(self).played() == if advanced {
                old(self).played() + 1
            } else {
                old(self).played() as int
            },
            final(self).phase() == old(self).phase(),
            final(self).holds_capture() == old(self).holds_capture(),
    {
        if self.state != State::Playing {
            return false;
        }
        self.steps = self.steps + 1;
        true
    }

    /// Whether a game is running, paused or not.
    pub fn state(&self) -> (r: State)
        ensures
            r == self.phase(),
    {
        self.state
    }

    /// How many fixed steps have been played.
    pub fn steps(&self) -> (r: u64)
        ensures
            r == self.played(),
    {
        self.steps
    }

    /// Whether stopping would put a world back.
    pub fn has_snapshot(&self) -> (r: bool)
        ensures
            r == self.holds_capture(),
    {
        self.captured
    }

    /// Stopping gives back the world as it was when the game started: a start
    /// followed by a stop asks for one capture and one restore, and leaves the
    /// session editing with nothing held.
    pub proof fn a_started_game_stops_back_to_editing(s0: Self, s1: Self, s2: Self, capture: bool, restore: bool)
        requires
            !s0.phase().in_session_spec(),
            capture == !s0.phase().in_session_spec(),
            capture ==> s1.phase() == State::Playing && s1.played() == 0 && s1.holds_capture(),
            restore == s1.holds_capture(),
            restore ==> s2.phase() == State::Editing && !s2.holds_capture() && s2.played() == s1.played(),
        ensures
            capture,
            restore,
            s2.phase() == State::Editing,
            !s2.holds_capture(),
    {
    }
}

impl Default for Session {
    fn default() -> (s: Self)
        ensures
            s.phase() == State::Editing,
            s.played() == 0,
            !s.holds_capture(),
    {
        Self::new()
    }
}

} // verus!
