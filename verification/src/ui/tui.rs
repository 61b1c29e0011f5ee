//! The interactive loop.
//!
//! Three sources of events meet here: the scan, the keyboard and a clock. The
//! caller waits for whichever comes first and hands it over; what follows is
//! decided here.

use vstd::prelude::*;

use super::app::{AppState, AppView, KeyEvent};
use crate::scan::event::EventView;
use crate::scan::ScanEvent;
use crate::time::Duration;

verus! {

/// An event of the terminal.
#[derive(Debug, Clone, Copy)]
pub enum TerminalEvent {
    Key(KeyEvent),
    Resize,
    Other,
}

/// What has come from one of the three sources.
#[derive(Debug)]
pub enum Input {
    /// An event of the scan, or the end of its events.
    Scan(Option<ScanEvent>),
    /// An event of the terminal, or the end of its events.
    Terminal(Option<TerminalEvent>),
    /// The clock, with the time since the loop began.
    Tick(Duration),
}

/// The mathematical value of an [`Input`].
pub ghost enum InputView {
    Scan { event: Option<EventView> },
    Terminal { event: Option<TerminalEvent> },
    Tick { elapsed: nat },
}

impl View for Input {
    type V = InputView;

    open spec fn view(&self) -> InputView {
        match *self {
            Input::Scan(Some(event)) => InputView::Scan { event: Some(event@) },
            Input::Scan(None) => InputView::Scan { event: None },
            Input::Terminal(event) => InputView::Terminal { event },
            Input::Tick(elapsed) => InputView::Tick { elapsed: elapsed@ },
        }
    }
}

/// What becomes of the loop.
#[derive(Debug, Clone, Copy, PartialEq, Eq, Structural)]
pub enum Turn {
    /// The loop goes on.
    Continue,
    /// The loop ends.
    Leave,
    /// The key would have moved the selection out of range: nothing was done.
    OutOfRange,
}

/// The loop between two events.
#[derive(Debug)]
pub struct EventLoop {
    pub state: AppState,
    /// Whether the events of the scan have ended.
    pub scan_done: bool,
    /// Whether the screen no longer shows the state.
    pub dirty: bool,
}

/// The mathematical value of an [`EventLoop`].
#[verifier::ext_equal]
pub ghost struct LoopView {
    pub app: AppView,
    /// Whether the events of the scan have ended.
    pub scan_done: bool,
    /// Whether the screen no longer shows the state.
    pub dirty: bool,
}

impl View for EventLoop {
    type V = LoopView;

    open spec fn view(&self) -> LoopView {
        LoopView { app: self.state@, scan_done: self.scan_done, dirty: self.dirty }
    }
}

impl LoopView {
    /// Whether an input is a key that would move the selection out of range.
    pub open spec fn runs_over(self, input: InputView) -> bool {
        match input {
            InputView::Terminal { event: Some(TerminalEvent::Key(key)) } => self.app.runs_over(key),
            _ => false,
        }
    }

    /// The loop after an input. The end of the scan closes nothing: its result
    /// is there to be read. The clock counts only while the scan runs.
    pub open spec fn after(self, input: InputView) -> LoopView {
        match input {
            InputView::Scan { event: Some(event) } => LoopView {
                app: self.app.applied(event),
                dirty: true,
                ..self
            },
            InputView::Scan { event: None } => LoopView { scan_done: true, ..self },
            InputView::Terminal { event: Some(TerminalEvent::Key(key)) } => LoopView {
                app: self.app.keyed(key),
                dirty: true,
                ..self
            },
            InputView::Terminal { event: Some(TerminalEvent::Resize) } => LoopView {
                dirty: true,
                ..self
            },
            InputView::Terminal { event: Some(TerminalEvent::Other) } => self,
            InputView::Terminal { event: None } => self,
            InputView::Tick { elapsed } => if self.app.finished {
                self
            } else {
                LoopView { app: AppView { elapsed, ..self.app }, dirty: true, ..self }
            },
        }
    }

    /// Whether the loop ends with an input: when the user has asked for it, or
    /// when the keyboard is gone and nobody could.
    pub open spec fn ends_with(self, input: InputView) -> bool {
        input == (InputView::Terminal { event: None }) || self.after(input).app.should_quit
    }
}

impl EventLoop {
    pub fn new(state: AppState) -> (r: Self)
        ensures
            r@ == (LoopView { app: state@, scan_done: false, dirty: true }),
    {
        EventLoop { state, scan_done: false, dirty: true }
    }

    /// Tells whether events of the scan are still to be waited for.
    pub fn listens_to_scan(&self) -> (r: bool)
        ensures
            r == !self@.scan_done,
    {
        !self.scan_done
    }

    /// Tells whether the screen is to be drawn, and takes it as drawn.
    pub fn take_dirty(&mut self) -> (r: bool)
        ensures
            r == old(self)@.dirty,
            final(self)@ == (LoopView { dirty: false, ..old(self)@ }),
    {
        let dirty = self.dirty;
        self.dirty = false;
        dirty
    }

    /// Takes in what came first.
    pub fn step(&mut self, input: Input) -> (turn: Turn)
        ensures
            old(self)@.runs_over(input@) ==> turn == Turn::OutOfRange && final(self)@ == old(self)@,
            !old(self)@.runs_over(input@) ==> {
                &&& final(self)@ == old(self)@.after(input@)
                &&& turn == if old(self)@.ends_with(input@) {
                    Turn::Leave
                } else {
                    Turn::Continue
                }
            },
    {
        match input {
            Input::Scan(Some(event)) => {
                self.state.apply(event);
                self.dirty = true;
            },
            Input::Scan(None) => {
                self.scan_done = true;
            },
            Input::Terminal(Some(event)) => match event {
                TerminalEvent::Key(key) => {
                    if !self.state.press(key) {
                        return Turn::OutOfRange;
                    }
                    self.dirty = true;
                },
                TerminalEvent::Resize => {
                    self.dirty = true;
                },
                TerminalEvent::Other => {},
            },
            Input::Terminal(None) => {
                return Turn::Leave;
            },
            Input::Tick(elapsed) => {
                if !self.state.finished {
                    self.state.elapsed = elapsed;
                    self.dirty = true;
                }
            },
        }
        if self.state.should_quit {
            Turn::Leave
        } else {
            Turn::Continue
        }
    }

    /// The state with which the loop has ended.
    pub fn into_state(self) -> (state: AppState)
        ensures
            state@ == self@.app,
    {
        self.state
    }
}

/// As long as the user has not asked to leave, no event of the scan, not even
/// the end of its events, ends the loop; the end of the keyboard does, and
/// leaves the state as it is.
pub proof fn law_only_the_keyboard_ends_the_loop(before: LoopView, input: InputView)
    requires
        !before.app.should_quit,
    ensures
        before.ends_with(input) ==> input is Terminal,
        before.ends_with(InputView::Terminal { event: None }),
        before.after(InputView::Terminal { event: None }) == before,
{
}

/// Whatever changes what is shown asks for the screen to be drawn.
pub proof fn law_changes_are_drawn(before: LoopView, input: InputView)
    ensures
        before.after(input).app != before.app ==> before.after(input).dirty,
        before.dirty ==> before.after(input).dirty,
{
}

/// Once the scan has finished, the clock no longer changes the time shown.
pub proof fn law_the_clock_stops_with_the_scan(before: LoopView, elapsed: nat)
    requires
        before.app.finished,
    ensures
        before.after(InputView::Tick { elapsed }) == before,
{
}

/// What an input does: an event of the scan and a key reach the state, a
/// change of size only asks for the screen to be drawn, the clock sets the
/// time while the scan runs, and the end of the scan's events is remembered.
pub proof fn law_inputs_reach_the_state(before: LoopView, input: InputView, elapsed: nat)
    ensures
        match input {
            InputView::Scan { event: Some(event) } => before.after(input).app
                == before.app.applied(event) && before.after(input).dirty,
            InputView::Scan { event: None } => before.after(input).app == before.app,
            InputView::Terminal { event: Some(TerminalEvent::Key(key)) } => before.after(input).app
                == before.app.keyed(key) && before.after(input).dirty,
            InputView::Terminal { event: Some(TerminalEvent::Resize) } => before.after(input).app
                == before.app && before.after(input).dirty,
            InputView::Terminal { event: _ } => before.after(input).app == before.app,
            InputView::Tick { elapsed: time } => !before.app.finished ==> before.after(
                input,
            ).app.elapsed == time && before.after(input).dirty,
        },
        before.after(input).scan_done <==> before.scan_done || input == (InputView::Scan {
            event: None,
        }),
        before.ends_with(input) <==> input == (InputView::Terminal { event: None }) || before.after(
            input,
        ).app.should_quit,
        before.after(InputView::Tick { elapsed }).app.inventory == before.app.inventory,
        before.after(InputView::Tick { elapsed }).app.selected == before.app.selected,
{
}

} // verus!
