pub mod navigation;
pub mod panes;
pub mod timeline;

use vstd::prelude::*;

use chrono::NaiveDate;

use crate::dates::same_date;

verus! {

/// The pane that the arrow keys control.
#[derive(Debug, Clone, Copy, PartialEq, Eq, Structural)]
pub enum Focus {
    Intervals,
    Details,
}

/// The interval length that the calendar shows.
#[derive(Debug, Clone, Copy, PartialEq, Eq, Structural)]
pub enum CalendarView {
    FiveMinuteIntervals,
    FifteenMinuteIntervals,
}

/// What the user asked for.
#[derive(Debug, Clone, Copy, PartialEq, Eq, Structural)]
pub enum Action {
    Quit,
    PreviousDay,
    NextDay,
    Today,
    ToggleView,
    ToggleFocus,
    MoveUp,
    MoveDown,
    Suggest,
    MouseScrollUp { column: u16, row: u16 },
    MouseScrollDown { column: u16, row: u16 },
    MouseClick { column: u16, row: u16 },
}

/// A key of the keyboard, as far as the calendar tells keys apart.
#[derive(Debug, Clone, Copy, PartialEq, Eq, Structural)]
pub enum KeyCode {
    Esc,
    Left,
    Right,
    Up,
    Down,
    Tab,
    Char(char),
    Other,
}

/// Whether a key event is a press, a repeat or a release.
#[derive(Debug, Clone, Copy, PartialEq, Eq, Structural)]
pub enum KeyEventKind {
    Press,
    Repeat,
    Release,
}

/// A mouse event, as far as the calendar tells mouse events apart.
#[derive(Debug, Clone, Copy, PartialEq, Eq, Structural)]
pub enum MouseEventKind {
    ScrollUp,
    ScrollDown,
    LeftButtonDown,
    Other,
}

/// An event of the terminal.
#[derive(Debug, Clone, Copy, PartialEq, Eq, Structural)]
pub enum InputEvent {
    Key { code: KeyCode, kind: KeyEventKind },
    Mouse { kind: MouseEventKind, column: u16, row: u16 },
    Other,
}

/// The action that a key press asks for.
pub open spec fn key_action(code: KeyCode) -> Option<Action> {
    match code {
        KeyCode::Esc => Some(Action::Quit),
        KeyCode::Left => Some(Action::PreviousDay),
        KeyCode::Right => Some(Action::NextDay),
        KeyCode::Char(' ') => Some(Action::Today),
        KeyCode::Char('v') => Some(Action::ToggleView),
        KeyCode::Char('V') => Some(Action::ToggleView),
        KeyCode::Char('s') => Some(Action::Suggest),
        KeyCode::Char('S') => Some(Action::Suggest),
        KeyCode::Tab => Some(Action::ToggleFocus),
        KeyCode::Up => Some(Action::MoveUp),
        KeyCode::Down => Some(Action::MoveDown),
        _ => None,
    }
}

/// The action that an event asks for: key presses by their key, the mouse
/// wheel and the left button where they happen; nothing else.
pub open spec fn event_action(event: InputEvent) -> Option<Action> {
    match event {
        InputEvent::Key { code, kind } => if kind == KeyEventKind::Press {
            key_action(code)
        } else {
            None
        },
        InputEvent::Mouse { kind, column, row } => match kind {
            MouseEventKind::ScrollUp => Some(Action::MouseScrollUp { column, row }),
            MouseEventKind::ScrollDown => Some(Action::MouseScrollDown { column, row }),
            MouseEventKind::LeftButtonDown => Some(Action::MouseClick { column, row }),
            MouseEventKind::Other => None,
        },
        InputEvent::Other => None,
    }
}

/// Maps an event of the terminal to the action it asks for.
pub fn action_for_event(event: InputEvent) -> (action: Option<Action>)
    ensures
        action == event_action(event),
{
    match event {
        InputEvent::Key { code, kind } => {
            match kind {
                KeyEventKind::Press => {},
                _ => return None,
            }
            match code {
                KeyCode::Esc => Some(Action::Quit),
                KeyCode::Left => Some(Action::PreviousDay),
                KeyCode::Right => Some(Action::NextDay),
                KeyCode::Char(' ') => Some(Action::Today),
                KeyCode::Char('v') | KeyCode::Char('V') => Some(Action::ToggleView),
                KeyCode::Char('s') | KeyCode::Char('S') => Some(Action::Suggest),
                KeyCode::Tab => Some(Action::ToggleFocus),
                KeyCode::Up => Some(Action::MoveUp),
                KeyCode::Down => Some(Action::MoveDown),
                _ => None,
            }
        },
        InputEvent::Mouse { kind, column, row } => match kind {
            MouseEventKind::ScrollUp => Some(Action::MouseScrollUp { column, row }),
            MouseEventKind::ScrollDown => Some(Action::MouseScrollDown { column, row }),
            MouseEventKind::LeftButtonDown => Some(Action::MouseClick { column, row }),
            MouseEventKind::Other => None,
        },
        InputEvent::Other => None,
    }
}

/// How often, in nanoseconds, today's calendar is rebuilt.
pub const CALENDAR_REFRESH_INTERVAL: u64 = 300_000_000_000;

/// How often, in nanoseconds, a running agent is asked for its result.
pub const AGENT_RESULT_POLL_INTERVAL: u64 = 100_000_000;

/// How long, in nanoseconds, the event loop waits for input: until today's
/// calendar is due to be rebuilt (a full refresh interval for another day),
/// and no longer than the agent's poll interval while it runs.
pub fn wait_time(showing_today: bool, until_refresh: u64, agent_running: bool) -> (wait: u64)
    ensures
        wait == {
            let base = if showing_today {
                until_refresh
            } else {
                CALENDAR_REFRESH_INTERVAL
            };
            if agent_running && AGENT_RESULT_POLL_INTERVAL < base {
                AGENT_RESULT_POLL_INTERVAL
            } else {
                base
            }
        },
{
    let base = if showing_today {
        until_refresh
    } else {
        CALENDAR_REFRESH_INTERVAL
    };
    if agent_running && AGENT_RESULT_POLL_INTERVAL < base {
        AGENT_RESULT_POLL_INTERVAL
    } else {
        base
    }
}

/// A rectangle of the terminal, in cells.
#[derive(Debug, Clone, Copy, PartialEq, Eq, Structural)]
pub struct PaneArea {
    pub x: u16,
    pub y: u16,
    pub width: u16,
    pub height: u16,
}

/// The sum of two cell coordinates, kept at the largest coordinate.
pub open spec fn saturating(sum: int) -> u16 {
    if sum > u16::MAX {
        u16::MAX
    } else {
        sum as u16
    }
}

impl PaneArea {
    /// The area with no cell, at the origin.
    pub fn empty() -> (area: Self)
        ensures
            area == (PaneArea { x: 0, y: 0, width: 0, height: 0 }),
    {
        PaneArea { x: 0, y: 0, width: 0, height: 0 }
    }

    /// The column just right of the area.
    pub open spec fn right_edge(self) -> u16 {
        saturating(self.x + self.width)
    }

    /// The row just below the area.
    pub open spec fn bottom_edge(self) -> u16 {
        saturating(self.y + self.height)
    }

    pub fn right(&self) -> (right: u16)
        ensures
            right == self.right_edge(),
    {
        self.x.saturating_add(self.width)
    }

    pub fn bottom(&self) -> (bottom: u16)
        ensures
            bottom == self.bottom_edge(),
    {
        self.y.saturating_add(self.height)
    }
}

/// The cell lies inside the area.
pub open spec fn area_contains(area: PaneArea, column: u16, row: u16) -> bool {
    column >= area.x && column < area.right_edge() && row >= area.y && row < area.bottom_edge()
}

/// Whether the cell lies inside the area.
pub fn contains(area: PaneArea, column: u16, row: u16) -> (inside: bool)
    ensures
        inside == area_contains(area, column, row),
{
    column >= area.x && column < area.right() && row >= area.y && row < area.bottom()
}

/// The state of the suggestion job that the calendar shows.
#[derive(Debug, PartialEq, Eq)]
pub enum SuggestionJob {
    Idle,
    Running { date: NaiveDate },
    Failed { date: NaiveDate, message: String },
}

/// How a suggestion job ended.
pub enum JobOutcome {
    /// The suggestions for the day were generated and stored.
    Saved { date: NaiveDate },
    /// The suggestions for the day were generated but could not be stored.
    SaveFailed { date: NaiveDate, message: String },
    /// The agent failed.
    Failed { message: String },
}

/// What the details pane says of suggestions.
#[derive(Debug, Clone, PartialEq, Eq)]
pub enum SuggestionStatus {
    Idle,
    Running,
    Failed(String),
}

/// The job after it ended with `outcome`, and whether the calendar of the
/// selected date must be rebuilt: a failed agent is reported for the date that
/// it ran for (the selected date when none is known), a failed save for the
/// date of the suggestions, and a save of the selected date's suggestions
/// rebuilds its calendar.
pub open spec fn finished_job(job: SuggestionJob, outcome: JobOutcome, selected_date: NaiveDate) -> (
    SuggestionJob,
    bool,
) {
    match outcome {
        JobOutcome::Saved { date } => (SuggestionJob::Idle, date == selected_date),
        JobOutcome::SaveFailed { date, message } => (SuggestionJob::Failed { date, message }, false),
        JobOutcome::Failed { message } => match job {
            SuggestionJob::Running { date } => (SuggestionJob::Failed { date, message }, false),
            _ => (SuggestionJob::Failed { date: selected_date, message }, false),
        },
    }
}

/// What the details pane says for the calendar of `calendar_date`: the job's
/// state when it concerns that date, idle otherwise.
pub open spec fn job_status(job: SuggestionJob, calendar_date: NaiveDate) -> SuggestionStatus {
    match job {
        SuggestionJob::Running { date } => if date == calendar_date {
            SuggestionStatus::Running
        } else {
            SuggestionStatus::Idle
        },
        SuggestionJob::Failed { date, message } => if date == calendar_date {
            SuggestionStatus::Failed(message)
        } else {
            SuggestionStatus::Idle
        },
        SuggestionJob::Idle => SuggestionStatus::Idle,
    }
}

/// A job running for a day shows as running on that day's calendar and on no
/// other; when the agent fails, that day's calendar shows the failure with its
/// message, and no other day's does; a failed save shows on the day of the
/// suggestions; after a save no day shows anything, and the calendar is
/// rebuilt exactly when the saved day is the selected one.
pub proof fn lemma_job_status_follows_the_job(
    running_for: NaiveDate,
    other: NaiveDate,
    selected: NaiveDate,
    message: String,
    saved: NaiveDate,
)
    requires
        other != running_for,
    ensures
        job_status(SuggestionJob::Running { date: running_for }, running_for) == SuggestionStatus::Running,
        job_status(SuggestionJob::Running { date: running_for }, other) == SuggestionStatus::Idle,
        job_status(
            finished_job(SuggestionJob::Running { date: running_for }, JobOutcome::Failed { message }, selected).0,
            running_for,
        ) == SuggestionStatus::Failed(message),
        job_status(
            finished_job(SuggestionJob::Running { date: running_for }, JobOutcome::Failed { message }, selected).0,
            other,
        ) == SuggestionStatus::Idle,
        job_status(
            finished_job(
                SuggestionJob::Running { date: running_for },
                JobOutcome::SaveFailed { date: saved, message },
                selected,
            ).0,
            saved,
        ) == SuggestionStatus::Failed(message),
        job_status(
            finished_job(SuggestionJob::Running { date: running_for }, JobOutcome::Saved { date: saved }, selected).0,
            other,
        ) == SuggestionStatus::Idle,
        finished_job(SuggestionJob::Running { date: running_for }, JobOutcome::Saved { date: saved }, selected).1
            <==> saved == selected,
{
}

impl SuggestionJob {
    /// Ends the job with `outcome`; says whether the selected date's calendar
    /// must be rebuilt.
    pub fn finish(&mut self, outcome: JobOutcome, selected_date: NaiveDate) -> (refresh: bool)
        ensures
            (*final(self), refresh) == finished_job(*old(self), outcome, selected_date),
    {
        match outcome {
            JobOutcome::Saved { date } => {
                *self = SuggestionJob::Idle;
                same_date(&date, &selected_date)
            },
            JobOutcome::SaveFailed { date, message } => {
                *self = SuggestionJob::Failed { date, message };
                false
            },
            JobOutcome::Failed { message } => {
                let date = match self {
                    SuggestionJob::Running { date } => *date,
                    _ => selected_date,
                };
                *self = SuggestionJob::Failed { date, message };
                false
            },
        }
    }

    /// What the details pane says for the calendar of `calendar_date`: the
    /// job's state when it concerns that date, idle otherwise.
    pub fn status_for(&self, calendar_date: &NaiveDate) -> (status: SuggestionStatus)
        ensures
            status == job_status(*self, *calendar_date),
    {
        match self {
            SuggestionJob::Running { date } => {
                if same_date(date, calendar_date) {
                    SuggestionStatus::Running
                } else {
                    SuggestionStatus::Idle
                }
            },
            SuggestionJob::Failed { date, message } => {
                if same_date(date, calendar_date) {
                    SuggestionStatus::Failed(message.clone())
                } else {
                    SuggestionStatus::Idle
                }
            },
            SuggestionJob::Idle => SuggestionStatus::Idle,
        }
    }
}

} // verus!
