use vstd::prelude::*;

use chrono::NaiveDate;

use crate::calendar::{Calendar, CalendarInterval};
use crate::dates::{day_after, day_after_result, day_before, day_before_result, DayError};
use crate::tui::{area_contains, contains, saturating, Action, CalendarView, Focus, PaneArea};

verus! {

/// Rows that each interval of the list takes.
pub const INTERVAL_ITEM_HEIGHT: usize = 2;

/// Empty rows above the first interval of the list.
pub const INTERVAL_TOP_PADDING: u16 = 1;

/// What the application does, besides navigating, after an action.
#[derive(Debug, Clone, Copy, PartialEq, Eq, Structural)]
pub enum Command {
    Nothing,
    Quit,
    PreviousDay,
    NextDay,
    Today,
    Suggest,
}

/// Where the user is in the calendar: the interval length shown, the focused
/// pane, the selected interval, the first interval shown in the list, the
/// first context shown in the details, and where the two panes were drawn.
#[derive(Debug, Clone, Copy, PartialEq, Eq, Structural)]
pub struct Navigation {
    pub calendar_view: CalendarView,
    pub focus: Focus,
    pub selected: Option<usize>,
    pub list_offset: usize,
    pub context_offset: usize,
    pub interval_pane: PaneArea,
    pub details_pane: PaneArea,
}

/// The intervals that the view shows.
pub open spec fn view_intervals(calendar: Calendar, view: CalendarView) -> Seq<CalendarInterval> {
    match view {
        CalendarView::FiveMinuteIntervals => calendar.five_minute_intervals@,
        CalendarView::FifteenMinuteIntervals => calendar.fifteen_minute_intervals@,
    }
}

/// The number of contexts of the selected interval, zero when none is selected.
pub open spec fn selected_context_count(intervals: Seq<CalendarInterval>, selected: Option<usize>) -> int {
    match selected {
        Some(index) => if index < intervals.len() {
            intervals[index as int].contexts@.len() as int
        } else {
            0
        },
        None => 0,
    }
}

/// The navigation of a freshly shown list: the intervals pane focused, the
/// first interval selected when there is one, nothing scrolled.
pub open spec fn reset_state(nav: Navigation, count: int) -> Navigation {
    Navigation {
        focus: Focus::Intervals,
        selected: if count > 0 {
            Some(0usize)
        } else {
            None
        },
        list_offset: 0,
        context_offset: 0,
        ..nav
    }
}

/// The navigation kept within a rebuilt list: the selection moves to the last
/// interval when it is past it (to the first when there is none), and the
/// details scroll no further than the last context.
pub open spec fn clamped_state(nav: Navigation, intervals: Seq<CalendarInterval>) -> Navigation {
    if intervals.len() == 0 {
        Navigation { selected: None, list_offset: 0, context_offset: 0, ..nav }
    } else {
        let wanted = match nav.selected {
            Some(index) => index as int,
            None => 0,
        };
        let selected = if wanted < intervals.len() - 1 {
            wanted
        } else {
            intervals.len() - 1
        };
        let contexts = intervals[selected].contexts@.len();
        let last_context = if contexts > 0 {
            contexts - 1
        } else {
            0
        };
        Navigation {
            selected: Some(selected as usize),
            context_offset: if nav.context_offset < last_context {
                nav.context_offset
            } else {
                last_context as usize
            },
            ..nav
        }
    }
}

/// The navigation after moving up: the previous interval in the list, or the
/// previous context in the details.
pub open spec fn moved_up(nav: Navigation) -> Navigation {
    match nav.focus {
        Focus::Intervals => match nav.selected {
            Some(index) => if index > 0 {
                Navigation { selected: Some((index - 1) as usize), context_offset: 0, ..nav }
            } else {
                nav
            },
            None => nav,
        },
        Focus::Details => Navigation {
            context_offset: if nav.context_offset > 0 {
                (nav.context_offset - 1) as usize
            } else {
                0
            },
            ..nav
        },
    }
}

/// The navigation after moving down: the next interval in the list, or the
/// next context in the details, when there is one.
pub open spec fn moved_down(nav: Navigation, intervals: Seq<CalendarInterval>) -> Navigation {
    match nav.focus {
        Focus::Intervals => match nav.selected {
            Some(index) => if index + 1 < intervals.len() {
                Navigation { selected: Some((index + 1) as usize), context_offset: 0, ..nav }
            } else {
                nav
            },
            None => nav,
        },
        Focus::Details => if nav.context_offset + 1 < selected_context_count(intervals, nav.selected) {
            Navigation { context_offset: (nav.context_offset + 1) as usize, ..nav }
        } else {
            nav
        },
    }
}

/// The navigation with the pane under the cell focused, and whether there was
/// one.
pub open spec fn focused_at(nav: Navigation, column: u16, row: u16) -> (Navigation, bool) {
    if area_contains(nav.interval_pane, column, row) {
        (Navigation { focus: Focus::Intervals, ..nav }, true)
    } else if area_contains(nav.details_pane, column, row) {
        (Navigation { focus: Focus::Details, ..nav }, true)
    } else {
        (nav, false)
    }
}

/// The first row of the interval list.
pub open spec fn first_list_row(pane: PaneArea) -> u16 {
    saturating(pane.y + 1 + INTERVAL_TOP_PADDING)
}

/// The row of the pane's lower border.
pub open spec fn last_list_row(pane: PaneArea) -> u16 {
    if pane.bottom_edge() > 0 {
        (pane.bottom_edge() - 1) as u16
    } else {
        0
    }
}

/// The list offset leaves room for every row of the list.
pub open spec fn offset_fits(nav: Navigation) -> bool {
    nav.list_offset + u16::MAX <= usize::MAX
}

/// The navigation after a click: a click in the details focuses them; one in
/// the interval list focuses it and selects the interval drawn on that row,
/// when there is one.
pub open spec fn clicked(nav: Navigation, intervals: Seq<CalendarInterval>, column: u16, row: u16) -> Navigation {
    if area_contains(nav.details_pane, column, row) {
        Navigation { focus: Focus::Details, ..nav }
    } else if !area_contains(nav.interval_pane, column, row) {
        nav
    } else {
        let focused = Navigation { focus: Focus::Intervals, ..nav };
        let first = first_list_row(nav.interval_pane);
        let last = last_list_row(nav.interval_pane);
        if row < first || row >= last {
            focused
        } else {
            let index = nav.list_offset + (row - first) / (INTERVAL_ITEM_HEIGHT as int);
            if index < intervals.len() {
                Navigation { selected: Some(index as usize), context_offset: 0, ..focused }
            } else {
                focused
            }
        }
    }
}

/// The other interval length.
pub open spec fn toggled_view(view: CalendarView) -> CalendarView {
    match view {
        CalendarView::FiveMinuteIntervals => CalendarView::FifteenMinuteIntervals,
        CalendarView::FifteenMinuteIntervals => CalendarView::FiveMinuteIntervals,
    }
}

/// The other pane.
pub open spec fn toggled_focus(focus: Focus) -> Focus {
    match focus {
        Focus::Intervals => Focus::Details,
        Focus::Details => Focus::Intervals,
    }
}

/// The navigation after an action, and what the application does besides:
/// day changes, the suggestion job and quitting are left to it.
pub open spec fn after_action(nav: Navigation, calendar: Calendar, action: Action) -> (Navigation, Command) {
    let intervals = view_intervals(calendar, nav.calendar_view);
    match action {
        Action::Quit => (nav, Command::Quit),
        Action::PreviousDay => (nav, Command::PreviousDay),
        Action::NextDay => (nav, Command::NextDay),
        Action::Today => (nav, Command::Today),
        Action::Suggest => (nav, Command::Suggest),
        Action::ToggleView => {
            let view = toggled_view(nav.calendar_view);
            (
                reset_state(
                    Navigation { calendar_view: view, ..nav },
                    view_intervals(calendar, view).len() as int,
                ),
                Command::Nothing,
            )
        },
        Action::ToggleFocus => (Navigation { focus: toggled_focus(nav.focus), ..nav }, Command::Nothing),
        Action::MoveUp => (moved_up(nav), Command::Nothing),
        Action::MoveDown => (moved_down(nav, intervals), Command::Nothing),
        Action::MouseScrollUp { column, row } => {
            let (focused, inside) = focused_at(nav, column, row);
            (if inside {
                moved_up(focused)
            } else {
                focused
            }, Command::Nothing)
        },
        Action::MouseScrollDown { column, row } => {
            let (focused, inside) = focused_at(nav, column, row);
            (if inside {
                moved_down(focused, intervals)
            } else {
                focused
            }, Command::Nothing)
        },
        Action::MouseClick { column, row } => (clicked(nav, intervals, column, row), Command::Nothing),
    }
}

/// The date that a day command shows: the day before or after the selected
/// date, or today; `None` for any other command.
pub fn day_for_command(command: Command, selected: &NaiveDate, today: NaiveDate) -> (day: Option<
    Result<NaiveDate, DayError>,
>)
    ensures
        command == Command::PreviousDay ==> day == Some(day_before_result(*selected)),
        command == Command::NextDay ==> day == Some(day_after_result(*selected)),
        command == Command::PreviousDay ==> (day matches Some(result) && (result matches Ok(previous)
            ==> previous != *selected) && (result matches Err(error) ==> error
            == DayError::NoPreviousDay)),
        command == Command::NextDay ==> (day matches Some(result) && (result matches Ok(next) ==> next
            != *selected) && (result matches Err(error) ==> error == DayError::NoFollowingDay)),
        command == Command::Today ==> day == Some(Ok::<NaiveDate, DayError>(today)),
        command != Command::PreviousDay && command != Command::NextDay && command != Command::Today
            ==> day is None,
{
    match command {
        Command::PreviousDay => Some(day_before(selected)),
        Command::NextDay => Some(day_after(selected)),
        Command::Today => Some(Ok(today)),
        _ => None,
    }
}

/// The selection names an interval of the shown list, or nothing.
pub open spec fn selection_within(nav: Navigation, calendar: Calendar) -> bool {
    match nav.selected {
        Some(index) => index < view_intervals(calendar, nav.calendar_view).len(),
        None => true,
    }
}

/// The details scroll no further than the selected interval's last context
/// (not at all when there is none).
pub open spec fn details_within(nav: Navigation, calendar: Calendar) -> bool {
    nav.context_offset + 1 <= if selected_context_count(
        view_intervals(calendar, nav.calendar_view),
        nav.selected,
    ) > 1 {
        selected_context_count(view_intervals(calendar, nav.calendar_view), nav.selected)
    } else {
        1
    }
}

/// On an unchanged calendar, every action leaves the selection on an interval
/// of the shown list, or on nothing, and the details scrolled no further than
/// the selected interval's last context.
pub proof fn lemma_actions_keep_selection_within(nav: Navigation, calendar: Calendar, action: Action)
    requires
        selection_within(nav, calendar),
        details_within(nav, calendar),
    ensures
        selection_within(after_action(nav, calendar, action).0, calendar),
        details_within(after_action(nav, calendar, action).0, calendar),
{
}

/// Keeping the navigation within a rebuilt calendar leaves the selection on
/// one of its intervals, and on none only when there is none.
pub proof fn lemma_clamp_selects_within(nav: Navigation, calendar: Calendar)
    ensures
        selection_within(clamped_state(nav, view_intervals(calendar, nav.calendar_view)), calendar),
        details_within(clamped_state(nav, view_intervals(calendar, nav.calendar_view)), calendar),
        view_intervals(calendar, nav.calendar_view).len() > 0 ==> clamped_state(
            nav,
            view_intervals(calendar, nav.calendar_view),
        ).selected is Some,
{
}

impl Navigation {
    /// The navigation of a calendar that is first shown: five-minute
    /// intervals, the interval list focused, nothing selected or scrolled, and
    /// no pane drawn yet.
    pub fn new() -> (nav: Self)
        ensures
            nav == (Navigation {
                calendar_view: CalendarView::FiveMinuteIntervals,
                focus: Focus::Intervals,
                selected: None,
                list_offset: 0,
                context_offset: 0,
                interval_pane: PaneArea { x: 0, y: 0, width: 0, height: 0 },
                details_pane: PaneArea { x: 0, y: 0, width: 0, height: 0 },
            }),
    {
        Navigation {
            calendar_view: CalendarView::FiveMinuteIntervals,
            focus: Focus::Intervals,
            selected: None,
            list_offset: 0,
            context_offset: 0,
            interval_pane: PaneArea::empty(),
            details_pane: PaneArea::empty(),
        }
    }

    /// The intervals of the calendar that the view shows.
    pub fn current_intervals<'a>(&self, calendar: &'a Calendar) -> (intervals: &'a [CalendarInterval])
        ensures
            intervals@ == view_intervals(*calendar, self.calendar_view),
    {
        match self.calendar_view {
            CalendarView::FiveMinuteIntervals => calendar.five_minute_intervals.as_slice(),
            CalendarView::FifteenMinuteIntervals => calendar.fifteen_minute_intervals.as_slice(),
        }
    }

    /// The selected interval of the calendar, when one is selected.
    pub fn selected_interval<'a>(&self, calendar: &'a Calendar) -> (interval: Option<&'a CalendarInterval>)
        ensures
            match self.selected {
                Some(index) => if index < view_intervals(*calendar, self.calendar_view).len() {
                    interval == Some(&view_intervals(*calendar, self.calendar_view)[index as int])
                } else {
                    interval is None
                },
                None => interval is None,
            },
    {
        let intervals = self.current_intervals(calendar);
        match self.selected {
            Some(index) => if index < intervals.len() {
                Some(&intervals[index])
            } else {
                None
            },
            None => None,
        }
    }

    /// Shows the list from its start: see `reset_state`.
    pub fn reset(&mut self, calendar: &Calendar)
        ensures
            *final(self) == reset_state(*old(self), view_intervals(*calendar, old(self).calendar_view).len() as int),
    {
        let count = self.current_intervals(calendar).len();
        self.focus = Focus::Intervals;
        self.list_offset = 0;
        self.context_offset = 0;
        self.selected = if count > 0 {
            Some(0)
        } else {
            None
        };
    }

    /// Keeps the navigation within a rebuilt calendar: see `clamped_state`.
    pub fn clamp(&mut self, calendar: &Calendar)
        ensures
            *final(self) == clamped_state(*old(self), view_intervals(*calendar, old(self).calendar_view)),
    {
        let intervals = self.current_intervals(calendar);
        let count = intervals.len();
        if count == 0 {
            self.selected = None;
            self.list_offset = 0;
            self.context_offset = 0;
            return;
        }
        let wanted = match self.selected {
            Some(index) => index,
            None => 0,
        };
        let selected = if wanted < count - 1 {
            wanted
        } else {
            count - 1
        };
        self.selected = Some(selected);
        let contexts = intervals[selected].contexts.len();
        let last_context = if contexts > 0 {
            contexts - 1
        } else {
            0
        };
        if self.context_offset >= last_context {
            self.context_offset = last_context;
        }
    }

    /// Moves to the previous interval or context: see `moved_up`.
    pub fn move_up(&mut self)
        ensures
            *final(self) == moved_up(*old(self)),
    {
        match self.focus {
            Focus::Intervals => {
                if let Some(index) = self.selected {
                    if index > 0 {
                        self.selected = Some(index - 1);
                        self.context_offset = 0;
                    }
                }
            },
            Focus::Details => {
                if self.context_offset > 0 {
                    self.context_offset = self.context_offset - 1;
                }
            },
        }
    }

    /// Moves to the next interval or context: see `moved_down`.
    pub fn move_down(&mut self, calendar: &Calendar)
        ensures
            *final(self) == moved_down(*old(self), view_intervals(*calendar, old(self).calendar_view)),
    {
        let intervals = self.current_intervals(calendar);
        match self.focus {
            Focus::Intervals => {
                if let Some(index) = self.selected {
                    if index < intervals.len() && index + 1 < intervals.len() {
                        self.selected = Some(index + 1);
                        self.context_offset = 0;
                    }
                }
            },
            Focus::Details => {
                let contexts = match self.selected {
                    Some(index) => if index < intervals.len() {
                        intervals[index].contexts.len()
                    } else {
                        0
                    },
                    None => 0,
                };
                if self.context_offset < contexts && self.context_offset + 1 < contexts {
                    self.context_offset = self.context_offset + 1;
                }
            },
        }
    }

    /// Focuses the pane under the cell: see `focused_at`.
    pub fn focus_at(&mut self, column: u16, row: u16) -> (inside: bool)
        ensures
            (*final(self), inside) == focused_at(*old(self), column, row),
    {
        if contains(self.interval_pane, column, row) {
            self.focus = Focus::Intervals;
            true
        } else if contains(self.details_pane, column, row) {
            self.focus = Focus::Details;
            true
        } else {
            false
        }
    }

    /// Handles a click: see `clicked`.
    pub fn handle_mouse_click(&mut self, calendar: &Calendar, column: u16, row: u16)
        requires
            offset_fits(*old(self)),
        ensures
            *final(self) == clicked(*old(self), view_intervals(*calendar, old(self).calendar_view), column, row),
    {
        if contains(self.details_pane, column, row) {
            self.focus = Focus::Details;
            return;
        }
        if !contains(self.interval_pane, column, row) {
            return;
        }
        self.focus = Focus::Intervals;
        let first_row = self.interval_pane.y.saturating_add(1 + INTERVAL_TOP_PADDING);
        let bottom = self.interval_pane.bottom();
        let last_row = if bottom > 0 {
            bottom - 1
        } else {
            0
        };
        if row < first_row || row >= last_row {
            return;
        }
        let clicked_index = self.list_offset + ((row - first_row) as usize) / INTERVAL_ITEM_HEIGHT;
        if clicked_index < self.current_intervals(calendar).len() {
            self.selected = Some(clicked_index);
            self.context_offset = 0;
        }
    }

    /// Handles an action: see `after_action`.
    pub fn handle_action(&mut self, calendar: &Calendar, action: Action) -> (command: Command)
        requires
            offset_fits(*old(self)),
        ensures
            (*final(self), command) == after_action(*old(self), *calendar, action),
    {
        match action {
            Action::Quit => Command::Quit,
            Action::PreviousDay => Command::PreviousDay,
            Action::NextDay => Command::NextDay,
            Action::Today => Command::Today,
            Action::Suggest => Command::Suggest,
            Action::ToggleView => {
                self.calendar_view = match self.calendar_view {
                    CalendarView::FiveMinuteIntervals => CalendarView::FifteenMinuteIntervals,
                    CalendarView::FifteenMinuteIntervals => CalendarView::FiveMinuteIntervals,
                };
                self.reset(calendar);
                Command::Nothing
            },
            Action::ToggleFocus => {
                self.focus = match self.focus {
                    Focus::Intervals => Focus::Details,
                    Focus::Details => Focus::Intervals,
                };
                Command::Nothing
            },
            Action::MoveUp => {
                self.move_up();
                Command::Nothing
            },
            Action::MoveDown => {
                self.move_down(calendar);
                Command::Nothing
            },
            Action::MouseScrollUp { column, row } => {
                if self.focus_at(column, row) {
                    self.move_up();
                }
                Command::Nothing
            },
            Action::MouseScrollDown { column, row } => {
                if self.focus_at(column, row) {
                    self.move_down(calendar);
                }
                Command::Nothing
            },
            Action::MouseClick { column, row } => {
                self.handle_mouse_click(calendar, column, row);
                Command::Nothing
            },
        }
    }
}

/// A click on the interval list, on the `m`-th item drawn below its first row
/// (each item takes `INTERVAL_ITEM_HEIGHT` rows), focuses the list and selects
/// the interval drawn there, the `m`-th after the list's scroll offset, with
/// its details scrolled to the top; when the list holds no interval there, it
/// only focuses the list.
pub proof fn lemma_click_selects_drawn_interval(
    nav: Navigation,
    intervals: Seq<CalendarInterval>,
    column: u16,
    row: u16,
    m: int,
)
    requires
        area_contains(nav.interval_pane, column, row),
        !area_contains(nav.details_pane, column, row),
        0 <= m,
        first_list_row(nav.interval_pane) + m * INTERVAL_ITEM_HEIGHT <= row < first_list_row(
            nav.interval_pane,
        ) + (m + 1) * INTERVAL_ITEM_HEIGHT,
        row < last_list_row(nav.interval_pane),
    ensures
        nav.list_offset + m < intervals.len() ==> clicked(nav, intervals, column, row) == (Navigation {
            selected: Some((nav.list_offset + m) as usize),
            context_offset: 0,
            focus: Focus::Intervals,
            ..nav
        }),
        nav.list_offset + m >= intervals.len() ==> clicked(nav, intervals, column, row) == (Navigation {
            focus: Focus::Intervals,
            ..nav
        }),
{
    let first = first_list_row(nav.interval_pane) as int;
    assert((row - first) / (INTERVAL_ITEM_HEIGHT as int) == m);
}

/// In the interval list, moving down selects the next interval and moving up
/// the previous one, when there is one, with the details scrolled to the top;
/// at either end of the list the selection stays. Moving down and then up
/// comes back to the interval first selected. Toggling the view or the focus
/// twice restores them.
pub proof fn lemma_moves_step_through_the_list(nav: Navigation, calendar: Calendar, i: usize)
    requires
        nav.focus == Focus::Intervals,
        nav.selected == Some(i),
        i < view_intervals(calendar, nav.calendar_view).len(),
    ensures
        after_action(nav, calendar, Action::MoveDown).0.selected == Some(
            if i + 1 < view_intervals(calendar, nav.calendar_view).len() {
                (i + 1) as usize
            } else {
                i
            },
        ),
        after_action(nav, calendar, Action::MoveUp).0.selected == Some(
            if i > 0 {
                (i - 1) as usize
            } else {
                i
            },
        ),
        i + 1 < view_intervals(calendar, nav.calendar_view).len() ==> after_action(nav, calendar, Action::MoveDown).0.context_offset == 0,
        i > 0 ==> after_action(nav, calendar, Action::MoveUp).0.context_offset == 0,
        after_action(nav, calendar, Action::MoveDown).0.calendar_view == nav.calendar_view,
        after_action(nav, calendar, Action::MoveDown).0.focus == Focus::Intervals,
        after_action(after_action(nav, calendar, Action::MoveDown).0, calendar, Action::MoveUp).0.selected == if i
            + 1 < view_intervals(calendar, nav.calendar_view).len() {
            Some(i)
        } else if i > 0 {
            Some((i - 1) as usize)
        } else {
            Some(i)
        },
        after_action(after_action(nav, calendar, Action::ToggleFocus).0, calendar, Action::ToggleFocus).0.focus
            == nav.focus,
        after_action(after_action(nav, calendar, Action::ToggleView).0, calendar, Action::ToggleView).0.calendar_view
            == nav.calendar_view,
        after_action(nav, calendar, Action::ToggleView).0.calendar_view != nav.calendar_view,
{
    assert(calendar.five_minute_intervals@.len() == calendar.five_minute_intervals.len());
    assert(calendar.fifteen_minute_intervals@.len() == calendar.fifteen_minute_intervals.len());
    let down = after_action(nav, calendar, Action::MoveDown).0;
    assert(down.calendar_view == nav.calendar_view);
    assert(down.focus == Focus::Intervals);
    assert(view_intervals(calendar, down.calendar_view) == view_intervals(calendar, nav.calendar_view));
    assert(moved_up(down) == after_action(down, calendar, Action::MoveUp).0);
}

} // verus!
