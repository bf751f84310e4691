use vstd::prelude::*;

use crate::calendar::CalendarInterval;
use crate::suggestions::Suggestion;
use crate::text::{decimal, push_decimal};
use crate::tui::{CalendarView, SuggestionStatus};

verus! {

/// What the interval panes show: the list's title, its intervals and the
/// state of the suggestion job for the shown day.
pub struct IntervalView<'a> {
    pub title: &'a str,
    pub intervals: &'a [CalendarInterval],
    pub suggestion_status: SuggestionStatus,
}

impl<'a> IntervalView<'a> {
    pub fn new(
        title: &'a str,
        intervals: &'a [CalendarInterval],
        suggestion_status: SuggestionStatus,
    ) -> (view: Self)
        ensures
            view.title == title,
            view.intervals@ == intervals@,
            view.suggestion_status == suggestion_status,
    {
        IntervalView { title, intervals, suggestion_status }
    }
}

/// Narrowest terminal, in columns, that the calendar is drawn in.
pub const MINIMUM_WIDTH: u16 = 50;

/// Lowest terminal, in rows, that the calendar is drawn in.
pub const MINIMUM_HEIGHT: u16 = 16;

/// Narrowest terminal, in columns, that gets the long key hints.
pub const WIDE_WIDTH: u16 = 80;

/// How the screen is laid out for a terminal of a given size.
#[derive(Debug, Clone, Copy, PartialEq, Eq, Structural)]
pub enum ScreenLayout {
    /// Too small: only a request to resize is shown.
    TooSmall,
    /// The calendar with short key hints.
    Compact,
    /// The calendar with long key hints.
    Wide,
}

/// The layout for a terminal of `width` columns and `height` rows.
pub fn screen_layout(width: u16, height: u16) -> (layout: ScreenLayout)
    ensures
        layout == if width < MINIMUM_WIDTH || height < MINIMUM_HEIGHT {
            ScreenLayout::TooSmall
        } else if width >= WIDE_WIDTH {
            ScreenLayout::Wide
        } else {
            ScreenLayout::Compact
        },
{
    if width < MINIMUM_WIDTH || height < MINIMUM_HEIGHT {
        ScreenLayout::TooSmall
    } else if width >= WIDE_WIDTH {
        ScreenLayout::Wide
    } else {
        ScreenLayout::Compact
    }
}

/// The title of the interval list for a view.
pub open spec fn view_title_text(view: CalendarView) -> Seq<char> {
    match view {
        CalendarView::FiveMinuteIntervals => "5-minute intervals"@,
        CalendarView::FifteenMinuteIntervals => "15-minute intervals"@,
    }
}

/// The title of the interval list for a view.
pub fn view_title(view: CalendarView) -> (title: &'static str)
    ensures
        title@ == view_title_text(view),
{
    match view {
        CalendarView::FiveMinuteIntervals => "5-minute intervals",
        CalendarView::FifteenMinuteIntervals => "15-minute intervals",
    }
}

/// The title shown on a pane's border: padded with spaces, and marked when
/// the pane is focused.
pub open spec fn pane_title_text(title: Seq<char>, focused: bool) -> Seq<char> {
    if focused {
        " "@ + title + " · focused "@
    } else {
        " "@ + title + " "@
    }
}

/// Builds the title shown on a pane's border.
pub fn pane_title(title: &str, focused: bool) -> (text: String)
    ensures
        text@ == pane_title_text(title@, focused),
{
    let mut text = " ".to_owned();
    text.append(title);
    if focused {
        text.append(" · focused ");
    } else {
        text.append(" ");
    }
    text
}

/// The selection that the interval list shows: none for an empty list, and
/// otherwise the selected interval, moved to the last one when it is past it
/// (the first when none is selected).
pub fn list_selection(selected: Option<usize>, count: usize) -> (shown: Option<usize>)
    ensures
        count == 0 ==> shown == None::<usize>,
        count > 0 ==> shown == Some(
            match selected {
                Some(index) => if index < count {
                    index
                } else {
                    (count - 1) as usize
                },
                None => 0usize,
            },
        ),
{
    if count == 0 {
        return None;
    }
    let wanted = match selected {
        Some(index) => index,
        None => 0,
    };
    if wanted < count {
        Some(wanted)
    } else {
        Some(count - 1)
    }
}

/// The contexts that the details table shows: from the first shown, moved to
/// the last context when it is past it, up to the end of the table; and the
/// blank rows around the table's header.
#[derive(Debug, Clone, Copy, PartialEq, Eq, Structural)]
pub struct ContextWindow {
    pub first: usize,
    pub header_spacing: u16,
    pub finish: usize,
}

/// The contexts shown in a table of `table_height` rows: a table of at least
/// five rows puts a blank row above and below its header.
pub open spec fn context_window_of(context_offset: usize, context_count: usize, table_height: u16) -> ContextWindow {
    let first = if context_offset < context_count - 1 {
        context_offset as int
    } else {
        context_count - 1
    };
    let header_spacing: int = if table_height >= 5 {
        1
    } else {
        0
    };
    let header_height = 1 + 2 * header_spacing;
    let visible = if table_height >= header_height {
        table_height - header_height
    } else {
        0
    };
    ContextWindow {
        first: first as usize,
        header_spacing: header_spacing as u16,
        finish: (if first + visible < context_count {
            first + visible
        } else {
            context_count as int
        }) as usize,
    }
}

/// Works out which contexts the details table shows.
pub fn context_window(context_offset: usize, context_count: usize, table_height: u16) -> (window: ContextWindow)
    requires
        context_count > 0,
    ensures
        window == context_window_of(context_offset, context_count, table_height),
{
    let first = if context_offset < context_count - 1 {
        context_offset
    } else {
        context_count - 1
    };
    let header_spacing: u16 = if table_height >= 5 {
        1
    } else {
        0
    };
    let header_height = 1 + 2 * header_spacing;
    let visible = table_height.saturating_sub(header_height) as usize;
    let finish = if visible < context_count - first {
        first + visible
    } else {
        context_count
    };
    ContextWindow { first, header_spacing, finish }
}

/// The label of the shown contexts: the first and last shown, counted from
/// one, and how many there are.
pub open spec fn context_range_text(window: ContextWindow, context_count: usize) -> Seq<char> {
    " "@ + decimal((window.first + 1) as nat) + "–"@ + decimal(window.finish as nat) + "/"@
        + decimal(context_count as nat) + " "@
}

/// Builds the label of the shown contexts.
pub fn context_range_label(window: ContextWindow, context_count: usize) -> (label: String)
    requires
        window.first < context_count,
    ensures
        label@ == context_range_text(window, context_count),
{
    let mut label = " ".to_owned();
    push_decimal(&mut label, (window.first + 1) as u64);
    label.append("–");
    push_decimal(&mut label, window.finish as u64);
    label.append("/");
    push_decimal(&mut label, context_count as u64);
    label.append(" ");
    label
}

/// What the details pane says of the selected interval's suggestion.
#[derive(Debug, Clone, PartialEq, Eq)]
pub enum SuggestionLine {
    /// The agent is working on the day.
    Calculating,
    /// The agent failed for the day.
    Failed { message: String },
    /// The stored suggestion names an issue.
    Issue { key: String, generated_at: u64 },
    /// The interval was analysed and no issue matched.
    NoMatchingIssue { generated_at: u64 },
    /// No suggestion was generated for the interval.
    NotGenerated,
}

/// What the details pane says: the job's state while it runs or after it
/// failed for the day, and otherwise the interval's stored suggestion.
pub open spec fn suggestion_line_of(status: SuggestionStatus, suggestion: Option<Suggestion>) -> SuggestionLine {
    match status {
        SuggestionStatus::Running => SuggestionLine::Calculating,
        SuggestionStatus::Failed(message) => SuggestionLine::Failed { message },
        SuggestionStatus::Idle => match suggestion {
            Some(suggestion) => match suggestion.jira_issue_key {
                Some(key) => SuggestionLine::Issue { key, generated_at: suggestion.generated_at },
                None => SuggestionLine::NoMatchingIssue { generated_at: suggestion.generated_at },
            },
            None => SuggestionLine::NotGenerated,
        },
    }
}

/// Decides what the details pane says of the selected interval's suggestion.
pub fn suggestion_line(status: &SuggestionStatus, suggestion: &Option<Suggestion>) -> (line: SuggestionLine)
    ensures
        line == suggestion_line_of(*status, *suggestion),
{
    match status {
        SuggestionStatus::Running => SuggestionLine::Calculating,
        SuggestionStatus::Failed(message) => SuggestionLine::Failed { message: message.clone() },
        SuggestionStatus::Idle => match suggestion {
            Some(suggestion) => match &suggestion.jira_issue_key {
                Some(key) => SuggestionLine::Issue { key: key.clone(), generated_at: suggestion.generated_at },
                None => SuggestionLine::NoMatchingIssue { generated_at: suggestion.generated_at },
            },
            None => SuggestionLine::NotGenerated,
        },
    }
}

} // verus!
