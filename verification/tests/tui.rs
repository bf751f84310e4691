use chrono::NaiveDate;
use flogging::calendar::{Calendar, CalendarInterval, CalendarIntervalContext};
use flogging::suggestions::Suggestion;
use flogging::text::format_duration;
use flogging::dates::{day_after, day_before, DayError};
use flogging::tui::navigation::{day_for_command, Command, Navigation};
use flogging::tui::panes::{
    context_range_label, context_window, list_selection, pane_title, screen_layout,
    suggestion_line, view_title, ContextWindow, ScreenLayout, SuggestionLine,
};
use flogging::tui::timeline::{
    application_color, color_for_executable, timeline_segments, TimelineSegment,
    APPLICATION_COLOR_COUNT,
};
use flogging::tui::{
    action_for_event, contains, Action, CalendarView, Focus, InputEvent, JobOutcome, KeyCode,
    KeyEventKind, MouseEventKind, PaneArea, SuggestionJob, SuggestionStatus,
};

/// One second, in nanoseconds.
const SECOND: u64 = 1_000_000_000;

fn date() -> NaiveDate {
    NaiveDate::from_ymd_opt(2026, 8, 11).unwrap()
}

fn calendar(five_minute_intervals: Vec<CalendarInterval>) -> Calendar {
    Calendar {
        date: date(),
        blocks: vec![],
        five_minute_intervals,
        fifteen_minute_intervals: vec![],
    }
}

fn interval(contexts: Vec<CalendarIntervalContext>) -> CalendarInterval {
    CalendarInterval::new(0, 300 * SECOND, contexts)
}

fn context(duration_seconds: u64, executable: &str, description: &str) -> CalendarIntervalContext {
    CalendarIntervalContext::new(duration_seconds * SECOND, executable.to_owned(), description.to_owned())
}

fn key_action(code: KeyCode) -> Option<Action> {
    action_for_event(InputEvent::Key { code, kind: KeyEventKind::Press })
}

fn mouse_action(kind: MouseEventKind, column: u16, row: u16) -> Option<Action> {
    action_for_event(InputEvent::Mouse { kind, column, row })
}

/// The panes as they are drawn in a terminal of 80 by 24 cells.
fn drawn(mut navigation: Navigation) -> Navigation {
    navigation.interval_pane = PaneArea { x: 0, y: 3, width: 80, height: 11 };
    navigation.details_pane = PaneArea { x: 0, y: 15, width: 80, height: 8 };
    navigation
}

#[test]
fn five_minute_intervals_are_the_default_view() {
    let navigation = Navigation::new();

    assert_eq!(navigation.calendar_view, CalendarView::FiveMinuteIntervals);
    assert_eq!(navigation.focus, Focus::Intervals);
}

#[test]
fn maps_keyboard_controls() {
    assert_eq!(key_action(KeyCode::Esc), Some(Action::Quit));
    assert_eq!(key_action(KeyCode::Left), Some(Action::PreviousDay));
    assert_eq!(key_action(KeyCode::Right), Some(Action::NextDay));
    assert_eq!(key_action(KeyCode::Char(' ')), Some(Action::Today));
    assert_eq!(key_action(KeyCode::Char('v')), Some(Action::ToggleView));
    assert_eq!(key_action(KeyCode::Char('V')), Some(Action::ToggleView));
    assert_eq!(key_action(KeyCode::Char('s')), Some(Action::Suggest));
    assert_eq!(key_action(KeyCode::Char('S')), Some(Action::Suggest));
    assert_eq!(key_action(KeyCode::Tab), Some(Action::ToggleFocus));
    assert_eq!(key_action(KeyCode::Up), Some(Action::MoveUp));
    assert_eq!(key_action(KeyCode::Down), Some(Action::MoveDown));
}

#[test]
fn maps_mouse_controls() {
    assert_eq!(
        mouse_action(MouseEventKind::ScrollUp, 12, 8),
        Some(Action::MouseScrollUp { column: 12, row: 8 })
    );
    assert_eq!(
        mouse_action(MouseEventKind::ScrollDown, 13, 9),
        Some(Action::MouseScrollDown { column: 13, row: 9 })
    );
    assert_eq!(
        mouse_action(MouseEventKind::LeftButtonDown, 14, 10),
        Some(Action::MouseClick { column: 14, row: 10 })
    );
}

#[test]
fn ignores_unmapped_keys_and_non_press_key_events() {
    assert_eq!(key_action(KeyCode::Char('q')), None);
    assert_eq!(key_action(KeyCode::Char('r')), None);

    let repeated = InputEvent::Key { code: KeyCode::Right, kind: KeyEventKind::Repeat };
    assert_eq!(action_for_event(repeated), None);
}

#[test]
fn tab_switches_which_pane_the_arrows_control() {
    let calendar = calendar(vec![interval(vec![
        context(100, "a.exe", "A"),
        context(100, "b.exe", "B"),
        context(100, "c.exe", "C"),
    ])]);
    let mut navigation = Navigation::new();
    navigation.reset(&calendar);

    navigation.handle_action(&calendar, Action::ToggleFocus);
    navigation.handle_action(&calendar, Action::MoveDown);

    assert_eq!(navigation.focus, Focus::Details);
    assert_eq!(navigation.selected, Some(0));
    assert_eq!(navigation.context_offset, 1);
}

#[test]
fn interval_navigation_changes_selection_and_resets_detail_scrolling() {
    let calendar = calendar(vec![
        interval(vec![context(300, "a.exe", "A")]),
        interval(vec![context(300, "b.exe", "B")]),
    ]);
    let mut navigation = Navigation::new();
    navigation.reset(&calendar);
    navigation.context_offset = 1;

    navigation.handle_action(&calendar, Action::MoveDown);
    navigation.handle_action(&calendar, Action::MoveDown);

    assert_eq!(navigation.selected, Some(1));
    assert_eq!(navigation.context_offset, 0);

    navigation.handle_action(&calendar, Action::MoveUp);
    navigation.handle_action(&calendar, Action::MoveUp);
    assert_eq!(navigation.selected, Some(0));
}

#[test]
fn toggling_view_switches_between_five_and_fifteen_minutes() {
    let calendar = calendar(vec![]);
    let mut navigation = Navigation::new();

    navigation.handle_action(&calendar, Action::ToggleView);
    assert_eq!(navigation.calendar_view, CalendarView::FifteenMinuteIntervals);

    navigation.handle_action(&calendar, Action::ToggleView);
    assert_eq!(navigation.calendar_view, CalendarView::FiveMinuteIntervals);
}

#[test]
fn mouse_wheel_focuses_the_hovered_pane_and_uses_arrow_behavior() {
    let calendar = calendar(vec![interval(vec![
        context(100, "a.exe", "A"),
        context(100, "b.exe", "B"),
        context(100, "c.exe", "C"),
    ])]);
    let mut navigation = Navigation::new();
    navigation.reset(&calendar);
    let mut navigation = drawn(navigation);

    navigation.handle_action(
        &calendar,
        Action::MouseScrollDown {
            column: navigation.details_pane.x + 1,
            row: navigation.details_pane.y + 1,
        },
    );

    assert_eq!(navigation.focus, Focus::Details);
    assert_eq!(navigation.context_offset, 1);
}

#[test]
fn clicking_an_interval_focuses_and_selects_it() {
    let calendar = calendar(vec![interval(vec![]), interval(vec![])]);
    let mut navigation = Navigation::new();
    navigation.reset(&calendar);
    let mut navigation = drawn(navigation);

    navigation.handle_action(
        &calendar,
        Action::MouseClick {
            column: navigation.interval_pane.x + 2,
            row: navigation.interval_pane.y + 4,
        },
    );

    assert_eq!(navigation.focus, Focus::Intervals);
    assert_eq!(navigation.selected, Some(1));
}

#[test]
fn quit_action_marks_the_app_for_exit() {
    let calendar = calendar(vec![]);
    let mut navigation = Navigation::new();

    assert_eq!(navigation.handle_action(&calendar, Action::Quit), Command::Quit);
}

#[test]
fn day_actions_are_left_to_the_application() {
    let calendar = calendar(vec![interval(vec![])]);
    let mut navigation = Navigation::new();
    navigation.reset(&calendar);
    let before = navigation;

    assert_eq!(navigation.handle_action(&calendar, Action::PreviousDay), Command::PreviousDay);
    assert_eq!(navigation.handle_action(&calendar, Action::NextDay), Command::NextDay);
    assert_eq!(navigation.handle_action(&calendar, Action::Today), Command::Today);
    assert_eq!(navigation.handle_action(&calendar, Action::Suggest), Command::Suggest);
    assert_eq!(navigation, before);
}

#[test]
fn clamping_keeps_the_selection_within_a_rebuilt_calendar() {
    let long = calendar(vec![
        interval(vec![]),
        interval(vec![]),
        interval(vec![context(60, "a.exe", "A"), context(60, "b.exe", "B")]),
    ]);
    let mut navigation = Navigation::new();
    navigation.selected = Some(7);
    navigation.context_offset = 5;

    navigation.clamp(&long);
    assert_eq!(navigation.selected, Some(2));
    assert_eq!(navigation.context_offset, 1);

    navigation.list_offset = 3;
    navigation.clamp(&calendar(vec![]));
    assert_eq!(navigation.selected, None);
    assert_eq!(navigation.list_offset, 0);
    assert_eq!(navigation.context_offset, 0);
}

#[test]
fn clicks_outside_both_panes_change_nothing() {
    let calendar = calendar(vec![interval(vec![])]);
    let mut navigation = Navigation::new();
    navigation.reset(&calendar);
    navigation.interval_pane = PaneArea { x: 0, y: 3, width: 80, height: 11 };
    navigation.details_pane = PaneArea { x: 0, y: 15, width: 80, height: 8 };
    let before = navigation;

    navigation.handle_action(&calendar, Action::MouseClick { column: 10, row: 14 });

    assert_eq!(navigation, before);
    assert!(contains(navigation.details_pane, 79, 22));
    assert!(!contains(navigation.details_pane, 80, 22));
}

#[test]
fn executable_color_is_stable_and_case_insensitive() {
    assert_eq!(color_for_executable("idea64.exe"), color_for_executable("IDEA64.EXE"));
}

#[test]
fn application_palette_contains_sixteen_distinct_colors() {
    assert_eq!(APPLICATION_COLOR_COUNT, 16);

    let colors = (0..APPLICATION_COLOR_COUNT).map(application_color).collect::<Vec<_>>();
    for (index, color) in colors.iter().enumerate() {
        assert!(!colors[..index].contains(color));
    }
}

#[test]
fn common_applications_are_distributed_across_the_palette() {
    let executables = [
        "WindowsTerminal.exe",
        "ms-teams.exe",
        "Bruno.exe",
        "Notepad.exe",
        "msedge.exe",
        "idea64.exe",
        "Code.exe",
    ];
    let colors = executables.map(color_for_executable);

    for (index, color) in colors.iter().enumerate() {
        assert!(!colors[..index].contains(color));
    }
}

#[test]
fn timeline_represents_contexts_and_unobserved_time_proportionally() {
    let interval = interval(vec![
        context(180, "idea64.exe", "Context A"),
        context(60, "msedge.exe", "Context B"),
    ]);

    let segments = timeline_segments(&interval, 10);

    assert_eq!(
        segments,
        vec![
            TimelineSegment { width: 6, context: Some(0) },
            TimelineSegment { width: 2, context: Some(1) },
            TimelineSegment { width: 2, context: None },
        ]
    );
    assert_eq!(segments.iter().map(|segment| segment.width).sum::<usize>(), 10);
}

#[test]
fn timeline_of_a_zero_length_interval_is_unobserved() {
    let empty = CalendarInterval::new(300 * SECOND, 300 * SECOND, vec![context(10, "a.exe", "A")]);

    assert_eq!(timeline_segments(&empty, 7), vec![TimelineSegment { width: 7, context: None }]);
    assert!(timeline_segments(&empty, 0).is_empty());
}

#[test]
fn durations_are_shown_as_minutes_and_seconds() {
    assert_eq!(format_duration(240 * SECOND), "04:00");
    assert_eq!(format_duration(59 * SECOND + 999_999_999), "00:59");
    assert_eq!(format_duration(3_725 * SECOND), "62:05");
}

#[test]
fn suggestion_status_follows_the_job_of_the_shown_day() {
    let other_day = date().succ_opt().unwrap();
    let running = SuggestionJob::Running { date: date() };

    assert_eq!(running.status_for(&date()), SuggestionStatus::Running);
    assert_eq!(running.status_for(&other_day), SuggestionStatus::Idle);

    let mut job = SuggestionJob::Running { date: date() };
    let refresh = job.finish(JobOutcome::Failed { message: "could not reach Ollama".to_owned() }, other_day);
    assert!(!refresh);
    assert_eq!(job, SuggestionJob::Failed { date: date(), message: "could not reach Ollama".to_owned() });
    assert_eq!(
        job.status_for(&date()),
        SuggestionStatus::Failed("could not reach Ollama".to_owned())
    );

    let refresh = job.finish(JobOutcome::Saved { date: date() }, date());
    assert!(refresh);
    assert_eq!(job, SuggestionJob::Idle);
}

#[test]
fn suggestion_line_shows_the_stored_suggestion_when_idle() {
    let with_issue = Some(Suggestion::new(0, 300 * SECOND, 5, Some("JIRA-42".to_owned())));
    let without_issue = Some(Suggestion::new(0, 300 * SECOND, 5, None));

    assert_eq!(
        suggestion_line(&SuggestionStatus::Idle, &with_issue),
        SuggestionLine::Issue { key: "JIRA-42".to_owned(), generated_at: 5 }
    );
    assert_eq!(
        suggestion_line(&SuggestionStatus::Idle, &without_issue),
        SuggestionLine::NoMatchingIssue { generated_at: 5 }
    );
    assert_eq!(suggestion_line(&SuggestionStatus::Idle, &None), SuggestionLine::NotGenerated);
    assert_eq!(suggestion_line(&SuggestionStatus::Running, &with_issue), SuggestionLine::Calculating);
    assert_eq!(
        suggestion_line(&SuggestionStatus::Failed("boom".to_owned()), &None),
        SuggestionLine::Failed { message: "boom".to_owned() }
    );
}

#[test]
fn panes_are_titled_and_laid_out_by_terminal_size() {
    assert_eq!(screen_layout(49, 15), ScreenLayout::TooSmall);
    assert_eq!(screen_layout(50, 16), ScreenLayout::Compact);
    assert_eq!(screen_layout(80, 24), ScreenLayout::Wide);
    assert_eq!(pane_title(view_title(CalendarView::FiveMinuteIntervals), true), " 5-minute intervals · focused ");
    assert_eq!(pane_title("Details", false), " Details ");
    assert_eq!(list_selection(Some(2), 0), None);
    assert_eq!(list_selection(Some(2), 2), Some(1));
    assert_eq!(list_selection(None, 2), Some(0));
}

#[test]
fn details_show_the_contexts_that_fit_the_table() {
    let window = context_window(1, 3, 10);

    assert_eq!(window, ContextWindow { first: 1, header_spacing: 1, finish: 3 });
    assert_eq!(context_range_label(window, 3), " 2–3/3 ");
    assert_eq!(context_window(9, 20, 4), ContextWindow { first: 9, header_spacing: 0, finish: 12 });
}

#[test]
fn every_action_keeps_the_selection_on_a_shown_interval() {
    let calendar = Calendar {
        date: date(),
        blocks: vec![],
        five_minute_intervals: vec![interval(vec![context(60, "a.exe", "A")]), interval(vec![])],
        fifteen_minute_intervals: vec![interval(vec![])],
    };
    let actions = [
        Action::MoveDown,
        Action::MoveDown,
        Action::ToggleView,
        Action::MoveDown,
        Action::ToggleView,
        Action::MouseClick { column: 2, row: 9 },
        Action::ToggleFocus,
        Action::MoveDown,
        Action::MouseScrollUp { column: 2, row: 5 },
        Action::MoveUp,
    ];
    let mut navigation = Navigation::new();
    navigation.reset(&calendar);
    let mut navigation = drawn(navigation);

    for action in actions {
        navigation.handle_action(&calendar, action);
        let shown = navigation.current_intervals(&calendar).len();
        let contexts = match navigation.selected {
            Some(index) => {
                assert!(index < shown);
                navigation.current_intervals(&calendar)[index].contexts.len()
            }
            None => 0,
        };
        assert!(navigation.context_offset + 1 <= contexts.max(1));
    }
}

#[test]
fn day_commands_move_to_the_neighbouring_dates() {
    let today = NaiveDate::from_ymd_opt(2026, 9, 1).unwrap();

    assert_eq!(
        day_for_command(Command::PreviousDay, &date(), today),
        Some(Ok(NaiveDate::from_ymd_opt(2026, 8, 10).unwrap()))
    );
    assert_eq!(
        day_for_command(Command::NextDay, &date(), today),
        Some(Ok(NaiveDate::from_ymd_opt(2026, 8, 12).unwrap()))
    );
    assert_eq!(day_for_command(Command::Today, &date(), today), Some(Ok(today)));
    assert_eq!(day_for_command(Command::Suggest, &date(), today), None);
}

#[test]
fn the_ends_of_the_representable_dates_have_no_neighbour() {
    assert_eq!(day_before(&NaiveDate::MIN), Err(DayError::NoPreviousDay));
    assert_eq!(day_after(&NaiveDate::MAX), Err(DayError::NoFollowingDay));
    assert_eq!(
        DayError::NoFollowingDay.message(),
        "calendar date has no representable following day"
    );
}

#[test]
fn the_event_loop_waits_for_the_next_refresh_or_the_agent() {
    assert_eq!(flogging::tui::wait_time(true, 42 * SECOND, false), 42 * SECOND);
    assert_eq!(flogging::tui::wait_time(false, 42 * SECOND, false), 300 * SECOND);
    assert_eq!(flogging::tui::wait_time(true, 42 * SECOND, true), 100_000_000);
    assert_eq!(flogging::tui::wait_time(true, 50_000_000, true), 50_000_000);
    assert_eq!(flogging::tui::wait_time(true, 999_999, false), 999_999);
}
