use flogging::events::Event;
use flogging::storage::{
    event_from_row, event_row, replacement, suggestion_from_row, system_time, unix_milliseconds,
    StoreError,
};
use flogging::suggestions::Suggestion;

const MILLISECOND: u64 = 1_000_000;

#[test]
fn converts_observed_at_to_unix_milliseconds() {
    let observed_at = 42_123 * MILLISECOND;

    assert_eq!(unix_milliseconds(observed_at).unwrap(), 42_123);
}

#[test]
fn stored_times_drop_the_part_below_a_millisecond() {
    assert_eq!(unix_milliseconds(1_999_999), Ok(1));
    assert_eq!(unix_milliseconds(999_999), Ok(0));
    assert_eq!(unix_milliseconds(u64::MAX), Ok((u64::MAX / MILLISECOND) as i64));
}

#[test]
fn stored_times_before_the_epoch_are_refused() {
    assert_eq!(system_time(1_500), Ok(1_500 * MILLISECOND));
    assert_eq!(system_time(0), Ok(0));
    assert_eq!(system_time(-1), Err(StoreError::TimeOutOfRange));
}

#[test]
fn stored_times_past_the_representable_range_are_refused() {
    let last = (u64::MAX / MILLISECOND) as i64;

    assert_eq!(system_time(last), Ok(last as u64 * MILLISECOND));
    assert_eq!(system_time(last + 1), Err(StoreError::TimeOutOfRange));
    assert_eq!(system_time(i64::MAX), Err(StoreError::TimeOutOfRange));
}

#[test]
fn an_event_row_reads_back_as_the_event() {
    let event = Event::new_foreground_window_event(
        1_500 * MILLISECOND,
        42,
        "Project - application".to_owned(),
        "application.exe".to_owned(),
        Some("applications/application.exe".to_owned()),
    );

    let row = event_row(&event).unwrap();

    assert_eq!(row.observed_at, 1_500);
    assert_eq!(row.window_id, 42);
    assert_eq!(event_from_row(row), Ok(event));
}

#[test]
fn an_event_row_keeps_a_missing_executable_path() {
    let event = Event::new_foreground_window_event(
        1_500 * MILLISECOND,
        42,
        "Project - application".to_owned(),
        "application.exe".to_owned(),
        None,
    );

    let row = event_row(&event).unwrap();

    assert_eq!(row.executable_path, None);
    assert_eq!(event_from_row(row), Ok(event));
}

#[test]
fn window_identifiers_past_the_stored_range_are_refused() {
    let event = Event::new_foreground_window_event(
        1_500 * MILLISECOND,
        u64::MAX,
        "title".to_owned(),
        "application.exe".to_owned(),
        None,
    );

    assert_eq!(event_row(&event), Err(StoreError::WindowIdOutOfRange));

    let late = Event::new_foreground_window_event(
        u64::MAX,
        u64::MAX,
        "title".to_owned(),
        "application.exe".to_owned(),
        None,
    );
    assert_eq!(event_row(&late), Err(StoreError::WindowIdOutOfRange));
}

#[test]
fn a_replacement_holds_one_row_per_suggestion() {
    let five_minute = Suggestion::new(1_000 * MILLISECOND, 1_300 * MILLISECOND, 2_000 * MILLISECOND, Some("MBFS-1234".to_owned()));
    let fifteen_minute = Suggestion::new(1_000 * MILLISECOND, 1_900 * MILLISECOND, 2_000 * MILLISECOND, None);

    let replacement =
        replacement(1_000 * MILLISECOND, 2_000 * MILLISECOND, &[five_minute.clone(), fifteen_minute.clone()]).unwrap();

    assert_eq!(replacement.start, 1_000);
    assert_eq!(replacement.end, 2_000);
    assert_eq!(replacement.rows.len(), 2);
    assert_eq!(suggestion_from_row(replacement.rows[0].clone()), Ok(five_minute));
    assert_eq!(suggestion_from_row(replacement.rows[1].clone()), Ok(fifteen_minute));
}

#[test]
fn a_replacement_refuses_suggestions_outside_the_range() {
    let inside = Suggestion::new(1_000 * MILLISECOND, 1_300 * MILLISECOND, 3_000 * MILLISECOND, Some("MBFS-1234".to_owned()));
    let at_end = Suggestion::new(2_000 * MILLISECOND, 2_300 * MILLISECOND, 3_000 * MILLISECOND, Some("MBFS-5678".to_owned()));
    let before_start = Suggestion::new(999 * MILLISECOND, 1_300 * MILLISECOND, 3_000 * MILLISECOND, None);

    assert_eq!(
        replacement(1_000 * MILLISECOND, 2_000 * MILLISECOND, &[inside.clone(), at_end]),
        Err(StoreError::SuggestionOutsideRange)
    );
    assert_eq!(
        replacement(1_000 * MILLISECOND, 2_000 * MILLISECOND, &[before_start, inside]),
        Err(StoreError::SuggestionOutsideRange)
    );
}

#[test]
fn an_empty_replacement_clears_the_range() {
    let replacement = replacement(1_000 * MILLISECOND, 2_000 * MILLISECOND, &[]).unwrap();

    assert!(replacement.rows.is_empty());
}

#[test]
fn a_replacement_compares_starts_in_whole_milliseconds() {
    let just_before = Suggestion::new(1_000 * MILLISECOND - 1, 1_300 * MILLISECOND, 3_000 * MILLISECOND, None);
    let same_millisecond = Suggestion::new(1_000 * MILLISECOND, 1_300 * MILLISECOND, 3_000 * MILLISECOND, None);

    assert_eq!(
        replacement(1_000 * MILLISECOND, 2_000 * MILLISECOND, &[just_before]),
        Err(StoreError::SuggestionOutsideRange)
    );
    let accepted = replacement(1_000 * MILLISECOND + 5, 2_000 * MILLISECOND, &[same_millisecond]).unwrap();
    assert_eq!(accepted.start, 1_000);
    assert_eq!(accepted.rows.len(), 1);
}
