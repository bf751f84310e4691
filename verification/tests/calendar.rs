use chrono::NaiveDate;
use flogging::calendar::{Calendar, CalendarBlock, CalendarInterval, CalendarIntervalContext};
use flogging::events::Event;
use flogging::suggestions::Suggestion;

/// One second, in nanoseconds.
const SECOND: u64 = 1_000_000_000;

fn observations_of_five_minutes() -> Vec<Event> {
    (0..=300)
        .map(|second| {
            Event::new_foreground_window_event(
                second * SECOND,
                1,
                "Context A".to_owned(),
                "application-a.exe".to_owned(),
                None,
            )
        })
        .collect::<Vec<_>>()
}

#[test]
fn builds_a_calendar_for_the_requested_date() {
    let date = NaiveDate::from_ymd_opt(2026, 1, 15).unwrap();
    let events = observations_of_five_minutes();

    let calendar = Calendar::new(date, &events, &[]);

    assert_eq!(calendar.date, date);
    assert_eq!(
        calendar.blocks,
        vec![CalendarBlock {
            start: 0,
            finish: 300 * SECOND,
            observation_count: 301,
            executable: "application-a.exe".to_owned(),
            description: "Context A".to_owned(),
        }]
    );
    assert_eq!(
        calendar.five_minute_intervals,
        vec![CalendarInterval::new(
            0,
            300 * SECOND,
            vec![CalendarIntervalContext::new(
                300 * SECOND,
                "application-a.exe".to_owned(),
                "Context A".to_owned(),
            )],
        )]
    );
    assert_eq!(
        calendar.fifteen_minute_intervals,
        vec![CalendarInterval::new(
            0,
            900 * SECOND,
            vec![CalendarIntervalContext::new(
                300 * SECOND,
                "application-a.exe".to_owned(),
                "Context A".to_owned(),
            )],
        )]
    );
}

#[test]
fn enriches_matching_intervals_with_suggestions() {
    let date = NaiveDate::from_ymd_opt(2026, 1, 15).unwrap();
    let events = observations_of_five_minutes();
    let five_minute_suggestion =
        Suggestion::new(0, 300 * SECOND, 1_000 * SECOND, Some("MBFS-1234".to_owned()));
    let fifteen_minute_suggestion = Suggestion::new(0, 900 * SECOND, 1_000 * SECOND, None);

    let calendar = Calendar::new(
        date,
        &events,
        &[five_minute_suggestion.clone(), fifteen_minute_suggestion.clone()],
    );

    assert_eq!(calendar.five_minute_intervals[0].suggestion, Some(five_minute_suggestion));
    assert_eq!(calendar.fifteen_minute_intervals[0].suggestion, Some(fifteen_minute_suggestion));
}

#[test]
fn ignores_suggestions_that_do_not_match_a_calendar_interval() {
    let date = NaiveDate::from_ymd_opt(2026, 1, 15).unwrap();
    let suggestion = Suggestion::new(0, 300 * SECOND, 1_000 * SECOND, Some("MBFS-1234".to_owned()));

    let calendar = Calendar::new(date, &[], &[suggestion]);

    assert!(calendar.five_minute_intervals.is_empty());
    assert!(calendar.fifteen_minute_intervals.is_empty());
}

#[test]
fn calendar_blocks_keep_every_observation_of_a_short_switch() {
    let date = NaiveDate::from_ymd_opt(2026, 1, 15).unwrap();
    let mut events = Vec::new();
    for second in 0..=2u64 {
        events.push(Event::new_foreground_window_event(
            second * SECOND,
            1,
            "Context A".to_owned(),
            "application-a.exe".to_owned(),
            None,
        ));
    }
    events.push(Event::new_foreground_window_event(
        3 * SECOND,
        2,
        "Context B".to_owned(),
        "application-b.exe".to_owned(),
        None,
    ));

    let calendar = Calendar::new(date, &events, &[]);

    let total: usize = calendar.blocks.iter().map(|block| block.observation_count).sum();
    assert_eq!(total, events.len());
    assert_eq!(calendar.five_minute_intervals.len(), 1);
    assert_eq!(calendar.five_minute_intervals[0].contexts[0].duration, 3 * SECOND);
}
