use flogging::calendar::CalendarBlock;
use flogging::engine::build_foreground_window_calendar;
use flogging::events::Event;

/// One second, in nanoseconds.
const SECOND: u64 = 1_000_000_000;

const APPLICATION_A: &str = "application-a.exe";
const APPLICATION_B: &str = "application-b.exe";
const CONTEXT_A: &str = "Context A";
const CONTEXT_B: &str = "Context B";

#[test]
fn engine_empty_input_produces_no_blocks() {
    let blocks = build_foreground_window_calendar(&[]);

    assert!(blocks.is_empty());
}

#[test]
fn retains_a_context_at_exactly_five_minutes() {
    let events = observations(APPLICATION_A, CONTEXT_A, 0, 300);

    let blocks = build_foreground_window_calendar(&events);

    assert_eq!(blocks, vec![block(APPLICATION_A, CONTEXT_A, 0, 300, 301)]);
}

#[test]
fn discards_a_context_under_five_minutes() {
    let events = observations(APPLICATION_A, CONTEXT_A, 0, 299);

    let blocks = build_foreground_window_calendar(&events);

    assert!(blocks.is_empty());
}

#[test]
fn retains_a_context_over_five_minutes() {
    let events = observations(APPLICATION_A, CONTEXT_A, 0, 301);

    let blocks = build_foreground_window_calendar(&events);

    assert_eq!(blocks, vec![block(APPLICATION_A, CONTEXT_A, 0, 301, 302)]);
}

#[test]
fn engine_orders_observations_before_building_the_calendar() {
    let mut events = observations(APPLICATION_A, CONTEXT_A, 0, 300);
    events.reverse();

    let blocks = build_foreground_window_calendar(&events);

    assert_eq!(blocks, vec![block(APPLICATION_A, CONTEXT_A, 0, 300, 301)]);
}

#[test]
fn merges_matching_contexts_across_a_short_context_switch() {
    let mut events = observations(APPLICATION_A, CONTEXT_A, 0, 360);
    events.extend(observations(APPLICATION_B, CONTEXT_B, 361, 421));
    events.extend(observations(APPLICATION_A, CONTEXT_A, 422, 782));

    let blocks = build_foreground_window_calendar(&events);

    assert_eq!(blocks, vec![block(APPLICATION_A, CONTEXT_A, 0, 782, 722)]);
}

#[test]
fn retains_a_qualifying_context_between_matching_contexts() {
    let mut events = observations(APPLICATION_A, CONTEXT_A, 0, 360);
    events.extend(observations(APPLICATION_B, CONTEXT_B, 361, 661));
    events.extend(observations(APPLICATION_A, CONTEXT_A, 662, 1_022));

    let blocks = build_foreground_window_calendar(&events);

    assert_eq!(
        blocks,
        vec![
            block(APPLICATION_A, CONTEXT_A, 0, 360, 361),
            block(APPLICATION_B, CONTEXT_B, 361, 661, 301),
            block(APPLICATION_A, CONTEXT_A, 662, 1_022, 361),
        ]
    );
}

#[test]
fn merges_matching_contexts_across_a_short_observation_gap() {
    let mut events = observations(APPLICATION_A, CONTEXT_A, 0, 360);
    events.extend(observations(APPLICATION_A, CONTEXT_A, 600, 960));

    let blocks = build_foreground_window_calendar(&events);

    assert_eq!(blocks, vec![block(APPLICATION_A, CONTEXT_A, 0, 960, 722)]);
}

#[test]
fn splits_matching_contexts_at_a_five_minute_observation_gap() {
    let mut events = observations(APPLICATION_A, CONTEXT_A, 0, 360);
    events.extend(observations(APPLICATION_A, CONTEXT_A, 660, 1_020));

    let blocks = build_foreground_window_calendar(&events);

    assert_eq!(
        blocks,
        vec![
            block(APPLICATION_A, CONTEXT_A, 0, 360, 361),
            block(APPLICATION_A, CONTEXT_A, 660, 1_020, 361),
        ]
    );
}

#[test]
fn splits_matching_contexts_above_a_five_minute_observation_gap() {
    let mut events = observations(APPLICATION_A, CONTEXT_A, 0, 360);
    events.extend(observations(APPLICATION_A, CONTEXT_A, 661, 1_021));

    let blocks = build_foreground_window_calendar(&events);

    assert_eq!(
        blocks,
        vec![
            block(APPLICATION_A, CONTEXT_A, 0, 360, 361),
            block(APPLICATION_A, CONTEXT_A, 661, 1_021, 361),
        ]
    );
}

fn observations(executable: &str, title: &str, start_second: u64, finish_second: u64) -> Vec<Event> {
    (start_second..=finish_second)
        .map(|second| {
            Event::new_foreground_window_event(
                second * SECOND,
                1,
                title.to_owned(),
                executable.to_owned(),
                None,
            )
        })
        .collect()
}

fn block(
    executable: &str,
    description: &str,
    start_second: u64,
    finish_second: u64,
    observation_count: usize,
) -> CalendarBlock {
    CalendarBlock {
        start: start_second * SECOND,
        finish: finish_second * SECOND,
        observation_count,
        executable: executable.to_owned(),
        description: description.to_owned(),
    }
}

#[test]
fn calendar_blocks_start_and_finish_at_observations_of_their_context() {
    let mut events = observations(APPLICATION_A, CONTEXT_A, 0, 360);
    events.extend(observations(APPLICATION_B, CONTEXT_B, 361, 421));
    events.extend(observations(APPLICATION_A, CONTEXT_A, 422, 782));

    let blocks = build_foreground_window_calendar(&events);

    assert!(!blocks.is_empty());
    for block in &blocks {
        let observed = |time: u64| {
            events.iter().any(|event| {
                event.observed_at == time && {
                    let (title, executable) = event.window_context();
                    *title == block.description && *executable == block.executable
                }
            })
        };
        assert!(observed(block.start));
        assert!(observed(block.finish));
        assert!(block.finish - block.start >= 300 * SECOND);
    }
}

#[test]
fn calendar_does_not_depend_on_the_order_of_observations() {
    let mut events = observations(APPLICATION_A, CONTEXT_A, 0, 360);
    events.extend(observations(APPLICATION_B, CONTEXT_B, 361, 661));
    events.extend(observations(APPLICATION_A, CONTEXT_A, 662, 1_022));
    let expected = build_foreground_window_calendar(&events);

    let mut shuffled = Vec::new();
    for stride in 0..7 {
        let mut index = stride;
        while index < events.len() {
            shuffled.push(events[index].clone());
            index += 7;
        }
    }

    assert_eq!(shuffled.len(), events.len());
    assert_eq!(build_foreground_window_calendar(&shuffled), expected);
}
