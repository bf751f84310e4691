use flogging::calendar::foreground_window::build_foreground_window_blocks;
use flogging::calendar::CalendarBlock;
use flogging::events::Event;

/// One second, in nanoseconds.
const SECOND: u64 = 1_000_000_000;

const APPLICATION_A: &str = "application-a.exe";
const APPLICATION_B: &str = "application-b.exe";
const CONTEXT_A: &str = "Context A";
const CONTEXT_B: &str = "Context B";

#[test]
fn foreground_window_empty_input_produces_no_blocks() {
    let blocks = build_foreground_window_blocks(&[]);

    assert!(blocks.is_empty());
}

#[test]
fn builds_a_block_from_a_single_observation() {
    let events = observations(APPLICATION_A, CONTEXT_A, 0, 0);

    let blocks = build_foreground_window_blocks(&events);

    assert_eq!(blocks, vec![block(APPLICATION_A, CONTEXT_A, 0, 0, 1)]);
}

#[test]
fn combines_consecutive_matching_observations() {
    let events = observations(APPLICATION_A, CONTEXT_A, 0, 2);

    let blocks = build_foreground_window_blocks(&events);

    assert_eq!(blocks, vec![block(APPLICATION_A, CONTEXT_A, 0, 2, 3)]);
}

#[test]
fn extends_an_occurrence_until_the_next_observation() {
    let mut events = observations(APPLICATION_A, CONTEXT_A, 0, 0);
    events.extend(observations(APPLICATION_B, CONTEXT_B, 1, 2));

    let blocks = build_foreground_window_blocks(&events);

    assert_eq!(
        blocks,
        vec![
            block(APPLICATION_A, CONTEXT_A, 0, 1, 1),
            block(APPLICATION_B, CONTEXT_B, 1, 2, 2),
        ]
    );
}

#[test]
fn retains_short_occurrences() {
    let mut events = observations(APPLICATION_A, CONTEXT_A, 0, 2);
    events.extend(observations(APPLICATION_B, CONTEXT_B, 3, 4));

    let blocks = build_foreground_window_blocks(&events);

    assert_eq!(
        blocks,
        vec![
            block(APPLICATION_A, CONTEXT_A, 0, 3, 3),
            block(APPLICATION_B, CONTEXT_B, 3, 4, 2),
        ]
    );
}

#[test]
fn foreground_window_orders_observations_before_building_the_calendar() {
    let mut events = observations(APPLICATION_A, CONTEXT_A, 0, 2);
    events.reverse();

    let blocks = build_foreground_window_blocks(&events);

    assert_eq!(blocks, vec![block(APPLICATION_A, CONTEXT_A, 0, 2, 3)]);
}

#[test]
fn starts_a_new_occurrence_when_the_title_changes() {
    let mut events = observations(APPLICATION_A, CONTEXT_A, 0, 1);
    events.extend(observations(APPLICATION_A, CONTEXT_B, 2, 3));

    let blocks = build_foreground_window_blocks(&events);

    assert_eq!(
        blocks,
        vec![
            block(APPLICATION_A, CONTEXT_A, 0, 2, 2),
            block(APPLICATION_A, CONTEXT_B, 2, 3, 2),
        ]
    );
}

#[test]
fn starts_a_new_occurrence_when_the_executable_changes() {
    let mut events = observations(APPLICATION_A, CONTEXT_A, 0, 1);
    events.extend(observations(APPLICATION_B, CONTEXT_A, 2, 3));

    let blocks = build_foreground_window_blocks(&events);

    assert_eq!(
        blocks,
        vec![
            block(APPLICATION_A, CONTEXT_A, 0, 2, 2),
            block(APPLICATION_B, CONTEXT_A, 2, 3, 2),
        ]
    );
}

#[test]
fn keeps_matching_contexts_as_separate_occurrences_across_a_context_switch() {
    let mut events = observations(APPLICATION_A, CONTEXT_A, 0, 1);
    events.extend(observations(APPLICATION_B, CONTEXT_B, 2, 3));
    events.extend(observations(APPLICATION_A, CONTEXT_A, 4, 5));

    let blocks = build_foreground_window_blocks(&events);

    assert_eq!(
        blocks,
        vec![
            block(APPLICATION_A, CONTEXT_A, 0, 2, 2),
            block(APPLICATION_B, CONTEXT_B, 2, 4, 2),
            block(APPLICATION_A, CONTEXT_A, 4, 5, 2),
        ]
    );
}

#[test]
fn combines_matching_observations_at_the_maximum_continuous_gap() {
    let mut events = observations(APPLICATION_A, CONTEXT_A, 0, 1);
    events.extend(observations(APPLICATION_A, CONTEXT_A, 6, 7));

    let blocks = build_foreground_window_blocks(&events);

    assert_eq!(blocks, vec![block(APPLICATION_A, CONTEXT_A, 0, 7, 4)]);
}

#[test]
fn splits_matching_contexts_after_collection_stops() {
    let mut events = observations(APPLICATION_A, CONTEXT_A, 0, 1);
    events.extend(observations(APPLICATION_A, CONTEXT_A, 7, 8));

    let blocks = build_foreground_window_blocks(&events);

    assert_eq!(
        blocks,
        vec![
            block(APPLICATION_A, CONTEXT_A, 0, 1, 2),
            block(APPLICATION_A, CONTEXT_A, 7, 8, 2),
        ]
    );
}

fn observations(executable: &str, title: &str, start_second: u64, finish_second: u64) -> Vec<Event> {
    (start_second..=finish_second)
        .map(|second| {
            Event::new_foreground_window_event(
                second * SECOND,
                1,
                title.to_owned(),
                executable.to_owned(),
                None,
            )
        })
        .collect()
}

fn block(
    executable: &str,
    description: &str,
    start_second: u64,
    finish_second: u64,
    observation_count: usize,
) -> CalendarBlock {
    CalendarBlock {
        start: start_second * SECOND,
        finish: finish_second * SECOND,
        observation_count,
        executable: executable.to_owned(),
        description: description.to_owned(),
    }
}

#[test]
fn consecutive_blocks_meet_at_a_context_switch_or_lie_apart() {
    let mut events = observations(APPLICATION_A, CONTEXT_A, 0, 2);
    events.extend(observations(APPLICATION_B, CONTEXT_B, 5, 6));
    events.extend(observations(APPLICATION_B, CONTEXT_B, 20, 21));

    let blocks = build_foreground_window_blocks(&events);

    assert_eq!(
        blocks,
        vec![
            block(APPLICATION_A, CONTEXT_A, 0, 5, 3),
            block(APPLICATION_B, CONTEXT_B, 5, 6, 2),
            block(APPLICATION_B, CONTEXT_B, 20, 21, 2),
        ]
    );
    assert_eq!(blocks[0].finish, blocks[1].start);
    assert!(blocks[2].start - blocks[1].finish > 5 * SECOND);
}
