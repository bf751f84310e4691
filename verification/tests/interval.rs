use flogging::calendar::interval::build_intervals;
use flogging::calendar::{CalendarBlock, CalendarInterval, CalendarIntervalContext};

/// One second, in nanoseconds.
const SECOND: u64 = 1_000_000_000;

const FIVE_MINUTES: u64 = 5 * 60 * SECOND;
const APPLICATION_A: &str = "application-a.exe";
const APPLICATION_B: &str = "application-b.exe";
const CONTEXT_A: &str = "Context A";
const CONTEXT_B: &str = "Context B";

#[test]
fn empty_blocks_produce_no_intervals() {
    let intervals = build_intervals(&[], FIVE_MINUTES);

    assert!(intervals.is_empty());
}

#[test]
fn places_a_block_inside_a_clock_aligned_interval() {
    let blocks = vec![block(APPLICATION_A, CONTEXT_A, 60, 120)];

    let intervals = build_intervals(&blocks, FIVE_MINUTES);

    assert_eq!(
        intervals,
        vec![interval(
            0,
            300,
            vec![interval_context(APPLICATION_A, CONTEXT_A, 60)]
        )]
    );
}

#[test]
fn splits_a_block_across_interval_boundaries() {
    let blocks = vec![block(APPLICATION_A, CONTEXT_A, 250, 350)];

    let intervals = build_intervals(&blocks, FIVE_MINUTES);

    assert_eq!(
        intervals,
        vec![
            interval(0, 300, vec![interval_context(APPLICATION_A, CONTEXT_A, 50)],),
            interval(
                300,
                600,
                vec![interval_context(APPLICATION_A, CONTEXT_A, 50)],
            ),
        ]
    );
}

#[test]
fn assigns_a_block_on_a_boundary_to_the_following_interval() {
    let blocks = vec![block(APPLICATION_A, CONTEXT_A, 300, 360)];

    let intervals = build_intervals(&blocks, FIVE_MINUTES);

    assert_eq!(
        intervals,
        vec![interval(
            300,
            600,
            vec![interval_context(APPLICATION_A, CONTEXT_A, 60)]
        )]
    );
}

#[test]
fn merges_repeated_contexts_in_an_interval() {
    let blocks = vec![
        block(APPLICATION_A, CONTEXT_A, 0, 120),
        block(APPLICATION_B, CONTEXT_B, 120, 180),
        block(APPLICATION_A, CONTEXT_A, 180, 300),
    ];

    let intervals = build_intervals(&blocks, FIVE_MINUTES);

    assert_eq!(
        intervals,
        vec![interval(
            0,
            300,
            vec![
                interval_context(APPLICATION_A, CONTEXT_A, 240),
                interval_context(APPLICATION_B, CONTEXT_B, 60),
            ]
        )]
    );
}

#[test]
fn keeps_different_descriptions_as_separate_contexts() {
    let blocks = vec![
        block(APPLICATION_A, CONTEXT_A, 0, 120),
        block(APPLICATION_A, CONTEXT_B, 120, 300),
    ];

    let intervals = build_intervals(&blocks, FIVE_MINUTES);

    assert_eq!(
        intervals,
        vec![interval(
            0,
            300,
            vec![
                interval_context(APPLICATION_A, CONTEXT_B, 180),
                interval_context(APPLICATION_A, CONTEXT_A, 120),
            ]
        )]
    );
}

#[test]
fn orders_contexts_from_longest_to_shortest() {
    let blocks = vec![
        block(APPLICATION_A, CONTEXT_A, 0, 60),
        block(APPLICATION_B, CONTEXT_B, 60, 300),
    ];

    let intervals = build_intervals(&blocks, FIVE_MINUTES);

    assert_eq!(
        intervals[0].contexts,
        vec![
            interval_context(APPLICATION_B, CONTEXT_B, 240),
            interval_context(APPLICATION_A, CONTEXT_A, 60),
        ]
    );
}

#[test]
fn does_not_create_empty_intervals_for_collection_gaps() {
    let blocks = vec![
        block(APPLICATION_A, CONTEXT_A, 60, 120),
        block(APPLICATION_B, CONTEXT_B, 660, 720),
    ];

    let intervals = build_intervals(&blocks, FIVE_MINUTES);

    assert_eq!(
        intervals,
        vec![
            interval(0, 300, vec![interval_context(APPLICATION_A, CONTEXT_A, 60)],),
            interval(
                600,
                900,
                vec![interval_context(APPLICATION_B, CONTEXT_B, 60)],
            ),
        ]
    );
}

#[test]
fn ignores_zero_duration_blocks() {
    let blocks = vec![block(APPLICATION_A, CONTEXT_A, 60, 60)];

    let intervals = build_intervals(&blocks, FIVE_MINUTES);

    assert!(intervals.is_empty());
}

fn block(executable: &str, description: &str, start_second: u64, finish_second: u64) -> CalendarBlock {
    CalendarBlock {
        start: start_second * SECOND,
        finish: finish_second * SECOND,
        observation_count: 1,
        executable: executable.to_owned(),
        description: description.to_owned(),
    }
}

fn interval(
    start_second: u64,
    finish_second: u64,
    contexts: Vec<CalendarIntervalContext>,
) -> CalendarInterval {
    CalendarInterval::new(start_second * SECOND, finish_second * SECOND, contexts)
}

fn interval_context(
    executable: &str,
    description: &str,
    duration_seconds: u64,
) -> CalendarIntervalContext {
    CalendarIntervalContext::new(
        duration_seconds * SECOND,
        executable.to_owned(),
        description.to_owned(),
    )
}

#[test]
fn intervals_are_clock_aligned_and_follow_each_other() {
    let blocks = vec![
        block(APPLICATION_A, CONTEXT_A, 61, 700),
        block(APPLICATION_B, CONTEXT_B, 700, 701),
        block(APPLICATION_A, CONTEXT_A, 1_250, 1_260),
    ];

    let intervals = build_intervals(&blocks, FIVE_MINUTES);

    let starts = intervals.iter().map(|interval| interval.start / SECOND).collect::<Vec<_>>();
    assert_eq!(starts, vec![0, 300, 600, 1_200]);
    for interval in &intervals {
        assert_eq!(interval.finish, interval.start + FIVE_MINUTES);
        assert_eq!(interval.start % FIVE_MINUTES, 0);
        assert!(!interval.contexts.is_empty());
    }
    let total: u64 = intervals
        .iter()
        .flat_map(|interval| interval.contexts.iter())
        .map(|context| context.duration)
        .sum();
    assert_eq!(total, (700 - 61 + 1 + 10) * SECOND);
}

#[test]
fn intervals_give_each_context_its_time_once_and_no_more_than_their_length() {
    let blocks = vec![
        block(APPLICATION_A, CONTEXT_A, 10, 100),
        block(APPLICATION_B, CONTEXT_B, 100, 130),
        block(APPLICATION_A, CONTEXT_A, 130, 400),
        block(APPLICATION_B, CONTEXT_B, 400, 420),
    ];

    let intervals = build_intervals(&blocks, FIVE_MINUTES);

    assert_eq!(intervals.len(), 2);
    for interval in &intervals {
        assert!(interval.suggestion.is_none());
        for (i, first) in interval.contexts.iter().enumerate() {
            for second in &interval.contexts[i + 1..] {
                assert!(
                    first.executable != second.executable || first.description != second.description
                );
            }
        }
        let held: u64 = interval.contexts.iter().map(|context| context.duration).sum();
        assert!(held <= FIVE_MINUTES);
    }
    let time_of = |executable: &str| -> u64 {
        intervals
            .iter()
            .flat_map(|interval| interval.contexts.iter())
            .filter(|context| context.executable == executable)
            .map(|context| context.duration)
            .sum()
    };
    assert_eq!(time_of(APPLICATION_A), (90 + 270) * SECOND);
    assert_eq!(time_of(APPLICATION_B), (30 + 20) * SECOND);
    assert_eq!(
        intervals[0].contexts,
        vec![
            interval_context(APPLICATION_A, CONTEXT_A, 90 + 170),
            interval_context(APPLICATION_B, CONTEXT_B, 30),
        ]
    );
}
