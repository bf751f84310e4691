pub mod foreground_window;
pub mod interval;
pub mod interval_contexts;
pub mod interval_shape;
pub mod interval_slots;
pub mod suggestion;

use vstd::prelude::*;

use chrono::NaiveDate;

use crate::calendar::foreground_window::{
    build_foreground_window_blocks, foreground_window_blocks, is_chronological, lemma_blocks_of,
};
use crate::calendar::interval::{
    block_duration, blocks_time, build_intervals, calendar_intervals, intervals_fit,
};
use crate::calendar::suggestion::{enrich_intervals, enriched};
use crate::events::{chronological, lemma_chronological, time_order, Event};
use crate::sorting::{lemma_sum_by_nonnegative, sum_by};
use crate::suggestions::Suggestion;

verus! {

/// A stretch of time spent in one window context. Times are nanoseconds since
/// the Unix epoch.
#[derive(Debug, Clone, PartialEq, Eq)]
pub struct CalendarBlock {
    pub start: u64,
    pub finish: u64,
    pub observation_count: usize,
    pub executable: String,
    pub description: String,
}

impl CalendarBlock {
    pub fn new(observed_at: u64, executable: String, description: String) -> (block: Self)
        ensures
            block == (CalendarBlock {
                start: observed_at,
                finish: observed_at,
                observation_count: 1,
                executable,
                description,
            }),
    {
        CalendarBlock {
            start: observed_at,
            finish: observed_at,
            observation_count: 1,
            executable,
            description,
        }
    }

    /// A copy of this block.
    pub(crate) fn duplicate(&self) -> (copy: Self)
        ensures
            copy == *self,
    {
        CalendarBlock {
            start: self.start,
            finish: self.finish,
            observation_count: self.observation_count,
            executable: self.executable.clone(),
            description: self.description.clone(),
        }
    }
}

/// The time spent in one window context within an interval, in nanoseconds.
#[derive(Debug, Clone, PartialEq, Eq)]
pub struct CalendarIntervalContext {
    pub duration: u64,
    pub executable: String,
    pub description: String,
}

impl CalendarIntervalContext {
    pub fn new(duration: u64, executable: String, description: String) -> (context: Self)
        ensures
            context == (CalendarIntervalContext { duration, executable, description }),
    {
        CalendarIntervalContext { duration, executable, description }
    }
}

/// A clock-aligned interval of the day, the contexts observed in it and the
/// suggestion stored for it.
#[derive(Debug, Clone, PartialEq, Eq)]
pub struct CalendarInterval {
    pub start: u64,
    pub finish: u64,
    pub contexts: Vec<CalendarIntervalContext>,
    pub suggestion: Option<Suggestion>,
}

/// The mathematical value of a `CalendarInterval`.
pub struct IntervalView {
    pub start: u64,
    pub finish: u64,
    pub contexts: Seq<CalendarIntervalContext>,
    pub suggestion: Option<Suggestion>,
}

impl View for CalendarInterval {
    type V = IntervalView;

    open spec fn view(&self) -> IntervalView {
        IntervalView {
            start: self.start,
            finish: self.finish,
            contexts: self.contexts@,
            suggestion: self.suggestion,
        }
    }
}

/// The views of a sequence of intervals.
pub open spec fn intervals_view(intervals: Seq<CalendarInterval>) -> Seq<IntervalView> {
    intervals.map_values(|interval: CalendarInterval| interval@)
}

impl CalendarInterval {
    pub fn new(start: u64, finish: u64, contexts: Vec<CalendarIntervalContext>) -> (interval: Self)
        ensures
            interval@ == (IntervalView { start, finish, contexts: contexts@, suggestion: None }),
    {
        CalendarInterval { start, finish, contexts, suggestion: None }
    }
}

/// Five minutes, in nanoseconds.
pub const FIVE_MINUTES: u64 = 300_000_000_000;

/// Fifteen minutes, in nanoseconds.
pub const FIFTEEN_MINUTES: u64 = 900_000_000_000;

/// The calendar of one day: its blocks and its 5-minute and 15-minute
/// intervals, each interval with the suggestion stored for it.
#[derive(Debug, PartialEq, Eq)]
pub struct Calendar {
    pub date: NaiveDate,
    pub blocks: Vec<CalendarBlock>,
    pub five_minute_intervals: Vec<CalendarInterval>,
    pub fifteen_minute_intervals: Vec<CalendarInterval>,
}

/// Every observation lies at least fifteen minutes before the end of the range
/// of time, so that the intervals that hold it can be named.
pub open spec fn observed_within_range(events: Seq<Event>) -> bool {
    forall|i: int| 0 <= i < events.len() ==> #[trigger] events[i].observed_at + FIFTEEN_MINUTES <= u64::MAX + 1
}

/// Chronological blocks last no longer than the span from the start of the
/// first to the finish of the last.
pub proof fn lemma_chronological_blocks_time(blocks: Seq<CalendarBlock>)
    requires
        blocks.len() > 0,
        is_chronological(blocks),
    ensures
        blocks_time(blocks) <= blocks.last().finish - blocks[0].start,
    decreases blocks.len(),
{
    let prefix = blocks.drop_last();
    if prefix.len() > 0 {
        assert(is_chronological(prefix)) by {
            assert forall|i: int| 0 <= i < prefix.len() implies #[trigger] prefix[i].start <= prefix[i].finish by {
                assert(prefix[i] == blocks[i]);
            }
            assert forall|i: int, j: int| 0 <= i < j < prefix.len() implies prefix[i].finish <= prefix[j].start by {
                assert(prefix[i] == blocks[i]);
                assert(prefix[j] == blocks[j]);
            }
        }
        lemma_chronological_blocks_time(prefix);
        assert(prefix.last() == blocks[blocks.len() - 2]);
        assert(prefix[0] == blocks[0]);
    } else {
        assert(blocks_time(prefix) == 0);
        assert(blocks[0] == blocks.last());
    }
    assert(blocks.last().start <= blocks.last().finish);
    assert(blocks_time(blocks) == blocks_time(prefix) + (block_duration())(blocks.last()));
}

/// The blocks of observations within range fit any interval length from one
/// second up to fifteen minutes.
pub proof fn lemma_blocks_fit(events: Seq<Event>, duration: u64)
    requires
        events.len() <= usize::MAX,
        observed_within_range(events),
        duration / 1_000_000_000 > 0,
        duration <= FIFTEEN_MINUTES,
    ensures
        intervals_fit(foreground_window_blocks(events), duration),
{
    lemma_chronological(events);
    let sorted = chronological(events);
    lemma_blocks_of(sorted);
    let blocks = foreground_window_blocks(events);
    if blocks.len() > 0 {
        let n = events.len();
        assert(sorted[n - 1] == events[time_order(events)[n - 1] as int]);
        assert(sorted.last().observed_at + FIFTEEN_MINUTES <= u64::MAX + 1);
        lemma_chronological_blocks_time(blocks);
        assert forall|k: int|
            0 <= k < blocks.len() && #[trigger] blocks[k].start < blocks[k].finish implies blocks[k].finish
                + duration <= u64::MAX + 1 by {
            if k < blocks.len() - 1 {
                assert(blocks[k].finish <= blocks[blocks.len() - 1].start);
            }
        }
    }
}

impl Calendar {
    /// Builds the calendar of a day from its observations and the suggestions
    /// stored for it.
    pub fn new(date: NaiveDate, events: &[Event], suggestions: &[Suggestion]) -> (calendar: Self)
        requires
            observed_within_range(events@),
        ensures
            calendar.date == date,
            calendar.blocks@ == foreground_window_blocks(events@),
            intervals_view(calendar.five_minute_intervals@) == enriched(
                calendar_intervals(foreground_window_blocks(events@), FIVE_MINUTES),
                suggestions@,
            ),
            intervals_view(calendar.fifteen_minute_intervals@) == enriched(
                calendar_intervals(foreground_window_blocks(events@), FIFTEEN_MINUTES),
                suggestions@,
            ),
    {
        proof {
            assert(events@.len() == events.len());
            lemma_blocks_fit(events@, FIVE_MINUTES);
            lemma_blocks_fit(events@, FIFTEEN_MINUTES);
        }
        let blocks = build_foreground_window_blocks(events);
        let five_minute_intervals = enrich_intervals(build_intervals(&blocks, FIVE_MINUTES), suggestions);
        let fifteen_minute_intervals = enrich_intervals(
            build_intervals(&blocks, FIFTEEN_MINUTES),
            suggestions,
        );
        Calendar { date, blocks, five_minute_intervals, fifteen_minute_intervals }
    }
}

} // verus!
