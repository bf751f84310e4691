use vstd::prelude::*;

use crate::calendar::foreground_window::is_chronological;
use crate::calendar::interval::{
    add_block, add_piece, add_slots, add_time, aligned_start, calendar_intervals, context_duration,
    context_time, first_context_of, intervals_of, lemma_add_time, lemma_aligned_start,
    lemma_first_context_of_range, longest_first, max_of, min_of, same_context, with_ordered_contexts,
};
use crate::calendar::{CalendarBlock, CalendarIntervalContext, IntervalView};
use crate::sorting::{distinct_by, lemma_stable_sort_distinct, lemma_stable_sort_sum, lemma_sum_by_nonnegative};

verus! {

/// What tells one context of an interval from another: its window context.
pub open spec fn context_identity() -> spec_fn(CalendarIntervalContext) -> (Seq<char>, Seq<char>) {
    |context: CalendarIntervalContext| (context.executable@, context.description@)
}

/// An interval as the builder leaves it: no suggestion yet, and each window
/// context listed once.
pub open spec fn fresh_interval(interval: IntervalView) -> bool {
    interval.suggestion is None && distinct_by(interval.contexts, context_identity())
}

pub open spec fn all_fresh(intervals: Seq<IntervalView>) -> bool {
    forall|k: int| 0 <= k < intervals.len() ==> fresh_interval(#[trigger] intervals[k])
}

/// When no context matches the block, none of them shows its window context.
proof fn lemma_first_context_of_absent(contexts: Seq<CalendarIntervalContext>, block: CalendarBlock)
    requires
        first_context_of(contexts, block) == contexts.len(),
    ensures
        forall|i: int| 0 <= i < contexts.len() ==> !same_context(#[trigger] contexts[i], block),
    decreases contexts.len(),
{
    if contexts.len() > 0 {
        let prefix = contexts.drop_last();
        lemma_first_context_of_range(prefix, block);
        let found = first_context_of(prefix, block);
        assert(found == prefix.len());
        lemma_first_context_of_absent(prefix, block);
        assert forall|i: int| 0 <= i < contexts.len() implies !same_context(#[trigger] contexts[i], block) by {
            if i < prefix.len() {
                assert(contexts[i] == prefix[i]);
            }
        }
    }
}

/// Adding time lists each window context once.
proof fn lemma_add_time_distinct(contexts: Seq<CalendarIntervalContext>, block: CalendarBlock, duration: int)
    requires
        distinct_by(contexts, context_identity()),
    ensures
        distinct_by(add_time(contexts, block, duration), context_identity()),
{
    let id = context_identity();
    lemma_first_context_of_range(contexts, block);
    let found = first_context_of(contexts, block);
    let result = add_time(contexts, block, duration);
    if found < contexts.len() {
        assert forall|k: int| 0 <= k < result.len() implies id(#[trigger] result[k]) == id(contexts[k]) by {}
        assert forall|i: int, j: int| 0 <= i < j < result.len() implies id(#[trigger] result[i]) != id(
            #[trigger] result[j],
        ) by {
            assert(id(result[i]) == id(contexts[i]));
            assert(id(result[j]) == id(contexts[j]));
        }
    } else {
        lemma_first_context_of_absent(contexts, block);
        assert forall|i: int, j: int| 0 <= i < j < result.len() implies id(#[trigger] result[i]) != id(
            #[trigger] result[j],
        ) by {
            assert(result[i] == contexts[i]);
            if j < contexts.len() {
                assert(result[j] == contexts[j]);
            } else {
                assert(!same_context(contexts[i], block));
            }
        }
    }
}

proof fn lemma_add_piece_fresh(
    intervals: Seq<IntervalView>,
    slot_start: int,
    slot_finish: int,
    block: CalendarBlock,
    duration: int,
)
    requires
        all_fresh(intervals),
    ensures
        all_fresh(add_piece(intervals, slot_start, slot_finish, block, duration)),
{
    let opened = if intervals.len() == 0 || intervals.last().start != slot_start {
        intervals.push(
            IntervalView {
                start: slot_start as u64,
                finish: slot_finish as u64,
                contexts: Seq::empty(),
                suggestion: None,
            },
        )
    } else {
        intervals
    };
    assert(all_fresh(opened)) by {
        assert forall|k: int| 0 <= k < opened.len() implies fresh_interval(#[trigger] opened[k]) by {
            if k < intervals.len() {
                assert(opened[k] == intervals[k]);
            }
        }
    }
    let last = opened.last();
    assert(fresh_interval(opened[opened.len() - 1]));
    lemma_add_time_distinct(last.contexts, block, duration);
    let result = add_piece(intervals, slot_start, slot_finish, block, duration);
    assert forall|k: int| 0 <= k < result.len() implies fresh_interval(#[trigger] result[k]) by {
        if k < opened.len() - 1 {
            assert(result[k] == opened[k]);
        }
    }
}

proof fn lemma_add_slots_fresh(intervals: Seq<IntervalView>, block: CalendarBlock, slot_start: int, duration: int)
    requires
        all_fresh(intervals),
    ensures
        all_fresh(add_slots(intervals, block, slot_start, duration)),
    decreases max_of(block.finish - slot_start, 0),
{
    if duration > 0 && slot_start < block.finish {
        let slot_finish = slot_start + duration;
        let piece_start = max_of(block.start as int, slot_start);
        let piece_finish = min_of(block.finish as int, slot_finish);
        if piece_start < piece_finish {
            lemma_add_piece_fresh(intervals, slot_start, slot_finish, block, piece_finish - piece_start);
            let next = add_piece(intervals, slot_start, slot_finish, block, piece_finish - piece_start);
            lemma_add_slots_fresh(next, block, slot_finish, duration);
        } else {
            lemma_add_slots_fresh(intervals, block, slot_finish, duration);
        }
    }
}

proof fn lemma_intervals_of_fresh(blocks: Seq<CalendarBlock>, duration: u64)
    ensures
        all_fresh(intervals_of(blocks, duration)),
    decreases blocks.len(),
{
    if blocks.len() > 0 {
        let prefix = blocks.drop_last();
        lemma_intervals_of_fresh(prefix, duration);
        let block = blocks.last();
        if block.start < block.finish {
            lemma_add_slots_fresh(
                intervals_of(prefix, duration),
                block,
                crate::calendar::interval::aligned_start(block.start, duration),
                duration as int,
            );
        }
        assert(intervals_of(blocks, duration) == add_block(intervals_of(prefix, duration), block, duration));
    }
}

/// The builder makes intervals without a suggestion, which only enrichment
/// adds, and lists each window context once in an interval: the time of a
/// context that comes back within an interval is added to its first entry.
pub proof fn lemma_calendar_intervals_contexts(blocks: Seq<CalendarBlock>, duration: u64)
    ensures
        forall|k: int|
            0 <= k < calendar_intervals(blocks, duration).len() ==> (#[trigger] calendar_intervals(
                blocks,
                duration,
            )[k]).suggestion is None,
        forall|k: int, i: int, j: int|
            #![trigger calendar_intervals(blocks, duration)[k].contexts[i], calendar_intervals(blocks, duration)[k].contexts[j]]
            0 <= k < calendar_intervals(blocks, duration).len() && 0 <= i < j
                < calendar_intervals(blocks, duration)[k].contexts.len() ==> !(
            calendar_intervals(blocks, duration)[k].contexts[i].executable@
                == calendar_intervals(blocks, duration)[k].contexts[j].executable@
                && calendar_intervals(blocks, duration)[k].contexts[i].description@
                == calendar_intervals(blocks, duration)[k].contexts[j].description@),
{
    lemma_intervals_of_fresh(blocks, duration);
    let raw = intervals_of(blocks, duration);
    let ordered = calendar_intervals(blocks, duration);
    assert forall|k: int| 0 <= k < ordered.len() implies fresh_interval(#[trigger] ordered[k]) by {
        assert(ordered[k] == with_ordered_contexts(raw[k]));
        assert(fresh_interval(raw[k]));
        lemma_stable_sort_distinct(raw[k].contexts, longest_first(), context_identity());
    }
    assert forall|k: int, i: int, j: int|
        #![trigger ordered[k].contexts[i], ordered[k].contexts[j]]
        0 <= k < ordered.len() && 0 <= i < j < ordered[k].contexts.len() implies !(
        ordered[k].contexts[i].executable@ == ordered[k].contexts[j].executable@
            && ordered[k].contexts[i].description@ == ordered[k].contexts[j].description@) by {
        assert(fresh_interval(ordered[k]));
        let id = context_identity();
        assert(id(ordered[k].contexts[i]) != id(ordered[k].contexts[j]));
    }
}

/// The time that an interval starting at `start` can hold of what was observed
/// up to `time`.
pub open spec fn room(start: int, time: int, duration: int) -> int {
    max_of(0, min_of(time, start + duration) - start)
}

/// No interval holds more time than was observed within it up to `time`.
pub open spec fn filled_up_to(intervals: Seq<IntervalView>, time: int, duration: int) -> bool {
    forall|k: int|
        0 <= k < intervals.len() ==> context_time((#[trigger] intervals[k]).contexts) <= room(
            intervals[k].start as int,
            time,
            duration,
        )
}

pub proof fn lemma_filled_later(intervals: Seq<IntervalView>, time: int, later: int, duration: int)
    requires
        filled_up_to(intervals, time, duration),
        time <= later,
    ensures
        filled_up_to(intervals, later, duration),
{
    assert forall|k: int| 0 <= k < intervals.len() implies context_time((#[trigger] intervals[k]).contexts)
        <= room(intervals[k].start as int, later, duration) by {}
}

pub proof fn lemma_context_time_nonnegative(contexts: Seq<CalendarIntervalContext>)
    ensures
        context_time(contexts) >= 0,
{
    lemma_sum_by_nonnegative(contexts, context_duration());
}

pub proof fn lemma_add_piece_filled(
    intervals: Seq<IntervalView>,
    slot_start: int,
    block: CalendarBlock,
    piece_start: int,
    piece_finish: int,
    duration: int,
)
    requires
        duration > 0,
        0 <= slot_start <= piece_start < piece_finish <= slot_start + duration,
        slot_start <= u64::MAX,
        duration <= u64::MAX,
        filled_up_to(intervals, piece_start, duration),
    ensures
        filled_up_to(
            add_piece(intervals, slot_start, slot_start + duration, block, piece_finish - piece_start),
            piece_finish,
            duration,
        ),
{
    let length = piece_finish - piece_start;
    let opened = if intervals.len() == 0 || intervals.last().start != slot_start {
        let fresh = IntervalView {
            start: slot_start as u64,
            finish: (slot_start + duration) as u64,
            contexts: Seq::empty(),
            suggestion: None,
        };
        assert(context_time(fresh.contexts) == 0);
        intervals.push(fresh)
    } else {
        intervals
    };
    assert(filled_up_to(opened, piece_start, duration)) by {
        assert forall|k: int| 0 <= k < opened.len() implies context_time((#[trigger] opened[k]).contexts)
            <= room(opened[k].start as int, piece_start, duration) by {
            if k < intervals.len() {
                assert(opened[k] == intervals[k]);
            }
        }
    }
    lemma_filled_later(opened, piece_start, piece_finish, duration);
    let n = opened.len() - 1;
    let last = opened.last();
    assert(opened[n] == last);
    assert(last.start == slot_start);
    assert(context_time(last.contexts) <= piece_start - slot_start);
    lemma_context_time_nonnegative(last.contexts);
    lemma_add_time(last.contexts, block, length);
    let result = add_piece(intervals, slot_start, slot_start + duration, block, length);
    assert forall|k: int| 0 <= k < result.len() implies context_time((#[trigger] result[k]).contexts) <= room(
        result[k].start as int,
        piece_finish,
        duration,
    ) by {
        if k < n {
            assert(result[k] == opened[k]);
        }
    }
}

proof fn lemma_add_slots_filled(intervals: Seq<IntervalView>, block: CalendarBlock, slot_start: int, duration: int)
    requires
        duration > 0,
        duration <= u64::MAX,
        0 <= slot_start,
        block.start <= block.finish,
        slot_start + duration > block.start,
        filled_up_to(intervals, max_of(block.start as int, min_of(slot_start, block.finish as int)), duration),
    ensures
        filled_up_to(add_slots(intervals, block, slot_start, duration), block.finish as int, duration),
    decreases max_of(block.finish - slot_start, 0),
{
    if slot_start < block.finish {
        let slot_finish = slot_start + duration;
        let piece_start = max_of(block.start as int, slot_start);
        let piece_finish = min_of(block.finish as int, slot_finish);
        if piece_start < piece_finish {
            lemma_add_piece_filled(intervals, slot_start, block, piece_start, piece_finish, duration);
            let next = add_piece(intervals, slot_start, slot_finish, block, piece_finish - piece_start);
            lemma_filled_later(
                next,
                piece_finish,
                max_of(block.start as int, min_of(slot_finish, block.finish as int)),
                duration,
            );
            lemma_add_slots_filled(next, block, slot_finish, duration);
        } else {
            lemma_filled_later(
                intervals,
                max_of(block.start as int, min_of(slot_start, block.finish as int)),
                max_of(block.start as int, min_of(slot_finish, block.finish as int)),
                duration,
            );
            lemma_add_slots_filled(intervals, block, slot_finish, duration);
        }
    } else {
        lemma_filled_later(
            add_slots(intervals, block, slot_start, duration),
            max_of(block.start as int, min_of(slot_start, block.finish as int)),
            block.finish as int,
            duration,
        );
    }
}

pub proof fn lemma_intervals_of_filled(blocks: Seq<CalendarBlock>, duration: u64)
    requires
        duration / 1_000_000_000 > 0,
        is_chronological(blocks),
    ensures
        blocks.len() > 0 ==> filled_up_to(intervals_of(blocks, duration), blocks.last().finish as int, duration as int),
        blocks.len() == 0 ==> intervals_of(blocks, duration).len() == 0,
    decreases blocks.len(),
{
    if blocks.len() > 0 {
        let prefix = blocks.drop_last();
        let block = blocks.last();
        let n = blocks.len() - 1;
        assert(blocks[n] == block);
        assert(is_chronological(prefix)) by {
            assert forall|i: int| 0 <= i < prefix.len() implies #[trigger] prefix[i].start <= prefix[i].finish by {
                assert(prefix[i] == blocks[i]);
            }
            assert forall|i: int, j: int| 0 <= i < j < prefix.len() implies prefix[i].finish <= prefix[j].start by {
                assert(prefix[i] == blocks[i]);
                assert(prefix[j] == blocks[j]);
            }
        }
        lemma_intervals_of_filled(prefix, duration);
        let before = intervals_of(prefix, duration);
        assert(block.start <= block.finish);
        assert(filled_up_to(before, block.start as int, duration as int)) by {
            if prefix.len() > 0 {
                let p = prefix.len() - 1;
                assert(prefix.last() == blocks[p]);
                assert(blocks[p].finish <= blocks[n].start);
                lemma_filled_later(before, prefix.last().finish as int, block.start as int, duration as int);
            }
        }
        if block.start < block.finish {
            lemma_aligned_start(block.start, duration);
            let first = aligned_start(block.start, duration);
            lemma_add_slots_filled(before, block, first, duration as int);
        } else {
            lemma_filled_later(before, block.start as int, block.finish as int, duration as int);
        }
        assert(intervals_of(blocks, duration) == add_block(before, block, duration));
    }
}

/// When the blocks do not overlap, as those of the calendar do not, no
/// interval holds more time than its length.
pub proof fn lemma_context_time_within_interval(blocks: Seq<CalendarBlock>, duration: u64)
    requires
        duration / 1_000_000_000 > 0,
        is_chronological(blocks),
    ensures
        forall|k: int|
            0 <= k < calendar_intervals(blocks, duration).len() ==> context_time(
                (#[trigger] calendar_intervals(blocks, duration)[k]).contexts,
            ) <= duration,
{
    lemma_intervals_of_filled(blocks, duration);
    let raw = intervals_of(blocks, duration);
    let ordered = calendar_intervals(blocks, duration);
    assert forall|k: int| 0 <= k < ordered.len() implies context_time((#[trigger] ordered[k]).contexts)
        <= duration by {
        assert(ordered[k] == with_ordered_contexts(raw[k]));
        assert(context_time(raw[k].contexts) <= room(raw[k].start as int, blocks.last().finish as int, duration as int));
        lemma_stable_sort_sum(raw[k].contexts, longest_first(), context_duration());
    }
}

} // verus!
