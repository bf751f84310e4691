use vstd::prelude::*;

use crate::calendar::foreground_window::is_chronological;
use crate::calendar::interval::{
    add_piece, add_slots, add_time, aligned_start, calendar_intervals, intervals_fit, intervals_of, lemma_aligned_start, lemma_first_context_of_range, longest_first,
    max_of, min_of, with_ordered_contexts,
};
use crate::calendar::{CalendarBlock, CalendarIntervalContext, IntervalView};
use crate::sorting::lemma_stable_sort_len;

verus! {

/// The interval lasts `duration` and holds at least one context.
pub open spec fn well_shaped(interval: IntervalView, duration: int) -> bool {
    interval.finish == interval.start + duration && interval.contexts.len() > 0
}

/// Every interval lasts `duration` and holds at least one context.
pub open spec fn all_well_shaped(intervals: Seq<IntervalView>, duration: int) -> bool {
    forall|k: int| 0 <= k < intervals.len() ==> well_shaped(#[trigger] intervals[k], duration)
}

/// The intervals start at multiples of `duration`, in strictly increasing
/// order.
pub open spec fn on_the_clock(intervals: Seq<IntervalView>, duration: int) -> bool {
    &&& forall|k: int| 0 <= k < intervals.len() ==> (#[trigger] intervals[k]).start as int % duration == 0
    &&& forall|i: int, j: int|
        0 <= i < j < intervals.len() ==> (#[trigger] intervals[i]).start < (#[trigger] intervals[j]).start
}

/// Adding time leaves at least one context.
proof fn lemma_add_time_not_empty(contexts: Seq<CalendarIntervalContext>, block: CalendarBlock, duration: int)
    ensures
        add_time(contexts, block, duration).len() >= 1,
{
    lemma_first_context_of_range(contexts, block);
}

/// A piece keeps every interval well shaped.
proof fn lemma_add_piece_shape(
    intervals: Seq<IntervalView>,
    slot_start: int,
    slot_finish: int,
    block: CalendarBlock,
    duration: int,
    length: int,
)
    requires
        all_well_shaped(intervals, length),
        length > 0,
        slot_finish == slot_start + length,
        0 <= slot_start,
        slot_finish <= u64::MAX,
    ensures
        all_well_shaped(add_piece(intervals, slot_start, slot_finish, block, duration), length),
{
    let result = add_piece(intervals, slot_start, slot_finish, block, duration);
    if intervals.len() == 0 || intervals.last().start != slot_start {
        let fresh = IntervalView {
            start: slot_start as u64,
            finish: slot_finish as u64,
            contexts: Seq::empty(),
            suggestion: None,
        };
        let opened = intervals.push(fresh);
        lemma_add_time_not_empty(fresh.contexts, block, duration);
        assert(result == opened.update(
            opened.len() - 1,
            IntervalView { contexts: add_time(fresh.contexts, block, duration), ..fresh },
        ));
        assert forall|k: int| 0 <= k < result.len() implies well_shaped(#[trigger] result[k], length) by {
            if k < intervals.len() {
                assert(result[k] == intervals[k]);
            }
        }
    } else {
        let last = intervals.last();
        assert(well_shaped(intervals[intervals.len() - 1], length));
        lemma_add_time_not_empty(last.contexts, block, duration);
        assert forall|k: int| 0 <= k < result.len() implies well_shaped(#[trigger] result[k], length) by {
            if k < intervals.len() - 1 {
                assert(result[k] == intervals[k]);
            }
        }
    }
}

/// The slots of one block keep every interval well shaped.
proof fn lemma_add_slots_shape(intervals: Seq<IntervalView>, block: CalendarBlock, slot_start: int, length: int)
    requires
        length > 0,
        0 <= slot_start,
        block.finish + length <= u64::MAX + 1,
        all_well_shaped(intervals, length),
    ensures
        all_well_shaped(add_slots(intervals, block, slot_start, length), length),
    decreases max_of(block.finish - slot_start, 0),
{
    if slot_start < block.finish {
        let slot_finish = slot_start + length;
        let piece_start = max_of(block.start as int, slot_start);
        let piece_finish = min_of(block.finish as int, slot_finish);
        if piece_start < piece_finish {
            lemma_add_piece_shape(
                intervals,
                slot_start,
                slot_finish,
                block,
                piece_finish - piece_start,
                length,
            );
            let next = add_piece(intervals, slot_start, slot_finish, block, piece_finish - piece_start);
            lemma_add_slots_shape(next, block, slot_finish, length);
        } else {
            lemma_add_slots_shape(intervals, block, slot_finish, length);
        }
    }
}

/// The intervals of blocks that fit all last `duration` and hold a context.
proof fn lemma_intervals_of_shape(blocks: Seq<CalendarBlock>, duration: u64)
    requires
        intervals_fit(blocks, duration),
    ensures
        all_well_shaped(intervals_of(blocks, duration), duration as int),
    decreases blocks.len(),
{
    if blocks.len() > 0 {
        let prefix = blocks.drop_last();
        assert(intervals_fit(prefix, duration)) by {
            assert forall|k: int|
                0 <= k < prefix.len() && #[trigger] prefix[k].start < prefix[k].finish implies prefix[k].finish
                    + duration <= u64::MAX + 1 by {
                assert(prefix[k] == blocks[k]);
            }
            crate::sorting::lemma_sum_by_nonnegative(blocks, crate::calendar::interval::block_duration());
            assert(crate::calendar::interval::block_duration()(blocks.last()) >= 0);
        }
        lemma_intervals_of_shape(prefix, duration);
        let block = blocks.last();
        if block.start < block.finish {
            assert(blocks[blocks.len() - 1] == block);
            lemma_aligned_start(block.start, duration);
            lemma_add_slots_shape(
                intervals_of(prefix, duration),
                block,
                aligned_start(block.start, duration),
                duration as int,
            );
        }
    }
}

/// With whole seconds, the aligned start is the last multiple of the interval
/// length at or before the start.
pub proof fn lemma_aligned_start_on_the_clock(start: u64, duration: u64)
    requires
        duration % 1_000_000_000 == 0,
        duration / 1_000_000_000 > 0,
    ensures
        aligned_start(start, duration) % (duration as int) == 0,
        0 <= aligned_start(start, duration) <= start,
{
    lemma_aligned_start(start, duration);
    let seconds = (start / 1_000_000_000) as int;
    let q = (duration / 1_000_000_000) as int;
    let d = duration as int;
    let aligned = aligned_start(start, duration);
    assert(d == q * 1_000_000_000);
    assert(aligned == (seconds - seconds % q) * 1_000_000_000);
    assert(seconds - seconds % q == (seconds / q) * q) by (nonlinear_arith)
        requires
            q > 0,
    ;
    assert(aligned == (seconds / q) * d) by (nonlinear_arith)
        requires
            aligned == (seconds - seconds % q) * 1_000_000_000,
            seconds - seconds % q == (seconds / q) * q,
            d == q * 1_000_000_000,
    ;
    assert(aligned % d == 0) by (nonlinear_arith)
        requires
            aligned == (seconds / q) * d,
            d > 0,
            seconds >= 0,
    ;
}

/// A multiple of `d` at or before `t` is at most the last multiple of `d` that
/// lies within the same run of `d` as `t`.
pub proof fn lemma_multiple_below(x: int, t: int, d: int, aligned: int)
    requires
        d > 0,
        0 <= x <= t,
        x % d == 0,
        aligned % d == 0,
        0 <= aligned <= t,
        t < aligned + d,
    ensures
        x <= aligned,
{
    assert(x <= aligned) by (nonlinear_arith)
        requires
            d > 0,
            0 <= x <= t,
            x % d == 0,
            aligned % d == 0,
            0 <= aligned,
            t < aligned + d,
    {
        let a = x / d;
        let b = aligned / d;
        assert(x == a * d);
        assert(aligned == b * d);
        if a > b {
            assert(a >= b + 1);
            assert(a * d >= (b + 1) * d);
            assert(x >= aligned + d);
        }
    }
}

/// A piece keeps the intervals on the clock when its slot is on the clock and
/// not before the last interval; the last interval then starts at the slot.
pub proof fn lemma_add_piece_order(
    intervals: Seq<IntervalView>,
    slot_start: int,
    slot_finish: int,
    block: CalendarBlock,
    duration: int,
    length: int,
)
    requires
        length > 0,
        on_the_clock(intervals, length),
        slot_start % length == 0,
        0 <= slot_start <= slot_finish,
        slot_finish <= u64::MAX,
        intervals.len() > 0 ==> intervals.last().start <= slot_start,
    ensures
        on_the_clock(add_piece(intervals, slot_start, slot_finish, block, duration), length),
        add_piece(intervals, slot_start, slot_finish, block, duration).len() > 0,
        add_piece(intervals, slot_start, slot_finish, block, duration).last().start == slot_start,
        forall|k: int|
            0 <= k < add_piece(intervals, slot_start, slot_finish, block, duration).len() ==> {
                ||| (#[trigger] add_piece(intervals, slot_start, slot_finish, block, duration)[k]).start
                    == slot_start
                ||| (k < intervals.len() && intervals[k].start == add_piece(
                    intervals,
                    slot_start,
                    slot_finish,
                    block,
                    duration,
                )[k].start)
            },
{
    let result = add_piece(intervals, slot_start, slot_finish, block, duration);
    let n = intervals.len();
    if n == 0 || intervals.last().start != slot_start {
        let fresh = IntervalView {
            start: slot_start as u64,
            finish: slot_finish as u64,
            contexts: Seq::empty(),
            suggestion: None,
        };
        let opened = intervals.push(fresh);
        assert(result == opened.update(
            opened.len() - 1,
            IntervalView { contexts: add_time(fresh.contexts, block, duration), ..fresh },
        ));
        assert(result.len() == n + 1);
        assert(result[n as int].start == slot_start);
        assert forall|k: int| 0 <= k < n implies #[trigger] result[k] == intervals[k] by {}
        assert forall|i: int, j: int| 0 <= i < j < result.len() implies (#[trigger] result[i]).start
            < (#[trigger] result[j]).start by {
            assert(result[i] == intervals[i]);
            if j < n {
                assert(result[j] == intervals[j]);
            } else {
                if i < n - 1 {
                    assert(intervals[i].start < intervals[n - 1].start);
                }
                assert(intervals[n - 1] == intervals.last());
            }
        }
        assert forall|k: int| 0 <= k < result.len() implies (#[trigger] result[k]).start as int % length
            == 0 by {
            if k < n {
                assert(result[k] == intervals[k]);
            }
        }
    } else {
        assert(result.len() == n);
        assert forall|k: int| 0 <= k < n implies (#[trigger] result[k]).start == intervals[k].start by {}
        assert(intervals[n - 1] == intervals.last());
        assert forall|i: int, j: int| 0 <= i < j < result.len() implies (#[trigger] result[i]).start
            < (#[trigger] result[j]).start by {
            assert(result[i].start == intervals[i].start);
            assert(result[j].start == intervals[j].start);
        }
        assert forall|k: int| 0 <= k < result.len() implies (#[trigger] result[k]).start as int % length
            == 0 by {
            assert(result[k].start == intervals[k].start);
        }
    }
}

/// The slots of one block keep the intervals on the clock, when the block's
/// first slot is on the clock and not before the last interval; every
/// interval then starts before the block finishes, given that every interval
/// did.
proof fn lemma_add_slots_order(intervals: Seq<IntervalView>, block: CalendarBlock, slot_start: int, length: int)
    requires
        length > 0,
        0 <= slot_start,
        slot_start % length == 0,
        block.finish + length <= u64::MAX + 1,
        on_the_clock(intervals, length),
        intervals.len() > 0 ==> intervals.last().start <= slot_start,
        forall|k: int| 0 <= k < intervals.len() ==> (#[trigger] intervals[k]).start < block.finish,
    ensures
        on_the_clock(add_slots(intervals, block, slot_start, length), length),
        forall|k: int|
            0 <= k < add_slots(intervals, block, slot_start, length).len() ==> (#[trigger] add_slots(
                intervals,
                block,
                slot_start,
                length,
            )[k]).start < block.finish,
    decreases max_of(block.finish - slot_start, 0),
{
    if slot_start < block.finish {
        let slot_finish = slot_start + length;
        let piece_start = max_of(block.start as int, slot_start);
        let piece_finish = min_of(block.finish as int, slot_finish);
        assert(slot_finish % length == 0) by (nonlinear_arith)
            requires
                slot_start % length == 0,
                slot_finish == slot_start + length,
                length > 0,
        ;
        if piece_start < piece_finish {
            let next = add_piece(intervals, slot_start, slot_finish, block, piece_finish - piece_start);
            lemma_add_piece_order(
                intervals,
                slot_start,
                slot_finish,
                block,
                piece_finish - piece_start,
                length,
            );
            assert forall|k: int| 0 <= k < next.len() implies (#[trigger] next[k]).start < block.finish by {
                if next[k].start != slot_start {
                    assert(intervals[k].start < block.finish);
                }
            }
            lemma_add_slots_order(next, block, slot_finish, length);
        } else {
            lemma_add_slots_order(intervals, block, slot_finish, length);
        }
    }
}

/// The intervals of chronological blocks, with whole seconds of interval
/// length, are on the clock, and start before the last block finishes.
pub proof fn lemma_intervals_of_order(blocks: Seq<CalendarBlock>, duration: u64)
    requires
        intervals_fit(blocks, duration),
        duration % 1_000_000_000 == 0,
        is_chronological(blocks),
    ensures
        on_the_clock(intervals_of(blocks, duration), duration as int),
        blocks.len() > 0 ==> forall|k: int|
            0 <= k < intervals_of(blocks, duration).len() ==> (#[trigger] intervals_of(blocks, duration)[k]).start
                < blocks.last().finish,
    decreases blocks.len(),
{
    if blocks.len() > 0 {
        let prefix = blocks.drop_last();
        let block = blocks.last();
        let n = blocks.len() - 1;
        assert(blocks[n] == block);
        assert(intervals_fit(prefix, duration)) by {
            assert forall|k: int|
                0 <= k < prefix.len() && #[trigger] prefix[k].start < prefix[k].finish implies prefix[k].finish
                    + duration <= u64::MAX + 1 by {
                assert(prefix[k] == blocks[k]);
            }
            crate::sorting::lemma_sum_by_nonnegative(blocks, crate::calendar::interval::block_duration());
            assert(crate::calendar::interval::block_duration()(blocks.last()) >= 0);
        }
        assert(is_chronological(prefix)) by {
            assert forall|i: int| 0 <= i < prefix.len() implies #[trigger] prefix[i].start <= prefix[i].finish by {
                assert(prefix[i] == blocks[i]);
            }
            assert forall|i: int, j: int| 0 <= i < j < prefix.len() implies prefix[i].finish <= prefix[j].start by {
                assert(prefix[i] == blocks[i]);
                assert(prefix[j] == blocks[j]);
            }
        }
        lemma_intervals_of_order(prefix, duration);
        let before = intervals_of(prefix, duration);
        assert(block.start <= block.finish);
        assert forall|k: int| 0 <= k < before.len() implies (#[trigger] before[k]).start < block.start
            || (before[k].start < block.finish && block.start < block.finish) by {
            let p = prefix.len() - 1;
            assert(prefix.last() == blocks[p]);
            assert(blocks[p].finish <= blocks[n].start);
            assert(before[k].start < prefix.last().finish);
        }
        if block.start < block.finish {
            let d = duration as int;
            lemma_aligned_start_on_the_clock(block.start, duration);
            lemma_aligned_start(block.start, duration);
            let first = aligned_start(block.start, duration);
            if before.len() > 0 {
                let last = before.last();
                assert(before[before.len() - 1] == last);
                assert(last.start as int % d == 0);
                lemma_multiple_below(last.start as int, block.start as int, d, first);
            }
            lemma_add_slots_order(before, block, first, d);
        } else {
            assert forall|k: int| 0 <= k < before.len() implies (#[trigger] before[k]).start < block.finish by {
                let p = prefix.len() - 1;
                assert(prefix.last() == blocks[p]);
                assert(blocks[p].finish <= blocks[n].start);
                assert(before[k].start < prefix.last().finish);
            }
        }
    }
}

/// Every interval of the calendar lasts the interval length and holds at least
/// one context: no interval is made for a gap in collection. With an interval
/// length of whole seconds and blocks in time order, the intervals are aligned
/// to the clock, at multiples of their length, and follow each other in time.
pub proof fn lemma_calendar_intervals_shape(blocks: Seq<CalendarBlock>, duration: u64)
    requires
        intervals_fit(blocks, duration),
    ensures
        forall|k: int|
            0 <= k < calendar_intervals(blocks, duration).len() ==> (#[trigger] calendar_intervals(
                blocks,
                duration,
            )[k]).finish == calendar_intervals(blocks, duration)[k].start + duration
                && calendar_intervals(blocks, duration)[k].contexts.len() > 0,
        duration % 1_000_000_000 == 0 && is_chronological(blocks) ==> on_the_clock(
            calendar_intervals(blocks, duration),
            duration as int,
        ),
{
    lemma_intervals_of_shape(blocks, duration);
    let raw = intervals_of(blocks, duration);
    let ordered = calendar_intervals(blocks, duration);
    assert forall|k: int| 0 <= k < ordered.len() implies (#[trigger] ordered[k]).finish == ordered[k].start
        + duration && ordered[k].contexts.len() > 0 by {
        assert(ordered[k] == with_ordered_contexts(raw[k]));
        assert(well_shaped(raw[k], duration as int));
        lemma_stable_sort_len(raw[k].contexts, longest_first());
    }
    if duration % 1_000_000_000 == 0 && is_chronological(blocks) {
        lemma_intervals_of_order(blocks, duration);
        assert forall|k: int| 0 <= k < ordered.len() implies (#[trigger] ordered[k]).start as int % (duration as int)
            == 0 by {
            assert(ordered[k] == with_ordered_contexts(raw[k]));
        }
        assert forall|i: int, j: int| 0 <= i < j < ordered.len() implies (#[trigger] ordered[i]).start
            < (#[trigger] ordered[j]).start by {
            assert(ordered[i] == with_ordered_contexts(raw[i]));
            assert(ordered[j] == with_ordered_contexts(raw[j]));
        }
    }
}

} // verus!
