use vstd::prelude::*;

use crate::calendar::foreground_window::is_chronological;
use crate::calendar::interval::{
    add_block, add_piece, add_slots, add_time, added_time, aligned_start, calendar_intervals,
    context_time, context_time_in, context_time_of, intervals_fit, intervals_of, lemma_add_time_of,
    lemma_aligned_start, longest_first, max_of, min_of, with_ordered_contexts,
};
use crate::calendar::interval_contexts::{
    filled_up_to, lemma_add_piece_filled, lemma_context_time_nonnegative, lemma_filled_later,
    lemma_intervals_of_filled, room,
};
use crate::calendar::interval_shape::{
    lemma_add_piece_order, lemma_aligned_start_on_the_clock, lemma_intervals_of_order,
    lemma_multiple_below, on_the_clock,
};
use crate::calendar::{CalendarBlock, CalendarIntervalContext, IntervalView};
use crate::sorting::{lemma_stable_sort_sum, lemma_sum_by_push, sum_by};

verus! {

/// The time of the block that lies within the slot of `length` starting at
/// `slot_start`.
pub open spec fn overlap(block: CalendarBlock, slot_start: int, length: int) -> int {
    max_of(0, min_of(block.finish as int, slot_start + length) - max_of(block.start as int, slot_start))
}

/// The time of the block within the slot, when it shows the window context.
pub open spec fn slot_share(
    block: CalendarBlock,
    slot_start: int,
    length: int,
    executable: Seq<char>,
    description: Seq<char>,
) -> int {
    if block.executable@ == executable && block.description@ == description {
        overlap(block, slot_start, length)
    } else {
        0
    }
}

/// The time that the blocks of one window context spend within the slot.
pub open spec fn slot_time_of(
    blocks: Seq<CalendarBlock>,
    slot_start: int,
    length: int,
    executable: Seq<char>,
    description: Seq<char>,
) -> int {
    sum_by(
        blocks,
        |block: CalendarBlock| slot_share(block, slot_start, length, executable, description),
    )
}

/// Beyond any interval's start.
pub open spec fn beyond_all() -> int {
    u64::MAX as int + 1
}

/// Each interval holds the time that the blocks spend within it, and the time
/// of `block` within it when it starts before `upto`.
pub open spec fn slots_hold(
    intervals: Seq<IntervalView>,
    blocks: Seq<CalendarBlock>,
    length: int,
    executable: Seq<char>,
    description: Seq<char>,
    block: CalendarBlock,
    upto: int,
) -> bool {
    forall|k: int|
        0 <= k < intervals.len() ==> context_time_of((#[trigger] intervals[k]).contexts, executable, description)
            == slot_time_of(blocks, intervals[k].start as int, length, executable, description) + if (
        intervals[k].start as int) < upto {
            slot_share(block, intervals[k].start as int, length, executable, description)
        } else {
            0
        }
}

/// The blocks that last end within the last interval.
pub open spec fn earlier_within(intervals: Seq<IntervalView>, blocks: Seq<CalendarBlock>, length: int) -> bool {
    forall|i: int|
        0 <= i < blocks.len() && (#[trigger] blocks[i]).start < blocks[i].finish ==> intervals.len() > 0
            && blocks[i].finish <= intervals.last().start + length
}

proof fn lemma_multiples_apart(a: int, b: int, length: int)
    requires
        length > 0,
        0 <= a < b,
        a % length == 0,
        b % length == 0,
    ensures
        a + length <= b,
{
    if b < a + length {
        lemma_multiple_below(b, b, length, a);
    }
}

proof fn lemma_slot_time_push(
    blocks: Seq<CalendarBlock>,
    block: CalendarBlock,
    slot_start: int,
    length: int,
    executable: Seq<char>,
    description: Seq<char>,
)
    ensures
        slot_time_of(blocks.push(block), slot_start, length, executable, description) == slot_time_of(
            blocks,
            slot_start,
            length,
            executable,
            description,
        ) + slot_share(block, slot_start, length, executable, description),
{
    lemma_sum_by_push(
        blocks,
        block,
        |block: CalendarBlock| slot_share(block, slot_start, length, executable, description),
    );
}

proof fn lemma_slot_time_zero(
    blocks: Seq<CalendarBlock>,
    slot_start: int,
    length: int,
    executable: Seq<char>,
    description: Seq<char>,
)
    requires
        forall|i: int| 0 <= i < blocks.len() ==> overlap(#[trigger] blocks[i], slot_start, length) == 0,
    ensures
        slot_time_of(blocks, slot_start, length, executable, description) == 0,
    decreases blocks.len(),
{
    if blocks.len() > 0 {
        let prefix = blocks.drop_last();
        assert forall|i: int| 0 <= i < prefix.len() implies overlap(#[trigger] prefix[i], slot_start, length)
            == 0 by {
            assert(prefix[i] == blocks[i]);
        }
        lemma_slot_time_zero(prefix, slot_start, length, executable, description);
        assert(overlap(blocks[blocks.len() - 1], slot_start, length) == 0);
    }
}

/// A slot after the last interval holds no time of the blocks before.
proof fn lemma_new_slot_empty(
    intervals: Seq<IntervalView>,
    blocks: Seq<CalendarBlock>,
    slot_start: int,
    length: int,
    executable: Seq<char>,
    description: Seq<char>,
)
    requires
        length > 0,
        earlier_within(intervals, blocks, length),
        slot_start % length == 0,
        intervals.len() > 0 ==> 0 <= intervals.last().start < slot_start && intervals.last().start as int
            % length == 0,
    ensures
        slot_time_of(blocks, slot_start, length, executable, description) == 0,
{
    if intervals.len() > 0 {
        lemma_multiples_apart(intervals.last().start as int, slot_start, length);
    }
    assert forall|i: int| 0 <= i < blocks.len() implies overlap(#[trigger] blocks[i], slot_start, length)
        == 0 by {
        if blocks[i].start < blocks[i].finish {
            assert(blocks[i].finish <= intervals.last().start + length);
        }
    }
    lemma_slot_time_zero(blocks, slot_start, length, executable, description);
}

/// One piece of the block, within the slot at `slot_start`, added to the
/// interval of that slot.
#[verifier::rlimit(40)]
proof fn lemma_add_piece_holds(
    intervals: Seq<IntervalView>,
    blocks: Seq<CalendarBlock>,
    block: CalendarBlock,
    slot_start: int,
    length: int,
    executable: Seq<char>,
    description: Seq<char>,
)
    requires
        length > 0,
        length <= u64::MAX,
        0 <= slot_start,
        slot_start % length == 0,
        slot_start < block.finish,
        slot_start + length > block.start,
        block.start < block.finish,
        on_the_clock(intervals, length),
        intervals.len() > 0 ==> intervals.last().start <= slot_start,
        filled_up_to(intervals, max_of(block.start as int, slot_start), length),
        slots_hold(intervals, blocks, length, executable, description, block, slot_start),
        earlier_within(intervals, blocks, length),
    ensures
        slots_hold(
            add_piece(
                intervals,
                slot_start,
                slot_start + length,
                block,
                min_of(block.finish as int, slot_start + length) - max_of(block.start as int, slot_start),
            ),
            blocks,
            length,
            executable,
            description,
            block,
            slot_start + length,
        ),
{
    let piece_start = max_of(block.start as int, slot_start);
    let piece_finish = min_of(block.finish as int, slot_start + length);
    let piece = piece_finish - piece_start;
    assert(piece == overlap(block, slot_start, length));
    let n = intervals.len();
    let result = add_piece(intervals, slot_start, slot_start + length, block, piece);
    assert forall|k: int| 0 <= k < n implies (#[trigger] intervals[k]).start <= slot_start by {
        if k < n - 1 {
            assert(intervals[k].start < intervals[n - 1].start);
        }
    }
    if n == 0 || intervals.last().start != slot_start {
        let fresh = IntervalView {
            start: slot_start as u64,
            finish: (slot_start + length) as u64,
            contexts: Seq::empty(),
            suggestion: None,
        };
        let opened = intervals.push(fresh);
        if n > 0 {
            assert(intervals.last() == intervals[n - 1]);
            assert(intervals.last().start as int % length == 0);
        }
        lemma_new_slot_empty(intervals, blocks, slot_start, length, executable, description);
        assert(context_time(fresh.contexts) == 0);
        lemma_add_time_of(fresh.contexts, block, piece, executable, description);
        assert(context_time_of(fresh.contexts, executable, description) == 0);
        assert(result == opened.update(
            n as int,
            IntervalView { contexts: add_time(fresh.contexts, block, piece), ..fresh },
        ));
        assert forall|k: int| 0 <= k < result.len() implies context_time_of(
            (#[trigger] result[k]).contexts,
            executable,
            description,
        ) == slot_time_of(blocks, result[k].start as int, length, executable, description) + if (
        result[k].start as int) < slot_start + length {
            slot_share(block, result[k].start as int, length, executable, description)
        } else {
            0
        } by {
            if k < n {
                assert(result[k] == intervals[k]);
                assert(intervals[k].start <= slot_start);
                if intervals[k].start as int == slot_start {
                    assert(k == n - 1) by {
                        if k < n - 1 {
                            assert(intervals[k].start < intervals[n - 1].start);
                        }
                    }
                }
            } else {
                assert(result[k].start as int == slot_start);
            }
        }
    } else {
        let last = intervals.last();
        assert(intervals[n - 1] == last);
        assert(context_time(last.contexts) <= room(last.start as int, piece_start, length));
        lemma_context_time_nonnegative(last.contexts);
        lemma_add_time_of(last.contexts, block, piece, executable, description);
        assert(result == intervals.update(
            n - 1,
            IntervalView { contexts: add_time(last.contexts, block, piece), ..last },
        ));
        assert forall|k: int| 0 <= k < result.len() implies context_time_of(
            (#[trigger] result[k]).contexts,
            executable,
            description,
        ) == slot_time_of(blocks, result[k].start as int, length, executable, description) + if (
        result[k].start as int) < slot_start + length {
            slot_share(block, result[k].start as int, length, executable, description)
        } else {
            0
        } by {
            if k < n - 1 {
                assert(result[k] == intervals[k]);
                assert(intervals[k].start < intervals[n - 1].start);
            }
        }
    }
}

/// The slots of one block, from `slot_start` on, each add the block's time
/// within them to the interval of the slot.
#[verifier::rlimit(40)]
proof fn lemma_add_slots_hold(
    intervals: Seq<IntervalView>,
    blocks: Seq<CalendarBlock>,
    block: CalendarBlock,
    slot_start: int,
    length: int,
    executable: Seq<char>,
    description: Seq<char>,
)
    requires
        length > 0,
        0 <= slot_start,
        slot_start % length == 0,
        block.start < block.finish,
        block.finish + length <= u64::MAX + 1,
        slot_start + length > block.start,
        on_the_clock(intervals, length),
        intervals.len() > 0 ==> intervals.last().start <= slot_start,
        filled_up_to(intervals, max_of(block.start as int, min_of(slot_start, block.finish as int)), length),
        slots_hold(intervals, blocks, length, executable, description, block, slot_start),
        earlier_within(intervals, blocks, length),
        max_of(block.start as int, min_of(block.finish as int, slot_start)) == block.start || (intervals.len()
            > 0 && min_of(block.finish as int, slot_start) <= intervals.last().start + length),
    ensures
        slots_hold(
            add_slots(intervals, block, slot_start, length),
            blocks,
            length,
            executable,
            description,
            block,
            beyond_all(),
        ),
        earlier_within(add_slots(intervals, block, slot_start, length), blocks.push(block), length),
    decreases max_of(block.finish - slot_start, 0),
{
    let result = add_slots(intervals, block, slot_start, length);
    if slot_start < block.finish {
        let slot_finish = slot_start + length;
        let piece_start = max_of(block.start as int, slot_start);
        let piece_finish = min_of(block.finish as int, slot_finish);
        assert(slot_finish % length == 0) by (nonlinear_arith)
            requires
                slot_start % length == 0,
                slot_finish == slot_start + length,
                length > 0,
        ;
        assert(piece_start < piece_finish);
        let next = add_piece(intervals, slot_start, slot_finish, block, piece_finish - piece_start);
        lemma_add_piece_order(intervals, slot_start, slot_finish, block, piece_finish - piece_start, length);
        lemma_add_piece_filled(intervals, slot_start, block, piece_start, piece_finish, length);
        lemma_add_piece_holds(intervals, blocks, block, slot_start, length, executable, description);
        assert(earlier_within(next, blocks, length)) by {
            if intervals.len() > 0 {
                assert(intervals.last() == intervals[intervals.len() - 1]);
            }
        }
        assert(next.last().start == slot_start);
        lemma_add_slots_hold(next, blocks, block, slot_finish, length, executable, description);
    } else {
        assert(result == intervals);
        assert forall|k: int| 0 <= k < result.len() implies context_time_of(
            (#[trigger] result[k]).contexts,
            executable,
            description,
        ) == slot_time_of(blocks, result[k].start as int, length, executable, description) + if (
        result[k].start as int) < beyond_all() {
            slot_share(block, result[k].start as int, length, executable, description)
        } else {
            0
        } by {
            if result[k].start as int >= slot_start {
                assert(overlap(block, result[k].start as int, length) == 0);
            }
        }
        let all = blocks.push(block);
        assert forall|i: int| 0 <= i < all.len() && (#[trigger] all[i]).start < all[i].finish implies result.len()
            > 0 && all[i].finish <= result.last().start + length by {
            if i < blocks.len() {
                assert(all[i] == blocks[i]);
            }
        }
    }
}

/// Each interval of the blocks holds the time that the blocks spend within it.
#[verifier::rlimit(40)]
proof fn lemma_intervals_of_slots(
    blocks: Seq<CalendarBlock>,
    duration: u64,
    executable: Seq<char>,
    description: Seq<char>,
)
    requires
        intervals_fit(blocks, duration),
        duration % 1_000_000_000 == 0,
        is_chronological(blocks),
    ensures
        forall|k: int|
            0 <= k < intervals_of(blocks, duration).len() ==> context_time_of(
                (#[trigger] intervals_of(blocks, duration)[k]).contexts,
                executable,
                description,
            ) == slot_time_of(
                blocks,
                intervals_of(blocks, duration)[k].start as int,
                duration as int,
                executable,
                description,
            ),
        earlier_within(intervals_of(blocks, duration), blocks, duration as int),
    decreases blocks.len(),
{
    if blocks.len() > 0 {
        let length = duration as int;
        let prefix = blocks.drop_last();
        let block = blocks.last();
        let n = blocks.len() - 1;
        assert(blocks[n] == block);
        assert(blocks =~= prefix.push(block));
        assert(intervals_fit(prefix, duration)) by {
            assert forall|k: int|
                0 <= k < prefix.len() && #[trigger] prefix[k].start < prefix[k].finish implies prefix[k].finish
                    + duration <= u64::MAX + 1 by {
                assert(prefix[k] == blocks[k]);
            }
            crate::sorting::lemma_sum_by_nonnegative(blocks, crate::calendar::interval::block_duration());
            assert(crate::calendar::interval::block_duration()(blocks.last()) >= 0);
        }
        assert(is_chronological(prefix)) by {
            assert forall|i: int| 0 <= i < prefix.len() implies #[trigger] prefix[i].start <= prefix[i].finish by {
                assert(prefix[i] == blocks[i]);
            }
            assert forall|i: int, j: int| 0 <= i < j < prefix.len() implies prefix[i].finish <= prefix[j].start by {
                assert(prefix[i] == blocks[i]);
                assert(prefix[j] == blocks[j]);
            }
        }
        lemma_intervals_of_slots(prefix, duration, executable, description);
        lemma_intervals_of_order(prefix, duration);
        lemma_intervals_of_filled(prefix, duration);
        let before = intervals_of(prefix, duration);
        assert(block.start <= block.finish);
        if prefix.len() > 0 {
            let p = prefix.len() - 1;
            assert(prefix.last() == blocks[p]);
            assert(blocks[p].finish <= blocks[n].start);
            lemma_filled_later(before, prefix.last().finish as int, block.start as int, length);
        }
        assert(filled_up_to(before, block.start as int, length));
        assert forall|k: int| 0 <= k < before.len() implies (#[trigger] before[k]).start < block.start by {
            let p = prefix.len() - 1;
            assert(prefix.last() == blocks[p]);
            assert(blocks[p].finish <= blocks[n].start);
        }
        if block.start < block.finish {
            lemma_aligned_start_on_the_clock(block.start, duration);
            lemma_aligned_start(block.start, duration);
            let first = aligned_start(block.start, duration);
            if before.len() > 0 {
                let last = before.last();
                assert(before[before.len() - 1] == last);
                assert(last.start as int % length == 0);
                lemma_multiple_below(last.start as int, block.start as int, length, first);
            }
            assert forall|k: int| 0 <= k < before.len() implies context_time_of(
                (#[trigger] before[k]).contexts,
                executable,
                description,
            ) == slot_time_of(prefix, before[k].start as int, length, executable, description) + if (
            before[k].start as int) < first {
                slot_share(block, before[k].start as int, length, executable, description)
            } else {
                0
            } by {
                if (before[k].start as int) < first {
                    assert(before[k].start as int % length == 0);
                    lemma_multiples_apart(before[k].start as int, first, length);
                    assert(overlap(block, before[k].start as int, length) == 0);
                }
            }
            lemma_filled_later(
                before,
                block.start as int,
                max_of(block.start as int, min_of(first, block.finish as int)),
                length,
            );
            lemma_add_slots_hold(before, prefix, block, first, length, executable, description);
            let result = add_slots(before, block, first, length);
            assert(intervals_of(blocks, duration) == result);
            assert forall|k: int| 0 <= k < result.len() implies context_time_of(
                (#[trigger] result[k]).contexts,
                executable,
                description,
            ) == slot_time_of(blocks, result[k].start as int, length, executable, description) by {
                lemma_slot_time_push(prefix, block, result[k].start as int, length, executable, description);
            }
        } else {
            assert(intervals_of(blocks, duration) == before);
            assert forall|k: int| 0 <= k < before.len() implies context_time_of(
                (#[trigger] before[k]).contexts,
                executable,
                description,
            ) == slot_time_of(blocks, before[k].start as int, length, executable, description) by {
                lemma_slot_time_push(prefix, block, before[k].start as int, length, executable, description);
                assert(overlap(block, before[k].start as int, length) == 0);
            }
            assert forall|i: int| 0 <= i < blocks.len() && (#[trigger] blocks[i]).start < blocks[i].finish implies before.len()
                > 0 && blocks[i].finish <= before.last().start + length by {
                if i < n {
                    assert(blocks[i] == prefix[i]);
                }
            }
        }
    }
}

/// Each interval of the calendar gives each window context exactly the time
/// that the blocks of that context spend within the interval: time observed in
/// one interval is never counted in another.
pub proof fn lemma_calendar_intervals_hold_slot_time(
    blocks: Seq<CalendarBlock>,
    duration: u64,
    executable: Seq<char>,
    description: Seq<char>,
)
    requires
        intervals_fit(blocks, duration),
        duration % 1_000_000_000 == 0,
        is_chronological(blocks),
    ensures
        forall|k: int|
            0 <= k < calendar_intervals(blocks, duration).len() ==> context_time_of(
                (#[trigger] calendar_intervals(blocks, duration)[k]).contexts,
                executable,
                description,
            ) == slot_time_of(
                blocks,
                calendar_intervals(blocks, duration)[k].start as int,
                duration as int,
                executable,
                description,
            ),
{
    lemma_intervals_of_slots(blocks, duration, executable, description);
    let raw = intervals_of(blocks, duration);
    let ordered = calendar_intervals(blocks, duration);
    assert forall|k: int| 0 <= k < ordered.len() implies context_time_of(
        (#[trigger] ordered[k]).contexts,
        executable,
        description,
    ) == slot_time_of(blocks, ordered[k].start as int, duration as int, executable, description) by {
        assert(ordered[k] == with_ordered_contexts(raw[k]));
        lemma_stable_sort_sum(
            raw[k].contexts,
            longest_first(),
            |context: CalendarIntervalContext| context_time_in()(context, executable, description),
        );
    }
}

} // verus!
