use vstd::prelude::*;

use crate::calendar::{
    intervals_view, CalendarBlock, CalendarInterval, CalendarIntervalContext, IntervalView,
};
use crate::sorting::{
    is_sorted_by, lemma_sorted_insert_at, lemma_stable_sort_sorted_permutation,
    lemma_stable_sort_sum, lemma_sum_by_nonnegative, lemma_sum_by_prefix, lemma_sum_by_push, lemma_sum_by_update,
    stable_sort, sum_by,
};

verus! {

/// The context of the interval is the window context of the block.
pub open spec fn same_context(context: CalendarIntervalContext, block: CalendarBlock) -> bool {
    context.executable@ == block.executable@ && context.description@ == block.description@
}

/// The position of the first context that matches the block, or the number of
/// contexts when none does.
pub open spec fn first_context_of(contexts: Seq<CalendarIntervalContext>, block: CalendarBlock) -> int
    decreases contexts.len(),
{
    if contexts.len() == 0 {
        0
    } else {
        let found = first_context_of(contexts.drop_last(), block);
        if found < contexts.len() - 1 {
            found
        } else if same_context(contexts.last(), block) {
            contexts.len() - 1
        } else {
            contexts.len() as int
        }
    }
}

/// Adds time spent in the block's context: to the first matching context, or
/// as a new context at the end.
pub open spec fn add_time(
    contexts: Seq<CalendarIntervalContext>,
    block: CalendarBlock,
    duration: int,
) -> Seq<CalendarIntervalContext> {
    let found = first_context_of(contexts, block);
    if found < contexts.len() {
        contexts.update(
            found,
            CalendarIntervalContext {
                duration: (contexts[found].duration + duration) as u64,
                ..contexts[found]
            },
        )
    } else {
        contexts.push(
            CalendarIntervalContext {
                duration: duration as u64,
                executable: block.executable,
                description: block.description,
            },
        )
    }
}

/// Adds a piece of the block that falls into the interval starting at
/// `slot_start`: a new interval is opened unless the last one starts there.
pub open spec fn add_piece(
    intervals: Seq<IntervalView>,
    slot_start: int,
    slot_finish: int,
    block: CalendarBlock,
    duration: int,
) -> Seq<IntervalView> {
    let opened = if intervals.len() == 0 || intervals.last().start != slot_start {
        intervals.push(
            IntervalView {
                start: slot_start as u64,
                finish: slot_finish as u64,
                contexts: Seq::empty(),
                suggestion: None,
            },
        )
    } else {
        intervals
    };
    let last = opened.last();
    opened.update(
        opened.len() - 1,
        IntervalView { contexts: add_time(last.contexts, block, duration), ..last },
    )
}

pub open spec fn max_of(a: int, b: int) -> int {
    if a >= b {
        a
    } else {
        b
    }
}

pub open spec fn min_of(a: int, b: int) -> int {
    if a <= b {
        a
    } else {
        b
    }
}

/// Adds the block to the intervals of length `duration`, from the interval
/// that starts at `slot_start` on, for as long as intervals start before the
/// block finishes.
pub open spec fn add_slots(
    intervals: Seq<IntervalView>,
    block: CalendarBlock,
    slot_start: int,
    duration: int,
) -> Seq<IntervalView>
    decreases max_of(block.finish - slot_start, 0),
{
    if duration <= 0 || slot_start >= block.finish {
        intervals
    } else {
        let slot_finish = slot_start + duration;
        let piece_start = max_of(block.start as int, slot_start);
        let piece_finish = min_of(block.finish as int, slot_finish);
        let next = if piece_start < piece_finish {
            add_piece(intervals, slot_start, slot_finish, block, piece_finish - piece_start)
        } else {
            intervals
        };
        add_slots(next, block, slot_finish, duration)
    }
}

/// The start, in nanoseconds, of the clock-aligned interval of `duration`
/// that holds `start`, computed on whole seconds.
pub open spec fn aligned_start(start: u64, duration: u64) -> int {
    let seconds = start / 1_000_000_000;
    let interval_seconds = duration / 1_000_000_000;
    (seconds - seconds % interval_seconds) * 1_000_000_000
}

/// Adds one block; a block that does not last is ignored.
pub open spec fn add_block(intervals: Seq<IntervalView>, block: CalendarBlock, duration: u64) -> Seq<
    IntervalView,
> {
    if block.start >= block.finish {
        intervals
    } else {
        add_slots(intervals, block, aligned_start(block.start, duration), duration as int)
    }
}

/// The intervals of the blocks before their contexts are ordered.
pub open spec fn intervals_of(blocks: Seq<CalendarBlock>, duration: u64) -> Seq<IntervalView>
    decreases blocks.len(),
{
    if blocks.len() == 0 {
        Seq::empty()
    } else {
        add_block(intervals_of(blocks.drop_last(), duration), blocks.last(), duration)
    }
}

/// Orders contexts from the longest to the shortest, stably.
pub open spec fn longest_first() -> spec_fn(CalendarIntervalContext) -> int {
    |context: CalendarIntervalContext| -(context.duration as int)
}

pub open spec fn with_ordered_contexts(interval: IntervalView) -> IntervalView {
    IntervalView { contexts: stable_sort(interval.contexts, longest_first()), ..interval }
}

/// The clock-aligned intervals of `duration` nanoseconds that the blocks
/// occupy, each with the time of every context in it, longest first.
pub open spec fn calendar_intervals(blocks: Seq<CalendarBlock>, duration: u64) -> Seq<IntervalView> {
    intervals_of(blocks, duration).map_values(|interval: IntervalView| with_ordered_contexts(interval))
}

pub open spec fn context_duration() -> spec_fn(CalendarIntervalContext) -> int {
    |context: CalendarIntervalContext| context.duration as int
}

/// The time of all contexts.
pub open spec fn context_time(contexts: Seq<CalendarIntervalContext>) -> int {
    sum_by(contexts, context_duration())
}

pub open spec fn interval_context_time() -> spec_fn(IntervalView) -> int {
    |interval: IntervalView| context_time(interval.contexts)
}

/// The time of all contexts of all intervals.
pub open spec fn interval_time(intervals: Seq<IntervalView>) -> int {
    sum_by(intervals, interval_context_time())
}

pub open spec fn block_duration() -> spec_fn(CalendarBlock) -> int {
    |block: CalendarBlock|
        if block.start < block.finish {
            block.finish - block.start
        } else {
            0
        }
}

/// The time that the blocks last.
pub open spec fn blocks_time(blocks: Seq<CalendarBlock>) -> int {
    sum_by(blocks, block_duration())
}

/// The part of the block that lies after `slot_start`.
pub open spec fn remaining_time(block: CalendarBlock, slot_start: int) -> int {
    let from = max_of(block.start as int, slot_start);
    if block.finish > from {
        block.finish - from
    } else {
        0
    }
}

/// What `build_intervals` asks of its blocks: the interval is at least a
/// second long, the intervals that a block reaches end within the range of
/// time, and the blocks last no longer than that range.
pub open spec fn intervals_fit(blocks: Seq<CalendarBlock>, duration: u64) -> bool {
    &&& duration / 1_000_000_000 > 0
    &&& forall|k: int|
        0 <= k < blocks.len() && #[trigger] blocks[k].start < blocks[k].finish ==> blocks[k].finish
            + duration <= u64::MAX + 1
    &&& blocks_time(blocks) <= u64::MAX
}

pub proof fn lemma_first_context_of_range(contexts: Seq<CalendarIntervalContext>, block: CalendarBlock)
    ensures
        0 <= first_context_of(contexts, block) <= contexts.len(),
        first_context_of(contexts, block) < contexts.len() ==> same_context(
            contexts[first_context_of(contexts, block)],
            block,
        ),
    decreases contexts.len(),
{
    if contexts.len() > 0 {
        lemma_first_context_of_range(contexts.drop_last(), block);
    }
}

proof fn lemma_first_context_of_at(
    contexts: Seq<CalendarIntervalContext>,
    block: CalendarBlock,
    i: int,
)
    requires
        0 <= i <= contexts.len(),
        forall|j: int| 0 <= j < i ==> !same_context(#[trigger] contexts[j], block),
        i == contexts.len() || same_context(contexts[i], block),
    ensures
        first_context_of(contexts, block) == i,
    decreases contexts.len(),
{
    if contexts.len() > 0 {
        let prefix = contexts.drop_last();
        if i == contexts.len() {
            assert forall|j: int| 0 <= j < prefix.len() implies !same_context(#[trigger] prefix[j], block) by {
                assert(prefix[j] == contexts[j]);
            }
            lemma_first_context_of_at(prefix, block, prefix.len() as int);
            assert(!same_context(contexts[contexts.len() - 1], block));
        } else {
            assert forall|j: int| 0 <= j < i implies !same_context(#[trigger] prefix[j], block) by {
                assert(prefix[j] == contexts[j]);
            }
            if i < contexts.len() - 1 {
                assert(prefix[i] == contexts[i]);
                lemma_first_context_of_at(prefix, block, i);
            } else {
                lemma_first_context_of_at(prefix, block, prefix.len() as int);
            }
        }
    }
}

proof fn lemma_context_time_bounds(contexts: Seq<CalendarIntervalContext>)
    ensures
        context_time(contexts) >= 0,
        forall|i: int|
            0 <= i < contexts.len() ==> (#[trigger] contexts[i]).duration <= context_time(contexts),
{
    lemma_sum_by_nonnegative(contexts, context_duration());
    assert forall|i: int| 0 <= i < contexts.len() implies (#[trigger] contexts[i]).duration
        <= context_time(contexts) by {
        assert(context_duration()(contexts[i]) <= context_time(contexts));
    }
}

proof fn lemma_interval_time_bounds(intervals: Seq<IntervalView>)
    ensures
        interval_time(intervals) >= 0,
        forall|i: int|
            0 <= i < intervals.len() ==> context_time((#[trigger] intervals[i]).contexts)
                <= interval_time(intervals),
{
    assert forall|i: int| 0 <= i < intervals.len() implies interval_context_time()(
        #[trigger] intervals[i],
    ) >= 0 by {
        lemma_context_time_bounds(intervals[i].contexts);
    }
    lemma_sum_by_nonnegative(intervals, interval_context_time());
    assert forall|i: int| 0 <= i < intervals.len() implies context_time(
        (#[trigger] intervals[i]).contexts,
    ) <= interval_time(intervals) by {
        assert(interval_context_time()(intervals[i]) <= interval_time(intervals));
    }
}

pub proof fn lemma_add_time(contexts: Seq<CalendarIntervalContext>, block: CalendarBlock, duration: int)
    requires
        duration >= 0,
        context_time(contexts) + duration <= u64::MAX,
    ensures
        context_time(add_time(contexts, block, duration)) == context_time(contexts) + duration,
{
    lemma_first_context_of_range(contexts, block);
    lemma_context_time_bounds(contexts);
    let found = first_context_of(contexts, block);
    if found < contexts.len() {
        let updated = CalendarIntervalContext {
            duration: (contexts[found].duration + duration) as u64,
            ..contexts[found]
        };
        lemma_sum_by_update(contexts, found, updated, context_duration());
    } else {
        lemma_sum_by_push(
            contexts,
            CalendarIntervalContext {
                duration: duration as u64,
                executable: block.executable,
                description: block.description,
            },
            context_duration(),
        );
    }
}

proof fn lemma_add_piece(
    intervals: Seq<IntervalView>,
    slot_start: int,
    slot_finish: int,
    block: CalendarBlock,
    duration: int,
)
    requires
        duration >= 0,
        interval_time(intervals) + duration <= u64::MAX,
    ensures
        interval_time(add_piece(intervals, slot_start, slot_finish, block, duration))
            == interval_time(intervals) + duration,
        add_piece(intervals, slot_start, slot_finish, block, duration).len() >= intervals.len(),
{
    let opened = if intervals.len() == 0 || intervals.last().start != slot_start {
        let fresh = IntervalView {
            start: slot_start as u64,
            finish: slot_finish as u64,
            contexts: Seq::empty(),
            suggestion: None,
        };
        lemma_sum_by_push(intervals, fresh, interval_context_time());
        assert(context_time(Seq::<CalendarIntervalContext>::empty()) == 0);
        intervals.push(fresh)
    } else {
        intervals
    };
    assert(interval_time(opened) == interval_time(intervals));
    let last = opened.last();
    lemma_interval_time_bounds(opened);
    assert(context_time(opened[opened.len() - 1].contexts) <= interval_time(opened));
    lemma_add_time(last.contexts, block, duration);
    lemma_sum_by_update(
        opened,
        opened.len() - 1,
        IntervalView { contexts: add_time(last.contexts, block, duration), ..last },
        interval_context_time(),
    );
}

proof fn lemma_add_slots(intervals: Seq<IntervalView>, block: CalendarBlock, slot_start: int, duration: int)
    requires
        duration > 0,
        slot_start + duration > block.start,
        interval_time(intervals) + remaining_time(block, slot_start) <= u64::MAX,
    ensures
        interval_time(add_slots(intervals, block, slot_start, duration)) == interval_time(intervals)
            + remaining_time(block, slot_start),
    decreases max_of(block.finish - slot_start, 0),
{
    if slot_start < block.finish {
        let slot_finish = slot_start + duration;
        let piece_start = max_of(block.start as int, slot_start);
        let piece_finish = min_of(block.finish as int, slot_finish);
        if piece_start < piece_finish {
            lemma_add_piece(intervals, slot_start, slot_finish, block, piece_finish - piece_start);
            let next = add_piece(
                intervals,
                slot_start,
                slot_finish,
                block,
                piece_finish - piece_start,
            );
            lemma_add_slots(next, block, slot_finish, duration);
        } else {
            lemma_add_slots(intervals, block, slot_finish, duration);
        }
    }
}

pub proof fn lemma_aligned_start(start: u64, duration: u64)
    requires
        duration / 1_000_000_000 > 0,
    ensures
        0 <= aligned_start(start, duration) <= start,
        start < aligned_start(start, duration) + duration,
{
    let seconds = start / 1_000_000_000;
    let interval_seconds = duration / 1_000_000_000;
    let remainder = seconds % interval_seconds;
    vstd::arithmetic::div_mod::lemma_mod_decreases(seconds as nat, interval_seconds as nat);
    assert(0 <= remainder < interval_seconds) by (nonlinear_arith)
        requires
            interval_seconds > 0,
            remainder == seconds % interval_seconds,
    ;
    assert(seconds * 1_000_000_000 <= start < seconds * 1_000_000_000 + 1_000_000_000) by (nonlinear_arith)
        requires
            seconds == start / 1_000_000_000,
    ;
    assert(interval_seconds * 1_000_000_000 <= duration) by (nonlinear_arith)
        requires
            interval_seconds == duration / 1_000_000_000,
    ;
    assert((seconds - remainder) * 1_000_000_000 == seconds * 1_000_000_000 - remainder * 1_000_000_000) by (nonlinear_arith);
    assert(remainder * 1_000_000_000 <= (interval_seconds - 1) * 1_000_000_000) by (nonlinear_arith)
        requires
            remainder <= interval_seconds - 1,
    ;
    assert(0 <= (seconds - remainder) * 1_000_000_000) by (nonlinear_arith)
        requires
            remainder <= seconds,
    ;
}

proof fn lemma_add_block(intervals: Seq<IntervalView>, block: CalendarBlock, duration: u64)
    requires
        duration / 1_000_000_000 > 0,
        interval_time(intervals) + block_duration()(block) <= u64::MAX,
    ensures
        interval_time(add_block(intervals, block, duration)) == interval_time(intervals)
            + block_duration()(block),
{
    if block.start < block.finish {
        lemma_aligned_start(block.start, duration);
        lemma_add_slots(intervals, block, aligned_start(block.start, duration), duration as int);
    }
}

proof fn lemma_blocks_time_bounds(blocks: Seq<CalendarBlock>)
    ensures
        blocks_time(blocks) >= 0,
        blocks.len() > 0 ==> blocks_time(blocks.drop_last()) + block_duration()(blocks.last())
            == blocks_time(blocks),
{
    lemma_sum_by_nonnegative(blocks, block_duration());
}

/// No time is lost or counted twice: the contexts of the intervals hold, in
/// all, exactly the time that the blocks last.
pub proof fn lemma_intervals_conserve_time(blocks: Seq<CalendarBlock>, duration: u64)
    requires
        duration / 1_000_000_000 > 0,
        blocks_time(blocks) <= u64::MAX,
    ensures
        interval_time(intervals_of(blocks, duration)) == blocks_time(blocks),
        interval_time(calendar_intervals(blocks, duration)) == blocks_time(blocks),
    decreases blocks.len(),
{
    if blocks.len() > 0 {
        let prefix = blocks.drop_last();
        lemma_blocks_time_bounds(blocks);
        lemma_blocks_time_bounds(prefix);
        lemma_sum_by_nonnegative(blocks, block_duration());
        assert(block_duration()(blocks.last()) >= 0);
        lemma_intervals_conserve_time(prefix, duration);
        lemma_add_block(intervals_of(prefix, duration), blocks.last(), duration);
    }
    lemma_ordering_keeps_time(intervals_of(blocks, duration));
}

proof fn lemma_ordering_keeps_time(intervals: Seq<IntervalView>)
    ensures
        interval_time(intervals.map_values(|interval: IntervalView| with_ordered_contexts(interval)))
            == interval_time(intervals),
    decreases intervals.len(),
{
    let ordered = intervals.map_values(|interval: IntervalView| with_ordered_contexts(interval));
    if intervals.len() > 0 {
        let prefix = intervals.drop_last();
        lemma_ordering_keeps_time(prefix);
        assert(ordered.drop_last() =~= prefix.map_values(
            |interval: IntervalView| with_ordered_contexts(interval),
        ));
        lemma_stable_sort_sum(intervals.last().contexts, longest_first(), context_duration());
    }
}

/// The time of one window context, given by its executable and description.
pub open spec fn context_time_in() -> spec_fn(CalendarIntervalContext, Seq<char>, Seq<char>) -> int {
    |context: CalendarIntervalContext, executable: Seq<char>, description: Seq<char>|
        if context.executable@ == executable && context.description@ == description {
            context.duration as int
        } else {
            0
        }
}

/// The time that the contexts give to one window context.
pub open spec fn context_time_of(
    contexts: Seq<CalendarIntervalContext>,
    executable: Seq<char>,
    description: Seq<char>,
) -> int {
    sum_by(contexts, |context: CalendarIntervalContext| context_time_in()(context, executable, description))
}

/// The time that the intervals give to one window context.
pub open spec fn interval_time_of(intervals: Seq<IntervalView>, executable: Seq<char>, description: Seq<char>) -> int {
    sum_by(intervals, |interval: IntervalView| context_time_of(interval.contexts, executable, description))
}

/// The time that the blocks of one window context last.
pub open spec fn blocks_time_of(blocks: Seq<CalendarBlock>, executable: Seq<char>, description: Seq<char>) -> int {
    sum_by(
        blocks,
        |block: CalendarBlock|
            if block.executable@ == executable && block.description@ == description {
                block_duration()(block)
            } else {
                0
            },
    )
}

/// The time that adding time gives to one window context.
pub open spec fn added_time(block: CalendarBlock, duration: int, executable: Seq<char>, description: Seq<char>) -> int {
    if block.executable@ == executable && block.description@ == description {
        duration
    } else {
        0
    }
}

pub proof fn lemma_add_time_of(
    contexts: Seq<CalendarIntervalContext>,
    block: CalendarBlock,
    duration: int,
    executable: Seq<char>,
    description: Seq<char>,
)
    requires
        duration >= 0,
        context_time(contexts) + duration <= u64::MAX,
    ensures
        context_time_of(add_time(contexts, block, duration), executable, description)
            == context_time_of(contexts, executable, description) + added_time(block, duration, executable, description),
{
    let val = |context: CalendarIntervalContext| context_time_in()(context, executable, description);
    lemma_first_context_of_range(contexts, block);
    lemma_context_time_bounds(contexts);
    let found = first_context_of(contexts, block);
    if found < contexts.len() {
        let updated = CalendarIntervalContext {
            duration: (contexts[found].duration + duration) as u64,
            ..contexts[found]
        };
        assert(contexts[found].duration + duration <= u64::MAX);
        lemma_sum_by_update(contexts, found, updated, val);
    } else {
        lemma_sum_by_push(
            contexts,
            CalendarIntervalContext {
                duration: duration as u64,
                executable: block.executable,
                description: block.description,
            },
            val,
        );
    }
}

proof fn lemma_add_piece_of(
    intervals: Seq<IntervalView>,
    slot_start: int,
    slot_finish: int,
    block: CalendarBlock,
    duration: int,
    executable: Seq<char>,
    description: Seq<char>,
)
    requires
        duration >= 0,
        interval_time(intervals) + duration <= u64::MAX,
    ensures
        interval_time_of(add_piece(intervals, slot_start, slot_finish, block, duration), executable, description)
            == interval_time_of(intervals, executable, description) + added_time(block, duration, executable, description),
{
    let val = |interval: IntervalView| context_time_of(interval.contexts, executable, description);
    let opened = if intervals.len() == 0 || intervals.last().start != slot_start {
        let fresh = IntervalView {
            start: slot_start as u64,
            finish: slot_finish as u64,
            contexts: Seq::empty(),
            suggestion: None,
        };
        lemma_sum_by_push(intervals, fresh, interval_context_time());
        lemma_sum_by_push(intervals, fresh, val);
        assert(context_time(Seq::<CalendarIntervalContext>::empty()) == 0);
        assert(context_time_of(Seq::<CalendarIntervalContext>::empty(), executable, description) == 0);
        intervals.push(fresh)
    } else {
        intervals
    };
    assert(interval_time(opened) == interval_time(intervals));
    assert(interval_time_of(opened, executable, description) == interval_time_of(intervals, executable, description));
    let last = opened.last();
    lemma_interval_time_bounds(opened);
    assert(context_time(opened[opened.len() - 1].contexts) <= interval_time(opened));
    lemma_add_time_of(last.contexts, block, duration, executable, description);
    lemma_sum_by_update(
        opened,
        opened.len() - 1,
        IntervalView { contexts: add_time(last.contexts, block, duration), ..last },
        val,
    );
}

proof fn lemma_add_slots_of(
    intervals: Seq<IntervalView>,
    block: CalendarBlock,
    slot_start: int,
    duration: int,
    executable: Seq<char>,
    description: Seq<char>,
)
    requires
        duration > 0,
        slot_start + duration > block.start,
        interval_time(intervals) + remaining_time(block, slot_start) <= u64::MAX,
    ensures
        interval_time_of(add_slots(intervals, block, slot_start, duration), executable, description)
            == interval_time_of(intervals, executable, description) + added_time(
            block,
            remaining_time(block, slot_start),
            executable,
            description,
        ),
    decreases max_of(block.finish - slot_start, 0),
{
    if slot_start < block.finish {
        let slot_finish = slot_start + duration;
        let piece_start = max_of(block.start as int, slot_start);
        let piece_finish = min_of(block.finish as int, slot_finish);
        if piece_start < piece_finish {
            lemma_add_piece(intervals, slot_start, slot_finish, block, piece_finish - piece_start);
            lemma_add_piece_of(
                intervals,
                slot_start,
                slot_finish,
                block,
                piece_finish - piece_start,
                executable,
                description,
            );
            let next = add_piece(
                intervals,
                slot_start,
                slot_finish,
                block,
                piece_finish - piece_start,
            );
            lemma_add_slots_of(next, block, slot_finish, duration, executable, description);
        } else {
            lemma_add_slots_of(intervals, block, slot_finish, duration, executable, description);
        }
    }
}

proof fn lemma_ordering_keeps_time_of(intervals: Seq<IntervalView>, executable: Seq<char>, description: Seq<char>)
    ensures
        interval_time_of(
            intervals.map_values(|interval: IntervalView| with_ordered_contexts(interval)),
            executable,
            description,
        ) == interval_time_of(intervals, executable, description),
    decreases intervals.len(),
{
    let ordered = intervals.map_values(|interval: IntervalView| with_ordered_contexts(interval));
    if intervals.len() > 0 {
        let prefix = intervals.drop_last();
        lemma_ordering_keeps_time_of(prefix, executable, description);
        assert(ordered.drop_last() =~= prefix.map_values(
            |interval: IntervalView| with_ordered_contexts(interval),
        ));
        lemma_stable_sort_sum(
            intervals.last().contexts,
            longest_first(),
            |context: CalendarIntervalContext| context_time_in()(context, executable, description),
        );
    }
}

/// No time of a window context is lost or counted twice: the intervals give
/// each window context exactly the time that its blocks last.
pub proof fn lemma_intervals_conserve_context_time(
    blocks: Seq<CalendarBlock>,
    duration: u64,
    executable: Seq<char>,
    description: Seq<char>,
)
    requires
        duration / 1_000_000_000 > 0,
        blocks_time(blocks) <= u64::MAX,
    ensures
        interval_time_of(intervals_of(blocks, duration), executable, description)
            == blocks_time_of(blocks, executable, description),
        interval_time_of(calendar_intervals(blocks, duration), executable, description)
            == blocks_time_of(blocks, executable, description),
    decreases blocks.len(),
{
    if blocks.len() > 0 {
        let prefix = blocks.drop_last();
        let block = blocks.last();
        lemma_blocks_time_bounds(blocks);
        lemma_blocks_time_bounds(prefix);
        lemma_sum_by_nonnegative(blocks, block_duration());
        assert(block_duration()(block) >= 0);
        lemma_intervals_conserve_context_time(prefix, duration, executable, description);
        lemma_intervals_conserve_time(prefix, duration);
        let before = intervals_of(prefix, duration);
        if block.start < block.finish {
            lemma_aligned_start(block.start, duration);
            let first = aligned_start(block.start, duration);
            assert(remaining_time(block, first) == block_duration()(block));
            lemma_add_slots_of(before, block, first, duration as int, executable, description);
        }
    }
    lemma_ordering_keeps_time_of(intervals_of(blocks, duration), executable, description);
}

/// Each interval of the calendar lists its contexts from the longest to the
/// shortest, keeping the order of arrival among contexts of equal length.
pub proof fn lemma_contexts_longest_first(blocks: Seq<CalendarBlock>, duration: u64, i: int)
    requires
        0 <= i < calendar_intervals(blocks, duration).len(),
    ensures
        is_sorted_by(calendar_intervals(blocks, duration)[i].contexts, longest_first()),
        calendar_intervals(blocks, duration)[i].contexts.to_multiset() == intervals_of(
            blocks,
            duration,
        )[i].contexts.to_multiset(),
{
    lemma_stable_sort_sorted_permutation(intervals_of(blocks, duration)[i].contexts, longest_first());
}

/// Adds `duration` nanoseconds of the block's context to the contexts.
fn add_context_time(contexts: &mut Vec<CalendarIntervalContext>, block: &CalendarBlock, duration: u64)
    requires
        context_time(old(contexts)@) + duration <= u64::MAX,
    ensures
        final(contexts)@ == add_time(old(contexts)@, *block, duration as int),
{
    proof {
        lemma_context_time_bounds(contexts@);
        lemma_first_context_of_range(contexts@, *block);
    }
    let mut i: usize = 0;
    while i < contexts.len()
        invariant
            i <= contexts@.len(),
            contexts@ == old(contexts)@,
            context_time(contexts@) + duration <= u64::MAX,
            forall|k: int| 0 <= k < contexts@.len() ==> (#[trigger] contexts@[k]).duration <= context_time(contexts@),
            forall|j: int| 0 <= j < i ==> !same_context(#[trigger] contexts@[j], *block),
        decreases contexts@.len() - i,
    {
        if contexts[i].executable == block.executable && contexts[i].description == block.description {
            proof {
                lemma_first_context_of_at(contexts@, *block, i as int);
            }
            let context = &contexts[i];
            let updated = CalendarIntervalContext {
                duration: context.duration + duration,
                executable: context.executable.clone(),
                description: context.description.clone(),
            };
            contexts.set(i, updated);
            return ;
        }
        i += 1;
    }
    proof {
        lemma_first_context_of_at(contexts@, *block, contexts@.len() as int);
    }
    contexts.push(
        CalendarIntervalContext::new(duration, block.executable.clone(), block.description.clone()),
    );
}

/// Copies the contexts, ordered from the longest to the shortest, keeping the
/// order of contexts of equal length.
fn ordered_contexts(contexts: &Vec<CalendarIntervalContext>) -> (ordered: Vec<
    CalendarIntervalContext,
>)
    ensures
        ordered@ == stable_sort(contexts@, longest_first()),
{
    let ghost key = longest_first();
    let mut ordered: Vec<CalendarIntervalContext> = Vec::new();
    for p in 0..contexts.len()
        invariant
            key == longest_first(),
            ordered@ == stable_sort(contexts@.take(p as int), key),
    {
        let context = &contexts[p];
        let copy = CalendarIntervalContext {
            duration: context.duration,
            executable: context.executable.clone(),
            description: context.description.clone(),
        };
        let mut j = ordered.len();
        while j > 0 && ordered[j - 1].duration < copy.duration
            invariant
                key == longest_first(),
                j <= ordered@.len(),
                copy == contexts@[p as int],
                forall|k: int| j <= k < ordered@.len() ==> key(#[trigger] ordered@[k]) > key(copy),
            decreases j,
        {
            j -= 1;
        }
        proof {
            lemma_sorted_insert_at(ordered@, copy, key, j as int);
            assert(contexts@.take(p + 1).drop_last() =~= contexts@.take(p as int));
            assert(contexts@.take(p + 1).last() == copy);
        }
        ordered.insert(j, copy);
    }
    proof {
        assert(contexts@.take(contexts@.len() as int) =~= contexts@);
    }
    ordered
}

/// Splits the blocks into clock-aligned intervals of `interval_duration`
/// nanoseconds (aligned on whole seconds since the Unix epoch): a block that
/// lasts is cut at the interval boundaries, each piece adds its time to the
/// matching context of its interval, a new interval is opened only when the
/// last one does not start there, and blocks that do not last are ignored.
/// Finally each interval lists its contexts from the longest to the shortest.
pub fn build_intervals(blocks: &[CalendarBlock], interval_duration: u64) -> (intervals: Vec<
    CalendarInterval,
>)
    requires
        intervals_fit(blocks@, interval_duration),
    ensures
        intervals_view(intervals@) == calendar_intervals(blocks@, interval_duration),
{
    let interval_seconds = interval_duration / 1_000_000_000;
    let ghost d = interval_duration as int;
    let mut intervals: Vec<CalendarInterval> = Vec::new();
    proof {
        lemma_sum_by_nonnegative(blocks@, block_duration());
    }
    for k in 0..blocks.len()
        invariant
            interval_seconds == interval_duration / 1_000_000_000,
            d == interval_duration,
            intervals_fit(blocks@, interval_duration),
            intervals_view(intervals@) == intervals_of(blocks@.take(k as int), interval_duration),
            interval_time(intervals_view(intervals@)) == blocks_time(blocks@.take(k as int)),
            blocks_time(blocks@.take(k as int)) <= blocks_time(blocks@),
            forall|j: int| 0 <= j < blocks@.len() ==> block_duration()(#[trigger] blocks@[j]) >= 0,
    {
        let block = &blocks[k];
        let ghost before = intervals_view(intervals@);
        proof {
            assert(blocks@.take(k + 1).drop_last() =~= blocks@.take(k as int));
            assert(blocks@.take(k + 1).last() == *block);
            lemma_blocks_time_bounds(blocks@.take(k + 1));
            lemma_sum_by_prefix(blocks@, k + 1, block_duration());
        }
        if block.start < block.finish {
            let seconds = block.start / 1_000_000_000;
            proof {
                vstd::arithmetic::div_mod::lemma_mod_decreases(seconds as nat, interval_seconds as nat);
            }
            let aligned_seconds = seconds - seconds % interval_seconds;
            proof {
                lemma_aligned_start(block.start, interval_duration);
                assert(aligned_seconds * 1_000_000_000 == aligned_start(block.start, interval_duration));
            }
            let mut interval_start = aligned_seconds * 1_000_000_000;
            while interval_start < block.finish
                invariant
                    d == interval_duration,
                    interval_duration / 1_000_000_000 > 0,
                    block.start < block.finish,
                    block.finish + interval_duration <= u64::MAX + 1,
                    interval_start + interval_duration > block.start,
                    add_slots(intervals_view(intervals@), *block, interval_start as int, d)
                        == add_block(before, *block, interval_duration),
                    interval_time(intervals_view(intervals@)) + remaining_time(*block, interval_start as int)
                        == interval_time(before) + block_duration()(*block),
                    interval_time(before) + block_duration()(*block) <= u64::MAX,
                decreases max_of(block.finish - interval_start, 0),
            {
                let interval_finish = interval_start + interval_duration;
                let piece_start = if block.start > interval_start {
                    block.start
                } else {
                    interval_start
                };
                let piece_finish = if block.finish < interval_finish {
                    block.finish
                } else {
                    interval_finish
                };
                let ghost current = intervals_view(intervals@);
                if piece_start < piece_finish {
                    let piece = piece_finish - piece_start;
                    proof {
                        lemma_add_piece(current, interval_start as int, interval_finish as int, *block, piece as int);
                    }
                    if intervals.len() == 0 || intervals[intervals.len() - 1].start != interval_start {
                        intervals.push(CalendarInterval::new(interval_start, interval_finish, Vec::new()));
                        proof {
                            assert(intervals_view(intervals@) =~= current.push(
                                IntervalView {
                                    start: interval_start,
                                    finish: interval_finish,
                                    contexts: Seq::empty(),
                                    suggestion: None,
                                },
                            ));
                        }
                    }
                    let ghost opened = intervals_view(intervals@);
                    let mut interval = intervals.pop().unwrap();
                    proof {
                        assert(opened.drop_last() =~= intervals_view(intervals@));
                        assert(opened.last() == interval@);
                        lemma_interval_time_bounds(opened);
                        assert(context_time(opened[opened.len() - 1].contexts) <= interval_time(opened));
                        if current.len() == 0 || current.last().start != interval_start {
                            lemma_sum_by_push(current, opened.last(), interval_context_time());
                            assert(context_time(Seq::<CalendarIntervalContext>::empty()) == 0);
                        }
                    }
                    add_context_time(&mut interval.contexts, block, piece);
                    intervals.push(interval);
                    proof {
                        assert(intervals_view(intervals@) =~= add_piece(
                            current,
                            interval_start as int,
                            interval_finish as int,
                            *block,
                            piece as int,
                        ));
                    }
                }
                interval_start = interval_finish;
            }
        }
        proof {
            lemma_add_block(before, *block, interval_duration);
        }
    }
    proof {
        assert(blocks@.take(blocks@.len() as int) =~= blocks@);
    }
    let mut ordered: Vec<CalendarInterval> = Vec::new();
    for i in 0..intervals.len()
        invariant
            intervals_view(intervals@) == intervals_of(blocks@, interval_duration),
            intervals_view(ordered@) == intervals_view(intervals@).take(i as int).map_values(
                |interval: IntervalView| with_ordered_contexts(interval),
            ),
    {
        let interval = &intervals[i];
        let suggestion = match &interval.suggestion {
            Some(suggestion) => Some(suggestion.duplicate()),
            None => None,
        };
        let next = CalendarInterval {
            start: interval.start,
            finish: interval.finish,
            contexts: ordered_contexts(&interval.contexts),
            suggestion,
        };
        let ghost prev = intervals_view(ordered@);
        ordered.push(next);
        proof {
            assert(intervals_view(intervals@)[i as int] == intervals@[i as int]@);
            assert(next@ == with_ordered_contexts(intervals@[i as int]@));
            assert(intervals_view(ordered@) =~= prev.push(next@));
            assert(intervals_view(ordered@) =~= intervals_view(intervals@).take(i + 1).map_values(
                |interval: IntervalView| with_ordered_contexts(interval),
            ));
        }
    }
    proof {
        assert(intervals_view(intervals@).take(intervals@.len() as int) =~= intervals_view(intervals@));
    }
    ordered
}

} // verus!
