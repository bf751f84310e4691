use vstd::prelude::*;

use crate::calendar::CalendarBlock;
use crate::events::{
    chronological, chronological_order, distinct_times, lemma_chronological,
    lemma_chronological_order_independent, time_order, Event,
};

verus! {

/// The longest pause, in nanoseconds, between two observations that still
/// counts as continuous observation.
pub const MAXIMUM_CONTINUOUS_OBSERVATION_GAP: u64 = 5_000_000_000;

/// The block that a single observation opens.
pub open spec fn block_for(event: Event) -> CalendarBlock {
    CalendarBlock {
        start: event.observed_at,
        finish: event.observed_at,
        observation_count: 1,
        executable: event.executable(),
        description: event.title(),
    }
}

/// The observation shows the window context of the block.
pub open spec fn same_window_context(block: CalendarBlock, event: Event) -> bool {
    block.executable@ == event.executable()@ && block.description@ == event.title()@
}

/// The blocks after one more observation: it extends the last block when it
/// shows the same context within the continuous gap; otherwise it opens a new
/// block, and the last block is extended up to it when the gap is short.
pub open spec fn next_blocks(blocks: Seq<CalendarBlock>, event: Event) -> Seq<CalendarBlock> {
    if blocks.len() == 0 {
        seq![block_for(event)]
    } else {
        let last = blocks.last();
        let continuous = event.observed_at - last.finish <= MAXIMUM_CONTINUOUS_OBSERVATION_GAP;
        if same_window_context(last, event) && continuous {
            blocks.update(
                blocks.len() - 1,
                CalendarBlock {
                    finish: event.observed_at,
                    observation_count: (last.observation_count + 1) as usize,
                    ..last
                },
            )
        } else if continuous {
            blocks.update(blocks.len() - 1, CalendarBlock { finish: event.observed_at, ..last }).push(
                block_for(event),
            )
        } else {
            blocks.push(block_for(event))
        }
    }
}

/// The blocks of a sequence of observations taken in the given order.
pub open spec fn blocks_of(events: Seq<Event>) -> Seq<CalendarBlock>
    decreases events.len(),
{
    if events.len() == 0 {
        Seq::empty()
    } else {
        next_blocks(blocks_of(events.drop_last()), events.last())
    }
}

/// The blocks of the foreground-window calendar of `events`.
pub open spec fn foreground_window_blocks(events: Seq<Event>) -> Seq<CalendarBlock> {
    blocks_of(chronological(events))
}

/// Each block starts no later than it finishes, and each block finishes no later
/// than the next one starts.
pub open spec fn is_chronological(blocks: Seq<CalendarBlock>) -> bool {
    &&& forall|i: int| 0 <= i < blocks.len() ==> #[trigger] blocks[i].start <= blocks[i].finish
    &&& forall|i: int, j: int| 0 <= i < j < blocks.len() ==> blocks[i].finish <= blocks[j].start
}

/// The number of observations that the blocks hold.
pub open spec fn total_observations(blocks: Seq<CalendarBlock>) -> int
    decreases blocks.len(),
{
    if blocks.len() == 0 {
        0
    } else {
        total_observations(blocks.drop_last()) + blocks.last().observation_count
    }
}

pub proof fn lemma_total_observations_push(blocks: Seq<CalendarBlock>, block: CalendarBlock)
    ensures
        total_observations(blocks.push(block)) == total_observations(blocks)
            + block.observation_count,
{
    assert(blocks.push(block).drop_last() =~= blocks);
}

pub proof fn lemma_total_observations_update_last(blocks: Seq<CalendarBlock>, block: CalendarBlock)
    requires
        blocks.len() > 0,
    ensures
        total_observations(blocks.update(blocks.len() - 1, block)) == total_observations(blocks)
            - blocks.last().observation_count + block.observation_count,
{
    assert(blocks.update(blocks.len() - 1, block).drop_last() =~= blocks.drop_last());
}

/// Building blocks from observations in time order: the blocks are
/// chronological, they finish at the last observation, every block holds at
/// least one observation, and together they hold every observation once.
pub proof fn lemma_blocks_of(events: Seq<Event>)
    requires
        events.len() <= usize::MAX,
        forall|i: int, j: int| 0 <= i < j < events.len() ==> events[i].observed_at <= events[j].observed_at,
    ensures
        is_chronological(blocks_of(events)),
        total_observations(blocks_of(events)) == events.len(),
        events.len() == 0 <==> blocks_of(events).len() == 0,
        events.len() > 0 ==> blocks_of(events).last().finish == events.last().observed_at,
        events.len() > 0 ==> blocks_of(events)[0].start == events[0].observed_at,
        forall|i: int|
            0 <= i < blocks_of(events).len() ==> 1 <= #[trigger] blocks_of(events)[i].observation_count
                <= events.len(),
    decreases events.len(),
{
    if events.len() > 0 {
        let prefix = events.drop_last();
        lemma_blocks_of(prefix);
        let blocks = blocks_of(prefix);
        let event = events.last();
        if blocks.len() > 0 {
            assert(prefix.last() == events[events.len() - 2]);
            assert(blocks.last().finish <= event.observed_at);
            let last = blocks.last();
            let continuous = event.observed_at - last.finish <= MAXIMUM_CONTINUOUS_OBSERVATION_GAP;
            if same_window_context(last, event) && continuous {
                lemma_total_observations_update_last(
                    blocks,
                    CalendarBlock {
                        finish: event.observed_at,
                        observation_count: (last.observation_count + 1) as usize,
                        ..last
                    },
                );
            } else if continuous {
                let updated = blocks.update(
                    blocks.len() - 1,
                    CalendarBlock { finish: event.observed_at, ..last },
                );
                lemma_total_observations_update_last(
                    blocks,
                    CalendarBlock { finish: event.observed_at, ..last },
                );
                lemma_total_observations_push(updated, block_for(event));
            } else {
                lemma_total_observations_push(blocks, block_for(event));
            }
        } else {
            assert(total_observations(seq![block_for(event)]) == 1) by {
                lemma_total_observations_push(Seq::empty(), block_for(event));
                assert(Seq::<CalendarBlock>::empty().push(block_for(event)) =~= seq![block_for(event)]);
            }
        }
    }
}

/// The blocks of a day's observations are chronological, hold at least one
/// observation each, and together hold every observation exactly once.
pub proof fn lemma_foreground_window_blocks(events: Seq<Event>)
    requires
        events.len() <= usize::MAX,
    ensures
        is_chronological(foreground_window_blocks(events)),
        total_observations(foreground_window_blocks(events)) == events.len(),
        events.len() == 0 <==> foreground_window_blocks(events).len() == 0,
        forall|i: int|
            0 <= i < foreground_window_blocks(events).len()
                ==> 1 <= #[trigger] foreground_window_blocks(events)[i].observation_count,
{
    lemma_chronological(events);
    lemma_blocks_of(chronological(events));
}

/// Observations made at distinct times give the same blocks in whatever order
/// they are given.
pub proof fn lemma_foreground_window_blocks_order_independent(a: Seq<Event>, b: Seq<Event>)
    requires
        a.len() <= usize::MAX,
        a.to_multiset() == b.to_multiset(),
        distinct_times(a),
        distinct_times(b),
    ensures
        foreground_window_blocks(a) == foreground_window_blocks(b),
{
    lemma_chronological_order_independent(a, b);
}

/// Two blocks follow each other as the builder leaves them: the second starts
/// where the first finishes and shows another window context, or it starts
/// more than the continuous gap after the first finishes.
pub open spec fn follows(first: CalendarBlock, second: CalendarBlock) -> bool {
    ||| first.finish == second.start && !(first.executable@ == second.executable@
        && first.description@ == second.description@)
    ||| second.start - first.finish > MAXIMUM_CONTINUOUS_OBSERVATION_GAP
}

proof fn lemma_blocks_of_follow(events: Seq<Event>)
    ensures
        forall|k: int|
            0 <= k && k + 1 < blocks_of(events).len() ==> #[trigger] follows(
                blocks_of(events)[k],
                blocks_of(events)[k + 1],
            ),
    decreases events.len(),
{
    if events.len() > 0 {
        let prefix = events.drop_last();
        lemma_blocks_of_follow(prefix);
        let blocks = blocks_of(prefix);
        let event = events.last();
        let result = blocks_of(events);
        assert(result == next_blocks(blocks, event));
        if blocks.len() > 0 {
            let n = blocks.len() - 1;
            let last = blocks.last();
            assert(blocks[n] == last);
            let continuous = event.observed_at - last.finish <= MAXIMUM_CONTINUOUS_OBSERVATION_GAP;
            assert forall|k: int| 0 <= k && k + 1 < result.len() implies #[trigger] follows(
                result[k],
                result[k + 1],
            ) by {
                if k + 1 < n {
                    assert(result[k] == blocks[k]);
                    assert(result[k + 1] == blocks[k + 1]);
                    assert(follows(blocks[k], blocks[k + 1]));
                } else if k + 1 == n {
                    assert(result[k] == blocks[k]);
                    assert(result[k + 1].start == blocks[n].start);
                    assert(result[k + 1].executable == blocks[n].executable);
                    assert(result[k + 1].description == blocks[n].description);
                    assert(follows(blocks[k], blocks[k + 1]));
                } else {
                    assert(k == n);
                    assert(result[k + 1] == block_for(event));
                    if continuous {
                        assert(!same_window_context(last, event));
                        assert(result[k].finish == event.observed_at);
                    }
                }
            }
        }
    }
}

/// Consecutive blocks of the calendar either meet, where the window context
/// changed, or lie more than the continuous gap apart: two blocks of one
/// window context follow each other only after a pause in observation.
pub proof fn lemma_foreground_window_blocks_follow(events: Seq<Event>)
    ensures
        forall|k: int|
            0 <= k && k + 1 < foreground_window_blocks(events).len() ==> #[trigger] follows(
                foreground_window_blocks(events)[k],
                foreground_window_blocks(events)[k + 1],
            ),
{
    lemma_blocks_of_follow(chronological(events));
}

/// The number of observations held by the blocks before the `k`-th.
pub open spec fn observations_before(blocks: Seq<CalendarBlock>, k: int) -> int {
    total_observations(blocks.take(k))
}

/// The block holds the observations `first..=last` of `events`: it starts at
/// the first, all show its window context, each follows the one before within
/// the continuous gap, the next observation does not continue it, and it
/// finishes at the next observation when that comes within the continuous gap
/// and at its own last observation otherwise.
#[verifier::opaque]
pub open spec fn holds_observations(block: CalendarBlock, events: Seq<Event>, first: int, last: int) -> bool {
    &&& 0 <= first <= last < events.len()
    &&& block.start == events[first].observed_at
    &&& forall|i: int| first <= i <= last ==> same_window_context(block, #[trigger] events[i])
    &&& forall|i: int|
        first <= i < last ==> #[trigger] events[i + 1].observed_at - events[i].observed_at
            <= MAXIMUM_CONTINUOUS_OBSERVATION_GAP
    &&& last + 1 < events.len() ==> !(same_window_context(block, events[last + 1])
        && events[last + 1].observed_at - events[last].observed_at <= MAXIMUM_CONTINUOUS_OBSERVATION_GAP)
    &&& block.finish == if last + 1 < events.len() && events[last + 1].observed_at
        - events[last].observed_at <= MAXIMUM_CONTINUOUS_OBSERVATION_GAP {
        events[last + 1].observed_at
    } else {
        events[last].observed_at
    }
}

/// Each block holds the observations that follow those of the blocks before it.
pub open spec fn blocks_hold(blocks: Seq<CalendarBlock>, events: Seq<Event>) -> bool {
    &&& total_observations(blocks) == events.len()
    &&& forall|k: int|
        0 <= k < blocks.len() ==> #[trigger] blocks[k].observation_count >= 1 && holds_observations(
            blocks[k],
            events,
            observations_before(blocks, k),
            observations_before(blocks, k) + blocks[k].observation_count - 1,
        )
}

pub proof fn lemma_observations_before_prefix(blocks: Seq<CalendarBlock>, longer: Seq<CalendarBlock>, k: int)
    requires
        0 <= k <= blocks.len(),
        k <= longer.len(),
        forall|i: int| 0 <= i < k ==> longer[i] == blocks[i],
    ensures
        observations_before(longer, k) == observations_before(blocks, k),
{
    assert(longer.take(k) =~= blocks.take(k));
}

pub proof fn lemma_observations_before_last(blocks: Seq<CalendarBlock>)
    requires
        blocks.len() > 0,
    ensures
        observations_before(blocks, blocks.len() - 1) + blocks.last().observation_count
            == total_observations(blocks),
        observations_before(blocks, blocks.len() as int) == total_observations(blocks),
{
    assert(blocks.take(blocks.len() - 1) =~= blocks.drop_last());
    assert(blocks.take(blocks.len() as int) =~= blocks);
}

/// A block that held observations up to the end still holds them when more
/// observations come after, as long as its facts about the next one hold.
proof fn lemma_holds_more(block: CalendarBlock, events: Seq<Event>, more: Seq<Event>, first: int, last: int)
    requires
        holds_observations(block, events, first, last),
        last + 1 < events.len(),
        events.len() <= more.len(),
        forall|i: int| 0 <= i < events.len() ==> more[i] == events[i],
    ensures
        holds_observations(block, more, first, last),
{
    reveal(holds_observations);
    assert forall|i: int| first <= i <= last implies same_window_context(block, #[trigger] more[i]) by {
        assert(more[i] == events[i]);
    }
    assert forall|i: int| first <= i < last implies #[trigger] more[i + 1].observed_at - more[i].observed_at
        <= MAXIMUM_CONTINUOUS_OBSERVATION_GAP by {
        assert(more[i] == events[i]);
        assert(more[i + 1] == events[i + 1]);
        assert(events[i + 1].observed_at - events[i].observed_at <= MAXIMUM_CONTINUOUS_OBSERVATION_GAP);
    }
    assert(more[first] == events[first]);
    assert(more[last] == events[last]);
    assert(more[last + 1] == events[last + 1]);
}

/// A block before the last keeps holding its observations when one more
/// observation comes and the blocks before it stay as they were.
proof fn lemma_earlier_block_holds(
    blocks: Seq<CalendarBlock>,
    prefix: Seq<Event>,
    result: Seq<CalendarBlock>,
    events: Seq<Event>,
    k: int,
)
    requires
        blocks_hold(blocks, prefix),
        0 <= k < blocks.len() - 1,
        result.len() >= blocks.len(),
        forall|i: int| 0 <= i < blocks.len() - 1 ==> result[i] == blocks[i],
        events.len() == prefix.len() + 1,
        forall|i: int| 0 <= i < prefix.len() ==> events[i] == prefix[i],
    ensures
        result[k].observation_count >= 1 && holds_observations(
            result[k],
            events,
            observations_before(result, k),
            observations_before(result, k) + result[k].observation_count - 1,
        ),
{
    let n = blocks.len() - 1;
    lemma_observations_before_prefix(blocks, result, k);
    assert(result[k] == blocks[k]);
    assert(blocks[k].observation_count >= 1);
    assert(blocks[n].observation_count >= 1);
    let f = observations_before(blocks, k);
    let l = f + blocks[k].observation_count - 1;
    assert(holds_observations(blocks[k], prefix, f, l));
    assert(blocks.take(k + 1).drop_last() =~= blocks.take(k));
    assert(blocks.take(k + 1).last() == blocks[k]);
    assert(observations_before(blocks, k + 1) == l + 1);
    lemma_observations_before_order(blocks, k + 1, n);
    lemma_observations_before_last(blocks);
    lemma_holds_more(blocks[k], prefix, events, f, l);
}

/// The block that one more observation of its context, within the gap, extends.
proof fn lemma_merged_block_holds(
    last: CalendarBlock,
    prefix: Seq<Event>,
    events: Seq<Event>,
    first: int,
)
    requires
        holds_observations(last, prefix, first, prefix.len() - 1),
        events.len() == prefix.len() + 1,
        forall|i: int| 0 <= i < prefix.len() ==> events[i] == prefix[i],
        same_window_context(last, events.last()),
        events.last().observed_at - last.finish <= MAXIMUM_CONTINUOUS_OBSERVATION_GAP,
    ensures
        holds_observations(
            CalendarBlock {
                finish: events.last().observed_at,
                observation_count: (last.observation_count + 1) as usize,
                ..last
            },
            events,
            first,
            prefix.len() as int,
        ),
{
    reveal(holds_observations);
    let p = prefix.len() as int;
    let merged = CalendarBlock {
        finish: events.last().observed_at,
        observation_count: (last.observation_count + 1) as usize,
        ..last
    };
    assert(events[p] == events.last());
    assert(last.finish == prefix[p - 1].observed_at);
    assert forall|i: int| first <= i <= p implies same_window_context(merged, #[trigger] events[i]) by {
        if i < p {
            assert(events[i] == prefix[i]);
            assert(same_window_context(last, prefix[i]));
        }
    }
    assert forall|i: int| first <= i < p implies #[trigger] events[i + 1].observed_at - events[i].observed_at
        <= MAXIMUM_CONTINUOUS_OBSERVATION_GAP by {
        assert(events[i] == prefix[i]);
        if i + 1 < p {
            assert(events[i + 1] == prefix[i + 1]);
            assert(prefix[i + 1].observed_at - prefix[i].observed_at <= MAXIMUM_CONTINUOUS_OBSERVATION_GAP);
        }
    }
    assert(events[first] == prefix[first]);
}

/// The last block, when one more observation opens a new block: it is extended
/// up to that observation when it comes within the gap.
proof fn lemma_closed_block_holds(
    last: CalendarBlock,
    prefix: Seq<Event>,
    events: Seq<Event>,
    first: int,
)
    requires
        holds_observations(last, prefix, first, prefix.len() - 1),
        events.len() == prefix.len() + 1,
        forall|i: int| 0 <= i < prefix.len() ==> events[i] == prefix[i],
        !(same_window_context(last, events.last()) && events.last().observed_at - last.finish
            <= MAXIMUM_CONTINUOUS_OBSERVATION_GAP),
    ensures
        holds_observations(
            if events.last().observed_at - last.finish <= MAXIMUM_CONTINUOUS_OBSERVATION_GAP {
                CalendarBlock { finish: events.last().observed_at, ..last }
            } else {
                last
            },
            events,
            first,
            prefix.len() - 1,
        ),
{
    reveal(holds_observations);
    let p = prefix.len() as int;
    let own = p - 1;
    let extended = if events.last().observed_at - last.finish <= MAXIMUM_CONTINUOUS_OBSERVATION_GAP {
        CalendarBlock { finish: events.last().observed_at, ..last }
    } else {
        last
    };
    assert(events[p] == events.last());
    assert(last.finish == prefix[own].observed_at);
    assert forall|i: int| first <= i <= own implies same_window_context(extended, #[trigger] events[i]) by {
        assert(events[i] == prefix[i]);
        assert(same_window_context(last, prefix[i]));
    }
    assert forall|i: int| first <= i < own implies #[trigger] events[i + 1].observed_at - events[i].observed_at
        <= MAXIMUM_CONTINUOUS_OBSERVATION_GAP by {
        assert(events[i] == prefix[i]);
        assert(events[i + 1] == prefix[i + 1]);
        assert(prefix[i + 1].observed_at - prefix[i].observed_at <= MAXIMUM_CONTINUOUS_OBSERVATION_GAP);
    }
    assert(events[first] == prefix[first]);
    assert(events[own] == prefix[own]);
}

proof fn lemma_next_blocks_hold(blocks: Seq<CalendarBlock>, prefix: Seq<Event>, events: Seq<Event>)
    requires
        events.len() <= usize::MAX,
        blocks_hold(blocks, prefix),
        blocks.len() > 0,
        events.len() == prefix.len() + 1,
        forall|i: int| 0 <= i < prefix.len() ==> events[i] == prefix[i],
    ensures
        blocks_hold(next_blocks(blocks, events.last()), events),
{
    if same_window_context(blocks.last(), events.last()) && events.last().observed_at - blocks.last().finish
        <= MAXIMUM_CONTINUOUS_OBSERVATION_GAP {
        lemma_merge_blocks_hold(blocks, prefix, events);
    } else {
        lemma_split_blocks_hold(blocks, prefix, events);
    }
}

#[verifier::rlimit(40)]
proof fn lemma_merge_blocks_hold(blocks: Seq<CalendarBlock>, prefix: Seq<Event>, events: Seq<Event>)
    requires
        events.len() <= usize::MAX,
        blocks_hold(blocks, prefix),
        blocks.len() > 0,
        events.len() == prefix.len() + 1,
        forall|i: int| 0 <= i < prefix.len() ==> events[i] == prefix[i],
        same_window_context(blocks.last(), events.last()),
        events.last().observed_at - blocks.last().finish <= MAXIMUM_CONTINUOUS_OBSERVATION_GAP,
    ensures
        blocks_hold(next_blocks(blocks, events.last()), events),
{
    let event = events.last();
    let p = prefix.len() as int;
    let result = next_blocks(blocks, event);
    let n = blocks.len() - 1;
    let last = blocks.last();
    assert(blocks[n] == last);
    lemma_observations_before_last(blocks);
    let first = observations_before(blocks, n);
    assert(blocks[n].observation_count >= 1);
    assert(holds_observations(blocks[n], prefix, first, p - 1));
    assert(first >= 0) by {
        reveal(holds_observations);
    }
    let merged = CalendarBlock {
        finish: event.observed_at,
        observation_count: (last.observation_count + 1) as usize,
        ..last
    };
    assert(result == blocks.update(n, merged));
    lemma_total_observations_update_last(blocks, merged);
    lemma_merged_block_holds(last, prefix, events, first);
    assert(observations_before(result, n) == first) by {
        lemma_observations_before_prefix(blocks, result, n);
    }
    assert(result[n] == merged);
    assert forall|k: int| 0 <= k < result.len() implies #[trigger] result[k].observation_count >= 1
        && holds_observations(
        result[k],
        events,
        observations_before(result, k),
        observations_before(result, k) + result[k].observation_count - 1,
    ) by {
        if k < n {
            lemma_earlier_block_holds(blocks, prefix, result, events, k);
        }
    }
}

#[verifier::rlimit(40)]
proof fn lemma_split_blocks_hold(blocks: Seq<CalendarBlock>, prefix: Seq<Event>, events: Seq<Event>)
    requires
        events.len() <= usize::MAX,
        blocks_hold(blocks, prefix),
        blocks.len() > 0,
        events.len() == prefix.len() + 1,
        forall|i: int| 0 <= i < prefix.len() ==> events[i] == prefix[i],
        !(same_window_context(blocks.last(), events.last()) && events.last().observed_at
            - blocks.last().finish <= MAXIMUM_CONTINUOUS_OBSERVATION_GAP),
    ensures
        blocks_hold(next_blocks(blocks, events.last()), events),
{
    let event = events.last();
    let p = prefix.len() as int;
    let result = next_blocks(blocks, event);
    let fresh = block_for(event);
    let n = blocks.len() - 1;
    let last = blocks.last();
    assert(blocks[n] == last);
    lemma_observations_before_last(blocks);
    let first = observations_before(blocks, n);
    assert(blocks[n].observation_count >= 1);
    assert(holds_observations(blocks[n], prefix, first, p - 1));
    let continuous = event.observed_at - last.finish <= MAXIMUM_CONTINUOUS_OBSERVATION_GAP;
    let extended = if continuous {
        CalendarBlock { finish: event.observed_at, ..last }
    } else {
        last
    };
    let updated = blocks.update(n, extended);
    assert(result == updated.push(fresh)) by {
        if !continuous {
            assert(updated =~= blocks);
        }
    }
    lemma_total_observations_update_last(blocks, extended);
    lemma_total_observations_push(updated, fresh);
    assert(observations_before(result, n + 1) == p) by {
        lemma_observations_before_prefix(updated, result, n + 1);
        lemma_observations_before_last(updated);
    }
    assert(observations_before(result, n) == first) by {
        lemma_observations_before_prefix(blocks, result, n);
    }
    lemma_closed_block_holds(last, prefix, events, first);
    assert(result[n] == extended);
    assert(holds_observations(result[n], events, first, p - 1));
    assert(events[p] == event);
    assert(result[n + 1] == fresh);
    lemma_fresh_block_holds(events);
    assert forall|k: int| 0 <= k < result.len() implies #[trigger] result[k].observation_count >= 1
        && holds_observations(
        result[k],
        events,
        observations_before(result, k),
        observations_before(result, k) + result[k].observation_count - 1,
    ) by {
        if k < n {
            lemma_earlier_block_holds(blocks, prefix, result, events, k);
        }
    }
}

proof fn lemma_fresh_block_holds(events: Seq<Event>)
    requires
        events.len() > 0,
    ensures
        holds_observations(block_for(events.last()), events, events.len() - 1, events.len() - 1),
{
    reveal(holds_observations);
    assert(events[events.len() - 1] == events.last());
}

proof fn lemma_blocks_of_hold(events: Seq<Event>)
    requires
        events.len() <= usize::MAX,
    ensures
        blocks_hold(blocks_of(events), events),
    decreases events.len(),
{
    if events.len() > 0 {
        let prefix = events.drop_last();
        lemma_blocks_of_hold(prefix);
        let blocks = blocks_of(prefix);
        let event = events.last();
        assert(events[prefix.len() as int] == event);
        assert forall|i: int| 0 <= i < prefix.len() implies events[i] == prefix[i] by {}
        let result = blocks_of(events);
        assert(result == next_blocks(blocks, event));
        if blocks.len() == 0 {
            let fresh = block_for(event);
            assert(result =~= seq![fresh]);
            assert(total_observations(result) == 1) by {
                lemma_total_observations_push(Seq::empty(), fresh);
                assert(Seq::<CalendarBlock>::empty().push(fresh) =~= seq![fresh]);
            }
            assert(observations_before(result, 0) == 0) by {
                assert(result.take(0) =~= Seq::<CalendarBlock>::empty());
            }
            lemma_fresh_block_holds(events);
        } else {
            lemma_next_blocks_hold(blocks, prefix, events);
        }
    }
}

pub proof fn lemma_observations_before_order(blocks: Seq<CalendarBlock>, j: int, k: int)
    requires
        0 <= j <= k <= blocks.len(),
    ensures
        observations_before(blocks, j) <= observations_before(blocks, k),
    decreases k - j,
{
    if j < k {
        lemma_observations_before_order(blocks, j, k - 1);
        assert(blocks.take(k).drop_last() =~= blocks.take(k - 1));
    }
}

/// Each block of the calendar holds a run of the observations in time order:
/// it starts at the first of them, all show its window context, each comes
/// within five seconds of the one before, and the next observation does not
/// continue it. The block finishes at the next observation when that comes
/// within five seconds of its last one, and at its last one otherwise: a block
/// never reaches across a pause in observation.
pub proof fn lemma_foreground_window_blocks_hold(events: Seq<Event>)
    requires
        events.len() <= usize::MAX,
    ensures
        total_observations(foreground_window_blocks(events)) == events.len(),
        forall|k: int|
            0 <= k < foreground_window_blocks(events).len() ==> #[trigger] foreground_window_blocks(
                events,
            )[k].observation_count >= 1 && holds_observations(
                foreground_window_blocks(events)[k],
                chronological(events),
                observations_before(foreground_window_blocks(events), k),
                observations_before(foreground_window_blocks(events), k) + foreground_window_blocks(
                    events,
                )[k].observation_count - 1,
            ),
{
    lemma_chronological(events);
    lemma_blocks_of_hold(chronological(events));
}

/// Builds the blocks of the foreground-window calendar: the observations are
/// taken in time order (stably, as they are given where times are equal); an
/// observation of the same window context within five seconds of the last one
/// extends the current block; any other observation opens a new block, and
/// when it comes within five seconds the current block is extended up to it.
pub fn build_foreground_window_blocks(events: &[Event]) -> (blocks: Vec<CalendarBlock>)
    ensures
        blocks@ == foreground_window_blocks(events@),
{
    let n = events.len();
    let order = chronological_order(events);
    let ghost sorted = chronological(events@);
    proof {
        lemma_chronological(events@);
    }
    let mut blocks: Vec<CalendarBlock> = Vec::new();
    for p in 0..order.len()
        invariant
            order@ == time_order(events@),
            sorted == chronological(events@),
            order@.len() == events@.len(),
            sorted.len() == events@.len(),
            forall|k: int| 0 <= k < events@.len() ==> #[trigger] order@[k] < events@.len(),
            forall|k: int| 0 <= k < events@.len() ==> #[trigger] sorted[k] == events@[order@[k] as int],
            forall|i: int, j: int| 0 <= i < j < events@.len() ==> sorted[i].observed_at <= sorted[j].observed_at,
            blocks@ == blocks_of(sorted.take(p as int)),
            p > 0 ==> blocks@.len() > 0 && blocks@.last().finish == sorted[p - 1].observed_at,
            forall|k: int| 0 <= k < blocks@.len() ==> #[trigger] blocks@[k].observation_count <= p,
    {
        let event = &events[order[p]];
        let (title, executable) = event.window_context();
        let ghost prefix = sorted.take(p as int);
        proof {
            assert(sorted.take(p + 1).drop_last() =~= prefix);
            assert(sorted.take(p + 1).last() == *event);
        }
        if blocks.len() == 0 {
            blocks.push(CalendarBlock::new(event.observed_at, executable.clone(), title.clone()));
            proof {
                assert(blocks@ =~= seq![crate::calendar::foreground_window::block_for(*event)]);
            }
        } else {
            let ghost before = blocks@;
            let mut last = blocks.pop().unwrap();
            proof {
                assert(before.drop_last() =~= blocks@);
                assert(sorted[p - 1].observed_at <= sorted[p as int].observed_at);
            }
            let gap = event.observed_at - last.finish;
            let continuous = gap <= MAXIMUM_CONTINUOUS_OBSERVATION_GAP;
            if last.executable == *executable && last.description == *title && continuous {
                last.observation_count = last.observation_count + 1;
                last.finish = event.observed_at;
                blocks.push(last);
                proof {
                    assert(blocks@ =~= next_blocks(before, *event));
                }
            } else {
                if continuous {
                    last.finish = event.observed_at;
                }
                blocks.push(last);
                blocks.push(CalendarBlock::new(event.observed_at, executable.clone(), title.clone()));
                proof {
                    assert(blocks@ =~= next_blocks(before, *event));
                }
            }
        }
    }
    proof {
        assert(sorted.take(events@.len() as int) =~= sorted);
    }
    blocks
}

} // verus!
