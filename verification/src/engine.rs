use vstd::prelude::*;

use crate::calendar::foreground_window::{
    block_for, is_chronological, lemma_observations_before_last, lemma_observations_before_order,
    lemma_observations_before_prefix, lemma_total_observations_push,
    lemma_total_observations_update_last, observations_before, same_window_context,
    total_observations,
};
use crate::calendar::CalendarBlock;
use crate::events::{
    chronological, chronological_order, distinct_times, lemma_chronological,
    lemma_chronological_order_independent, time_order, Event,
};

verus! {

/// The shortest time, in nanoseconds, that a context must last to become a
/// block; also the shortest pause that keeps two stretches of one context
/// apart.
pub const MINIMUM_BLOCK_DURATION: u64 = 300_000_000_000;

/// The contexts after one more observation: it extends the last context when it
/// shows the same window less than five minutes after it, and opens a new
/// context otherwise.
pub open spec fn next_contexts(contexts: Seq<CalendarBlock>, event: Event) -> Seq<CalendarBlock> {
    if contexts.len() == 0 {
        seq![block_for(event)]
    } else {
        let last = contexts.last();
        if same_window_context(last, event) && event.observed_at - last.finish
            < MINIMUM_BLOCK_DURATION {
            contexts.update(
                contexts.len() - 1,
                CalendarBlock {
                    finish: event.observed_at,
                    observation_count: (last.observation_count + 1) as usize,
                    ..last
                },
            )
        } else {
            contexts.push(block_for(event))
        }
    }
}

/// The continuous contexts of a sequence of observations taken in the given
/// order.
pub open spec fn observed_contexts(events: Seq<Event>) -> Seq<CalendarBlock>
    decreases events.len(),
{
    if events.len() == 0 {
        Seq::empty()
    } else {
        next_contexts(observed_contexts(events.drop_last()), events.last())
    }
}

/// The block lasts at least five minutes.
pub open spec fn lasts_minimum(block: CalendarBlock) -> bool {
    block.finish - block.start >= MINIMUM_BLOCK_DURATION
}

/// The blocks that last at least five minutes, in their order.
pub open spec fn qualifying(blocks: Seq<CalendarBlock>) -> Seq<CalendarBlock>
    decreases blocks.len(),
{
    if blocks.len() == 0 {
        blocks
    } else {
        let kept = qualifying(blocks.drop_last());
        if lasts_minimum(blocks.last()) {
            kept.push(blocks.last())
        } else {
            kept
        }
    }
}

/// The two blocks show the same window context.
pub open spec fn same_context(a: CalendarBlock, b: CalendarBlock) -> bool {
    a.executable@ == b.executable@ && a.description@ == b.description@
}

/// `block` continues `previous`: same context, less than five minutes later.
pub open spec fn joins(previous: CalendarBlock, block: CalendarBlock) -> bool {
    same_context(previous, block) && block.start - previous.finish < MINIMUM_BLOCK_DURATION
}

/// The merged blocks after one more block: it is folded into the last block
/// when it continues it, and appended otherwise.
pub open spec fn merge_next(merged: Seq<CalendarBlock>, block: CalendarBlock) -> Seq<CalendarBlock> {
    if merged.len() > 0 && joins(merged.last(), block) {
        let previous = merged.last();
        merged.update(
            merged.len() - 1,
            CalendarBlock {
                finish: block.finish,
                observation_count: (previous.observation_count + block.observation_count) as usize,
                ..previous
            },
        )
    } else {
        merged.push(block)
    }
}

/// The blocks with each run of continuing blocks folded into one.
pub open spec fn merged_blocks(blocks: Seq<CalendarBlock>) -> Seq<CalendarBlock>
    decreases blocks.len(),
{
    if blocks.len() == 0 {
        blocks
    } else {
        merge_next(merged_blocks(blocks.drop_last()), blocks.last())
    }
}

/// The calendar blocks of `events`: the continuous contexts of the observations
/// in time order, those of at least five minutes, with the ones that continue
/// each other merged.
pub open spec fn foreground_window_calendar(events: Seq<Event>) -> Seq<CalendarBlock> {
    merged_blocks(qualifying(observed_contexts(chronological(events))))
}

/// Each observation count is at most the total.
pub proof fn lemma_count_at_most_total(blocks: Seq<CalendarBlock>, k: int)
    requires
        0 <= k < blocks.len(),
    ensures
        blocks[k].observation_count <= total_observations(blocks),
    decreases blocks.len(),
{
    if k < blocks.len() - 1 {
        lemma_count_at_most_total(blocks.drop_last(), k);
        assert(blocks.drop_last()[k] == blocks[k]);
    }
    lemma_total_nonnegative(blocks.drop_last());
}

pub proof fn lemma_total_nonnegative(blocks: Seq<CalendarBlock>)
    ensures
        total_observations(blocks) >= 0,
    decreases blocks.len(),
{
    if blocks.len() > 0 {
        lemma_total_nonnegative(blocks.drop_last());
    }
}

/// A prefix holds no more observations than the whole.
pub proof fn lemma_total_of_prefix(blocks: Seq<CalendarBlock>, i: int)
    requires
        0 <= i <= blocks.len(),
    ensures
        total_observations(blocks.take(i)) <= total_observations(blocks),
    decreases blocks.len(),
{
    if i < blocks.len() {
        lemma_total_of_prefix(blocks.drop_last(), i);
        assert(blocks.drop_last().take(i) =~= blocks.take(i));
    } else {
        assert(blocks.take(i) =~= blocks);
    }
}

/// The contexts of observations in time order are chronological, finish at the
/// last observation, hold at least one observation each and every observation
/// once.
pub proof fn lemma_observed_contexts(events: Seq<Event>)
    requires
        events.len() <= usize::MAX,
        forall|i: int, j: int|
            0 <= i < j < events.len() ==> events[i].observed_at <= events[j].observed_at,
    ensures
        is_chronological(observed_contexts(events)),
        total_observations(observed_contexts(events)) == events.len(),
        events.len() == 0 <==> observed_contexts(events).len() == 0,
        events.len() > 0 ==> observed_contexts(events).last().finish == events.last().observed_at,
        forall|i: int|
            0 <= i < observed_contexts(events).len() ==> 1
                <= #[trigger] observed_contexts(events)[i].observation_count <= events.len(),
    decreases events.len(),
{
    if events.len() > 0 {
        let prefix = events.drop_last();
        lemma_observed_contexts(prefix);
        let contexts = observed_contexts(prefix);
        let event = events.last();
        if contexts.len() > 0 {
            assert(prefix.last() == events[events.len() - 2]);
            let last = contexts.last();
            if same_window_context(last, event) && event.observed_at - last.finish
                < MINIMUM_BLOCK_DURATION {
                lemma_total_observations_update_last(
                    contexts,
                    CalendarBlock {
                        finish: event.observed_at,
                        observation_count: (last.observation_count + 1) as usize,
                        ..last
                    },
                );
            } else {
                lemma_total_observations_push(contexts, block_for(event));
            }
        } else {
            assert(total_observations(seq![block_for(event)]) == 1) by {
                lemma_total_observations_push(Seq::empty(), block_for(event));
                assert(Seq::<CalendarBlock>::empty().push(block_for(event)) =~= seq![
                    block_for(event),
                ]);
            }
        }
    }
}

/// Dropping the last block keeps blocks chronological.
pub proof fn lemma_chronological_prefix(blocks: Seq<CalendarBlock>)
    requires
        blocks.len() > 0,
        is_chronological(blocks),
    ensures
        is_chronological(blocks.drop_last()),
{
    let prefix = blocks.drop_last();
    assert forall|i: int| 0 <= i < prefix.len() implies #[trigger] prefix[i].start
        <= prefix[i].finish by {
        assert(prefix[i] == blocks[i]);
    }
    assert forall|i: int, j: int| 0 <= i < j < prefix.len() implies prefix[i].finish
        <= prefix[j].start by {
        assert(prefix[i] == blocks[i]);
        assert(prefix[j] == blocks[j]);
    }
}

/// A prefix of chronological blocks is chronological.
pub proof fn lemma_chronological_take(blocks: Seq<CalendarBlock>, i: int)
    requires
        0 <= i <= blocks.len(),
        is_chronological(blocks),
    ensures
        is_chronological(blocks.take(i)),
{
    let prefix = blocks.take(i);
    assert forall|a: int| 0 <= a < prefix.len() implies #[trigger] prefix[a].start
        <= prefix[a].finish by {
        assert(prefix[a] == blocks[a]);
    }
    assert forall|a: int, b: int| 0 <= a < b < prefix.len() implies prefix[a].finish
        <= prefix[b].start by {
        assert(prefix[a] == blocks[a]);
        assert(prefix[b] == blocks[b]);
    }
}

/// Keeping the blocks of at least five minutes keeps blocks of the input, in
/// chronological order, and drops observations only with dropped blocks.
#[verifier::spinoff_prover]
pub proof fn lemma_qualifying(blocks: Seq<CalendarBlock>)
    requires
        is_chronological(blocks),
    ensures
        is_chronological(qualifying(blocks)),
        total_observations(qualifying(blocks)) <= total_observations(blocks),
        qualifying(blocks).len() <= blocks.len(),
        forall|k: int|
            0 <= k < qualifying(blocks).len() ==> #[trigger] lasts_minimum(qualifying(blocks)[k])
                && blocks.contains(qualifying(blocks)[k]),
    decreases blocks.len(),
{
    if blocks.len() > 0 {
        let prefix = blocks.drop_last();
        lemma_chronological_prefix(blocks);
        lemma_qualifying(prefix);
        let kept = qualifying(prefix);
        let last = blocks.last();
        assert forall|k: int| 0 <= k < kept.len() implies blocks.contains(#[trigger] kept[k]) by {
            assert(lasts_minimum(kept[k]));
            assert(prefix.contains(kept[k]));
            let j = choose|j: int| 0 <= j < prefix.len() && prefix[j] == kept[k];
            assert(blocks[j] == kept[k]);
        }
        if lasts_minimum(last) {
            lemma_total_observations_push(kept, last);
            let result = kept.push(last);
            assert forall|k: int| 0 <= k < result.len() implies #[trigger] lasts_minimum(result[k])
                && blocks.contains(result[k]) by {
                if k == result.len() - 1 {
                    assert(blocks[blocks.len() - 1] == result[k]);
                } else {
                    assert(result[k] == kept[k]);
                    assert(lasts_minimum(kept[k]));
                }
            }
            assert forall|i: int, j: int| 0 <= i < j < result.len() implies result[i].finish
                <= result[j].start by {
                if j == result.len() - 1 {
                    assert(result[i] == kept[i]);
                    assert(lasts_minimum(kept[i]) && prefix.contains(kept[i]));
                    let b = choose|b: int| 0 <= b < prefix.len() && prefix[b] == kept[i];
                    assert(blocks[b] == kept[i]);
                } else {
                    assert(result[i] == kept[i]);
                    assert(result[j] == kept[j]);
                }
            }
            assert forall|i: int| 0 <= i < result.len() implies #[trigger] result[i].start
                <= result[i].finish by {
                if i < result.len() - 1 {
                    assert(result[i] == kept[i]);
                }
            }
        }
        lemma_total_nonnegative(prefix);
    }
}

/// Merging chronological blocks of at least five minutes keeps them
/// chronological and at least five minutes long, keeps every observation, ends
/// where the input ends, and leaves no block that continues the one before it.
pub proof fn lemma_merged_blocks(blocks: Seq<CalendarBlock>)
    requires
        is_chronological(blocks),
        total_observations(blocks) <= usize::MAX,
        forall|k: int| 0 <= k < blocks.len() ==> #[trigger] lasts_minimum(blocks[k]),
    ensures
        is_chronological(merged_blocks(blocks)),
        total_observations(merged_blocks(blocks)) == total_observations(blocks),
        merged_blocks(blocks).len() <= blocks.len(),
        blocks.len() > 0 ==> merged_blocks(blocks).len() > 0 && merged_blocks(blocks).last().finish
            == blocks.last().finish,
        forall|k: int|
            0 <= k < merged_blocks(blocks).len() ==> #[trigger] lasts_minimum(
                merged_blocks(blocks)[k],
            ),
        forall|k: int|
            0 <= k < merged_blocks(blocks).len() - 1 ==> !#[trigger] joins(
                merged_blocks(blocks)[k],
                merged_blocks(blocks)[k + 1],
            ),
        (forall|k: int| 0 <= k < blocks.len() ==> #[trigger] blocks[k].observation_count >= 1) ==> (
        forall|k: int|
            0 <= k < merged_blocks(blocks).len() ==> #[trigger] merged_blocks(
                blocks,
            )[k].observation_count >= 1),
    decreases blocks.len(),
{
    if blocks.len() > 0 {
        let prefix = blocks.drop_last();
        let block = blocks.last();
        lemma_chronological_prefix(blocks);
        lemma_total_nonnegative(prefix);
        assert forall|k: int| 0 <= k < prefix.len() implies #[trigger] lasts_minimum(prefix[k]) by {
            assert(prefix[k] == blocks[k]);
        }
        lemma_merged_blocks(prefix);
        let merged = merged_blocks(prefix);
        assert(lasts_minimum(blocks[blocks.len() - 1]));
        if prefix.len() > 0 {
            assert(prefix.last() == blocks[blocks.len() - 2]);
        }
        assert((forall|k: int| 0 <= k < blocks.len() ==> #[trigger] blocks[k].observation_count >= 1)
            ==> (forall|k: int| 0 <= k < prefix.len() ==> #[trigger] prefix[k].observation_count >= 1))
            by {
            if forall|k: int| 0 <= k < blocks.len() ==> #[trigger] blocks[k].observation_count >= 1 {
                assert forall|k: int| 0 <= k < prefix.len() implies #[trigger] prefix[k].observation_count
                    >= 1 by {
                    assert(prefix[k] == blocks[k]);
                }
            }
        }
        if merged.len() > 0 && joins(merged.last(), block) {
            let previous = merged.last();
            lemma_count_at_most_total(merged, merged.len() - 1);
            let updated = CalendarBlock {
                finish: block.finish,
                observation_count: (previous.observation_count + block.observation_count) as usize,
                ..previous
            };
            lemma_total_observations_update_last(merged, updated);
            let result = merged.update(merged.len() - 1, updated);
            assert(lasts_minimum(merged[merged.len() - 1]));
            assert forall|i: int| 0 <= i < result.len() implies #[trigger] result[i].start
                <= result[i].finish by {
                if i < result.len() - 1 {
                    assert(result[i] == merged[i]);
                }
            }
            assert forall|i: int, j: int| 0 <= i < j < result.len() implies result[i].finish
                <= result[j].start by {
                assert(result[i] == merged[i]);
                if j < result.len() - 1 {
                    assert(result[j] == merged[j]);
                }
            }
            assert forall|k: int| 0 <= k < result.len() implies #[trigger] lasts_minimum(result[k]) by {
                if k < result.len() - 1 {
                    assert(result[k] == merged[k]);
                }
            }
            assert forall|k: int| 0 <= k < result.len() - 1 implies !#[trigger] joins(
                result[k],
                result[k + 1],
            ) by {
                assert(result[k] == merged[k]);
                assert(joins(merged[k], merged[k + 1]) == joins(result[k], result[k + 1]));
            }
        } else {
            lemma_total_observations_push(merged, block);
            let result = merged.push(block);
            assert forall|i: int| 0 <= i < result.len() implies #[trigger] result[i].start
                <= result[i].finish by {
                if i < result.len() - 1 {
                    assert(result[i] == merged[i]);
                }
            }
            assert forall|i: int, j: int| 0 <= i < j < result.len() implies result[i].finish
                <= result[j].start by {
                assert(result[i] == merged[i]);
                if j < result.len() - 1 {
                    assert(result[j] == merged[j]);
                } else {
                    assert(merged[i].finish <= merged.last().finish);
                }
            }
            assert forall|k: int| 0 <= k < result.len() implies #[trigger] lasts_minimum(result[k]) by {
                if k < result.len() - 1 {
                    assert(result[k] == merged[k]);
                }
            }
            assert forall|k: int| 0 <= k < result.len() - 1 implies !#[trigger] joins(
                result[k],
                result[k + 1],
            ) by {
                assert(result[k] == merged[k]);
                if k + 1 < result.len() - 1 {
                    assert(result[k + 1] == merged[k + 1]);
                }
            }
        }
    }
}

/// The calendar blocks of a day's observations are chronological, each lasts
/// at least five minutes and holds at least one observation, no block continues
/// the one before it, and together they hold no more observations than there
/// are.
pub proof fn lemma_foreground_window_calendar(events: Seq<Event>)
    requires
        events.len() <= usize::MAX,
    ensures
        is_chronological(foreground_window_calendar(events)),
        total_observations(foreground_window_calendar(events)) <= events.len(),
        forall|k: int|
            0 <= k < foreground_window_calendar(events).len() ==> #[trigger] lasts_minimum(
                foreground_window_calendar(events)[k],
            ),
        forall|k: int|
            0 <= k < foreground_window_calendar(events).len() ==> #[trigger] foreground_window_calendar(
                events,
            )[k].observation_count >= 1,
        forall|k: int|
            0 <= k < foreground_window_calendar(events).len() - 1 ==> !#[trigger] joins(
                foreground_window_calendar(events)[k],
                foreground_window_calendar(events)[k + 1],
            ),
{
    lemma_chronological(events);
    let sorted = chronological(events);
    lemma_observed_contexts(sorted);
    let contexts = observed_contexts(sorted);
    lemma_qualifying(contexts);
    let kept = qualifying(contexts);
    assert forall|k: int| 0 <= k < kept.len() implies #[trigger] kept[k].observation_count >= 1 by {
        assert(lasts_minimum(kept[k]));
        assert(contexts.contains(kept[k]));
        let j = choose|j: int| 0 <= j < contexts.len() && contexts[j] == kept[k];
        assert(contexts[j].observation_count >= 1);
    }
    lemma_merged_blocks(kept);
}

/// Observations made at distinct times give the same calendar blocks in
/// whatever order they are given.
pub proof fn lemma_foreground_window_calendar_order_independent(a: Seq<Event>, b: Seq<Event>)
    requires
        a.len() <= usize::MAX,
        a.to_multiset() == b.to_multiset(),
        distinct_times(a),
        distinct_times(b),
    ensures
        foreground_window_calendar(a) == foreground_window_calendar(b),
{
    lemma_chronological_order_independent(a, b);
}

/// The block starts at an observation of its window context.
pub open spec fn starts_at_observation(block: CalendarBlock, events: Seq<Event>) -> bool {
    exists|i: int|
        0 <= i < events.len() && #[trigger] events[i].observed_at == block.start && same_window_context(
            block,
            events[i],
        )
}

/// The block finishes at an observation of its window context.
pub open spec fn finishes_at_observation(block: CalendarBlock, events: Seq<Event>) -> bool {
    exists|i: int|
        0 <= i < events.len() && #[trigger] events[i].observed_at == block.finish && same_window_context(
            block,
            events[i],
        )
}

/// Every block starts and finishes at observations of its window context.
pub open spec fn traced_to(blocks: Seq<CalendarBlock>, events: Seq<Event>) -> bool {
    forall|k: int|
        0 <= k < blocks.len() ==> starts_at_observation(#[trigger] blocks[k], events)
            && finishes_at_observation(blocks[k], events)
}

/// Observations that are all among other observations support the same
/// blocks there.
pub proof fn lemma_traced_to_more(blocks: Seq<CalendarBlock>, events: Seq<Event>, more: Seq<Event>)
    requires
        traced_to(blocks, events),
        forall|i: int| 0 <= i < events.len() ==> more.contains(#[trigger] events[i]),
    ensures
        traced_to(blocks, more),
{
    assert forall|k: int| 0 <= k < blocks.len() implies starts_at_observation(#[trigger] blocks[k], more)
        && finishes_at_observation(blocks[k], more) by {
        let block = blocks[k];
        assert(starts_at_observation(block, events) && finishes_at_observation(block, events));
        let i = choose|i: int|
            0 <= i < events.len() && #[trigger] events[i].observed_at == block.start
                && same_window_context(block, events[i]);
        let j = choose|j: int|
            0 <= j < events.len() && #[trigger] events[j].observed_at == block.finish
                && same_window_context(block, events[j]);
        assert(more.contains(events[i]));
        assert(more.contains(events[j]));
        let a = choose|a: int| 0 <= a < more.len() && more[a] == events[i];
        let b = choose|b: int| 0 <= b < more.len() && more[b] == events[j];
        assert(more[a].observed_at == block.start);
        assert(more[b].observed_at == block.finish);
    }
}

/// The contexts of observations in the given order start and finish at
/// observations of their window context.
pub proof fn lemma_observed_contexts_traced(events: Seq<Event>)
    ensures
        traced_to(observed_contexts(events), events),
    decreases events.len(),
{
    if events.len() > 0 {
        let prefix = events.drop_last();
        lemma_observed_contexts_traced(prefix);
        assert forall|i: int| 0 <= i < prefix.len() implies events.contains(#[trigger] prefix[i]) by {
            assert(events[i] == prefix[i]);
        }
        lemma_traced_to_more(observed_contexts(prefix), prefix, events);
        let contexts = observed_contexts(prefix);
        let event = events.last();
        let n = events.len() - 1;
        assert(events[n] == event);
        let result = observed_contexts(events);
        assert forall|k: int| 0 <= k < result.len() implies starts_at_observation(#[trigger] result[k], events)
            && finishes_at_observation(result[k], events) by {
            if k < contexts.len() && (k < contexts.len() - 1 || result[k] == contexts[k]) {
                assert(result[k] == contexts[k]);
                assert(starts_at_observation(contexts[k], events));
                assert(finishes_at_observation(contexts[k], events));
            } else if k < contexts.len() {
                let last = contexts.last();
                assert(starts_at_observation(last, events));
                let i = choose|i: int|
                    0 <= i < events.len() && #[trigger] events[i].observed_at == last.start
                        && same_window_context(last, events[i]);
                assert(events[i].observed_at == result[k].start);
                assert(events[n].observed_at == result[k].finish);
            } else {
                assert(result[k] == block_for(event));
                assert(events[n].observed_at == result[k].start);
                assert(events[n].observed_at == result[k].finish);
            }
        }
    }
}

/// Keeping the blocks of at least five minutes keeps them traced.
pub proof fn lemma_qualifying_traced(blocks: Seq<CalendarBlock>, events: Seq<Event>)
    requires
        is_chronological(blocks),
        traced_to(blocks, events),
    ensures
        traced_to(qualifying(blocks), events),
{
    lemma_qualifying(blocks);
    let kept = qualifying(blocks);
    assert forall|k: int| 0 <= k < kept.len() implies starts_at_observation(#[trigger] kept[k], events)
        && finishes_at_observation(kept[k], events) by {
        assert(lasts_minimum(kept[k]));
        assert(blocks.contains(kept[k]));
        let j = choose|j: int| 0 <= j < blocks.len() && blocks[j] == kept[k];
        assert(starts_at_observation(blocks[j], events) && finishes_at_observation(blocks[j], events));
    }
}

/// Merging blocks keeps them traced: a merged block starts where its first
/// part starts and finishes where its last part finishes, all of one context.
pub proof fn lemma_merged_blocks_traced(blocks: Seq<CalendarBlock>, events: Seq<Event>)
    requires
        traced_to(blocks, events),
    ensures
        traced_to(merged_blocks(blocks), events),
    decreases blocks.len(),
{
    if blocks.len() > 0 {
        let prefix = blocks.drop_last();
        assert forall|k: int| 0 <= k < prefix.len() implies starts_at_observation(#[trigger] prefix[k], events)
            && finishes_at_observation(prefix[k], events) by {
            assert(prefix[k] == blocks[k]);
            assert(starts_at_observation(blocks[k], events) && finishes_at_observation(blocks[k], events));
        }
        lemma_merged_blocks_traced(prefix, events);
        let merged = merged_blocks(prefix);
        let block = blocks.last();
        assert(blocks[blocks.len() - 1] == block);
        assert(starts_at_observation(block, events) && finishes_at_observation(block, events));
        let result = merged_blocks(blocks);
        if merged.len() > 0 && joins(merged.last(), block) {
            let previous = merged.last();
            assert(starts_at_observation(merged[merged.len() - 1], events));
            assert forall|k: int| 0 <= k < result.len() implies starts_at_observation(#[trigger] result[k], events)
                && finishes_at_observation(result[k], events) by {
                if k < result.len() - 1 {
                    assert(result[k] == merged[k]);
                    assert(starts_at_observation(merged[k], events) && finishes_at_observation(merged[k], events));
                } else {
                    let i = choose|i: int|
                        0 <= i < events.len() && #[trigger] events[i].observed_at == previous.start
                            && same_window_context(previous, events[i]);
                    let j = choose|j: int|
                        0 <= j < events.len() && #[trigger] events[j].observed_at == block.finish
                            && same_window_context(block, events[j]);
                    assert(events[i].observed_at == result[k].start);
                    assert(events[j].observed_at == result[k].finish);
                }
            }
        } else {
            assert forall|k: int| 0 <= k < result.len() implies starts_at_observation(#[trigger] result[k], events)
                && finishes_at_observation(result[k], events) by {
                if k < result.len() - 1 {
                    assert(result[k] == merged[k]);
                    assert(starts_at_observation(merged[k], events) && finishes_at_observation(merged[k], events));
                } else {
                    assert(result[k] == block);
                }
            }
        }
    }
}

/// Every calendar block can be traced to the observations it comes from: it
/// starts at an observation of its window context and finishes at one.
pub proof fn lemma_foreground_window_calendar_traced(events: Seq<Event>)
    requires
        events.len() <= usize::MAX,
    ensures
        traced_to(foreground_window_calendar(events), events),
{
    lemma_chronological(events);
    let sorted = chronological(events);
    lemma_observed_contexts(sorted);
    lemma_observed_contexts_traced(sorted);
    let contexts = observed_contexts(sorted);
    lemma_qualifying_traced(contexts, sorted);
    lemma_merged_blocks_traced(qualifying(contexts), sorted);
    assert forall|i: int| 0 <= i < sorted.len() implies events.contains(#[trigger] sorted[i]) by {
        assert(sorted[i] == events[time_order(events)[i] as int]);
    }
    lemma_traced_to_more(foreground_window_calendar(events), sorted, events);
}

/// Builds the calendar blocks of the foreground-window observations: the
/// observations are taken in time order (stably, as they are given where times
/// are equal); an observation of the same window context less than five minutes
/// after the current context extends it, any other opens a new one; contexts
/// shorter than five minutes are dropped; and a kept block that shows the same
/// context less than five minutes after the one before it is merged into it.
pub fn build_foreground_window_calendar(events: &[Event]) -> (blocks: Vec<CalendarBlock>)
    ensures
        blocks@ == foreground_window_calendar(events@),
{
    let order = chronological_order(events);
    let ghost sorted = chronological(events@);
    proof {
        assert(events@.len() == events.len());
        lemma_chronological(events@);
    }
    let mut contexts: Vec<CalendarBlock> = Vec::new();
    for p in 0..order.len()
        invariant
            order@ == time_order(events@),
            sorted == chronological(events@),
            order@.len() == events@.len(),
            sorted.len() == events@.len(),
            forall|k: int| 0 <= k < events@.len() ==> #[trigger] order@[k] < events@.len(),
            forall|k: int|
                0 <= k < events@.len() ==> #[trigger] sorted[k] == events@[order@[k] as int],
            forall|i: int, j: int|
                0 <= i < j < events@.len() ==> sorted[i].observed_at <= sorted[j].observed_at,
            contexts@ == observed_contexts(sorted.take(p as int)),
            p > 0 ==> contexts@.len() > 0 && contexts@.last().finish == sorted[p - 1].observed_at,
            forall|k: int| 0 <= k < contexts@.len() ==> #[trigger] contexts@[k].observation_count <= p,
    {
        let event = &events[order[p]];
        let (title, executable) = event.window_context();
        let ghost prefix = sorted.take(p as int);
        proof {
            assert(sorted.take(p + 1).drop_last() =~= prefix);
            assert(sorted.take(p + 1).last() == *event);
        }
        if contexts.len() == 0 {
            contexts.push(CalendarBlock::new(event.observed_at, executable.clone(), title.clone()));
            proof {
                assert(contexts@ =~= seq![block_for(*event)]);
            }
        } else {
            let ghost before = contexts@;
            let mut last = contexts.pop().unwrap();
            proof {
                assert(before.drop_last() =~= contexts@);
                assert(sorted[p - 1].observed_at <= sorted[p as int].observed_at);
            }
            let gap = event.observed_at - last.finish;
            if last.executable == *executable && last.description == *title && gap
                < MINIMUM_BLOCK_DURATION {
                last.observation_count = last.observation_count + 1;
                last.finish = event.observed_at;
                contexts.push(last);
            } else {
                contexts.push(last);
                contexts.push(CalendarBlock::new(event.observed_at, executable.clone(), title.clone()));
            }
            proof {
                assert(contexts@ =~= next_contexts(before, *event));
            }
        }
    }
    proof {
        assert(sorted.take(events@.len() as int) =~= sorted);
        lemma_observed_contexts(sorted);
        lemma_qualifying(contexts@);
    }
    let ghost all = contexts@;
    let mut blocks: Vec<CalendarBlock> = Vec::new();
    for i in 0..contexts.len()
        invariant
            contexts@ == all,
            is_chronological(all),
            total_observations(all) <= usize::MAX,
            blocks@ == merged_blocks(qualifying(all.take(i as int))),
            blocks@.len() > 0 ==> forall|j: int|
                i <= j < all.len() ==> blocks@.last().finish <= #[trigger] all[j].start,
    {
        let block = &contexts[i];
        let ghost kept = qualifying(all.take(i as int));
        proof {
            assert(all.take(i + 1).drop_last() =~= all.take(i as int));
            assert(all.take(i + 1).last() == *block);
            assert(block.start <= block.finish);
        }
        if block.finish - block.start >= MINIMUM_BLOCK_DURATION {
            proof {
                assert(qualifying(all.take(i + 1)) == kept.push(*block));
                assert(kept.push(*block).drop_last() =~= kept);
            }
            let joined = if blocks.len() > 0 {
                let previous = &blocks[blocks.len() - 1];
                block.start - previous.finish < MINIMUM_BLOCK_DURATION && previous.executable
                    == block.executable && previous.description == block.description
            } else {
                false
            };
            if joined {
                let ghost before = blocks@;
                let mut previous = blocks.pop().unwrap();
                proof {
                    assert(before.drop_last() =~= blocks@);
                    lemma_total_of_prefix(all, i as int);
                    lemma_chronological_take(all, i as int);
                    lemma_qualifying(all.take(i as int));
                    lemma_merged_blocks(kept);
                    lemma_count_at_most_total(before, before.len() - 1);
                    lemma_total_observations_push(kept, *block);
                    lemma_total_of_prefix(all, i + 1);
                    lemma_chronological_take(all, i + 1);
                    lemma_qualifying(all.take(i + 1));
                }
                previous.finish = block.finish;
                previous.observation_count = previous.observation_count + block.observation_count;
                blocks.push(previous);
                proof {
                    assert(blocks@ =~= merge_next(before, *block));
                }
            } else {
                let ghost before = blocks@;
                blocks.push(block.duplicate());
                proof {
                    assert(blocks@ =~= merge_next(before, *block));
                }
            }
        } else {
            proof {
                assert(qualifying(all.take(i + 1)) == kept);
            }
        }
    }
    proof {
        assert(all.take(all.len() as int) =~= all);
    }
    blocks
}

/// The context holds the observations `first..=last` of `events`: it starts at
/// the first and finishes at the last, all show its window context, each comes
/// less than five minutes after the one before, and the next observation does
/// not continue it: it shows another window context or comes five minutes or
/// more later.
#[verifier::opaque]
pub open spec fn holds_run(context: CalendarBlock, events: Seq<Event>, first: int, last: int) -> bool {
    &&& 0 <= first <= last < events.len()
    &&& context.start == events[first].observed_at
    &&& context.finish == events[last].observed_at
    &&& forall|i: int| first <= i <= last ==> same_window_context(context, #[trigger] events[i])
    &&& forall|i: int|
        first <= i < last ==> #[trigger] events[i + 1].observed_at - events[i].observed_at
            < MINIMUM_BLOCK_DURATION
    &&& last + 1 < events.len() ==> !(same_window_context(context, events[last + 1])
        && events[last + 1].observed_at - events[last].observed_at < MINIMUM_BLOCK_DURATION)
}

/// Each context holds the run of observations that follows those of the
/// contexts before it.
pub open spec fn contexts_hold_runs(contexts: Seq<CalendarBlock>, events: Seq<Event>) -> bool {
    &&& total_observations(contexts) == events.len()
    &&& forall|k: int|
        0 <= k < contexts.len() ==> #[trigger] contexts[k].observation_count >= 1 && holds_run(
            contexts[k],
            events,
            observations_before(contexts, k),
            observations_before(contexts, k) + contexts[k].observation_count - 1,
        )
}

proof fn lemma_run_holds_more(context: CalendarBlock, events: Seq<Event>, more: Seq<Event>, first: int, last: int)
    requires
        holds_run(context, events, first, last),
        last + 1 < events.len(),
        events.len() <= more.len(),
        forall|i: int| 0 <= i < events.len() ==> more[i] == events[i],
    ensures
        holds_run(context, more, first, last),
{
    reveal(holds_run);
    assert forall|i: int| first <= i <= last implies same_window_context(context, #[trigger] more[i]) by {
        assert(more[i] == events[i]);
    }
    assert forall|i: int| first <= i < last implies #[trigger] more[i + 1].observed_at - more[i].observed_at
        < MINIMUM_BLOCK_DURATION by {
        assert(more[i] == events[i]);
        assert(more[i + 1] == events[i + 1]);
        assert(events[i + 1].observed_at - events[i].observed_at < MINIMUM_BLOCK_DURATION);
    }
    assert(more[first] == events[first]);
    assert(more[last] == events[last]);
    assert(more[last + 1] == events[last + 1]);
}

proof fn lemma_earlier_run_holds(
    contexts: Seq<CalendarBlock>,
    prefix: Seq<Event>,
    result: Seq<CalendarBlock>,
    events: Seq<Event>,
    k: int,
)
    requires
        contexts_hold_runs(contexts, prefix),
        0 <= k < contexts.len() - 1,
        result.len() >= contexts.len(),
        forall|i: int| 0 <= i < contexts.len() - 1 ==> result[i] == contexts[i],
        events.len() == prefix.len() + 1,
        forall|i: int| 0 <= i < prefix.len() ==> events[i] == prefix[i],
    ensures
        result[k].observation_count >= 1 && holds_run(
            result[k],
            events,
            observations_before(result, k),
            observations_before(result, k) + result[k].observation_count - 1,
        ),
{
    let n = contexts.len() - 1;
    lemma_observations_before_prefix(contexts, result, k);
    assert(result[k] == contexts[k]);
    assert(contexts[k].observation_count >= 1);
    assert(contexts[n].observation_count >= 1);
    let f = observations_before(contexts, k);
    let l = f + contexts[k].observation_count - 1;
    assert(holds_run(contexts[k], prefix, f, l));
    assert(contexts.take(k + 1).drop_last() =~= contexts.take(k));
    assert(contexts.take(k + 1).last() == contexts[k]);
    assert(observations_before(contexts, k + 1) == l + 1);
    lemma_observations_before_order(contexts, k + 1, n);
    lemma_observations_before_last(contexts);
    lemma_run_holds_more(contexts[k], prefix, events, f, l);
}

proof fn lemma_extended_run_holds(last: CalendarBlock, prefix: Seq<Event>, events: Seq<Event>, first: int)
    requires
        holds_run(last, prefix, first, prefix.len() - 1),
        events.len() == prefix.len() + 1,
        forall|i: int| 0 <= i < prefix.len() ==> events[i] == prefix[i],
        same_window_context(last, events.last()),
        events.last().observed_at - last.finish < MINIMUM_BLOCK_DURATION,
    ensures
        first >= 0,
        holds_run(
            CalendarBlock {
                finish: events.last().observed_at,
                observation_count: (last.observation_count + 1) as usize,
                ..last
            },
            events,
            first,
            prefix.len() as int,
        ),
{
    reveal(holds_run);
    let p = prefix.len() as int;
    let merged = CalendarBlock {
        finish: events.last().observed_at,
        observation_count: (last.observation_count + 1) as usize,
        ..last
    };
    assert(events[p] == events.last());
    assert forall|i: int| first <= i <= p implies same_window_context(merged, #[trigger] events[i]) by {
        if i < p {
            assert(events[i] == prefix[i]);
            assert(same_window_context(last, prefix[i]));
        }
    }
    assert forall|i: int| first <= i < p implies #[trigger] events[i + 1].observed_at - events[i].observed_at
        < MINIMUM_BLOCK_DURATION by {
        assert(events[i] == prefix[i]);
        if i + 1 < p {
            assert(events[i + 1] == prefix[i + 1]);
            assert(prefix[i + 1].observed_at - prefix[i].observed_at < MINIMUM_BLOCK_DURATION);
        }
    }
    assert(events[first] == prefix[first]);
}

proof fn lemma_ended_run_holds(last: CalendarBlock, prefix: Seq<Event>, events: Seq<Event>, first: int)
    requires
        holds_run(last, prefix, first, prefix.len() - 1),
        events.len() == prefix.len() + 1,
        forall|i: int| 0 <= i < prefix.len() ==> events[i] == prefix[i],
        !(same_window_context(last, events.last()) && events.last().observed_at - last.finish
            < MINIMUM_BLOCK_DURATION),
    ensures
        holds_run(last, events, first, prefix.len() - 1),
        holds_run(block_for(events.last()), events, prefix.len() as int, prefix.len() as int),
{
    reveal(holds_run);
    let p = prefix.len() as int;
    let own = p - 1;
    assert(events[p] == events.last());
    assert forall|i: int| first <= i <= own implies same_window_context(last, #[trigger] events[i]) by {
        assert(events[i] == prefix[i]);
    }
    assert forall|i: int| first <= i < own implies #[trigger] events[i + 1].observed_at - events[i].observed_at
        < MINIMUM_BLOCK_DURATION by {
        assert(events[i] == prefix[i]);
        assert(events[i + 1] == prefix[i + 1]);
        assert(prefix[i + 1].observed_at - prefix[i].observed_at < MINIMUM_BLOCK_DURATION);
    }
    assert(events[first] == prefix[first]);
    assert(events[own] == prefix[own]);
}

#[verifier::rlimit(40)]
proof fn lemma_extend_contexts_hold(contexts: Seq<CalendarBlock>, prefix: Seq<Event>, events: Seq<Event>)
    requires
        events.len() <= usize::MAX,
        contexts_hold_runs(contexts, prefix),
        contexts.len() > 0,
        events.len() == prefix.len() + 1,
        forall|i: int| 0 <= i < prefix.len() ==> events[i] == prefix[i],
        same_window_context(contexts.last(), events.last()),
        events.last().observed_at - contexts.last().finish < MINIMUM_BLOCK_DURATION,
    ensures
        contexts_hold_runs(next_contexts(contexts, events.last()), events),
{
    let event = events.last();
    let p = prefix.len() as int;
    let result = next_contexts(contexts, event);
    let n = contexts.len() - 1;
    let last = contexts.last();
    assert(contexts[n] == last);
    lemma_observations_before_last(contexts);
    let first = observations_before(contexts, n);
    assert(contexts[n].observation_count >= 1);
    assert(holds_run(contexts[n], prefix, first, p - 1));
    lemma_extended_run_holds(last, prefix, events, first);
    let merged = CalendarBlock {
        finish: event.observed_at,
        observation_count: (last.observation_count + 1) as usize,
        ..last
    };
    assert(result == contexts.update(n, merged));
    lemma_total_observations_update_last(contexts, merged);
    assert(observations_before(result, n) == first) by {
        lemma_observations_before_prefix(contexts, result, n);
    }
    assert(result[n] == merged);
    assert forall|k: int| 0 <= k < result.len() implies #[trigger] result[k].observation_count >= 1
        && holds_run(
        result[k],
        events,
        observations_before(result, k),
        observations_before(result, k) + result[k].observation_count - 1,
    ) by {
        if k < n {
            lemma_earlier_run_holds(contexts, prefix, result, events, k);
        }
    }
}

#[verifier::rlimit(40)]
proof fn lemma_open_context_hold(contexts: Seq<CalendarBlock>, prefix: Seq<Event>, events: Seq<Event>)
    requires
        contexts_hold_runs(contexts, prefix),
        contexts.len() > 0,
        events.len() == prefix.len() + 1,
        forall|i: int| 0 <= i < prefix.len() ==> events[i] == prefix[i],
        !(same_window_context(contexts.last(), events.last()) && events.last().observed_at
            - contexts.last().finish < MINIMUM_BLOCK_DURATION),
    ensures
        contexts_hold_runs(next_contexts(contexts, events.last()), events),
{
    let event = events.last();
    let p = prefix.len() as int;
    let result = next_contexts(contexts, event);
    let fresh = block_for(event);
    let n = contexts.len() - 1;
    let last = contexts.last();
    assert(contexts[n] == last);
    lemma_observations_before_last(contexts);
    let first = observations_before(contexts, n);
    assert(contexts[n].observation_count >= 1);
    assert(holds_run(contexts[n], prefix, first, p - 1));
    lemma_ended_run_holds(last, prefix, events, first);
    assert(result == contexts.push(fresh));
    lemma_total_observations_push(contexts, fresh);
    assert(observations_before(result, n + 1) == p) by {
        lemma_observations_before_prefix(contexts, result, n + 1);
    }
    assert(observations_before(result, n) == first) by {
        lemma_observations_before_prefix(contexts, result, n);
    }
    assert(result[n] == last);
    assert(result[n + 1] == fresh);
    assert forall|k: int| 0 <= k < result.len() implies #[trigger] result[k].observation_count >= 1
        && holds_run(
        result[k],
        events,
        observations_before(result, k),
        observations_before(result, k) + result[k].observation_count - 1,
    ) by {
        if k < n {
            lemma_earlier_run_holds(contexts, prefix, result, events, k);
        }
    }
}

proof fn lemma_observed_contexts_hold_runs(events: Seq<Event>)
    requires
        events.len() <= usize::MAX,
    ensures
        contexts_hold_runs(observed_contexts(events), events),
    decreases events.len(),
{
    if events.len() > 0 {
        let prefix = events.drop_last();
        lemma_observed_contexts_hold_runs(prefix);
        let contexts = observed_contexts(prefix);
        let event = events.last();
        assert(events[prefix.len() as int] == event);
        assert forall|i: int| 0 <= i < prefix.len() implies events[i] == prefix[i] by {}
        let result = observed_contexts(events);
        assert(result == next_contexts(contexts, event));
        if contexts.len() == 0 {
            let fresh = block_for(event);
            assert(result =~= seq![fresh]);
            assert(total_observations(result) == 1) by {
                lemma_total_observations_push(Seq::empty(), fresh);
                assert(Seq::<CalendarBlock>::empty().push(fresh) =~= seq![fresh]);
            }
            assert(observations_before(result, 0) == 0) by {
                assert(result.take(0) =~= Seq::<CalendarBlock>::empty());
            }
            assert(holds_run(result[0], events, 0, 0)) by {
                reveal(holds_run);
            }
        } else if same_window_context(contexts.last(), event) && event.observed_at - contexts.last().finish
            < MINIMUM_BLOCK_DURATION {
            lemma_extend_contexts_hold(contexts, prefix, events);
        } else {
            lemma_open_context_hold(contexts, prefix, events);
        }
    }
}

/// The continuous contexts of the observations in time order, from which the
/// calendar is built, are their maximal runs of one window context without a
/// pause of five minutes: each context starts at the first observation of its
/// run and finishes at the last, each observation of the run comes less than
/// five minutes after the one before, and the next observation shows another
/// window context or comes five minutes or more later. So two consecutive
/// contexts of one window context lie at least five minutes apart.
pub proof fn lemma_observed_contexts_are_runs(events: Seq<Event>)
    requires
        events.len() <= usize::MAX,
    ensures
        total_observations(observed_contexts(chronological(events))) == events.len(),
        forall|k: int|
            0 <= k < observed_contexts(chronological(events)).len() ==> #[trigger] observed_contexts(
                chronological(events),
            )[k].observation_count >= 1 && holds_run(
                observed_contexts(chronological(events))[k],
                chronological(events),
                observations_before(observed_contexts(chronological(events)), k),
                observations_before(observed_contexts(chronological(events)), k) + observed_contexts(
                    chronological(events),
                )[k].observation_count - 1,
            ),
{
    lemma_chronological(events);
    lemma_observed_contexts_hold_runs(chronological(events));
}

/// The test for a context of at least five minutes.
pub open spec fn long_enough() -> spec_fn(CalendarBlock) -> bool {
    |block: CalendarBlock| lasts_minimum(block)
}

/// Keeping the contexts of at least five minutes keeps exactly those, in their
/// order: every context of at least five minutes is kept.
pub proof fn lemma_qualifying_keeps_long(blocks: Seq<CalendarBlock>)
    ensures
        qualifying(blocks) == blocks.filter(long_enough()),
        forall|k: int|
            0 <= k < blocks.len() && lasts_minimum(blocks[k]) ==> qualifying(blocks).contains(
                #[trigger] blocks[k],
            ),
    decreases blocks.len(),
{
    if blocks.len() > 0 {
        let prefix = blocks.drop_last();
        lemma_qualifying_keeps_long(prefix);
        assert(prefix.push(blocks.last()) =~= blocks);
        prefix.lemma_filter_push(blocks.last(), long_enough());
    }
    assert(qualifying(blocks) == blocks.filter(long_enough()));
    blocks.filter_lemma(long_enough());
    assert forall|k: int| 0 <= k < blocks.len() && lasts_minimum(blocks[k]) implies qualifying(blocks).contains(
        #[trigger] blocks[k],
    ) by {
        assert(long_enough()(blocks[k]));
    }
}

/// The block at `i` starts a new calendar block: it is the first, or it does
/// not show the window context of the one before less than five minutes after
/// that one finishes.
pub open spec fn starts_run(blocks: Seq<CalendarBlock>, i: int) -> bool {
    i == 0 || !(blocks[i - 1].executable@ == blocks[i].executable@ && blocks[i - 1].description@
        == blocks[i].description@ && blocks[i].start - blocks[i - 1].finish < MINIMUM_BLOCK_DURATION)
}

/// The position of the calendar block that the block at `i` goes into: the
/// number of blocks after the first, up to `i`, that start a new one.
pub open spec fn run_index(blocks: Seq<CalendarBlock>, i: int) -> int
    decreases i,
{
    if i <= 0 {
        0
    } else {
        run_index(blocks, i - 1) + if starts_run(blocks, i) {
            1int
        } else {
            0
        }
    }
}

/// Each block lies within the merged block at its run index, which shows its
/// window context; a block that starts a run gives its merged block its start,
/// and one that ends a run its finish.
pub open spec fn merged_into(merged: Seq<CalendarBlock>, blocks: Seq<CalendarBlock>) -> bool {
    &&& blocks.len() > 0 ==> merged.len() == run_index(blocks, blocks.len() - 1) + 1
    &&& blocks.len() == 0 ==> merged.len() == 0
    &&& forall|i: int|
        0 <= i < blocks.len() ==> {
            let k = #[trigger] run_index(blocks, i);
            &&& 0 <= k < merged.len()
            &&& merged[k].start <= blocks[i].start
            &&& blocks[i].finish <= merged[k].finish
            &&& merged[k].executable@ == blocks[i].executable@
            &&& merged[k].description@ == blocks[i].description@
            &&& starts_run(blocks, i) ==> merged[k].start == blocks[i].start
            &&& (i == blocks.len() - 1 || starts_run(blocks, i + 1)) ==> merged[k].finish == blocks[i].finish
        }
}

proof fn lemma_run_index_push(blocks: Seq<CalendarBlock>, block: CalendarBlock, i: int)
    requires
        0 <= i < blocks.len(),
    ensures
        run_index(blocks.push(block), i) == run_index(blocks, i),
        starts_run(blocks.push(block), i) == starts_run(blocks, i),
    decreases i,
{
    if i > 0 {
        lemma_run_index_push(blocks, block, i - 1);
        assert(blocks.push(block)[i] == blocks[i]);
        assert(blocks.push(block)[i - 1] == blocks[i - 1]);
    } else {
    }
}

proof fn lemma_run_index_bounds(blocks: Seq<CalendarBlock>, i: int, j: int)
    requires
        0 <= i <= j,
    ensures
        0 <= run_index(blocks, i) <= run_index(blocks, j),
    decreases j,
{
    if i < j {
        lemma_run_index_bounds(blocks, i, j - 1);
    }
    if j > 0 && i == j {
        lemma_run_index_bounds(blocks, 0, j - 1);
    }
}

#[verifier::rlimit(40)]
proof fn lemma_merged_into(blocks: Seq<CalendarBlock>)
    requires
        is_chronological(blocks),
    ensures
        merged_into(merged_blocks(blocks), blocks),
    decreases blocks.len(),
{
    if blocks.len() > 0 {
        let prefix = blocks.drop_last();
        let block = blocks.last();
        let n = prefix.len() as int;
        assert(blocks =~= prefix.push(block));
        assert(blocks[n] == block);
        lemma_chronological_prefix(blocks);
        lemma_merged_into(prefix);
        let merged = merged_blocks(prefix);
        let result = merged_blocks(blocks);
        assert(result == merge_next(merged, block));
        assert forall|i: int| 0 <= i < n implies #[trigger] run_index(blocks, i) == run_index(prefix, i)
            && starts_run(blocks, i) == starts_run(prefix, i) by {
            lemma_run_index_push(prefix, block, i);
        }
        if n == 0 {
            assert(merged.len() == 0);
            assert(result =~= seq![block]);
            assert(run_index(blocks, 0) == 0);
        } else {
            let last = merged.last();
            let r = run_index(prefix, n - 1);
            assert(run_index(blocks, n - 1) == r);
            assert(merged.len() == r + 1);
            assert(merged[r] == last);
            assert(last.finish == prefix[n - 1].finish);
            assert(prefix[n - 1] == blocks[n - 1]);
            assert(blocks[n - 1].finish <= block.start);
            assert(joins(last, block) == !starts_run(blocks, n));
            lemma_run_index_bounds(prefix, 0, n - 1);
            if !starts_run(blocks, n) {
                assert(run_index(blocks, n) == r);
                let updated = CalendarBlock {
                    finish: block.finish,
                    observation_count: (last.observation_count + block.observation_count) as usize,
                    ..last
                };
                assert(result == merged.update(r, updated));
                assert forall|i: int| 0 <= i < blocks.len() implies {
                    let k = #[trigger] run_index(blocks, i);
                    &&& 0 <= k < result.len()
                    &&& result[k].start <= blocks[i].start
                    &&& blocks[i].finish <= result[k].finish
                    &&& result[k].executable@ == blocks[i].executable@
                    &&& result[k].description@ == blocks[i].description@
                    &&& starts_run(blocks, i) ==> result[k].start == blocks[i].start
                    &&& (i == blocks.len() - 1 || starts_run(blocks, i + 1)) ==> result[k].finish
                        == blocks[i].finish
                } by {
                    if i < n {
                        lemma_run_index_bounds(prefix, i, n - 1);
                        let k = run_index(prefix, i);
                        assert(blocks[i] == prefix[i]);
                        if k == r {
                            assert(blocks[i].finish <= prefix[n - 1].finish) by {
                                if i < n - 1 {
                                    assert(prefix[i].finish <= prefix[n - 1].start);
                                }
                            }
                        }
                        if i + 1 < n {
                            lemma_run_index_push(prefix, block, i + 1);
                            assert(starts_run(blocks, i + 1) == starts_run(prefix, i + 1));
                        }
                    } else {
                        assert(i == n);
                        assert(last.start <= prefix[n - 1].start);
                    }
                }
            } else {
                assert(run_index(blocks, n) == r + 1);
                assert(result == merged.push(block));
                assert forall|i: int| 0 <= i < blocks.len() implies {
                    let k = #[trigger] run_index(blocks, i);
                    &&& 0 <= k < result.len()
                    &&& result[k].start <= blocks[i].start
                    &&& blocks[i].finish <= result[k].finish
                    &&& result[k].executable@ == blocks[i].executable@
                    &&& result[k].description@ == blocks[i].description@
                    &&& starts_run(blocks, i) ==> result[k].start == blocks[i].start
                    &&& (i == blocks.len() - 1 || starts_run(blocks, i + 1)) ==> result[k].finish
                        == blocks[i].finish
                } by {
                    if i < n {
                        lemma_run_index_bounds(prefix, i, n - 1);
                        let k = run_index(prefix, i);
                        assert(blocks[i] == prefix[i]);
                        assert(result[k] == merged[k]);
                        if i + 1 < n {
                            lemma_run_index_push(prefix, block, i + 1);
                            assert(starts_run(blocks, i + 1) == starts_run(prefix, i + 1));
                        } else {
                            assert(i == n - 1);
                            assert(k == r);
                            assert(result[k].finish == last.finish);
                        }
                    } else {
                        assert(i == n);
                        assert(run_index(blocks, i) == r + 1);
                        assert(result[r + 1] == block);
                    }
                }
            }
        }
    }
}

/// Merging gives exactly one calendar block for each run of blocks in which
/// every block shows the window context of the one before less than five
/// minutes after it: each block lies within the calendar block of its run,
/// which shows its context, starts where the run's first block starts and
/// finishes where its last block finishes. Blocks that do not continue each
/// other are never merged.
pub proof fn lemma_merged_blocks_are_runs(blocks: Seq<CalendarBlock>)
    requires
        is_chronological(blocks),
    ensures
        merged_into(merged_blocks(blocks), blocks),
{
    lemma_merged_into(blocks);
}

} // verus!
