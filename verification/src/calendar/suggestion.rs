use vstd::prelude::*;

use crate::calendar::{intervals_view, CalendarInterval, IntervalView};
use crate::suggestions::Suggestion;

verus! {

/// The suggestion was made for exactly the interval from `start` to `finish`.
pub open spec fn suggestion_matches(suggestion: Suggestion, start: u64, finish: u64) -> bool {
    suggestion.interval_start == start && suggestion.interval_finish == finish
}

/// The first suggestion made for exactly the interval from `start` to `finish`.
pub open spec fn matching_suggestion(suggestions: Seq<Suggestion>, start: u64, finish: u64) -> Option<
    Suggestion,
>
    decreases suggestions.len(),
{
    if suggestions.len() == 0 {
        None
    } else {
        let earlier = matching_suggestion(suggestions.drop_last(), start, finish);
        if earlier is Some {
            earlier
        } else if suggestion_matches(suggestions.last(), start, finish) {
            Some(suggestions.last())
        } else {
            None
        }
    }
}

/// Each interval with the first suggestion made for exactly its boundaries,
/// or with none.
pub open spec fn enriched(intervals: Seq<IntervalView>, suggestions: Seq<Suggestion>) -> Seq<
    IntervalView,
> {
    intervals.map_values(
        |interval: IntervalView|
            IntervalView {
                suggestion: matching_suggestion(suggestions, interval.start, interval.finish),
                ..interval
            },
    )
}

/// A suggestion is found exactly when one matches both boundaries, and what is
/// found is the first that does.
pub proof fn lemma_matching_suggestion(suggestions: Seq<Suggestion>, start: u64, finish: u64)
    ensures
        matching_suggestion(suggestions, start, finish) is Some <==> exists|i: int|
            0 <= i < suggestions.len() && suggestion_matches(#[trigger] suggestions[i], start, finish),
        matching_suggestion(suggestions, start, finish) matches Some(found) ==> exists|i: int|
            0 <= i < suggestions.len() && #[trigger] suggestions[i] == found && suggestion_matches(
                found,
                start,
                finish,
            ) && forall|j: int|
                0 <= j < i ==> !suggestion_matches(#[trigger] suggestions[j], start, finish),
    decreases suggestions.len(),
{
    if suggestions.len() > 0 {
        let prefix = suggestions.drop_last();
        lemma_matching_suggestion(prefix, start, finish);
        if matching_suggestion(prefix, start, finish) is Some {
            let i = choose|i: int|
                0 <= i < prefix.len() && #[trigger] prefix[i] == matching_suggestion(
                    prefix,
                    start,
                    finish,
                )->0 && suggestion_matches(prefix[i], start, finish) && forall|j: int|
                    0 <= j < i ==> !suggestion_matches(#[trigger] prefix[j], start, finish);
            assert(suggestions[i] == prefix[i]);
            assert forall|j: int| 0 <= j < i implies !suggestion_matches(
                #[trigger] suggestions[j],
                start,
                finish,
            ) by {
                assert(suggestions[j] == prefix[j]);
            }
        } else {
            assert forall|j: int| 0 <= j < prefix.len() implies !suggestion_matches(
                #[trigger] suggestions[j],
                start,
                finish,
            ) by {
                assert(suggestions[j] == prefix[j]);
            }
            if suggestion_matches(suggestions.last(), start, finish) {
                assert(suggestions[suggestions.len() - 1] == suggestions.last());
            }
        }
    }
}

/// Finds the first suggestion made for exactly the interval from `start` to
/// `finish`, and copies it.
fn find_matching_suggestion(suggestions: &[Suggestion], start: u64, finish: u64) -> (found: Option<
    Suggestion,
>)
    ensures
        found == matching_suggestion(suggestions@, start, finish),
{
    let mut i: usize = 0;
    while i < suggestions.len()
        invariant
            i <= suggestions@.len(),
            matching_suggestion(suggestions@.take(i as int), start, finish) is None,
        decreases suggestions@.len() - i,
    {
        proof {
            assert(suggestions@.take(i + 1).drop_last() =~= suggestions@.take(i as int));
            assert(suggestions@.take(i + 1).last() == suggestions@[i as int]);
        }
        let suggestion = &suggestions[i];
        if suggestion.interval_start == start && suggestion.interval_finish == finish {
            proof {
                lemma_matching_prefix(suggestions@, (i + 1) as int, start, finish);
            }
            return Some(suggestion.duplicate());
        }
        i += 1;
    }
    proof {
        assert(suggestions@.take(i as int) =~= suggestions@);
    }
    None
}

/// Once a prefix holds a match, the whole sequence yields that same match.
proof fn lemma_matching_prefix(suggestions: Seq<Suggestion>, k: int, start: u64, finish: u64)
    requires
        0 <= k <= suggestions.len(),
        matching_suggestion(suggestions.take(k), start, finish) is Some,
    ensures
        matching_suggestion(suggestions, start, finish) == matching_suggestion(
            suggestions.take(k),
            start,
            finish,
        ),
    decreases suggestions.len() - k,
{
    if k < suggestions.len() {
        assert(suggestions.take(k + 1).drop_last() =~= suggestions.take(k));
        lemma_matching_prefix(suggestions, k + 1, start, finish);
    } else {
        assert(suggestions.take(k) =~= suggestions);
    }
}

/// Gives each interval the first suggestion made for exactly its boundaries;
/// an interval for which none was made is left without a suggestion.
pub fn enrich_intervals(intervals: Vec<CalendarInterval>, suggestions: &[Suggestion]) -> (enriched_intervals: Vec<
    CalendarInterval,
>)
    ensures
        intervals_view(enriched_intervals@) == enriched(intervals_view(intervals@), suggestions@),
{
    let mut intervals = intervals;
    let ghost original = intervals_view(intervals@);
    let n = intervals.len();
    for i in 0..n
        invariant
            n == intervals@.len(),
            original.len() == n,
            forall|k: int|
                0 <= k < i ==> #[trigger] intervals@[k]@ == enriched(original, suggestions@)[k],
            forall|k: int| i <= k < n ==> #[trigger] intervals@[k]@ == original[k],
    {
        let start = intervals[i].start;
        let finish = intervals[i].finish;
        let found = find_matching_suggestion(suggestions, start, finish);
        let ghost before = intervals@;
        intervals[i].suggestion = found;
        proof {
            assert(enriched(original, suggestions@)[i as int] == IntervalView {
                suggestion: matching_suggestion(suggestions@, original[i as int].start, original[i as int].finish),
                ..original[i as int]
            });
            assert(before[i as int]@ == original[i as int]);
            assert(intervals@[i as int] == CalendarInterval { suggestion: found, ..before[i as int] });
            assert(intervals@[i as int]@ == enriched(original, suggestions@)[i as int]);
            assert forall|k: int| i < k < n implies #[trigger] intervals@[k]@ == original[k] by {
                assert(intervals@[k] == before[k]);
            }
            assert forall|k: int| 0 <= k < i implies #[trigger] intervals@[k]@ == enriched(original, suggestions@)[k] by {
                assert(intervals@[k] == before[k]);
            }
        }
    }
    proof {
        assert(intervals_view(intervals@) =~= enriched(original, suggestions@));
    }
    intervals
}

/// Enrichment keeps each interval as it is but for its suggestion: the first
/// suggestion whose interval start and finish are those of the interval, and
/// none when no suggestion has both.
pub proof fn lemma_enriched_intervals(intervals: Seq<IntervalView>, suggestions: Seq<Suggestion>)
    ensures
        enriched(intervals, suggestions).len() == intervals.len(),
        forall|k: int|
            0 <= k < intervals.len() ==> {
                let interval = #[trigger] enriched(intervals, suggestions)[k];
                &&& interval.start == intervals[k].start
                &&& interval.finish == intervals[k].finish
                &&& interval.contexts == intervals[k].contexts
                &&& (interval.suggestion is None <==> forall|i: int|
                    0 <= i < suggestions.len() ==> !(suggestions[i].interval_start == intervals[k].start
                        && suggestions[i].interval_finish == intervals[k].finish))
                &&& (interval.suggestion matches Some(found) ==> exists|i: int|
                    0 <= i < suggestions.len() && suggestions[i] == found && found.interval_start
                        == intervals[k].start && found.interval_finish == intervals[k].finish && forall|j: int|
                        0 <= j < i ==> !(suggestions[j].interval_start == intervals[k].start
                            && suggestions[j].interval_finish == intervals[k].finish))
            },
{
    assert forall|k: int| 0 <= k < intervals.len() implies {
        let interval = #[trigger] enriched(intervals, suggestions)[k];
        &&& interval.start == intervals[k].start
        &&& interval.finish == intervals[k].finish
        &&& interval.contexts == intervals[k].contexts
        &&& (interval.suggestion is None <==> forall|i: int|
            0 <= i < suggestions.len() ==> !(suggestions[i].interval_start == intervals[k].start
                && suggestions[i].interval_finish == intervals[k].finish))
        &&& (interval.suggestion matches Some(found) ==> exists|i: int|
            0 <= i < suggestions.len() && suggestions[i] == found && found.interval_start
                == intervals[k].start && found.interval_finish == intervals[k].finish && forall|j: int|
                0 <= j < i ==> !(suggestions[j].interval_start == intervals[k].start
                    && suggestions[j].interval_finish == intervals[k].finish))
    } by {
        let start = intervals[k].start;
        let finish = intervals[k].finish;
        lemma_matching_suggestion(suggestions, start, finish);
        if matching_suggestion(suggestions, start, finish) is None {
            assert forall|i: int| 0 <= i < suggestions.len() implies !(suggestions[i].interval_start == start
                && suggestions[i].interval_finish == finish) by {
                assert(!suggestion_matches(suggestions[i], start, finish));
            }
        } else {
            let found = matching_suggestion(suggestions, start, finish)->0;
            let i = choose|i: int|
                0 <= i < suggestions.len() && #[trigger] suggestions[i] == found && suggestion_matches(
                    found,
                    start,
                    finish,
                ) && forall|j: int|
                    0 <= j < i ==> !suggestion_matches(#[trigger] suggestions[j], start, finish);
            assert forall|j: int| 0 <= j < i implies !(suggestions[j].interval_start == start
                && suggestions[j].interval_finish == finish) by {
                assert(!suggestion_matches(suggestions[j], start, finish));
            }
        }
    }
}

} // verus!
