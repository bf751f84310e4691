use vstd::prelude::*;

use crate::events::{Event, EventPayload};
use crate::suggestions::Suggestion;

verus! {

/// Why a value could not be written to or read from the local database.
#[derive(Debug, Clone, Copy, PartialEq, Eq)]
pub enum StoreError {
    /// A stored time lies before the Unix epoch, or later than the latest time
    /// that can be held in nanoseconds.
    TimeOutOfRange,
    /// A window identifier does not fit the stored range.
    WindowIdOutOfRange,
    /// A suggestion's interval starts outside the range that is replaced.
    SuggestionOutsideRange,
}

/// Nanoseconds in a millisecond.
pub const NANOSECONDS_PER_MILLISECOND: u64 = 1_000_000;

/// The stored form of a time: the whole milliseconds since the Unix epoch,
/// which always fit a signed 64-bit column.
pub open spec fn stored_time(time: u64) -> Result<i64, StoreError> {
    Ok((time / NANOSECONDS_PER_MILLISECOND) as i64)
}

/// The time, in nanoseconds, that a stored value stands for, when it is not
/// before the epoch and can be held.
pub open spec fn read_time(stored: i64) -> Result<u64, StoreError> {
    if stored >= 0 && stored * NANOSECONDS_PER_MILLISECOND <= u64::MAX {
        Ok((stored * NANOSECONDS_PER_MILLISECOND) as u64)
    } else {
        Err(StoreError::TimeOutOfRange)
    }
}

/// Converts a time, in nanoseconds since the Unix epoch, to its stored form:
/// its whole milliseconds.
pub fn unix_milliseconds(time: u64) -> (stored: Result<i64, StoreError>)
    ensures
        stored == stored_time(time),
{
    Ok((time / NANOSECONDS_PER_MILLISECOND) as i64)
}

/// Converts a stored time, in milliseconds, back to nanoseconds since the Unix
/// epoch.
pub fn system_time(unix_milliseconds: i64) -> (time: Result<u64, StoreError>)
    ensures
        time == read_time(unix_milliseconds),
{
    if unix_milliseconds >= 0 && unix_milliseconds as u64 <= u64::MAX / NANOSECONDS_PER_MILLISECOND {
        proof {
            assert(unix_milliseconds * NANOSECONDS_PER_MILLISECOND <= u64::MAX) by (nonlinear_arith)
                requires
                    0 <= unix_milliseconds <= u64::MAX / NANOSECONDS_PER_MILLISECOND,
            ;
        }
        Ok(unix_milliseconds as u64 * NANOSECONDS_PER_MILLISECOND)
    } else {
        proof {
            if unix_milliseconds >= 0 {
                assert(unix_milliseconds * NANOSECONDS_PER_MILLISECOND > u64::MAX) by (nonlinear_arith)
                    requires
                        unix_milliseconds > u64::MAX / NANOSECONDS_PER_MILLISECOND,
                ;
            }
        }
        Err(StoreError::TimeOutOfRange)
    }
}

/// A time of whole milliseconds is read back from its stored form, and a
/// stored time that can be read is stored again unchanged.
pub proof fn lemma_time_round_trip(time: u64, stored: i64)
    ensures
        time % NANOSECONDS_PER_MILLISECOND == 0 ==> read_time(stored_time(time)->Ok_0) == Ok::<
            u64,
            StoreError,
        >(time),
        read_time(stored) is Ok ==> stored_time(read_time(stored)->Ok_0) == Ok::<i64, StoreError>(
            stored,
        ),
{
    let m = NANOSECONDS_PER_MILLISECOND as int;
    assert((time / NANOSECONDS_PER_MILLISECOND) * m + time % NANOSECONDS_PER_MILLISECOND == time)
        by (nonlinear_arith)
        requires
            m == 1_000_000,
    ;
    assert(time / NANOSECONDS_PER_MILLISECOND <= i64::MAX) by (nonlinear_arith)
        requires
            time <= u64::MAX,
    ;
    if stored >= 0 && stored * m <= u64::MAX {
        assert((stored * m) / m == stored) by (nonlinear_arith)
            requires
                m == 1_000_000,
                stored >= 0,
        ;
    }
}

/// The columns of a stored foreground-window observation.
#[derive(Debug, Clone, PartialEq, Eq)]
pub struct EventRow {
    pub observed_at: i64,
    pub window_id: i64,
    pub executable: String,
    pub executable_path: Option<String>,
    pub title: String,
}

/// The row that stores `event`: its time is checked first, then its window
/// identifier.
pub open spec fn row_of_event(event: Event) -> Result<EventRow, StoreError> {
    match event.payload {
        EventPayload::ForegroundWindowObserved { window_id, title, executable, executable_path } => {
            match stored_time(event.observed_at) {
                Err(error) => Err(error),
                Ok(observed_at) => if window_id <= i64::MAX {
                    Ok(
                        EventRow {
                            observed_at,
                            window_id: window_id as i64,
                            executable,
                            executable_path,
                            title,
                        },
                    )
                } else {
                    Err(StoreError::WindowIdOutOfRange)
                },
            }
        },
    }
}

/// The observation that a row stands for: its time is checked first, then its
/// window identifier.
pub open spec fn event_of_row(row: EventRow) -> Result<Event, StoreError> {
    match read_time(row.observed_at) {
        Err(error) => Err(error),
        Ok(observed_at) => if row.window_id >= 0 {
            Ok(
                Event {
                    observed_at,
                    payload: EventPayload::ForegroundWindowObserved {
                        window_id: row.window_id as u64,
                        title: row.title,
                        executable: row.executable,
                        executable_path: row.executable_path,
                    },
                },
            )
        } else {
            Err(StoreError::WindowIdOutOfRange)
        },
    }
}

/// The row in which `event` is saved.
pub fn event_row(event: &Event) -> (row: Result<EventRow, StoreError>)
    ensures
        row == row_of_event(*event),
{
    let observed_at = match unix_milliseconds(event.observed_at) {
        Ok(observed_at) => observed_at,
        Err(error) => return Err(error),
    };
    match &event.payload {
        EventPayload::ForegroundWindowObserved { window_id, title, executable, executable_path } => {
            if *window_id <= 9_223_372_036_854_775_807u64 {
                let executable_path = match executable_path {
                    Some(path) => Some(path.clone()),
                    None => None,
                };
                Ok(
                    EventRow {
                        observed_at,
                        window_id: *window_id as i64,
                        executable: executable.clone(),
                        executable_path,
                        title: title.clone(),
                    },
                )
            } else {
                Err(StoreError::WindowIdOutOfRange)
            }
        },
    }
}

/// The observation read back from a stored row.
pub fn event_from_row(row: EventRow) -> (event: Result<Event, StoreError>)
    ensures
        event == event_of_row(row),
{
    let observed_at = match system_time(row.observed_at) {
        Ok(observed_at) => observed_at,
        Err(error) => return Err(error),
    };
    if row.window_id >= 0 {
        Ok(
            Event::new_foreground_window_event(
                observed_at,
                row.window_id as u64,
                row.title,
                row.executable,
                row.executable_path,
            ),
        )
    } else {
        Err(StoreError::WindowIdOutOfRange)
    }
}

/// An observation of whole milliseconds that can be saved is read back
/// unchanged, and a row read as an observation is written back unchanged.
pub proof fn lemma_event_round_trip(event: Event, row: EventRow)
    ensures
        row_of_event(event) is Ok && event.observed_at % NANOSECONDS_PER_MILLISECOND == 0
            ==> event_of_row(row_of_event(event)->Ok_0) == Ok::<
            Event,
            StoreError,
        >(event),
        event_of_row(row) is Ok ==> row_of_event(event_of_row(row)->Ok_0) == Ok::<
            EventRow,
            StoreError,
        >(row),
{
    lemma_time_round_trip(event.observed_at, row.observed_at);
}

/// The columns of a stored suggestion.
#[derive(Debug, Clone, PartialEq, Eq)]
pub struct SuggestionRow {
    pub interval_start: i64,
    pub interval_finish: i64,
    pub generated_at: i64,
    pub jira_issue_key: Option<String>,
}

/// The row that stores `suggestion` in a replacement of the stored range from
/// `start` (inclusive) to `end` (exclusive): the interval's start and finish are
/// converted, then the start is checked against the range, then the time of
/// generation is converted.
pub open spec fn row_of_suggestion(start: i64, end: i64, suggestion: Suggestion) -> Result<
    SuggestionRow,
    StoreError,
> {
    match stored_time(suggestion.interval_start) {
        Err(error) => Err(error),
        Ok(interval_start) => match stored_time(suggestion.interval_finish) {
            Err(error) => Err(error),
            Ok(interval_finish) => if interval_start < start || interval_start >= end {
                Err(StoreError::SuggestionOutsideRange)
            } else {
                match stored_time(suggestion.generated_at) {
                    Err(error) => Err(error),
                    Ok(generated_at) => Ok(
                        SuggestionRow {
                            interval_start,
                            interval_finish,
                            generated_at,
                            jira_issue_key: suggestion.jira_issue_key,
                        },
                    ),
                }
            },
        },
    }
}

/// The rows of the suggestions, in their order, or the error of the first one
/// that cannot be stored.
pub open spec fn rows_of_suggestions(start: i64, end: i64, suggestions: Seq<Suggestion>) -> Result<
    Seq<SuggestionRow>,
    StoreError,
>
    decreases suggestions.len(),
{
    if suggestions.len() == 0 {
        Ok(Seq::empty())
    } else {
        match rows_of_suggestions(start, end, suggestions.drop_last()) {
            Err(error) => Err(error),
            Ok(rows) => match row_of_suggestion(start, end, suggestions.last()) {
                Err(error) => Err(error),
                Ok(row) => Ok(rows.push(row)),
            },
        }
    }
}

/// What replacing the stored suggestions of a range writes: the range's bounds
/// and the rows that take the place of those stored in it.
#[derive(Debug, Clone, PartialEq, Eq)]
pub struct Replacement {
    pub start: i64,
    pub end: i64,
    pub rows: Vec<SuggestionRow>,
}

/// The mathematical value of a `Replacement`.
pub struct ReplacementView {
    pub start: i64,
    pub end: i64,
    pub rows: Seq<SuggestionRow>,
}

impl View for Replacement {
    type V = ReplacementView;

    open spec fn view(&self) -> ReplacementView {
        ReplacementView { start: self.start, end: self.end, rows: self.rows@ }
    }
}

/// The replacement of the suggestions stored from `start` to `end` by
/// `suggestions`: the bounds are converted first, then each suggestion in turn.
pub open spec fn replacement_of(start: u64, end: u64, suggestions: Seq<Suggestion>) -> Result<
    ReplacementView,
    StoreError,
> {
    match stored_time(start) {
        Err(error) => Err(error),
        Ok(start) => match stored_time(end) {
            Err(error) => Err(error),
            Ok(end) => match rows_of_suggestions(start, end, suggestions) {
                Err(error) => Err(error),
                Ok(rows) => Ok(ReplacementView { start, end, rows }),
            },
        },
    }
}

/// The view of a replacement, or its error.
pub open spec fn replacement_view(replacement: Result<Replacement, StoreError>) -> Result<
    ReplacementView,
    StoreError,
> {
    match replacement {
        Ok(replacement) => Ok(replacement@),
        Err(error) => Err(error),
    }
}

/// Checks and converts the suggestions that replace those stored from `start`
/// (inclusive) to `end` (exclusive); nothing is written when this fails.
pub fn replacement(start: u64, end: u64, suggestions: &[Suggestion]) -> (replacement: Result<
    Replacement,
    StoreError,
>)
    ensures
        replacement_view(replacement) == replacement_of(start, end, suggestions@),
{
    let stored_start = match unix_milliseconds(start) {
        Ok(time) => time,
        Err(error) => return Err(error),
    };
    let stored_end = match unix_milliseconds(end) {
        Ok(time) => time,
        Err(error) => return Err(error),
    };
    let mut rows: Vec<SuggestionRow> = Vec::new();
    for i in 0..suggestions.len()
        invariant
            stored_time(start) == Ok::<i64, StoreError>(stored_start),
            stored_time(end) == Ok::<i64, StoreError>(stored_end),
            rows_of_suggestions(stored_start, stored_end, suggestions@.take(i as int)) == Ok::<
                Seq<SuggestionRow>,
                StoreError,
            >(rows@),
    {
        let suggestion = &suggestions[i];
        proof {
            lemma_rows_take_next(stored_start, stored_end, suggestions@, i as int);
        }
        let interval_start = match unix_milliseconds(suggestion.interval_start) {
            Ok(time) => time,
            Err(error) => {
                proof {
                    assert(rows_of_suggestions(stored_start, stored_end, suggestions@.take(i + 1)) == Err::<
                        Seq<SuggestionRow>,
                        StoreError,
                    >(error));
                    lemma_rows_error_persists(stored_start, stored_end, suggestions@, i + 1);
                }
                return Err(error);
            },
        };
        let interval_finish = match unix_milliseconds(suggestion.interval_finish) {
            Ok(time) => time,
            Err(error) => {
                proof {
                    assert(rows_of_suggestions(stored_start, stored_end, suggestions@.take(i + 1)) == Err::<
                        Seq<SuggestionRow>,
                        StoreError,
                    >(error));
                    lemma_rows_error_persists(stored_start, stored_end, suggestions@, i + 1);
                }
                return Err(error);
            },
        };
        if interval_start < stored_start || interval_start >= stored_end {
            proof {
                assert(rows_of_suggestions(stored_start, stored_end, suggestions@.take(i + 1)) == Err::<
                    Seq<SuggestionRow>,
                    StoreError,
                >(StoreError::SuggestionOutsideRange));
                lemma_rows_error_persists(stored_start, stored_end, suggestions@, i + 1);
            }
            return Err(StoreError::SuggestionOutsideRange);
        }
        let generated_at = match unix_milliseconds(suggestion.generated_at) {
            Ok(time) => time,
            Err(error) => {
                proof {
                    assert(rows_of_suggestions(stored_start, stored_end, suggestions@.take(i + 1)) == Err::<
                        Seq<SuggestionRow>,
                        StoreError,
                    >(error));
                    lemma_rows_error_persists(stored_start, stored_end, suggestions@, i + 1);
                }
                return Err(error);
            },
        };
        let jira_issue_key = match &suggestion.jira_issue_key {
            Some(key) => Some(key.clone()),
            None => None,
        };
        rows.push(SuggestionRow { interval_start, interval_finish, generated_at, jira_issue_key });
    }
    proof {
        assert(suggestions@.take(suggestions@.len() as int) =~= suggestions@);
    }
    Ok(Replacement { start: stored_start, end: stored_end, rows })
}

/// The rows of one more suggestion.
pub proof fn lemma_rows_take_next(start: i64, end: i64, suggestions: Seq<Suggestion>, i: int)
    requires
        0 <= i < suggestions.len(),
    ensures
        rows_of_suggestions(start, end, suggestions.take(i + 1)) == match rows_of_suggestions(
            start,
            end,
            suggestions.take(i),
        ) {
            Err(error) => Err(error),
            Ok(rows) => match row_of_suggestion(start, end, suggestions[i]) {
                Err(error) => Err(error),
                Ok(row) => Ok(rows.push(row)),
            },
        },
{
    assert(suggestions.take(i + 1).drop_last() =~= suggestions.take(i));
    assert(suggestions.take(i + 1).last() == suggestions[i]);
}

/// Once a prefix of the suggestions fails, every longer prefix fails with the
/// same error.
pub proof fn lemma_rows_error_persists(start: i64, end: i64, suggestions: Seq<Suggestion>, i: int)
    requires
        0 <= i <= suggestions.len(),
        rows_of_suggestions(start, end, suggestions.take(i)) is Err,
    ensures
        rows_of_suggestions(start, end, suggestions) == rows_of_suggestions(
            start,
            end,
            suggestions.take(i),
        ),
    decreases suggestions.len() - i,
{
    if i < suggestions.len() {
        assert(suggestions.take(i + 1).drop_last() =~= suggestions.take(i));
        lemma_rows_error_persists(start, end, suggestions, i + 1);
    } else {
        assert(suggestions.take(i) =~= suggestions);
    }
}

/// The suggestion that a stored row stands for: start, finish and time of
/// generation are read in that order.
pub open spec fn suggestion_of_row(row: SuggestionRow) -> Result<Suggestion, StoreError> {
    match read_time(row.interval_start) {
        Err(error) => Err(error),
        Ok(interval_start) => match read_time(row.interval_finish) {
            Err(error) => Err(error),
            Ok(interval_finish) => match read_time(row.generated_at) {
                Err(error) => Err(error),
                Ok(generated_at) => Ok(
                    Suggestion {
                        interval_start,
                        interval_finish,
                        generated_at,
                        jira_issue_key: row.jira_issue_key,
                    },
                ),
            },
        },
    }
}

/// The suggestion read back from a stored row.
pub fn suggestion_from_row(row: SuggestionRow) -> (suggestion: Result<Suggestion, StoreError>)
    ensures
        suggestion == suggestion_of_row(row),
{
    let interval_start = match system_time(row.interval_start) {
        Ok(time) => time,
        Err(error) => return Err(error),
    };
    let interval_finish = match system_time(row.interval_finish) {
        Ok(time) => time,
        Err(error) => return Err(error),
    };
    let generated_at = match system_time(row.generated_at) {
        Ok(time) => time,
        Err(error) => return Err(error),
    };
    Ok(Suggestion::new(interval_start, interval_finish, generated_at, row.jira_issue_key))
}

/// A replacement holds one row for each suggestion, and each row of whole
/// milliseconds reads back as its suggestion; it fails exactly when a
/// suggestion's interval starts, in whole milliseconds, outside the range, and
/// then with `SuggestionOutsideRange`.
pub proof fn lemma_replacement_round_trip(start: u64, end: u64, suggestions: Seq<Suggestion>)
    ensures
        replacement_of(start, end, suggestions) is Ok ==> {
            let rows = replacement_of(start, end, suggestions)->Ok_0.rows;
            &&& rows.len() == suggestions.len()
            &&& forall|k: int|
                0 <= k < rows.len() && whole_milliseconds(suggestions[k]) ==> suggestion_of_row(
                    #[trigger] rows[k],
                ) == Ok::<Suggestion, StoreError>(suggestions[k])
        },
        replacement_of(start, end, suggestions) is Err ==> replacement_of(start, end, suggestions)
            == Err::<ReplacementView, StoreError>(StoreError::SuggestionOutsideRange),
        replacement_of(start, end, suggestions) is Ok <==> forall|k: int|
            0 <= k < suggestions.len() ==> start / NANOSECONDS_PER_MILLISECOND <= #[trigger] (
            suggestions[k].interval_start / NANOSECONDS_PER_MILLISECOND) < end
                / NANOSECONDS_PER_MILLISECOND,
{
    assert(start / NANOSECONDS_PER_MILLISECOND <= i64::MAX);
    assert(end / NANOSECONDS_PER_MILLISECOND <= i64::MAX);
    let s = (start / NANOSECONDS_PER_MILLISECOND) as i64;
    let e = (end / NANOSECONDS_PER_MILLISECOND) as i64;
    lemma_rows_of_suggestions(s, e, suggestions);
    assert forall|k: int| 0 <= k < suggestions.len() implies #[trigger] row_of_suggestion(
        s,
        e,
        suggestions[k],
    ) is Ok <==> s <= (suggestions[k].interval_start / NANOSECONDS_PER_MILLISECOND) < e by {}
    if forall|k: int|
        0 <= k < suggestions.len() ==> start / NANOSECONDS_PER_MILLISECOND <= #[trigger] (
        suggestions[k].interval_start / NANOSECONDS_PER_MILLISECOND) < end / NANOSECONDS_PER_MILLISECOND {
        assert forall|k: int| 0 <= k < suggestions.len() implies #[trigger] row_of_suggestion(
            s,
            e,
            suggestions[k],
        ) is Ok by {
            assert(s <= (suggestions[k].interval_start / NANOSECONDS_PER_MILLISECOND) < e);
        }
    }
    if replacement_of(start, end, suggestions) is Ok {
        assert forall|k: int| 0 <= k < suggestions.len() implies start / NANOSECONDS_PER_MILLISECOND
            <= #[trigger] (suggestions[k].interval_start / NANOSECONDS_PER_MILLISECOND) < end
            / NANOSECONDS_PER_MILLISECOND by {
            assert(row_of_suggestion(s, e, suggestions[k]) is Ok);
        }
    }
    if replacement_of(start, end, suggestions) is Err {
        let error = rows_of_suggestions(s, e, suggestions)->Err_0;
        let k = choose|k: int|
            0 <= k < suggestions.len() && #[trigger] row_of_suggestion(s, e, suggestions[k])
                == Err::<SuggestionRow, StoreError>(error);
        assert(row_of_suggestion(s, e, suggestions[k]) is Err);
    }
}

/// The suggestion's times are whole milliseconds.
pub open spec fn whole_milliseconds(suggestion: Suggestion) -> bool {
    &&& suggestion.interval_start % NANOSECONDS_PER_MILLISECOND == 0
    &&& suggestion.interval_finish % NANOSECONDS_PER_MILLISECOND == 0
    &&& suggestion.generated_at % NANOSECONDS_PER_MILLISECOND == 0
}

/// The rows of the suggestions read back as the suggestions, and they fail only
/// on a suggestion that cannot be stored.
pub proof fn lemma_rows_of_suggestions(start: i64, end: i64, suggestions: Seq<Suggestion>)
    ensures
        rows_of_suggestions(start, end, suggestions) is Ok ==> {
            let rows = rows_of_suggestions(start, end, suggestions)->Ok_0;
            &&& rows.len() == suggestions.len()
            &&& forall|k: int|
                0 <= k < rows.len() && whole_milliseconds(suggestions[k]) ==> suggestion_of_row(
                    #[trigger] rows[k],
                ) == Ok::<Suggestion, StoreError>(suggestions[k])
        },
        rows_of_suggestions(start, end, suggestions) is Err ==> exists|k: int|
            0 <= k < suggestions.len() && #[trigger] row_of_suggestion(start, end, suggestions[k])
                == Err::<SuggestionRow, StoreError>(
                rows_of_suggestions(start, end, suggestions)->Err_0,
            ),
        rows_of_suggestions(start, end, suggestions) is Ok <==> (forall|k: int|
            0 <= k < suggestions.len() ==> #[trigger] row_of_suggestion(start, end, suggestions[k]) is Ok),
    decreases suggestions.len(),
{
    if suggestions.len() > 0 {
        let prefix = suggestions.drop_last();
        lemma_rows_of_suggestions(start, end, prefix);
        let last = suggestions.len() - 1;
        assert(suggestions[last] == suggestions.last());
        match rows_of_suggestions(start, end, prefix) {
            Ok(rows) => {
                assert forall|k: int| 0 <= k < rows.len() implies #[trigger] rows[k] == rows[k] by {}
                if row_of_suggestion(start, end, suggestions.last()) is Ok {
                    let all = rows.push(row_of_suggestion(start, end, suggestions.last())->Ok_0);
                    assert forall|k: int| 0 <= k < all.len() && whole_milliseconds(suggestions[k])
                        implies suggestion_of_row(#[trigger] all[k]) == Ok::<Suggestion, StoreError>(
                        suggestions[k],
                    ) by {
                        if k < rows.len() {
                            assert(all[k] == rows[k]);
                            assert(prefix[k] == suggestions[k]);
                        } else {
                            let suggestion = suggestions[k];
                            lemma_time_round_trip(suggestion.interval_start, 0);
                            lemma_time_round_trip(suggestion.interval_finish, 0);
                            lemma_time_round_trip(suggestion.generated_at, 0);
                        }
                    }
                }
            },
            Err(error) => {
                let k = choose|k: int|
                    0 <= k < prefix.len() && #[trigger] row_of_suggestion(start, end, prefix[k])
                        == Err::<SuggestionRow, StoreError>(error);
                assert(prefix[k] == suggestions[k]);
            },
        }
        if forall|k: int| 0 <= k < suggestions.len() ==> #[trigger] row_of_suggestion(start, end, suggestions[k]) is Ok {
            assert forall|k: int| 0 <= k < prefix.len() implies #[trigger] row_of_suggestion(start, end, prefix[k]) is Ok by {
                assert(prefix[k] == suggestions[k]);
                assert(row_of_suggestion(start, end, suggestions[k]) is Ok);
            }
        }
        if rows_of_suggestions(start, end, suggestions) is Ok {
            assert forall|k: int| 0 <= k < suggestions.len() implies #[trigger] row_of_suggestion(start, end, suggestions[k]) is Ok by {
                if k < prefix.len() {
                    assert(prefix[k] == suggestions[k]);
                    assert(row_of_suggestion(start, end, prefix[k]) is Ok);
                }
            }
        }
    }
}

/// Every row holds what its suggestion converts to, column by column.
proof fn lemma_rows_hold_columns(start: i64, end: i64, suggestions: Seq<Suggestion>)
    requires
        rows_of_suggestions(start, end, suggestions) is Ok,
    ensures
        rows_of_suggestions(start, end, suggestions)->Ok_0.len() == suggestions.len(),
        forall|k: int|
            0 <= k < suggestions.len() ==> {
                let row = #[trigger] rows_of_suggestions(start, end, suggestions)->Ok_0[k];
                &&& row.interval_start == suggestions[k].interval_start / NANOSECONDS_PER_MILLISECOND
                &&& row.interval_finish == suggestions[k].interval_finish / NANOSECONDS_PER_MILLISECOND
                &&& row.generated_at == suggestions[k].generated_at / NANOSECONDS_PER_MILLISECOND
                &&& row.jira_issue_key == suggestions[k].jira_issue_key
            },
    decreases suggestions.len(),
{
    if suggestions.len() > 0 {
        let prefix = suggestions.drop_last();
        lemma_rows_hold_columns(start, end, prefix);
        let rows = rows_of_suggestions(start, end, prefix)->Ok_0;
        let last = suggestions.last();
        let row = row_of_suggestion(start, end, last)->Ok_0;
        assert(last.interval_start / NANOSECONDS_PER_MILLISECOND <= i64::MAX);
        assert(last.interval_finish / NANOSECONDS_PER_MILLISECOND <= i64::MAX);
        assert(last.generated_at / NANOSECONDS_PER_MILLISECOND <= i64::MAX);
        let all = rows.push(row);
        assert forall|k: int| 0 <= k < suggestions.len() implies {
            let row = #[trigger] all[k];
            &&& row.interval_start == suggestions[k].interval_start / NANOSECONDS_PER_MILLISECOND
            &&& row.interval_finish == suggestions[k].interval_finish / NANOSECONDS_PER_MILLISECOND
            &&& row.generated_at == suggestions[k].generated_at / NANOSECONDS_PER_MILLISECOND
            &&& row.jira_issue_key == suggestions[k].jira_issue_key
        } by {
            if k < prefix.len() {
                assert(all[k] == rows[k]);
                assert(prefix[k] == suggestions[k]);
            } else {
                assert(suggestions[k] == last);
            }
        }
    }
}

/// A replacement writes, for each suggestion in turn, a row whose interval
/// start, interval finish and time of generation are the whole milliseconds of
/// the suggestion's, in those columns, with its issue key; its range is the
/// whole milliseconds of `start` and `end`.
pub proof fn lemma_replacement_columns(start: u64, end: u64, suggestions: Seq<Suggestion>)
    ensures
        replacement_of(start, end, suggestions) is Ok ==> {
            let written = replacement_of(start, end, suggestions)->Ok_0;
            &&& written.start == start / NANOSECONDS_PER_MILLISECOND
            &&& written.end == end / NANOSECONDS_PER_MILLISECOND
            &&& written.rows.len() == suggestions.len()
            &&& forall|k: int|
                0 <= k < suggestions.len() ==> {
                    let row = #[trigger] written.rows[k];
                    &&& row.interval_start == suggestions[k].interval_start / NANOSECONDS_PER_MILLISECOND
                    &&& row.interval_finish == suggestions[k].interval_finish / NANOSECONDS_PER_MILLISECOND
                    &&& row.generated_at == suggestions[k].generated_at / NANOSECONDS_PER_MILLISECOND
                    &&& row.jira_issue_key == suggestions[k].jira_issue_key
                }
        },
{
    assert(start / NANOSECONDS_PER_MILLISECOND <= i64::MAX);
    assert(end / NANOSECONDS_PER_MILLISECOND <= i64::MAX);
    if replacement_of(start, end, suggestions) is Ok {
        let s = (start / NANOSECONDS_PER_MILLISECOND) as i64;
        let e = (end / NANOSECONDS_PER_MILLISECOND) as i64;
        lemma_rows_hold_columns(s, e, suggestions);
    }
}

/// A row read back gives a suggestion whose interval start, interval finish
/// and time of generation are those columns in nanoseconds, with the row's
/// issue key; it is read exactly when all three are times that can be held.
pub proof fn lemma_suggestion_of_row_columns(row: SuggestionRow)
    ensures
        suggestion_of_row(row) is Ok <==> (0 <= row.interval_start && row.interval_start
            * NANOSECONDS_PER_MILLISECOND <= u64::MAX && 0 <= row.interval_finish
            && row.interval_finish * NANOSECONDS_PER_MILLISECOND <= u64::MAX && 0 <= row.generated_at
            && row.generated_at * NANOSECONDS_PER_MILLISECOND <= u64::MAX),
        suggestion_of_row(row) is Ok ==> {
            let suggestion = suggestion_of_row(row)->Ok_0;
            &&& suggestion.interval_start == row.interval_start * NANOSECONDS_PER_MILLISECOND
            &&& suggestion.interval_finish == row.interval_finish * NANOSECONDS_PER_MILLISECOND
            &&& suggestion.generated_at == row.generated_at * NANOSECONDS_PER_MILLISECOND
            &&& suggestion.jira_issue_key == row.jira_issue_key
        },
{
}

/// An observation is saved exactly when its window identifier fits the column,
/// in a row holding its time in whole milliseconds, its window identifier, its
/// title, executable and executable path in their own columns.
pub proof fn lemma_event_row_columns(event: Event)
    ensures
        row_of_event(event) is Ok <==> event.window_id() <= i64::MAX,
        row_of_event(event) is Ok ==> {
            let row = row_of_event(event)->Ok_0;
            &&& row.observed_at == event.observed_at / NANOSECONDS_PER_MILLISECOND
            &&& row.window_id == event.window_id()
            &&& row.title == event.title()
            &&& row.executable == event.executable()
            &&& row.executable_path == event.executable_path()
        },
{
    assert(event.observed_at / NANOSECONDS_PER_MILLISECOND <= i64::MAX);
}

/// A row is read back exactly when its time can be held and its window
/// identifier is not negative, as the observation with those columns, the time
/// in nanoseconds.
pub proof fn lemma_event_of_row_columns(row: EventRow)
    ensures
        event_of_row(row) is Ok <==> (0 <= row.observed_at && row.observed_at
            * NANOSECONDS_PER_MILLISECOND <= u64::MAX && row.window_id >= 0),
        event_of_row(row) is Ok ==> {
            let event = event_of_row(row)->Ok_0;
            &&& event.observed_at == row.observed_at * NANOSECONDS_PER_MILLISECOND
            &&& event.window_id() == row.window_id
            &&& event.title() == row.title
            &&& event.executable() == row.executable
            &&& event.executable_path() == row.executable_path
        },
{
}

} // verus!
