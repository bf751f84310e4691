use vstd::prelude::*;

use chrono::NaiveDate;

use crate::calendar::{Calendar, CalendarInterval, CalendarIntervalContext};
use crate::suggestions::{Suggestion, SuggestionSet};
use crate::text::{lemma_zero_padded_injective, push_zero_padded, zero_padded};

verus! {

/// What the suggestion agent is asked to analyse: one day, the range of time
/// that its suggestions replace, and the day's 5-minute and 15-minute
/// intervals. Times are nanoseconds since the Unix epoch.
pub struct AgentRequest {
    pub date: NaiveDate,
    pub range_start: u64,
    pub range_finish: u64,
    pub five_minute_intervals: Vec<AgentInterval>,
    pub fifteen_minute_intervals: Vec<AgentInterval>,
}

impl AgentRequest {
    pub fn new(
        date: NaiveDate,
        range_start: u64,
        range_finish: u64,
        five_minute_intervals: Vec<AgentInterval>,
        fifteen_minute_intervals: Vec<AgentInterval>,
    ) -> (request: Self)
        ensures
            request.date == date,
            request.range_start == range_start,
            request.range_finish == range_finish,
            request.five_minute_intervals@ == five_minute_intervals@,
            request.fifteen_minute_intervals@ == fifteen_minute_intervals@,
    {
        AgentRequest {
            date,
            range_start,
            range_finish,
            five_minute_intervals,
            fifteen_minute_intervals,
        }
    }
}

/// An interval of the calendar as the agent sees it.
pub struct AgentInterval {
    pub start: u64,
    pub finish: u64,
    pub contexts: Vec<AgentIntervalContext>,
}

impl AgentInterval {
    pub fn new(start: u64, finish: u64, contexts: Vec<AgentIntervalContext>) -> (interval: Self)
        ensures
            interval.start == start,
            interval.finish == finish,
            interval.contexts@ == contexts@,
    {
        AgentInterval { start, finish, contexts }
    }
}

/// Time, in nanoseconds, spent in one window context within an interval.
pub struct AgentIntervalContext {
    pub duration: u64,
    pub executable: String,
    pub description: String,
}

impl AgentIntervalContext {
    pub fn new(duration: u64, executable: String, description: String) -> (context: Self)
        ensures
            context == (AgentIntervalContext { duration, executable, description }),
    {
        AgentIntervalContext { duration, executable, description }
    }
}

/// The suggestions generated for a request, with the day and range they
/// replace.
pub struct AgentResult {
    pub date: NaiveDate,
    pub range_start: u64,
    pub range_finish: u64,
    pub suggestions: SuggestionSet,
}

impl AgentResult {
    pub fn new(request: &AgentRequest, suggestions: SuggestionSet) -> (result: Self)
        ensures
            result.date == request.date,
            result.range_start == request.range_start,
            result.range_finish == request.range_finish,
            result.suggestions == suggestions,
    {
        AgentResult {
            date: request.date,
            range_start: request.range_start,
            range_finish: request.range_finish,
            suggestions,
        }
    }
}

/// The agent's view of a calendar context: the same duration and window.
pub open spec fn agent_context_of(context: CalendarIntervalContext) -> AgentIntervalContext {
    AgentIntervalContext {
        duration: context.duration,
        executable: context.executable,
        description: context.description,
    }
}

/// The agent's view of a calendar interval: its bounds and its contexts, in
/// their order.
pub open spec fn is_agent_view(agent: AgentInterval, interval: CalendarInterval) -> bool {
    &&& agent.start == interval.start
    &&& agent.finish == interval.finish
    &&& agent.contexts@ == interval.contexts@.map_values(
        |context: CalendarIntervalContext| agent_context_of(context),
    )
}

/// The agent's view of a calendar interval.
pub fn agent_interval(interval: &CalendarInterval) -> (agent: AgentInterval)
    ensures
        is_agent_view(agent, *interval),
{
    let mut contexts: Vec<AgentIntervalContext> = Vec::new();
    for i in 0..interval.contexts.len()
        invariant
            contexts@ == interval.contexts@.take(i as int).map_values(
                |context: CalendarIntervalContext| agent_context_of(context),
            ),
    {
        let context = &interval.contexts[i];
        contexts.push(
            AgentIntervalContext::new(
                context.duration,
                context.executable.clone(),
                context.description.clone(),
            ),
        );
        assert(contexts@ =~= interval.contexts@.take(i + 1).map_values(
            |context: CalendarIntervalContext| agent_context_of(context),
        ));
    }
    assert(interval.contexts@.take(interval.contexts@.len() as int) =~= interval.contexts@);
    AgentInterval::new(interval.start, interval.finish, contexts)
}

/// The agent's views of the intervals, in their order.
pub open spec fn are_agent_views(agents: Seq<AgentInterval>, intervals: Seq<CalendarInterval>) -> bool {
    &&& agents.len() == intervals.len()
    &&& forall|i: int| 0 <= i < intervals.len() ==> is_agent_view(#[trigger] agents[i], intervals[i])
}

/// The agent's views of the intervals.
pub fn agent_intervals(intervals: &[CalendarInterval]) -> (agents: Vec<AgentInterval>)
    ensures
        are_agent_views(agents@, intervals@),
{
    let mut agents: Vec<AgentInterval> = Vec::new();
    for i in 0..intervals.len()
        invariant
            agents@.len() == i,
            forall|k: int| 0 <= k < i ==> is_agent_view(#[trigger] agents@[k], intervals@[k]),
    {
        agents.push(agent_interval(&intervals[i]));
    }
    agents
}

/// The request for suggestions for a day's calendar: the day, the range of
/// time that the suggestions replace, and both lists of intervals.
pub fn agent_request(date: NaiveDate, range_start: u64, range_finish: u64, calendar: &Calendar) -> (request: AgentRequest)
    ensures
        request.date == date,
        request.range_start == range_start,
        request.range_finish == range_finish,
        are_agent_views(request.five_minute_intervals@, calendar.five_minute_intervals@),
        are_agent_views(request.fifteen_minute_intervals@, calendar.fifteen_minute_intervals@),
{
    let five_minute_intervals = agent_intervals(calendar.five_minute_intervals.as_slice());
    let fifteen_minute_intervals = agent_intervals(calendar.fifteen_minute_intervals.as_slice());
    AgentRequest::new(date, range_start, range_finish, five_minute_intervals, fifteen_minute_intervals)
}

/// A request needs analysis unless it holds no interval at all.
pub fn needs_analysis(request: &AgentRequest) -> (needed: bool)
    ensures
        needed == (request.five_minute_intervals@.len() > 0
            || request.fifteen_minute_intervals@.len() > 0),
{
    request.five_minute_intervals.len() > 0 || request.fifteen_minute_intervals.len() > 0
}

/// The temporary key of the interval at `index` in a list of intervals: the
/// prefix, a hyphen and the index in at least four digits.
pub open spec fn key_text(prefix: Seq<char>, index: nat) -> Seq<char> {
    prefix + seq!['-'] + zero_padded(index, 4)
}

/// Builds the temporary key of the interval at `index`.
pub fn interval_key(prefix: &str, index: usize) -> (key: String)
    ensures
        key@ == key_text(prefix@, index as nat),
{
    let mut key = prefix.to_owned();
    proof {
        reveal_strlit("-");
    }
    key.append("-");
    push_zero_padded(&mut key, index as u64, 4);
    assert(key@ =~= key_text(prefix@, index as nat));
    key
}

/// Distinct intervals of a list have distinct keys.
pub proof fn lemma_interval_keys_distinct(prefix: Seq<char>, a: nat, b: nat)
    requires
        key_text(prefix, a) == key_text(prefix, b),
    ensures
        a == b,
{
    let start = prefix.len() + 1;
    assert(zero_padded(a, 4) =~= key_text(prefix, a).subrange(start as int, key_text(prefix, a).len() as int));
    assert(zero_padded(b, 4) =~= key_text(prefix, b).subrange(start as int, key_text(prefix, b).len() as int));
    lemma_zero_padded_injective(a, b, 4);
}

/// One assignment returned by the model: an interval key and the Jira issue
/// chosen for it, if any.
#[derive(Debug, Clone, PartialEq, Eq)]
pub struct GeneratedSuggestion {
    pub interval_key: String,
    pub jira_issue_key: Option<String>,
}

impl GeneratedSuggestion {
    pub fn new(interval_key: String, jira_issue_key: Option<String>) -> (generated: Self)
        ensures
            generated == (GeneratedSuggestion { interval_key, jira_issue_key }),
    {
        GeneratedSuggestion { interval_key, jira_issue_key }
    }
}

/// The model's assignments for the 5-minute and the 15-minute intervals.
pub struct GeneratedSuggestionSet {
    pub five_minute_suggestions: Vec<GeneratedSuggestion>,
    pub fifteen_minute_suggestions: Vec<GeneratedSuggestion>,
}

impl GeneratedSuggestionSet {
    pub fn new(
        five_minute_suggestions: Vec<GeneratedSuggestion>,
        fifteen_minute_suggestions: Vec<GeneratedSuggestion>,
    ) -> (set: Self)
        ensures
            set.five_minute_suggestions@ == five_minute_suggestions@,
            set.fifteen_minute_suggestions@ == fifteen_minute_suggestions@,
    {
        GeneratedSuggestionSet { five_minute_suggestions, fifteen_minute_suggestions }
    }
}

/// Why the suggestion agent could not produce suggestions.
#[derive(Debug, Clone, PartialEq, Eq)]
pub enum AgentError {
    /// The model assigned a key that names none of the intervals.
    UnexpectedIntervalKey { prefix: String, key: String },
    /// The model assigned the same interval key twice.
    DuplicateIntervalKey { prefix: String, key: String },
    /// The model kept calling tools for more rounds than allowed.
    ToolRoundsExceeded,
    /// The Jira server offers none of the read-only tools the agent uses.
    NoSupportedJiraTools,
    /// The model asked for a tool that is not offered.
    UnsupportedJiraTool { name: String },
    /// Jira refused to name the authenticated user.
    AuthenticatedUserRejected,
    /// Jira named no authenticated user.
    NoAuthenticatedUserInformation,
}

/// What is wrong with an assignment of the model.
pub enum KeyProblem {
    Unexpected,
    Duplicate,
}

/// The key names one of the first `count` intervals of the list.
pub open spec fn is_expected_key(prefix: Seq<char>, count: nat, key: Seq<char>) -> bool {
    exists|i: nat| i < count && #[trigger] key_text(prefix, i) == key
}

/// What is wrong with the assignment at `j`: its key names no interval, or an
/// earlier assignment has the same key.
pub open spec fn key_problem(
    prefix: Seq<char>,
    count: nat,
    generated: Seq<GeneratedSuggestion>,
    j: int,
) -> Option<KeyProblem> {
    let key = generated[j].interval_key@;
    if !is_expected_key(prefix, count, key) {
        Some(KeyProblem::Unexpected)
    } else if exists|k: int| 0 <= k < j && #[trigger] generated[k].interval_key@ == key {
        Some(KeyProblem::Duplicate)
    } else {
        None
    }
}

/// The first of the first `n` assignments that has a problem, with the
/// problem.
pub open spec fn first_key_problem(
    prefix: Seq<char>,
    count: nat,
    generated: Seq<GeneratedSuggestion>,
    n: nat,
) -> Option<(int, KeyProblem)>
    decreases n,
{
    if n == 0 {
        None
    } else {
        match first_key_problem(prefix, count, generated, (n - 1) as nat) {
            Some(found) => Some(found),
            None => match key_problem(prefix, count, generated, n - 1) {
                Some(problem) => Some((n - 1, problem)),
                None => None,
            },
        }
    }
}

/// The Jira issue assigned to the interval at `index`: that of the assignment
/// with its key, or none when no assignment has it.
pub open spec fn assigned_issue(
    prefix: Seq<char>,
    generated: Seq<GeneratedSuggestion>,
    index: nat,
) -> Option<String> {
    if exists|k: int|
        0 <= k < generated.len() && #[trigger] generated[k].interval_key@ == key_text(prefix, index) {
        generated[choose|k: int|
            0 <= k < generated.len() && #[trigger] generated[k].interval_key@ == key_text(
                prefix,
                index,
            )].jira_issue_key
    } else {
        None
    }
}

/// The error reports the problem, with the list's prefix and the offending key.
pub open spec fn reports_key_problem(
    error: AgentError,
    problem: KeyProblem,
    prefix: Seq<char>,
    key: String,
) -> bool {
    match problem {
        KeyProblem::Unexpected => error matches AgentError::UnexpectedIntervalKey { prefix: p, key: k }
            && p@ == prefix && k == key,
        KeyProblem::Duplicate => error matches AgentError::DuplicateIntervalKey { prefix: p, key: k }
            && p@ == prefix && k == key,
    }
}

/// The suggestion stored for an interval: its bounds, the time of generation
/// and the issue assigned to it.
pub open spec fn suggestion_for(interval: AgentInterval, generated_at: u64, jira_issue_key: Option<String>) -> Suggestion {
    Suggestion {
        interval_start: interval.start,
        interval_finish: interval.finish,
        generated_at,
        jira_issue_key,
    }
}

/// The suggestions for one list of intervals, or the first problem among the
/// assignments with the offending key.
pub open spec fn mapping_of(
    prefix: Seq<char>,
    intervals: Seq<AgentInterval>,
    generated: Seq<GeneratedSuggestion>,
    generated_at: u64,
) -> Result<Seq<Suggestion>, (KeyProblem, String)> {
    match first_key_problem(prefix, intervals.len(), generated, generated.len()) {
        Some((j, problem)) => Err((problem, generated[j].interval_key)),
        None => Ok(
            Seq::new(
                intervals.len(),
                |i: int| suggestion_for(intervals[i], generated_at, assigned_issue(prefix, generated, i as nat)),
            ),
        ),
    }
}

/// The result is the mapping: the same suggestions, or an error that reports
/// the same problem.
pub open spec fn mapping_reported(
    result: Result<Vec<Suggestion>, AgentError>,
    prefix: Seq<char>,
    mapping: Result<Seq<Suggestion>, (KeyProblem, String)>,
) -> bool {
    match (result, mapping) {
        (Ok(suggestions), Ok(expected)) => suggestions@ == expected,
        (Err(error), Err((problem, key))) => reports_key_problem(error, problem, prefix, key),
        _ => false,
    }
}

/// Once an assignment has a problem, it stays the first problem.
pub proof fn lemma_first_key_problem_persists(
    prefix: Seq<char>,
    count: nat,
    generated: Seq<GeneratedSuggestion>,
    n: nat,
    m: nat,
)
    requires
        n <= m,
        first_key_problem(prefix, count, generated, n) is Some,
    ensures
        first_key_problem(prefix, count, generated, m) == first_key_problem(prefix, count, generated, n),
    decreases m - n,
{
    if n < m {
        lemma_first_key_problem_persists(prefix, count, generated, n, (m - 1) as nat);
    }
}

/// Without a problem among the first `n` assignments, none of them has one,
/// and their keys are distinct.
pub proof fn lemma_no_key_problem(
    prefix: Seq<char>,
    count: nat,
    generated: Seq<GeneratedSuggestion>,
    n: nat,
)
    requires
        first_key_problem(prefix, count, generated, n) is None,
    ensures
        forall|k: int| 0 <= k < n ==> #[trigger] key_problem(prefix, count, generated, k) is None,
        forall|a: int, b: int|
            0 <= a < b < n ==> generated[a].interval_key@ != generated[b].interval_key@,
    decreases n,
{
    if n > 0 {
        lemma_no_key_problem(prefix, count, generated, (n - 1) as nat);
        assert forall|a: int, b: int| 0 <= a < b < n implies generated[a].interval_key@
            != generated[b].interval_key@ by {
            if b == n - 1 {
                assert(key_problem(prefix, count, generated, b) is None);
                if generated[a].interval_key@ == generated[b].interval_key@ {
                    assert(exists|k: int| 0 <= k < b && #[trigger] generated[k].interval_key@
                        == generated[b].interval_key@);
                }
            }
        }
    }
}

/// Maps the model's assignments for one list of intervals back to the
/// intervals: every interval gets a suggestion with its own bounds, the time of
/// generation and the issue assigned to its key, or none when no assignment
/// names it. An assignment whose key names no interval, or that repeats an
/// earlier key, fails the whole list; the first such assignment is reported.
pub fn map_suggestions(
    prefix: &str,
    intervals: &[AgentInterval],
    generated: Vec<GeneratedSuggestion>,
    generated_at: u64,
) -> (suggestions: Result<Vec<Suggestion>, AgentError>)
    ensures
        mapping_reported(suggestions, prefix@, mapping_of(prefix@, intervals@, generated@, generated_at)),
{
    let count = intervals.len();
    let ghost key_count = count as nat;
    let mut expected: Vec<String> = Vec::new();
    for i in 0..count
        invariant
            expected@.len() == i,
            forall|k: int| 0 <= k < i ==> #[trigger] expected@[k]@ == key_text(prefix@, k as nat),
    {
        expected.push(interval_key(prefix, i));
    }
    let mut assigned: Vec<Option<usize>> = Vec::new();
    for i in 0..count
        invariant
            assigned@.len() == i,
            forall|k: int| 0 <= k < i ==> #[trigger] assigned@[k] is None,
    {
        assigned.push(None);
    }
    for j in 0..generated.len()
        invariant
            count == intervals@.len(),
            key_count == count,
            expected@.len() == count,
            forall|k: int| 0 <= k < count ==> #[trigger] expected@[k]@ == key_text(prefix@, k as nat),
            assigned@.len() == count,
            first_key_problem(prefix@, key_count, generated@, j as nat) is None,
            forall|i: int|
                0 <= i < count ==> match #[trigger] assigned@[i] {
                    Some(k) => k < j && generated@[k as int].interval_key@ == key_text(prefix@, i as nat),
                    None => forall|k: int|
                        0 <= k < j ==> generated@[k].interval_key@ != key_text(prefix@, i as nat),
                },
    {
        let key = &generated[j].interval_key;
        let mut found: Option<usize> = None;
        let mut i: usize = 0;
        while i < count
            invariant
                i <= count,
                expected@.len() == count,
                forall|k: int| 0 <= k < count ==> #[trigger] expected@[k]@ == key_text(prefix@, k as nat),
                match found {
                    Some(index) => index < count && key_text(prefix@, index as nat) == key@,
                    None => forall|k: int| 0 <= k < i ==> #[trigger] key_text(prefix@, k as nat) != key@,
                },
            decreases count - i,
        {
            if found.is_none() && expected[i] == *key {
                found = Some(i);
            }
            i = i + 1;
        }
        proof {
            lemma_no_key_problem(prefix@, key_count, generated@, j as nat);
            assert(first_key_problem(prefix@, key_count, generated@, (j + 1) as nat)
                == match key_problem(prefix@, key_count, generated@, j as int) {
                Some(problem) => Some((j as int, problem)),
                None => None,
            });
        }
        match found {
            None => {
                proof {
                    assert(!is_expected_key(prefix@, key_count, key@)) by {
                        if is_expected_key(prefix@, key_count, key@) {
                            let w = choose|w: nat| w < key_count && #[trigger] key_text(prefix@, w) == key@;
                            let wi: int = w as int;
                            assert(key_text(prefix@, wi as nat) != key@);
                        }
                    }
                    lemma_first_key_problem_persists(
                        prefix@,
                        key_count,
                        generated@,
                        (j + 1) as nat,
                        generated@.len(),
                    );
                }
                return Err(AgentError::UnexpectedIntervalKey { prefix: prefix.to_owned(), key: key.clone() });
            },
            Some(index) => {
                proof {
                    assert(is_expected_key(prefix@, key_count, key@));
                }
                match assigned[index] {
                    Some(earlier) => {
                        proof {
                            assert(generated@[earlier as int].interval_key@ == key@);
                            lemma_first_key_problem_persists(
                                prefix@,
                                key_count,
                                generated@,
                                (j + 1) as nat,
                                generated@.len(),
                            );
                        }
                        return Err(AgentError::DuplicateIntervalKey { prefix: prefix.to_owned(), key: key.clone() });
                    },
                    None => {
                        proof {
                            assert(!exists|k: int| 0 <= k < j && #[trigger] generated@[k].interval_key@ == key@);
                            assert forall|i: int| 0 <= i < count && i != index implies #[trigger] key_text(prefix@, i as nat) != key@ by {
                                if key_text(prefix@, i as nat) == key@ {
                                    lemma_interval_keys_distinct(prefix@, i as nat, index as nat);
                                }
                            }
                        }
                        assigned.set(index, Some(j));
                    },
                }
            },
        }
    }
    let mut suggestions: Vec<Suggestion> = Vec::new();
    for i in 0..count
        invariant
            count == intervals@.len(),
            assigned@.len() == count,
            first_key_problem(prefix@, key_count, generated@, generated@.len()) is None,
            key_count == count,
            forall|i: int|
                0 <= i < count ==> match #[trigger] assigned@[i] {
                    Some(k) => k < generated@.len() && generated@[k as int].interval_key@ == key_text(prefix@, i as nat),
                    None => forall|k: int|
                        0 <= k < generated@.len() ==> generated@[k].interval_key@ != key_text(prefix@, i as nat),
                },
            suggestions@.len() == i,
            forall|k: int|
                0 <= k < i ==> #[trigger] suggestions@[k] == suggestion_for(
                    intervals@[k],
                    generated_at,
                    assigned_issue(prefix@, generated@, k as nat),
                ),
    {
        let jira_issue_key = match assigned[i] {
            Some(k) => match &generated[k].jira_issue_key {
                Some(issue) => Some(issue.clone()),
                None => None,
            },
            None => None,
        };
        proof {
            match assigned@[i as int] {
                Some(k) => {
                    lemma_no_key_problem(prefix@, key_count, generated@, generated@.len());
                    let chosen = choose|c: int|
                        0 <= c < generated@.len() && #[trigger] generated@[c].interval_key@ == key_text(
                            prefix@,
                            i as nat,
                        );
                    assert(generated@[k as int].interval_key@ == key_text(prefix@, i as nat));
                    if chosen != k {
                        if chosen < k {
                            assert(generated@[chosen].interval_key@ != generated@[k as int].interval_key@);
                        } else {
                            assert(generated@[k as int].interval_key@ != generated@[chosen].interval_key@);
                        }
                    }
                },
                None => {},
            }
        }
        suggestions.push(
            Suggestion::new(intervals[i].start, intervals[i].finish, generated_at, jira_issue_key),
        );
    }
    proof {
        assert(suggestions@ =~= mapping_of(prefix@, intervals@, generated@, generated_at)->Ok_0);
    }
    Ok(suggestions)
}

/// The suggestions of both lists: the 5-minute list is mapped first and its
/// problem, if any, is the one reported.
pub open spec fn suggestion_set_reported(
    result: Result<SuggestionSet, AgentError>,
    five: Result<Seq<Suggestion>, (KeyProblem, String)>,
    fifteen: Result<Seq<Suggestion>, (KeyProblem, String)>,
) -> bool {
    match (result, five, fifteen) {
        (Ok(set), Ok(five), Ok(fifteen)) => set.five_minute_suggestions@ == five
            && set.fifteen_minute_suggestions@ == fifteen,
        (Err(error), Err((problem, key)), _) => reports_key_problem(error, problem, "5m"@, key),
        (Err(error), Ok(_), Err((problem, key))) => reports_key_problem(error, problem, "15m"@, key),
        _ => false,
    }
}

/// Turns the model's assignments for a request into the suggestions to store,
/// all generated at `generated_at`: the 5-minute intervals take the keys with
/// prefix `5m`, the 15-minute intervals those with prefix `15m`.
pub fn suggestions_from_generated(
    request: &AgentRequest,
    generated: GeneratedSuggestionSet,
    generated_at: u64,
) -> (set: Result<SuggestionSet, AgentError>)
    ensures
        suggestion_set_reported(
            set,
            mapping_of("5m"@, request.five_minute_intervals@, generated.five_minute_suggestions@, generated_at),
            mapping_of(
                "15m"@,
                request.fifteen_minute_intervals@,
                generated.fifteen_minute_suggestions@,
                generated_at,
            ),
        ),
{
    let GeneratedSuggestionSet { five_minute_suggestions, fifteen_minute_suggestions } = generated;
    let five = match map_suggestions(
        "5m",
        request.five_minute_intervals.as_slice(),
        five_minute_suggestions,
        generated_at,
    ) {
        Ok(five) => five,
        Err(error) => return Err(error),
    };
    let fifteen = match map_suggestions(
        "15m",
        request.fifteen_minute_intervals.as_slice(),
        fifteen_minute_suggestions,
        generated_at,
    ) {
        Ok(fifteen) => fifteen,
        Err(error) => return Err(error),
    };
    Ok(SuggestionSet::new(five, fifteen))
}

/// The most rounds of Jira tool calls that one analysis may take.
pub const MAXIMUM_TOOL_ROUNDS: usize = 12;

/// What the analysis does after a response of the model.
#[derive(Debug, Clone, Copy, PartialEq, Eq)]
pub enum AnalysisStep {
    /// Ask the model for the final interval assignments.
    RequestAssignments,
    /// Run the tools the model called and send it their results.
    CallTools,
}

/// The rounds of tool calls that an analysis has taken so far.
#[derive(Debug, Clone, Copy, PartialEq, Eq)]
pub struct ToolRounds {
    pub completed: usize,
}

impl ToolRounds {
    pub fn new() -> (rounds: Self)
        ensures
            rounds.completed == 0,
    {
        ToolRounds { completed: 0 }
    }

    /// The model may be asked again while fewer than the maximum number of
    /// rounds have been taken.
    pub fn may_continue(&self) -> (allowed: Result<(), AgentError>)
        ensures
            self.completed < MAXIMUM_TOOL_ROUNDS ==> allowed == Ok::<(), AgentError>(()),
            self.completed >= MAXIMUM_TOOL_ROUNDS ==> allowed == Err::<(), AgentError>(
                AgentError::ToolRoundsExceeded,
            ),
    {
        if self.completed < MAXIMUM_TOOL_ROUNDS {
            Ok(())
        } else {
            Err(AgentError::ToolRoundsExceeded)
        }
    }

    /// Decides what follows a response with `tool_call_count` tool calls: the
    /// request for the final assignments when there are none, and otherwise
    /// the calls, which take one more round.
    pub fn after_response(&mut self, tool_call_count: usize) -> (step: AnalysisStep)
        requires
            old(self).completed < MAXIMUM_TOOL_ROUNDS,
        ensures
            tool_call_count == 0 ==> step == AnalysisStep::RequestAssignments && final(self).completed
                == old(self).completed,
            tool_call_count > 0 ==> step == AnalysisStep::CallTools && final(self).completed
                == old(self).completed + 1,
    {
        if tool_call_count == 0 {
            AnalysisStep::RequestAssignments
        } else {
            self.completed = self.completed + 1;
            AnalysisStep::CallTools
        }
    }
}

/// The read-only Atlassian tools that the agent may use.
pub open spec fn is_supported_tool_name(name: Seq<char>) -> bool {
    ||| name == "atlassianUserInfo"@
    ||| name == "getAccessibleAtlassianResources"@
    ||| name == "getJiraIssue"@
    ||| name == "searchJiraIssuesUsingJql"@
    ||| name == "searchAtlassian"@
    ||| name == "fetchAtlassian"@
}

/// Whether the agent may use the tool of this name.
pub fn is_supported_tool(name: &String) -> (supported: bool)
    ensures
        supported == is_supported_tool_name(name@),
{
    *name == "atlassianUserInfo".to_owned() || *name == "getAccessibleAtlassianResources".to_owned()
        || *name == "getJiraIssue".to_owned() || *name == "searchJiraIssuesUsingJql".to_owned()
        || *name == "searchAtlassian".to_owned() || *name == "fetchAtlassian".to_owned()
}

/// The positions, in order, of the supported tools among the first `n`
/// offered ones.
pub open spec fn supported_positions(names: Seq<String>, n: nat) -> Seq<usize>
    decreases n,
{
    if n == 0 {
        Seq::empty()
    } else {
        let earlier = supported_positions(names, (n - 1) as nat);
        if is_supported_tool_name(names[n - 1]@) {
            earlier.push((n - 1) as usize)
        } else {
            earlier
        }
    }
}

/// Picks the tools the agent may use out of those a Jira server offers, in the
/// offered order; fails when there are none.
pub fn supported_tools(names: &[String]) -> (positions: Result<Vec<usize>, AgentError>)
    ensures
        match positions {
            Ok(positions) => positions@ == supported_positions(names@, names@.len())
                && positions@.len() > 0,
            Err(error) => error == AgentError::NoSupportedJiraTools && supported_positions(
                names@,
                names@.len(),
            ).len() == 0,
        },
{
    let mut positions: Vec<usize> = Vec::new();
    for i in 0..names.len()
        invariant
            positions@ == supported_positions(names@, i as nat),
    {
        if is_supported_tool(&names[i]) {
            positions.push(i);
        }
    }
    if positions.len() == 0 {
        Err(AgentError::NoSupportedJiraTools)
    } else {
        Ok(positions)
    }
}

/// The tool the model asked for is one of those offered.
pub fn check_tool_available(available: &[String], name: &String) -> (checked: Result<(), AgentError>)
    ensures
        (exists|i: int| 0 <= i < available@.len() && #[trigger] available@[i]@ == name@) ==> checked
            == Ok::<(), AgentError>(()),
        !(exists|i: int| 0 <= i < available@.len() && #[trigger] available@[i]@ == name@) ==> (
        checked matches Err(AgentError::UnsupportedJiraTool { name: n }) && n == *name),
{
    for i in 0..available.len()
        invariant
            forall|k: int| 0 <= k < i ==> #[trigger] available@[k]@ != name@,
    {
        if available[i] == *name {
            return Ok(());
        }
    }
    Err(AgentError::UnsupportedJiraTool { name: name.clone() })
}

/// Where the authenticated user's information is found in Jira's answer.
#[derive(Debug, Clone, PartialEq, Eq)]
pub enum UserInformation {
    /// In the answer's structured content.
    Structured,
    /// In its text contents, joined by line breaks.
    Text(String),
}

/// The texts joined by line breaks.
pub open spec fn joined_lines(texts: Seq<String>) -> Seq<char>
    decreases texts.len(),
{
    if texts.len() == 0 {
        Seq::empty()
    } else if texts.len() == 1 {
        texts[0]@
    } else {
        joined_lines(texts.drop_last()) + "\n"@ + texts.last()@
    }
}

/// Decides where to read the authenticated user from Jira's answer: an answer
/// flagged as an error is refused; structured content is preferred; otherwise
/// the text contents joined by line breaks, which must not be empty.
pub fn authenticated_user_information(
    is_error: Option<bool>,
    has_structured_content: bool,
    texts: &[String],
) -> (information: Result<UserInformation, AgentError>)
    ensures
        is_error == Some(true) ==> information == Err::<UserInformation, AgentError>(
            AgentError::AuthenticatedUserRejected,
        ),
        is_error != Some(true) && has_structured_content ==> information == Ok::<
            UserInformation,
            AgentError,
        >(UserInformation::Structured),
        is_error != Some(true) && !has_structured_content && joined_lines(texts@).len() == 0
            ==> information == Err::<UserInformation, AgentError>(
            AgentError::NoAuthenticatedUserInformation,
        ),
        is_error != Some(true) && !has_structured_content && joined_lines(texts@).len() > 0 ==> (
        information matches Ok(UserInformation::Text(text)) && text@ == joined_lines(texts@)),
{
    if is_error == Some(true) {
        return Err(AgentError::AuthenticatedUserRejected);
    }
    if has_structured_content {
        return Ok(UserInformation::Structured);
    }
    let mut text = String::new();
    for i in 0..texts.len()
        invariant
            text@ == joined_lines(texts@.take(i as int)),
    {
        if i > 0 {
            text.append("\n");
        }
        text.append(texts[i].as_str());
        proof {
            let next = texts@.take(i + 1);
            assert(next.drop_last() =~= texts@.take(i as int));
            if i == 0 {
                assert(next.len() == 1);
            }
        }
    }
    proof {
        assert(texts@.take(texts@.len() as int) =~= texts@);
    }
    if text.as_str().is_empty() {
        Err(AgentError::NoAuthenticatedUserInformation)
    } else {
        Ok(UserInformation::Text(text))
    }
}

/// The message that describes an error of the agent.
pub open spec fn error_message(error: AgentError) -> Seq<char> {
    match error {
        AgentError::UnexpectedIntervalKey { prefix, key } => "Ollama returned unexpected "@ + prefix@
            + " interval key "@ + key@,
        AgentError::DuplicateIntervalKey { prefix, key } => "Ollama returned duplicate "@ + prefix@
            + " interval key "@ + key@,
        AgentError::ToolRoundsExceeded => "suggestion agent exceeded the maximum number of Jira tool rounds"@,
        AgentError::NoSupportedJiraTools => "the Atlassian MCP server did not expose any supported read-only Jira tools"@,
        AgentError::UnsupportedJiraTool { name } => "the agent requested unsupported Jira tool "@ + name@,
        AgentError::AuthenticatedUserRejected => "Atlassian rejected the authenticated-user request"@,
        AgentError::NoAuthenticatedUserInformation => "Atlassian returned no authenticated-user information"@,
    }
}

impl AgentError {
    /// Describes the error.
    pub fn message(&self) -> (message: String)
        ensures
            message@ == error_message(*self),
    {
        match self {
            AgentError::UnexpectedIntervalKey { prefix, key } => {
                let mut message = "Ollama returned unexpected ".to_owned();
                message.append(prefix.as_str());
                message.append(" interval key ");
                message.append(key.as_str());
                message
            },
            AgentError::DuplicateIntervalKey { prefix, key } => {
                let mut message = "Ollama returned duplicate ".to_owned();
                message.append(prefix.as_str());
                message.append(" interval key ");
                message.append(key.as_str());
                message
            },
            AgentError::ToolRoundsExceeded => "suggestion agent exceeded the maximum number of Jira tool rounds".to_owned(),
            AgentError::NoSupportedJiraTools => "the Atlassian MCP server did not expose any supported read-only Jira tools".to_owned(),
            AgentError::UnsupportedJiraTool { name } => {
                let mut message = "the agent requested unsupported Jira tool ".to_owned();
                message.append(name.as_str());
                message
            },
            AgentError::AuthenticatedUserRejected => "Atlassian rejected the authenticated-user request".to_owned(),
            AgentError::NoAuthenticatedUserInformation => "Atlassian returned no authenticated-user information".to_owned(),
        }
    }
}

proof fn lemma_no_problem_up_to(prefix: Seq<char>, count: nat, generated: Seq<GeneratedSuggestion>, n: nat)
    requires
        n <= generated.len(),
        forall|k: int| 0 <= k < n ==> #[trigger] key_problem(prefix, count, generated, k) is None,
    ensures
        first_key_problem(prefix, count, generated, n) is None,
    decreases n,
{
    if n > 0 {
        lemma_no_problem_up_to(prefix, count, generated, (n - 1) as nat);
        assert(key_problem(prefix, count, generated, n - 1) is None);
    }
}

/// Mapping the model's assignments for a list of intervals succeeds exactly
/// when every assignment names an interval of the list by its key and no two
/// assignments name the same; then each interval, in its place, gets a
/// suggestion with its own start and finish, the time of generation and the
/// issue of the assignment that names it, or none when no assignment does.
pub proof fn lemma_mapping_of(
    prefix: Seq<char>,
    intervals: Seq<AgentInterval>,
    generated: Seq<GeneratedSuggestion>,
    generated_at: u64,
)
    ensures
        mapping_of(prefix, intervals, generated, generated_at) is Ok <==> ((forall|j: int|
            0 <= j < generated.len() ==> exists|i: nat|
                i < intervals.len() && #[trigger] key_text(prefix, i) == (#[trigger] generated[j]).interval_key@)
            && forall|a: int, b: int|
            0 <= a < b < generated.len() ==> generated[a].interval_key@ != generated[b].interval_key@),
        mapping_of(prefix, intervals, generated, generated_at) is Ok ==> {
            let suggestions = mapping_of(prefix, intervals, generated, generated_at)->Ok_0;
            &&& suggestions.len() == intervals.len()
            &&& forall|i: int|
                0 <= i < intervals.len() ==> {
                    &&& (#[trigger] suggestions[i]).interval_start == intervals[i].start
                    &&& suggestions[i].interval_finish == intervals[i].finish
                    &&& suggestions[i].generated_at == generated_at
                    &&& forall|k: int|
                        0 <= k < generated.len() && generated[k].interval_key@ == key_text(prefix, i as nat)
                            ==> suggestions[i].jira_issue_key == generated[k].jira_issue_key
                    &&& (forall|k: int|
                        0 <= k < generated.len() ==> generated[k].interval_key@ != key_text(prefix, i as nat))
                        ==> suggestions[i].jira_issue_key is None
                }
        },
{
    let count = intervals.len();
    let n = generated.len();
    if first_key_problem(prefix, count, generated, n) is None {
        lemma_no_key_problem(prefix, count, generated, n);
        assert forall|j: int| 0 <= j < generated.len() implies exists|i: nat|
            i < intervals.len() && #[trigger] key_text(prefix, i) == (#[trigger] generated[j]).interval_key@ by {
            assert(key_problem(prefix, count, generated, j) is None);
        }
        let suggestions = mapping_of(prefix, intervals, generated, generated_at)->Ok_0;
        assert forall|i: int| 0 <= i < intervals.len() implies {
            &&& forall|k: int|
                0 <= k < generated.len() && generated[k].interval_key@ == key_text(prefix, i as nat)
                    ==> (#[trigger] suggestions[i]).jira_issue_key == generated[k].jira_issue_key
            &&& (forall|k: int|
                0 <= k < generated.len() ==> generated[k].interval_key@ != key_text(prefix, i as nat))
                ==> suggestions[i].jira_issue_key is None
        } by {
            assert forall|k: int|
                0 <= k < generated.len() && generated[k].interval_key@ == key_text(prefix, i as nat)
                    implies suggestions[i].jira_issue_key == generated[k].jira_issue_key by {
                let c = choose|c: int|
                    0 <= c < generated.len() && #[trigger] generated[c].interval_key@ == key_text(
                        prefix,
                        i as nat,
                    );
                if c != k {
                    if c < k {
                        assert(generated[c].interval_key@ != generated[k].interval_key@);
                    } else {
                        assert(generated[k].interval_key@ != generated[c].interval_key@);
                    }
                }
            }
        }
    } else {
        let (j, problem) = first_key_problem(prefix, count, generated, n)->0;
        if (forall|j: int|
            0 <= j < generated.len() ==> exists|i: nat|
                i < intervals.len() && #[trigger] key_text(prefix, i) == (#[trigger] generated[j]).interval_key@)
            && forall|a: int, b: int|
            0 <= a < b < generated.len() ==> generated[a].interval_key@ != generated[b].interval_key@ {
            assert forall|k: int| 0 <= k < n implies #[trigger] key_problem(prefix, count, generated, k) is None by {
                let key = generated[k].interval_key@;
                let i = choose|i: nat| i < intervals.len() && #[trigger] key_text(prefix, i) == generated[k].interval_key@;
                assert(is_expected_key(prefix, count, key));
                assert(!exists|m: int| 0 <= m < k && #[trigger] generated[m].interval_key@ == key);
            }
            lemma_no_problem_up_to(prefix, count, generated, n);
        }
    }
}

/// The positions picked are exactly those of the supported tools among the
/// offered ones, in increasing order.
pub proof fn lemma_supported_positions(names: Seq<String>, n: nat)
    requires
        n <= names.len(),
        n <= usize::MAX,
    ensures
        forall|j: int|
            0 <= j < n ==> (supported_positions(names, n).contains(j as usize) <==> is_supported_tool_name(
                #[trigger] names[j]@,
            )),
        forall|p: int|
            0 <= p < supported_positions(names, n).len() ==> #[trigger] supported_positions(names, n)[p] < n,
        forall|p: int, q: int|
            0 <= p < q < supported_positions(names, n).len() ==> #[trigger] supported_positions(names, n)[p]
                < #[trigger] supported_positions(names, n)[q],
    decreases n,
{
    if n > 0 {
        let m = (n - 1) as nat;
        lemma_supported_positions(names, m);
        let earlier = supported_positions(names, m);
        let now = supported_positions(names, n);
        assert forall|j: int| 0 <= j < n implies (now.contains(j as usize) <==> is_supported_tool_name(
            #[trigger] names[j]@,
        )) by {
            if j < m {
                if is_supported_tool_name(names[m as int]@) {
                    if now.contains(j as usize) {
                        let p = choose|p: int| 0 <= p < now.len() && now[p] == j as usize;
                        if p < earlier.len() {
                            assert(now[p] == earlier[p]);
                        }
                    }
                    if earlier.contains(j as usize) {
                        let p = choose|p: int| 0 <= p < earlier.len() && earlier[p] == j as usize;
                        assert(now[p] == earlier[p]);
                    }
                }
            } else {
                if is_supported_tool_name(names[m as int]@) {
                    assert(now[earlier.len() as int] == m as usize);
                } else {
                    if earlier.contains(j as usize) {
                        let p = choose|p: int| 0 <= p < earlier.len() && earlier[p] == j as usize;
                        assert(earlier[p] < m);
                    }
                }
            }
        }
        if is_supported_tool_name(names[m as int]@) {
            assert forall|p: int| 0 <= p < now.len() implies #[trigger] now[p] < n by {
                if p < earlier.len() {
                    assert(now[p] == earlier[p]);
                }
            }
            assert forall|p: int, q: int| 0 <= p < q < now.len() implies #[trigger] now[p] < #[trigger] now[q] by {
                assert(now[p] == earlier[p]);
                if q < earlier.len() {
                    assert(now[q] == earlier[q]);
                }
            }
        }
    }
}

} // verus!
