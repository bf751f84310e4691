use chrono::NaiveDate;
use flogging::agents::{
    agent_interval, agent_request, authenticated_user_information, check_tool_available,
    interval_key, map_suggestions, needs_analysis, suggestions_from_generated, supported_tools,
    AgentError, AgentInterval, AgentIntervalContext, AgentRequest, AnalysisStep,
    GeneratedSuggestion, GeneratedSuggestionSet, ToolRounds, UserInformation, MAXIMUM_TOOL_ROUNDS,
};
use flogging::calendar::{Calendar, CalendarInterval, CalendarIntervalContext};

const SECOND: u64 = 1_000_000_000;

fn request() -> AgentRequest {
    AgentRequest::new(
        NaiveDate::from_ymd_opt(2026, 8, 29).unwrap(),
        0,
        86_400 * SECOND,
        vec![AgentInterval::new(0, 300 * SECOND, vec![])],
        vec![AgentInterval::new(0, 900 * SECOND, vec![])],
    )
}

fn generated(key: &str, issue: Option<&str>) -> GeneratedSuggestion {
    GeneratedSuggestion::new(key.to_owned(), issue.map(str::to_owned))
}

#[test]
fn maps_temporary_keys_back_to_interval_boundaries() {
    let request = request();
    let suggestions = suggestions_from_generated(
        &request,
        GeneratedSuggestionSet::new(
            vec![generated("5m-0000", Some("MBFS-1234"))],
            vec![generated("15m-0000", None)],
        ),
        1_000,
    )
    .unwrap();

    assert_eq!(suggestions.five_minute_suggestions[0].interval_start, 0);
    assert_eq!(suggestions.five_minute_suggestions[0].interval_finish, 300 * SECOND);
    assert_eq!(
        suggestions.five_minute_suggestions[0].jira_issue_key.as_deref(),
        Some("MBFS-1234")
    );
    assert!(suggestions.fifteen_minute_suggestions[0].jira_issue_key.is_none());
}

#[test]
fn treats_missing_interval_assignments_as_no_suggestion() {
    let suggestions = suggestions_from_generated(
        &request(),
        GeneratedSuggestionSet::new(vec![], vec![generated("15m-0000", None)]),
        1_000,
    )
    .unwrap();

    assert_eq!(suggestions.five_minute_suggestions.len(), 1);
    assert!(suggestions.five_minute_suggestions[0].jira_issue_key.is_none());
}

#[test]
fn rejects_duplicate_interval_assignments() {
    let error = suggestions_from_generated(
        &request(),
        GeneratedSuggestionSet::new(
            vec![generated("5m-0000", Some("MBFS-1234")), generated("5m-0000", Some("MBFS-5678"))],
            vec![generated("15m-0000", None)],
        ),
        1_000,
    )
    .unwrap_err();

    assert!(error.message().contains("duplicate 5m interval key 5m-0000"));
}

#[test]
fn rejects_unexpected_interval_assignments() {
    let error = suggestions_from_generated(
        &request(),
        GeneratedSuggestionSet::new(
            vec![generated("5m-9999", Some("MBFS-1234"))],
            vec![generated("15m-0000", None)],
        ),
        1_000,
    )
    .unwrap_err();

    assert!(error.message().contains("unexpected 5m interval key 5m-9999"));
}

#[test]
fn interval_keys_pad_the_index_to_four_digits() {
    assert_eq!(interval_key("5m", 0), "5m-0000");
    assert_eq!(interval_key("15m", 42), "15m-0042");
    assert_eq!(interval_key("5m", 12_345), "5m-12345");
}

#[test]
fn mapped_suggestions_carry_the_time_of_generation() {
    let intervals = vec![
        AgentInterval::new(0, 300 * SECOND, vec![]),
        AgentInterval::new(300 * SECOND, 600 * SECOND, vec![]),
    ];

    let suggestions = map_suggestions(
        "5m",
        &intervals,
        vec![generated("5m-0001", Some("MBFS-1")), generated("5m-0000", None)],
        7_000,
    )
    .unwrap();

    assert_eq!(suggestions.len(), 2);
    assert_eq!(suggestions[0].generated_at, 7_000);
    assert_eq!(suggestions[0].jira_issue_key, None);
    assert_eq!(suggestions[1].interval_start, 300 * SECOND);
    assert_eq!(suggestions[1].jira_issue_key.as_deref(), Some("MBFS-1"));
}

#[test]
fn a_problem_in_the_five_minute_list_is_reported_first() {
    let error = suggestions_from_generated(
        &request(),
        GeneratedSuggestionSet::new(
            vec![generated("5m-0001", None)],
            vec![generated("15m-0001", None)],
        ),
        1_000,
    )
    .unwrap_err();

    assert_eq!(
        error,
        AgentError::UnexpectedIntervalKey { prefix: "5m".to_owned(), key: "5m-0001".to_owned() }
    );
}

#[test]
fn a_problem_in_the_fifteen_minute_list_is_reported() {
    let error = suggestions_from_generated(
        &request(),
        GeneratedSuggestionSet::new(vec![], vec![generated("5m-0000", None)]),
        1_000,
    )
    .unwrap_err();

    assert_eq!(
        error.message(),
        "Ollama returned unexpected 15m interval key 5m-0000"
    );
}

#[test]
fn a_request_without_intervals_needs_no_analysis() {
    let empty = AgentRequest::new(
        NaiveDate::from_ymd_opt(2026, 8, 29).unwrap(),
        0,
        86_400 * SECOND,
        vec![],
        vec![],
    );

    assert!(!needs_analysis(&empty));
    assert!(needs_analysis(&request()));
}

#[test]
fn the_agent_sees_the_intervals_of_the_calendar() {
    let interval = CalendarInterval::new(
        0,
        300 * SECOND,
        vec![CalendarIntervalContext::new(240 * SECOND, "idea64.exe".to_owned(), "MBFSNL-11923".to_owned())],
    );
    let calendar = Calendar {
        date: NaiveDate::from_ymd_opt(2026, 8, 29).unwrap(),
        blocks: vec![],
        five_minute_intervals: vec![interval.clone()],
        fifteen_minute_intervals: vec![],
    };

    let agent = agent_interval(&interval);
    let request = agent_request(calendar.date, 0, 86_400 * SECOND, &calendar);

    assert_eq!(agent.start, 0);
    assert_eq!(agent.finish, 300 * SECOND);
    assert_eq!(agent.contexts.len(), 1);
    assert_eq!(agent.contexts[0].duration, 240 * SECOND);
    assert_eq!(agent.contexts[0].executable, "idea64.exe");
    assert_eq!(agent.contexts[0].description, "MBFSNL-11923");
    assert_eq!(request.five_minute_intervals.len(), 1);
    assert!(request.fifteen_minute_intervals.is_empty());
    assert_eq!(request.range_finish, 86_400 * SECOND);
}

#[test]
fn tool_rounds_end_after_the_maximum() {
    let mut rounds = ToolRounds::new();

    assert_eq!(rounds.after_response(0), AnalysisStep::RequestAssignments);
    assert_eq!(rounds.completed, 0);
    for _ in 0..MAXIMUM_TOOL_ROUNDS {
        assert_eq!(rounds.may_continue(), Ok(()));
        assert_eq!(rounds.after_response(2), AnalysisStep::CallTools);
    }
    assert_eq!(rounds.may_continue(), Err(AgentError::ToolRoundsExceeded));
    assert_eq!(
        AgentError::ToolRoundsExceeded.message(),
        "suggestion agent exceeded the maximum number of Jira tool rounds"
    );
}

#[test]
fn only_read_only_jira_tools_are_used() {
    let offered = vec![
        "createJiraIssue".to_owned(),
        "getJiraIssue".to_owned(),
        "searchJiraIssuesUsingJql".to_owned(),
        "editJiraIssue".to_owned(),
    ];

    assert_eq!(supported_tools(&offered), Ok(vec![1, 2]));
    assert_eq!(
        supported_tools(&["createJiraIssue".to_owned()]),
        Err(AgentError::NoSupportedJiraTools)
    );
    assert_eq!(check_tool_available(&offered, &"getJiraIssue".to_owned()), Ok(()));
    assert_eq!(
        check_tool_available(&offered, &"deleteEverything".to_owned()),
        Err(AgentError::UnsupportedJiraTool { name: "deleteEverything".to_owned() })
    );
}

#[test]
fn authenticated_user_comes_from_structured_content_first() {
    assert_eq!(
        authenticated_user_information(Some(false), true, &["ignored".to_owned()]),
        Ok(UserInformation::Structured)
    );
    assert_eq!(
        authenticated_user_information(None, false, &["{\"account_id\":\"user-123\"}".to_owned()]),
        Ok(UserInformation::Text("{\"account_id\":\"user-123\"}".to_owned()))
    );
    assert_eq!(
        authenticated_user_information(None, false, &["first".to_owned(), "second".to_owned()]),
        Ok(UserInformation::Text("first\nsecond".to_owned()))
    );
}

#[test]
fn authenticated_user_errors_are_reported() {
    assert_eq!(
        authenticated_user_information(Some(true), true, &["not authenticated".to_owned()]),
        Err(AgentError::AuthenticatedUserRejected)
    );
    assert_eq!(
        authenticated_user_information(Some(false), false, &[]),
        Err(AgentError::NoAuthenticatedUserInformation)
    );
}

#[test]
fn agent_contexts_keep_their_values() {
    let context = AgentIntervalContext::new(240 * SECOND, "idea64.exe".to_owned(), "Task".to_owned());

    assert_eq!(context.duration, 240 * SECOND);
    assert_eq!(context.executable, "idea64.exe");
}

#[test]
fn rejects_an_authenticated_user_tool_error() {
    let result = authenticated_user_information(Some(true), false, &["not authenticated".to_owned()]);

    assert!(result.is_err());
}
