use vstd::prelude::*;

verus! {

/// A Jira issue suggested for one interval of the calendar, or the record that
/// the interval was analysed and no issue matched. Times are nanoseconds since
/// the Unix epoch.
#[derive(Debug, Clone, PartialEq, Eq)]
pub struct Suggestion {
    pub interval_start: u64,
    pub interval_finish: u64,
    pub generated_at: u64,
    pub jira_issue_key: Option<String>,
}

impl Suggestion {
    pub fn new(
        interval_start: u64,
        interval_finish: u64,
        generated_at: u64,
        jira_issue_key: Option<String>,
    ) -> (suggestion: Self)
        ensures
            suggestion == (Suggestion { interval_start, interval_finish, generated_at, jira_issue_key }),
    {
        Suggestion { interval_start, interval_finish, generated_at, jira_issue_key }
    }

    /// A copy of this suggestion.
    pub fn duplicate(&self) -> (copy: Self)
        ensures
            copy == *self,
    {
        let jira_issue_key = match &self.jira_issue_key {
            Some(key) => Some(key.clone()),
            None => None,
        };
        Suggestion {
            interval_start: self.interval_start,
            interval_finish: self.interval_finish,
            generated_at: self.generated_at,
            jira_issue_key,
        }
    }
}

/// The suggestions of one analysis, for the 5-minute and the 15-minute intervals.
#[derive(Debug, Clone, PartialEq, Eq)]
pub struct SuggestionSet {
    pub five_minute_suggestions: Vec<Suggestion>,
    pub fifteen_minute_suggestions: Vec<Suggestion>,
}

impl SuggestionSet {
    pub fn new(
        five_minute_suggestions: Vec<Suggestion>,
        fifteen_minute_suggestions: Vec<Suggestion>,
    ) -> (set: Self)
        ensures
            set.five_minute_suggestions@ == five_minute_suggestions@,
            set.fifteen_minute_suggestions@ == fifteen_minute_suggestions@,
    {
        SuggestionSet { five_minute_suggestions, fifteen_minute_suggestions }
    }
}

} // verus!
