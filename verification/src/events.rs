use vstd::prelude::*;

use crate::sorting::{indices, is_sorted_by, lemma_sorted_insert_at, lemma_stable_sort_of_indices_is_stable, lemma_stable_sort_sorted_permutation, stable_sort};

verus! {

/// What a collector observed. Times are nanoseconds since the Unix epoch.
#[derive(Debug, Clone, PartialEq, Eq)]
pub enum EventPayload {
    ForegroundWindowObserved {
        window_id: u64,
        title: String,
        executable: String,
        executable_path: Option<String>,
    },
}

/// An observation and the moment, in nanoseconds since the Unix epoch, at
/// which it was made.
#[derive(Debug, Clone, PartialEq, Eq)]
pub struct Event {
    pub observed_at: u64,
    pub payload: EventPayload,
}

impl Event {
    /// The title of the observed window.
    pub open spec fn title(self) -> String {
        match self.payload {
            EventPayload::ForegroundWindowObserved { title, .. } => title,
        }
    }

    /// The file name of the executable that owned the observed window.
    pub open spec fn executable(self) -> String {
        match self.payload {
            EventPayload::ForegroundWindowObserved { executable, .. } => executable,
        }
    }

    /// The identifier of the observed window.
    pub open spec fn window_id(self) -> u64 {
        match self.payload {
            EventPayload::ForegroundWindowObserved { window_id, .. } => window_id,
        }
    }

    /// The path of the executable that owned the observed window, when known.
    pub open spec fn executable_path(self) -> Option<String> {
        match self.payload {
            EventPayload::ForegroundWindowObserved { executable_path, .. } => executable_path,
        }
    }

    pub fn new_foreground_window_event(
        observed_at: u64,
        window_id: u64,
        title: String,
        executable: String,
        executable_path: Option<String>,
    ) -> (event: Self)
        ensures
            event == (Event {
                observed_at,
                payload: EventPayload::ForegroundWindowObserved {
                    window_id,
                    title,
                    executable,
                    executable_path,
                },
            }),
    {
        Event {
            observed_at,
            payload: EventPayload::ForegroundWindowObserved {
                window_id,
                title,
                executable,
                executable_path,
            },
        }
    }

    pub fn is_foreground_window_event(&self) -> (r: bool)
        ensures
            r == (self.payload is ForegroundWindowObserved),
    {
        match &self.payload {
            EventPayload::ForegroundWindowObserved { .. } => true,
        }
    }

    /// Borrows the title and executable of a foreground-window observation.
    pub fn window_context(&self) -> (r: (&String, &String))
        ensures
            *r.0 == self.title(),
            *r.1 == self.executable(),
    {
        match &self.payload {
            EventPayload::ForegroundWindowObserved { title, executable, .. } => (title, executable),
        }
    }
}

/// Orders positions of `events` by the time of their observation.
pub open spec fn time_key(events: Seq<Event>) -> spec_fn(usize) -> int {
    |i: usize| events[i as int].observed_at as int
}

/// The positions of `events` in the order in which they are processed: by
/// observation time, and in their given order where times are equal.
pub open spec fn time_order(events: Seq<Event>) -> Seq<usize> {
    stable_sort(indices(events.len()), time_key(events))
}

/// The events in the order in which they are processed.
pub open spec fn chronological(events: Seq<Event>) -> Seq<Event> {
    time_order(events).map_values(|i: usize| events[i as int])
}

/// The chronological order is a stable sort of the events by observation time:
/// it holds each event once and its times never decrease.
pub proof fn lemma_chronological(events: Seq<Event>)
    requires
        events.len() <= usize::MAX,
    ensures
        time_order(events).len() == events.len(),
        chronological(events).len() == events.len(),
        forall|k: int| 0 <= k < events.len() ==> #[trigger] time_order(events)[k] < events.len(),
        forall|k: int|
            0 <= k < events.len() ==> #[trigger] chronological(events)[k]
                == events[time_order(events)[k] as int],
        forall|i: int, j: int|
            0 <= i < j < events.len() ==> chronological(events)[i].observed_at
                <= chronological(events)[j].observed_at,
        forall|i: int, j: int|
            0 <= i < j < events.len() ==> time_order(events)[i] != time_order(events)[j],
{
    let key = time_key(events);
    lemma_stable_sort_of_indices_is_stable(events.len(), key);
    lemma_stable_sort_sorted_permutation(indices(events.len()), key);
    let order = time_order(events);
    assert forall|i: int, j: int| 0 <= i < j < events.len() implies chronological(events)[i].observed_at
        <= chronological(events)[j].observed_at by {
        assert(key(order[i]) <= key(order[j]));
    }
}

/// No two observations were made at the same time.
pub open spec fn distinct_times(events: Seq<Event>) -> bool {
    forall|i: int, j: int|
        0 <= i < j < events.len() ==> #[trigger] events[i].observed_at != #[trigger] events[j].observed_at
}

/// The observations' times strictly increase.
pub open spec fn strictly_increasing(events: Seq<Event>) -> bool {
    forall|i: int, j: int|
        0 <= i < j < events.len() ==> #[trigger] events[i].observed_at < #[trigger] events[j].observed_at
}

/// Two sequences of observations with strictly increasing times and the same
/// elements are equal.
pub proof fn lemma_increasing_same_elements(s: Seq<Event>, t: Seq<Event>)
    requires
        s.len() == t.len(),
        strictly_increasing(s),
        strictly_increasing(t),
        forall|i: int| 0 <= i < s.len() ==> t.contains(#[trigger] s[i]),
        forall|i: int| 0 <= i < t.len() ==> s.contains(#[trigger] t[i]),
    ensures
        s == t,
    decreases s.len(),
{
    if s.len() > 0 {
        let n = s.len() - 1;
        assert(t.contains(s[n]));
        let m = choose|m: int| 0 <= m < t.len() && t[m] == s[n];
        assert(s.contains(t[n]));
        let p = choose|p: int| 0 <= p < s.len() && s[p] == t[n];
        if m < n {
            assert(t[m].observed_at < t[n].observed_at);
            if p < n {
                assert(s[p].observed_at < s[n].observed_at);
            }
            assert(false);
        }
        let s0 = s.drop_last();
        let t0 = t.drop_last();
        assert forall|i: int| 0 <= i < s0.len() implies t0.contains(#[trigger] s0[i]) by {
            assert(s0[i] == s[i]);
            assert(t.contains(s[i]));
            let k = choose|k: int| 0 <= k < t.len() && t[k] == s[i];
            assert(s[i].observed_at < s[n].observed_at);
            assert(k != n);
            assert(t0[k] == t[k]);
        }
        assert forall|i: int| 0 <= i < t0.len() implies s0.contains(#[trigger] t0[i]) by {
            assert(t0[i] == t[i]);
            assert(s.contains(t[i]));
            let k = choose|k: int| 0 <= k < s.len() && s[k] == t[i];
            assert(t[i].observed_at < t[n].observed_at);
            assert(k != n);
            assert(s0[k] == s[k]);
        }
        lemma_increasing_same_elements(s0, t0);
        assert(t[n] == s[n]);
        assert forall|i: int| 0 <= i < s.len() implies s[i] == t[i] by {
            if i < n {
                assert(s[i] == s0[i]);
                assert(t[i] == t0[i]);
            }
        }
        assert(s =~= t);
    } else {
        assert(s =~= t);
    }
}

/// The chronological order of observations made at distinct times holds them
/// once each, with strictly increasing times.
pub proof fn lemma_chronological_distinct(events: Seq<Event>)
    requires
        events.len() <= usize::MAX,
        distinct_times(events),
    ensures
        chronological(events).len() == events.len(),
        strictly_increasing(chronological(events)),
        forall|i: int| 0 <= i < events.len() ==> events.contains(#[trigger] chronological(events)[i]),
        forall|j: int| 0 <= j < events.len() ==> chronological(events).contains(#[trigger] events[j]),
{
    broadcast use vstd::seq_lib::group_to_multiset_ensures;

    lemma_chronological(events);
    let order = time_order(events);
    let sorted = chronological(events);
    let n = events.len();
    lemma_stable_sort_sorted_permutation(indices(n), time_key(events));
    assert forall|i: int, j: int| 0 <= i < j < n implies #[trigger] sorted[i].observed_at
        < #[trigger] sorted[j].observed_at by {
        assert(order[i] != order[j]);
        assert(sorted[i] == events[order[i] as int]);
        assert(sorted[j] == events[order[j] as int]);
        if (order[i] as int) < (order[j] as int) {
            assert(events[order[i] as int].observed_at != events[order[j] as int].observed_at);
        } else {
            assert(events[order[j] as int].observed_at != events[order[i] as int].observed_at);
        }
    }
    assert forall|i: int| 0 <= i < n implies events.contains(#[trigger] sorted[i]) by {
        assert(sorted[i] == events[order[i] as int]);
    }
    assert forall|j: int| 0 <= j < n implies sorted.contains(#[trigger] events[j]) by {
        assert(indices(n)[j] == j as usize);
        assert(indices(n).contains(j as usize));
        assert(order.to_multiset().count(j as usize) > 0);
        assert(order.contains(j as usize));
        let k = choose|k: int| 0 <= k < order.len() && order[k] == j as usize;
        assert(sorted[k] == events[j]);
    }
}

/// Observations made at distinct times are processed in the same order however
/// they are given.
pub proof fn lemma_chronological_order_independent(a: Seq<Event>, b: Seq<Event>)
    requires
        a.len() <= usize::MAX,
        a.to_multiset() == b.to_multiset(),
        distinct_times(a),
        distinct_times(b),
    ensures
        chronological(a) == chronological(b),
{
    broadcast use vstd::seq_lib::group_to_multiset_ensures;

    assert(a.len() == b.len()) by {
        vstd::seq_lib::to_multiset_len(a);
        vstd::seq_lib::to_multiset_len(b);
    }
    lemma_chronological_distinct(a);
    lemma_chronological_distinct(b);
    let s = chronological(a);
    let t = chronological(b);
    assert forall|i: int| 0 <= i < s.len() implies t.contains(#[trigger] s[i]) by {
        assert(a.contains(s[i]));
        assert(a.to_multiset().count(s[i]) > 0);
        assert(b.contains(s[i]));
        let j = choose|j: int| 0 <= j < b.len() && b[j] == s[i];
        assert(t.contains(b[j]));
    }
    assert forall|i: int| 0 <= i < t.len() implies s.contains(#[trigger] t[i]) by {
        assert(b.contains(t[i]));
        assert(b.to_multiset().count(t[i]) > 0);
        assert(a.contains(t[i]));
        let j = choose|j: int| 0 <= j < a.len() && a[j] == t[i];
        assert(s.contains(a[j]));
    }
    lemma_increasing_same_elements(s, t);
}

/// The positions of the foreground-window observations of `events`, ordered by
/// observation time and, where times are equal, by position.
pub fn chronological_order(events: &[Event]) -> (order: Vec<usize>)
    ensures
        order@ == time_order(events@),
{
    let n = events.len();
    let ghost key = time_key(events@);
    let mut foreground: Vec<usize> = Vec::new();
    for i in 0..n
        invariant
            n == events@.len(),
            foreground@ == indices(i as nat),
    {
        if events[i].is_foreground_window_event() {
            foreground.push(i);
        }
        assert(foreground@ =~= indices((i + 1) as nat));
    }
    let mut order: Vec<usize> = Vec::new();
    for p in 0..n
        invariant
            n == events@.len(),
            foreground@ == indices(n as nat),
            key == time_key(events@),
            order@ == stable_sort(indices(p as nat), key),
            order@.len() == p,
            forall|k: int| 0 <= k < order@.len() ==> #[trigger] order@[k] < p,
    {
        let i = foreground[p];
        let time = events[i].observed_at;
        let mut j = order.len();
        while j > 0 && events[order[j - 1]].observed_at > time
            invariant
                n == events@.len(),
                p < n,
                i == p,
                time == events@[i as int].observed_at,
                key == time_key(events@),
                j <= order@.len(),
                order@.len() == p,
                forall|k: int| 0 <= k < order@.len() ==> #[trigger] order@[k] < p,
                forall|k: int| j <= k < order@.len() ==> key(#[trigger] order@[k]) > key(i),
            decreases j,
        {
            j -= 1;
        }
        proof {
            lemma_sorted_insert_at(order@, i, key, j as int);
            assert(indices((p + 1) as nat).drop_last() =~= indices(p as nat));
            assert(indices((p + 1) as nat).last() == i);
        }
        order.insert(j, i);
        proof {
            lemma_stable_sort_of_indices_is_stable((p + 1) as nat, key);
        }
    }
    order
}

} // verus!
