# flogging

flogging reconstructs a calendar of the working day from observations of the
foreground window, and asks a local language model, with read-only access to
Jira, which Jira issue each 5-minute and 15-minute interval of the day belongs
to. The calendar is shown in a terminal interface.

## Layout

- `src/` is the verified library. Each function carries a contract that Verus
  proves; the properties that relate several functions are stated and proved
  as proof functions beside them.
  - `events`: observations and the chronological order in which they are
    processed.
  - `calendar`: blocks of continuous observation of one window context, the
    clock-aligned intervals of a day, and their enrichment with stored
    suggestions.
  - `engine`: the calendar blocks of at least five minutes, with blocks of one
    context merged across short interruptions.
  - `storage`: the stored form of observations and suggestions. Times are
    nanoseconds since the Unix epoch in the library and whole milliseconds in
    the store.
  - `agents`: the requests to the suggestion agent and the checks on its
    answers.
  - `tui`: navigation, input mapping, the interval timeline and the texts of
    the terminal interface.
  - `text`, `sorting`, `dates`, `suggestions`: shared pieces.
- `tests/` runs the library on concrete cases.
- `app/` is the program: the SQLite stores, the Ollama and Jira clients, the
  terminal drawing and the event loop.
