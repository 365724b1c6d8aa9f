# dwanium

Dwanium copies the Dell machines that Tanium knows into a Postgres database,
asks the Dell warranty API for the warranty end date of each machine, and
writes those dates back to Tanium Asset.

- `src/` is the library, verified with Verus: the requests sent to Tanium and
  Dell (`tanium.rs`, `dell.rs`), how their answers are read, and how the work is
  cut into batches (`work.rs`); `text.rs` joins strings.
- `app/` is the service itself: HTTP calls, the database, environment
  variables and the half-hourly loop.
- `tests/` runs the library on concrete values.
