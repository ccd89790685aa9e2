# Incident Commander

Incident lifecycle management: open incidents, acknowledge and resolve them,
add notes, and read each incident's timeline.

- `src/` is the library, verified with Verus:
  - `domain`: severities, statuses and the allowed transitions
    (`open -> acknowledged -> resolved`, and `open -> resolved`), timeline
    event kinds, their text forms, the request and incident types.
  - `infra`: the incident store and its operations, each specified by a step
    function on the store's view; reading stored database rows back.
  - `api`: the API key check, input validation, and the status and body of
    every answer.
  - `laws`: properties of the lifecycle and the store, proved once for all
    inputs.
  - `order`: placing items by a text key, as `ORDER BY ... ASC` does.
  - `text`: string comparison and ordering, and Unicode whitespace trimming.
  - `outside`: the calls into `uuid` and `chrono`, with their trusted contracts.
- `app/` is the HTTP server (axum) and the SQLite database (sqlx) that keeps
  incidents across restarts; it loads the stored rows at start and writes each
  change the library makes.
- `tests/` exercise the library on concrete scenarios.
