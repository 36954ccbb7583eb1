# dashboard_server

A small home-server dashboard: machine figures, Docker containers and
services, power actions, downloads with live logs, and a folder browser,
behind a session cookie.

- `src/` is the library, verified with Verus: the session check, what each
  handler replies and which command it runs, the download task list and its
  log stream, the directory listing, disk grouping, process ranking, the
  parsing of command output and the byte-size formatting. Each public
  function states its result in its contract; the `law_*` proof functions
  state what holds across calls.
- `app/` is the server around it: HTTP routing (axum), the page template
  (askama), form decoding (serde), machine sampling (sysinfo), processes,
  files and threads. It hands the library plain values and sends what comes
  back.
- `tests/` runs the library on concrete values.
