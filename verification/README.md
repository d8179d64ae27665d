# qcmweb

The rules of QCMWeb, a multiple-choice assessment platform that holds no
personal data (pupils are known by tokens), written in Verus and proved
against their contracts.

## Layout

- `src/` — the verified library:
  - `qcm` — the `qcm/v1` document model and its validation (every error at once);
  - `exam` — drawing a sitting from a document and a seed (shuffles that lose nothing);
  - `grading` — what each question earns, from the ticks given;
  - `results` — which copy counts, who stands where, per-question tallies, CSV export;
  - `assessment`, `attempt` — availability, release of scores and corrections,
    attempts left, deadlines, answers accepted or refused;
  - `auth`, `throttle`, `net` — sessions, API keys, login checks, the sliding-window
    login throttle, trusted proxies and the client's address;
  - `code`, `groups`, `school_year`, `subjects`, `admin`, `config`, `error`, `text` —
    codes and tokens, group and subject rules, administration commands, errors,
    text helpers.
- `tests/` — tests of the library, run against the compiled crate.
- `app/` — the HTTP server (axum, sqlx, PostgreSQL), the MCP facade and the
  administration commands, around the library. Floating-point figures (points,
  grades, averages) are computed there, from the library's decisions.
