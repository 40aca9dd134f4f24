# quelparti

The server of the QuelParti political test, with its logic verified by
Verus.

- `src/` is the verified library: the scoring of a participant's answers
  against the parliamentary groups (`matching`), the filter lists and the
  screening of client addresses (`filters`, `config`, `submit`), the CSRF
  token checks (`tokens`), the grouping and scoring of stored submissions
  for reports (`reports`, `stats`), and the classification of errors
  (`errors`). Calls into `csv`, `base64`, `csrf` and `chrono` go through
  small functions whose contracts state what those crates are relied on
  for.
- `app/` is the web server around it: HTTP handlers, the database, the
  AbuseIPDB and Twitter clients, the results image, and the floating-point
  statistics.
- `tests/` exercises the library on concrete values.
