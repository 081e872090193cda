# mail_focus

The logic of a desktop mail assistant for students of BNBU, verified with
Verus: it reads the inbox incrementally, classifies mail by user rules and
keyword lists, turns the iSpace calendar feed into upcoming coursework,
imports the academic calendar, checks and composes outgoing mail, splits
text for translation, searches the staff directory, and keeps secrets in
the system credential store.

Layout:

- `src/` – the verified library. Each module states its behaviour over
  spec functions and proves it; calls into `chrono`, `regex`, `html2text`,
  `mailparse`, `lettre`, `base64` and `reqwest`'s URL type go through small
  trusted wrappers whose contracts say what those crates do. The calls into
  `keyring` carry no contract, since what the system credential store does
  depends on the machine; the decisions taken on its answers are verified.
  The laws of the library (rules before keywords, only future coursework in
  order of due time, no text lost when splitting for translation, the sync
  cursor never moving back, and others) are public proof functions.
- `tests/` – tests on concrete values, run against the real crates.
- `app/` – ordinary Rust around the library: the SQLite store, IMAP, HTTP,
  SMTP, the system reminders, and the operations the interface invokes.
