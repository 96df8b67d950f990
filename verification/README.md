# gritshield

The request-handling core of the GritShield web framework, written in Verus
and proved against its contracts.

* `src/text.rs`, `src/lex.rs` — UTF-8 text as bytes: trimming, splitting,
  case folding, number parsing, the way `str` does them.
* `src/multimap.rs`, `src/strmap.rs` — string-keyed maps (append-only
  multi-values for headers, queries and forms; replace-on-insert for
  sessions).
* `src/security.rs` — untrusted and safe text, HTML and URL encoders.
* `src/http/` — reading requests off a buffer, forms (url-encoded and
  multipart), responses, per-connection decisions.
* `src/admin/` — the administration dashboard's logic: listing queries and
  their links, pagination, CSV export, foreign keys, sessions and the admin
  guard, credentials, schema changes, record actions, bulk import, command
  palette, telemetry figures, and what the admin-panel and relation
  derives generate (`panel.rs`, `relations.rs`).
* `src/naming.rs`, `src/codegen.rs`, `src/macro_names.rs`, `src/clean.rs` —
  name conversions, the argument rules of the code-generating attributes,
  controller routes and finder names, and the cleaning steps of the
  sanitizer derive.
* `app/` — the runtime around the library: TCP server, JSON bodies, the
  login flow's process-wide state.
