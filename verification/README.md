# declank

A rule-driven rewriter for English prose. A rule book holds

- literal rules (`rich tapestry of` → `range of`),
- lemma rules, expanded into every inflected form (`utilise` → `use`
  also rewrites `utilises`, `utilised`, `utilising`),
- templates with holes (`the {A} in question` → `the {A}`).

Rewriting finds every match that stands on word boundaries, keeps the
leftmost and, among matches that start together, the longest, drops any
match that overlaps one already kept, and replaces what is kept.

Layout:

- `src/` — the library, verified with Verus:
  `text` (character helpers), `inflect` (verb and noun forms), `rules`
  (rule types, lemma expansion, template parsing), `compile`, `rewrite`
  (matching, choice among overlaps, replacement), `book` (reading a rule
  book), `engine` (the loaded rules and `declank`).
  Contracts are stated over `Seq<char>` views; laws are public proof
  functions named `lemma_*`.
- `app/` — WebAssembly bindings (`set_rules` from JSON, `declank`).
- `tests/` — tests run against the compiled library.
