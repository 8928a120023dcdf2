# plumb_workspace

The verified core of a plain-text workspace of notes, tasks and events.
Verus checks every function in `src/`; the public ones state what they
return in `requires`/`ensures` contracts, and the public proof functions
(`lemma_*`) state the properties that hold across calls.  The small wrappers
around outside crates are trusted, not proved: their doc comments say what
their contracts claim.

## Layout

- `src/` — the library, one module per concern:
  - paths, identifiers and references: `paths`, `ids`, `refs`, `references`, `root`, `rename`, `moves`;
  - search and completion: `search`, `completion`, `filters` (CEL filters and
    the choice of search records), `predicate` (store-side candidate predicates);
  - tasks: `workflow`, `task_sort`, `task_tree`, `task_page`, `shortlist`,
    `task_checks`, `cursor`, `graph`;
  - events and agenda: `events`, `event_pages`, `shorthand`, `agenda`,
    `accounting`;
  - bibliography: `csl`, `citations`, `bibliography`;
  - indexing and caching: `index`, `cache`, `keyed`, `diagnostics`;
  - shared helpers: `order`, `text`, `time`, `query`.
- `tests/` — tests run against the compiled library.
- `app/` — file-system plumbing around the library (workspace walks, cache
  locks, reading bibliography and workspace files) and the floating-point
  totals of agenda reports.

## Outside crates

`chrono`, `sha2`, `serde_json` and `cel` are called from `src/` through small
trusted wrappers, each documented with what its contract claims of the outside
function. `ignore` and `fs2` are used by `app/` only.
