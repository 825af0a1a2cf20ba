# token_runtime

The decision-making core of a text editor's runtime, verified with Verus:
inline-completion caching and recency context, auto-save scheduling,
language-server supervision, background request bookkeeping, event-loop
wake-ups, per-document debounces, the syntax worker's queue, background
terminal spawns, hover timers, preview webviews, automation requests,
EditorConfig discovery, the handling of diagnostics publishes, and the
budgets and filters of workspace retrieval and external formatting.

- `src/` is the verified library. Each module states its data as a
  mathematical view and its operations as contracts over it; laws that span
  several operations are public proof functions named `law_*`.
- `tests/` exercises the library on concrete values.
- `app/` holds the effects around it: worker threads, child processes,
  file watching and walking. It takes its decisions from the library.
