# sayit

The verified core of SayIt, a desktop dictation and live-subtitle application.

- `src/` is the library, written in Verus: every function carries a contract that
  Verus proves. It holds the subtitle documents and their retention, the live subtitle
  session's decisions, the translation request queue, recognition job bookkeeping,
  correction learning rules, prompt filling and model-output checks, model-list
  merging, history and settings rules, audio container headers and queue admission.
  Laws of the library are public proof functions named `law_*` (and a few `lemma_*`
  that state invariants).
- `tests/` exercises the library on concrete values.
- `app/` is ordinary Rust around the library: process-wide state behind locks, file
  output, floating-point audio and layout arithmetic, and serializable records.

Calls into outside crates (`similar`, `sha2`, `base64`) and into std functions that
vstd does not specify are wrapped in small trusted functions whose contracts name or
state their results.
