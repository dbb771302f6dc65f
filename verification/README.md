# mqo_replay

Behavioral regression replay of an agent against its own decision history:
each logged question is re-run through the current agent, the fresh decision
is compared with the logged one, and every question is given one drift class
(`outcome_drift`, `bind_drift`, `plan_drift`, `value_drift`, `unchanged`, in
that priority). A report counts the classes and fails when a class named in a
fail-on list is present.

Layout:

- `src/` — the verified library (Verus): record model and validation
  (`record`), log framing (`record::frame_log`, `record::assemble_log`), drift
  classification and log diffs (`diff`), RFC-3339 timestamps read as
  instants for the replay's since filter (`timestamp`), replay bookkeeping
  (`replay`),
  reports and their rendering (`report`), the service's request decisions
  (`serve`), and character-level text helpers (`text`). Each public function
  carries its contract; the laws of the library are public proof functions
  (`lemma_*`).
- `app/` — the command-line program: argument parsing, files, the agent
  subprocess, JSON (de)serialization, the JSON-RPC loop, and the
  floating-point tolerance check whose verdict the library takes as input.
- `tests/` — tests of the library.
