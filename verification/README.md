# open_tab

A verified library for running debate tournaments in the OPD format: the
draw of preliminary and tab rounds, the allocation of adjudicators, clash and
history evaluation, breaks, eligibility, tournament plans, the editing and
syncing of tournament data. The library is written in Verus; every function
in `src/` carries a contract that Verus proves.

## Layout

- `src/` — the verified library, one module per concern:
  - `participants`, `clashes`, `history`, `evaluation`, `severity`,
    `issues`: who takes part, what clashes between them, and how severe the
    issues of a debate are;
  - `preliminary`, `tab_draw`, `round_draw`, `optimization`,
    `flow_optimization`: drawing rounds (auction-based team assignment,
    min-cost-flow adjudicator allocation);
  - `breaks`, `eligibility`, `plan`, `creation`, `settings`, `feedback`:
    breaks, break eligibility, tournament plans and their configuration;
  - `release`: releasing feedback, silent results and breaks at a time;
  - `edit_tree`, `upload`, `clash_updates`, `participant_updates`,
    `draw_updates`, `observing`, `sync`, `round_loading`,
    `tournament_context`, `flat_evaluation`, `reindex`: changes to a
    tournament and keeping its views and remote copy up to date;
  - `laws`: properties that span several functions, stated and proved as
    proof functions.
- `tests/` — tests that run the compiled library.
- `app/` — the command-line program around the library: reading files,
  printing, and the conversions that need outside derives.

## Outside crates

Calls into `mcmf` (min-cost flow), `rand` (shuffles and coin flips), `uuid`
(fresh ids), `base64` and `anyhow` stand behind small trusted items in
`src/`, each with a doc comment that says what its contract claims of the
outside code.
