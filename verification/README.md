# code20

Verified building blocks for searching the Code 20 cellular automaton (a
cell lives when two or four of the five cells around it, itself included,
live) for periodic patterns.

- `src/` is the library, written in Verus; every function there is proved
  against its `requires` / `ensures`:
  - fixed-width integers (`int_u1024`, `int_u256`, `int_u65536`, `customuint`)
    and their decimal text (`decimal`);
  - the cell-by-cell depth-first search (`search`, `search_tree`, `gaps`) and
    its rendering (`render`);
  - bit sets (`bitset`, `smallbitset`);
  - finite automata: construction and successors (`fa`), simplification and
    canonical labels (`minimization`, `relabel`), the subset construction
    (`dfa`), merging nodes of equal behaviour (`dfa_min`), pruning (`prune`),
    words (`words`), the step of a rule (`solver`, `packed`), rounds of step
    and simplification until a labelling repeats (`iterate`), the automaton
    networks and their Wolfram Language text (`net`, `net_text`);
  - the finite-state-machine search (`fsm`, `automaton`, `rules`);
  - the exchange with an outside satisfiability solver (`dimacs`, `satsearch`).
- `app/` holds the programs around the library: argument handling, files,
  plots and the solver process.
- `tests/` runs the library on concrete values.
