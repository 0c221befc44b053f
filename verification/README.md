# superko, verified

Go on small boards under the two superko rules, with the rules, counts and
searches stated as contracts and proved with Verus.

What is not proved: the node counts and depths a budgeted search reports
(its value, and whether it ran out of its budget, are); the numbering the
raw pass of Tarjan's algorithm produces, which is checked by a verified
test and replaced by a verified slower numbering if the test fails; and
that a value transported along a board symmetry equals the value searched
at that root. No search skips mirrored plays.

The library (`src/`) holds:

- `config`, `reference`: boards, points, the suicide conventions and the
  repetition rules; positions, chains, liberties, captures, legality, the
  history-carrying state and area scoring, each stated as a spec function and
  computed by a function proved equal to it.
- `code`, `text`, `archive`, `table`: base-3 position codes and their text,
  the archive of situations as a bit set, and the transition table of every
  play from every position.
- `divergence`: where a computation departs from the rules as written.
- `census`, `enumerate`, `walk`, `scc`: legal positions, the position graph,
  game counts by the table (serial and split) and by the rules themselves,
  and the strongly connected components of the situation graph.
- `symmetry`, `naive`, `search`, `separate`: the board's symmetries, minimax
  by the rules, alpha-beta over the table (values and verdicts), and the sweep
  that looks for positions whose value separates the two rules.
- `bench`, `cli`: the benchmark suite and the command line of the counting
  commands, as functions from arguments to the text they print.

`app/main.rs` is the `superko` binary: it reads the arguments, times the
count and prints. `tests/` exercises the library on concrete boards.
