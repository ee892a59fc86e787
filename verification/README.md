# poker_core

A poker toolkit for push/fold tournament play, whose card logic is verified
with Verus.

`src/` is the verified library:

- `card`, `hand_evaluator`: cards and their text, and the rank of the best
  five of seven cards.
- `equity`, `equity_cache`, `blockers`: range notation (`AKs`, `77+`,
  `A2s-A5s`), the 169 hand types and their holdings, card removal.
- `showdown`: exact showdown counts over every deal and board, with the law
  that every showdown hands out exactly one pot.
- `monte_carlo`, `equity_3way`, `rng`: the same counts over sampled deals and
  boards, drawn by a reproducible generator.
- `three_way_cache`: the table of three-way values and its byte form.
- `hh_parser`: PokerStars tournament hand histories.
- `input`, `algorithm`, `text`: reading hands, boards and options.

`app/` is the command-line program around it: equities as fractions, ICM,
the equity table file and the equilibrium solver, all of which compute in
floating point.
