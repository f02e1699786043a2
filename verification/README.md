# backend

The rules engine of a checkers contest server, verified with Verus.

- `src/game.rs`: pieces, board, game state, errors.
- `src/movegen.rs`: move generation (`GameState::list_valid_moves`) and its specification.
- `src/shape.rs`: what every generated move sequence looks like.
- `src/rules.rs`: the start position and `GameState::apply_sequence`.
- `src/text.rs`: text of boards (CSV) and move sequences.
- `src/play.rs`: games against player programs: reading, judging and settling their moves.
- `src/contest.rs`: tournament schedule, game results, win/loss/draw records and their tally.
- `src/laws.rs`: properties that hold across functions.
- `src/search_laws.rs`, `src/distinct.rs`, `src/geometry.rs`, `src/quiet.rs`, `src/chains.rs`:
  properties of the move search for every position: what it depends on, compulsory
  captures, distinct move lists, how each kind of piece moves, the plain moves offered when
  nothing can be captured, and that no capture chain allowed by the rules is longer than
  the ones offered.
- `app/`: the web server (routes, process and file I/O, JSON, Elo ratings).
