# wasm_games

Game logic for a small collection of browser arcade games, written in Verus
and proved against its contracts.

- `src/` is the verified library, one module per game or shared concern:
  `match3`, `match3_classic` and `match3_combo` (the match-3 games),
  `tetris` (the falling-block game), `lumines` (the 2x2 colour-block game
  with its sweeping timeline), `bubbles` (the bubble platformer's levels and
  rules), `jetpac` (the jetpack level and the rocket), `voxeldash` (the
  voxel terrain), `music` and `wav` (music arrangements and WAV encoding),
  `leaderboard` and `text` (high-score tables and player names), `theme`,
  `permutation` and `rng` (the random generator of `quad_rand`).
- `tests/` runs the library on concrete values.
- `app/` is the program around it: the `macroquad` frame loops, drawing,
  input, sound synthesis, storage with the page, and the serialisable copies
  of the table types.
