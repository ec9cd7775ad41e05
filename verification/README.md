# Tightpack

A tile-packing game: pieces made of grid cells are dragged onto a board, and
each placed piece scores its own points plus the points of those of its
effects whose conditions hold on the board. There is a free sandbox, a draft
mode over a number of rounds, a duel against a computer opponent, and puzzles
with fixed piece sets whose solutions are recorded and checked.

## Layout

- `src/` — the rules of the game, verified with Verus:
  - `board` (cells, occupied-cell maps and sets), `model` (pieces, effects,
    quarter turns), `placement` (fitting, placing, returning pieces),
    `scoring` (conditions, contributions, board scores), `ai` (the computer
    players), `setup` (stashes and random piece properties), `puzzle`
    (solution checking, recording and display), `ranking` (list orders),
    `session`, `settings`, `duel` (screen, round and turn bookkeeping),
    `colors`, `config`, `text`.
- `tests/` — tests of the library on concrete values.
- `app/` — the Bevy program around the library: windows, sprites, input,
  files, and the conversions of the library's types for serialisation.
