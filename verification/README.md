# brs

The core of a BMS rhythm game, written in Verus: each function states what it does in
`requires`/`ensures`, and Verus proves the code meets it.

## Layout

- `src/` — the verified library.
  - `model/` — notes and play modes, chart header rules (judge rank, judge windows),
    lane and note conversion of parsed channels, long-note pairing, timelines.
  - `pattern/` — lane modifiers: mirror, random, R-random, cross, flip, battle,
    playable random, and the per-note shuffles (S-random, H-random, spiral, all-scratch,
    converge), each proved to move notes between the key lanes only; the per-note
    shuffles are also proved to keep the notes of a chord on distinct lanes and off the
    lanes that held long notes occupy, S-random,
    H-random and converge to put each note on a lane rested for the threshold whenever
    enough lanes that no long note holds are (and otherwise on the lane hit longest
    ago), converge to prefer the rested lane with the longest run of repeated notes, S-random playable to put the notes of a three-to-six-note chord
    of the nine-button mode on one button set without impossible chords whenever one has
    enough rested lanes, and playable random to pick an arrangement with no impossible
    chord whenever one exists.
    `heap_order` holds the proof that its search visits every arrangement.
  - `play/` — judge windows and judging, combo and score, clear types.
  - `replay/` — key logs, their compact encoding (gzip and base64), recording,
    playback, ghost data and replay slots.
  - `render/` — display-side state: background image layers, lane covers, BMFont
    parsing, font bookkeeping.
- `app/` — the parts around the library: reading chart, replay and font files, turning
  the parsed chart into notes, and the computations done in floating point (timing,
  gauges, rates, lane covers in screen units, glyph rasterizing).
- `tests/` — tests of the library.

Calls into outside crates (rand, flate2, base64, ab_glyph, encoding_rs, bms-rs) sit behind
small trusted wrappers whose contracts say what the library relies on.
