# ⊤OPP⊥E

A two-player game on a boolean formula: players take turns assigning an atom
⊤ or ⊥, the board rewrites itself by the boolean laws, and the side whose
constant is left standing wins.

The library in `src/` is written in Verus and verified:

- `formula`, `laws`, `game` — formulas, the rewrite laws and their cascade
  (shrinking, equational, confluent), moves.
- `solve` — the perfect-play solver with its memo.
- `rng`, `gen`, `puzzles` — the seeded generator, the dealer (which serves
  the first tense board among its candidates, and a merely playable one
  should all of them miss), the daily gauntlet and its share codes, the
  puzzle book; `worked` plays out the book's first puzzle, the worked
  example of the rules, to show it sound.
- `online`, `save` — the match wire format and the save blob.
- `round`, `app`, `input`, `calendar` — one round with its move animation,
  the screens of the app (what each press does, what each tick of the clock
  does, what each screen shows), the pad repeater and key maps, dates.
- `fb`, `theme` — the 640×480 frame, its drawing primitives, the palette.

`app/` is a headless harness around the library: it drives the app with a
scripted string of button presses and waits and writes PNG frames, drawing
text with fontdue from the DejaVu Sans Mono fonts of the system.

`tests/` holds the tests.
