# rbonsai

Procedural bonsai trees for the terminal.

- `src/bonsai/` — the growth rules: how a branch moves (`utility::set_deltas`),
  which glyph and colour it leaves (`choose_string`, `choose_color`), and the
  recursive growth of trunk, shoots and dying branches. `grow_tree` roots the
  trunk on the row below the terminal, where it stops at once, so the tree it
  returns is always empty. Random
  draws come from `rand`'s `StdRng` through `bonsai/rng.rs`; every rule that
  depends on a draw is also offered as a function of the draw itself.
- `src/display.rs` — the layout around the tree: message box size and line
  wrapping, the position of the pot, and the key-press rule.
- `app/` — the terminal program: options, crossterm drawing, timing.
