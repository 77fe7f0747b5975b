# Tetra Master adviser

An adviser for the Tetra Master card game of Final Fantasy IX: mirror the
board and your hand, and it recommends a move found by a minimax search with
alpha-beta pruning.

The library under `src/` is written in Verus and proved against its contracts:

- `card` – cards, arrows and the battle rule; `notation` – reading cards in
  the `XTYY BBBBBBBB` notation; `text` – number formatting.
- `board` – the 4×4 board, placing a card with battles, counterattacks and
  chains, and its laws (only owners change, one card is added, the cells add
  up to sixteen); `capture` – what a placement without counterattacks wins.
- `solver` – the minimax value of a position, the alpha-beta search (proved
  to return that value with a full window), the fixed-depth search
  `search_to_depth` and the time-boxed iterative deepening of `best_move`,
  which keeps the move of the deepest search that finished.
- `tui` – the adviser's state and what each key press does; `state`,
  `history` – the data that is saved and recorded.

`app/` holds the program around it: the terminal screen (ratatui,
crossterm), the save file (serde_json), the history database (rusqlite) and
the floating-point battle odds.
