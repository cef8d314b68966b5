# carbonyl

The terminal side of a Chromium-based browser that runs in a terminal, with
its behaviour stated in Verus contracts and proved.

## Layout

- `src/` — the verified library:
  - `gfx`, `cell`, `input`: colors, sizes, terminal cells, key presses and
    the actions sent back to the browser.
  - `vimium`: the vimium-style keyboard layer (scrolling, history, find,
    link hints) as a state machine, `key_step`.
  - `renderer`: the cell grid — text and background drawing, the navigation
    bar, the keyboard overlay (find highlights, hint labels, status bar, all
    snapshotted so that the next frame can undo them) and the diff of what
    must be repainted.
  - `find`, `hints`, `overlay`: what the overlay shows, as spec functions of
    the grid: find matches, hint candidates and labels, the status bar.
  - `graphics`: the kitty graphics protocol encoder (BGRA to RGB, base64,
    chunked inline transfer or a temp file, tmux passthrough).
  - `adblock`: the host blocklist (parsing, sorting, suffix lookup) and the
    decisions of the filtering proxy.
  - `cli`: command-line and environment switches.
  - `text`, `unicode`: character-sequence helpers, and the grapheme and width
    tables of `unicode-segmentation` and `unicode-width`.
- `app/` — what stays outside the proofs: environment variables, sockets and
  threads of the proxy, temp files, stdout, and the floating-point geometry
  and number parsing.
- `tests/` — tests of the library on concrete values.
