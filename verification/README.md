# focal-desk

A slot-based window layout service for a large desk display: every
manageable window gets one of twelve home slots around a central focal
stage; a tap on a window's frame promotes it to the stage, a drag moves it
to another slot, and wires between related windows are routed through the
gutters.

The decision-making core is a library verified with Verus; the program
around it talks to Windows and does the floating-point geometry.

## Layout

- `src/` — the verified library
  - `engine.rs` — the promotion state machine: one event in, commands out,
    with the laws it keeps (homes survive promotion, a drag swaps two
    homes, nothing is placed while the layout is frozen for an overlay, …)
  - `config.rs` — the configuration model and the config-file parser,
    specified line by line (comments and trailing blank lines change
    nothing)
  - `layout.rs` — slot ids, names, groups and the center-out order
  - `glob.rs` — case-insensitive wildcard matching, where `*` stands for
    any run of characters and everything else, a `*` in the text too, for
    itself
  - `gesture.rs` — what a press on a frame becomes: tap, drag, drop
  - `service.rs` — the service's own decisions: foreground changes, the
    dwell timer, rescans of the window list, notifications
  - `wires.rs` — the routing grid, breadth-first search (sound, complete,
    shortest), lane bookkeeping and path simplification
  - `window.rs` — which top-level windows are managed
  - `paint.rs` — the premultiplied pixel buffer
  - `number.rs`, `text.rs`, `wide.rs` — numbers, characters and UTF-16
- `tests/` — tests of the library
- `app/` — the program: Win32 adapter (Windows only), pixel geometry,
  frame rasterizer, flight animation, and a headless demo elsewhere
