# pane_layout

Binary split layout for the terminal panes of one window: a tree of panes and dividers, its
geometry in pixels, and the state of the window around it.

* `src/layout.rs`, `src/rect.rs`: the tree, how a split divides a rectangle, hit testing, dragging
  and focus movement.
* `src/window_context.rs`: what a window knows of its panes, how it takes mouse events and pane
  operations, and what it asks of display and terminals in return.
* `src/event_queue.rs`, `src/config_update.rs`, `src/display_update.rs`, `src/ref_test.rs`: queued
  events, configuration changes, scrolling when a search starts, recorded terminals.
* `src/single.rs`, `src/rounding.rs`: single-precision arithmetic by bit pattern. Every operation is
  proved to return the exact result rounded to nearest, ties to even.
* `src/laws.rs`, `src/window_laws.rs`, `src/rest.rs`, `src/moving.rs`, `src/exact.rs`,
  `src/tiling.rs`, `src/pointer.rs`, `src/ratio.rs`, `src/finite.rs`: what holds of several
  operations together. `src/pixels.rs` and `src/precision.rs` serve their proofs.
* `app/`: terminals, drawing and the event loop around the library.
* `tests/`: scenarios on concrete values; the arithmetic is compared with that of the machine.
