# glaze_layout

The layout logic of a tiling window manager, written in Verus and proved
against its contracts: the container tree (monitors, workspaces, split and
tabbed layouts, tiling and floating windows), the persistent side areas of a
monitor, window states, focus and movement, configuration matching, and what
a configuration reload asks of the platform.

Layout:

- `src/` — the verified library. `tree.rs` holds the arena of containers and
  its well-formedness (`wf`); `attach.rs`, `splits.rs`, `tabs.rs` and
  `moves.rs` the edits of the tree; `side_areas.rs`, `monitor_ops.rs` and
  `reload.rs` the monitor-level operations; `matching.rs` the match
  conditions, which call the `regex` crate through small trusted wrappers.
- `tests/` — tests run against the compiled library.
- `app/` — ordinary Rust around the library: reading the workspace list of a
  configuration file with `serde_yaml`, which is why `serde` and
  `serde_yaml` are dependencies of the package; applying a reload; and the
  loop that runs a window's rules, in which the library runs the layout
  commands (`rules.rs`) and decides when a rule waits or the run stops,
  and the window manager runs the other commands.

Verify with Verus on `src/lib.rs`; the tests run with `cargo test`.
