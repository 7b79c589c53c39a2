# graph-lib

Headless directed dataflow graphs for a node editor, verified with Verus.

## Layout

- `src/` — the verified library.
  - `model.rs`: the pin-level graph (nodes with typed input and output pins, links from an
    output to an input), with its invariants and the rules of `connect`.
  - `eval.rs`: dependency order of the nodes (Kahn's sort, fully characterised by
    `Graph::is_kahn_order`), values flowing along links, and the `Executor`.
  - `order_laws.rs`: the shape of the sort's result determines it.
  - `semantic.rs`: the node-level semantic graph (edges between ports of nodes).
  - `snarl.rs`: the editor view (`egui_snarl::Snarl`) as seen by the library: its cells and
    wires, and the calls into it.
  - `bridge.rs`, `editor.rs`: keeping a graph and its view in step, both ways.
  - `workspace.rs`, `shell_viewer.rs`, `view_state.rs`, `shell_state.rs`, `canvas_state.rs`,
    `style.rs`, `default_node.rs`: the editor's state, tabs, interaction modes and style values.
  - `id_map.rs`, `ids.rs`, `text.rs`: id-keyed maps, identifiers and messages.
- `tests/` — tests of the library, run against the real `egui_snarl`.
- `app/` — a headless playground: demo graphs, a float-valued evaluator, JSON snapshots.

Positions are stored as the bit patterns of their coordinates; the library never computes
with them, and hands them to the view bit for bit.
