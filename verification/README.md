# flow_synth

A modular synthesizer editor. Modules (a printer, a counter, audio input and output, a
live-coding processor) sit on nodes of a dataflow graph; their ports are wired together in a
window by clicking on jacks, and each module runs as a task that moves data through the
graph's connections.

## Layout

- `src/` is the library, verified with Verus:
  - `flow` — the dataflow graph: nodes, ports, one-to-one connections, and the byte queues
    that carry data from one end of a connection to the other;
  - `menu` — pop-up menus: hover state, the opening and closing of sub-menus as the
    pointer moves, and what a click selects;
  - `connect` — jacks and the wires between them;
  - `event`, `button`, `textbox`, `module_gui`, `root` — the user interface's components
    and the decisions of the editor's root;
  - `gui` — the editor's model: the graph and the stacking order of its nodes;
  - `save` — which connections a saved project records;
  - `debug` — the counter module's arithmetic;
  - `round` — the rounds of stages that the modules' tasks repeat.
- `app/` is the program around it: the window and its event loop, geometry and layout in
  floating point, the modules' tasks, audio through JACK, and the project file.
- `tests/` runs the library on concrete values.
