# dioxus-flow

A node-graph component library for Dioxus (pannable, zoomable canvas,
draggable nodes, connectable handles, automatic layered layout), split into a
verified core and the user interface around it.

- `src/` is the core, written in Verus and proved against its contracts:
  - `types`: sides, handle keys, connections and edge ids;
  - `layout`: cycle breaking, longest-path ranks and barycenter ordering of
    the layered layout;
  - `ports`: the seats around a node's rim and how edge ends are seated on
    them;
  - `graph`: selection, deletion and new-edge ids over plain views of nodes
    and edges;
  - `gesture`: the pointer-gesture state machine of the canvas and what a
    scroll does;
  - `settle`: which overlapping frame gives way.
- `app/` holds the Dioxus components, the floating-point geometry, styling
  and timers, and calls into the core for every decision above.
- `tests/` exercises the core on concrete graphs and gestures.
