# sycamore_mac

A rendering backend that shows sycamore templates in macOS windows.

- `src/` is the verified library. `node::MacTree` holds the nodes of a
  window (labels, views, buttons, text fields) and decides what each node
  operation does; `model` states those decisions over an abstract view of
  the tree; `equality` defines node equality and when comparing two nodes
  ends; `walk` bounds how deep an ending comparison goes; `depth` bounds the
  depth of nodes without cycles; `laws` proves how the operations combine; `emitter` keeps the handlers of a text field.
- `app/` creates the cacao widgets, activates the layout constraints the
  tree returns, runs event handlers, and implements sycamore's
  `GenericNode` and `render_to_mac` on top of the tree.
- `tests/` exercises the library on concrete trees.
