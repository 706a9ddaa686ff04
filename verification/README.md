# svg_layers

Composes SVG documents of shape trees, verified with Verus.

A vector canvas that writes SVG drops what is drawn inside a layer, and with it the opacity,
blend modes, blurs, masks and shadows of whole groups. This library composes the document
itself: it says what is to be drawn on which fragment, merges the documents of the fragments,
and turns the composite effects into native SVG groups.

An export takes two calls with the drawing between them:

1. `document::svg_fragments` lists the drawings of each fragment.
2. `document::render_to_svg` makes the document from what was drawn.

- `src/` is the library. Its contracts say exactly what each function returns; the public proof
  functions state laws of exports, such as that no id is defined twice where the fragments define
  theirs once and numbers and font rules define none.
- `app/` draws the fragments with Skia. It holds all floating-point numbers: the library takes
  them as they are written.
- `tests/` runs the library with the markup of small drawings.
