# kjr_browser

A small browser engine written to learn how a page gets from text to pixels,
with its logic verified by Verus.

```
HTML ─ html ─▶ DOM ─ style (with css) ─▶ styled tree ─ render ─▶ steps
     ─ (app) layout and paint ─▶ display list ─▶ pixels (pixels) ─▶ screen
```

## Layout

- `src/` — the verified library.
  - `chars`, `cursor`, `strmap`: characters, a reading cursor, a string-keyed map in insertion order.
  - `dom`, `html`: the DOM tree and the HTML parser (recursive descent, whitespace collapsing).
  - `css`: the CSS parser (selectors, specificity, values, colours).
  - `style`: selector matching, the cascade (origin, then specificity, then order) and inheritance.
  - `render`: what a styled tree draws, block by block, in order (`render_steps`).
  - `pixels`: glyph blending into an RGBA image and packing it for the window.
  - `tabs`, `url`: the tab bookkeeping of the browser window and the address bar rule.
- `tests/` — tests of the library.
- `app/` — the programs around it: the engine's window (winit, softbuffer,
  tiny-skia, fontdue), where positions and sizes are floating-point pixels, and
  with `--browser` the tauri shell with its toolbar commands and web views.
