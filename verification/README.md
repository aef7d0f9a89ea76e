# cadscene

The float-free core of a CAD scene viewer, written in Verus: every public
function in `src/` carries a contract that Verus proves, and the private
helpers they call are verified with them.

Maps keyed by names (the font registry, the shape table of a font) are kept as
vectors of `(key, value)` pairs with a first-match lookup: with `String` keys a
`HashMap` can be called from verified code, but nothing useful about its
contents could be proved.

- `quadtree` — spatial index of entity boxes keyed by handle (integer boxes),
  with laws relating insert, remove, update and rectangle queries.
- `lff`, `fonts`, `text_codes` — the LFF stroke-font format (parsing, glyph
  references), font registry with aliases and fallbacks, and the text control
  codes (`\P`, `%%d`, under/overlines) of a text run.
- `snap` — object-snap mode state and object-tracking dwell.
- `layouts`, `paper`, `ownership` — layout tabs, the block record of a layout,
  paper-space viewports, block ownership of entities, new block names.
- `selection`, `props` — selection sets, groups, quick select and the
  property texts it compares.
- `layers`, `arrows` — what an entity inherits from its layer or its insert,
  dash-pattern sources, and dimension arrowheads.
- `render_mode`, `viewport`, `lod` — render-mode flags, camera-pose hashing,
  level-of-detail tables.

`app/` holds the unverified side: conversions from `acadrust` and `glam`
values, and the floating-point stages (glyph geometry, text placement, entity
styles, LOD thresholds). `tests/` runs the library on concrete values.
