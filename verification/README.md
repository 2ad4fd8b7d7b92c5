# imperium

A small life-in-a-kingdom simulation, written in Verus.

- `src/util` — bit sets, spans over string buffers, decimal text, the keyed generator.
- `src/entities` — ids with generations, names, tags, sets, per-entity stores, relations.
- `src/tabula.rs` — the data-file format: parser and node accessors.
- `src/game` — map and map text, calendar, world state, commands, routes, the tick,
  interactions, bootstrap from data, and what the UI and the map layer are handed.
- `src/ui` — element ids, the data a UI script binds against, tokenized texts and
  their interpolation.
- `app/` — the window, files, input, clock, dice odds and drawing.
- `tests/` — tests of the library, run against the real outside crates.
