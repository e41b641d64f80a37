# htmlreader

Reads JSON data out of annotated HTML and renders such data back into an HTML
template. `dom_query` parses, edits and prints the documents; the library reads
a description of their nodes and decides, with proved contracts, what to
extract and which edits to make.

- `src/json.rs` – JSON values with objects kept in key order, their text form.
  `JsonValue` is the library's own model of a JSON value (objects as a `Vec`
  of entries sorted by key); its compact text, escaped as `serde_json` prints
  a value, is written and proved here, since the library's types carry no
  `serde` traits.
- `src/text.rs` – white space, trimming, prefixes.
- `src/dom.rs` – the document (`dom_query`) and the description of its nodes.
- `src/extract.rs` – what the `rmx-*` and `data-rmx` annotations give.
- `src/render.rs` – the edits that fill a template, planned per pass and made
  with `dom_query`.
- `src/sections.rs` – grouping page data into landing-page sections.
- `app/main.rs` – the command line (files, `serde_json` conversion).
