# component_translations

Reads an Angular application's sources and reports, per component, the
translation keys it uses, and, per route of a chosen routing module, the
components that route shows.

- `src/` is the verified library (Verus):
  - `strings.rs`: splitting, joining and trimming text, modelled over `Seq<char>`;
  - `patterns.rs`: the regular expressions and the calls into `regex` and `pcre2`;
  - `component.rs`: source files, their kind, declared name, translation keys
    and referenced components, and the collection of components by name;
  - `structure/route.rs`: reading route lists into a route table;
  - `structure/utilities.rs`: file extensions, capture groups, selector names;
  - `structure/mod.rs`: the whole application structure;
  - `utilities.rs`: helpers over lists of components;
  - `route.rs`: the route types, also reachable at the top of the crate.
- `app/` is the command-line program: it walks the source tree, reads the
  files, runs the library and writes `component_translation_keys.json`.
- `tests/` runs the library on concrete sources.
