# nexovia

`genome` keeps one editable `nexovia.toml` that describes a project end to end —
its architecture, its components and the reason for each, and the policies that
keep it honest — and renders it to a static, read-only HTML report.

This crate is the verified core of that tool. Every function in `src/` carries a
contract; Verus proves all of them except four small trusted wrappers around
outside calls (`String::push`, `char::is_alphabetic`, `char::to_uppercase` and
pulldown-cmark's parser), whose contracts are believed, not proved.

- `src/json.rs` — the document model: JSON values whose objects keep key order.
- `src/resolve.rs` — composing a genome with the fragments it includes (base
  layers and policies under local overrides, each tagged with its origin).
- `src/validate.rs` — the governance checks: dangling links, provenance
  honesty, the architecture dependency rule, known enumerations, facet targets.
- `src/ingest.rs` — a markdown document turned into a design-first genome.
- `src/facet.rs` — the question and approval entries `ask` / `approve` append.
- `src/enrich.rs` — which blanks the offline model may fill, its prompt, when
  decoding stops and how its answer is cleaned.
- `src/render.rs` — the report page around the resolved genome.
- `src/cli.rs` — the command line and the validation verdict.
- `src/calendar.rs`, `src/text.rs` — civil dates and text utilities.

`app/` is the `genome` binary: reading and writing files, the clock, TOML
parsing and serialisation, and running the embedded model.
