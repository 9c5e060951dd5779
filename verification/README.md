# Context Pack vocabulary and compiler stages, verified

A Verus library for the Context Pack: the closed vocabularies a pack is written in, the
omission manifest and the closed accounting it is read off, the stages that slice a causal
order down to a justified selection, the independent checks that audit those stages, and the
refusals a root pack meets before it is written.

Every executable function in `src/` carries a `requires`/`ensures` contract. Verus proves
each one but a single trusted wrapper: `json::push_char`, which appends a character through
std's `String::push` and whose contract is what std documents for that call. Properties that
relate several functions are stated as public proof functions whose names begin with `law_`.

Not in this library: writing whole pack documents (a root pack, and the child an expansion
derives from a parent document), their content identities and handles, the byte-budget packer
that measures candidate documents, the assurance block, the minimality transcript's content
digest, and the stage-by-stage record a compile keeps. Their bytes depend on a content hasher,
a parsed document value, artifact handles, the answer header's own encodings and the stage
vocabulary, none of which the library holds. The library keeps the decisions around them: the refusals a root
pack meets before it is written, the manifest it publishes, the profiles, the expansion
question, and the arithmetic of the budget's prefix search over measured lengths.

## Layout

- `name.rs` — canonical identifiers, sets of them, families of sets, and maps keyed by them.
- `text.rs`, `json.rs` — string helpers and the canonical JSON spelling of strings and integers.
- `selection.rs`, `guarantee.rs`, `expansion.rs`, `omission.rs` — the closed vocabularies,
  the expansion query, the omission record and the manifest.
- `accounting.rs`, `budget.rs` — closed accounting over a candidate set, and the byte budget.
- `causal.rs`, `compile.rs` — the causal order, its backward closure, and the first stage group.
- `property.rs`, `monitor.rs`, `dependence.rs` — property-directed filtering, its independent
  monitor, and the admissibility of source and model items.
- `proof_slicing.rs`, `observer.rs`, `scope.rs`, `correspondence.rs` — the third stage group:
  proof slicing's premise, observer scoping and its independent audit, and the correspondence
  mapping's premise.
- `minimality.rs` — minimality classes, bounded subset search and the search transcript.
- `pack.rs` — the root pack's input refusals, its published manifest, the pack profiles, and
  redaction stubs.
- `event.rs` — the role an event plays in the causal core.

## Tests

The tests under `tests/` run the library as ordinary Rust, on the scenarios its contracts
describe.
