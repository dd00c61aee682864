# functus

A categorical intermediate representation for APIs, verified with Verus, and an
OpenAPI v3.0 frontend that builds it.

- `src/object.rs`, `src/morphism.rs`, `src/effect.rs`: objects (scalars, products,
  coproducts), morphisms (primitive, identity, composed) and effect stacks
  (`Async`, `Fallible`).
- `src/category.rs`: the category, with registration, identities and composition.
  Its objects and morphisms are held in `Vec`s in order of registration, with
  distinct identifiers as part of its type invariant, in place of maps keyed by
  identifier: Verus can reason about a sequence with distinct keys, and not about a
  map keyed by strings or by the library's own identifier types;
  every operation is specified over a mathematical view (`CategoryView`) and keeps
  it well formed.
- `src/law_checker.rs`: read-only checks (composability, coverage of a coproduct).
- `src/laws.rs`: the laws of the representation, proved: associativity of
  composition (for three morphisms and for chains of any length), identities as
  units, effects as a monoid, caching of identities, lookups that persist through
  every operation, coherence of registered composites (part of `Category`'s type
  invariant, with well-formedness), coverage that only shrinks as morphisms are
  added, and the outcome of each check.
- `src/openapi/`: the frontend. `document.rs` reads YAML with `serde_norway` and
  `openapiv3` and copies what the frontend needs into a plain model (`model.rs`);
  everything after that is verified: named schemas (`components.rs`), inline
  schemas (`schema.rs`), parameters and request bodies (`params.rs`, `fields.rs`,
  `content.rs`), responses (`responses.rs`) and operations (`route.rs`). The
  frontend's laws are in `openapi/laws.rs` and `openapi/acyclic.rs`.
- `app/`: `Display` and `std::error::Error` for the library's errors and
  identifiers, through copies of those types.
