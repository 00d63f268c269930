# viewr-core

Verified core of a RAW photo viewer: prefetch planning, priority scheduling with
cooperative cancellation, the bounded persistence lane, JPEG cache objects that
decode in parallel, XMP rating updates that keep every other byte of an attribute
form and the content of any other form, and the journal that brings ratings
safely to their sidecars.

- `src/` is the library. Every item is verified with Verus; contracts speak of
  sequences, maps and mathematical integers, and public proof functions whose
  names start with `law_` state what holds across functions.
- `tests/` runs the library on concrete values, with the outside crates linked.
- `app/` is ordinary Rust around the library: threads, clocks, files, decoders,
  and the command line of the JPEG encoder comparison.

Where the library relies on another crate, a small function marked
`#[verifier::external_body]` makes the call, and its comment says what is
believed of it.
