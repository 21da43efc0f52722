# sealant_capture

The executor-side half of a session capture store, and the control transport beside it, as a
verified library.

- `src/` is the library: what is packed, where it goes on the chain, what is shipped, registered,
  retried and refused, what a materialize writes and removes, when a snap is due, how frames and
  connections are handled. Contracts state it, and Verus proves them, but for the few functions that
  call outside crates and for what stores and services of other projects do behind the library's
  traits.
- `app/` is ordinary Rust around it: files, git, HTTP, TLS, threads and the serde forms of the
  library's types. It asks the library what to do next, does it, and hands back what happened.
- `tests/` exercise the library through its public functions.

What comes from outside crates (SHA-256, hex, content-defined chunking, zstd, JSON string quoting,
URL and PEM parsing) is reached through small functions whose contracts say what is relied on. The
SHA-256, chunking, zstd, URL and PEM results are named rather than spelled out, and contracts speak
of those names.

Laws that span several functions are public proof functions named `law_…`, next to the functions
that they speak of.
