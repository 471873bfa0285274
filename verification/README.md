# stromadb

A knowledge-graph store whose core is verified with Verus: an append-only changelog with a checksummed
write-ahead log, a fold of the writes that does not depend on their order, source or repetition,
snapshots that reads work on, declared rules kept up to date, and vector search with a quantized
index.

- `src/` is the library. Every function states its result over a mathematical model; laws that relate
  several functions are public proof functions named `law_*`.
- `tests/` runs the library on concrete values.
- `app/` is the command line around it: files, floating-point kernels, the store and the server.

Floating-point numbers are held by their bits. What is computed of them (distances, scores, centroids)
is handed to the library as functions or as tables.
