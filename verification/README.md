# domaingrep

Bulk domain availability search across every TLD, with the search logic
verified by Verus.

- `src/` is the verified library: input parsing, TLD ordering and filtering,
  domain-hack detection, the bitmap cache format, DNS wire encoding, the
  lookup slab, the timing wheel and the resolve state machine, output
  rendering and the composition of a run's report. Each public function
  states its result in its contract; the laws that relate several
  functions are public proof functions next to them.
- `app/` is the program around it: the command line, the environment, the
  disk, HTTP, UDP sockets and the event loop that drives the resolve state
  machine. Run under the name `cache-builder`, the same executable builds
  the cache.
- `tests/` runs the library on concrete values.
