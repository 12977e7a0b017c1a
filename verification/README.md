# mission_core

Finds the security code of the longest mission with a given destination and
status in a noisy, pipe-delimited space mission log, and carries the pieces
that a host program and a WebAssembly skill share.

The library under `src/` is verified with Verus:

- `text` — whitespace (Unicode `White_Space`), trimming, splitting on a
  character, prefixes and the line breaking of `str::lines`, each defined
  over character sequences and implemented over ranges of a character vector.
- `number` — reading `i64` and `u32` as `str::parse` does, and writing `i64`
  in decimal; reading back what is written gives the same number.
- `mission` — `parse_line`, `find_longest` and `Best::encode` / `Best::decode`,
  with the selection rule (the first of the longest matching missions) and the
  encode/decode round trip proved.
- `skill` — what the skill answers for the bytes of a log and a filter, the
  packing of a result buffer's address and length into a `u64`, the layouts of
  its allocations, and the proof that the host decodes from the skill's answer
  what `find_longest` finds natively.
- `host` — the command line, and how the host reads the skill's packed answer.
- `run` — one run of the skill from the host's side, as a state machine from
  state and event to next state and action: allocate and write both inputs,
  call `analyze`, free both inputs whatever it did, read the result when it is
  not empty and free it with its length (or 1 for the empty placeholder); with
  the proof that a run without failures ends with what `find_longest` finds.
- `bench` — minimum, median, mean and maximum of benchmark timings.

`app/` holds the program around it: file reading, argument collection, the
wasmtime runtime that performs each action of a run and reports the event, the
skill's raw-memory ABI (building the allocator's `Layout` from the library's
`BlockLayout`), and printing.
