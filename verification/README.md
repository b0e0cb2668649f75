# chrommydoggymommy

An overengineered test runner for sorting programs: each program is run many
times on shuffled port boards, the number of swaps it needs is counted, and
the counts are kept in checkpoint files.

The library under `src/` is verified with Verus:

- `endian`, `frame`, `checkpoint_file`: the byte layouts (length-prefixed
  messages on the pipes, the versioned checkpoint file) with their
  round-trip proofs;
- `counts`, `stats`: frequency maps, their totals, sums and order
  statistics (quartiles);
- `checkpoint`, `digest`: the checkpoint model, merging, recording runs,
  the SHA-256 key of a program;
- `planning`, `supervisor`, `worker`: how the server cuts work into jobs and
  what it decides on each report and message;
- `client`, `structs`: the port board a program sorts, the child's job
  bookkeeping, and the messages.

`app/` holds the program around it: argument parsing, files, processes,
the Python interpreter, progress bars and rkyv serialisation.
