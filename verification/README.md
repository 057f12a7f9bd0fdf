# daedalus

Streaming feature selection for VCD register data, with a core verified in
Verus.

- `src/` — the verified library:
  - `text`: character-level splitting, lines, trimming, lexicographic order,
    number parsing and bit counting, each against its mathematical model;
  - `register`: registers, observations and the stable sort by key;
  - `vcd`: reading the VCD header and value messages;
  - `feature`, `ufssod`: the running counts of each signal and the selector
    state that keeps them in key order;
  - `consumer`: what the stream consumer does with each poll result;
  - `invoke`: the `iverilog` and `vvp` command lines;
  - `cluster`: the integer bounds on the number of clusters.
- `app/` — the program: command line, Kafka consumer, threads, process
  spawning, and the floating-point statistics and clustering.
- `tests/` — tests of the library.
