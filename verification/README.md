# vrp

Package delivery over a rail line: stations joined by weighted edges, trains
with a capacity and a current station, packages with a weight, a start and a
destination. The search sends the nearest able train to each package in name
order, walks it along the line, and records every move it makes.

The library under `src/` is written in Verus; every function carries a
contract over a mathematical model (sequences, maps, spec functions) and is
proved against it. It has no trusted functions of its own: the only
unverified ground is Verus, vstd and vstd's specifications of the std functions
it calls (`String`, `Vec`, string slices).

- `text`, `textmap`, `digits`: character-sequence order, small keyed maps,
  decimal rendering of numbers.
- `package`, `train`: packages, their tracker and collection; trains and the
  load they carry.
- `network`: stations, edges, the graph and its distance table.
- `timeline`: the time each train has travelled and the movement lines.
- `routing`: choosing the train, the direction and the walk along the line,
  and the whole search.
- `records`: loading and unloading records and the per-train capacity queries.

`app/` holds the command-line front end (argument parsing, output, buffered
reading), which the library does not need.
