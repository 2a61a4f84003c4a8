# ficus_backend

Process-mining core, verified with Verus: event logs and their
directly-follows information, the alpha and alpha+ discovery algorithms
producing Petri nets and the relations and sets the alpha++ (NFC)
algorithm works with, token replay of a log on a net
and arc annotations, log mutations (filtering, renaming, splitting into
variants), PNML output, and the supporting structures (interval tree,
suffix-tree texts, keyed user data, pipeline contexts, small sets and
graphs).

- `src/` is the verified library; every function carries a contract, and
  several laws that tie functions together (filtering, footprints, caches,
  user data, replay, the merging of alpha places, the interval tree's
  centre law) are public proof functions next to them.
- `tests/` exercises the library on concrete values.
- `app/` is a small command-line program around the library: it reads
  traces from its arguments, discovers a net, replays the traces, prints
  arc frequencies (floating point, so kept outside the library) and writes
  the net as a PNML file. It also holds the heuristic miner, whose
  dependency measures are floating point.
