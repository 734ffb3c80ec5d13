# NeuraRank Index

Approximate nearest-neighbour search over a similarity graph, verified with Verus.

- `src/` is the library. Verus proves the contracts of its functions, but for those of the four calls
  into other code named below.
  - `scalar`, `arith`: single-precision numbers by their bits, and the operations that round them
  - `vector`, `symmetry`, `vector_laws`: inner products and cosines, when the order of the vectors
    does not matter, and what holds of them without rounding
  - `fingerprint`, `lcg`, `hasher`: fingerprints and the pseudo-random planes that give them
  - `ids`, `ranking`, `parallel`: sets of identifiers, rankings, work handed to threads
  - `config`, `node`, `index`, `laws`: the index, insertion, and what every operation keeps
  - `search`, `search_laws`, `recall_laws`: the walk over the graph, the answers, and what is sure to
    be among them
  - `upkeep`: deletion and compaction
  - `pagerank`, `pagerank_laws`, `rerank`, `computed_ranks`: centralities by power iteration
  - `rounding`, `rounding_laws`, `rank_rounding`: what single precision promises, and how far what is
    computed by it can be from the exact result
  - `stats`: figures on an index
  - `storage`: an index as bytes
  - `baseline`, `service`: exhaustive search and recall; defaults of a served index
- `app/` is the program: a benchmark, an HTTP server (argument `serve`) and Python bindings. It
  supplies the machine's arithmetic and reads and writes files.
- `tests/` runs the library with that arithmetic.

Contracts say what holds whatever the arithmetic rounds to. Under `faithful`, which says no more
than that each operation gives one result for each argument, they fix the whole result as a formula
over those operations. The laws on sums, lengths and ranks are proved for the same formulas over
the real numbers, and then, with bounds on the error, for operations that give the exact result
rounded to single precision.

Trusted, because they are calls into other code: `u128::count_ones`, rayon's parallel map, and
bincode's `serialize` and `deserialize`. Of the text of bincode's errors nothing is claimed.
