# cozo_hnsw

A hierarchical navigable small-world (HNSW) vector index whose graph logic is
verified with Verus.

- `src/` is the verified library:
  - `key.rs`: node and row keys, and the order keys that stand for distances
    (every NaN is the greatest key);
  - `table.rs`: an association table with distinct keys, viewed as a map;
  - `queue.rs`: the priority queue of the `priority-queue` crate, specified by
    the map from items to priorities that it holds;
  - `relation.rs`: the index relation (graph rows, the conflict-detection row,
    quantization codes and the stored codebook);
  - `search.rs`: the search of one level, neighbour selection and the
    nearest-neighbour query;
  - `index.rs`: insertion, link shrinking, repair after deletion, removal, and
    the indexing of whole base rows;
  - `pq.rs`: product-quantization encoding, training checks and sampling.
- `app/` holds what the library cannot: vectors and their floating-point
  distances, random level drawing, k-means training, and the serialized
  codebook, around an in-memory base relation.
- `tests/` exercises the library on small integer point sets.
