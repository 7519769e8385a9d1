# api — verified core of a fraud-score service

The service scores a card transaction by the labels of its five nearest
references in a cluster-partitioned, quantized index:
`fraud_score = fraud_neighbors / 5` and the transaction is approved when the
score is below 0.6.

* `src/` is the verified library (Verus): the binary artifact of the index
  (`index/format.rs`), probe selection and the nearest-neighbour scan
  (`index/search.rs`), the two-pass index construction (`index/builder.rs`),
  little-endian encoding (`codec.rs`), labels and cluster ids
  (`reference.rs`), the integer features of a transaction (`features.rs`),
  configuration (`config.rs`), the fraud decision (`scoring.rs`), readiness
  decisions (`readiness.rs`) and ingestion batching (`ingestion.rs`).
* `app/` is the program around it: the HTTP server, file and network I/O,
  JSON, and the single-precision arithmetic (vectorization, quantization,
  bucketing and centroid distances).
* `tests/` exercises the library on concrete values.
