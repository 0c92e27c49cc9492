# smds

Secure multi-party dedup-ranking (SMDS): every user holds a list of values,
and each value is to be replaced by its dense rank among the distinct values
of all users. The library holds the data model, the plaintext reference
ranking, the seeded masks and permutations of the offline phase, the
polynomial whose roots are the distinct values, a two-party homomorphic
encryption interface with a local reference backend, the protocol pipeline
and the benchmark scenarios. Their contracts are proved with Verus.

Layout:

- `src/types.rs`: protocol types and the index permutation.
- `src/bignum.rs`: arbitrary-precision integers; the arithmetic is done by
  `num-bigint` behind small trusted wrappers.
- `src/backend.rs`: the encryption interface and the local backend
  (arithmetic modulo 2^127 - 1).
- `src/crypto_utils.rs`: deduplication, seeded sampling, polynomial product
  and the root polynomial.
- `src/order.rs`: sorting and the ascending list of distinct values.
- `src/engine.rs`: dense ranks, masks, permutations, the protocol engine and
  benchmark reports.
- `src/bench.rs`: benchmark scenarios built from a list of prices.
- `src/server.rs`, `src/user.rs`: the two sides of the protocol.
- `src/cli.rs`: the command line's scenario and backend names.
- `app/`: the command-line program: reading the price column of a CSV file,
  printing reports as JSON.
- `tests/`: scenario tests and tests of the contracts on concrete values.

Verify with `verus` on `src/lib.rs`; the tests run with `cargo test`.
