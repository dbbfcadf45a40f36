# psi_sa

Structure-aware private set intersection (PSI) for points in a
D-dimensional grid, with the computations of each party stated as Verus
contracts and proved.

`src/` is the verified library:

- `geometry`, `universe`, `origins`: re-expressing a point in the `2^D`
  universes that cover its neighbourhood, the prefixes that the interval
  comparison functions evaluate, the grid origins of test data;
- `cuckoo`: cuckoo and simple hash tables addressed by SHA3-256 location
  functions with AES-derived keys;
- `sa_psi`: the receiver's binning and the tags it sends per bin;
- `oprf_f2k`, `oprf_fp`: the oblivious PRF over GF(2^128) and over the STARK
  prime field (masking, coin commitment, outputs, Merkle commitment check,
  consistency equation, intersection);
- `vole_triple`, `lpn`, `base_svole`, `field`: buffer management of the
  VOLE-triple generator, the LPN parameter sets, the base sVOLE consistency
  check, and prime-field arithmetic;
- `crypto`, `bytes`: the hash functions, block cipher and byte layouts.

Calls into `sha3`, `blake3`, `aes`, `rand` and `lambdaworks-math` go through
small trusted wrappers whose contracts are stated next to them.

`app/` holds the command-line benchmarks and the network drivers that run the
protocols between two parties; `tests/` exercises the library on concrete
values.
