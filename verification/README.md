# datagen

A test-data generator and judge engine for programming-contest problems,
written in Verus. The library states what each generator and rule does in
`requires` / `ensures` contracts and Verus proves them.

Layout:

- `src/` — the verified library
  - `types.rs` — configuration and result types
  - `config.rs` — validation of a test configuration
  - `orchestrator.rs` — field ordering by dependencies, scalar and field generation, output text
  - `gen/` — the generators: number theory (modular arithmetic, factorisation,
    primes, primitive roots, CRT), combinatorics (permutations, combinations,
    derangements, partitions, with a proof that there are `!n`
    derangements of `0..n`), graphs (Prüfer trees, random / connected / DAG /
    bipartite graphs) and uniform integers
  - `native.rs` — decisions around compiling and running solutions
  - `server.rs` — request handling rules of the HTTP front end
  - `rng.rs`, `text.rs` — the calls into `rand` and std formatting
- `app/` — the program around the library: the HTTP server, process
  execution, floating-point distributions and serialisation
- `tests/` — tests of the library
