# Magic square of squares

A search for a 3x3 magic square whose nine cells are distinct perfect
squares. Every cell is 1 modulo 24, every prime factor of a cell's root is
1, 5 or 7 modulo 8 (this filter can be switched off), and the magic sum is
3 modulo 72. The search walks the numbers in order, keeps the sums of two
squares that may become twice a center, and checks the pairs listed under a
center's double against five patterns of square cells.

## Layout

- `src/` is the library, verified with Verus:
  - `hashing.rs`: the integer hash that keys every table (proved one-to-one),
    its lane-wise form, and the identity-hashed maps and sets.
  - `shared_vec.rs`: the list of numbers recorded under one sum.
  - `magic_sums.rs`: the table of candidate numbers with their partnerships,
    and its pruning.
  - `graph_v2.rs`: building that table for one center, in four sweeps.
  - `graph.rs`: the partnership graph of a table, as a `petgraph` graph.
  - `matching.rs`: matching that graph against known patterns with `vf2`.
  - `patterns.rs`: the checks of patterns 2 to 6.
  - `primes.rs`: prime factorizations and Euclid's lemma, behind the prime
    filter.
  - `search.rs`: the residue classes, the prime filter, the sum tables, the
    queue of centers and the check of one pair of numbers.
  - `completeness.rs`: why the search is exhaustive: each step keeps every
    waiting center's list exactly the numbers that complete it, and a
    center's list is final when it is taken off the queue.
- `app/` is the program around it: the main loop with its threads, the
  checkpoint files, the rendering of graphs and the printing of what is
  found.
- `tests/` runs the library on concrete values.
