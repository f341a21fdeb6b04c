# ahc_solvers

Solvers for a series of heuristic optimisation contests, written in Verus:
the search states, candidate moves, hashes, beam searches and greedy
constructions carry `requires`/`ensures` contracts and are proved by Verus.

## Layout

- `src/` — the verified library, one module per contest:
  - `a`, `ahc038`: a robot arm that moves takoyaki on a board (arm shape,
    reach tables, candidate turns and what carrying them out does, state
    hashes, beam search);
  - `ahc039`: a polygon on a grid that encloses mackerel and avoids sardines
    (local flips, perimeter and score changes, outline tracing);
  - `ahc040`: packing boxes in rows (placements, candidates, beam search,
    planning measurements and fitting box sizes to noisy measurements);
  - `ahc041`: decorating a graph with rooted trees of bounded height (greedy
    forests, subtree values, the moves of an annealing);
  - `ahc042`: shifting pieces off a board (candidates and their hashes, the
    pieces that every allowed shift keeps);
  - `ahc043`: railway plans (breadth-first and best-first searches, routes,
    rail pieces, operations);
  - `ahc045`: grouping cities (integer geometry, union-find, Kruskal's
    forests, neighbour masks);
  - shared: `coord`, `grid`, `text`, `sorting`, `rng`, `fxset`, `words`
    (the new words of a random stream, arranged into hash tables).
- `tests/` — tests of the library on concrete inputs.
- `app/` — the programs: input and output, time limits, random draws with
  floating-point probabilities and the floating-point estimates, calling the
  library for the rest.
