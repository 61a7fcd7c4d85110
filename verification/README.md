# ttp

A toolkit for the travelling thief problem, written in Verus.

- `src/text.rs`: splitting lines into words and reading integers, with the
  rules of `char::is_whitespace` and of the integer `FromStr` impls.
- `src/instance.rs`: points, items, squared distances, and the reader of the
  instance text format.
- `src/tsp.rs`: tours over the cities of an instance (in instance order and
  nearest-neighbour), the random local search step that swaps two cities, and
  the search for crossing edges that a 2-opt move shortens; with the lemmas
  that relate the recorded costs and changes to the tour length.
- `src/knapsack.rs`: the integer state of a knapsack that travels along a tour
  (remaining capacity, selection, weight carried at each position), and the
  steps that add or remove an item.
- `src/random.rs`: the random generator of the `rand` crate.
- `app/main.rs`: the solver program: input, floating-point travel costs and
  acceptance tests, and the search loops.
