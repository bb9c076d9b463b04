# tri_boost_core

Gradient boosting with oblivious trees of at most three levels, each over at most
three raw features, so that a fitted model can be taken apart exactly into tables
of one, two and three features.

- `src/` is the verified library. It decides: how columns are binned and labels
  encoded, which rows and axes a round uses, which split wins, where a row falls,
  when a fit refines, refits and stops, how tables of several models meet on one
  grid, and what is refused, with which error. Floating-point numbers are held by
  their bit patterns; they are compared, ordered, copied and written in decimal,
  never added.
- `app/` holds what is left: sums, losses and leaf values in floating point, worker
  threads, and the types that are written to files. It follows the library's plans
  and hands back what it computed.
- `tests/` run the library on concrete values.

Random draws are functions of a base seed, a round, a stage and a block
(`backend::pb_seed`), so that a result does not depend on the number of threads.
