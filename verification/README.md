# echo

A replay buffer between many producers and one consumer, verified with Verus.

Producers send samples, each a fixed set of arrays, over TCP or from within the
process. The samples go into a ring of slots, and the consumer takes them out a
whole batch at a time without copying them.

- `src/` is the library. `store` is the ring with its cursors, `selector` picks
  what is sampled and released, `ingress` holds the per-connection queues and
  the drainers that empty them, `transport` the wire protocol, `metrics` the
  counters and timing histograms, and `host_pinning` how a CUDA runtime is found
  and the ring's memory page-locked with it. `protocol` states what every step
  of writers and consumer keeps, and `runs` what follows for any number of steps:
  samples come out in the order in which they went in, unchanged, and a batch
  stays as it is while the consumer holds it. `sampling` does the same for a
  sampler on its own.
- `app/` is the Python module around the library: threads, tasks, sockets, numpy
  views and the calls into the CUDA runtime. The library's types are driven
  through exclusive references; `app/` shares them behind locks, does the
  waiting, and passes on the wake-ups that the library asks for.
- `tests/` runs the library on concrete values.

The functions in `clock`, `hist` and the head of `ingress` that call other
crates or the standard library carry contracts that are believed, not proved;
their comments say what is claimed.
