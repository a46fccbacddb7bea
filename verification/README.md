# comet

A garbage-collection toolkit whose heap-management logic is verified with
Verus.

- `src/` is the verified library: the mark-and-sweep heap (`heap`), the
  generational collector (`minimark`), the copying collector (`semispace`),
  Immix blocks, lines, chunks and spaces (`immix`, `immix_space`,
  `immix_alloc`) and the Immix collector that marks the lines of the objects
  it keeps (`immix_heap`), bump-pointer spaces and thread-local buffers
  (`bump_pointer_space`, `tlab`), the card table (`card_table`), size
  classes (`size_classes`), object headers (`header`), allocation counters (`allocation_config`), and the
  collections that live on the heap (`vector`, `string`, `str`, `array`,
  `hash_map`). Objects are named by the index of their slot; each collector
  states what survives a collection in terms of reachability from the roots.
- The collectors are stated over a model of the heap that is simpler than
  raw memory: objects live in numbered slots; the generational collector
  promotes nursery survivors in place rather than copying and forwarding
  them (the copying collector does renumber what it copies); there is no large-object space, and old-generation bytes
  are the sum of the surviving objects' sizes; finalizing a dead object is
  dropping its payload; and the collection types keep their elements in
  ordinary vectors rather than in heap storage behind write barriers.
- `app/` is a small program that runs allocation workloads on these heaps,
  maps memory for an Immix space, and computes the floating-point growth and
  threshold factors that the library takes as integers.
- `tests/` exercises the library on concrete values.
