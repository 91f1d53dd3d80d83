# apecs

An entity component system whose storage bookkeeping is proved correct with
Verus.

- `src/` is the verified library: entity ids and their recycling
  (`entity`), archetype storage of components keyed by type
  (`archetype`, `components`, `bundle`, `query`), separated storages
  (`vec_storage`, `sparse`, `btree`, `range_store`), concatenations split
  for parallel work (`concat`, `par_groups`), joins of sorted streams
  (`join`, `tuple_join`), change tracking (`entry`, `tracking`), system
  results and the iteration clock (`system`), and thread counts (`world`).
  `laws` states the properties that relate several operations.
- `app/` is the runtime glue: keys for component types, rayon parallel
  iteration over range stores and concatenations, thread pools, and a world
  that runs systems on the library's iteration clock and applies lazy
  component changes between ticks.
- `tests/` runs the library on concrete values.
