# the_factory

The game logic of a factory-building simulation, verified with Verus, and the
Bevy game around it.

- `src/` — the verified library: item maps and inventories, item transfers,
  recipes and crafting, building definitions, placement rules, construction
  and material supply, the building network, power and compute, operational
  status, progressive map exploration, and the texts the interface shows.
- `tests/` — tests of the library on concrete values.
- `app/` — the game: Bevy plugins and systems that hold the library's values
  as components and resources, load the RON content files from `assets/`,
  draw the map, and do what needs floating point (screen coordinates, timers,
  ore noise).
