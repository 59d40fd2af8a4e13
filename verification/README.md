# benchmark_games

A verified library for three benchmark games and the observer that records
agents playing them.

- `src/sokoban`: levels, the push engine, sessions and the command names.
- `src/sausage`: the sausage-rolling puzzles: the binary campaign format,
  state records, fractions and occupancy, the physics world, the engine's
  readings of it and some of its steps (input plans, ladders, floors,
  supports, grills, cooking, ticks that carry the exit, movements with their
  attachments, turning over, turning back, spearing, dropping and picking up
  the fork, hats, pushes with what they push and carry, passive forces and
  twists), replays, oracle walkthroughs, the gzip and tar archives of
  the campaign, entry states and walkthrough, and what a session shows.
- `src/swarm.rs`: the swarm-farming client's request planning and HTTP
  response decoding.
- `src/observer`: identifiers, level ordering, scoring, run summaries (the
  live console's view of a run, built from its journal rows), replay
  projection, the run index's decisions and the storage rules.
- `src/server.rs`: the game servers' URL, query, event-window and route
  decisions.
- `src/text.rs`: character-level helpers.

`app/` holds the file and network edges; `tests/` the tests.

The engine's pushes and passive forces keep the world well formed and within
the range its 32-bit and 64-bit arithmetic handles; where a check of that
range fails they report an error instead of computing on. Nested pushes carry
a depth that turns a recursion with no end into an error.
