# raster

The core of a 2D game engine and its editor's bookkeeping, written in Verus:
each library function carries a contract that Verus proves. What a contract
says of a user's own types (actors, commands, components) holds only where
the type states its laws (`Actor::obeys_actor_laws`,
`Behaviour::obeys_behaviour_laws`, `Command::obeys_command_laws`); of the clock and of std's text functions it
says only what their documentation gives.

`src/` is the verified library:

- `actor`, `world`: actors of many types stored one pool per type, named by
  generational identifiers; spawning, despawning, typed and untyped access,
  iteration, clearing, per-type components.
- `asset`: asset identifiers (normalised paths), a project root that resolves
  them, a store that loads each asset once, and a watcher that tells which
  files changed between two sweeps.
- `input`: named actions, their bindings, and what a frame's input presses,
  holds and releases.
- `editor`: the undo history, the editor's shortcuts, the play session's
  decisions, the settings file kept between sessions, the asset browser's
  list and the scene view's selection.
- `reflect`: the kinds of reflected values and the refusals of reflected
  writes, with their messages.

`app/` holds what the library leaves to its caller: the disk (finding a
project, reading assets, listing its tree, stamping files, the settings file),
the clock, and the floating-point parts of the engine core (the fixed-step
frame loop, the time a game has run, buffered presses, coyote time, axes).

Some of the engine stands in neither part: the editor's window,
dock, inspector and console (they draw through UI and rendering crates not
available here), the scene view's geometry and the scene files (floating
point, and a TOML crate), the reflection registry and the editing commands
built on it (type-erased values holding floats), and the derive macro for
reflection. The play session keeps only its decisions: it says when a
snapshot is owed, and taking or restoring one is left to its caller.

`tests/` exercise the library from outside.
