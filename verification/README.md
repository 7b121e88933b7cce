# scoreboard_rs

A roller derby scoreboard server. The state of the scoreboard is a trie of
dotted paths (`ScoreBoard.Game(g1).Team(1).Name`); clients follow it over a
websocket, and game snapshots are written to disk.

The library under `src/` is verified with Verus:

- `path_syntax`: how paths are cut into tokens (patterns) and keys (state).
- `path_trie`: the patterns clients and snapshots register, and which paths
  they cover; merging two pattern sets; picking the covered entries of a state.
- `state_trie`: the state itself: reading, removing, listing, copying and
  merging changes into it.
- `manager`, `snapshotter`, `ws`: the holder of the state and its listeners:
  the connected clients (and the paths they registered for) and the snapshot
  writer.
- `clock`: the game clock as a state machine driven by wall-clock readings.
- `event`, `base_path`, `args`: change events and their sources, the base
  directory, the command line options.

`app/` is the program around it: command line parsing, logging, the axum web
server and websocket, static files, writing snapshot files and the clock's
ticking task.
