# catris

A falling-blocks game for several players who connect to one server with netcat or a
web browser. Players share one playing area: side by side in the traditional and bottle
modes, around a common center in the ring mode.

The game's logic is a library checked by Verus: every function states what it does in
`requires` / `ensures` clauses over mathematical models (sequences, maps, integers), and
Verus proves that the code meets them.

## Layout

- `src/` is the verified library.
  - `game_logic/` holds the blocks, the players and the game itself: moving, turning,
    drilling and landing blocks, clearing full rows, scores, bombs, players joining and
    leaving.
  - `ingame_ui.rs` draws a game into a screen buffer (`render.rs`), `views.rs` the menus,
    prompts and other screens.
  - `escapes.rs` parses the key presses that terminals send, `connection.rs` and
    `client.rs` the framing of what clients send, `lobby.rs` and `ip_tracker.rs` the
    bookkeeping of lobbies and connections, `high_scores.rs` the high scores file format.
  - Calls into std and outside crates (random numbers, lowercase, time parsing) go
    through a few small wrappers whose contracts say what the documentation promises.
- `tests/` runs the library on concrete games and screens.
- `app/` is the server around the library: sockets, the asynchronous loops that run a
  client's session, and file access.
