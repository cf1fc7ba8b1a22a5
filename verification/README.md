# tetris

A two-player falling-block puzzle game. The rules live in the verified library
under `src/`; the terminal front end, the score file and the network link live in
`app/`.

- `src/pos.rs`: positions and sideways moves.
- `src/built_in.rs`: the piece table, `make_shape` (placing a piece on the
  board), and the byte layout of a grid of numbers.
- `src/block.rs`: a single piece: create, move, turn, and the lost-game marker.
- `src/map.rs`: the game: board, falling piece, score; moving, turning, dropping
  and locking pieces, clearing full rows.
- `src/game.rs`: key handling and the game tick.
- `src/random.rs`: the random choice of the next piece.
- `src/laws.rs`: properties that span several operations.
