# lib — a verified Othello board

`src/game.rs` holds the board types and the executable functions (reading a
board from bytes, the starting position, counts, move generation, playing and
taking back a move, the position score, the minimax search, text forms).
`src/model.rs` states the rules they follow as specification functions over a
mathematical model of the board (`BoardView`); `src/geometry.rs` holds the
lemmas about rays on the 8x8 grid; `src/laws.rs` states and proves the
properties that tie the functions together (taking a move back restores the
board, the move list is exactly the legal squares, a move turns over only the
opponent's pawns, and so on).

`app/` is the demonstration program and the C entry points for a WebAssembly
host.
