# seraphim

Game rules, game records and training-data framing for a PUCT-guided,
Alpha Zero-style game engine, written in Verus with their contracts proved.

`src/` is the verified library:

- `go/`: the 19x19 board under Tromp-Taylor rules (`board` holds the geometry
  of chains and liberties, `state` the game with its group tables, captures,
  positional superko and area scoring, `rules` the properties proved of them,
  `replay` the replay of an SGF record), and points (`pos`).
- `sgf_lex`, `sgf`: the SGF lexer and parser, and the main line of a record.
- `tictactoe`: the tic tac toe board, its text form and its rules.
- `io/tf`: TFRecord framing (length, masked CRC-32C checksums, payload).
- `example`: the `Example` and `SequenceExample` messages of training data.
- `session`, `generate`: the decisions of an interactive session and the
  bookkeeping of self-play generation.
- `game`, `text`: shared vocabulary and character helpers.

`app/` is the program around it: tree search and the model experts (floating
point), the terminal session, file handling for self-play generation, and
the JSON form of game records. `tests/` exercises the library.
